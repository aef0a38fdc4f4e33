//! Groups of nodes that can stand in for one another.

use crate::analysis::sets::views;
use crate::node_set::{NodeId, NodeIdSet};
use crate::types::{is_quorum, lemma_models_of, Fbas, NodeModel, QuorumSet, QuorumSetModel};
use vstd::prelude::*;

verus! {

/// How often `v` occurs among the first `n` of `list`.
pub open spec fn times(list: Seq<usize>, v: usize, n: int) -> nat
    decreases n,
{
    if n <= 0 || n > list.len() {
        0
    } else {
        times(list, v, n - 1) + if list[n - 1] == v {
            1nat
        } else {
            0nat
        }
    }
}

/// Whether every list of validators in `q`, at any depth, names `a` as
/// often as `b`.
pub open spec fn names_alike(q: QuorumSetModel, a: usize, b: usize) -> bool
    decreases q,
{
    &&& times(q.validators, a, q.validators.len() as int) == times(
        q.validators,
        b,
        q.validators.len() as int,
    )
    &&& forall|i: int| 0 <= i < q.inner.len() ==> names_alike(#[trigger] q.inner[i], a, b)
}

/// Whether the nodes `a` and `b` can stand in for one another: they have
/// the same quorum set, and every quorum set of the system names the one as
/// often as the other.
pub open spec fn interchangeable(net: Seq<NodeModel>, a: usize, b: usize) -> bool {
    &&& a < net.len()
    &&& b < net.len()
    &&& net[a as int].quorum_set == net[b as int].quorum_set
    &&& forall|i: int| 0 <= i < net.len() ==> names_alike((#[trigger] net[i]).quorum_set, a, b)
}

/// The node that takes the place of `v` when `a` and `b` change places.
pub open spec fn exchanged(v: usize, a: usize, b: usize) -> usize {
    if v == a {
        b
    } else if v == b {
        a
    } else {
        v
    }
}

/// The set `s` with `a` and `b` changing places.
pub open spec fn exchange(s: Set<usize>, a: usize, b: usize) -> Set<usize> {
    Set::new(|v: usize| s.contains(exchanged(v, a, b)))
}

/// Naming alike is symmetric.
pub proof fn lemma_names_alike_symmetric(q: QuorumSetModel, a: usize, b: usize)
    requires
        names_alike(q, a, b),
    ensures
        names_alike(q, b, a),
    decreases q,
{
    assert forall|i: int| 0 <= i < q.inner.len() implies names_alike(
        #[trigger] q.inner[i],
        b,
        a,
    ) by {
        lemma_names_alike_symmetric(q.inner[i], a, b);
    }
}

/// Naming alike is transitive.
pub proof fn lemma_names_alike_transitive(q: QuorumSetModel, a: usize, b: usize, c: usize)
    requires
        names_alike(q, a, b),
        names_alike(q, b, c),
    ensures
        names_alike(q, a, c),
    decreases q,
{
    assert forall|i: int| 0 <= i < q.inner.len() implies names_alike(
        #[trigger] q.inner[i],
        a,
        c,
    ) by {
        lemma_names_alike_transitive(q.inner[i], a, b, c);
    }
}

/// A quorum set names a node as often as itself.
pub proof fn lemma_names_alike_reflexive(q: QuorumSetModel, a: usize)
    ensures
        names_alike(q, a, a),
    decreases q,
{
    assert forall|i: int| 0 <= i < q.inner.len() implies names_alike(
        #[trigger] q.inner[i],
        a,
        a,
    ) by {
        lemma_names_alike_reflexive(q.inner[i], a);
    }
}

/// To stand in for one another is an equivalence: it holds of a node and
/// itself, it holds both ways, and it carries over.
pub proof fn lemma_interchangeable_equivalence(net: Seq<NodeModel>, a: usize, b: usize, c: usize)
    ensures
        a < net.len() ==> interchangeable(net, a, a),
        interchangeable(net, a, b) ==> interchangeable(net, b, a),
        interchangeable(net, a, b) && interchangeable(net, b, c) ==> interchangeable(net, a, c),
{
    if a < net.len() {
        assert forall|i: int| 0 <= i < net.len() implies names_alike(
            (#[trigger] net[i]).quorum_set,
            a,
            a,
        ) by {
            lemma_names_alike_reflexive(net[i].quorum_set, a);
        }
    }
    if interchangeable(net, a, b) {
        assert forall|i: int| 0 <= i < net.len() implies names_alike(
            (#[trigger] net[i]).quorum_set,
            b,
            a,
        ) by {
            lemma_names_alike_symmetric(net[i].quorum_set, a, b);
        }
        if interchangeable(net, b, c) {
            assert forall|i: int| 0 <= i < net.len() implies names_alike(
                (#[trigger] net[i]).quorum_set,
                a,
                c,
            ) by {
                lemma_names_alike_transitive(net[i].quorum_set, a, b, c);
            }
        }
    }
}

/// The count of an indicator: 1 where it holds.
pub open spec fn one_if(b: bool) -> int {
    if b {
        1
    } else {
        0
    }
}

/// How the good validators change when `a` and `b` change places.
pub proof fn lemma_exchange_validators(
    q: QuorumSetModel,
    e: Set<usize>,
    a: usize,
    b: usize,
    n: int,
)
    requires
        0 <= n <= q.validators.len(),
        a != b,
    ensures
        q.good_validators(exchange(e, a, b), n) + times(q.validators, a, n) * one_if(
            e.contains(a),
        ) + times(q.validators, b, n) * one_if(e.contains(b)) == q.good_validators(e, n) + times(
            q.validators,
            a,
            n,
        ) * one_if(e.contains(b)) + times(q.validators, b, n) * one_if(e.contains(a)),
    decreases n,
{
    if n > 0 {
        lemma_exchange_validators(q, e, a, b, n - 1);
        let v = q.validators[n - 1];
        assert(exchange(e, a, b).contains(v) == e.contains(exchanged(v, a, b)));
        let ta = times(q.validators, a, n - 1) as int;
        let tb = times(q.validators, b, n - 1) as int;
        let xa = one_if(e.contains(a));
        let xb = one_if(e.contains(b));
        assert((ta + 1) * xa == ta * xa + xa) by (nonlinear_arith);
        assert((ta + 1) * xb == ta * xb + xb) by (nonlinear_arith);
        assert((tb + 1) * xa == tb * xa + xa) by (nonlinear_arith);
        assert((tb + 1) * xb == tb * xb + xb) by (nonlinear_arith);
    }
}

/// The inner quorum sets that are good stay as many when `a` and `b`
/// change places.
pub proof fn lemma_exchange_inner(q: QuorumSetModel, e: Set<usize>, a: usize, b: usize, n: int)
    requires
        0 <= n <= q.inner.len(),
        names_alike(q, a, b),
        a != b,
    ensures
        q.good_inner(exchange(e, a, b), n) == q.good_inner(e, n),
    decreases q, 0int, n,
{
    if n > 0 {
        lemma_exchange_inner(q, e, a, b, n - 1);
        assert(names_alike(q.inner[n - 1], a, b));
        lemma_exchange_satisfied(q.inner[n - 1], e, a, b);
    }
}

/// A quorum set that names `a` as often as `b` is satisfied by a set
/// exactly where it is satisfied by the set with `a` and `b` changing
/// places.
pub proof fn lemma_exchange_satisfied(q: QuorumSetModel, e: Set<usize>, a: usize, b: usize)
    requires
        names_alike(q, a, b),
    ensures
        q.is_satisfied_by(exchange(e, a, b)) == q.is_satisfied_by(e),
    decreases q, 1int, 0int,
{
    if a == b {
        assert(exchange(e, a, b) =~= e);
    } else {
        lemma_exchange_validators(q, e, a, b, q.validators.len() as int);
        lemma_exchange_inner(q, e, a, b, q.inner.len() as int);
    }
}

/// Where two nodes can stand in for one another, a quorum stays a quorum
/// when they change places.
pub proof fn lemma_exchange_quorum(net: Seq<NodeModel>, s: Set<usize>, a: usize, b: usize)
    requires
        interchangeable(net, a, b),
        is_quorum(net, s),
    ensures
        is_quorum(net, exchange(s, a, b)),
{
    let t = exchange(s, a, b);
    assert(t.finite()) by {
        assert(t.subset_of(s.insert(a).insert(b)));
        vstd::set_lib::lemma_set_subset_finite(s.insert(a).insert(b), t);
    }
    assert(t.len() > 0) by {
        if forall|v: usize| !s.contains(v) {
            assert(s =~= Set::empty());
        }
        let v = choose|v: usize| s.contains(v);
        assert(t.contains(exchanged(v, a, b)));
        if t.len() == 0 {
            t.lemma_len0_is_empty();
        }
    }
    assert forall|v: usize| t.contains(v) implies v < net.len()
        && net[v as int].quorum_set.is_satisfied_by(t) by {
        let w = exchanged(v, a, b);
        assert(s.contains(w));
        assert(net[v as int].quorum_set == net[w as int].quorum_set);
        assert(names_alike(net[v as int].quorum_set, a, b));
        lemma_exchange_satisfied(net[v as int].quorum_set, s, a, b);
    }
}

/// How often `list` names `v`.
pub fn count_in(list: &Vec<NodeId>, v: NodeId) -> (c: usize)
    ensures
        c == times(list@, v, list@.len() as int),
{
    let mut c: usize = 0;
    let mut i: usize = 0;
    while i < list.len()
        invariant
            i <= list.len(),
            c == times(list@, v, i as int),
            c <= i,
        decreases list.len() - i,
    {
        if list[i] == v {
            c = c + 1;
        }
        i = i + 1;
    }
    c
}

/// Whether two lists hold the same ids in the same order.
pub fn same_list(a: &Vec<NodeId>, b: &Vec<NodeId>) -> (r: bool)
    ensures
        r == (a@ == b@),
{
    if a.len() != b.len() {
        return false;
    }
    let mut i: usize = 0;
    while i < a.len()
        invariant
            i <= a.len(),
            a@.len() == b@.len(),
            forall|k: int| 0 <= k < i ==> a@[k] == b@[k],
        decreases a.len() - i,
    {
        if a[i] != b[i] {
            return false;
        }
        i = i + 1;
    }
    assert(a@ =~= b@);
    true
}

impl QuorumSet {
    /// Whether both quorum sets have the same threshold, the same
    /// validators in the same order and the same inner quorum sets.
    pub fn same_as(&self, other: &QuorumSet) -> (r: bool)
        ensures
            r == (self@ == other@),
        decreases self,
    {
        proof {
            lemma_models_of(self.inner_quorum_sets@);
            lemma_models_of(other.inner_quorum_sets@);
        }
        if self.threshold != other.threshold || !same_list(&self.validators, &other.validators)
            || self.inner_quorum_sets.len() != other.inner_quorum_sets.len() {
            return false;
        }
        let mut i: usize = 0;
        while i < self.inner_quorum_sets.len()
            invariant
                i <= self.inner_quorum_sets.len(),
                self.inner_quorum_sets@.len() == other.inner_quorum_sets@.len(),
                self@.inner.len() == self.inner_quorum_sets@.len(),
                other@.inner.len() == other.inner_quorum_sets@.len(),
                forall|j: int|
                    0 <= j < self.inner_quorum_sets@.len() ==> (#[trigger] self@.inner[j])
                        == self.inner_quorum_sets@[j]@,
                forall|j: int|
                    0 <= j < other.inner_quorum_sets@.len() ==> (#[trigger] other@.inner[j])
                        == other.inner_quorum_sets@[j]@,
                forall|k: int| 0 <= k < i ==> self@.inner[k] == other@.inner[k],
            decreases self.inner_quorum_sets.len() - i,
        {
            if !self.inner_quorum_sets[i].same_as(&other.inner_quorum_sets[i]) {
                assert(self@.inner[i as int] != other@.inner[i as int]);
                return false;
            }
            i = i + 1;
        }
        assert(self@.inner =~= other@.inner);
        true
    }

    /// Whether every list of validators in the quorum set, at any depth,
    /// names `a` as often as `b`.
    pub fn names_alike(&self, a: NodeId, b: NodeId) -> (r: bool)
        ensures
            r == names_alike(self@, a, b),
        decreases self,
    {
        proof {
            lemma_models_of(self.inner_quorum_sets@);
        }
        if count_in(&self.validators, a) != count_in(&self.validators, b) {
            return false;
        }
        let mut i: usize = 0;
        while i < self.inner_quorum_sets.len()
            invariant
                i <= self.inner_quorum_sets.len(),
                self@.inner.len() == self.inner_quorum_sets@.len(),
                forall|j: int|
                    0 <= j < self.inner_quorum_sets@.len() ==> (#[trigger] self@.inner[j])
                        == self.inner_quorum_sets@[j]@,
                forall|k: int| 0 <= k < i ==> names_alike(#[trigger] self@.inner[k], a, b),
            decreases self.inner_quorum_sets.len() - i,
        {
            if !self.inner_quorum_sets[i].names_alike(a, b) {
                assert(!names_alike(self@.inner[i as int], a, b));
                return false;
            }
            i = i + 1;
        }
        true
    }
}

/// Whether the nodes `a` and `b` can stand in for one another.
pub fn are_interchangeable(fbas: &Fbas, a: NodeId, b: NodeId) -> (r: bool)
    ensures
        r == interchangeable(fbas@, a, b),
{
    if a >= fbas.nodes.len() || b >= fbas.nodes.len() {
        return false;
    }
    assert(fbas@[a as int] == fbas.nodes@[a as int]@);
    assert(fbas@[b as int] == fbas.nodes@[b as int]@);
    if !fbas.nodes[a].quorum_set.same_as(&fbas.nodes[b].quorum_set) {
        return false;
    }
    let mut i: usize = 0;
    while i < fbas.nodes.len()
        invariant
            i <= fbas.nodes.len(),
            forall|k: int| 0 <= k < i ==> names_alike((#[trigger] fbas@[k]).quorum_set, a, b),
        decreases fbas.nodes.len() - i,
    {
        assert(fbas@[i as int] == fbas.nodes@[i as int]@);
        if !fbas.nodes[i].quorum_set.names_alike(a, b) {
            return false;
        }
        i = i + 1;
    }
    true
}

/// Whether one of `clusters` has `v`.
pub open spec fn is_clustered(clusters: Seq<Set<usize>>, v: usize) -> bool {
    exists|k: int| 0 <= k < clusters.len() && (#[trigger] clusters[k]).contains(v)
}

/// Whether `clusters` divides the nodes of `net` into the groups of nodes
/// that can stand in for one another: every node is in a cluster, and two
/// nodes are in the same cluster exactly where they can stand in for one
/// another.
pub open spec fn is_symmetric_partition(net: Seq<NodeModel>, clusters: Seq<Set<usize>>) -> bool {
    &&& forall|v: usize| v < net.len() ==> #[trigger] is_clustered(clusters, v)
    &&& forall|k: int| 0 <= k < clusters.len() ==> (#[trigger] clusters[k]) != Set::<usize>::empty()
    &&& forall|k1: int, k2: int, a: usize, b: usize|
        0 <= k1 < clusters.len() && 0 <= k2 < clusters.len() && #[trigger] clusters[k1].contains(a)
            && #[trigger] clusters[k2].contains(b) ==> a < net.len() && b < net.len() && ((k1
            == k2) == interchangeable(net, a, b))
}

/// Whether each cluster has a member below every member of the clusters
/// after it: whether the clusters are in the order of their least members.
pub open spec fn is_ordered_by_least(clusters: Seq<Set<usize>>) -> bool {
    forall|k1: int, k2: int, a: usize|
        #![trigger clusters[k2].contains(a), clusters[k1]]
        0 <= k1 < k2 < clusters.len() && clusters[k2].contains(a) ==> has_member_below(
            clusters[k1],
            a,
        )
}

/// Whether `s` has a member below `a`.
pub open spec fn has_member_below(s: Set<usize>, a: usize) -> bool {
    exists|b: usize| b < a && s.contains(b)
}

/// The groups of nodes that can stand in for one another, in the order of
/// their least members.
pub fn find_symmetric_clusters(fbas: &Fbas) -> (clusters: Vec<NodeIdSet>)
    ensures
        is_symmetric_partition(fbas@, views(clusters@)),
        is_ordered_by_least(views(clusters@)),
{
    let ghost net = fbas@;
    let n = fbas.nodes.len();
    let mut clusters: Vec<NodeIdSet> = Vec::new();
    let mut reps: Vec<NodeId> = Vec::new();
    let mut v: usize = 0;
    while v < n
        invariant
            v <= n,
            n == net.len(),
            net == fbas@,
            reps@.len() == clusters@.len(),
            forall|k: int| 0 <= k < clusters@.len() ==> (#[trigger] clusters@[k])@.contains(reps@[k]),
            forall|w: usize| w < v ==> #[trigger] is_clustered(views(clusters@), w),
            forall|k: int, a: usize|
                0 <= k < clusters@.len() && #[trigger] clusters@[k]@.contains(a) ==> a < v
                    && interchangeable(net, reps@[k], a),
            forall|k1: int, k2: int|
                0 <= k1 < reps@.len() && 0 <= k2 < reps@.len() && k1 != k2 ==> !interchangeable(
                    net,
                    #[trigger] reps@[k1],
                    #[trigger] reps@[k2],
                ),
            forall|k: int| 0 <= k < reps@.len() ==> (#[trigger] reps@[k]) < v,
            forall|k1: int, k2: int|
                0 <= k1 < k2 < reps@.len() ==> (#[trigger] reps@[k1]) < (#[trigger] reps@[k2]),
            forall|k: int, a: usize|
                0 <= k < clusters@.len() && #[trigger] clusters@[k]@.contains(a) ==> reps@[k] <= a,
        decreases n - v,
    {
        let ghost before = clusters@;
        let mut k: usize = 0;
        let mut placed = false;
        while k < reps.len() && !placed
            invariant
                k <= reps.len(),
                v < n,
                n == net.len(),
                net == fbas@,
                reps@.len() == clusters@.len(),
                reps@.len() == before.len(),
                !placed ==> clusters@ == before,
                !placed ==> forall|j: int|
                    0 <= j < k ==> !interchangeable(net, #[trigger] reps@[j], v),
                placed ==> 0 < k <= reps@.len() && interchangeable(net, reps@[k - 1], v)
                    && clusters@.len() == before.len() && clusters@[k - 1]@ == before[k - 1]@.insert(
                    v,
                ) && forall|j: int|
                    0 <= j < before.len() && j != k - 1 ==> (#[trigger] clusters@[j])@
                        == before[j]@,
            decreases reps.len() - k, (if placed { 0nat } else { 1nat }),
        {
            if are_interchangeable(fbas, reps[k], v) {
                let mut cluster = clusters.remove(k);
                cluster.insert(v);
                clusters.insert(k, cluster);
                placed = true;
            }
            k = k + 1;
        }
        if !placed {
            let mut cluster = NodeIdSet::new();
            cluster.insert(v);
            let ghost reps_before = reps@;
            clusters.push(cluster);
            reps.push(v);
            proof {
                lemma_interchangeable_equivalence(net, v, v, v);
                assert forall|w: usize| w < v + 1 implies #[trigger] is_clustered(
                    views(clusters@),
                    w,
                ) by {
                    if w < v {
                        assert(is_clustered(views(before), w));
                        let j = choose|j: int|
                            0 <= j < before.len() && (#[trigger] views(before)[j]).contains(w);
                        assert(views(clusters@)[j].contains(w));
                    } else {
                        assert(views(clusters@)[before.len() as int].contains(w));
                    }
                }
                assert forall|k1: int, k2: int|
                    0 <= k1 < reps@.len() && 0 <= k2 < reps@.len() && k1
                        != k2 implies !interchangeable(
                    net,
                    #[trigger] reps@[k1],
                    #[trigger] reps@[k2],
                ) by {
                    if k1 == reps@.len() - 1 {
                        assert(reps@[k2] == reps_before[k2]);
                        assert(!interchangeable(net, reps_before[k2], v));
                        lemma_interchangeable_equivalence(net, v, reps@[k2], v);
                    } else if k2 == reps@.len() - 1 {
                        assert(reps@[k1] == reps_before[k1]);
                        assert(!interchangeable(net, reps_before[k1], v));
                    } else {
                        assert(reps@[k1] == reps_before[k1]);
                        assert(reps@[k2] == reps_before[k2]);
                    }
                }
            }
        } else {
            proof {
                assert forall|w: usize| w < v + 1 implies #[trigger] is_clustered(
                    views(clusters@),
                    w,
                ) by {
                    if w < v {
                        assert(is_clustered(views(before), w));
                        let j = choose|j: int|
                            0 <= j < before.len() && (#[trigger] views(before)[j]).contains(w);
                        assert(views(clusters@)[j].contains(w));
                    } else {
                        assert(views(clusters@)[k - 1].contains(w));
                    }
                }
                assert forall|j: int, a: usize|
                    0 <= j < clusters@.len() && #[trigger] clusters@[j]@.contains(a) implies a < v
                    + 1 && interchangeable(net, reps@[j], a) && reps@[j] <= a by {
                    if j == k - 1 && a == v {
                    } else {
                        assert(before[j]@.contains(a));
                    }
                }
                assert forall|j: int| 0 <= j < clusters@.len() implies (
                #[trigger] clusters@[j])@.contains(reps@[j]) by {
                    assert(before[j]@.contains(reps@[j]));
                }
            }
        }
        v = v + 1;
    }
    proof {
        let sets = views(clusters@);
        assert forall|k: int| 0 <= k < sets.len() implies (#[trigger] sets[k]) != Set::<
            usize,
        >::empty() by {
            assert(clusters@[k]@.contains(reps@[k]));
            assert(sets[k].contains(reps@[k]));
        }
        assert forall|k1: int, k2: int, a: usize, b: usize|
            0 <= k1 < sets.len() && 0 <= k2 < sets.len() && #[trigger] sets[k1].contains(a)
                && #[trigger] sets[k2].contains(b) implies a < net.len() && b < net.len() && ((k1
            == k2) == interchangeable(net, a, b)) by {
            assert(clusters@[k1]@.contains(a));
            assert(clusters@[k2]@.contains(b));
            let r1 = reps@[k1];
            let r2 = reps@[k2];
            lemma_interchangeable_equivalence(net, r1, a, b);
            lemma_interchangeable_equivalence(net, a, r1, b);
            lemma_interchangeable_equivalence(net, r2, b, a);
            lemma_interchangeable_equivalence(net, b, r2, r1);
            lemma_interchangeable_equivalence(net, r1, b, r2);
            lemma_interchangeable_equivalence(net, a, b, r2);
            lemma_interchangeable_equivalence(net, r1, a, r2);
        }
        assert forall|k1: int, k2: int, a: usize|
            #![trigger sets[k2].contains(a), sets[k1]]
            0 <= k1 < k2 < sets.len() && sets[k2].contains(a) implies has_member_below(
            sets[k1],
            a,
        ) by {
            assert(clusters@[k2]@.contains(a));
            assert(clusters@[k1]@.contains(reps@[k1]));
            assert(reps@[k1] < reps@[k2]);
            assert(reps@[k1] < a && sets[k1].contains(reps@[k1]));
        }
    }
    clusters
}

} // verus!
