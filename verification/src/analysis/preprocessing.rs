//! Shrinking a system to the nodes that can be members of a quorum.

use crate::analysis::minimal_sets::node_range;
use crate::analysis::quorums::greatest_quorum_in;
use crate::node_set::{is_ascending, NodeId};
use crate::types::{is_quorum, lemma_models_of, models_of, Fbas, Node, NodeModel, QuorumSet, QuorumSetModel};
use vstd::prelude::*;

verus! {

/// The place of `v` in `kept`: the new id of the node `v`.
pub open spec fn new_id_of(kept: Seq<usize>, v: usize) -> Option<usize>
    decreases kept.len(),
{
    if kept.len() == 0 {
        None
    } else if kept.last() == v {
        Some((kept.len() - 1) as usize)
    } else {
        new_id_of(kept.drop_last(), v)
    }
}

/// The new ids of those of the first `n` of `ids` that are kept, in order.
pub open spec fn new_ids(kept: Seq<usize>, ids: Seq<usize>, n: int) -> Seq<usize>
    decreases n,
{
    if n <= 0 || n > ids.len() {
        Seq::empty()
    } else {
        match new_id_of(kept, ids[n - 1]) {
            Some(i) => new_ids(kept, ids, n - 1).push(i),
            None => new_ids(kept, ids, n - 1),
        }
    }
}

/// The first `n` of `sets`, each shrunk to the kept nodes.
pub open spec fn shrunk_all(kept: Seq<usize>, sets: Seq<QuorumSetModel>, n: int) -> Seq<
    QuorumSetModel,
>
    decreases sets, n,
{
    if n <= 0 || n > sets.len() {
        Seq::empty()
    } else {
        shrunk_all(kept, sets, n - 1).push(shrunk(kept, sets[n - 1]))
    }
}

/// The quorum set shrunk to the kept nodes: the same threshold, of the
/// validators those that are kept, under their new ids; the inner quorum
/// sets likewise.
pub open spec fn shrunk(kept: Seq<usize>, q: QuorumSetModel) -> QuorumSetModel
    decreases q,
{
    QuorumSetModel {
        threshold: q.threshold,
        validators: new_ids(kept, q.validators, q.validators.len() as int),
        inner: shrunk_all(kept, q.inner, q.inner.len() as int),
    }
}

/// The system of the kept nodes: node `i` is the node `kept[i]` of `net`,
/// with its quorum set shrunk to the kept nodes.
pub open spec fn shrunk_system(net: Seq<NodeModel>, kept: Seq<usize>) -> Seq<NodeModel> {
    Seq::new(
        kept.len(),
        |i: int|
            NodeModel {
                public_key: net[kept[i] as int].public_key,
                quorum_set: shrunk(kept, net[kept[i] as int].quorum_set),
            },
    )
}

/// The nodes of the system that the new ids of `s` stand for.
pub open spec fn old_ids(kept: Seq<usize>, s: Set<usize>) -> Set<usize> {
    Set::new(|v: usize| exists|i: usize| s.contains(i) && i < kept.len() && #[trigger] kept[i as int] == v)
}

/// How many of the members of `list` are members of `e`.
pub open spec fn count_good(list: Seq<usize>, e: Set<usize>) -> nat
    decreases list.len(),
{
    if list.len() == 0 {
        0
    } else {
        count_good(list.drop_last(), e) + if e.contains(list.last()) {
            1nat
        } else {
            0nat
        }
    }
}

/// The new id of a kept node is its place in `kept`; a node that is not
/// kept has none.
pub proof fn lemma_new_id_of(kept: Seq<usize>, v: usize)
    requires
        kept.len() <= usize::MAX,
    ensures
        match new_id_of(kept, v) {
            Some(i) => i < kept.len() && kept[i as int] == v,
            None => !kept.contains(v),
        },
    decreases kept.len(),
{
    if kept.len() > 0 && kept.last() != v {
        let front = kept.drop_last();
        lemma_new_id_of(front, v);
        match new_id_of(front, v) {
            Some(i) => {
                assert(front[i as int] == v);
            },
            None => {
                if kept.contains(v) {
                    let k = choose|k: int| 0 <= k < kept.len() && kept[k] == v;
                    assert(front[k] == v);
                }
            },
        }
    }
}

/// The good validators of a quorum set are counted over its list.
pub proof fn lemma_good_validators_count(q: QuorumSetModel, e: Set<usize>, n: int)
    requires
        0 <= n <= q.validators.len(),
    ensures
        q.good_validators(e, n) == count_good(q.validators.take(n), e),
    decreases n,
{
    if n > 0 {
        lemma_good_validators_count(q, e, n - 1);
        assert(q.validators.take(n).drop_last() =~= q.validators.take(n - 1));
    }
}

/// As many new ids are members of `s` as old ids are members of what `s`
/// stands for.
pub proof fn lemma_new_ids_count(kept: Seq<usize>, ids: Seq<usize>, s: Set<usize>, n: int)
    requires
        kept.no_duplicates(),
        kept.len() <= usize::MAX,
        0 <= n <= ids.len(),
    ensures
        count_good(new_ids(kept, ids, n), s) == count_good(ids.take(n), old_ids(kept, s)),
    decreases n,
{
    if n > 0 {
        lemma_new_ids_count(kept, ids, s, n - 1);
        let v = ids[n - 1];
        assert(ids.take(n).drop_last() =~= ids.take(n - 1));
        assert(ids.take(n).last() == v);
        lemma_new_id_of(kept, v);
        match new_id_of(kept, v) {
            Some(i) => {
                let front = new_ids(kept, ids, n - 1);
                assert(front.push(i).drop_last() =~= front);
                if old_ids(kept, s).contains(v) {
                    let j = choose|j: usize|
                        s.contains(j) && j < kept.len() && #[trigger] kept[j as int] == v;
                    assert(j == i);
                }
                if s.contains(i) {
                    assert(s.contains(i) && i < kept.len() && kept[i as int] == v);
                }
            },
            None => {
                if old_ids(kept, s).contains(v) {
                    let j = choose|j: usize|
                        s.contains(j) && j < kept.len() && #[trigger] kept[j as int] == v;
                    assert(kept.contains(v));
                }
            },
        }
    } else {
        assert(ids.take(0) =~= Seq::empty());
    }
}

/// Shrinking keeps length and order of the inner quorum sets.
pub proof fn lemma_shrunk_all(kept: Seq<usize>, sets: Seq<QuorumSetModel>, n: int)
    requires
        0 <= n <= sets.len(),
    ensures
        shrunk_all(kept, sets, n).len() == n,
        forall|i: int| 0 <= i < n ==> (#[trigger] shrunk_all(kept, sets, n)[i]) == shrunk(kept, sets[i]),
    decreases n,
{
    if n > 0 {
        lemma_shrunk_all(kept, sets, n - 1);
        assert forall|i: int| 0 <= i < n implies (#[trigger] shrunk_all(kept, sets, n)[i])
            == shrunk(kept, sets[i]) by {
            if i < n - 1 {
                assert(shrunk_all(kept, sets, n)[i] == shrunk_all(kept, sets, n - 1)[i]);
            }
        }
    }
}

/// As many shrunk inner quorum sets are satisfied by `s` as inner quorum
/// sets are satisfied by what `s` stands for.
pub proof fn lemma_shrunk_inner(kept: Seq<usize>, q: QuorumSetModel, s: Set<usize>, n: int)
    requires
        kept.no_duplicates(),
        kept.len() <= usize::MAX,
        0 <= n <= q.inner.len(),
    ensures
        shrunk(kept, q).good_inner(s, n) == q.good_inner(old_ids(kept, s), n),
    decreases q, 0int, n,
{
    lemma_shrunk_all(kept, q.inner, q.inner.len() as int);
    if n > 0 {
        lemma_shrunk_inner(kept, q, s, n - 1);
        lemma_shrunk_satisfied(kept, q.inner[n - 1], s);
    }
}

/// A shrunk quorum set is satisfied by a set of new ids exactly where the
/// quorum set is satisfied by the nodes that they stand for.
pub proof fn lemma_shrunk_satisfied(kept: Seq<usize>, q: QuorumSetModel, s: Set<usize>)
    requires
        kept.no_duplicates(),
        kept.len() <= usize::MAX,
    ensures
        shrunk(kept, q).is_satisfied_by(s) == q.is_satisfied_by(old_ids(kept, s)),
    decreases q, 1int, 0int,
{
    let small = shrunk(kept, q);
    lemma_shrunk_all(kept, q.inner, q.inner.len() as int);
    lemma_shrunk_inner(kept, q, s, q.inner.len() as int);
    lemma_good_validators_count(small, s, small.validators.len() as int);
    lemma_good_validators_count(q, old_ids(kept, s), q.validators.len() as int);
    lemma_new_ids_count(kept, q.validators, s, q.validators.len() as int);
    assert(small.validators.take(small.validators.len() as int) =~= small.validators);
    assert(q.validators.take(q.validators.len() as int) =~= q.validators);
}

/// The set of the numbers below `m` is finite.
pub proof fn lemma_below_finite(m: nat)
    ensures
        Set::new(|i: usize| i < m).finite(),
    decreases m,
{
    if m == 0 {
        assert(Set::new(|i: usize| i < m) =~= Set::empty());
    } else {
        lemma_below_finite((m - 1) as nat);
        if m - 1 <= usize::MAX {
            assert(Set::new(|i: usize| i < m) =~= Set::new(|i: usize| i < (m - 1) as nat).insert(
                (m - 1) as usize,
            ));
        } else {
            assert(Set::new(|i: usize| i < m) =~= Set::new(|i: usize| i < (m - 1) as nat));
        }
    }
}

/// Whether `kept` lists nodes of `net`, none twice.
pub open spec fn is_kept_list(net: Seq<NodeModel>, kept: Seq<usize>) -> bool {
    &&& kept.no_duplicates()
    &&& kept.len() <= usize::MAX
    &&& forall|i: int| 0 <= i < kept.len() ==> (#[trigger] kept[i]) < net.len()
}

/// A set of new ids is a quorum of the shrunk system exactly where the
/// nodes that it stands for are a quorum of the system.
pub proof fn lemma_shrunk_quorums(net: Seq<NodeModel>, kept: Seq<usize>, s: Set<usize>)
    requires
        is_kept_list(net, kept),
        forall|i: usize| s.contains(i) ==> i < kept.len(),
    ensures
        is_quorum(shrunk_system(net, kept), s) == is_quorum(net, old_ids(kept, s)),
{
    let small = shrunk_system(net, kept);
    let big = old_ids(kept, s);
    assert(s.finite()) by {
        lemma_below_finite(kept.len());
        vstd::set_lib::lemma_set_subset_finite(Set::new(|i: usize| i < kept.len()), s);
    }
    assert(big.finite()) by {
        vstd::seq_lib::seq_to_set_is_finite(kept);
        assert(big.subset_of(kept.to_set())) by {
            assert forall|v: usize| big.contains(v) implies kept.to_set().contains(v) by {
                let i = choose|i: usize|
                    s.contains(i) && i < kept.len() && #[trigger] kept[i as int] == v;
                assert(kept[i as int] == v);
            }
        }
        vstd::set_lib::lemma_set_subset_finite(kept.to_set(), big);
    }
    assert((s.len() > 0) == (big.len() > 0)) by {
        if s.len() > 0 {
            if forall|i: usize| !s.contains(i) {
                assert(s =~= Set::empty());
            }
            let i = choose|i: usize| s.contains(i);
            assert(s.contains(i) && i < kept.len() && kept[i as int] == kept[i as int]);
            assert(big.contains(kept[i as int]));
            if big.len() == 0 {
                big.lemma_len0_is_empty();
            }
        }
        if big.len() > 0 {
            if forall|v: usize| !big.contains(v) {
                assert(big =~= Set::empty());
            }
            let v = choose|v: usize| big.contains(v);
            let i = choose|i: usize|
                s.contains(i) && i < kept.len() && #[trigger] kept[i as int] == v;
            if s.len() == 0 {
                s.lemma_len0_is_empty();
            }
        }
    }
    assert forall|i: usize| s.contains(i) implies small[i as int].quorum_set.is_satisfied_by(s)
        == net[kept[i as int] as int].quorum_set.is_satisfied_by(big) by {
        lemma_shrunk_satisfied(kept, net[kept[i as int] as int].quorum_set, s);
    }
    if is_quorum(small, s) {
        assert forall|v: usize| big.contains(v) implies v < net.len()
            && net[v as int].quorum_set.is_satisfied_by(big) by {
            let i = choose|i: usize|
                s.contains(i) && i < kept.len() && #[trigger] kept[i as int] == v;
            assert(small[i as int].quorum_set.is_satisfied_by(s));
        }
    }
    if is_quorum(net, big) {
        assert forall|i: usize| s.contains(i) implies i < small.len()
            && small[i as int].quorum_set.is_satisfied_by(s) by {
            assert(s.contains(i) && i < kept.len() && kept[i as int] == kept[i as int]);
            assert(big.contains(kept[i as int]));
        }
    }
}

/// Whether a quorum of `small` stands for `q`.
pub open spec fn is_kept_quorum(small: Seq<NodeModel>, kept: Seq<usize>, q: Set<usize>) -> bool {
    exists|s: Set<usize>| #[trigger] old_ids(kept, s) == q && is_quorum(small, s)
}

/// A quorum made of kept nodes is what a set of new ids stands for.
pub proof fn lemma_quorum_of_kept(net: Seq<NodeModel>, kept: Seq<usize>, q: Set<usize>) -> (s: Set<
    usize,
>)
    requires
        is_kept_list(net, kept),
        is_quorum(net, q),
        q.subset_of(kept.to_set()),
    ensures
        old_ids(kept, s) == q,
        forall|i: usize| s.contains(i) ==> i < kept.len(),
        is_quorum(shrunk_system(net, kept), s),
{
    let s = Set::new(|i: usize| i < kept.len() && q.contains(kept[i as int]));
    assert(old_ids(kept, s) =~= q) by {
        assert forall|v: usize| q.contains(v) implies old_ids(kept, s).contains(v) by {
            assert(kept.contains(v));
            let k = choose|k: int| 0 <= k < kept.len() && kept[k] == v;
            let i = k as usize;
            assert(s.contains(i) && i < kept.len() && kept[i as int] == v);
        }
    }
    lemma_shrunk_quorums(net, kept, s);
    s
}

impl QuorumSet {
    /// The quorum set shrunk to the kept nodes. `table` holds for each node
    /// its new id, where it is kept.
    pub fn shrunk_to(&self, kept: &Vec<NodeId>, table: &Vec<Option<usize>>) -> (q: QuorumSet)
        requires
            forall|v: usize|
                v < table@.len() ==> (#[trigger] table@[v as int]) == new_id_of(kept@, v),
            forall|v: usize| v >= table@.len() ==> (#[trigger] new_id_of(kept@, v)).is_none(),
        ensures
            q@ == shrunk(kept@, self@),
        decreases self,
    {
        let mut validators: Vec<NodeId> = Vec::new();
        let mut i: usize = 0;
        while i < self.validators.len()
            invariant
                i <= self.validators.len(),
                forall|v: usize|
                    v < table@.len() ==> (#[trigger] table@[v as int]) == new_id_of(kept@, v),
                forall|v: usize| v >= table@.len() ==> (#[trigger] new_id_of(kept@, v)).is_none(),
                validators@ == new_ids(kept@, self.validators@, i as int),
            decreases self.validators.len() - i,
        {
            let v = self.validators[i];
            if v < table.len() {
                match table[v] {
                    Some(id) => {
                        validators.push(id);
                    },
                    None => {},
                }
            } else {
                assert(new_id_of(kept@, v).is_none());
            }
            i = i + 1;
        }
        proof {
            lemma_models_of(self.inner_quorum_sets@);
        }
        let mut inner: Vec<QuorumSet> = Vec::new();
        let mut k: usize = 0;
        while k < self.inner_quorum_sets.len()
            invariant
                k <= self.inner_quorum_sets.len(),
                forall|v: usize|
                    v < table@.len() ==> (#[trigger] table@[v as int]) == new_id_of(kept@, v),
                forall|v: usize| v >= table@.len() ==> (#[trigger] new_id_of(kept@, v)).is_none(),
                self@.inner.len() == self.inner_quorum_sets@.len(),
                forall|j: int|
                    0 <= j < self.inner_quorum_sets@.len() ==> (#[trigger] self@.inner[j])
                        == self.inner_quorum_sets@[j]@,
                models_of(inner@) == shrunk_all(kept@, self@.inner, k as int),
            decreases self.inner_quorum_sets.len() - k,
        {
            let q = self.inner_quorum_sets[k].shrunk_to(kept, table);
            let ghost before = inner@;
            inner.push(q);
            assert(inner@.drop_last() =~= before);
            k = k + 1;
        }
        QuorumSet { threshold: self.threshold, validators, inner_quorum_sets: inner }
    }
}

/// The system shrunk to the nodes that are members of a quorum, and these
/// nodes in ascending order: node `i` of the shrunk system is the node
/// `kept[i]` of `fbas`. A node is dropped only if no quorum has it, so that
/// the quorums of the shrunk system stand for the quorums of `fbas`, one for
/// one.
pub fn reduce(fbas: &Fbas) -> (r: (Fbas, Vec<NodeId>))
    ensures
        is_ascending(r.1@),
        is_kept_list(fbas@, r.1@),
        forall|v: usize|
            r.1@.contains(v) <==> exists|q: Set<usize>| #[trigger] is_quorum(fbas@, q) && q.contains(v),
        r.0@ == shrunk_system(fbas@, r.1@),
        forall|s: Set<usize>|
            (forall|i: usize| s.contains(i) ==> i < r.1@.len()) ==> (#[trigger] is_quorum(r.0@, s)
                == is_quorum(fbas@, old_ids(r.1@, s))),
        forall|q: Set<usize>| #[trigger] is_quorum(fbas@, q) ==> is_kept_quorum(r.0@, r.1@, q),
{
    let n = fbas.nodes.len();
    let all = node_range(n);
    let g = greatest_quorum_in(fbas, &all);
    let kept = g.members();
    let ghost net = fbas@;
    proof {
        g.lemma_finite();
        assert(kept@.no_duplicates());
        assert forall|i: int| 0 <= i < kept@.len() implies (#[trigger] kept@[i]) < net.len() by {
            assert(kept@.contains(kept@[i]));
            assert(g@.contains(kept@[i]));
            assert(all@.contains(kept@[i]));
        }
        assert forall|v: usize|
            kept@.contains(v) <==> exists|q: Set<usize>|
                #[trigger] is_quorum(net, q) && q.contains(v) by {
            if kept@.contains(v) {
                assert(g@.contains(v));
                if g@.len() == 0 {
                    g@.lemma_len0_is_empty();
                }
                assert(is_quorum(net, g@) && g@.contains(v));
            }
            if exists|q: Set<usize>| #[trigger] is_quorum(net, q) && q.contains(v) {
                let q = choose|q: Set<usize>| #[trigger] is_quorum(net, q) && q.contains(v);
                assert(q.subset_of(all@));
                assert(q.subset_of(g@));
                assert(kept@.to_set().contains(v));
            }
        }
    }
    let mut table: Vec<Option<usize>> = Vec::new();
    let mut v: usize = 0;
    while v < n
        invariant
            v <= n,
            table@.len() == v,
            forall|w: int| 0 <= w < v ==> (#[trigger] table@[w]).is_none(),
        decreases n - v,
    {
        table.push(None);
        v = v + 1;
    }
    let mut i: usize = 0;
    assert(kept@.take(0) =~= Seq::empty());
    while i < kept.len()
        invariant
            i <= kept.len(),
            n == net.len(),
            table@.len() == n,
            forall|j: int| 0 <= j < kept@.len() ==> (#[trigger] kept@[j]) < n,
            forall|w: usize|
                w < n ==> (#[trigger] table@[w as int]) == new_id_of(kept@.take(i as int), w),
        decreases kept.len() - i,
    {
        let w = kept[i];
        table.set(w, Some(i));
        proof {
            assert(kept@.take(i + 1).last() == w);
            assert(kept@.take(i + 1).drop_last() =~= kept@.take(i as int));
        }
        i = i + 1;
    }
    proof {
        assert(kept@.take(kept@.len() as int) =~= kept@);
        assert forall|w: usize| w >= table@.len() implies (#[trigger] new_id_of(
            kept@,
            w,
        )).is_none() by {
            lemma_new_id_of(kept@, w);
            if new_id_of(kept@, w).is_some() {
                let k = new_id_of(kept@, w).unwrap();
                assert(kept@[k as int] < n);
            }
        }
    }
    let mut nodes: Vec<Node> = Vec::new();
    let mut k: usize = 0;
    while k < kept.len()
        invariant
            k <= kept.len(),
            n == net.len(),
            net == fbas@,
            forall|j: int| 0 <= j < kept@.len() ==> (#[trigger] kept@[j]) < n,
            forall|w: usize|
                w < table@.len() ==> (#[trigger] table@[w as int]) == new_id_of(kept@, w),
            forall|w: usize| w >= table@.len() ==> (#[trigger] new_id_of(kept@, w)).is_none(),
            nodes@.len() == k,
            forall|j: int| 0 <= j < k ==> (#[trigger] nodes@[j])@ == shrunk_system(net, kept@)[j],
        decreases kept.len() - k,
    {
        let old = &fbas.nodes[kept[k]];
        assert(net[kept@[k as int] as int] == old@);
        nodes.push(
            Node {
                public_key: old.public_key.clone(),
                quorum_set: old.quorum_set.shrunk_to(&kept, &table),
            },
        );
        k = k + 1;
    }
    let reduced = Fbas { nodes };
    proof {
        assert(reduced@ =~= shrunk_system(net, kept@));
        assert forall|s: Set<usize>|
            (forall|i: usize| s.contains(i) ==> i < kept@.len()) implies (#[trigger] is_quorum(
            reduced@,
            s,
        ) == is_quorum(net, old_ids(kept@, s))) by {
            lemma_shrunk_quorums(net, kept@, s);
        }
        assert forall|q: Set<usize>| #[trigger] is_quorum(net, q) implies is_kept_quorum(
            reduced@,
            kept@,
            q,
        ) by {
            assert(q.subset_of(all@));
            assert(q.subset_of(g@));
            let s = lemma_quorum_of_kept(net, kept@, q);
            assert(old_ids(kept@, s) == q && is_quorum(reduced@, s));
        }
    }
    (reduced, kept)
}

} // verus!
