//! The minimal blocking sets of a system.

use crate::analysis::minimal_quorums::find_minimal_members;
use crate::analysis::minimal_sets::{
    is_blocking_set, is_minimal, node_range, within_nodes, Family,
};
use crate::analysis::quorums::greatest_quorum_in;
use crate::analysis::sets::{is_antichain, is_canonical, views};
use crate::node_set::NodeIdSet;
use crate::types::{is_quorum, lemma_models_of, Fbas, NodeModel, QuorumSet, QuorumSetModel};
use vstd::prelude::*;

verus! {

/// Whether `b` is a minimal blocking set: a blocking set no proper subset
/// of which is a blocking set.
pub open spec fn is_minimal_blocking_set(net: Seq<NodeModel>, b: Set<usize>) -> bool {
    &&& is_blocking_set(net, b)
    &&& forall|t: Set<usize>| t.subset_of(b) && t != b ==> !is_blocking_set(net, t)
}

/// Every node of a minimal blocking set is a member of some quorum.
pub proof fn lemma_minimal_blocking_set_in_quorums(net: Seq<NodeModel>, b: Set<usize>, v: usize)
    requires
        is_minimal_blocking_set(net, b),
        b.contains(v),
    ensures
        exists|q: Set<usize>| is_quorum(net, q) && q.contains(v),
{
    let rest = b.remove(v);
    assert(rest.subset_of(b) && rest != b);
    assert(!is_blocking_set(net, rest));
    assert(rest.finite());
    assert(within_nodes(net, rest));
    let q = choose|q: Set<usize>| is_quorum(net, q) && q.disjoint(rest);
    assert(!q.disjoint(b));
    let w = choose|w: usize| q.contains(w) && b.contains(w);
    assert(w == v) by {
        if w != v {
            assert(rest.contains(w));
        }
    }
}

/// The minimal blocking sets of the system, in canonical order. Where the
/// system has no quorum, the empty set is the one minimal blocking set.
pub fn find_minimal_blocking_sets(fbas: &Fbas) -> (sets: Vec<NodeIdSet>)
    ensures
        is_canonical(views(sets@)),
        is_antichain(views(sets@)),
        forall|i: int|
            0 <= i < sets@.len() ==> is_minimal_blocking_set(fbas@, #[trigger] views(sets@)[i]),
        forall|b: Set<usize>| is_minimal_blocking_set(fbas@, b) ==> views(sets@).contains(b),
{
    let all = node_range(fbas.nodes.len());
    let candidates = greatest_quorum_in(fbas, &all);
    proof {
        assert forall|t: Set<usize>|
            is_minimal(Family::BlockingSets, fbas@, Set::empty(), t) implies t.subset_of(
            candidates@,
        ) by {
            assert forall|v: usize| t.contains(v) implies candidates@.contains(v) by {
                lemma_minimal_blocking_set_in_quorums(fbas@, t, v);
                let q = choose|q: Set<usize>| is_quorum(fbas@, q) && q.contains(v);
                assert(q.subset_of(all@));
                assert(q.subset_of(candidates@));
            }
        }
        assert forall|v: usize| candidates@.contains(v) implies v < fbas@.len() by {
            assert(all@.contains(v));
        }
    }
    find_minimal_members(Family::BlockingSets, fbas, &candidates)
}

/// The first `n` of `sets`, each in its blocking form.
pub open spec fn blocking_forms(sets: Seq<QuorumSetModel>, n: int) -> Seq<QuorumSetModel>
    decreases sets, n,
{
    if n <= 0 || n > sets.len() {
        Seq::empty()
    } else {
        blocking_forms(sets, n - 1).push(blocking_form(sets[n - 1]))
    }
}

/// The blocking form of a quorum set: a threshold `t` over `k` children
/// becomes `k - t + 1` over the same children, the inner quorum sets
/// likewise. A threshold above `k`, which nothing meets, becomes 0, which
/// everything meets.
pub open spec fn blocking_form(q: QuorumSetModel) -> QuorumSetModel
    decreases q,
{
    let k = q.validators.len() + q.inner.len();
    QuorumSetModel {
        threshold: if q.threshold > k {
            0
        } else {
            (k - q.threshold + 1) as nat
        },
        validators: q.validators,
        inner: blocking_forms(q.inner, q.inner.len() as int),
    }
}

/// The nodes that are not members of `e`.
pub open spec fn complement(e: Set<usize>) -> Set<usize> {
    Set::new(|v: usize| !e.contains(v))
}

/// The blocking forms keep length and order.
pub proof fn lemma_blocking_forms(sets: Seq<QuorumSetModel>, n: int)
    requires
        0 <= n <= sets.len(),
    ensures
        blocking_forms(sets, n).len() == n,
        forall|i: int| 0 <= i < n ==> (#[trigger] blocking_forms(sets, n)[i]) == blocking_form(sets[i]),
    decreases n,
{
    if n > 0 {
        lemma_blocking_forms(sets, n - 1);
        assert forall|i: int| 0 <= i < n implies (#[trigger] blocking_forms(sets, n)[i])
            == blocking_form(sets[i]) by {
            if i < n - 1 {
                assert(blocking_forms(sets, n)[i] == blocking_forms(sets, n - 1)[i]);
            }
        }
    }
}

/// Of the first `n` validators, each is good either for the blocking form
/// under `e` or for the quorum set under the complement of `e`.
pub proof fn lemma_validators_dual(q: QuorumSetModel, e: Set<usize>, n: int)
    requires
        0 <= n <= q.validators.len(),
    ensures
        blocking_form(q).good_validators(e, n) + q.good_validators(complement(e), n) == n,
    decreases n,
{
    if n > 0 {
        lemma_validators_dual(q, e, n - 1);
    }
}

/// Of the first `n` inner quorum sets, each is good either in its blocking
/// form under `e` or as it is under the complement of `e`.
pub proof fn lemma_inner_dual(q: QuorumSetModel, e: Set<usize>, n: int)
    requires
        0 <= n <= q.inner.len(),
    ensures
        blocking_form(q).good_inner(e, n) + q.good_inner(complement(e), n) == n,
    decreases q, 0int, n,
{
    lemma_blocking_forms(q.inner, q.inner.len() as int);
    if n > 0 {
        lemma_inner_dual(q, e, n - 1);
        lemma_blocking_duality(q.inner[n - 1], e);
    }
}

/// The blocking form of a quorum set is satisfied by `e` exactly where the
/// quorum set cannot be satisfied without `e`: where the nodes outside `e`
/// do not satisfy it.
pub proof fn lemma_blocking_duality(q: QuorumSetModel, e: Set<usize>)
    ensures
        blocking_form(q).is_satisfied_by(e) == !q.is_satisfied_by(complement(e)),
    decreases q, 1int, 0int,
{
    lemma_blocking_forms(q.inner, q.inner.len() as int);
    lemma_validators_dual(q, e, q.validators.len() as int);
    lemma_inner_dual(q, e, q.inner.len() as int);
}

impl QuorumSet {
    /// Whether the numbers of children fit the machine word with one to
    /// spare, here and in the inner quorum sets.
    pub open spec fn fits(&self) -> bool
        decreases self,
    {
        &&& self.validators@.len() + self.inner_quorum_sets@.len() < usize::MAX
        &&& forall|i: int|
            0 <= i < self.inner_quorum_sets@.len() ==> (#[trigger] self.inner_quorum_sets@[i]).fits()
    }

    /// The blocking form of the quorum set.
    pub fn to_blocking_form(&self) -> (b: QuorumSet)
        requires
            self.fits(),
        ensures
            b@ == blocking_form(self@),
        decreases self,
    {
        let k = self.validators.len() + self.inner_quorum_sets.len();
        let threshold = if self.threshold > k {
            0
        } else {
            k - self.threshold + 1
        };
        let mut inner: Vec<QuorumSet> = Vec::new();
        let mut i: usize = 0;
        proof {
            lemma_models_of(self.inner_quorum_sets@);
        }
        while i < self.inner_quorum_sets.len()
            invariant
                i <= self.inner_quorum_sets.len(),
                self.fits(),
                self@.inner.len() == self.inner_quorum_sets@.len(),
                forall|j: int|
                    0 <= j < self.inner_quorum_sets@.len() ==> (#[trigger] self@.inner[j])
                        == self.inner_quorum_sets@[j]@,
                crate::types::models_of(inner@) == blocking_forms(self@.inner, i as int),
            decreases self.inner_quorum_sets.len() - i,
        {
            let b = self.inner_quorum_sets[i].to_blocking_form();
            let ghost before = inner@;
            inner.push(b);
            assert(inner@.drop_last() =~= before);
            i = i + 1;
        }
        QuorumSet { threshold, validators: self.validators.clone(), inner_quorum_sets: inner }
    }

    /// Whether the quorum set cannot be satisfied without `e`: whether the
    /// nodes outside `e` do not satisfy it.
    pub fn is_blocked_by(&self, e: &NodeIdSet) -> (b: bool)
        requires
            self.fits(),
        ensures
            b == !self@.is_satisfied_by(complement(e@)),
    {
        proof {
            lemma_blocking_duality(self@, e@);
        }
        self.to_blocking_form().is_satisfied_by(e)
    }
}

} // verus!
