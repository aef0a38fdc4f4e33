//! Collections of node sets in canonical order.

use crate::node_set::{lemma_set_before_asymmetric, lemma_set_before_transitive, set_before};
use crate::node_set::NodeIdSet;
use vstd::prelude::*;

verus! {

/// The sets that a vector of node sets holds, in order.
pub open spec fn views(sets: Seq<NodeIdSet>) -> Seq<Set<usize>> {
    sets.map_values(|s: NodeIdSet| s@)
}

/// Whether the sets are in canonical order, each before the next. Sets in
/// canonical order are pairwise different.
pub open spec fn is_canonical(sets: Seq<Set<usize>>) -> bool {
    forall|i: int, j: int| 0 <= i < j < sets.len() ==> set_before(sets[i], sets[j])
}

/// Whether no set is a subset of another one.
pub open spec fn is_antichain(sets: Seq<Set<usize>>) -> bool {
    forall|i: int, j: int|
        0 <= i < sets.len() && 0 <= j < sets.len() && i != j ==> !sets[i].subset_of(sets[j])
}

/// Whether one of `sets` is a subset of `s`.
pub open spec fn has_subset_of(sets: Seq<Set<usize>>, s: Set<usize>) -> bool {
    exists|i: int| 0 <= i < sets.len() && (#[trigger] sets[i]).subset_of(s)
}

/// Whether one of `sets` is a subset of `candidate`.
pub fn contains_subset_of(sets: &Vec<NodeIdSet>, candidate: &NodeIdSet) -> (b: bool)
    ensures
        b == has_subset_of(views(sets@), candidate@),
{
    let mut i: usize = 0;
    while i < sets.len()
        invariant
            i <= sets.len(),
            forall|k: int| 0 <= k < i ==> !(#[trigger] views(sets@)[k]).subset_of(candidate@),
        decreases sets.len() - i,
    {
        if sets[i].is_subset(candidate) {
            assert(views(sets@)[i as int].subset_of(candidate@));
            return true;
        }
        i = i + 1;
    }
    false
}

/// Puts `s` at its place in the canonical order.
pub fn insert_canonical(sets: &mut Vec<NodeIdSet>, s: NodeIdSet)
    requires
        is_canonical(views(old(sets)@)),
        !views(old(sets)@).contains(s@),
    ensures
        is_canonical(views(final(sets)@)),
        final(sets)@.len() == old(sets)@.len() + 1,
        forall|t: Set<usize>|
            views(final(sets)@).contains(t) <==> (views(old(sets)@).contains(t) || t == s@),
{
    let ghost before = views(sets@);
    let mut p: usize = sets.len();
    while p > 0 && s.comes_before(&sets[p - 1])
        invariant
            p <= sets.len(),
            sets@ == old(sets)@,
            before == views(sets@),
            forall|k: int| p <= k < before.len() ==> set_before(s@, #[trigger] before[k]),
        decreases p,
    {
        p = p - 1;
    }
    proof {
        if p > 0 {
            // the set at p - 1 is not `s` and `s` is not before it
            assert(before[p - 1] == sets@[p - 1]@);
            assert(before.contains(before[p - 1]));
            s.lemma_finite();
            sets@[p - 1].lemma_finite();
            lemma_before_or_after(s@, before[p - 1]);
            assert forall|k: int| 0 <= k < p implies set_before(#[trigger] before[k], s@) by {
                if k < p - 1 {
                    lemma_set_before_transitive(before[k], before[p - 1], s@);
                }
            }
        }
    }
    let ghost inserted = s@;
    sets.insert(p, s);
    proof {
        let after = views(sets@);
        assert(after =~= before.insert(p as int, inserted));
        assert forall|i: int, j: int| 0 <= i < j < after.len() implies set_before(
            after[i],
            after[j],
        ) by {
            if i < p && j > p {
                assert(after[i] == before[i]);
                assert(after[j] == before[j - 1]);
            }
        }
        assert forall|t: Set<usize>| after.contains(t) <==> (before.contains(t) || t
            == inserted) by {
            if after.contains(t) {
                let k = choose|k: int| 0 <= k < after.len() && after[k] == t;
                if k < p {
                    assert(before[k] == t);
                } else if k > p {
                    assert(before[k - 1] == t);
                }
            }
            if before.contains(t) {
                let k = choose|k: int| 0 <= k < before.len() && before[k] == t;
                if k < p {
                    assert(after[k] == t);
                } else {
                    assert(after[k + 1] == t);
                }
            }
            if t == inserted {
                assert(after[p as int] == t);
            }
        }
    }
}

/// Of two different finite sets one comes before the other.
pub proof fn lemma_before_or_after(a: Set<usize>, b: Set<usize>)
    requires
        a.finite(),
        b.finite(),
        a != b,
    ensures
        set_before(a, b) || set_before(b, a),
{
    if a.len() == b.len() {
        assert(!(a =~= b));
        let d = choose|d: usize| a.contains(d) != b.contains(d);
        lemma_least_difference(a, b, d);
    }
}

/// Two sets that differ at `d` differ at a least id.
pub proof fn lemma_least_difference(a: Set<usize>, b: Set<usize>, d: usize)
    requires
        a.contains(d) != b.contains(d),
    ensures
        crate::node_set::lex_before(a, b) || crate::node_set::lex_before(b, a),
    decreases d,
{
    if exists|j: usize| j < d && a.contains(j) != b.contains(j) {
        let j = choose|j: usize| j < d && a.contains(j) != b.contains(j);
        lemma_least_difference(a, b, j);
    } else {
        if a.contains(d) {
            assert(a.contains(d) && !b.contains(d) && forall|j: usize|
                j < d ==> (a.contains(j) == b.contains(j)));
        } else {
            assert(b.contains(d) && !a.contains(d) && forall|j: usize|
                j < d ==> (b.contains(j) == a.contains(j)));
        }
    }
}

/// Sets in canonical order are pairwise different.
pub proof fn lemma_canonical_distinct(sets: Seq<Set<usize>>)
    requires
        is_canonical(sets),
    ensures
        forall|i: int, j: int| 0 <= i < j < sets.len() ==> sets[i] != sets[j],
{
    assert forall|i: int, j: int| 0 <= i < j < sets.len() implies sets[i] != sets[j] by {
        lemma_set_before_asymmetric(sets[i], sets[j]);
    }
}

} // verus!
