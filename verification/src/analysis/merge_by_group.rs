//! Merging the members of each group into one representative, and keeping
//! the minimal sets of a collection.

use crate::analysis::sets::{insert_canonical, is_antichain, is_canonical, lemma_canonical_distinct, views};
use crate::groupings::{merged_id_of, Groupings};
use crate::node_set::{NodeId, NodeIdSet};
use vstd::prelude::*;

verus! {

/// Whether `t` is one of `sets` and no other one of `sets` is a proper
/// subset of it.
pub open spec fn is_minimal_among(sets: Seq<Set<usize>>, t: Set<usize>) -> bool {
    &&& sets.contains(t)
    &&& forall|i: int| 0 <= i < sets.len() && (#[trigger] sets[i]).subset_of(t) ==> sets[i] == t
}

/// Whether `sets[i]` has a proper subset among `sets`.
pub fn has_proper_subset(sets: &Vec<NodeIdSet>, i: usize) -> (b: bool)
    requires
        i < sets@.len(),
    ensures
        b == !is_minimal_among(views(sets@), sets@[i as int]@),
{
    let ghost all = views(sets@);
    assert(all[i as int] == sets@[i as int]@);
    let mut k: usize = 0;
    while k < sets.len()
        invariant
            k <= sets.len(),
            i < sets@.len(),
            all == views(sets@),
            forall|j: int|
                0 <= j < k && (#[trigger] all[j]).subset_of(sets@[i as int]@) ==> all[j]
                    == sets@[i as int]@,
        decreases sets.len() - k,
    {
        if sets[k].is_subset(&sets[i]) && !sets[i].is_subset(&sets[k]) {
            assert(all[k as int].subset_of(sets@[i as int]@));
            return true;
        }
        proof {
            if all[k as int].subset_of(sets@[i as int]@) {
                assert(all[k as int] =~= sets@[i as int]@);
            }
        }
        k = k + 1;
    }
    false
}

/// Whether one of `sets` has the members of `s`.
pub fn holds_set(sets: &Vec<NodeIdSet>, s: &NodeIdSet) -> (b: bool)
    ensures
        b == views(sets@).contains(s@),
{
    let mut k: usize = 0;
    while k < sets.len()
        invariant
            k <= sets.len(),
            forall|j: int| 0 <= j < k ==> (#[trigger] views(sets@)[j]) != s@,
        decreases sets.len() - k,
    {
        if sets[k].same_as(s) {
            assert(views(sets@)[k as int] == s@);
            return true;
        }
        k = k + 1;
    }
    false
}

/// The minimal sets among `node_sets`, each once, in canonical order.
pub fn remove_non_minimal_node_sets(node_sets: Vec<NodeIdSet>) -> (minimal: Vec<NodeIdSet>)
    ensures
        is_canonical(views(minimal@)),
        is_antichain(views(minimal@)),
        minimal@.len() <= node_sets@.len(),
        forall|t: Set<usize>|
            views(minimal@).contains(t) <==> is_minimal_among(views(node_sets@), t),
{
    let ghost all = views(node_sets@);
    let mut minimal: Vec<NodeIdSet> = Vec::new();
    let mut i: usize = 0;
    assert(views(minimal@) =~= Seq::empty());
    while i < node_sets.len()
        invariant
            i <= node_sets.len(),
            all == views(node_sets@),
            is_canonical(views(minimal@)),
            minimal@.len() <= i,
            forall|t: Set<usize>|
                #[trigger] views(minimal@).contains(t) <==> (is_minimal_among(all, t) && exists|
                    k: int,
                |
                    0 <= k < i && #[trigger] all[k] == t),
        decreases node_sets.len() - i,
    {
        let ghost before = views(minimal@);
        assert(all[i as int] == node_sets@[i as int]@);
        let mut inserted = false;
        if !has_proper_subset(&node_sets, i) && !holds_set(&minimal, &node_sets[i]) {
            insert_canonical(&mut minimal, node_sets[i].clone());
            inserted = true;
        }
        proof {
            let after = views(minimal@);
            let s = all[i as int];
            assert forall|t: Set<usize>|
                #[trigger] after.contains(t) <==> (is_minimal_among(all, t) && exists|k: int|
                    0 <= k < i + 1 && #[trigger] all[k] == t) by {
                assert(before.contains(t) <==> (is_minimal_among(all, t) && exists|k: int|
                    0 <= k < i && #[trigger] all[k] == t));
                if before.contains(t) {
                    let k = choose|k: int| 0 <= k < i && #[trigger] all[k] == t;
                    assert(0 <= k < i + 1 && all[k] == t);
                }
                if is_minimal_among(all, t) && exists|k: int|
                    0 <= k < i + 1 && #[trigger] all[k] == t {
                    let k = choose|k: int| 0 <= k < i + 1 && #[trigger] all[k] == t;
                    if k < i {
                        assert(before.contains(t));
                    }
                }
            }
        }
        i = i + 1;
    }
    proof {
        let out = views(minimal@);
        assert forall|t: Set<usize>| #[trigger] out.contains(t) <==> is_minimal_among(all, t) by {
            assert(out.contains(t) <==> (is_minimal_among(all, t) && exists|k: int|
                0 <= k < i && #[trigger] all[k] == t));
            if is_minimal_among(all, t) {
                let k = choose|k: int| 0 <= k < all.len() && all[k] == t;
                assert(0 <= k < i && all[k] == t);
            }
        }
        lemma_canonical_distinct(out);
        assert forall|a: int, b: int|
            0 <= a < out.len() && 0 <= b < out.len() && a != b implies !out[a].subset_of(
            out[b],
        ) by {
            assert(out.contains(out[a]));
            assert(out.contains(out[b]));
            assert(is_minimal_among(all, out[a]));
            assert(is_minimal_among(all, out[b]));
            if out[a].subset_of(out[b]) {
                let k = choose|k: int| 0 <= k < all.len() && all[k] == out[a];
                assert(all[k].subset_of(out[b]));
                if a < b {
                    assert(out[a] != out[b]);
                } else {
                    assert(out[b] != out[a]);
                }
            }
        }
    }
    minimal
}

/// The set of the representatives of the members of `s`.
pub open spec fn merged_set(groupings: Groupings, s: Set<usize>) -> Set<usize> {
    Set::new(|w: usize| exists|v: usize| s.contains(v) && #[trigger] groupings.merged_id(v) == w)
}

impl Groupings {
    /// The representative of `node_id`: the first member of its group, or
    /// the node itself where it is in no group.
    pub fn merged_id_for(&self, node_id: NodeId) -> (id: NodeId)
        requires
            self.wf(),
        ensures
            id == self.merged_id(node_id),
    {
        if node_id < self.merged_ids.len() {
            self.merged_ids[node_id]
        } else {
            proof {
                lemma_merged_id_beyond(self.groups(), node_id, self.groups().len() as int, self.universe());
            }
            node_id
        }
    }

    /// The set with each member replaced by its representative.
    pub fn merge_node_set(&self, node_set: &NodeIdSet) -> (merged: NodeIdSet)
        requires
            self.wf(),
        ensures
            merged@ == merged_set(*self, node_set@),
    {
        let members = node_set.to_vec();
        let mut merged = NodeIdSet::new();
        let mut i: usize = 0;
        while i < members.len()
            invariant
                i <= members.len(),
                self.wf(),
                members@.to_set() == node_set@,
                forall|w: usize|
                    merged@.contains(w) <==> exists|k: int|
                        0 <= k < i && self.merged_id(#[trigger] members@[k]) == w,
            decreases members.len() - i,
        {
            let id = self.merged_id_for(members[i]);
            let ghost before = merged@;
            merged.insert(id);
            proof {
                assert forall|w: usize|
                    merged@.contains(w) <==> exists|k: int|
                        0 <= k < i + 1 && self.merged_id(#[trigger] members@[k]) == w by {
                    if before.contains(w) {
                        let k = choose|k: int|
                            0 <= k < i && self.merged_id(#[trigger] members@[k]) == w;
                        assert(0 <= k < i + 1 && self.merged_id(members@[k]) == w);
                    }
                    if w == id {
                        assert(0 <= i < i + 1 && self.merged_id(members@[i as int]) == w);
                    }
                }
            }
            i = i + 1;
        }
        proof {
            assert forall|w: usize| merged@.contains(w) <==> merged_set(*self, node_set@).contains(
                w,
            ) by {
                if merged@.contains(w) {
                    let k = choose|k: int|
                        0 <= k < i && self.merged_id(#[trigger] members@[k]) == w;
                    assert(members@.contains(members@[k]));
                    assert(node_set@.contains(members@[k]));
                }
                if merged_set(*self, node_set@).contains(w) {
                    let v = choose|v: usize|
                        node_set@.contains(v) && #[trigger] self.merged_id(v) == w;
                    assert(members@.contains(v));
                    let k = choose|k: int| 0 <= k < members@.len() && members@[k] == v;
                    assert(0 <= k < i && self.merged_id(members@[k]) == w);
                }
            }
            assert(merged@ =~= merged_set(*self, node_set@));
        }
        merged
    }

    /// Each set with its members replaced by their representatives.
    pub fn merge_node_sets(&self, node_sets: &Vec<NodeIdSet>) -> (merged: Vec<NodeIdSet>)
        requires
            self.wf(),
        ensures
            merged@.len() == node_sets@.len(),
            forall|i: int|
                0 <= i < node_sets@.len() ==> (#[trigger] merged@[i])@ == merged_set(
                    *self,
                    node_sets@[i]@,
                ),
    {
        let mut merged: Vec<NodeIdSet> = Vec::new();
        let mut i: usize = 0;
        while i < node_sets.len()
            invariant
                i <= node_sets.len(),
                self.wf(),
                merged@.len() == i,
                forall|k: int|
                    0 <= k < i ==> (#[trigger] merged@[k])@ == merged_set(*self, node_sets@[k]@),
            decreases node_sets.len() - i,
        {
            merged.push(self.merge_node_set(&node_sets[i]));
            i = i + 1;
        }
        merged
    }

    /// The minimal ones of the merged sets, each once, in canonical order.
    pub fn merge_minimal_node_sets(&self, node_sets: &Vec<NodeIdSet>) -> (merged: Vec<NodeIdSet>)
        requires
            self.wf(),
        ensures
            is_canonical(views(merged@)),
            is_antichain(views(merged@)),
            merged@.len() <= node_sets@.len(),
            forall|t: Set<usize>|
                views(merged@).contains(t) <==> is_minimal_among(
                    merged_sets(*self, views(node_sets@)),
                    t,
                ),
    {
        let all = self.merge_node_sets(node_sets);
        assert(views(all@) =~= merged_sets(*self, views(node_sets@)));
        remove_non_minimal_node_sets(all)
    }
}

/// Each of `sets` with its members replaced by their representatives.
pub open spec fn merged_sets(groupings: Groupings, sets: Seq<Set<usize>>) -> Seq<Set<usize>> {
    sets.map_values(|s: Set<usize>| merged_set(groupings, s))
}

/// A node beyond the nodes that the groups name is its own representative.
pub proof fn lemma_merged_id_beyond(
    groups: Seq<crate::groupings::GroupingModel>,
    v: usize,
    n: int,
    universe: nat,
)
    requires
        crate::groupings::members_below(groups, universe),
        v >= universe,
    ensures
        merged_id_of(groups, v, n) == v,
    decreases n,
{
    if 0 < n <= groups.len() {
        lemma_merged_id_beyond(groups, v, n - 1, universe);
        let g = groups[n - 1];
        if crate::groupings::is_later_member(g, v) {
            let k = choose|k: int| 1 <= k < g.validators.len() && g.validators[k] == v;
            assert(groups[n - 1].validators[k] < universe);
        }
    }
}

} // verus!
