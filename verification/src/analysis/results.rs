//! Collections of node sets as the analyses hand them out.

use crate::analysis::merge_by_group::{
    is_minimal_among, merged_sets, remove_non_minimal_node_sets,
};
use crate::analysis::sets::{is_antichain, is_canonical, views};
use crate::groupings::Groupings;
use crate::node_set::NodeIdSet;
use vstd::prelude::*;

verus! {

/// A collection of node sets. A collection without sets says that no set
/// of the kind asked for exists; this differs from a collection that holds
/// the empty set.
#[derive(Debug, PartialEq, Eq)]
pub struct NodeIdSetVecResult {
    pub node_sets: Vec<NodeIdSet>,
}

impl View for NodeIdSetVecResult {
    type V = Seq<Set<usize>>;

    open spec fn view(&self) -> Seq<Set<usize>> {
        views(self.node_sets@)
    }
}

/// The union of the first `n` of `sets`.
pub open spec fn union_of(sets: Seq<Set<usize>>, n: int) -> Set<usize>
    decreases n,
{
    if n <= 0 || n > sets.len() {
        Set::empty()
    } else {
        union_of(sets, n - 1).union(sets[n - 1])
    }
}

/// The union holds exactly the members of the sets.
pub proof fn lemma_union_of(sets: Seq<Set<usize>>, n: int)
    requires
        0 <= n <= sets.len(),
    ensures
        forall|v: usize|
            union_of(sets, n).contains(v) <==> exists|i: int|
                0 <= i < n && (#[trigger] sets[i]).contains(v),
    decreases n,
{
    if n > 0 {
        lemma_union_of(sets, n - 1);
        assert forall|v: usize|
            union_of(sets, n).contains(v) <==> exists|i: int|
                0 <= i < n && (#[trigger] sets[i]).contains(v) by {
            if union_of(sets, n - 1).contains(v) {
                let i = choose|i: int| 0 <= i < n - 1 && (#[trigger] sets[i]).contains(v);
                assert(0 <= i < n && sets[i].contains(v));
            }
            if sets[n - 1].contains(v) {
                assert(0 <= n - 1 < n && sets[n - 1].contains(v));
            }
        }
    }
}

/// The nodes that are members of at least one of `node_sets`.
pub fn involved_nodes(node_sets: &Vec<NodeIdSet>) -> (nodes: NodeIdSet)
    ensures
        nodes@ == union_of(views(node_sets@), node_sets@.len() as int),
        forall|v: usize|
            nodes@.contains(v) <==> exists|i: int|
                0 <= i < node_sets@.len() && (#[trigger] views(node_sets@)[i]).contains(v),
{
    let mut nodes = NodeIdSet::new();
    let mut i: usize = 0;
    while i < node_sets.len()
        invariant
            i <= node_sets.len(),
            nodes@ == union_of(views(node_sets@), i as int),
        decreases node_sets.len() - i,
    {
        nodes.union_with(&node_sets[i]);
        i = i + 1;
    }
    proof {
        lemma_union_of(views(node_sets@), node_sets@.len() as int);
    }
    nodes
}

/// Whether every two of `node_sets` share a node.
pub fn all_intersect(node_sets: &Vec<NodeIdSet>) -> (b: bool)
    ensures
        b == !crate::analysis::minimal_sets::has_disjoint_pair(views(node_sets@)),
{
    let pair = crate::analysis::minimal_sets::find_disjoint_pair(node_sets);
    proof {
        match pair {
            Some((i, j)) => {
                assert(views(node_sets@)[i as int].disjoint(views(node_sets@)[j as int]));
            },
            None => {},
        }
    }
    pair.is_none()
}

impl NodeIdSetVecResult {
    /// The collection of `node_sets`.
    pub fn new(node_sets: Vec<NodeIdSet>) -> (r: NodeIdSetVecResult)
        ensures
            r.node_sets == node_sets,
    {
        NodeIdSetVecResult { node_sets }
    }

    /// The sets of the collection.
    pub fn unwrap(self) -> (node_sets: Vec<NodeIdSet>)
        ensures
            node_sets == self.node_sets,
    {
        self.node_sets
    }

    /// Number of sets.
    pub fn len(&self) -> (n: usize)
        ensures
            n == self@.len(),
    {
        self.node_sets.len()
    }

    /// Whether the collection holds no set: no set of the kind exists.
    pub fn is_empty(&self) -> (b: bool)
        ensures
            b == (self@.len() == 0),
    {
        self.node_sets.len() == 0
    }

    /// Whether the collection holds the empty set.
    pub fn contains_empty_set(&self) -> (b: bool)
        ensures
            b == self@.contains(Set::<usize>::empty()),
    {
        let mut i: usize = 0;
        while i < self.node_sets.len()
            invariant
                i <= self.node_sets.len(),
                forall|k: int| 0 <= k < i ==> (#[trigger] self@[k]) != Set::<usize>::empty(),
            decreases self.node_sets.len() - i,
        {
            if self.node_sets[i].is_empty() {
                assert(self@[i as int] == Set::<usize>::empty());
                return true;
            }
            i = i + 1;
        }
        false
    }

    /// The nodes that are members of at least one set.
    pub fn involved_nodes(&self) -> (nodes: NodeIdSet)
        ensures
            nodes@ == union_of(self@, self@.len() as int),
    {
        involved_nodes(&self.node_sets)
    }

    /// The minimal sets of the collection, each once, in canonical order.
    pub fn minimal_sets(&self) -> (r: NodeIdSetVecResult)
        ensures
            is_canonical(r@),
            is_antichain(r@),
            r@.len() <= self@.len(),
            forall|t: Set<usize>| r@.contains(t) <==> is_minimal_among(self@, t),
    {
        let mut copy: Vec<NodeIdSet> = Vec::new();
        let mut i: usize = 0;
        while i < self.node_sets.len()
            invariant
                i <= self.node_sets.len(),
                copy@.len() == i,
                forall|k: int| 0 <= k < i ==> (#[trigger] copy@[k])@ == self.node_sets@[k]@,
            decreases self.node_sets.len() - i,
        {
            copy.push(self.node_sets[i].clone());
            i = i + 1;
        }
        assert(views(copy@) =~= self@);
        NodeIdSetVecResult { node_sets: remove_non_minimal_node_sets(copy) }
    }

    /// The collection with the members of each group merged into their
    /// representative: of the merged sets the minimal ones, each once, in
    /// canonical order. Nodes in no group stay as they are. The result holds
    /// no more sets than the collection, and none of them is a subset of
    /// another.
    pub fn merged_by_group(&self, groupings: &Groupings) -> (r: NodeIdSetVecResult)
        requires
            groupings.wf(),
        ensures
            is_canonical(r@),
            is_antichain(r@),
            r@.len() <= self@.len(),
            forall|t: Set<usize>|
                r@.contains(t) <==> is_minimal_among(merged_sets(*groupings, self@), t),
    {
        NodeIdSetVecResult { node_sets: groupings.merge_minimal_node_sets(&self.node_sets) }
    }
}

} // verus!
