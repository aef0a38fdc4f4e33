//! The analyses of one system behind one handle.

use crate::analysis::blocking_sets::{find_minimal_blocking_sets, is_minimal_blocking_set};
use crate::analysis::minimal_quorums::{
    find_minimal_quorums,
    has_quorum_intersection, has_quorum_intersection_via_minimal_quorums, is_minimal_quorum,
};
use crate::analysis::results::{involved_nodes, NodeIdSetVecResult};
use crate::analysis::sets::{is_antichain, is_canonical};
use crate::analysis::splitting_sets::{find_minimal_splitting_sets, is_minimal_splitting_set};
use crate::node_set::NodeIdSet;
use crate::types::{is_quorum, Fbas};
use vstd::prelude::*;

verus! {

/// The analyses of one system.
pub struct Analysis<'a> {
    pub fbas: &'a Fbas,
}

impl<'a> Analysis<'a> {
    /// The analyses of `fbas`.
    pub fn new(fbas: &'a Fbas) -> (analysis: Analysis<'a>)
        ensures
            analysis.fbas == fbas,
    {
        Analysis { fbas }
    }

    /// Whether the system enjoys quorum intersection: every two of its
    /// quorums share a node.
    pub fn has_quorum_intersection(&self) -> (b: bool)
        ensures
            b == has_quorum_intersection(self.fbas@),
    {
        has_quorum_intersection_via_minimal_quorums(self.fbas)
    }

    /// Whether the system enjoys quorum intersection, found by a direct
    /// search for two quorums that share no node. Where there are such, two
    /// of them are handed out.
    pub fn has_quorum_intersection_via_alternative_check(&self) -> (r: (
        bool,
        Option<NodeIdSetVecResult>,
    ))
        ensures
            r.0 == has_quorum_intersection(self.fbas@),
            r.1.is_some() == !r.0,
            match r.1 {
                Some(quorums) => quorums@.len() == 2 && is_quorum(self.fbas@, quorums@[0])
                    && is_quorum(self.fbas@, quorums@[1]) && quorums@[0].disjoint(quorums@[1]),
                None => true,
            },
    {
        let (intersects, pair) =
            crate::analysis::minimal_quorums::has_quorum_intersection_via_alternative_check(
            self.fbas,
        );
        match pair {
            Some((a, b)) => {
                let mut node_sets: Vec<NodeIdSet> = Vec::new();
                node_sets.push(a);
                node_sets.push(b);
                let quorums = NodeIdSetVecResult::new(node_sets);
                assert(quorums@[0] == a@ && quorums@[1] == b@);
                (intersects, Some(quorums))
            },
            None => (intersects, None),
        }
    }

    /// The minimal quorums, in canonical order.
    pub fn minimal_quorums(&self) -> (r: NodeIdSetVecResult)
        ensures
            is_canonical(r@),
            is_antichain(r@),
            forall|i: int| 0 <= i < r@.len() ==> is_minimal_quorum(self.fbas@, #[trigger] r@[i]),
            forall|q: Set<usize>| is_minimal_quorum(self.fbas@, q) ==> r@.contains(q),
    {
        NodeIdSetVecResult::new(find_minimal_quorums(self.fbas))
    }

    /// The minimal blocking sets, in canonical order.
    pub fn minimal_blocking_sets(&self) -> (r: NodeIdSetVecResult)
        ensures
            is_canonical(r@),
            is_antichain(r@),
            forall|i: int|
                0 <= i < r@.len() ==> is_minimal_blocking_set(self.fbas@, #[trigger] r@[i]),
            forall|b: Set<usize>| is_minimal_blocking_set(self.fbas@, b) ==> r@.contains(b),
    {
        NodeIdSetVecResult::new(find_minimal_blocking_sets(self.fbas))
    }

    /// The minimal splitting sets, in canonical order.
    pub fn minimal_splitting_sets(&self) -> (r: NodeIdSetVecResult)
        ensures
            is_canonical(r@),
            is_antichain(r@),
            forall|i: int|
                0 <= i < r@.len() ==> is_minimal_splitting_set(self.fbas@, #[trigger] r@[i]),
            forall|s: Set<usize>| is_minimal_splitting_set(self.fbas@, s) ==> r@.contains(s),
    {
        NodeIdSetVecResult::new(find_minimal_splitting_sets(self.fbas))
    }

    /// The top tier: the nodes that are members of a minimal quorum.
    pub fn top_tier(&self) -> (nodes: NodeIdSet)
        ensures
            forall|v: usize|
                nodes@.contains(v) <==> exists|q: Set<usize>|
                    #[trigger] is_minimal_quorum(self.fbas@, q) && q.contains(v),
    {
        let quorums = find_minimal_quorums(self.fbas);
        let nodes = involved_nodes(&quorums);
        proof {
            let sets = crate::analysis::sets::views(quorums@);
            assert forall|v: usize|
                nodes@.contains(v) <==> exists|q: Set<usize>|
                    #[trigger] is_minimal_quorum(self.fbas@, q) && q.contains(v) by {
                if nodes@.contains(v) {
                    let i = choose|i: int| 0 <= i < sets.len() && (#[trigger] sets[i]).contains(v);
                    assert(is_minimal_quorum(self.fbas@, sets[i]) && sets[i].contains(v));
                }
                if exists|q: Set<usize>|
                    #[trigger] is_minimal_quorum(self.fbas@, q) && q.contains(v) {
                    let q = choose|q: Set<usize>|
                        #[trigger] is_minimal_quorum(self.fbas@, q) && q.contains(v);
                    assert(sets.contains(q));
                    let i = choose|i: int| 0 <= i < sets.len() && sets[i] == q;
                    assert(sets[i].contains(v));
                }
            }
        }
        nodes
    }
}

} // verus!
