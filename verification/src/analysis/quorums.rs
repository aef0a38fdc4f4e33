//! Quorums, and the greatest quorum inside a set of nodes.

use crate::node_set::NodeIdSet;
use crate::types::{is_quorum, Fbas, NodeModel};
use vstd::prelude::*;

verus! {

/// Whether `a` is a quorum beside `faulty`: it is not empty, shares no node
/// with `faulty`, and the quorum set of each member is satisfied by `a`
/// together with `faulty`. These are the quorums that are left once the
/// nodes of `faulty` are taken out and agree to everything.
pub open spec fn is_quorum_beside(net: Seq<NodeModel>, faulty: Set<usize>, a: Set<usize>) -> bool {
    &&& a.finite()
    &&& a.len() > 0
    &&& a.disjoint(faulty)
    &&& forall|v: usize|
        a.contains(v) ==> v < net.len() && net[v as int].quorum_set.is_satisfied_by(
            a.union(faulty),
        )
}

/// Beside no node at all, the quorums are the quorums.
pub proof fn lemma_quorum_beside_nothing(net: Seq<NodeModel>, a: Set<usize>)
    ensures
        is_quorum_beside(net, Set::empty(), a) == is_quorum(net, a),
{
    assert(a.union(Set::empty()) =~= a);
}

/// Whether every member of `selection` is a node whose quorum set is
/// satisfied by `e`.
pub open spec fn members_satisfied(net: Seq<NodeModel>, selection: Set<usize>, e: Set<usize>) -> bool {
    forall|v: usize|
        selection.contains(v) ==> v < net.len() && net[v as int].quorum_set.is_satisfied_by(e)
}

/// Whether every member of `selection` is a node whose quorum set is
/// satisfied by `e`.
pub fn all_satisfied(fbas: &Fbas, selection: &NodeIdSet, e: &NodeIdSet) -> (b: bool)
    ensures
        b == members_satisfied(fbas@, selection@, e@),
{
    let mut next = selection.first_from(0);
    loop
        invariant
            match next {
                Some(v) => v < selection.bound() && v < usize::MAX && selection@.contains(v)
                    && forall|w: usize|
                    w < v && selection@.contains(w) ==> w < fbas@.len()
                        && fbas@[w as int].quorum_set.is_satisfied_by(e@),
                None => members_satisfied(fbas@, selection@, e@),
            },
        ensures
            members_satisfied(fbas@, selection@, e@),
        decreases
                match next {
                    Some(v) => selection.bound() - v,
                    None => 0,
                },
    {
        match next {
            None => {
                break ;
            },
            Some(v) => {
                if v >= fbas.nodes.len() {
                    return false;
                }
                assert(fbas@[v as int] == fbas.nodes@[v as int]@);
                if !fbas.nodes[v].quorum_set.is_satisfied_by(e) {
                    return false;
                }
                next = selection.first_from(v + 1);
            },
        }
    }
    true
}

/// Whether `candidate` is a quorum beside `faulty`.
pub fn is_quorum_beside_faulty(fbas: &Fbas, faulty: &NodeIdSet, candidate: &NodeIdSet) -> (b: bool)
    ensures
        b == is_quorum_beside(fbas@, faulty@, candidate@),
{
    proof {
        candidate.lemma_finite();
    }
    if candidate.is_empty() || !candidate.is_disjoint(faulty) {
        return false;
    }
    assert(candidate@.len() > 0) by {
        if candidate@.len() == 0 {
            candidate@.lemma_len0_is_empty();
        }
    }
    let mut e = candidate.clone();
    e.union_with(faulty);
    all_satisfied(fbas, candidate, &e)
}

/// The greatest quorum beside `faulty` inside `within`: the union of all
/// quorums beside `faulty` that are subsets of `within`. It is empty where
/// `within` holds none.
pub fn greatest_quorum_beside(fbas: &Fbas, faulty: &NodeIdSet, within: &NodeIdSet) -> (g:
    NodeIdSet)
    ensures
        g@.subset_of(within@),
        g@.len() == 0 || is_quorum_beside(fbas@, faulty@, g@),
        forall|q: Set<usize>|
            is_quorum_beside(fbas@, faulty@, q) && q.subset_of(within@) ==> q.subset_of(g@),
{
    let mut cur = within.clone();
    cur.difference_with(faulty);
    let mut e = cur.clone();
    e.union_with(faulty);
    let mut changed = true;
    while changed
        invariant
            cur@.subset_of(within@),
            cur@.disjoint(faulty@),
            e@ == cur@.union(faulty@),
            forall|q: Set<usize>|
                is_quorum_beside(fbas@, faulty@, q) && q.subset_of(within@) ==> q.subset_of(cur@),
            !changed ==> members_satisfied(fbas@, cur@, e@),
        decreases cur@.len(), (if changed { 1nat } else { 0nat }),
    {
        changed = false;
        let members = cur.to_vec();
        let ghost start = cur@;
        proof {
            cur.lemma_finite();
        }
        let mut i: usize = 0;
        while i < members.len()
            invariant
                i <= members.len(),
                members@.to_set() == start,
                start.finite(),
                cur@.subset_of(start),
                cur@.subset_of(within@),
                cur@.disjoint(faulty@),
                e@ == cur@.union(faulty@),
                forall|q: Set<usize>|
                    is_quorum_beside(fbas@, faulty@, q) && q.subset_of(within@) ==> q.subset_of(
                        cur@,
                    ),
                !changed ==> cur@ == start,
                !changed ==> forall|k: int|
                    0 <= k < i ==> (#[trigger] members@[k]) < fbas@.len()
                        && fbas@[members@[k] as int].quorum_set.is_satisfied_by(e@),
                changed ==> cur@.len() < start.len(),
                forall|k: int| i <= k < members@.len() ==> cur@.contains(#[trigger] members@[k]),
                crate::node_set::is_ascending(members@),
            decreases members.len() - i,
        {
            let v = members[i];
            assert(cur@.contains(v));
            let satisfied = if v < fbas.nodes.len() {
                assert(fbas@[v as int] == fbas.nodes@[v as int]@);
                fbas.nodes[v].quorum_set.is_satisfied_by(&e)
            } else {
                false
            };
            if !satisfied {
                let ghost before = cur@;
                proof {
                    cur.lemma_finite();
                    assert forall|q: Set<usize>|
                        is_quorum_beside(fbas@, faulty@, q) && q.subset_of(
                            within@,
                        ) implies q.subset_of(before.remove(v)) by {
                        if q.contains(v) {
                            fbas@[v as int].quorum_set.lemma_monotone(q.union(faulty@), e@);
                        }
                    }
                    vstd::set_lib::lemma_len_subset(before, start);
                }
                cur.remove(v);
                e.remove(v);
                assert(e@ =~= cur@.union(faulty@));
                changed = true;
            }
            i = i + 1;
        }
        proof {
            if !changed {
                assert forall|v: usize| cur@.contains(v) implies v < fbas@.len()
                    && fbas@[v as int].quorum_set.is_satisfied_by(e@) by {
                    assert(members@.contains(v));
                    let k = choose|k: int| 0 <= k < members@.len() && members@[k] == v;
                    assert(members@[k] == v);
                }
            }
        }
    }
    proof {
        cur.lemma_finite();
    }
    cur
}

/// The greatest quorum inside `within`: the union of all quorums that are
/// subsets of `within`. It is empty where `within` holds no quorum.
pub fn greatest_quorum_in(fbas: &Fbas, within: &NodeIdSet) -> (g: NodeIdSet)
    ensures
        g@.subset_of(within@),
        g@.len() == 0 || is_quorum(fbas@, g@),
        forall|q: Set<usize>| is_quorum(fbas@, q) && q.subset_of(within@) ==> q.subset_of(g@),
{
    let nothing = NodeIdSet::new();
    let g = greatest_quorum_beside(fbas, &nothing, within);
    proof {
        lemma_quorum_beside_nothing(fbas@, g@);
        assert forall|q: Set<usize>| is_quorum(fbas@, q) && q.subset_of(within@) implies q.subset_of(
            g@,
        ) by {
            lemma_quorum_beside_nothing(fbas@, q);
        }
    }
    g
}

} // verus!
