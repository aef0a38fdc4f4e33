//! The minimal quorums of a system, and whether all its quorums intersect.

use crate::analysis::minimal_sets::{
    all_nodes, find_disjoint_pair, has_disjoint_pair, in_family, in_subtree, is_available,
    is_minimal, is_order, lemma_minimal_subset, node_range, search, search_disjoint_quorums,
    Family,
};
use crate::analysis::quorums::{
    greatest_quorum_beside, greatest_quorum_in, is_quorum_beside, lemma_quorum_beside_nothing,
};
use crate::analysis::sets::{is_antichain, is_canonical, lemma_canonical_distinct, views};
use crate::node_set::{NodeId, NodeIdSet};
use crate::rank::ranked_order;
use crate::types::{is_quorum, Fbas, NodeModel};
use vstd::prelude::*;

verus! {

/// Whether `q` is a minimal quorum: a quorum no proper subset of which is a
/// quorum.
pub open spec fn is_minimal_quorum(net: Seq<NodeModel>, q: Set<usize>) -> bool {
    &&& is_quorum(net, q)
    &&& forall|t: Set<usize>| t.subset_of(q) && t != q ==> !is_quorum(net, t)
}

/// The minimal quorums are the minimal members of the family of quorums
/// beside no node.
pub proof fn lemma_minimal_quorum_family(net: Seq<NodeModel>, q: Set<usize>)
    ensures
        is_minimal(Family::Quorums, net, Set::empty(), q) == is_minimal_quorum(net, q),
{
    lemma_quorum_beside_nothing(net, q);
    assert forall|t: Set<usize>|
        is_quorum_beside(net, Set::empty(), t) == #[trigger] is_quorum(net, t) by {
        lemma_quorum_beside_nothing(net, t);
    }
    if is_minimal(Family::Quorums, net, Set::empty(), q) {
        assert forall|t: Set<usize>| t.subset_of(q) && t != q implies !is_quorum(net, t) by {
            assert(!in_family(Family::Quorums, net, Set::empty(), t));
        }
    }
    if is_minimal_quorum(net, q) {
        assert forall|t: Set<usize>| t.subset_of(q) && t != q implies !in_family(
            Family::Quorums,
            net,
            Set::empty(),
            t,
        ) by {
            assert(!is_quorum(net, t));
            lemma_quorum_beside_nothing(net, t);
        }
    }
}

/// Whether `sets` holds exactly the minimal members of the family, in
/// canonical order.
pub open spec fn holds_minimal_members(
    family: Family,
    net: Seq<NodeModel>,
    sets: Seq<Set<usize>>,
) -> bool {
    &&& is_canonical(sets)
    &&& forall|i: int|
        0 <= i < sets.len() ==> is_minimal(family, net, Set::empty(), #[trigger] sets[i])
    &&& forall|t: Set<usize>| is_minimal(family, net, Set::empty(), t) ==> sets.contains(t)
}

/// Minimal members of one family, in canonical order, form an antichain.
pub proof fn lemma_minimal_members_antichain(
    family: Family,
    net: Seq<NodeModel>,
    sets: Seq<Set<usize>>,
)
    requires
        is_canonical(sets),
        forall|i: int|
            0 <= i < sets.len() ==> is_minimal(family, net, Set::empty(), #[trigger] sets[i]),
    ensures
        is_antichain(sets),
{
    lemma_canonical_distinct(sets);
    assert forall|i: int, j: int|
        0 <= i < sets.len() && 0 <= j < sets.len() && i != j implies !sets[i].subset_of(
        sets[j],
    ) by {
        assert(is_minimal(family, net, Set::empty(), sets[i]));
        assert(is_minimal(family, net, Set::empty(), sets[j]));
        if i < j {
            assert(sets[i] != sets[j]);
        } else {
            assert(sets[j] != sets[i]);
        }
    }
}

/// The minimal members of the family that are made of nodes of `order`,
/// in canonical order. The search takes the nodes in the order given; the
/// order bears on the time that the search takes, not on what it finds.
pub fn find_minimal_members_in_order(family: Family, fbas: &Fbas, order: &Vec<NodeId>) -> (sets:
    Vec<NodeIdSet>)
    requires
        is_order(fbas@, order@),
    ensures
        is_canonical(views(sets@)),
        is_antichain(views(sets@)),
        forall|i: int|
            0 <= i < sets@.len() ==> is_minimal(
                family,
                fbas@,
                Set::empty(),
                #[trigger] views(sets@)[i],
            ),
        forall|i: int|
            0 <= i < sets@.len() ==> (#[trigger] views(sets@)[i]).subset_of(order@.to_set()),
        forall|t: Set<usize>|
            is_minimal(family, fbas@, Set::empty(), t) && t.subset_of(order@.to_set()) ==> views(
                sets@,
            ).contains(t),
{
    let all = node_range(fbas.nodes.len());
    assert(all@ =~= all_nodes(fbas@));
    let faulty = NodeIdSet::new();
    let mut sel = NodeIdSet::new();
    let mut avail = NodeIdSet::from_vec(order);
    let mut found: Vec<NodeIdSet> = Vec::new();
    proof {
        assert(is_available(order@, 0, sel@, avail@)) by {
            assert forall|v: usize|
                avail@.contains(v) <==> (sel@.contains(v) || exists|j: int|
                    0 <= j < order@.len() && #[trigger] order@[j] == v) by {
                if avail@.contains(v) {
                    assert(order@.contains(v));
                }
                if exists|j: int| 0 <= j < order@.len() && #[trigger] order@[j] == v {
                    assert(order@.contains(v));
                    assert(order@.to_set().contains(v));
                }
            }
        }
        assert(views(found@) =~= Seq::empty());
    }
    search(family, fbas, &faulty, &all, order, 0, &mut sel, &mut avail, &mut found, true);
    proof {
        assert(faulty@ == Set::<usize>::empty());
        assert forall|t: Set<usize>|
            is_minimal(family, fbas@, Set::empty(), t) && t.subset_of(
                order@.to_set(),
            ) implies views(found@).contains(t) by {
            assert(in_subtree(order@, 0, Set::empty(), t));
        }
        lemma_minimal_members_antichain(family, fbas@, views(found@));
        assert forall|i: int| 0 <= i < found@.len() implies (#[trigger] views(found@)[i]).subset_of(
            order@.to_set(),
        ) by {
            assert(views(found@).contains(views(found@)[i]));
        }
    }
    found
}

/// The minimal members of the family, in canonical order. `candidates`
/// holds every node that a minimal member may have; the search takes the
/// most trusted of them first.
pub fn find_minimal_members(family: Family, fbas: &Fbas, candidates: &NodeIdSet) -> (sets: Vec<
    NodeIdSet,
>)
    requires
        forall|v: usize| candidates@.contains(v) ==> v < fbas@.len(),
        forall|t: Set<usize>|
            is_minimal(family, fbas@, Set::empty(), t) ==> t.subset_of(candidates@),
    ensures
        holds_minimal_members(family, fbas@, views(sets@)),
        is_antichain(views(sets@)),
{
    let order = ranked_order(fbas, candidates);
    proof {
        assert(is_order(fbas@, order@)) by {
            assert forall|j: int| 0 <= j < order@.len() implies (#[trigger] order@[j])
                < fbas@.len() by {
                assert(order@.contains(order@[j]));
                assert(order@.to_set().contains(order@[j]));
            }
        }
    }
    find_minimal_members_in_order(family, fbas, &order)
}

/// The minimal quorums of the system, in canonical order.
pub fn find_minimal_quorums(fbas: &Fbas) -> (quorums: Vec<NodeIdSet>)
    ensures
        is_canonical(views(quorums@)),
        is_antichain(views(quorums@)),
        forall|i: int|
            0 <= i < quorums@.len() ==> is_minimal_quorum(fbas@, #[trigger] views(quorums@)[i]),
        forall|q: Set<usize>| is_minimal_quorum(fbas@, q) ==> views(quorums@).contains(q),
{
    let all = node_range(fbas.nodes.len());
    let candidates = greatest_quorum_in(fbas, &all);
    proof {
        assert forall|t: Set<usize>|
            is_minimal(Family::Quorums, fbas@, Set::empty(), t) implies t.subset_of(
            candidates@,
        ) by {
            lemma_quorum_beside_nothing(fbas@, t);
            assert(t.subset_of(all@));
        }
        assert forall|v: usize| candidates@.contains(v) implies v < fbas@.len() by {
            assert(all@.contains(v));
        }
    }
    let quorums = find_minimal_members(Family::Quorums, fbas, &candidates);
    proof {
        assert forall|i: int| 0 <= i < quorums@.len() implies is_minimal_quorum(
            fbas@,
            #[trigger] views(quorums@)[i],
        ) by {
            lemma_minimal_quorum_family(fbas@, views(quorums@)[i]);
        }
        assert forall|q: Set<usize>| is_minimal_quorum(fbas@, q) implies views(
            quorums@,
        ).contains(q) by {
            lemma_minimal_quorum_family(fbas@, q);
        }
    }
    quorums
}

/// The minimal quorums beside `faulty`, in canonical order: the minimal
/// quorums that are left once the nodes of `faulty` are taken out and agree
/// to everything.
pub fn find_minimal_quorums_beside(fbas: &Fbas, faulty: &NodeIdSet) -> (quorums: Vec<NodeIdSet>)
    ensures
        is_canonical(views(quorums@)),
        forall|i: int|
            0 <= i < quorums@.len() ==> is_minimal(
                Family::Quorums,
                fbas@,
                faulty@,
                #[trigger] views(quorums@)[i],
            ),
        forall|q: Set<usize>|
            is_minimal(Family::Quorums, fbas@, faulty@, q) ==> views(quorums@).contains(q),
{
    let all = node_range(fbas.nodes.len());
    assert(all@ =~= all_nodes(fbas@));
    let candidates = greatest_quorum_beside(fbas, faulty, &all);
    proof {
        assert forall|v: usize| candidates@.contains(v) implies v < fbas@.len() by {
            assert(all@.contains(v));
        }
    }
    let order = ranked_order(fbas, &candidates);
    let mut sel = NodeIdSet::new();
    let mut avail = candidates.clone();
    let mut found: Vec<NodeIdSet> = Vec::new();
    proof {
        assert(is_order(fbas@, order@)) by {
            assert forall|j: int| 0 <= j < order@.len() implies (#[trigger] order@[j])
                < fbas@.len() by {
                assert(order@.contains(order@[j]));
                assert(order@.to_set().contains(order@[j]));
            }
        }
        assert(is_available(order@, 0, sel@, avail@)) by {
            assert forall|v: usize|
                avail@.contains(v) <==> (sel@.contains(v) || exists|j: int|
                    0 <= j < order@.len() && #[trigger] order@[j] == v) by {
                if avail@.contains(v) {
                    assert(order@.to_set().contains(v));
                    assert(order@.contains(v));
                }
                if exists|j: int| 0 <= j < order@.len() && #[trigger] order@[j] == v {
                    assert(order@.contains(v));
                    assert(order@.to_set().contains(v));
                }
            }
        }
        assert(views(found@) =~= Seq::empty());
    }
    search(Family::Quorums, fbas, faulty, &all, &order, 0, &mut sel, &mut avail, &mut found, true);
    proof {
        assert forall|q: Set<usize>|
            is_minimal(Family::Quorums, fbas@, faulty@, q) implies views(found@).contains(q) by {
            assert(q.subset_of(all@));
            assert(q.subset_of(candidates@));
            assert(in_subtree(order@, 0, Set::empty(), q));
        }
    }
    found
}

/// Whether two quorums of `net` share no node.
pub open spec fn has_disjoint_quorums(net: Seq<NodeModel>) -> bool {
    exists|a: Set<usize>, b: Set<usize>| is_quorum(net, a) && is_quorum(net, b) && a.disjoint(b)
}

/// Whether the system enjoys quorum intersection: every two of its quorums
/// share a node. A system without any quorum enjoys it, for want of two
/// quorums.
pub open spec fn has_quorum_intersection(net: Seq<NodeModel>) -> bool {
    !has_disjoint_quorums(net)
}

/// Whether `sets` holds exactly the minimal quorums of `net`.
pub open spec fn holds_minimal_quorums(net: Seq<NodeModel>, sets: Seq<Set<usize>>) -> bool {
    &&& forall|i: int| 0 <= i < sets.len() ==> is_minimal_quorum(net, #[trigger] sets[i])
    &&& forall|q: Set<usize>| is_minimal_quorum(net, q) ==> sets.contains(q)
}

/// Every quorum has a subset that is a minimal quorum.
pub proof fn lemma_minimal_quorum_inside(net: Seq<NodeModel>, q: Set<usize>) -> (m: Set<usize>)
    requires
        is_quorum(net, q),
    ensures
        m.subset_of(q),
        is_minimal_quorum(net, m),
{
    lemma_quorum_beside_nothing(net, q);
    let m = lemma_minimal_subset(Family::Quorums, net, Set::empty(), q);
    lemma_minimal_quorum_family(net, m);
    m
}

/// A system enjoys quorum intersection if and only if every two of its
/// minimal quorums share a node: two quorums without a common node exist
/// exactly where two minimal quorums without a common node exist. And a
/// quorum exists exactly where a minimal quorum exists.
pub proof fn lemma_intersection_by_minimal_quorums(net: Seq<NodeModel>, sets: Seq<Set<usize>>)
    requires
        holds_minimal_quorums(net, sets),
    ensures
        has_quorum_intersection(net) <==> !has_disjoint_pair(sets),
        (exists|q: Set<usize>| is_quorum(net, q)) == (sets.len() > 0),
{
    if has_disjoint_quorums(net) {
        let (a, b) = choose|a: Set<usize>, b: Set<usize>|
            is_quorum(net, a) && is_quorum(net, b) && a.disjoint(b);
        let ma = lemma_minimal_quorum_inside(net, a);
        let mb = lemma_minimal_quorum_inside(net, b);
        let i = choose|i: int| 0 <= i < sets.len() && sets[i] == ma;
        let j = choose|j: int| 0 <= j < sets.len() && sets[j] == mb;
        assert(sets[i].disjoint(sets[j]));
    }
    if has_disjoint_pair(sets) {
        let (i, j) = choose|i: int, j: int|
            0 <= i < sets.len() && 0 <= j < sets.len() && (#[trigger] sets[i]).disjoint(
                #[trigger] sets[j],
            );
        assert(is_minimal_quorum(net, sets[i]) && is_minimal_quorum(net, sets[j]));
    }
    if exists|q: Set<usize>| is_quorum(net, q) {
        let q = choose|q: Set<usize>| is_quorum(net, q);
        let m = lemma_minimal_quorum_inside(net, q);
        assert(sets.contains(m));
    }
    if sets.len() > 0 {
        assert(is_minimal_quorum(net, sets[0]));
    }
}

/// Whether the system enjoys quorum intersection, found by way of its
/// minimal quorums: every two of them share a node.
pub fn has_quorum_intersection_via_minimal_quorums(fbas: &Fbas) -> (b: bool)
    ensures
        b == has_quorum_intersection(fbas@),
{
    let quorums = find_minimal_quorums(fbas);
    let pair = find_disjoint_pair(&quorums);
    proof {
        lemma_intersection_by_minimal_quorums(fbas@, views(quorums@));
        match pair {
            Some((i, j)) => {
                assert(views(quorums@)[i as int].disjoint(views(quorums@)[j as int]));
            },
            None => {},
        }
    }
    pair.is_none()
}

/// Two quorums that share no node, where the system has such; found
/// without listing the minimal quorums.
pub fn find_nonintersecting_quorums(fbas: &Fbas) -> (pair: Option<(NodeIdSet, NodeIdSet)>)
    ensures
        match pair {
            Some((a, b)) => is_quorum(fbas@, a@) && is_quorum(fbas@, b@) && a@.disjoint(b@),
            None => !has_disjoint_quorums(fbas@),
        },
{
    let all = node_range(fbas.nodes.len());
    assert(all@ =~= all_nodes(fbas@));
    let candidates = greatest_quorum_in(fbas, &all);
    proof {
        assert forall|v: usize| candidates@.contains(v) implies v < fbas@.len() by {
            assert(all@.contains(v));
        }
    }
    let order = ranked_order(fbas, &candidates);
    let mut sel = NodeIdSet::new();
    let mut avail = candidates.clone();
    proof {
        assert(is_order(fbas@, order@)) by {
            assert forall|j: int| 0 <= j < order@.len() implies (#[trigger] order@[j])
                < fbas@.len() by {
                assert(order@.contains(order@[j]));
                assert(order@.to_set().contains(order@[j]));
            }
        }
        assert(is_available(order@, 0, sel@, avail@)) by {
            assert forall|v: usize|
                avail@.contains(v) <==> (sel@.contains(v) || exists|j: int|
                    0 <= j < order@.len() && #[trigger] order@[j] == v) by {
                if avail@.contains(v) {
                    assert(order@.to_set().contains(v));
                    assert(order@.contains(v));
                }
                if exists|j: int| 0 <= j < order@.len() && #[trigger] order@[j] == v {
                    assert(order@.contains(v));
                    assert(order@.to_set().contains(v));
                }
            }
        }
    }
    let nothing = NodeIdSet::new();
    let pair = search_disjoint_quorums(fbas, &nothing, &all, &order, 0, &mut sel, &mut avail);
    proof {
        match &pair {
            Some((a, b)) => {
                lemma_quorum_beside_nothing(fbas@, a@);
                lemma_quorum_beside_nothing(fbas@, b@);
            },
            None => {
                if has_disjoint_quorums(fbas@) {
                    let (a, b) = choose|a: Set<usize>, b: Set<usize>|
                        is_quorum(fbas@, a) && is_quorum(fbas@, b) && a.disjoint(b);
                    lemma_quorum_beside_nothing(fbas@, a);
                    lemma_quorum_beside_nothing(fbas@, b);
                    assert(a.subset_of(all@));
                    assert(in_subtree(order@, 0, Set::empty(), a));
                    assert(!b.disjoint(a));
                }
            },
        }
    }
    pair
}

/// Whether the system enjoys quorum intersection, found by a direct search
/// for two quorums that share no node; where there are such, they are
/// handed out. The answer is that of the way by the minimal quorums.
pub fn has_quorum_intersection_via_alternative_check(fbas: &Fbas) -> (r: (
    bool,
    Option<(NodeIdSet, NodeIdSet)>,
))
    ensures
        r.0 == has_quorum_intersection(fbas@),
        r.1.is_some() == !r.0,
        match r.1 {
            Some((a, b)) => is_quorum(fbas@, a@) && is_quorum(fbas@, b@) && a@.disjoint(b@),
            None => true,
        },
{
    match find_nonintersecting_quorums(fbas) {
        Some(pair) => (false, Some(pair)),
        None => (true, None),
    }
}

} // verus!
