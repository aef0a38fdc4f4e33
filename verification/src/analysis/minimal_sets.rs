//! The search for the minimal sets of a family of node sets: the minimal
//! quorums, the minimal blocking sets or the minimal splitting sets.

use crate::analysis::quorums::{
    all_satisfied, greatest_quorum_beside, greatest_quorum_in, is_quorum_beside,
    is_quorum_beside_faulty, members_satisfied,
};
use crate::analysis::sets::{
    contains_subset_of, has_subset_of, insert_canonical, is_canonical, views,
};
use crate::node_set::{NodeId, NodeIdSet};
use crate::types::{is_quorum, Fbas, NodeModel};
use vstd::prelude::*;

verus! {

/// A family of node sets whose minimal members are searched for.
#[derive(Clone, Copy, Debug, PartialEq, Eq)]
pub enum Family {
    /// The quorums beside a set of faulty nodes.
    Quorums,
    /// The sets that share a node with every quorum.
    BlockingSets,
    /// The sets beside which two quorums without a common node exist.
    SplittingSets,
}

/// Whether every member of `s` is a node of `net`.
pub open spec fn within_nodes(net: Seq<NodeModel>, s: Set<usize>) -> bool {
    forall|v: usize| s.contains(v) ==> v < net.len()
}

/// Whether `b` is a blocking set: a set of nodes that shares a node with
/// every quorum.
pub open spec fn is_blocking_set(net: Seq<NodeModel>, b: Set<usize>) -> bool {
    &&& b.finite()
    &&& within_nodes(net, b)
    &&& forall|q: Set<usize>| is_quorum(net, q) ==> !q.disjoint(b)
}

/// Whether `s` is a splitting set: a set of nodes beside which two quorums
/// exist that share no node.
pub open spec fn is_splitting_set(net: Seq<NodeModel>, s: Set<usize>) -> bool {
    &&& s.finite()
    &&& within_nodes(net, s)
    &&& exists|a: Set<usize>, b: Set<usize>|
        is_quorum_beside(net, s, a) && is_quorum_beside(net, s, b) && a.disjoint(b)
}

/// Whether `s` belongs to the family. `faulty` matters to the quorums only.
pub open spec fn in_family(
    family: Family,
    net: Seq<NodeModel>,
    faulty: Set<usize>,
    s: Set<usize>,
) -> bool {
    match family {
        Family::Quorums => is_quorum_beside(net, faulty, s),
        Family::BlockingSets => is_blocking_set(net, s),
        Family::SplittingSets => is_splitting_set(net, s),
    }
}

/// Whether `s` is a minimal member of the family: it belongs to it, and no
/// proper subset of it does.
pub open spec fn is_minimal(
    family: Family,
    net: Seq<NodeModel>,
    faulty: Set<usize>,
    s: Set<usize>,
) -> bool {
    &&& in_family(family, net, faulty, s)
    &&& forall|t: Set<usize>|
        t.subset_of(s) && t != s ==> !in_family(family, net, faulty, t)
}

/// Every member of a family has a subset that is a minimal member.
pub proof fn lemma_minimal_subset(
    family: Family,
    net: Seq<NodeModel>,
    faulty: Set<usize>,
    s: Set<usize>,
) -> (m: Set<usize>)
    requires
        in_family(family, net, faulty, s),
    ensures
        m.subset_of(s),
        is_minimal(family, net, faulty, m),
    decreases s.len(),
{
    assert(s.finite());
    if is_minimal(family, net, faulty, s) {
        s
    } else {
        let t = choose|t: Set<usize>|
            t.subset_of(s) && t != s && in_family(family, net, faulty, t);
        assert(t.len() < s.len()) by {
            assert(!(t =~= s));
            let v = choose|v: usize| s.contains(v) && !t.contains(v);
            t.lemma_subset_not_in_lt(s, v);
        }
        lemma_minimal_subset(family, net, faulty, t)
    }
}

/// Whether `t` lies in the part of the search that starts at place `next`
/// of `order` with the selection `sel`: it is made of nodes of `order`, and
/// of the nodes before `next` it has those that `sel` has.
pub open spec fn in_subtree(order: Seq<usize>, next: int, sel: Set<usize>, t: Set<usize>) -> bool {
    &&& t.subset_of(order.to_set())
    &&& forall|j: int| 0 <= j < next ==> t.contains(#[trigger] order[j]) == sel.contains(order[j])
}

/// Whether the search reaches `t` before the part that starts at place
/// `next` with the selection `sel`: at the first place where they part,
/// `sel` has the node and `t` has not.
pub open spec fn precedes(order: Seq<usize>, next: int, sel: Set<usize>, t: Set<usize>) -> bool {
    &&& t.subset_of(order.to_set())
    &&& exists|j: int|
        0 <= j < next && sel.contains(#[trigger] order[j]) && !t.contains(order[j]) && forall|
            i: int,
        |
            0 <= i < j ==> t.contains(#[trigger] order[i]) == sel.contains(order[i])
}

/// Whether `sel` is made of nodes that `order` holds before place `next`.
pub open spec fn selected_before(order: Seq<usize>, next: int, sel: Set<usize>) -> bool {
    forall|v: usize| sel.contains(v) ==> exists|j: int| 0 <= j < next && #[trigger] order[j] == v
}

/// A proper subset of the selection is reached before the selection.
pub proof fn lemma_proper_subset_precedes(
    order: Seq<usize>,
    next: int,
    sel: Set<usize>,
    t: Set<usize>,
)
    requires
        0 <= next <= order.len(),
        selected_before(order, next, sel),
        t.subset_of(sel),
        t != sel,
    ensures
        precedes(order, next, sel, t),
{
    assert(!(t =~= sel));
    let v = choose|v: usize| sel.contains(v) && !t.contains(v);
    let j = choose|j: int| 0 <= j < next && order[j] == v;
    assert forall|w: usize| t.contains(w) implies order.to_set().contains(w) by {
        let k = choose|k: int| 0 <= k < next && order[k] == w;
        assert(order[k] == w);
    }
    lemma_first_parting(order, next, sel, t, j);
}

/// If `sel` has the node at place `j` and its subset `t` has not, then
/// there is a first such place.
pub proof fn lemma_first_parting(
    order: Seq<usize>,
    next: int,
    sel: Set<usize>,
    t: Set<usize>,
    j: int,
)
    requires
        0 <= j < next <= order.len(),
        t.subset_of(sel),
        t.subset_of(order.to_set()),
        sel.contains(order[j]),
        !t.contains(order[j]),
    ensures
        precedes(order, next, sel, t),
    decreases j,
{
    if exists|i: int| 0 <= i < j && sel.contains(order[i]) && !t.contains(order[i]) {
        let i = choose|i: int| 0 <= i < j && sel.contains(order[i]) && !t.contains(order[i]);
        lemma_first_parting(order, next, sel, t, i);
    } else {
        assert(0 <= j < next && sel.contains(order[j]) && !t.contains(order[j]) && forall|i: int|
            0 <= i < j ==> t.contains(#[trigger] order[i]) == sel.contains(order[i]));
    }
}

/// The set of all nodes of `net`.
pub open spec fn all_nodes(net: Seq<NodeModel>) -> Set<usize> {
    Set::new(|v: usize| v < net.len())
}

/// Whether `order` lists nodes of `net`, none twice.
pub open spec fn is_order(net: Seq<NodeModel>, order: Seq<usize>) -> bool {
    &&& order.no_duplicates()
    &&& forall|j: int| 0 <= j < order.len() ==> (#[trigger] order[j]) < net.len()
}

/// Whether `avail` holds the selection and the nodes from place `next` on.
pub open spec fn is_available(order: Seq<usize>, next: int, sel: Set<usize>, avail: Set<usize>) -> bool {
    forall|v: usize|
        avail.contains(v) <==> (sel.contains(v) || exists|j: int|
            next <= j < order.len() && #[trigger] order[j] == v)
}

/// What holds of `found` at every step: its sets are the minimal members
/// that the search has reached, in canonical order.
pub open spec fn found_so_far(
    family: Family,
    net: Seq<NodeModel>,
    faulty: Set<usize>,
    order: Seq<usize>,
    next: int,
    sel: Set<usize>,
    found: Seq<Set<usize>>,
) -> bool {
    &&& is_canonical(found)
    &&& forall|i: int| 0 <= i < found.len() ==> is_minimal(family, net, faulty, #[trigger] found[i])
    &&& forall|t: Set<usize>|
        is_minimal(family, net, faulty, t) && #[trigger] precedes(order, next, sel, t)
            ==> found.contains(t)
}

/// The rank of a family: the search for splitting sets runs searches for
/// quorums.
pub open spec fn rank(family: Family) -> nat {
    match family {
        Family::SplittingSets => 1,
        _ => 0,
    }
}

/// The set of the nodes `0 .. n`.
pub fn node_range(n: usize) -> (s: NodeIdSet)
    ensures
        s@ == Set::new(|v: usize| v < n),
{
    let mut s = NodeIdSet::new();
    let mut v: usize = 0;
    while v < n
        invariant
            v <= n,
            s@ == Set::new(|w: usize| w < v),
        decreases n - v,
    {
        s.insert(v);
        assert(s@ =~= Set::new(|w: usize| w < v + 1));
        v = v + 1;
    }
    s
}

/// Whether two of `sets` share no node.
pub open spec fn has_disjoint_pair(sets: Seq<Set<usize>>) -> bool {
    exists|i: int, j: int|
        0 <= i < sets.len() && 0 <= j < sets.len() && (#[trigger] sets[i]).disjoint(
            #[trigger] sets[j],
        )
}

/// Two of `sets` that share no node, where there are such: their places,
/// the first such pair in the order of places.
pub fn find_disjoint_pair(sets: &Vec<NodeIdSet>) -> (pair: Option<(usize, usize)>)
    ensures
        match pair {
            Some((i, j)) => i < sets@.len() && j < sets@.len() && sets@[i as int]@.disjoint(
                sets@[j as int]@,
            ) && forall|a: int, b: int|
                0 <= a < sets@.len() && 0 <= b < sets@.len() && (a < i || (a == i && b < j))
                    ==> !(#[trigger] views(sets@)[a]).disjoint(#[trigger] views(sets@)[b]),
            None => !has_disjoint_pair(views(sets@)),
        },
{
    let mut i: usize = 0;
    while i < sets.len()
        invariant
            i <= sets.len(),
            forall|a: int, b: int|
                0 <= a < i && 0 <= b < sets@.len() ==> !(#[trigger] views(sets@)[a]).disjoint(
                    #[trigger] views(sets@)[b],
                ),
        decreases sets.len() - i,
    {
        let mut j: usize = 0;
        while j < sets.len()
            invariant
                i < sets.len(),
                j <= sets.len(),
                forall|a: int, b: int|
                    0 <= a < i && 0 <= b < sets@.len() ==> !(#[trigger] views(sets@)[a]).disjoint(
                        #[trigger] views(sets@)[b],
                    ),
                forall|b: int|
                    0 <= b < j ==> !views(sets@)[i as int].disjoint(#[trigger] views(sets@)[b]),
            decreases sets.len() - j,
        {
            if sets[i].is_disjoint(&sets[j]) {
                return Some((i, j));
            }
            j = j + 1;
        }
        i = i + 1;
    }
    None
}

/// Whether `candidate` belongs to the family.
pub fn belongs(
    family: Family,
    fbas: &Fbas,
    faulty: &NodeIdSet,
    all: &NodeIdSet,
    candidate: &NodeIdSet,
) -> (b: bool)
    requires
        all@ == all_nodes(fbas@),
    ensures
        b == in_family(family, fbas@, faulty@, candidate@),
    decreases rank(family), 0nat, 0nat,
{
    proof {
        candidate.lemma_finite();
    }
    match family {
        Family::Quorums => is_quorum_beside_faulty(fbas, faulty, candidate),
        Family::BlockingSets => {
            if !candidate.is_subset(all) {
                return false;
            }
            let mut rest = all.clone();
            rest.difference_with(candidate);
            let g = greatest_quorum_in(fbas, &rest);
            let blocked = g.is_empty();
            proof {
                g.lemma_finite();
                if blocked {
                    assert forall|q: Set<usize>| is_quorum(fbas@, q) implies !q.disjoint(
                        candidate@,
                    ) by {
                        if q.disjoint(candidate@) {
                            assert(q.subset_of(rest@));
                            assert(q.subset_of(g@));
                            assert(q =~= Set::empty());
                        }
                    }
                } else {
                    assert(g@.len() > 0) by {
                        if g@.len() == 0 {
                            g@.lemma_len0_is_empty();
                        }
                    }
                    assert(is_quorum(fbas@, g@));
                    assert(g@.disjoint(candidate@));
                }
            }
            blocked
        },
        Family::SplittingSets => {
            if !candidate.is_subset(all) {
                return false;
            }
            let mut rest = all.clone();
            rest.difference_with(candidate);
            proof {
                assert forall|v: usize| rest@.contains(v) implies v < fbas@.len() by {
                    assert(all@.contains(v));
                }
            }
            let order = crate::rank::ranked_order(fbas, &rest);
            let mut sel = NodeIdSet::new();
            proof {
                assert forall|j: int| 0 <= j < order@.len() implies (#[trigger] order@[j])
                    < fbas@.len() by {
                    assert(order@.contains(order@[j]));
                    assert(order@.to_set().contains(order@[j]));
                }
                assert forall|v: usize| rest@.contains(v) <==> (sel@.contains(v) || exists|
                    j: int,
                |
                    0 <= j < order@.len() && #[trigger] order@[j] == v) by {
                    if rest@.contains(v) {
                        assert(order@.to_set().contains(v));
                        assert(order@.contains(v));
                    }
                    if exists|j: int| 0 <= j < order@.len() && #[trigger] order@[j] == v {
                        assert(order@.contains(v));
                        assert(order@.to_set().contains(v));
                    }
                }
            }
            let pair = search_disjoint_quorums(fbas, candidate, all, &order, 0, &mut sel, &mut rest);
            proof {
                if pair.is_none() && is_splitting_set(fbas@, candidate@) {
                    let (a, b) = choose|a: Set<usize>, b: Set<usize>|
                        is_quorum_beside(fbas@, candidate@, a) && is_quorum_beside(
                            fbas@,
                            candidate@,
                            b,
                        ) && a.disjoint(b);
                    assert(in_subtree(order@, 0, Set::empty(), a)) by {
                        assert forall|v: usize| a.contains(v) implies order@.to_set().contains(
                            v,
                        ) by {
                            assert(all@.contains(v));
                        }
                    }
                    assert(!b.disjoint(a));
                }
            }
            pair.is_some()
        },
    }
}

/// The test by which the search gives up a selection: for the quorums,
/// whether `avail` with the faulty nodes satisfies every selected node; for
/// the blocking sets, whether `avail` is one (or no set of nodes at all).
/// The splitting sets have no such test.
pub open spec fn bound_holds(
    family: Family,
    net: Seq<NodeModel>,
    faulty: Set<usize>,
    sel: Set<usize>,
    avail: Set<usize>,
) -> bool {
    match family {
        Family::Quorums => members_satisfied(net, sel, avail.union(faulty)),
        Family::BlockingSets => !within_nodes(net, avail) || is_blocking_set(net, avail),
        Family::SplittingSets => true,
    }
}

/// Whether a member of the family may lie between `sel` and `avail`. A
/// `false` is certain; a `true` is not.
pub fn may_extend(
    family: Family,
    fbas: &Fbas,
    faulty: &NodeIdSet,
    all: &NodeIdSet,
    sel: &NodeIdSet,
    avail: &NodeIdSet,
) -> (b: bool)
    requires
        all@ == all_nodes(fbas@),
    ensures
        b == bound_holds(family, fbas@, faulty@, sel@, avail@),
        !b ==> forall|t: Set<usize>|
            sel@.subset_of(t) && t.subset_of(avail@) ==> !in_family(family, fbas@, faulty@, t),
    decreases rank(family), 1nat, 0nat,
{
    match family {
        Family::Quorums => {
            let mut e = avail.clone();
            e.union_with(faulty);
            let b = all_satisfied(fbas, sel, &e);
            proof {
                if !b {
                    assert forall|t: Set<usize>|
                        sel@.subset_of(t) && t.subset_of(avail@) implies !is_quorum_beside(
                        fbas@,
                        faulty@,
                        t,
                    ) by {
                        if is_quorum_beside(fbas@, faulty@, t) {
                            assert forall|v: usize| sel@.contains(v) implies v < fbas@.len()
                                && fbas@[v as int].quorum_set.is_satisfied_by(e@) by {
                                assert(t.contains(v));
                                fbas@[v as int].quorum_set.lemma_monotone(t.union(faulty@), e@);
                            }
                        }
                    }
                }
            }
            b
        },
        Family::BlockingSets => {
            if !avail.is_subset(all) {
                proof {
                    let v = choose|v: usize| avail@.contains(v) && !all@.contains(v);
                    assert(!(v < fbas@.len()));
                }
                return true;
            }
            assert(within_nodes(fbas@, avail@)) by {
                assert forall|v: usize| avail@.contains(v) implies v < fbas@.len() by {
                    assert(all@.contains(v));
                }
            }
            let b = belongs(family, fbas, faulty, all, avail);
            proof {
                if !b {
                    avail.lemma_finite();
                    assert(within_nodes(fbas@, avail@)) by {
                        assert forall|v: usize| avail@.contains(v) implies v < fbas@.len() by {
                            assert(all@.contains(v));
                        }
                    }
                    assert forall|t: Set<usize>|
                        sel@.subset_of(t) && t.subset_of(avail@) implies !is_blocking_set(
                        fbas@,
                        t,
                    ) by {
                        if is_blocking_set(fbas@, t) {
                            assert forall|q: Set<usize>| is_quorum(fbas@, q) implies !q.disjoint(
                                avail@,
                            ) by {
                                assert(!q.disjoint(t));
                            }
                            assert(is_blocking_set(fbas@, avail@));
                        }
                    }
                }
            }
            b
        },
        Family::SplittingSets => true,
    }
}

/// The search proper: from place `next` of `order` on, with the nodes of
/// `sel` selected among those before, it puts into `found` every minimal
/// member of the family that has, of the nodes before `next`, those of
/// `sel`. Sets without the node at `next` are tried before sets with it,
/// so that each set is reached after all its subsets.
pub fn search(
    family: Family,
    fbas: &Fbas,
    faulty: &NodeIdSet,
    all: &NodeIdSet,
    order: &Vec<NodeId>,
    next: usize,
    sel: &mut NodeIdSet,
    avail: &mut NodeIdSet,
    found: &mut Vec<NodeIdSet>,
    fresh: bool,
)
    requires
        all@ == all_nodes(fbas@),
        next <= order@.len(),
        is_order(fbas@, order@),
        selected_before(order@, next as int, old(sel)@),
        is_available(order@, next as int, old(sel)@, old(avail)@),
        found_so_far(family, fbas@, faulty@, order@, next as int, old(sel)@, views(old(found)@)),
        !fresh ==> !in_family(family, fbas@, faulty@, old(sel)@) && !has_subset_of(
            views(old(found)@),
            old(sel)@,
        ),
    ensures
        final(sel)@ == old(sel)@,
        final(avail)@ == old(avail)@,
        is_canonical(views(final(found)@)),
        forall|i: int|
            0 <= i < final(found)@.len() ==> is_minimal(
                family,
                fbas@,
                faulty@,
                #[trigger] views(final(found)@)[i],
            ),
        forall|t: Set<usize>|
            views(old(found)@).contains(t) ==> views(final(found)@).contains(t),
        forall|t: Set<usize>|
            views(final(found)@).contains(t) ==> views(old(found)@).contains(t) || t.subset_of(
                order@.to_set(),
            ),
        forall|t: Set<usize>|
            is_minimal(family, fbas@, faulty@, t) && #[trigger] in_subtree(
                order@,
                next as int,
                old(sel)@,
                t,
            ) ==> views(final(found)@).contains(t),
    decreases rank(family), 2nat, order@.len() - next,
{
    let ghost net = fbas@;
    let ghost ord = order@;
    let ghost sel0 = sel@;
    let ghost avail0 = avail@;
    let ghost found0 = views(found@);
    proof {
        // every set of this part of the search holds the selection
        assert forall|t: Set<usize>| in_subtree(ord, next as int, sel0, t) implies sel0.subset_of(
            t,
        ) by {
            assert forall|v: usize| sel0.contains(v) implies t.contains(v) by {
                let j = choose|j: int| 0 <= j < next && ord[j] == v;
                assert(t.contains(ord[j]) == sel0.contains(ord[j]));
            }
        }
    }
    if fresh {
        if contains_subset_of(found, sel) {
            proof {
                let i = choose|i: int| 0 <= i < found0.len() && (#[trigger] found0[i]).subset_of(sel0);
                assert(is_minimal(family, net, faulty@, found0[i]));
                assert forall|t: Set<usize>|
                    is_minimal(family, net, faulty@, t) && #[trigger] in_subtree(
                        ord,
                        next as int,
                        sel0,
                        t,
                    ) implies found0.contains(t) by {
                    assert(found0[i].subset_of(t));
                    assert(found0[i] == t);
                }
            }
            return ;
        }
        if belongs(family, fbas, faulty, all, sel) {
            proof {
                // no proper subset belongs to the family
                assert forall|t: Set<usize>| t.subset_of(sel0) && t != sel0 implies !in_family(
                    family,
                    net,
                    faulty@,
                    t,
                ) by {
                    if in_family(family, net, faulty@, t) {
                        let m = lemma_minimal_subset(family, net, faulty@, t);
                        lemma_proper_subset_precedes(ord, next as int, sel0, m);
                        assert(found0.contains(m));
                        let i = choose|i: int| 0 <= i < found0.len() && found0[i] == m;
                        assert(found0[i].subset_of(sel0));
                    }
                }
                assert(is_minimal(family, net, faulty@, sel0));
                if found0.contains(sel0) {
                    let i = choose|i: int| 0 <= i < found0.len() && found0[i] == sel0;
                    assert(found0[i].subset_of(sel0));
                }
            }
            let copy = sel.clone();
            insert_canonical(found, copy);
            proof {
                let found1 = views(found@);
                assert(sel0.subset_of(ord.to_set())) by {
                    assert forall|v: usize| sel0.contains(v) implies ord.to_set().contains(v) by {
                        let j = choose|j: int| 0 <= j < next && ord[j] == v;
                        assert(ord[j] == v);
                    }
                }
                assert forall|i: int| 0 <= i < found1.len() implies is_minimal(
                    family,
                    net,
                    faulty@,
                    #[trigger] found1[i],
                ) by {
                    assert(found1.contains(found1[i]));
                    if found0.contains(found1[i]) {
                        let k = choose|k: int| 0 <= k < found0.len() && found0[k] == found1[i];
                        assert(is_minimal(family, net, faulty@, found0[k]));
                    }
                }
                assert forall|t: Set<usize>|
                    is_minimal(family, net, faulty@, t) && #[trigger] in_subtree(
                        ord,
                        next as int,
                        sel0,
                        t,
                    ) implies found1.contains(t) by {
                    assert(sel0.subset_of(t));
                    assert(t == sel0);
                }
            }
            return ;
        }
    }
    if next == order.len() {
        proof {
            assert forall|t: Set<usize>|
                is_minimal(family, net, faulty@, t) && #[trigger] in_subtree(
                    ord,
                    next as int,
                    sel0,
                    t,
                ) implies found0.contains(t) by {
                assert(t =~= sel0) by {
                    assert forall|v: usize| t.contains(v) implies sel0.contains(v) by {
                        assert(ord.to_set().contains(v));
                        let j = choose|j: int| 0 <= j < ord.len() && ord[j] == v;
                        assert(t.contains(ord[j]) == sel0.contains(ord[j]));
                    }
                }
            }
        }
        return ;
    }
    if !may_extend(family, fbas, faulty, all, sel, avail) {
        proof {
            assert forall|t: Set<usize>|
                is_minimal(family, net, faulty@, t) && #[trigger] in_subtree(
                    ord,
                    next as int,
                    sel0,
                    t,
                ) implies found0.contains(t) by {
                assert(sel0.subset_of(t));
                assert(t.subset_of(avail0)) by {
                    assert forall|v: usize| t.contains(v) implies avail0.contains(v) by {
                        assert(ord.to_set().contains(v));
                        let j = choose|j: int| 0 <= j < ord.len() && ord[j] == v;
                        if j < next {
                            assert(t.contains(ord[j]) == sel0.contains(ord[j]));
                        }
                    }
                }
            }
        }
        return ;
    }
    let v = order[next];
    proof {
        // the node at `next` is not selected yet
        if sel0.contains(v) {
            let j = choose|j: int| 0 <= j < next && ord[j] == v;
            assert(ord[j] == ord[next as int]);
        }
    }
    avail.remove(v);
    proof {
        assert(is_available(ord, next + 1, sel0, avail@)) by {
            assert forall|w: usize|
                avail@.contains(w) <==> (sel0.contains(w) || exists|j: int|
                    next + 1 <= j < ord.len() && #[trigger] ord[j] == w) by {
                if avail0.contains(w) && !sel0.contains(w) {
                    let j = choose|j: int| next <= j < ord.len() && #[trigger] ord[j] == w;
                    if w != v {
                        assert(next + 1 <= j < ord.len() && ord[j] == w);
                    }
                }
                if exists|j: int| next + 1 <= j < ord.len() && #[trigger] ord[j] == w {
                    let j = choose|j: int| next + 1 <= j < ord.len() && #[trigger] ord[j] == w;
                    assert(next <= j < ord.len() && ord[j] == w);
                    assert(ord[j] != ord[next as int]);
                }
            }
        }
        assert(selected_before(ord, next + 1, sel0)) by {
            assert forall|w: usize| sel0.contains(w) implies exists|j: int|
                0 <= j < next + 1 && #[trigger] ord[j] == w by {
                let j = choose|j: int| 0 <= j < next && #[trigger] ord[j] == w;
                assert(0 <= j < next + 1 && ord[j] == w);
            }
        }
        assert forall|t: Set<usize>|
            is_minimal(family, net, faulty@, t) && #[trigger] precedes(
                ord,
                next + 1,
                sel0,
                t,
            ) implies found0.contains(t) by {
            let j = choose|j: int|
                0 <= j < next + 1 && sel0.contains(#[trigger] ord[j]) && !t.contains(ord[j])
                    && forall|i: int|
                    0 <= i < j ==> t.contains(#[trigger] ord[i]) == sel0.contains(ord[i]);
            assert(j < next);
            assert(precedes(ord, next as int, sel0, t));
        }
    }
    search(family, fbas, faulty, all, order, next + 1, sel, avail, found, false);
    let ghost found1 = views(found@);
    avail.insert(v);
    sel.insert(v);
    let ghost sel1 = sel@;
    proof {
        assert(avail@ =~= avail0) by {
            assert(next <= next < ord.len() && ord[next as int] == v);
        }
        assert(is_available(ord, next + 1, sel1, avail@)) by {
            assert forall|w: usize|
                avail@.contains(w) <==> (sel1.contains(w) || exists|j: int|
                    next + 1 <= j < ord.len() && #[trigger] ord[j] == w) by {
                if avail0.contains(w) && !sel0.contains(w) {
                    let j = choose|j: int| next <= j < ord.len() && #[trigger] ord[j] == w;
                    if w != v {
                        assert(next + 1 <= j < ord.len() && ord[j] == w);
                    }
                }
                if exists|j: int| next + 1 <= j < ord.len() && #[trigger] ord[j] == w {
                    let j = choose|j: int| next + 1 <= j < ord.len() && #[trigger] ord[j] == w;
                    assert(next <= j < ord.len() && ord[j] == w);
                }
            }
        }
        assert(selected_before(ord, next + 1, sel1)) by {
            assert forall|w: usize| sel1.contains(w) implies exists|j: int|
                0 <= j < next + 1 && #[trigger] ord[j] == w by {
                if w == v {
                    assert(0 <= next < next + 1 && ord[next as int] == w);
                } else {
                    let j = choose|j: int| 0 <= j < next && #[trigger] ord[j] == w;
                    assert(0 <= j < next + 1 && ord[j] == w);
                }
            }
        }
        assert forall|t: Set<usize>|
            is_minimal(family, net, faulty@, t) && #[trigger] precedes(
                ord,
                next + 1,
                sel1,
                t,
            ) implies found1.contains(t) by {
            let j = choose|j: int|
                0 <= j < next + 1 && sel1.contains(#[trigger] ord[j]) && !t.contains(ord[j])
                    && forall|i: int|
                    0 <= i < j ==> t.contains(#[trigger] ord[i]) == sel1.contains(ord[i]);
            assert forall|i: int| 0 <= i < next implies sel1.contains(#[trigger] ord[i])
                == sel0.contains(ord[i]) by {
                assert(ord[i] != ord[next as int]);
            }
            if j < next {
                assert(0 <= j < next && sel0.contains(ord[j]) && !t.contains(ord[j]) && forall|
                    i: int,
                |
                    0 <= i < j ==> t.contains(#[trigger] ord[i]) == sel0.contains(ord[i]));
                assert(precedes(ord, next as int, sel0, t));
                assert(found0.contains(t));
            } else {
                assert(in_subtree(ord, next + 1, sel0, t)) by {
                    assert forall|i: int| 0 <= i < next + 1 implies t.contains(#[trigger] ord[i])
                        == sel0.contains(ord[i]) by {
                        if i < next {
                            assert(t.contains(ord[i]) == sel1.contains(ord[i]));
                        }
                    }
                }
            }
        }
    }
    search(family, fbas, faulty, all, order, next + 1, sel, avail, found, true);
    sel.remove(v);
    proof {
        let found2 = views(found@);
        assert(sel@ =~= sel0);
        assert forall|t: Set<usize>|
            is_minimal(family, net, faulty@, t) && #[trigger] in_subtree(
                ord,
                next as int,
                sel0,
                t,
            ) implies found2.contains(t) by {
            if t.contains(v) {
                assert(in_subtree(ord, next + 1, sel1, t)) by {
                    assert forall|i: int| 0 <= i < next + 1 implies t.contains(#[trigger] ord[i])
                        == sel1.contains(ord[i]) by {
                        if i < next {
                            assert(ord[i] != ord[next as int]);
                            assert(t.contains(ord[i]) == sel0.contains(ord[i]));
                        }
                    }
                }
            } else {
                assert(in_subtree(ord, next + 1, sel0, t)) by {
                    assert forall|i: int| 0 <= i < next + 1 implies t.contains(#[trigger] ord[i])
                        == sel0.contains(ord[i]) by {
                        if i < next {
                            assert(t.contains(ord[i]) == sel0.contains(ord[i]));
                        }
                    }
                }
                assert(found1.contains(t));
            }
        }
    }
}

/// Looks, from place `next` of `order` on, for a quorum beside `faulty`
/// that has of the nodes before `next` those of `sel` and leaves room for a
/// second quorum beside `faulty` without a node of the first.
pub fn search_disjoint_quorums(
    fbas: &Fbas,
    faulty: &NodeIdSet,
    all: &NodeIdSet,
    order: &Vec<NodeId>,
    next: usize,
    sel: &mut NodeIdSet,
    avail: &mut NodeIdSet,
) -> (pair: Option<(NodeIdSet, NodeIdSet)>)
    requires
        all@ == all_nodes(fbas@),
        next <= order@.len(),
        is_order(fbas@, order@),
        selected_before(order@, next as int, old(sel)@),
        is_available(order@, next as int, old(sel)@, old(avail)@),
    ensures
        final(sel)@ == old(sel)@,
        final(avail)@ == old(avail)@,
        match pair {
            Some((a, b)) => is_quorum_beside(fbas@, faulty@, a@) && is_quorum_beside(
                fbas@,
                faulty@,
                b@,
            ) && a@.disjoint(b@),
            None => forall|t: Set<usize>, q: Set<usize>|
                #[trigger] in_subtree(order@, next as int, old(sel)@, t) && is_quorum_beside(
                    fbas@,
                    faulty@,
                    t,
                ) && #[trigger] is_quorum_beside(fbas@, faulty@, q) ==> !q.disjoint(t),
        },
    decreases 0nat, 2nat, order@.len() - next,
{
    let ghost net = fbas@;
    let ghost ord = order@;
    let ghost sel0 = sel@;
    let ghost avail0 = avail@;
    proof {
        assert forall|t: Set<usize>| in_subtree(ord, next as int, sel0, t) implies sel0.subset_of(
            t,
        ) by {
            assert forall|v: usize| sel0.contains(v) implies t.contains(v) by {
                let j = choose|j: int| 0 <= j < next && ord[j] == v;
                assert(t.contains(ord[j]) == sel0.contains(ord[j]));
            }
        }
    }
    if is_quorum_beside_faulty(fbas, faulty, sel) {
        let mut rest = all.clone();
        rest.difference_with(sel);
        let g = greatest_quorum_beside(fbas, faulty, &rest);
        if g.is_empty() {
            proof {
                assert forall|t: Set<usize>, q: Set<usize>|
                    #[trigger] in_subtree(ord, next as int, sel0, t) && is_quorum_beside(
                        net,
                        faulty@,
                        t,
                    ) && #[trigger] is_quorum_beside(net, faulty@, q) implies !q.disjoint(t) by {
                    if q.disjoint(t) {
                        assert(q.subset_of(rest@));
                        assert(q.subset_of(g@));
                        assert(q =~= Set::empty());
                    }
                }
            }
            return None;
        }
        proof {
            g.lemma_finite();
            if g@.len() == 0 {
                g@.lemma_len0_is_empty();
            }
        }
        return Some((sel.clone(), g));
    }
    if next == order.len() {
        proof {
            assert forall|t: Set<usize>| in_subtree(ord, next as int, sel0, t) implies t
                == sel0 by {
                assert(t =~= sel0) by {
                    assert forall|v: usize| t.contains(v) implies sel0.contains(v) by {
                        assert(ord.to_set().contains(v));
                        let j = choose|j: int| 0 <= j < ord.len() && ord[j] == v;
                        assert(t.contains(ord[j]) == sel0.contains(ord[j]));
                    }
                }
            }
        }
        return None;
    }
    if !may_extend(Family::Quorums, fbas, faulty, all, sel, avail) {
        proof {
            assert forall|t: Set<usize>| in_subtree(
                ord,
                next as int,
                sel0,
                t,
            ) implies !is_quorum_beside(net, faulty@, t) by {
                assert(sel0.subset_of(t));
                assert(t.subset_of(avail0)) by {
                    assert forall|v: usize| t.contains(v) implies avail0.contains(v) by {
                        assert(ord.to_set().contains(v));
                        let j = choose|j: int| 0 <= j < ord.len() && ord[j] == v;
                        if j < next {
                            assert(t.contains(ord[j]) == sel0.contains(ord[j]));
                        }
                    }
                }
            }
        }
        return None;
    }
    let v = order[next];
    proof {
        if sel0.contains(v) {
            let j = choose|j: int| 0 <= j < next && ord[j] == v;
            assert(ord[j] == ord[next as int]);
        }
    }
    sel.insert(v);
    let ghost sel1 = sel@;
    proof {
        assert(is_available(ord, next + 1, sel1, avail@)) by {
            assert(avail0.contains(v)) by {
                assert(next <= next < ord.len() && ord[next as int] == v);
            }
            assert forall|w: usize|
                avail@.contains(w) <==> (sel1.contains(w) || exists|j: int|
                    next + 1 <= j < ord.len() && #[trigger] ord[j] == w) by {
                if avail0.contains(w) && !sel0.contains(w) {
                    let j = choose|j: int| next <= j < ord.len() && #[trigger] ord[j] == w;
                    if w != v {
                        assert(next + 1 <= j < ord.len() && ord[j] == w);
                    }
                }
                if exists|j: int| next + 1 <= j < ord.len() && #[trigger] ord[j] == w {
                    let j = choose|j: int| next + 1 <= j < ord.len() && #[trigger] ord[j] == w;
                    assert(next <= j < ord.len() && ord[j] == w);
                }
            }
        }
        assert(selected_before(ord, next + 1, sel1)) by {
            assert forall|w: usize| sel1.contains(w) implies exists|j: int|
                0 <= j < next + 1 && #[trigger] ord[j] == w by {
                if w == v {
                    assert(0 <= next < next + 1 && ord[next as int] == w);
                } else {
                    let j = choose|j: int| 0 <= j < next && #[trigger] ord[j] == w;
                    assert(0 <= j < next + 1 && ord[j] == w);
                }
            }
        }
    }
    let with = search_disjoint_quorums(fbas, faulty, all, order, next + 1, sel, avail);
    sel.remove(v);
    assert(sel@ =~= sel0);
    if with.is_some() {
        return with;
    }
    avail.remove(v);
    proof {
        assert(is_available(ord, next + 1, sel0, avail@)) by {
            assert forall|w: usize|
                avail@.contains(w) <==> (sel0.contains(w) || exists|j: int|
                    next + 1 <= j < ord.len() && #[trigger] ord[j] == w) by {
                if avail0.contains(w) && !sel0.contains(w) {
                    let j = choose|j: int| next <= j < ord.len() && #[trigger] ord[j] == w;
                    if w != v {
                        assert(next + 1 <= j < ord.len() && ord[j] == w);
                    }
                }
                if exists|j: int| next + 1 <= j < ord.len() && #[trigger] ord[j] == w {
                    let j = choose|j: int| next + 1 <= j < ord.len() && #[trigger] ord[j] == w;
                    assert(next <= j < ord.len() && ord[j] == w);
                    assert(ord[j] != ord[next as int]);
                }
            }
        }
        assert(selected_before(ord, next + 1, sel0)) by {
            assert forall|w: usize| sel0.contains(w) implies exists|j: int|
                0 <= j < next + 1 && #[trigger] ord[j] == w by {
                let j = choose|j: int| 0 <= j < next && #[trigger] ord[j] == w;
                assert(0 <= j < next + 1 && ord[j] == w);
            }
        }
    }
    let without = search_disjoint_quorums(fbas, faulty, all, order, next + 1, sel, avail);
    avail.insert(v);
    proof {
        assert(avail@ =~= avail0) by {
            assert(next <= next < ord.len() && ord[next as int] == v);
        }
        if without.is_none() {
            assert forall|t: Set<usize>, q: Set<usize>|
                #[trigger] in_subtree(ord, next as int, sel0, t) && is_quorum_beside(
                    net,
                    faulty@,
                    t,
                ) && #[trigger] is_quorum_beside(net, faulty@, q) implies !q.disjoint(t) by {
                if t.contains(v) {
                    assert(in_subtree(ord, next + 1, sel1, t)) by {
                        assert forall|i: int| 0 <= i < next + 1 implies t.contains(
                            #[trigger] ord[i],
                        ) == sel1.contains(ord[i]) by {
                            if i < next {
                                assert(ord[i] != ord[next as int]);
                                assert(t.contains(ord[i]) == sel0.contains(ord[i]));
                            }
                        }
                    }
                } else {
                    assert(in_subtree(ord, next + 1, sel0, t)) by {
                        assert forall|i: int| 0 <= i < next + 1 implies t.contains(
                            #[trigger] ord[i],
                        ) == sel0.contains(ord[i]) by {
                            if i < next {
                                assert(t.contains(ord[i]) == sel0.contains(ord[i]));
                            }
                        }
                    }
                }
            }
        }
    }
    without
}

} // verus!
