//! The minimal splitting sets of a system.

use crate::analysis::minimal_quorums::{
    find_minimal_members, has_disjoint_quorums, has_quorum_intersection,
};
use crate::analysis::minimal_sets::{is_splitting_set, node_range, Family};
use crate::analysis::quorums::{is_quorum_beside, lemma_quorum_beside_nothing};
use crate::analysis::sets::{is_antichain, is_canonical, lemma_canonical_distinct, views};
use crate::node_set::NodeIdSet;
use crate::types::{is_named, is_quorum, Fbas, NodeModel, QuorumSetModel};
use vstd::prelude::*;

verus! {

/// Whether `s` is a minimal splitting set: a splitting set no proper subset
/// of which is a splitting set.
pub open spec fn is_minimal_splitting_set(net: Seq<NodeModel>, s: Set<usize>) -> bool {
    &&& is_splitting_set(net, s)
    &&& forall|t: Set<usize>| t.subset_of(s) && t != s ==> !is_splitting_set(net, t)
}

/// Whether some quorum set of the system names `v` as a validator.
pub open spec fn is_named_by_some(net: Seq<NodeModel>, v: usize) -> bool {
    exists|i: int| 0 <= i < net.len() && is_named((#[trigger] net[i]).quorum_set, v)
}

/// A node that a quorum set does not name has no bearing on its counts of
/// good children.
pub proof fn lemma_unnamed_counts(q: QuorumSetModel, e: Set<usize>, s: usize)
    requires
        !is_named(q, s),
    ensures
        q.good_children(e.remove(s)) == q.good_children(e),
    decreases q, 1int, 0int,
{
    lemma_unnamed_validators(q, e, s, q.validators.len() as int);
    lemma_unnamed_inner(q, e, s, q.inner.len() as int);
}

/// A node that is no validator has no bearing on the good validators.
pub proof fn lemma_unnamed_validators(q: QuorumSetModel, e: Set<usize>, s: usize, n: int)
    requires
        !q.validators.contains(s),
    ensures
        q.good_validators(e.remove(s), n) == q.good_validators(e, n),
    decreases n,
{
    if 0 < n <= q.validators.len() {
        lemma_unnamed_validators(q, e, s, n - 1);
        assert(q.validators.contains(q.validators[n - 1]));
    }
}

/// A node that no inner quorum set names has no bearing on the good inner
/// quorum sets.
pub proof fn lemma_unnamed_inner(q: QuorumSetModel, e: Set<usize>, s: usize, n: int)
    requires
        !is_named(q, s),
    ensures
        q.good_inner(e.remove(s), n) == q.good_inner(e, n),
    decreases q, 0int, n,
{
    if 0 < n <= q.inner.len() {
        lemma_unnamed_inner(q, e, s, n - 1);
        assert(!is_named(q.inner[n - 1], s));
        lemma_unnamed_satisfied(q.inner[n - 1], e, s);
    }
}

/// A node that a quorum set does not name has no bearing on whether a set
/// satisfies it.
pub proof fn lemma_unnamed_satisfied(q: QuorumSetModel, e: Set<usize>, s: usize)
    requires
        !is_named(q, s),
    ensures
        q.is_satisfied_by(e.remove(s)) == q.is_satisfied_by(e),
    decreases q, 2int, 0int,
{
    lemma_unnamed_counts(q, e, s);
}

/// Every node of a minimal splitting set is named by a quorum set of the
/// system: a node that nobody names can be left out of a splitting set.
pub proof fn lemma_minimal_splitting_set_is_named(net: Seq<NodeModel>, s: Set<usize>, v: usize)
    requires
        is_minimal_splitting_set(net, s),
        s.contains(v),
    ensures
        is_named_by_some(net, v),
{
    if !is_named_by_some(net, v) {
        let rest = s.remove(v);
        let (a, b) = choose|a: Set<usize>, b: Set<usize>|
            is_quorum_beside(net, s, a) && is_quorum_beside(net, s, b) && a.disjoint(b);
        assert(a.union(rest) =~= a.union(s).remove(v));
        assert(b.union(rest) =~= b.union(s).remove(v));
        assert forall|w: usize| a.contains(w) implies net[w as int].quorum_set.is_satisfied_by(
            a.union(rest),
        ) by {
            assert(!is_named(net[w as int].quorum_set, v));
            lemma_unnamed_satisfied(net[w as int].quorum_set, a.union(s), v);
        }
        assert forall|w: usize| b.contains(w) implies net[w as int].quorum_set.is_satisfied_by(
            b.union(rest),
        ) by {
            assert(!is_named(net[w as int].quorum_set, v));
            lemma_unnamed_satisfied(net[w as int].quorum_set, b.union(s), v);
        }
        assert(is_quorum_beside(net, rest, a) && is_quorum_beside(net, rest, b) && a.disjoint(b));
        assert(is_splitting_set(net, rest));
        assert(rest.subset_of(s) && rest != s);
    }
}

/// The nodes that some quorum set of the system names as a validator.
pub fn named_nodes(fbas: &Fbas) -> (nodes: NodeIdSet)
    ensures
        forall|v: usize| nodes@.contains(v) == (v < fbas@.len() && is_named_by_some(fbas@, v)),
{
    let mut nodes = NodeIdSet::new();
    let mut i: usize = 0;
    while i < fbas.nodes.len()
        invariant
            i <= fbas.nodes.len(),
            forall|v: usize|
                nodes@.contains(v) == exists|k: int|
                    0 <= k < i && is_named((#[trigger] fbas@[k]).quorum_set, v),
        decreases fbas.nodes.len() - i,
    {
        assert(fbas@[i as int] == fbas.nodes@[i as int]@);
        let named = fbas.nodes[i].quorum_set.contained_nodes();
        let ghost before = nodes@;
        nodes.union_with(&named);
        proof {
            assert forall|v: usize|
                nodes@.contains(v) == exists|k: int|
                    0 <= k < i + 1 && is_named((#[trigger] fbas@[k]).quorum_set, v) by {
                if before.contains(v) {
                    let k = choose|k: int|
                        0 <= k < i && is_named((#[trigger] fbas@[k]).quorum_set, v);
                    assert(0 <= k < i + 1 && is_named(fbas@[k].quorum_set, v));
                }
                if named@.contains(v) {
                    assert(0 <= i < i + 1 && is_named(fbas@[i as int].quorum_set, v));
                }
                if exists|k: int| 0 <= k < i + 1 && is_named((#[trigger] fbas@[k]).quorum_set, v) {
                    let k = choose|k: int|
                        0 <= k < i + 1 && is_named((#[trigger] fbas@[k]).quorum_set, v);
                    if k < i {
                        assert(before.contains(v));
                    }
                }
            }
        }
        i = i + 1;
    }
    let all = node_range(fbas.nodes.len());
    nodes.intersect_with(&all);
    nodes
}

/// The minimal splitting sets of the system, in canonical order. Where two
/// quorums share no node, the empty set is the one minimal splitting set;
/// where no set of nodes splits the system, there is none.
pub fn find_minimal_splitting_sets(fbas: &Fbas) -> (sets: Vec<NodeIdSet>)
    ensures
        is_canonical(views(sets@)),
        is_antichain(views(sets@)),
        forall|i: int|
            0 <= i < sets@.len() ==> is_minimal_splitting_set(fbas@, #[trigger] views(sets@)[i]),
        forall|s: Set<usize>| is_minimal_splitting_set(fbas@, s) ==> views(sets@).contains(s),
{
    let candidates = named_nodes(fbas);
    proof {
        assert forall|t: Set<usize>|
            crate::analysis::minimal_sets::is_minimal(
                Family::SplittingSets,
                fbas@,
                Set::empty(),
                t,
            ) implies t.subset_of(candidates@) by {
            assert forall|v: usize| t.contains(v) implies candidates@.contains(v) by {
                lemma_minimal_splitting_set_is_named(fbas@, t, v);
            }
        }
    }
    find_minimal_members(Family::SplittingSets, fbas, &candidates)
}

/// The empty set is a splitting set exactly where two quorums share no
/// node.
pub proof fn lemma_empty_set_splits(net: Seq<NodeModel>)
    ensures
        is_splitting_set(net, Set::empty()) == has_disjoint_quorums(net),
{
    let nothing = Set::<usize>::empty();
    if is_splitting_set(net, nothing) {
        let (a, b) = choose|a: Set<usize>, b: Set<usize>|
            is_quorum_beside(net, nothing, a) && is_quorum_beside(net, nothing, b) && a.disjoint(
                b,
            );
        lemma_quorum_beside_nothing(net, a);
        lemma_quorum_beside_nothing(net, b);
    }
    if has_disjoint_quorums(net) {
        let (a, b) = choose|a: Set<usize>, b: Set<usize>|
            is_quorum(net, a) && is_quorum(net, b) && a.disjoint(b);
        lemma_quorum_beside_nothing(net, a);
        lemma_quorum_beside_nothing(net, b);
        assert(is_quorum_beside(net, nothing, a) && is_quorum_beside(net, nothing, b)
            && a.disjoint(b));
    }
}

/// The minimal splitting sets are the empty set and nothing else if and
/// only if the system lacks quorum intersection: if and only if two of its
/// quorums share no node.
pub proof fn lemma_splitting_sets_of_split_system(net: Seq<NodeModel>, sets: Seq<Set<usize>>)
    requires
        is_canonical(sets),
        forall|i: int| 0 <= i < sets.len() ==> is_minimal_splitting_set(net, #[trigger] sets[i]),
        forall|s: Set<usize>| is_minimal_splitting_set(net, s) ==> sets.contains(s),
    ensures
        (sets == seq![Set::<usize>::empty()]) <==> !has_quorum_intersection(net),
{
    let nothing = Set::<usize>::empty();
    lemma_empty_set_splits(net);
    if has_disjoint_quorums(net) {
        assert(is_minimal_splitting_set(net, nothing)) by {
            assert forall|t: Set<usize>| t.subset_of(nothing) && t != nothing implies
                !is_splitting_set(net, t) by {
                assert(t =~= nothing);
            }
        }
        assert(sets.contains(nothing));
        assert forall|i: int| 0 <= i < sets.len() implies #[trigger] sets[i] == nothing by {
            assert(is_minimal_splitting_set(net, sets[i]));
            assert(nothing.subset_of(sets[i]));
        }
        lemma_canonical_distinct(sets);
        if sets.len() > 1 {
            assert(sets[0] == nothing);
            assert(sets[1] == nothing);
        }
        assert(sets =~= seq![nothing]);
    }
    if sets == seq![nothing] {
        assert(sets[0] == nothing);
        assert(is_minimal_splitting_set(net, sets[0]));
    }
}

} // verus!
