//! Ordering nodes by a score, highest first.

use crate::node_set::{NodeId, NodeIdSet};
use crate::analysis::symmetric_clusters::times;
use crate::node_set::ascending;
use crate::types::{Fbas, NodeModel, QuorumSet, QuorumSetModel};
use vstd::prelude::*;

verus! {

/// `sorted` with `v` put behind every node whose score is not lower.
pub open spec fn insert_by_score(sorted: Seq<usize>, scores: Seq<u64>, v: usize) -> Seq<usize>
    decreases sorted.len(),
{
    if sorted.len() == 0 {
        seq![v]
    } else if scores[sorted.last() as int] >= scores[v as int] {
        sorted.push(v)
    } else {
        insert_by_score(sorted.drop_last(), scores, v).push(sorted.last())
    }
}

/// The first `n` of `nodes`, highest score first; nodes of equal score keep
/// their order.
pub open spec fn sorted_by_score(nodes: Seq<usize>, scores: Seq<u64>, n: int) -> Seq<usize>
    decreases n,
{
    if n <= 0 || n > nodes.len() {
        Seq::empty()
    } else {
        insert_by_score(sorted_by_score(nodes, scores, n - 1), scores, nodes[n - 1])
    }
}

/// Whether the scores of `s` never rise.
pub open spec fn is_descending(s: Seq<usize>, scores: Seq<u64>) -> bool {
    forall|i: int, j: int| 0 <= i < j < s.len() ==> scores[s[i] as int] >= scores[s[j] as int]
}

/// Inserting keeps the order of scores and adds exactly the new node.
pub proof fn lemma_insert_by_score(sorted: Seq<usize>, scores: Seq<u64>, v: usize)
    requires
        is_descending(sorted, scores),
    ensures
        is_descending(insert_by_score(sorted, scores, v), scores),
        insert_by_score(sorted, scores, v).to_multiset() == sorted.to_multiset().insert(v),
        insert_by_score(sorted, scores, v).len() == sorted.len() + 1,
    decreases sorted.len(),
{
    broadcast use vstd::seq_lib::group_to_multiset_ensures;

    let out = insert_by_score(sorted, scores, v);
    if sorted.len() == 0 {
        assert(sorted =~= Seq::empty());
        assert(out =~= Seq::<usize>::empty().push(v));
    } else if scores[sorted.last() as int] >= scores[v as int] {
        assert forall|i: int, j: int| 0 <= i < j < out.len() implies scores[out[i] as int]
            >= scores[out[j] as int] by {
            if j == sorted.len() {
                assert(scores[sorted[i] as int] >= scores[sorted.last() as int] || i
                    == sorted.len() - 1);
            }
        }
    } else {
        let front = sorted.drop_last();
        lemma_insert_by_score(front, scores, v);
        let mid = insert_by_score(front, scores, v);
        assert(sorted =~= front.push(sorted.last()));
        assert forall|i: int, j: int| 0 <= i < j < out.len() implies scores[out[i] as int]
            >= scores[out[j] as int] by {
            if j == out.len() - 1 {
                // every element of `mid` is `v` or an element of `front`
                assert(mid.to_multiset().count(mid[i]) > 0);
                if mid[i] != v {
                    assert(front.to_multiset().count(mid[i]) > 0);
                    assert(front.contains(mid[i]));
                    let k = choose|k: int| 0 <= k < front.len() && front[k] == mid[i];
                    assert(sorted[k] == mid[i]);
                }
            }
        }
    }
}

/// Sorting by score gives the same nodes, with scores that never rise.
pub proof fn lemma_sorted_by_score(nodes: Seq<usize>, scores: Seq<u64>, n: int)
    requires
        0 <= n <= nodes.len(),
    ensures
        is_descending(sorted_by_score(nodes, scores, n), scores),
        sorted_by_score(nodes, scores, n).to_multiset() == nodes.take(n).to_multiset(),
        sorted_by_score(nodes, scores, n).len() == n,
    decreases n,
{
    broadcast use vstd::seq_lib::group_to_multiset_ensures;

    if n > 0 {
        lemma_sorted_by_score(nodes, scores, n - 1);
        lemma_insert_by_score(sorted_by_score(nodes, scores, n - 1), scores, nodes[n - 1]);
        assert(nodes.take(n) =~= nodes.take(n - 1).push(nodes[n - 1]));
    } else {
        assert(nodes.take(n) =~= Seq::empty());
    }
}

/// Sorts `nodes` by the score that `scores` holds for each, highest first;
/// nodes of equal score keep their order.
pub fn sort_by_rank(nodes: Vec<NodeId>, scores: &Vec<u64>) -> (sorted: Vec<NodeId>)
    requires
        forall|i: int| 0 <= i < nodes@.len() ==> nodes@[i] < scores@.len(),
    ensures
        sorted@ == sorted_by_score(nodes@, scores@, nodes@.len() as int),
        is_descending(sorted@, scores@),
        sorted@.to_multiset() == nodes@.to_multiset(),
{
    let mut sorted: Vec<NodeId> = Vec::new();
    let mut i: usize = 0;
    while i < nodes.len()
        invariant
            i <= nodes.len(),
            forall|k: int| 0 <= k < nodes@.len() ==> nodes@[k] < scores@.len(),
            sorted@ == sorted_by_score(nodes@, scores@, i as int),
            forall|k: int| 0 <= k < sorted@.len() ==> sorted@[k] < scores@.len(),
        decreases nodes.len() - i,
    {
        let v = nodes[i];
        let ghost before = sorted@;
        let mut p: usize = sorted.len();
        assert(before.take(p as int) =~= before);
        assert(before.skip(p as int) =~= Seq::empty());
        while p > 0 && scores[sorted[p - 1]] < scores[v]
            invariant
                p <= sorted.len(),
                sorted@ == before,
                v < scores@.len(),
                forall|k: int| 0 <= k < sorted@.len() ==> sorted@[k] < scores@.len(),
                insert_by_score(before, scores@, v) == insert_by_score(
                    before.take(p as int),
                    scores@,
                    v,
                ) + before.skip(p as int),
            decreases p,
        {
            let ghost front = before.take(p as int);
            assert(front.last() == before[p - 1]);
            assert(front.drop_last() =~= before.take(p - 1));
            assert(insert_by_score(front, scores@, v) == insert_by_score(
                before.take(p - 1),
                scores@,
                v,
            ).push(before[p - 1]));
            assert(insert_by_score(before.take(p - 1), scores@, v).push(before[p - 1])
                + before.skip(p as int) =~= insert_by_score(before.take(p - 1), scores@, v)
                + before.skip(p - 1));
            p = p - 1;
        }
        proof {
            let front = before.take(p as int);
            if p > 0 {
                assert(front.last() == before[p - 1]);
            }
            assert(insert_by_score(front, scores@, v) =~= front.push(v));
            assert(front.push(v) + before.skip(p as int) =~= before.insert(p as int, v));
        }
        sorted.insert(p, v);
        i = i + 1;
    }
    proof {
        lemma_sorted_by_score(nodes@, scores@, nodes@.len() as int);
        assert(nodes@.take(nodes@.len() as int) =~= nodes@);
    }
    sorted
}

/// How often the first `n` inner quorum sets of `q` name `v`, at any depth.
pub open spec fn inner_namings(q: QuorumSetModel, v: usize, n: int) -> nat
    decreases q, n,
{
    if n <= 0 || n > q.inner.len() {
        0
    } else {
        inner_namings(q, v, n - 1) + namings(q.inner[n - 1], v)
    }
}

/// How often the quorum set names `v` as a validator, at any depth.
pub open spec fn namings(q: QuorumSetModel, v: usize) -> nat
    decreases q, q.inner.len() + 1,
{
    times(q.validators, v, q.validators.len() as int) + inner_namings(q, v, q.inner.len() as int)
}

/// How often the quorum sets of the first `n` nodes name `v`.
pub open spec fn total_namings(net: Seq<NodeModel>, v: usize, n: int) -> nat
    decreases n,
{
    if n <= 0 || n > net.len() {
        0
    } else {
        total_namings(net, v, n - 1) + namings(net[n - 1].quorum_set, v)
    }
}

/// The count `c` raised by `k`, but not beyond the greatest count.
pub open spec fn raised(c: u64, k: nat) -> u64 {
    if c + k > u64::MAX {
        u64::MAX
    } else {
        (c + k) as u64
    }
}

/// Raises the count of each node by the number of times that `quorum_set`
/// names it, at any depth. Names beyond the counts are passed over.
pub fn count_trust(quorum_set: &QuorumSet, counts: &mut Vec<u64>)
    ensures
        final(counts)@.len() == old(counts)@.len(),
        forall|v: usize|
            v < old(counts)@.len() ==> (#[trigger] final(counts)@[v as int]) == raised(
                old(counts)@[v as int],
                namings(quorum_set@, v),
            ),
    decreases quorum_set,
{
    let ghost q = quorum_set@;
    let mut i: usize = 0;
    while i < quorum_set.validators.len()
        invariant
            i <= quorum_set.validators.len(),
            counts@.len() == old(counts)@.len(),
            q == quorum_set@,
            forall|v: usize|
                v < counts@.len() ==> (#[trigger] counts@[v as int]) == raised(
                    old(counts)@[v as int],
                    times(q.validators, v, i as int),
                ),
        decreases quorum_set.validators.len() - i,
    {
        let w = quorum_set.validators[i];
        if w < counts.len() && counts[w] < u64::MAX {
            let c = counts[w];
            counts.set(w, c + 1);
        }
        i = i + 1;
    }
    proof {
        crate::types::lemma_models_of(quorum_set.inner_quorum_sets@);
    }
    let mut k: usize = 0;
    while k < quorum_set.inner_quorum_sets.len()
        invariant
            k <= quorum_set.inner_quorum_sets.len(),
            counts@.len() == old(counts)@.len(),
            q == quorum_set@,
            q.inner.len() == quorum_set.inner_quorum_sets@.len(),
            forall|j: int|
                0 <= j < quorum_set.inner_quorum_sets@.len() ==> (#[trigger] q.inner[j])
                    == quorum_set.inner_quorum_sets@[j]@,
            forall|v: usize|
                v < counts@.len() ==> (#[trigger] counts@[v as int]) == raised(
                    old(counts)@[v as int],
                    times(q.validators, v, q.validators.len() as int) + inner_namings(
                        q,
                        v,
                        k as int,
                    ),
                ),
        decreases quorum_set.inner_quorum_sets.len() - k,
    {
        count_trust(&quorum_set.inner_quorum_sets[k], counts);
        k = k + 1;
    }
}

/// For each node, how often the quorum sets of the system name it, at any
/// depth; a count stops at the greatest number that it can hold. The count
/// serves as a score that puts much-trusted nodes first.
pub fn trust_counts(fbas: &Fbas) -> (counts: Vec<u64>)
    ensures
        counts@.len() == fbas@.len(),
        forall|v: usize|
            v < fbas@.len() ==> (#[trigger] counts@[v as int]) == raised(
                0,
                total_namings(fbas@, v, fbas@.len() as int),
            ),
{
    let mut counts: Vec<u64> = Vec::new();
    let mut v: usize = 0;
    while v < fbas.nodes.len()
        invariant
            v <= fbas.nodes.len(),
            counts@.len() == v,
            forall|w: int| 0 <= w < v ==> (#[trigger] counts@[w]) == 0,
        decreases fbas.nodes.len() - v,
    {
        counts.push(0);
        v = v + 1;
    }
    let mut i: usize = 0;
    while i < fbas.nodes.len()
        invariant
            i <= fbas.nodes.len(),
            counts@.len() == fbas.nodes@.len(),
            forall|w: usize|
                w < counts@.len() ==> (#[trigger] counts@[w as int]) == raised(
                    0,
                    total_namings(fbas@, w, i as int),
                ),
        decreases fbas.nodes.len() - i,
    {
        assert(fbas@[i as int] == fbas.nodes@[i as int]@);
        count_trust(&fbas.nodes[i].quorum_set, &mut counts);
        i = i + 1;
    }
    counts
}

/// The scores by which the search orders the nodes: the trust counts.
pub open spec fn trust_scores(net: Seq<NodeModel>) -> Seq<u64> {
    Seq::new(net.len(), |v: int| raised(0, total_namings(net, v as usize, net.len() as int)))
}

/// The nodes of `candidates`, the most trusted first.
pub fn ranked_order(fbas: &Fbas, candidates: &NodeIdSet) -> (order: Vec<NodeId>)
    requires
        forall|v: usize| candidates@.contains(v) ==> v < fbas@.len(),
    ensures
        order@ == sorted_by_score(
            ascending(candidates@),
            trust_scores(fbas@),
            ascending(candidates@).len() as int,
        ),
        order@.no_duplicates(),
        order@.to_set() == candidates@,
{
    broadcast use vstd::seq_lib::group_to_multiset_ensures;

    let nodes = candidates.members();
    let scores = trust_counts(fbas);
    assert(scores@ =~= trust_scores(fbas@)) by {
        assert forall|i: int| 0 <= i < scores@.len() implies scores@[i] == trust_scores(
            fbas@,
        )[i] by {
            let v = i as usize;
            assert(scores@[v as int] == raised(0, total_namings(fbas@, v, fbas@.len() as int)));
        }
    }
    proof {
        assert forall|i: int| 0 <= i < nodes@.len() implies nodes@[i] < scores@.len() by {
            assert(nodes@.contains(nodes@[i]));
            assert(nodes@.to_set().contains(nodes@[i]));
            assert(candidates@.contains(nodes@[i]));
        }
        assert(nodes@.no_duplicates());
        nodes@.lemma_multiset_has_no_duplicates();
    }
    let ghost before = nodes@;
    let order = sort_by_rank(nodes, &scores);
    proof {
        order@.lemma_multiset_has_no_duplicates_conv();
        assert(order@.to_set() =~= candidates@) by {
            assert forall|v: usize| order@.contains(v) == before.contains(v) by {
                assert(order@.to_multiset().count(v) == before.to_multiset().count(v));
            }
        }
    }
    order
}

} // verus!
