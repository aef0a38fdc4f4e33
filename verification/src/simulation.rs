//! Configuring quorum sets from a graph of links between nodes, as used to
//! make up systems for experiments.

use crate::node_set::NodeId;
use crate::rank::sort_by_rank;
use crate::types::{Fbas, Node, NodeModel, QuorumSet, QuorumSetModel};
use vstd::prelude::*;

verus! {

/// A directed graph: for each node the nodes that it links to.
#[derive(Debug, PartialEq, Eq)]
pub struct Graph {
    pub outlinks: Vec<Vec<NodeId>>,
}

/// Whether a configurator changed the quorum set of a node.
#[derive(Clone, Copy, Debug, PartialEq, Eq)]
pub enum ChangeEffect {
    Change,
    NoChange,
}

/// The links of a graph, as sequences.
pub open spec fn links(outlinks: Seq<Vec<NodeId>>) -> Seq<Seq<usize>> {
    outlinks.map_values(|l: Vec<NodeId>| l@)
}

/// Whether every link leads to a node of the graph.
pub open spec fn links_within(g: Seq<Seq<usize>>) -> bool {
    forall|u: int, k: int| 0 <= u < g.len() && 0 <= k < g[u].len() ==> (#[trigger] g[u][k]) < g.len()
}

/// The numbers `from .. to` in ascending order.
pub open spec fn range(from: int, to: int) -> Seq<usize> {
    Seq::new(
        (if to > from {
            to - from
        } else {
            0
        }) as nat,
        |i: int| (from + i) as usize,
    )
}

/// How often `v` occurs among the first `n` of `list`.
pub open spec fn occurrences(list: Seq<usize>, v: usize, n: int) -> nat
    decreases n,
{
    if n <= 0 || n > list.len() {
        0
    } else {
        occurrences(list, v, n - 1) + if list[n - 1] == v {
            1nat
        } else {
            0nat
        }
    }
}

/// How many links of the first `n` nodes lead to `v`.
pub open spec fn in_degree(g: Seq<Seq<usize>>, v: usize, n: int) -> nat
    decreases n,
{
    if n <= 0 || n > g.len() {
        0
    } else {
        in_degree(g, v, n - 1) + occurrences(g[n - 1], v, g[n - 1].len() as int)
    }
}

/// The threshold that leaves room for faults in fewer than a third of `n`
/// nodes: the least `t` with `3 t >= 2 n + 1`.
pub open spec fn threshold_67p(n: nat) -> nat {
    (2 * n + 3) / 3
}

/// The threshold that leaves room for faults in fewer than a third of `n`
/// nodes.
pub fn get_67p_threshold(n: usize) -> (t: usize)
    ensures
        t == threshold_67p(n as nat),
        3 * t >= 2 * n + 1,
        3 * (t - 1) < 2 * n + 1,
{
    if n == 0 {
        1
    } else {
        n - (n - 1) / 3
    }
}

impl Graph {
    /// Number of nodes.
    pub fn number_of_nodes(&self) -> (n: usize)
        ensures
            n == self.outlinks@.len(),
    {
        self.outlinks.len()
    }

    /// The graph of `n` nodes in which every node links to every other one.
    pub fn new_full_mesh(n: usize) -> (graph: Graph)
        ensures
            graph.outlinks@.len() == n,
            forall|v: int|
                0 <= v < n ==> (#[trigger] graph.outlinks@[v])@ == range(0, v) + range(v + 1, n as int),
    {
        let mut sizes: Vec<usize> = Vec::new();
        sizes.push(n);
        let graph = Graph::new_tiered_full_mesh(&sizes);
        proof {
            assert(tier_start(sizes@, 1) == n) by {
                reveal_with_fuel(tier_start, 2);
            }
            assert forall|v: int| 0 <= v < n implies (#[trigger] graph.outlinks@[v])@ == range(
                0,
                v,
            ) + range(v + 1, n as int) by {
                assert(tier_start(sizes@, 0) <= v < tier_start(sizes@, 1));
                assert(range(0, 0) + range(0, v) + range(v + 1, n as int) =~= range(0, v) + range(
                    v + 1,
                    n as int,
                ));
            }
        }
        graph
    }

    /// The graph of tiers of nodes, the first tier on top: every node links
    /// to the nodes of the tier above its own and to the other nodes of its
    /// own tier. Nodes are numbered tier by tier.
    pub fn new_tiered_full_mesh(tier_sizes: &Vec<usize>) -> (graph: Graph)
        requires
            tier_start(tier_sizes@, tier_sizes@.len() as int) <= usize::MAX,
        ensures
            graph.outlinks@.len() == tier_start(tier_sizes@, tier_sizes@.len() as int),
            forall|t: int, v: int|
                0 <= t < tier_sizes@.len() && tier_start(tier_sizes@, t) <= v < tier_start(
                    tier_sizes@,
                    t + 1,
                ) ==> (#[trigger] graph.outlinks@[v])@ == range(
                    tier_start(tier_sizes@, t - 1),
                    #[trigger] tier_start(tier_sizes@, t),
                ) + range(tier_start(tier_sizes@, t), v) + range(
                    v + 1,
                    tier_start(tier_sizes@, t + 1),
                ),
    {
        let ghost sizes = tier_sizes@;
        let mut outlinks: Vec<Vec<NodeId>> = Vec::new();
        let mut above: usize = 0;
        let mut start: usize = 0;
        let mut t: usize = 0;
        while t < tier_sizes.len()
            invariant
                t <= tier_sizes.len(),
                sizes == tier_sizes@,
                tier_start(sizes, sizes.len() as int) <= usize::MAX,
                start == tier_start(sizes, t as int),
                above == tier_start(sizes, t - 1),
                above <= start,
                outlinks@.len() == start,
                forall|s: int, v: int|
                    0 <= s < t && tier_start(sizes, s) <= v < tier_start(sizes, s + 1) ==> (
                    #[trigger] outlinks@[v])@ == range(
                        tier_start(sizes, s - 1),
                        #[trigger] tier_start(sizes, s),
                    ) + range(tier_start(sizes, s), v) + range(v + 1, tier_start(sizes, s + 1)),
            decreases tier_sizes.len() - t,
        {
            proof {
                lemma_tier_start_grows(sizes, t + 1, sizes.len() as int);
            }
            let end = start + tier_sizes[t];
            let mut v: usize = start;
            while v < end
                invariant
                    start <= v <= end,
                    above <= start,
                    t < sizes.len(),
                    start == tier_start(sizes, t as int),
                    end == tier_start(sizes, t + 1),
                    above == tier_start(sizes, t - 1),
                    outlinks@.len() == v,
                    forall|s: int, w: int|
                        0 <= s < t && tier_start(sizes, s) <= w < tier_start(sizes, s + 1) ==> (
                        #[trigger] outlinks@[w])@ == range(
                            tier_start(sizes, s - 1),
                            #[trigger] tier_start(sizes, s),
                        ) + range(tier_start(sizes, s), w) + range(
                            w + 1,
                            tier_start(sizes, s + 1),
                        ),
                    forall|w: int|
                        start <= w < v ==> (#[trigger] outlinks@[w])@ == range(
                            above as int,
                            start as int,
                        ) + range(start as int, w) + range(w + 1, end as int),
                decreases end - v,
            {
                let mut list: Vec<NodeId> = Vec::new();
                let mut i: usize = above;
                while i < end
                    invariant
                        above <= i <= end,
                        above <= start <= v < end,
                        list@ == (if i <= v {
                            range(above as int, i as int)
                        } else {
                            range(above as int, v as int) + range(v + 1, i as int)
                        }),
                    decreases end - i,
                {
                    if i != v {
                        list.push(i);
                    }
                    proof {
                        if i < v {
                            assert(list@ =~= range(above as int, i + 1));
                        } else if i == v {
                            assert(list@ =~= range(above as int, v as int) + range(v + 1, i + 1));
                        } else {
                            assert(list@ =~= range(above as int, v as int) + range(v + 1, i + 1));
                        }
                    }
                    i = i + 1;
                }
                assert(list@ =~= range(above as int, start as int) + range(start as int, v as int)
                    + range(v + 1, end as int));
                let ghost before = outlinks@;
                outlinks.push(list);
                proof {
                    assert forall|s: int, w: int|
                        0 <= s < t && tier_start(sizes, s) <= w < tier_start(
                            sizes,
                            s + 1,
                        ) implies (#[trigger] outlinks@[w])@ == range(
                        tier_start(sizes, s - 1),
                        #[trigger] tier_start(sizes, s),
                    ) + range(tier_start(sizes, s), w) + range(w + 1, tier_start(sizes, s + 1)) by {
                        lemma_tier_start_grows(sizes, s + 1, t as int);
                        lemma_tier_start_grows(sizes, s, s + 1);
                        assert(outlinks@[w] == before[w]);
                    }
                }
                v = v + 1;
            }
            proof {
                assert forall|s: int, w: int|
                    0 <= s < t + 1 && tier_start(sizes, s) <= w < tier_start(
                        sizes,
                        s + 1,
                    ) implies (#[trigger] outlinks@[w])@ == range(
                    tier_start(sizes, s - 1),
                    #[trigger] tier_start(sizes, s),
                ) + range(tier_start(sizes, s), w) + range(w + 1, tier_start(sizes, s + 1)) by {
                    if s == t {
                    }
                }
            }
            above = start;
            start = end;
            t = t + 1;
        }
        Graph { outlinks }
    }
}

/// The number of the first node of tier `t`: the sizes of the tiers before
/// it, summed up.
pub open spec fn tier_start(sizes: Seq<usize>, t: int) -> int
    decreases t,
{
    if t <= 0 {
        0
    } else if t > sizes.len() {
        tier_start(sizes, t - 1)
    } else {
        tier_start(sizes, t - 1) + sizes[t - 1]
    }
}

/// Later tiers start at higher numbers.
pub proof fn lemma_tier_start_grows(sizes: Seq<usize>, s: int, t: int)
    requires
        s <= t,
    ensures
        0 <= tier_start(sizes, s) <= tier_start(sizes, t),
    decreases t - s,
{
    if s < t {
        lemma_tier_start_grows(sizes, s, t - 1);
    } else {
        lemma_tier_start_not_negative(sizes, s);
    }
}

/// No tier starts below zero.
pub proof fn lemma_tier_start_not_negative(sizes: Seq<usize>, t: int)
    ensures
        0 <= tier_start(sizes, t),
    decreases t,
{
    if t > 0 {
        lemma_tier_start_not_negative(sizes, t - 1);
    }
}

/// A longer prefix of a list holds at least as many occurrences.
pub proof fn lemma_occurrences_grow(list: Seq<usize>, v: usize, m: int, n: int)
    requires
        m <= n <= list.len(),
    ensures
        occurrences(list, v, m) <= occurrences(list, v, n),
    decreases n - m,
{
    if m < n {
        lemma_occurrences_grow(list, v, m, n - 1);
    }
}

/// More nodes have at least as many links to a node.
pub proof fn lemma_in_degree_grows(g: Seq<Seq<usize>>, v: usize, m: int, n: int)
    requires
        m <= n <= g.len(),
    ensures
        in_degree(g, v, m) <= in_degree(g, v, n),
    decreases n - m,
{
    if m < n {
        lemma_in_degree_grows(g, v, m, n - 1);
    }
}

/// Two tests that agree on the members of a list pick the same members.
pub proof fn lemma_filter_agrees(
    list: Seq<usize>,
    p: spec_fn(usize) -> bool,
    q: spec_fn(usize) -> bool,
)
    requires
        forall|k: int| 0 <= k < list.len() ==> p(#[trigger] list[k]) == q(list[k]),
    ensures
        list.filter(p) == list.filter(q),
    decreases list.len(),
{
    reveal(Seq::filter);
    if list.len() > 0 {
        lemma_filter_agrees(list.drop_last(), p, q);
    }
}

/// The members of `list` whose flag is set, and those whose flag is not,
/// each in the order of `list`.
pub fn partition_by_flags(list: &Vec<NodeId>, flags: &Vec<bool>) -> (parts: (
    Vec<NodeId>,
    Vec<NodeId>,
))
    requires
        forall|k: int| 0 <= k < list@.len() ==> (#[trigger] list@[k]) < flags@.len(),
    ensures
        parts.0@ == list@.filter(|i: usize| flags@[i as int]),
        parts.1@ == list@.filter(|i: usize| !flags@[i as int]),
{
    let ghost yes = |i: usize| flags@[i as int];
    let ghost no = |i: usize| !flags@[i as int];
    let mut with: Vec<NodeId> = Vec::new();
    let mut without: Vec<NodeId> = Vec::new();
    let mut k: usize = 0;
    proof {
        reveal(Seq::filter);
        assert(list@.take(0).filter(yes) =~= Seq::empty());
        assert(list@.take(0).filter(no) =~= Seq::empty());
    }
    while k < list.len()
        invariant
            k <= list.len(),
            forall|j: int| 0 <= j < list@.len() ==> (#[trigger] list@[j]) < flags@.len(),
            yes == |i: usize| flags@[i as int],
            no == |i: usize| !flags@[i as int],
            with@ == list@.take(k as int).filter(yes),
            without@ == list@.take(k as int).filter(no),
        decreases list.len() - k,
    {
        let i = list[k];
        proof {
            reveal(Seq::filter);
            assert(list@.take(k + 1).drop_last() =~= list@.take(k as int));
            assert(list@.take(k + 1).last() == i);
        }
        if flags[i] {
            with.push(i);
        } else {
            without.push(i);
        }
        k = k + 1;
    }
    assert(list@.take(list@.len() as int) =~= list@);
    (with, without)
}

/// The neighbours of `v` by tier: those of a higher tier, those of its own
/// and those of a lower one. A neighbour that does not link back is of a
/// higher tier; where all link back, a neighbour is of a higher tier if at
/// least twice as many links lead to it as to `v`. Of the others, a
/// neighbour is of a lower tier if at least twice as many links lead to `v`
/// as to it.
pub open spec fn tier_neighbors(g: Seq<Seq<usize>>, degrees: Seq<usize>, v: usize) -> (
    Seq<usize>,
    Seq<usize>,
    Seq<usize>,
) {
    let all = g[v as int];
    let peers = all.filter(|i: usize| g[i as int].contains(v));
    let idols = all.filter(|i: usize| !g[i as int].contains(v));
    let higher = if idols.len() > 0 {
        idols
    } else {
        peers.filter(|i: usize| degrees[i as int] >= 2 * degrees[v as int])
    };
    let other = if idols.len() > 0 {
        peers
    } else {
        peers.filter(|i: usize| !(degrees[i as int] >= 2 * degrees[v as int]))
    };
    (
        higher,
        other.filter(|i: usize| !(degrees[v as int] >= 2 * degrees[i as int])),
        other.filter(|i: usize| degrees[v as int] >= 2 * degrees[i as int]),
    )
}

/// Whether `list` holds `v`.
pub fn list_contains(list: &Vec<NodeId>, v: NodeId) -> (b: bool)
    ensures
        b == list@.contains(v),
{
    let mut k: usize = 0;
    while k < list.len()
        invariant
            k <= list.len(),
            forall|j: int| 0 <= j < k ==> list@[j] != v,
        decreases list.len() - k,
    {
        if list[k] == v {
            return true;
        }
        k = k + 1;
    }
    false
}

/// Makes quorum sets without inner quorum sets that hold the graph
/// neighbours of the higher tier, or of the same tier where there are none
/// of a higher one.
#[derive(Debug, PartialEq, Eq)]
pub struct HigherTiersGraphQsc {
    pub graph: Graph,
    pub in_degrees: Vec<usize>,
}

impl Graph {
    /// For each node the number of links that lead to it.
    pub fn get_in_degrees(&self) -> (degrees: Vec<usize>)
        requires
            links_within(links(self.outlinks@)),
            forall|v: usize|
                v < self.outlinks@.len() ==> in_degree(
                    links(self.outlinks@),
                    v,
                    self.outlinks@.len() as int,
                ) <= usize::MAX,
        ensures
            degrees@.len() == self.outlinks@.len(),
            forall|v: usize|
                v < self.outlinks@.len() ==> (#[trigger] degrees@[v as int]) == in_degree(
                    links(self.outlinks@),
                    v,
                    self.outlinks@.len() as int,
                ),
    {
        let n = self.outlinks.len();
        let ghost g = links(self.outlinks@);
        let mut degrees: Vec<usize> = Vec::new();
        let mut v: usize = 0;
        while v < n
            invariant
                v <= n,
                degrees@.len() == v,
                forall|w: int| 0 <= w < v ==> (#[trigger] degrees@[w]) == 0,
            decreases n - v,
        {
            degrees.push(0);
            v = v + 1;
        }
        let mut u: usize = 0;
        while u < n
            invariant
                u <= n,
                n == self.outlinks@.len(),
                g == links(self.outlinks@),
                links_within(g),
                forall|w: usize| w < n ==> in_degree(g, w, n as int) <= usize::MAX,
                degrees@.len() == n,
                forall|w: usize| w < n ==> (#[trigger] degrees@[w as int]) == in_degree(
                    g,
                    w,
                    u as int,
                ),
            decreases n - u,
        {
            let list = &self.outlinks[u];
            assert(g[u as int] == list@);
            let mut k: usize = 0;
            while k < list.len()
                invariant
                    k <= list.len(),
                    u < n,
                    n == g.len(),
                    g[u as int] == list@,
                    links_within(g),
                    forall|w: usize| w < n ==> in_degree(g, w, n as int) <= usize::MAX,
                    degrees@.len() == n,
                    forall|w: usize| w < n ==> (#[trigger] degrees@[w as int]) == in_degree(
                        g,
                        w,
                        u as int,
                    ) + occurrences(list@, w, k as int),
                decreases list.len() - k,
            {
                let w = list[k];
                assert(g[u as int][k as int] < g.len());
                proof {
                    lemma_occurrences_grow(list@, w, k + 1, list@.len() as int);
                    lemma_in_degree_grows(g, w, u + 1, n as int);
                }
                let d = degrees[w];
                degrees.set(w, d + 1);
                k = k + 1;
            }
            u = u + 1;
        }
        degrees
    }
}

impl HigherTiersGraphQsc {
    /// Whether the configurator fits together: links lead to nodes of the
    /// graph, and a degree is held for each node.
    pub open spec fn wf(&self) -> bool {
        &&& links_within(links(self.graph.outlinks@))
        &&& self.in_degrees@.len() == self.graph.outlinks@.len()
    }

    /// A configurator for `graph` that sets thresholds that leave room for
    /// faults in fewer than a third of the validators.
    pub fn new_67p(graph: Graph) -> (qsc: HigherTiersGraphQsc)
        requires
            links_within(links(graph.outlinks@)),
            forall|v: usize|
                v < graph.outlinks@.len() ==> in_degree(
                    links(graph.outlinks@),
                    v,
                    graph.outlinks@.len() as int,
                ) <= usize::MAX,
        ensures
            qsc.wf(),
            qsc.graph == graph,
            forall|v: usize|
                v < graph.outlinks@.len() ==> (#[trigger] qsc.in_degrees@[v as int]) == in_degree(
                    links(graph.outlinks@),
                    v,
                    graph.outlinks@.len() as int,
                ),
    {
        let in_degrees = graph.get_in_degrees();
        HigherTiersGraphQsc { graph, in_degrees }
    }

    /// The neighbours of `node_id` by tier: higher, same, lower.
    pub fn get_neighbors_by_tierness(&self, node_id: NodeId) -> (tiers: (
        Vec<NodeId>,
        Vec<NodeId>,
        Vec<NodeId>,
    ))
        requires
            self.wf(),
            node_id < self.graph.outlinks@.len(),
        ensures
            (tiers.0@, tiers.1@, tiers.2@) == tier_neighbors(
                links(self.graph.outlinks@),
                self.in_degrees@,
                node_id,
            ),
    {
        let n = self.graph.outlinks.len();
        let ghost g = links(self.graph.outlinks@);
        let ghost degrees = self.in_degrees@;
        let in_degree = self.in_degrees[node_id];
        let mut links_back: Vec<bool> = Vec::new();
        let mut is_higher: Vec<bool> = Vec::new();
        let mut is_lower: Vec<bool> = Vec::new();
        let mut i: usize = 0;
        while i < n
            invariant
                i <= n,
                n == self.graph.outlinks@.len(),
                n == degrees.len(),
                degrees == self.in_degrees@,
                g == links(self.graph.outlinks@),
                node_id < n,
                in_degree == degrees[node_id as int],
                links_back@.len() == i,
                is_higher@.len() == i,
                is_lower@.len() == i,
                forall|j: int| 0 <= j < i ==> (#[trigger] links_back@[j]) == g[j].contains(node_id),
                forall|j: int|
                    0 <= j < i ==> (#[trigger] is_higher@[j]) == (degrees[j] >= 2 * in_degree),
                forall|j: int|
                    0 <= j < i ==> (#[trigger] is_lower@[j]) == (in_degree >= 2 * degrees[j]),
            decreases n - i,
        {
            assert(g[i as int] == self.graph.outlinks@[i as int]@);
            links_back.push(list_contains(&self.graph.outlinks[i], node_id));
            let d = self.in_degrees[i];
            is_higher.push(d / 2 >= in_degree);
            is_lower.push(in_degree / 2 >= d);
            i = i + 1;
        }
        let all = &self.graph.outlinks[node_id];
        assert(g[node_id as int] == all@);
        proof {
            assert forall|k: int| 0 <= k < all@.len() implies (#[trigger] all@[k]) < n by {
                assert(g[node_id as int][k] < g.len());
            }
        }
        let (peers, idols) = partition_by_flags(all, &links_back);
        proof {
            lemma_filter_agrees(
                all@,
                |i: usize| links_back@[i as int],
                |i: usize| g[i as int].contains(node_id),
            );
            lemma_filter_agrees(
                all@,
                |i: usize| !links_back@[i as int],
                |i: usize| !g[i as int].contains(node_id),
            );
            lemma_filter_within(all@, |i: usize| links_back@[i as int], n as int);
            lemma_filter_within(all@, |i: usize| !links_back@[i as int], n as int);
        }
        let (higher_tier, other_tier) = if idols.len() > 0 {
            (idols, peers)
        } else {
            let parts = partition_by_flags(&peers, &is_higher);
            proof {
                lemma_filter_agrees(
                    peers@,
                    |i: usize| is_higher@[i as int],
                    |i: usize| degrees[i as int] >= 2 * degrees[node_id as int],
                );
                lemma_filter_agrees(
                    peers@,
                    |i: usize| !is_higher@[i as int],
                    |i: usize| !(degrees[i as int] >= 2 * degrees[node_id as int]),
                );
                lemma_filter_within(peers@, |i: usize| !is_higher@[i as int], n as int);
            }
            parts
        };
        let (lower_tier, same_tier) = partition_by_flags(&other_tier, &is_lower);
        proof {
            lemma_filter_agrees(
                other_tier@,
                |i: usize| is_lower@[i as int],
                |i: usize| degrees[node_id as int] >= 2 * degrees[i as int],
            );
            lemma_filter_agrees(
                other_tier@,
                |i: usize| !is_lower@[i as int],
                |i: usize| !(degrees[node_id as int] >= 2 * degrees[i as int]),
            );
        }
        (higher_tier, same_tier, lower_tier)
    }
}

/// What a test picks from a list below `n` is below `n`.
pub proof fn lemma_filter_within(list: Seq<usize>, p: spec_fn(usize) -> bool, n: int)
    requires
        forall|k: int| 0 <= k < list.len() ==> (#[trigger] list[k]) < n,
    ensures
        forall|k: int| 0 <= k < list.filter(p).len() ==> (#[trigger] list.filter(p)[k]) < n,
    decreases list.len(),
{
    reveal(Seq::filter);
    if list.len() > 0 {
        let front = list.drop_last();
        lemma_filter_within(front, p, n);
        assert forall|k: int| 0 <= k < list.filter(p).len() implies (#[trigger] list.filter(p)[k])
            < n by {
            if k < front.filter(p).len() {
                assert(list.filter(p)[k] == front.filter(p)[k]);
            } else {
                assert(list.filter(p)[k] == list.last());
            }
        }
    }
}

/// Whether the numbers of `list` never fall.
pub open spec fn is_sorted(list: Seq<usize>) -> bool {
    forall|i: int, j: int| 0 <= i < j < list.len() ==> list[i] <= list[j]
}

/// The validators that a node gets, before they are sorted: its neighbours
/// of a higher tier, or those of its own tier where there are none of a
/// higher one; and the node itself, unless it has no such neighbour.
pub open spec fn chosen_validators(g: Seq<Seq<usize>>, degrees: Seq<usize>, v: usize) -> Seq<usize> {
    let tiers = tier_neighbors(g, degrees, v);
    let neighbours = if tiers.0.len() == 0 {
        tiers.1
    } else {
        tiers.0
    };
    if neighbours.len() > 0 && !neighbours.contains(v) {
        neighbours.push(v)
    } else {
        neighbours
    }
}

/// The quorum set without children and with threshold 0.
pub open spec fn unconfigured() -> QuorumSetModel {
    QuorumSetModel { threshold: 0, validators: Seq::empty(), inner: Seq::empty() }
}

impl HigherTiersGraphQsc {
    /// The validators for `node_id`, sorted, where its quorum set is not
    /// configured yet; `None` where it is.
    pub fn select_validators(&self, node_id: NodeId, fbas: &Fbas) -> (validators: Option<
        Vec<NodeId>,
    >)
        requires
            self.wf(),
            node_id < self.graph.outlinks@.len(),
            node_id < fbas@.len(),
        ensures
            validators.is_some() == (fbas@[node_id as int].quorum_set == unconfigured()),
            match validators {
                Some(list) => is_sorted(list@) && list@.to_multiset() == chosen_validators(
                    links(self.graph.outlinks@),
                    self.in_degrees@,
                    node_id,
                ).to_multiset(),
                None => true,
            },
    {
        let existing = &fbas.nodes[node_id].quorum_set;
        assert(fbas@[node_id as int].quorum_set == existing@);
        if existing.threshold != 0 || existing.validators.len() != 0
            || existing.inner_quorum_sets.len() != 0 {
            proof {
                crate::types::lemma_models_of(existing.inner_quorum_sets@);
            }
            return None;
        }
        proof {
            crate::types::lemma_models_of(existing.inner_quorum_sets@);
            assert(existing@.validators =~= Seq::empty());
            assert(existing@.inner =~= Seq::empty());
        }
        let n = self.graph.outlinks.len();
        let ghost g = links(self.graph.outlinks@);
        let (higher_tier_neighbors, same_tier_neighbors, _) = self.get_neighbors_by_tierness(
            node_id,
        );
        let mut validators = if higher_tier_neighbors.len() == 0 {
            same_tier_neighbors
        } else {
            higher_tier_neighbors
        };
        if validators.len() > 0 && !list_contains(&validators, node_id) {
            validators.push(node_id);
        }
        assert(validators@ == chosen_validators(g, self.in_degrees@, node_id));
        proof {
            // every chosen validator is a node of the graph
            let all = g[node_id as int];
            assert forall|k: int| 0 <= k < all.len() implies (#[trigger] all[k]) < n by {
                assert(g[node_id as int][k] < g.len());
            }
            let degrees = self.in_degrees@;
            let back = |i: usize| g[i as int].contains(node_id);
            let away = |i: usize| !g[i as int].contains(node_id);
            let up = |i: usize| degrees[i as int] >= 2 * degrees[node_id as int];
            let not_up = |i: usize| !(degrees[i as int] >= 2 * degrees[node_id as int]);
            let not_down = |i: usize| !(degrees[node_id as int] >= 2 * degrees[i as int]);
            lemma_filter_within(all, back, n as int);
            lemma_filter_within(all, away, n as int);
            lemma_filter_within(all.filter(back), up, n as int);
            lemma_filter_within(all.filter(back), not_up, n as int);
            lemma_filter_within(all.filter(back), not_down, n as int);
            lemma_filter_within(all.filter(back).filter(not_up), not_down, n as int);
        }
        let mut scores: Vec<u64> = Vec::new();
        let mut i: usize = 0;
        while i < n
            invariant
                i <= n,
                scores@.len() == i,
                forall|j: int| 0 <= j < i ==> (#[trigger] scores@[j]) == n - j,
            decreases n - i,
        {
            scores.push((n - i) as u64);
            i = i + 1;
        }
        let sorted = sort_by_rank(validators, &scores);
        proof {
            broadcast use vstd::seq_lib::group_to_multiset_ensures;

            assert forall|a: int, b: int| 0 <= a < b < sorted@.len() implies sorted@[a]
                <= sorted@[b] by {
                assert(sorted@.to_multiset().count(sorted@[a]) > 0);
                assert(sorted@.to_multiset().count(sorted@[b]) > 0);
                assert(validators@.contains(sorted@[a]));
                assert(validators@.contains(sorted@[b]));
                assert(scores@[sorted@[a] as int] >= scores@[sorted@[b] as int]);
            }
        }
        Some(sorted)
    }

    /// Gives the node the quorum set of `validators` with `threshold` and
    /// without inner quorum sets.
    pub fn set_quorum_set(
        fbas: &mut Fbas,
        node_id: NodeId,
        validators: Vec<NodeId>,
        threshold: usize,
    )
        requires
            node_id < old(fbas)@.len(),
        ensures
            final(fbas)@ == old(fbas)@.update(
                node_id as int,
                NodeModel {
                    public_key: old(fbas)@[node_id as int].public_key,
                    quorum_set: QuorumSetModel {
                        threshold: threshold as nat,
                        validators: validators@,
                        inner: Seq::empty(),
                    },
                },
            ),
    {
        let public_key = fbas.nodes[node_id].public_key.clone();
        let quorum_set = QuorumSet { threshold, validators, inner_quorum_sets: Vec::new() };
        assert(quorum_set@.inner =~= Seq::empty());
        fbas.nodes.set(node_id, Node { public_key, quorum_set });
        assert(fbas@ =~= old(fbas)@.update(
            node_id as int,
            NodeModel {
                public_key: old(fbas)@[node_id as int].public_key,
                quorum_set: quorum_set@,
            },
        ));
    }

    /// Configures the quorum set of `node_id`, unless it is configured
    /// already: the validators are those chosen from the graph, sorted, and
    /// the threshold leaves room for faults in fewer than a third of them.
    pub fn configure(&self, node_id: NodeId, fbas: &mut Fbas) -> (effect: ChangeEffect)
        requires
            self.wf(),
            node_id < self.graph.outlinks@.len(),
            node_id < old(fbas)@.len(),
        ensures
            (effect == ChangeEffect::Change) == (old(fbas)@[node_id as int].quorum_set
                == unconfigured()),
            effect == ChangeEffect::NoChange ==> final(fbas)@ == old(fbas)@,
            effect == ChangeEffect::Change ==> {
                let q = final(fbas)@[node_id as int].quorum_set;
                &&& final(fbas)@ == old(fbas)@.update(node_id as int, final(fbas)@[node_id as int])
                &&& final(fbas)@[node_id as int].public_key == old(fbas)@[node_id as int].public_key
                &&& is_sorted(q.validators)
                &&& q.validators.to_multiset() == chosen_validators(
                    links(self.graph.outlinks@),
                    self.in_degrees@,
                    node_id,
                ).to_multiset()
                &&& q.threshold == threshold_67p(q.validators.len())
                &&& q.inner.len() == 0
            },
    {
        match self.select_validators(node_id, fbas) {
            Some(validators) => {
                let threshold = get_67p_threshold(validators.len());
                HigherTiersGraphQsc::set_quorum_set(fbas, node_id, validators, threshold);
                ChangeEffect::Change
            },
            None => ChangeEffect::NoChange,
        }
    }
}

} // verus!
