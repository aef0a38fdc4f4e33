//! The model of a federated Byzantine agreement system: nodes, each with a
//! nested threshold structure over other nodes.

use crate::node_set::{NodeId, NodeIdSet};
use vstd::prelude::*;

verus! {

/// Opaque external identity of a node.
pub type PublicKey = String;

/// A threshold over validators and nested quorum sets.
#[derive(Debug, PartialEq, Eq)]
pub struct QuorumSet {
    pub threshold: usize,
    pub validators: Vec<NodeId>,
    pub inner_quorum_sets: Vec<QuorumSet>,
}

/// A node: its identity and the quorum set it declares.
#[derive(Debug, PartialEq, Eq)]
pub struct Node {
    pub public_key: PublicKey,
    pub quorum_set: QuorumSet,
}

/// The nodes of a system; the index of a node is its id.
#[derive(Debug, PartialEq, Eq)]
pub struct Fbas {
    pub nodes: Vec<Node>,
}

/// The mathematical content of a [`QuorumSet`].
pub struct QuorumSetModel {
    pub threshold: nat,
    pub validators: Seq<usize>,
    pub inner: Seq<QuorumSetModel>,
}

/// The models of a sequence of quorum sets, in order.
pub open spec fn models_of(s: Seq<QuorumSet>) -> Seq<QuorumSetModel>
    decreases s, 0nat,
{
    if s.len() == 0 {
        Seq::empty()
    } else {
        models_of(s.drop_last()).push(s.last()@)
    }
}

impl View for QuorumSet {
    type V = QuorumSetModel;

    open spec fn view(&self) -> QuorumSetModel
        decreases self, 1nat,
    {
        QuorumSetModel {
            threshold: self.threshold as nat,
            validators: self.validators@,
            inner: models_of(self.inner_quorum_sets@),
        }
    }
}

/// `models_of` keeps length and order.
pub proof fn lemma_models_of(s: Seq<QuorumSet>)
    ensures
        models_of(s).len() == s.len(),
        forall|i: int| 0 <= i < s.len() ==> (#[trigger] models_of(s)[i]) == s[i]@,
    decreases s.len(),
{
    if s.len() > 0 {
        let front = s.drop_last();
        lemma_models_of(front);
        assert(models_of(s) == models_of(front).push(s.last()@));
        assert forall|i: int| 0 <= i < s.len() implies (#[trigger] models_of(s)[i]) == s[i]@ by {
            if i < front.len() {
                assert(models_of(front)[i] == front[i]@);
            }
        }
    }
}

impl QuorumSetModel {
    /// How many of the first `n` validators are members of `e`.
    pub open spec fn good_validators(self, e: Set<usize>, n: int) -> nat
        decreases n,
    {
        if n <= 0 || n > self.validators.len() {
            0
        } else {
            self.good_validators(e, n - 1) + if e.contains(self.validators[n - 1]) {
                1nat
            } else {
                0nat
            }
        }
    }

    /// How many of the first `n` inner quorum sets are satisfied by `e`.
    pub open spec fn good_inner(self, e: Set<usize>, n: int) -> nat
        decreases self, n,
    {
        if n <= 0 || n > self.inner.len() {
            0
        } else {
            self.good_inner(e, n - 1) + if self.inner[n - 1].is_satisfied_by(e) {
                1nat
            } else {
                0nat
            }
        }
    }

    /// How many children are good under `e`: a validator is good when it is a
    /// member of `e`, an inner quorum set when `e` satisfies it.
    pub open spec fn good_children(self, e: Set<usize>) -> nat
        decreases self, self.inner.len() + 1,
    {
        self.good_validators(e, self.validators.len() as int) + self.good_inner(
            e,
            self.inner.len() as int,
        )
    }

    /// Whether at least `threshold` children are good under `e`.
    pub open spec fn is_satisfied_by(self, e: Set<usize>) -> bool
        decreases self, self.inner.len() + 2,
    {
        self.good_children(e) >= self.threshold
    }

    /// Whether every validator named anywhere in the structure is below `n`.
    pub open spec fn ids_below(self, n: nat) -> bool
        decreases self,
    {
        &&& forall|i: int| 0 <= i < self.validators.len() ==> self.validators[i] < n
        &&& forall|i: int| 0 <= i < self.inner.len() ==> (#[trigger] self.inner[i]).ids_below(n)
    }

    /// A longer prefix of the validators holds at least as many good ones.
    pub proof fn lemma_validators_prefix(self, e: Set<usize>, m: int, n: int)
        requires
            m <= n <= self.validators.len(),
        ensures
            self.good_validators(e, m) <= self.good_validators(e, n),
        decreases n - m,
    {
        if m < n {
            self.lemma_validators_prefix(e, m, n - 1);
        }
    }

    /// A longer prefix of the inner quorum sets holds at least as many good ones.
    pub proof fn lemma_inner_prefix(self, e: Set<usize>, m: int, n: int)
        requires
            m <= n <= self.inner.len(),
        ensures
            self.good_inner(e, m) <= self.good_inner(e, n),
        decreases n - m,
    {
        if m < n {
            self.lemma_inner_prefix(e, m, n - 1);
        }
    }

    /// A larger set makes at least as many validators good.
    pub proof fn lemma_validators_monotone(self, e1: Set<usize>, e2: Set<usize>, n: int)
        requires
            e1.subset_of(e2),
        ensures
            self.good_validators(e1, n) <= self.good_validators(e2, n),
        decreases n,
    {
        if 0 < n <= self.validators.len() {
            self.lemma_validators_monotone(e1, e2, n - 1);
        }
    }

    /// A larger set makes at least as many inner quorum sets good.
    pub proof fn lemma_inner_monotone(self, e1: Set<usize>, e2: Set<usize>, n: int)
        requires
            e1.subset_of(e2),
        ensures
            self.good_inner(e1, n) <= self.good_inner(e2, n),
        decreases self, 0int, n,
    {
        if 0 < n <= self.inner.len() {
            self.lemma_inner_monotone(e1, e2, n - 1);
            self.inner[n - 1].lemma_monotone(e1, e2);
        }
    }

    /// Satisfaction is monotone: what satisfies a quorum set still does after
    /// members are added.
    pub proof fn lemma_monotone(self, e1: Set<usize>, e2: Set<usize>)
        requires
            e1.subset_of(e2),
        ensures
            self.good_children(e1) <= self.good_children(e2),
            self.is_satisfied_by(e1) ==> self.is_satisfied_by(e2),
        decreases self, 1int, 0int,
    {
        self.lemma_validators_monotone(e1, e2, self.validators.len() as int);
        self.lemma_inner_monotone(e1, e2, self.inner.len() as int);
    }
}

impl QuorumSet {
    /// The quorum set with threshold 0 and no children.
    pub fn new() -> (q: QuorumSet)
        ensures
            q@ == (QuorumSetModel { threshold: 0, validators: Seq::empty(), inner: Seq::empty() }),
    {
        let q = QuorumSet { threshold: 0, validators: Vec::new(), inner_quorum_sets: Vec::new() };
        assert(q@.inner =~= Seq::empty());
        assert(q@.validators =~= Seq::empty());
        q
    }

    /// Whether at least `threshold` children are good under `e`.
    pub fn is_satisfied_by(&self, e: &NodeIdSet) -> (b: bool)
        ensures
            b == self@.is_satisfied_by(e@),
        decreases self,
    {
        if self.threshold == 0 {
            return true;
        }
        proof {
            lemma_models_of(self.inner_quorum_sets@);
        }
        let mut good: usize = 0;
        let mut i: usize = 0;
        while i < self.validators.len()
            invariant
                i <= self.validators.len(),
                good == self@.good_validators(e@, i as int),
                good < self.threshold,
            decreases self.validators.len() - i,
        {
            if e.contains(self.validators[i]) {
                good = good + 1;
                if good >= self.threshold {
                    proof {
                        self@.lemma_validators_prefix(e@, i + 1, self.validators@.len() as int);
                    }
                    return true;
                }
            }
            i = i + 1;
        }
        let mut k: usize = 0;
        while k < self.inner_quorum_sets.len()
            invariant
                k <= self.inner_quorum_sets.len(),
                self@.inner.len() == self.inner_quorum_sets@.len(),
                forall|j: int|
                    0 <= j < self.inner_quorum_sets@.len() ==> (#[trigger] self@.inner[j])
                        == self.inner_quorum_sets@[j]@,
                good == self@.good_validators(e@, self.validators@.len() as int)
                    + self@.good_inner(e@, k as int),
                good < self.threshold,
            decreases self.inner_quorum_sets.len() - k,
        {
            if self.inner_quorum_sets[k].is_satisfied_by(e) {
                good = good + 1;
                if good >= self.threshold {
                    proof {
                        self@.lemma_inner_prefix(e@, k + 1, self.inner_quorum_sets@.len() as int);
                    }
                    return true;
                }
            }
            k = k + 1;
        }
        false
    }
}

impl Default for QuorumSet {
    fn default() -> (q: QuorumSet)
        ensures
            q@ == (QuorumSetModel { threshold: 0, validators: Seq::empty(), inner: Seq::empty() }),
    {
        QuorumSet::new()
    }
}

impl Clone for QuorumSet {
    fn clone(&self) -> (q: QuorumSet)
        ensures
            q@ == self@,
        decreases self,
    {
        let mut validators: Vec<NodeId> = Vec::new();
        let mut i: usize = 0;
        while i < self.validators.len()
            invariant
                i <= self.validators.len(),
                validators@ == self.validators@.take(i as int),
            decreases self.validators.len() - i,
        {
            validators.push(self.validators[i]);
            assert(validators@ =~= self.validators@.take(i + 1));
            i = i + 1;
        }
        assert(validators@ =~= self.validators@);
        let mut inner: Vec<QuorumSet> = Vec::new();
        let mut k: usize = 0;
        while k < self.inner_quorum_sets.len()
            invariant
                k <= self.inner_quorum_sets.len(),
                inner@.len() == k,
                forall|j: int| 0 <= j < k ==> (#[trigger] inner@[j])@ == self.inner_quorum_sets@[j]@,
            decreases self.inner_quorum_sets.len() - k,
        {
            inner.push(self.inner_quorum_sets[k].clone());
            k = k + 1;
        }
        let q = QuorumSet { threshold: self.threshold, validators, inner_quorum_sets: inner };
        proof {
            lemma_models_of(self.inner_quorum_sets@);
            lemma_models_of(q.inner_quorum_sets@);
            assert(q@.inner =~= self@.inner);
        }
        q
    }
}

/// The mathematical content of a [`Node`].
pub struct NodeModel {
    pub public_key: Seq<char>,
    pub quorum_set: QuorumSetModel,
}

impl View for Node {
    type V = NodeModel;

    open spec fn view(&self) -> NodeModel {
        NodeModel { public_key: self.public_key@, quorum_set: self.quorum_set@ }
    }
}

impl Clone for Node {
    fn clone(&self) -> (n: Node)
        ensures
            n@ == self@,
    {
        Node { public_key: self.public_key.clone(), quorum_set: self.quorum_set.clone() }
    }
}

impl View for Fbas {
    type V = Seq<NodeModel>;

    open spec fn view(&self) -> Seq<NodeModel> {
        self.nodes@.map_values(|n: Node| n@)
    }
}

/// Whether `s` is a quorum of `net`: it is not empty, and the quorum set of
/// each member is satisfied by `s`.
pub open spec fn is_quorum(net: Seq<NodeModel>, s: Set<usize>) -> bool {
    &&& s.finite()
    &&& s.len() > 0
    &&& forall|v: usize|
        s.contains(v) ==> v < net.len() && net[v as int].quorum_set.is_satisfied_by(s)
}

impl Fbas {
    /// A system without nodes.
    pub fn new() -> (f: Fbas)
        ensures
            f@ == Seq::<NodeModel>::empty(),
    {
        let f = Fbas { nodes: Vec::new() };
        assert(f@ =~= Seq::<NodeModel>::empty());
        f
    }

    /// Number of nodes.
    pub fn number_of_nodes(&self) -> (n: usize)
        ensures
            n == self@.len(),
    {
        self.nodes.len()
    }

    /// Whether `candidate` is a quorum: it is not empty, and the quorum set
    /// of each member is satisfied by `candidate`.
    pub fn is_quorum(&self, candidate: &NodeIdSet) -> (b: bool)
        ensures
            b == is_quorum(self@, candidate@),
    {
        proof {
            candidate.lemma_finite();
        }
        if candidate.is_empty() {
            return false;
        }
        assert(candidate@.len() > 0) by {
            if candidate@.len() == 0 {
                candidate@.lemma_len0_is_empty();
            }
        }
        crate::analysis::quorums::all_satisfied(self, candidate, candidate)
    }
}

impl Default for Fbas {
    fn default() -> (f: Fbas)
        ensures
            f@ == Seq::<NodeModel>::empty(),
    {
        Fbas::new()
    }
}

/// The public key that a node made without one gets: `n` and its id.
pub open spec fn generic_public_key(id: nat) -> Seq<char> {
    seq!['n'] + crate::text::decimal(id)
}

impl Fbas {
    /// Adds a node; its id is returned.
    pub fn add_node(&mut self, node: Node) -> (id: NodeId)
        ensures
            id == old(self)@.len(),
            final(self)@ == old(self)@.push(node@),
    {
        let id = self.nodes.len();
        self.nodes.push(node);
        assert(self@ =~= old(self)@.push(node@));
        id
    }

    /// Adds a node with the given quorum set and the public key `n` and its
    /// id; the id is returned.
    pub fn add_generic_node(&mut self, quorum_set: QuorumSet) -> (id: NodeId)
        ensures
            id == old(self)@.len(),
            final(self)@ == old(self)@.push(
                NodeModel { public_key: generic_public_key(id as nat), quorum_set: quorum_set@ },
            ),
    {
        let id = self.nodes.len();
        let mut public_key = String::new();
        crate::text::push_char(&mut public_key, 'n');
        crate::text::push_decimal(&mut public_key, id);
        assert(public_key@ =~= generic_public_key(id as nat));
        self.add_node(Node { public_key, quorum_set })
    }

    /// A system of `n` nodes with generic public keys and empty quorum sets.
    pub fn new_generic_unconfigured(n: usize) -> (fbas: Fbas)
        ensures
            fbas@.len() == n,
            forall|i: int|
                0 <= i < n ==> (#[trigger] fbas@[i]) == (NodeModel {
                    public_key: generic_public_key(i as nat),
                    quorum_set: QuorumSetModel {
                        threshold: 0,
                        validators: Seq::empty(),
                        inner: Seq::empty(),
                    },
                }),
    {
        let mut fbas = Fbas::new();
        let mut i: usize = 0;
        while i < n
            invariant
                i <= n,
                fbas@.len() == i,
                forall|k: int|
                    0 <= k < i ==> (#[trigger] fbas@[k]) == (NodeModel {
                        public_key: generic_public_key(k as nat),
                        quorum_set: QuorumSetModel {
                            threshold: 0,
                            validators: Seq::empty(),
                            inner: Seq::empty(),
                        },
                    }),
            decreases n - i,
        {
            fbas.add_generic_node(QuorumSet::new());
            i = i + 1;
        }
        fbas
    }
}

/// Whether the quorum set names `v` as a validator, at any depth.
pub open spec fn is_named(q: QuorumSetModel, v: usize) -> bool
    decreases q,
{
    q.validators.contains(v) || exists|i: int|
        0 <= i < q.inner.len() && is_named(#[trigger] q.inner[i], v)
}

impl QuorumSet {
    /// The nodes that the quorum set names as validators, at any depth.
    pub fn contained_nodes(&self) -> (nodes: NodeIdSet)
        ensures
            forall|v: usize| nodes@.contains(v) == is_named(self@, v),
        decreases self,
    {
        proof {
            lemma_models_of(self.inner_quorum_sets@);
        }
        let mut nodes = NodeIdSet::from_vec(&self.validators);
        let mut i: usize = 0;
        while i < self.inner_quorum_sets.len()
            invariant
                i <= self.inner_quorum_sets.len(),
                self@.inner.len() == self.inner_quorum_sets@.len(),
                forall|j: int|
                    0 <= j < self.inner_quorum_sets@.len() ==> (#[trigger] self@.inner[j])
                        == self.inner_quorum_sets@[j]@,
                forall|v: usize|
                    nodes@.contains(v) == (self@.validators.contains(v) || exists|k: int|
                        0 <= k < i && is_named(#[trigger] self@.inner[k], v)),
            decreases self.inner_quorum_sets.len() - i,
        {
            let inner = self.inner_quorum_sets[i].contained_nodes();
            let ghost before = nodes@;
            nodes.union_with(&inner);
            proof {
                assert forall|v: usize|
                    nodes@.contains(v) == (self@.validators.contains(v) || exists|k: int|
                        0 <= k < i + 1 && is_named(#[trigger] self@.inner[k], v)) by {
                    if exists|k: int| 0 <= k < i && is_named(#[trigger] self@.inner[k], v) {
                        let k = choose|k: int| 0 <= k < i && is_named(#[trigger] self@.inner[k], v);
                        assert(0 <= k < i + 1 && is_named(self@.inner[k], v));
                    }
                    if inner@.contains(v) {
                        assert(0 <= i < i + 1 && is_named(self@.inner[i as int], v));
                    }
                    if exists|k: int| 0 <= k < i + 1 && is_named(#[trigger] self@.inner[k], v) {
                        let k = choose|k: int|
                            0 <= k < i + 1 && is_named(#[trigger] self@.inner[k], v);
                        if k < i {
                            assert(before.contains(v));
                        }
                    }
                }
            }
            i = i + 1;
        }
        nodes
    }
}

} // verus!
