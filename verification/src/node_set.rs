//! Sets of node ids, kept as a bitmap indexed by id.

use vstd::prelude::*;

verus! {

/// Dense index of a node in the node universe.
pub type NodeId = usize;

/// A finite set of node ids.
#[derive(Debug)]
pub struct NodeIdSet {
    bits: Vec<bool>,
}

/// Number of ids below `n` whose flag is set in `bits`.
pub open spec fn count_below(bits: Seq<bool>, n: int) -> nat
    decreases n,
{
    if n <= 0 {
        0
    } else {
        count_below(bits, n - 1) + if n - 1 < bits.len() && bits[n - 1] {
            1nat
        } else {
            0nat
        }
    }
}

/// The ids below `n` whose flag is set in `bits`.
pub open spec fn members_below(bits: Seq<bool>, n: int) -> Set<usize> {
    Set::new(|i: usize| i < n && i < bits.len() && bits[i as int])
}

/// The ids below `n` whose flag is set are finitely many, as many as
/// `count_below` counts.
pub proof fn lemma_members_below(bits: Seq<bool>, n: int)
    requires
        0 <= n,
    ensures
        members_below(bits, n).finite(),
        n <= usize::MAX ==> members_below(bits, n).len() == count_below(bits, n),
    decreases n,
{
    if n <= 0 {
        assert(members_below(bits, n) =~= Set::<usize>::empty());
    } else if n - 1 > usize::MAX {
        lemma_members_below(bits, n - 1);
        assert(members_below(bits, n) =~= members_below(bits, n - 1));
    } else {
        lemma_members_below(bits, n - 1);
        let last = (n - 1) as usize;
        if n - 1 < bits.len() && bits[n - 1] {
            assert(members_below(bits, n) =~= members_below(bits, n - 1).insert(last));
        } else {
            assert(members_below(bits, n) =~= members_below(bits, n - 1));
        }
    }
}

impl View for NodeIdSet {
    type V = Set<usize>;

    closed spec fn view(&self) -> Set<usize> {
        members_below(self.bits@, self.bits@.len() as int)
    }
}

impl NodeIdSet {
    /// Every set of node ids is finite.
    pub proof fn lemma_finite(&self)
        ensures
            self@.finite(),
    {
        lemma_members_below(self.bits@, self.bits@.len() as int);
    }

    /// The empty set.
    pub fn new() -> (s: NodeIdSet)
        ensures
            s@ == Set::<usize>::empty(),
    {
        let s = NodeIdSet { bits: Vec::new() };
        assert(s@ =~= Set::<usize>::empty());
        s
    }

    /// Whether `id` is a member.
    pub fn contains(&self, id: NodeId) -> (b: bool)
        ensures
            b == self@.contains(id),
    {
        id < self.bits.len() && self.bits[id]
    }

    /// Adds `id`; returns whether it was absent before.
    pub fn insert(&mut self, id: NodeId) -> (fresh: bool)
        ensures
            final(self)@ == old(self)@.insert(id),
            fresh == !old(self)@.contains(id),
    {
        let fresh = !self.contains(id);
        while self.bits.len() <= id
            invariant
                self@ == old(self)@,
            decreases id + 1 - self.bits.len(),
        {
            let ghost before = self.bits@;
            self.bits.push(false);
            assert(self.bits@.len() == before.len() + 1);
            assert(self@ =~= members_below(before, before.len() as int));
        }
        let ghost before = self.bits@;
        self.bits.set(id, true);
        assert(self@ =~= members_below(before, before.len() as int).insert(id));
        fresh
    }

    /// Removes `id`; returns whether it was present before.
    pub fn remove(&mut self, id: NodeId) -> (present: bool)
        ensures
            final(self)@ == old(self)@.remove(id),
            present == old(self)@.contains(id),
    {
        let present = self.contains(id);
        if present {
            let ghost before = self.bits@;
            self.bits.set(id, false);
            assert(self@ =~= members_below(before, before.len() as int).remove(id));
        } else {
            assert(self@ =~= self@.remove(id));
        }
        present
    }

    /// Number of members.
    pub fn len(&self) -> (n: usize)
        ensures
            n == self@.len(),
    {
        let mut n: usize = 0;
        let mut i: usize = 0;
        while i < self.bits.len()
            invariant
                i <= self.bits.len(),
                n == count_below(self.bits@, i as int),
                n <= i,
            decreases self.bits.len() - i,
        {
            if self.bits[i] {
                n = n + 1;
            }
            i = i + 1;
        }
        proof {
            lemma_members_below(self.bits@, self.bits@.len() as int);
        }
        n
    }

    /// Whether the set has no member.
    pub fn is_empty(&self) -> (b: bool)
        ensures
            b == (self@ == Set::<usize>::empty()),
    {
        let mut i: usize = 0;
        while i < self.bits.len()
            invariant
                i <= self.bits.len(),
                forall|j: usize| j < i ==> !self@.contains(j),
            decreases self.bits.len() - i,
        {
            if self.bits[i] {
                assert(self@.contains(i));
                return false;
            }
            i = i + 1;
        }
        assert(self@ =~= Set::<usize>::empty());
        true
    }

    /// Whether every member of `self` is a member of `other`.
    pub fn is_subset(&self, other: &NodeIdSet) -> (b: bool)
        ensures
            b == self@.subset_of(other@),
    {
        let mut i: usize = 0;
        while i < self.bits.len()
            invariant
                i <= self.bits.len(),
                forall|j: usize| j < i && self@.contains(j) ==> other@.contains(j),
            decreases self.bits.len() - i,
        {
            if self.bits[i] && !other.contains(i) {
                assert(self@.contains(i));
                return false;
            }
            i = i + 1;
        }
        true
    }

    /// Whether every member of `other` is a member of `self`.
    pub fn is_superset(&self, other: &NodeIdSet) -> (b: bool)
        ensures
            b == other@.subset_of(self@),
    {
        other.is_subset(self)
    }

    /// Whether `self` and `other` share no member.
    pub fn is_disjoint(&self, other: &NodeIdSet) -> (b: bool)
        ensures
            b == self@.disjoint(other@),
    {
        let mut i: usize = 0;
        while i < self.bits.len()
            invariant
                i <= self.bits.len(),
                forall|j: usize| j < i && self@.contains(j) ==> !other@.contains(j),
            decreases self.bits.len() - i,
        {
            if self.bits[i] && other.contains(i) {
                assert(self@.contains(i));
                return false;
            }
            i = i + 1;
        }
        true
    }

    /// Whether both sets have the same members.
    pub fn same_as(&self, other: &NodeIdSet) -> (b: bool)
        ensures
            b == (self@ == other@),
    {
        let b = self.is_subset(other) && other.is_subset(self);
        if b {
            assert(self@ =~= other@);
        }
        b
    }

    /// Adds every member of `other`.
    pub fn union_with(&mut self, other: &NodeIdSet)
        ensures
            final(self)@ == old(self)@.union(other@),
    {
        let mut i: usize = 0;
        while i < other.bits.len()
            invariant
                i <= other.bits.len(),
                self@ == old(self)@.union(members_below(other.bits@, i as int)),
            decreases other.bits.len() - i,
        {
            if other.bits[i] {
                self.insert(i);
                assert(members_below(other.bits@, i + 1) =~= members_below(
                    other.bits@,
                    i as int,
                ).insert(i));
            } else {
                assert(members_below(other.bits@, i + 1) =~= members_below(other.bits@, i as int));
            }
            assert(self@ =~= old(self)@.union(members_below(other.bits@, i + 1)));
            i = i + 1;
        }
    }

    /// Keeps only the members that `other` has too.
    pub fn intersect_with(&mut self, other: &NodeIdSet)
        ensures
            final(self)@ == old(self)@.intersect(other@),
    {
        let mut i: usize = 0;
        while i < self.bits.len()
            invariant
                i <= self.bits.len(),
                self.bits@.len() == old(self).bits@.len(),
                forall|k: int|
                    0 <= k < self.bits@.len() ==> #[trigger] self.bits@[k] == (old(self).bits@[k]
                        && (k < i ==> other@.contains(k as usize))),
            decreases self.bits.len() - i,
        {
            if self.bits[i] && !other.contains(i) {
                self.bits.set(i, false);
            }
            i = i + 1;
        }
        assert(self@ =~= old(self)@.intersect(other@));
    }

    /// Drops every member of `other`.
    pub fn difference_with(&mut self, other: &NodeIdSet)
        ensures
            final(self)@ == old(self)@.difference(other@),
    {
        let mut i: usize = 0;
        while i < self.bits.len()
            invariant
                i <= self.bits.len(),
                self.bits@.len() == old(self).bits@.len(),
                forall|k: int|
                    0 <= k < self.bits@.len() ==> #[trigger] self.bits@[k] == (old(self).bits@[k]
                        && !(k < i && other@.contains(k as usize))),
            decreases self.bits.len() - i,
        {
            if self.bits[i] && other.contains(i) {
                self.bits.set(i, false);
            }
            i = i + 1;
        }
        assert(self@ =~= old(self)@.difference(other@));
    }

    /// The members in ascending order.
    pub fn to_vec(&self) -> (v: Vec<NodeId>)
        ensures
            is_ascending(v@),
            v@.to_set() == self@,
    {
        let mut v: Vec<NodeId> = Vec::new();
        let mut i: usize = 0;
        while i < self.bits.len()
            invariant
                i <= self.bits.len(),
                is_ascending(v@),
                forall|k: int| 0 <= k < v@.len() ==> v@[k] < i && self@.contains(#[trigger] v@[k]),
                forall|j: usize| j < i && self@.contains(j) ==> v@.contains(j),
            decreases self.bits.len() - i,
        {
            if self.bits[i] {
                let ghost before = v@;
                v.push(i);
                assert(forall|j: usize| before.contains(j) ==> v@.contains(j)) by {
                    assert forall|j: usize| before.contains(j) implies v@.contains(j) by {
                        let k = choose|k: int| 0 <= k < before.len() && before[k] == j;
                        assert(v@[k] == j);
                    }
                }
                assert(v@[v@.len() - 1] == i);
            }
            i = i + 1;
        }
        assert(v@.to_set() =~= self@);
        v
    }

    /// The set of the ids in `ids`.
    pub fn from_vec(ids: &Vec<NodeId>) -> (s: NodeIdSet)
        ensures
            s@ == ids@.to_set(),
    {
        let mut s = NodeIdSet::new();
        let mut i: usize = 0;
        while i < ids.len()
            invariant
                i <= ids.len(),
                s@ == ids@.take(i as int).to_set(),
            decreases ids.len() - i,
        {
            s.insert(ids[i]);
            assert(ids@.take(i + 1) =~= ids@.take(i as int).push(ids@[i as int]));
            assert(ids@.take(i as int).push(ids@[i as int]).to_set() =~= ids@.take(
                i as int,
            ).to_set().insert(ids@[i as int])) by {
                let a = ids@.take(i as int);
                let x = ids@[i as int];
                assert forall|y: usize| a.push(x).to_set().contains(y) == a.to_set().insert(
                    x,
                ).contains(y) by {
                    if a.push(x).contains(y) {
                        let k = choose|k: int| 0 <= k < a.push(x).len() && a.push(x)[k] == y;
                        if k < a.len() {
                            assert(a[k] == y);
                        }
                    }
                    if a.contains(y) {
                        let k = choose|k: int| 0 <= k < a.len() && a[k] == y;
                        assert(a.push(x)[k] == y);
                    }
                    if y == x {
                        assert(a.push(x)[a.len() as int] == y);
                    }
                }
            }
            i = i + 1;
        }
        assert(ids@.take(ids@.len() as int) =~= ids@);
        s
    }
}

/// Whether `a` comes before `b` in the order of member lists: at the least
/// id that only one of them has, `a` is the one that has it.
pub open spec fn lex_before(a: Set<usize>, b: Set<usize>) -> bool {
    exists|k: usize|
        a.contains(k) && !b.contains(k) && forall|j: usize|
            j < k ==> (a.contains(j) == b.contains(j))
}

/// Whether `a` comes before `b` in the canonical order: the smaller set
/// first, and of two sets of one size the one whose ascending list of
/// members is the lower.
pub open spec fn set_before(a: Set<usize>, b: Set<usize>) -> bool {
    a.len() < b.len() || (a.len() == b.len() && lex_before(a, b))
}

/// The canonical order is transitive.
pub proof fn lemma_set_before_transitive(a: Set<usize>, b: Set<usize>, c: Set<usize>)
    requires
        set_before(a, b),
        set_before(b, c),
    ensures
        set_before(a, c),
{
    if a.len() == b.len() && b.len() == c.len() {
        let k1 = choose|k: usize|
            a.contains(k) && !b.contains(k) && forall|j: usize|
                j < k ==> (a.contains(j) == b.contains(j));
        let k2 = choose|k: usize|
            b.contains(k) && !c.contains(k) && forall|j: usize|
                j < k ==> (b.contains(j) == c.contains(j));
        let k = if k1 < k2 {
            k1
        } else {
            k2
        };
        assert(a.contains(k) && !c.contains(k));
        assert forall|j: usize| j < k implies a.contains(j) == c.contains(j) by {
            assert(a.contains(j) == b.contains(j));
            assert(b.contains(j) == c.contains(j));
        }
    }
}

/// No set comes before itself, and of two sets at most one comes before
/// the other.
pub proof fn lemma_set_before_asymmetric(a: Set<usize>, b: Set<usize>)
    requires
        set_before(a, b),
    ensures
        !set_before(b, a),
        a != b,
{
    if a.len() == b.len() {
        let k1 = choose|k: usize|
            a.contains(k) && !b.contains(k) && forall|j: usize|
                j < k ==> (a.contains(j) == b.contains(j));
        if lex_before(b, a) {
            let k2 = choose|k: usize|
                b.contains(k) && !a.contains(k) && forall|j: usize|
                    j < k ==> (b.contains(j) == a.contains(j));
            if k1 < k2 {
                assert(b.contains(k1) == a.contains(k1));
            } else if k2 < k1 {
                assert(a.contains(k2) == b.contains(k2));
            }
        }
    }
}

impl NodeIdSet {
    /// Whether `self` comes before `other` in the canonical order.
    pub fn comes_before(&self, other: &NodeIdSet) -> (b: bool)
        ensures
            b == set_before(self@, other@),
    {
        let la = self.len();
        let lb = other.len();
        if la != lb {
            return la < lb;
        }
        let n = if self.bits.len() > other.bits.len() {
            self.bits.len()
        } else {
            other.bits.len()
        };
        let mut i: usize = 0;
        while i < n
            invariant
                i <= n,
                n >= self.bits.len(),
                n >= other.bits.len(),
                self@.len() == other@.len(),
                forall|j: usize| j < i ==> (self@.contains(j) == other@.contains(j)),
            decreases n - i,
        {
            let x = self.contains(i);
            let y = other.contains(i);
            if x != y {
                if x {
                    assert(lex_before(self@, other@));
                } else {
                    assert(lex_before(other@, self@));
                    assert(set_before(other@, self@));
                    proof {
                        lemma_set_before_asymmetric(other@, self@);
                    }
                }
                return x;
            }
            i = i + 1;
        }
        assert(self@ =~= other@);
        false
    }
}

impl PartialEq for NodeIdSet {
    fn eq(&self, other: &NodeIdSet) -> (b: bool) {
        self.same_as(other)
    }
}

impl vstd::std_specs::cmp::PartialEqSpecImpl for NodeIdSet {
    open spec fn obeys_eq_spec() -> bool {
        true
    }

    open spec fn eq_spec(&self, other: &NodeIdSet) -> bool {
        self@ == other@
    }
}

impl Eq for NodeIdSet {

}

impl Clone for NodeIdSet {
    fn clone(&self) -> (s: NodeIdSet)
        ensures
            s@ == self@,
    {
        let mut bits: Vec<bool> = Vec::new();
        let mut i: usize = 0;
        while i < self.bits.len()
            invariant
                i <= self.bits.len(),
                bits@ == self.bits@.take(i as int),
            decreases self.bits.len() - i,
        {
            bits.push(self.bits[i]);
            assert(bits@ =~= self.bits@.take(i + 1));
            i = i + 1;
        }
        assert(bits@ =~= self.bits@);
        NodeIdSet { bits }
    }
}

/// Whether `s` is strictly increasing.
pub open spec fn is_ascending(s: Seq<usize>) -> bool {
    forall|i: int, j: int| 0 <= i < j < s.len() ==> s[i] < s[j]
}

/// The members of a finite set in ascending order.
pub open spec fn ascending(s: Set<usize>) -> Seq<usize> {
    choose|q: Seq<usize>| is_ascending(q) && q.to_set() == s
}

/// Two ascending sequences with the same members are the same sequence.
pub proof fn lemma_ascending_unique(a: Seq<usize>, b: Seq<usize>)
    requires
        is_ascending(a),
        is_ascending(b),
        a.to_set() == b.to_set(),
    ensures
        a == b,
    decreases a.len(),
{
    if a.len() == 0 {
        if b.len() > 0 {
            assert(b.to_set().contains(b[0]));
            assert(a.contains(b[0]));
        }
        assert(a =~= b);
    } else {
        assert(a.to_set().contains(a.last()));
        assert(b.contains(a.last()));
        let j = choose|j: int| 0 <= j < b.len() && b[j] == a.last();
        assert(b.to_set().contains(b.last()));
        assert(a.contains(b.last()));
        let i = choose|i: int| 0 <= i < a.len() && a[i] == b.last();
        assert(a.last() == b.last());
        let a0 = a.drop_last();
        let b0 = b.drop_last();
        assert(a0.to_set() =~= b0.to_set()) by {
            assert forall|v: usize| a0.to_set().contains(v) == b0.to_set().contains(v) by {
                if a0.contains(v) {
                    let k = choose|k: int| 0 <= k < a0.len() && a0[k] == v;
                    assert(a[k] == v);
                    assert(a.to_set().contains(v));
                    assert(b.contains(v));
                    let m = choose|m: int| 0 <= m < b.len() && b[m] == v;
                    assert(m < b.len() - 1);
                    assert(b0[m] == v);
                }
                if b0.contains(v) {
                    let k = choose|k: int| 0 <= k < b0.len() && b0[k] == v;
                    assert(b[k] == v);
                    assert(b.to_set().contains(v));
                    assert(a.contains(v));
                    let m = choose|m: int| 0 <= m < a.len() && a[m] == v;
                    assert(m < a.len() - 1);
                    assert(a0[m] == v);
                }
            }
        }
        lemma_ascending_unique(a0, b0);
        assert(a =~= a0.push(a.last()));
        assert(b =~= b0.push(b.last()));
    }
}

impl NodeIdSet {
    /// A number above every member.
    pub closed spec fn bound(&self) -> nat {
        self.bits@.len()
    }

    /// Every member is below the bound.
    pub proof fn lemma_bound(&self)
        ensures
            forall|v: usize| self@.contains(v) ==> v < self.bound(),
    {
    }

    /// The least member that is not below `from`.
    pub fn first_from(&self, from: NodeId) -> (m: Option<NodeId>)
        ensures
            match m {
                Some(v) => from <= v < self.bound() && v < usize::MAX && self@.contains(v)
                    && forall|w: usize| from <= w < v ==> !self@.contains(w),
                None => forall|w: usize| from <= w ==> !self@.contains(w),
            },
    {
        let mut i = from;
        while i < self.bits.len()
            invariant
                from <= i,
                forall|w: usize| from <= w < i ==> !self@.contains(w),
            decreases self.bits.len() - i,
        {
            if self.bits[i] {
                return Some(i);
            }
            i = i + 1;
        }
        None
    }

    /// The members in ascending order, as `ascending` names them.
    pub fn members(&self) -> (v: Vec<NodeId>)
        ensures
            v@ == ascending(self@),
            is_ascending(v@),
            v@.to_set() == self@,
    {
        let v = self.to_vec();
        proof {
            lemma_ascending_unique(v@, ascending(self@));
        }
        v
    }
}

} // verus!
