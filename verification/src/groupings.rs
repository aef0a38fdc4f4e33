//! Named groups of nodes, such as the organizations that run them, and the
//! merging of the members of a group into one representative.

use crate::node_set::NodeId;
use crate::types::Fbas;
use vstd::prelude::*;

verus! {

/// A named group of nodes.
#[derive(Debug, PartialEq, Eq)]
pub struct Grouping {
    pub name: String,
    pub validators: Vec<NodeId>,
}

/// The mathematical content of a [`Grouping`].
pub struct GroupingModel {
    pub name: Seq<char>,
    pub validators: Seq<usize>,
}

impl View for Grouping {
    type V = GroupingModel;

    open spec fn view(&self) -> GroupingModel {
        GroupingModel { name: self.name@, validators: self.validators@ }
    }
}

impl Clone for Grouping {
    fn clone(&self) -> (g: Grouping)
        ensures
            g@ == self@,
    {
        Grouping { name: self.name.clone(), validators: self.validators.clone() }
    }
}

/// The groups of the nodes of a system, with the representative of each
/// node and the group it belongs to.
#[derive(Debug, PartialEq, Eq)]
pub struct Groupings {
    pub groupings: Vec<Grouping>,
    pub merged_ids: Vec<NodeId>,
    pub group_of: Vec<Option<usize>>,
}

/// A group of nodes that one organization runs.
pub type Organization = Grouping;

/// The groups of the nodes by the organization that runs them.
#[derive(Debug, PartialEq, Eq)]
pub struct Organizations {
    pub groupings: Groupings,
}

/// Whether `v` is a member of `g` other than its first.
pub open spec fn is_later_member(g: GroupingModel, v: usize) -> bool {
    exists|k: int| 1 <= k < g.validators.len() && g.validators[k] == v
}

/// The representative of `v` under the first `n` groups: the first member
/// of the last group that has `v` as a later member, or `v` itself where no
/// group has.
pub open spec fn merged_id_of(groups: Seq<GroupingModel>, v: usize, n: int) -> usize
    decreases n,
{
    if n <= 0 || n > groups.len() {
        v
    } else if is_later_member(groups[n - 1], v) {
        groups[n - 1].validators[0]
    } else {
        merged_id_of(groups, v, n - 1)
    }
}

/// The last of the first `n` groups that has `v` as a member.
pub open spec fn group_index_of(groups: Seq<GroupingModel>, v: usize, n: int) -> Option<usize>
    decreases n,
{
    if n <= 0 || n > groups.len() {
        None
    } else if groups[n - 1].validators.contains(v) {
        Some((n - 1) as usize)
    } else {
        group_index_of(groups, v, n - 1)
    }
}

/// Whether every member of every group is below `n`.
pub open spec fn members_below(groups: Seq<GroupingModel>, n: nat) -> bool {
    forall|i: int, k: int|
        0 <= i < groups.len() && 0 <= k < groups[i].validators.len() ==> (
        #[trigger] groups[i].validators[k]) < n
}

impl Groupings {
    /// The groups, in order.
    pub open spec fn groups(&self) -> Seq<GroupingModel> {
        self.groupings@.map_values(|g: Grouping| g@)
    }

    /// Number of nodes of the system that the groups were made for.
    pub open spec fn universe(&self) -> nat {
        self.merged_ids@.len()
    }

    /// The tables hold, for each node, its representative and its group.
    pub open spec fn wf(&self) -> bool {
        &&& self.group_of@.len() == self.merged_ids@.len()
        &&& members_below(self.groups(), self.universe())
        &&& forall|v: usize|
            v < self.universe() ==> (#[trigger] self.merged_ids@[v as int]) == merged_id_of(
                self.groups(),
                v,
                self.groups().len() as int,
            )
        &&& forall|v: usize|
            v < self.universe() ==> (#[trigger] self.group_of@[v as int]) == group_index_of(
                self.groups(),
                v,
                self.groups().len() as int,
            )
    }

    /// The representative of `v`: that of its group, or `v` itself.
    pub open spec fn merged_id(&self, v: usize) -> usize {
        merged_id_of(self.groups(), v, self.groups().len() as int)
    }

    /// The groups of the nodes of `fbas`.
    pub fn new(groupings: Vec<Grouping>, fbas: &Fbas) -> (g: Groupings)
        requires
            members_below(groupings@.map_values(|g: Grouping| g@), fbas@.len()),
        ensures
            g.wf(),
            g.groupings == groupings,
            g.universe() == fbas@.len(),
    {
        let n = fbas.nodes.len();
        let ghost groups = groupings@.map_values(|g: Grouping| g@);
        let mut merged_ids: Vec<NodeId> = Vec::new();
        let mut group_of: Vec<Option<usize>> = Vec::new();
        let mut v: usize = 0;
        while v < n
            invariant
                v <= n,
                merged_ids@.len() == v,
                group_of@.len() == v,
                forall|w: usize| w < v ==> (#[trigger] merged_ids@[w as int]) == w,
                forall|w: usize| w < v ==> (#[trigger] group_of@[w as int]).is_none(),
            decreases n - v,
        {
            merged_ids.push(v);
            group_of.push(None);
            v = v + 1;
        }
        let mut i: usize = 0;
        while i < groupings.len()
            invariant
                i <= groupings.len(),
                n == fbas@.len(),
                groups == groupings@.map_values(|g: Grouping| g@),
                members_below(groups, n as nat),
                merged_ids@.len() == n,
                group_of@.len() == n,
                forall|w: usize|
                    w < n ==> (#[trigger] merged_ids@[w as int]) == merged_id_of(groups, w, i as int),
                forall|w: usize|
                    w < n ==> (#[trigger] group_of@[w as int]) == group_index_of(
                        groups,
                        w,
                        i as int,
                    ),
            decreases groupings.len() - i,
        {
            let ghost g = groups[i as int];
            assert(g == groupings@[i as int]@);
            let members = &groupings[i].validators;
            let ghost merged_before = merged_ids@;
            let ghost group_before = group_of@;
            let mut k: usize = 0;
            while k < members.len()
                invariant
                    k <= members.len(),
                    members@ == g.validators,
                    g == groups[i as int],
                    i < groups.len(),
                    members_below(groups, n as nat),
                    merged_ids@.len() == n,
                    group_of@.len() == n,
                    merged_before.len() == n,
                    group_before.len() == n,
                    forall|w: usize|
                        w < n ==> (#[trigger] merged_ids@[w as int]) == (if exists|j: int|
                            1 <= j < k && members@[j] == w {
                            members@[0]
                        } else {
                            merged_before[w as int]
                        }),
                    forall|w: usize|
                        w < n ==> (#[trigger] group_of@[w as int]) == (if exists|j: int|
                            0 <= j < k && members@[j] == w {
                            Some(i)
                        } else {
                            group_before[w as int]
                        }),
                decreases members.len() - k,
            {
                let m = members[k];
                assert(groups[i as int].validators[k as int] < n);
                if k > 0 {
                    let first = members[0];
                    merged_ids.set(m, first);
                }
                group_of.set(m, Some(i));
                assert forall|w: usize| w < n implies (#[trigger] merged_ids@[w as int]) == (
                if exists|j: int| 1 <= j < k + 1 && members@[j] == w {
                    members@[0]
                } else {
                    merged_before[w as int]
                }) by {
                    if exists|j: int| 1 <= j < k && members@[j] == w {
                        let j = choose|j: int| 1 <= j < k && members@[j] == w;
                        assert(1 <= j < k + 1 && members@[j] == w);
                    } else if k > 0 && w == m {
                        assert(1 <= k < k + 1 && members@[k as int] == w);
                    }
                }
                assert forall|w: usize| w < n implies (#[trigger] group_of@[w as int]) == (
                if exists|j: int| 0 <= j < k + 1 && members@[j] == w {
                    Some(i)
                } else {
                    group_before[w as int]
                }) by {
                    if exists|j: int| 0 <= j < k && members@[j] == w {
                        let j = choose|j: int| 0 <= j < k && members@[j] == w;
                        assert(0 <= j < k + 1 && members@[j] == w);
                    } else if w == m {
                        assert(0 <= k < k + 1 && members@[k as int] == w);
                    }
                }
                k = k + 1;
            }
            assert forall|w: usize| w < n implies (#[trigger] group_of@[w as int])
                == group_index_of(groups, w, i + 1) by {
                if g.validators.contains(w) {
                    let j = choose|j: int| 0 <= j < g.validators.len() && g.validators[j] == w;
                    assert(0 <= j < k && members@[j] == w);
                }
            }
            i = i + 1;
        }
        let g = Groupings { groupings, merged_ids, group_of };
        assert(g.groups() == groups);
        g
    }

    /// The group that `node_id` belongs to: the last that has it.
    pub fn get_by_member(&self, node_id: NodeId) -> (g: Option<&Grouping>)
        requires
            self.wf(),
        ensures
            match g {
                Some(group) => node_id < self.universe() && group_index_of(
                    self.groups(),
                    node_id,
                    self.groups().len() as int,
                ).is_some() && group@ == self.groups()[group_index_of(
                    self.groups(),
                    node_id,
                    self.groups().len() as int,
                ).unwrap() as int],
                None => node_id >= self.universe() || group_index_of(
                    self.groups(),
                    node_id,
                    self.groups().len() as int,
                ).is_none(),
            },
    {
        if node_id >= self.group_of.len() {
            return None;
        }
        let count = self.groupings.len();
        match self.group_of[node_id] {
            Some(i) => {
                proof {
                    assert(self.groups().len() == count);
                    lemma_group_index_of(self.groups(), node_id, self.groups().len() as int);
                }
                Some(&self.groupings[i])
            },
            None => None,
        }
    }
}

/// A group found for a node is one of the groups and has the node.
pub proof fn lemma_group_index_of(groups: Seq<GroupingModel>, v: usize, n: int)
    requires
        n <= groups.len() <= usize::MAX,
    ensures
        match group_index_of(groups, v, n) {
            Some(i) => i < n && groups[i as int].validators.contains(v),
            None => forall|i: int| 0 <= i < n ==> !groups[i].validators.contains(v),
        },
    decreases n,
{
    if n > 0 && !groups[n - 1].validators.contains(v) {
        lemma_group_index_of(groups, v, n - 1);
    }
}

} // verus!
