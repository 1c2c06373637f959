//! Partition plans: the nodes that one worker is to look after.

use vstd::prelude::*;
use std::collections::HashMap;
use vstd::std_specs::iter::IteratorSpec;
use crate::nodes::Key;

verus! {

broadcast use vstd::std_specs::hash::group_hash_axioms;

/// The nodes handed to one worker, what they weigh together, and what in
/// other partitions they wait for.
#[derive(Debug)]
pub struct PartitionPlan {
    /// The keys of the nodes, in the order they were assigned.
    pub plan: Vec<(u32, u8)>,
    /// The weight that the members bring.
    pub weight: u64,
    /// For a position in `plan`, the positions in other partitions that it
    /// depends on.
    pub dependencies: HashMap<usize, Vec<usize>>,
}

/// What a [`PartitionPlan`] holds.
pub ghost struct PlanView {
    pub plan: Seq<Key>,
    pub weight: nat,
    pub dependencies: Map<usize, Seq<usize>>,
}

impl PlanView {
    /// The plan without members.
    pub open spec fn empty() -> PlanView {
        PlanView { plan: Seq::empty(), weight: 0, dependencies: Map::empty() }
    }

    /// The two plans as one: the members of `self`, then those of `other`;
    /// the weights added; the dependencies of both, those of `other` where
    /// both name the same position.
    pub open spec fn merged(self, other: PlanView) -> PlanView {
        PlanView {
            plan: self.plan + other.plan,
            weight: self.weight + other.weight,
            dependencies: self.dependencies.union_prefer_right(other.dependencies),
        }
    }
}

/// The views of a list of plans, one for one.
pub open spec fn plan_views(plans: Seq<PartitionPlan>) -> Seq<PlanView> {
    Seq::new(plans.len(), |i: int| plans[i]@)
}

/// The dependency table with each list seen as a sequence.
pub open spec fn dependency_views(table: Map<usize, Vec<usize>>) -> Map<usize, Seq<usize>> {
    table.map_values(|list: Vec<usize>| list@)
}

impl View for PartitionPlan {
    type V = PlanView;

    open spec fn view(&self) -> PlanView {
        PlanView {
            plan: self.plan@,
            weight: self.weight as nat,
            dependencies: dependency_views(self.dependencies@),
        }
    }
}

/// Whether one of the first `upto` entries is for the position `k`.
spec fn listed(entries: Seq<(&usize, &Vec<usize>)>, upto: int, k: usize) -> bool {
    exists|j: int| 0 <= j < upto && *(#[trigger] entries[j]).0 == k
}

/// A copy of a list of keys.
pub(crate) fn copy_keys(keys: &Vec<(u32, u8)>) -> (copy: Vec<(u32, u8)>)
    ensures
        copy@ == keys@,
{
    let mut copy: Vec<(u32, u8)> = Vec::new();
    let mut i: usize = 0;
    while i < keys.len()
        invariant
            i <= keys.len(),
            copy@ == keys@.take(i as int),
        decreases keys.len() - i,
    {
        copy.push(keys[i]);
        assert(keys@.take(i + 1) =~= keys@.take(i as int).push(keys@[i as int]));
        i += 1;
    }
    assert(keys@.take(keys.len() as int) =~= keys@);
    copy
}

fn copy_list(list: &Vec<usize>) -> (copy: Vec<usize>)
    ensures
        copy@ == list@,
{
    let mut copy: Vec<usize> = Vec::new();
    let mut i: usize = 0;
    while i < list.len()
        invariant
            i <= list.len(),
            copy@ == list@.take(i as int),
        decreases list.len() - i,
    {
        copy.push(list[i]);
        assert(list@.take(i + 1) =~= list@.take(i as int).push(list@[i as int]));
        i += 1;
    }
    assert(list@.take(list.len() as int) =~= list@);
    copy
}

impl Clone for PartitionPlan {
    fn clone(&self) -> (copy: Self)
        ensures
            copy@ == self@,
    {
        PartitionPlan {
            plan: copy_keys(&self.plan),
            weight: self.weight,
            dependencies: self.dependencies.clone(),
        }
    }
}

impl PartitionPlan {
    /// A plan without members.
    pub fn new() -> (plan: Self)
        ensures
            plan@ == PlanView::empty(),
    {
        let plan = PartitionPlan { plan: Vec::new(), weight: 0, dependencies: HashMap::new() };
        assert(plan@.dependencies =~= Map::empty());
        plan
    }

    /// The edges of the members, in order.
    pub fn serialize(&self) -> (edges: Vec<usize>)
        ensures
            edges@.len() == self@.plan.len(),
            forall|i: int| 0 <= i < edges@.len() ==> edges@[i] == self@.plan[i].0,
    {
        let mut edges: Vec<usize> = Vec::new();
        let mut i: usize = 0;
        while i < self.plan.len()
            invariant
                i <= self.plan.len(),
                edges@.len() == i,
                forall|j: int| 0 <= j < i ==> edges@[j] == self.plan@[j].0,
            decreases self.plan.len() - i,
        {
            edges.push(self.plan[i].0 as usize);
            i += 1;
        }
        edges
    }

    /// Takes the members, the weight and the dependencies of `other` in.
    pub fn merge(&mut self, other: &PartitionPlan)
        requires
            old(self).weight + other.weight <= u64::MAX,
        ensures
            final(self)@ == old(self)@.merged(other@),
    {
        let mut i: usize = 0;
        while i < other.plan.len()
            invariant
                i <= other.plan.len(),
                self.plan@ == old(self).plan@ + other.plan@.take(i as int),
                self.weight == old(self).weight,
                self.dependencies == old(self).dependencies,
            decreases other.plan.len() - i,
        {
            self.plan.push(other.plan[i]);
            assert(other.plan@.take(i + 1) =~= other.plan@.take(i as int).push(other.plan@[i as int]));
            i += 1;
        }
        assert(other.plan@.take(other.plan.len() as int) =~= other.plan@);
        self.weight += other.weight;
        let ghost before = self.dependencies@;
        let ghost theirs = other.dependencies@;
        let ghost entries = vstd::std_specs::hash::spec_hash_map_iter(&other.dependencies).remaining();
        let ghost mut done: int = 0;
        for entry in it: other.dependencies.iter()
            invariant
                self.plan@ == old(self).plan@ + other.plan@,
                self.weight == old(self).weight + other.weight,
                before == old(self).dependencies@,
                theirs == other.dependencies@,
                it.seq() == entries,
                done == it.index(),
                forall|k: usize|
                    self.dependencies@.contains_key(k) <==> before.contains_key(k) || listed(
                        entries,
                        done,
                        k,
                    ),
                forall|k: usize| #[trigger]
                    self.dependencies@.contains_key(k) ==> self.dependencies@[k]@ == if listed(
                        entries,
                        done,
                        k,
                    ) {
                        theirs[k]@
                    } else {
                        before[k]@
                    },
        {
            let (node, deps) = entry;
            let ghost table = self.dependencies@;
            assert(entry == entries[done]);
            assert(theirs.contains_key(*entries[done].0));
            assert(theirs[*node] == *deps);
            self.dependencies.insert(*node, copy_list(deps));
            assert forall|k: usize| listed(entries, done + 1, k) <==> k == *node || listed(
                entries,
                done,
                k,
            ) by {
                if listed(entries, done + 1, k) {
                    let j = choose|j: int| 0 <= j < done + 1 && *(#[trigger] entries[j]).0 == k;
                    if j < done {
                        assert(listed(entries, done, k));
                    }
                }
                if listed(entries, done, k) {
                    let j = choose|j: int| 0 <= j < done && *(#[trigger] entries[j]).0 == k;
                    assert(0 <= j < done + 1 && *entries[j].0 == k);
                }
                if k == *node {
                    assert(*entries[done].0 == k);
                }
            }
            proof {
                done = done + 1;
            }
        }
        assert(done == entries.len());
        assert forall|k: usize| theirs.contains_key(k) <==> listed(entries, done, k) by {
            if theirs.contains_key(k) {
                assert(entries.contains((&k, &theirs[k])));
                let j = choose|j: int| 0 <= j < entries.len() && entries[j] == (&k, &theirs[k]);
                assert(*entries[j].0 == k);
            }
            if listed(entries, done, k) {
                let j = choose|j: int| 0 <= j < done && *(#[trigger] entries[j]).0 == k;
                assert(theirs.contains_key(*entries[j].0));
            }
        }
        assert(dependency_views(self.dependencies@) =~= dependency_views(before).union_prefer_right(
            dependency_views(theirs),
        ));
    }
}

} // verus!
