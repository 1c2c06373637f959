//! The nodes of an execution tree and what they stand for.

use vstd::prelude::*;

verus! {

/// The key of a node: the edge and which visit of it within one execution.
pub type Key = (u32, u8);

/// A node of an execution tree, owning its subtree.
#[derive(Debug)]
pub struct ENode {
    /// The coverage edge.
    pub idx: u32,
    /// Which visit of the edge within one execution this node stands for.
    pub nth: u8,
    /// How often the node was observed.
    pub weight: u64,
    /// The nodes one step further, in the order they were first seen.
    pub children: Vec<ENode>,
    /// Scratch for partitioning: the weight of the path from the root.
    pub _cumulated: u64,
    /// Scratch for partitioning: whether the node stands for an observed
    /// edge, or only holds the place of a branch not taken yet.
    pub _claimed: bool,
}

/// What an [`ENode`] is, as a mathematical tree.
pub ghost struct TreeView {
    pub idx: u32,
    pub nth: u8,
    pub weight: nat,
    pub children: Seq<TreeView>,
    pub cumulated: nat,
    pub claimed: bool,
}

impl TreeView {
    /// The key under which the node is found among its siblings.
    pub open spec fn key(self) -> Key {
        (self.idx, self.nth)
    }

    /// A node without children.
    pub open spec fn is_leaf(self) -> bool {
        self.children.len() == 0
    }

    /// A node observed once, without children.
    pub open spec fn fresh(idx: u32, nth: u8, claimed: bool) -> TreeView {
        TreeView { idx, nth, weight: 1, children: Seq::empty(), cumulated: 0, claimed }
    }
}

impl View for ENode {
    type V = TreeView;

    open spec fn view(&self) -> TreeView {
        self.tree()
    }
}

impl ENode {
    /// The node and all below it as a mathematical tree.
    pub open spec fn tree(&self) -> TreeView
        decreases self,
    {
        TreeView {
            idx: self.idx,
            nth: self.nth,
            weight: self.weight as nat,
            children: Seq::new(
                self.children@.len(),
                |i: int|
                    if 0 <= i < self.children@.len() {
                        self.children@[i].tree()
                    } else {
                        arbitrary()
                    },
            ),
            cumulated: self._cumulated as nat,
            claimed: self._claimed,
        }
    }
}

impl ENode {
    /// A placeholder for a branch that no execution has taken yet.
    pub fn new_unclaimed(idx: u32) -> (node: Self)
        ensures
            node@ == TreeView::fresh(idx, 0, false),
    {
        let node = ENode {
            idx,
            nth: 0,
            _cumulated: 0,
            _claimed: false,
            weight: 1,
            children: Vec::new(),
        };
        assert(node@.children =~= Seq::empty());
        node
    }

    /// A node for an observed edge.
    pub fn new_claimed(idx: u32, nth: u8) -> (node: Self)
        ensures
            node@ == TreeView::fresh(idx, nth, true),
    {
        let node = ENode {
            idx,
            nth,
            _cumulated: 0,
            _claimed: true,
            weight: 1,
            children: Vec::new(),
        };
        assert(node@.children =~= Seq::empty());
        node
    }
}

/// Whether two trees hold the same nodes with the same weights in the same
/// places. The scratch of the partitioner does not count.
pub open spec fn same_tree(a: TreeView, b: TreeView) -> bool
    decreases a,
{
    &&& a.idx == b.idx
    &&& a.nth == b.nth
    &&& a.weight == b.weight
    &&& a.children.len() == b.children.len()
    &&& forall|i: int| 0 <= i < a.children.len() ==> same_tree(#[trigger] a.children[i], b.children[i])
}

impl Clone for ENode {
    fn clone(&self) -> (copy: Self)
        ensures
            copy@ == self@,
        decreases self,
    {
        let mut children: Vec<ENode> = Vec::new();
        let mut i: usize = 0;
        while i < self.children.len()
            invariant
                i <= self.children.len(),
                children@.len() == i,
                forall|j: int| 0 <= j < i ==> children@[j]@ == self.children@[j]@,
            decreases self.children.len() - i,
        {
            children.push(self.children[i].clone());
            i += 1;
        }
        let copy = ENode {
            idx: self.idx,
            nth: self.nth,
            weight: self.weight,
            children,
            _cumulated: self._cumulated,
            _claimed: self._claimed,
        };
        assert(copy@.children =~= self@.children);
        copy
    }
}

impl PartialEq for ENode {
    fn eq(&self, other: &Self) -> (same: bool)
        decreases self,
    {
        if self.idx != other.idx || self.nth != other.nth || self.weight != other.weight
            || self.children.len() != other.children.len() {
            return false;
        }
        let mut i: usize = 0;
        while i < self.children.len()
            invariant
                i <= self.children.len(),
                self.children.len() == other.children.len(),
                forall|j: int| 0 <= j < i ==> same_tree(self.children@[j]@, other.children@[j]@),
            decreases self.children.len() - i,
        {
            if !self.children[i].eq(&other.children[i]) {
                proof {
                    lemma_view_children(*self);
                    lemma_view_children(*other);
                    assert(!same_tree(self@.children[i as int], other@.children[i as int]));
                }
                return false;
            }
            i += 1;
        }
        proof {
            lemma_view_children(*self);
            lemma_view_children(*other);
        }
        true
    }
}

impl vstd::std_specs::cmp::PartialEqSpecImpl for ENode {
    open spec fn obeys_eq_spec() -> bool {
        true
    }

    open spec fn eq_spec(&self, other: &Self) -> bool {
        same_tree(self@, other@)
    }
}

impl Eq for ENode {

}

/// The views of a list of nodes, one for one.
pub open spec fn views(nodes: Seq<ENode>) -> Seq<TreeView> {
    Seq::new(nodes.len(), |i: int| nodes[i]@)
}

/// A node's children, seen as trees, are the views of its child list.
pub proof fn lemma_view_children(node: ENode)
    ensures
        node@.children == views(node.children@),
{
    assert(node@.children =~= views(node.children@));
}

} // verus!
