//! The execution tree: each execution is a path from the root, and a
//! balanced partitioner shares the leaves out.

use vstd::prelude::*;
use crate::error::GraphError;
use crate::nodes::{views, lemma_view_children, ENode, Key, TreeView};
use crate::packing::{
    balanced, bin_plan, bin_plans, by_weight, lemma_balance, lemma_every_leaf_once,
    lemma_plans_cover_paths, names, pack, pack_leaves, target, times, total_weight,
};
use crate::partition::{copy_keys, plan_views, PartitionPlan, PlanView};

verus! {

/// Whether `i` is the first child with the key `key`.
pub open spec fn is_first_match(kids: Seq<TreeView>, key: Key, i: int) -> bool {
    &&& 0 <= i < kids.len()
    &&& kids[i].key() == key
    &&& forall|j: int| 0 <= j < i ==> kids[j].key() != key
}

/// Whether some child has the key `key`.
pub open spec fn has_child(kids: Seq<TreeView>, key: Key) -> bool {
    exists|i: int| 0 <= i < kids.len() && #[trigger] kids[i].key() == key
}

/// The first child with the key `key`, where there is one.
pub open spec fn find_child(kids: Seq<TreeView>, key: Key) -> int {
    choose|i: int| is_first_match(kids, key, i)
}

/// Whether `i` is the first child that holds a place only.
pub open spec fn is_first_unclaimed(kids: Seq<TreeView>, i: int) -> bool {
    &&& 0 <= i < kids.len()
    &&& !kids[i].claimed
    &&& forall|j: int| 0 <= j < i ==> kids[j].claimed
}

/// Whether some child holds a place only.
pub open spec fn has_unclaimed(kids: Seq<TreeView>) -> bool {
    exists|i: int| 0 <= i < kids.len() && !(#[trigger] kids[i]).claimed
}

/// The first child that holds a place only, where there is one.
pub open spec fn first_unclaimed(kids: Seq<TreeView>) -> int {
    choose|i: int| is_first_unclaimed(kids, i)
}

/// A placeholder taken over for the key `key`: it keeps its weight and what
/// hangs below it.
pub open spec fn claim(node: TreeView, key: Key) -> TreeView {
    TreeView { idx: key.0, nth: key.1, claimed: true, ..node }
}

/// The children after a step to a key that none of them has, and the
/// position of the child that now has it: the first placeholder is taken
/// over, and without one a new child is appended.
pub open spec fn branch(kids: Seq<TreeView>, key: Key) -> (Seq<TreeView>, int) {
    if has_unclaimed(kids) {
        let u = first_unclaimed(kids);
        (kids.update(u, claim(kids[u], key)), u)
    } else {
        (kids.push(TreeView::fresh(key.0, key.1, true)), kids.len() as int)
    }
}

/// The label after `counter` in the descending, wrapping run of placeholder
/// labels.
pub open spec fn next_label(counter: u32) -> u32 {
    if counter == 0 {
        u32::MAX
    } else {
        (counter - 1) as u32
    }
}

/// The children filled up with placeholders until there are two, and the
/// label left for the next placeholder.
pub open spec fn pad(kids: Seq<TreeView>, counter: u32) -> (Seq<TreeView>, u32)
    decreases 2 - kids.len(),
{
    if kids.len() >= 2 {
        (kids, counter)
    } else {
        pad(kids.push(TreeView::fresh(counter, 0, false)), next_label(counter))
    }
}

/// The tree below `node` after it has been walked along `path` from position
/// `pos` on, and the label left for the next placeholder. A step to a key
/// that a child has moves to the first such child. Any other step takes over
/// the first placeholder or appends a child, and leaves the node it started
/// from with at least two children.
pub open spec fn insert_from(node: TreeView, path: Seq<Key>, pos: int, counter: u32) -> (
    TreeView,
    u32,
)
    decreases path.len() - pos,
{
    if pos < 0 || pos >= path.len() {
        (node, counter)
    } else if has_child(node.children, path[pos]) {
        let i = find_child(node.children, path[pos]);
        let (child, left) = insert_from(node.children[i], path, pos + 1, counter);
        (TreeView { children: node.children.update(i, child), ..node }, left)
    } else {
        let (taken, i) = branch(node.children, path[pos]);
        let (padded, label) = pad(taken, counter);
        let (child, left) = insert_from(padded[i], path, pos + 1, label);
        (TreeView { children: padded.update(i, child), ..node }, left)
    }
}

/// The tree with every node's scratch weight set to the weight of the path
/// that leads to it: `carried` for what lies above `t`, and the weights from
/// `t` down.
pub open spec fn cumulate(t: TreeView, carried: nat) -> TreeView
    decreases t,
{
    TreeView {
        cumulated: carried + t.weight,
        children: Seq::new(
            t.children.len(),
            |i: int|
                if 0 <= i < t.children.len() {
                    cumulate(t.children[i], carried + t.weight)
                } else {
                    arbitrary()
                },
        ),
        ..t
    }
}

/// What the paths from above `t` to the leaves below it weigh together, a
/// path's weight being `carried` and the weights of its nodes from `t` down.
pub open spec fn leaf_sum(t: TreeView, carried: nat) -> nat
    decreases t, t.children.len() + 1,
{
    if t.is_leaf() {
        carried + t.weight
    } else {
        leaf_sum_upto(t, carried + t.weight, t.children.len() as int)
    }
}

/// [`leaf_sum`] over the first `n` children of `t`.
pub open spec fn leaf_sum_upto(t: TreeView, carried: nat, n: int) -> nat
    decreases t, n,
{
    if n <= 0 || n > t.children.len() {
        0
    } else {
        leaf_sum_upto(t, carried, n - 1) + leaf_sum(t.children[n - 1], carried)
    }
}

/// One plan for each leaf below `t`, left to right: the keys from the root
/// to the leaf, `prefix` being those above `t`, and the leaf's scratch weight.
pub open spec fn leaves(t: TreeView, prefix: Seq<Key>) -> Seq<PlanView>
    decreases t, t.children.len() + 1,
{
    if t.is_leaf() {
        seq![PlanView { plan: prefix.push(t.key()), weight: t.cumulated, dependencies: Map::empty() }]
    } else {
        leaves_upto(t, prefix.push(t.key()), t.children.len() as int)
    }
}

/// [`leaves`] over the first `n` children of `t`.
pub open spec fn leaves_upto(t: TreeView, prefix: Seq<Key>, n: int) -> Seq<PlanView>
    decreases t, n,
{
    if n <= 0 || n > t.children.len() {
        Seq::empty()
    } else {
        leaves_upto(t, prefix, n - 1) + leaves(t.children[n - 1], prefix)
    }
}

/// The plans that the balanced partitioner makes of a tree whose scratch
/// weights are set: its leaves shared out over at most `k` plans.
pub open spec fn tree_partition(t: TreeView, k: int) -> Seq<PlanView> {
    let all = leaves(t, Seq::empty());
    bin_plans(balanced(all, k), all)
}

proof fn lemma_leaf_sum_upto_grows(t: TreeView, carried: nat, n: int, m: int)
    requires
        0 <= n <= m <= t.children.len(),
    ensures
        leaf_sum_upto(t, carried, n) <= leaf_sum_upto(t, carried, m),
    decreases m - n,
{
    if n < m {
        lemma_leaf_sum_upto_grows(t, carried, n, m - 1);
    }
}

/// A path weighs at least what was carried to it and what its first node
/// weighs.
pub proof fn lemma_leaf_sum_lower(t: TreeView, carried: nat)
    ensures
        leaf_sum(t, carried) >= carried + t.weight,
    decreases t,
{
    if !t.is_leaf() {
        lemma_leaf_sum_lower(t.children[0], carried + t.weight);
        lemma_leaf_sum_upto_grows(t, carried + t.weight, 1, t.children.len() as int);
        assert(leaf_sum_upto(t, carried + t.weight, 0) == 0);
    }
}

/// The paths through one child weigh no more than all paths through the
/// node.
pub proof fn lemma_leaf_sum_child(t: TreeView, carried: nat, i: int)
    requires
        0 <= i < t.children.len(),
    ensures
        leaf_sum(t.children[i], carried + t.weight) <= leaf_sum(t, carried),
{
    lemma_leaf_sum_upto_grows(t, carried + t.weight, i + 1, t.children.len() as int);
}

proof fn lemma_total_weight_concat(a: Seq<PlanView>, b: Seq<PlanView>, n: int)
    requires
        0 <= n <= b.len(),
    ensures
        total_weight(a + b, a.len() + n) == total_weight(a, a.len() as int) + total_weight(b, n),
    decreases n,
{
    if n > 0 {
        lemma_total_weight_concat(a, b, n - 1);
    } else {
        lemma_total_weight_prefix(a + b, a, a.len() as int);
    }
}

proof fn lemma_total_weight_prefix(a: Seq<PlanView>, b: Seq<PlanView>, n: int)
    requires
        0 <= n <= a.len(),
        n <= b.len(),
        forall|i: int| 0 <= i < n ==> a[i] == b[i],
    ensures
        total_weight(a, n) == total_weight(b, n),
    decreases n,
{
    if n > 0 {
        lemma_total_weight_prefix(a, b, n - 1);
    }
}

/// The leaves of a tree whose scratch weights are set weigh together what
/// its paths weigh.
pub proof fn lemma_leaves_weigh_leaf_sum(t: TreeView, carried: nat, prefix: Seq<Key>)
    ensures
        total_weight(
            leaves(cumulate(t, carried), prefix),
            leaves(cumulate(t, carried), prefix).len() as int,
        ) == leaf_sum(t, carried),
    decreases t, t.children.len() + 1,
{
    let c = cumulate(t, carried);
    if t.is_leaf() {
        assert(c.is_leaf());
        let all = leaves(c, prefix);
        assert(total_weight(all, 0) == 0);
    } else {
        lemma_leaves_upto_weigh(t, carried, prefix.push(t.key()), t.children.len() as int);
    }
}

proof fn lemma_leaves_upto_weigh(t: TreeView, carried: nat, prefix: Seq<Key>, n: int)
    requires
        0 <= n <= t.children.len(),
    ensures
        total_weight(
            leaves_upto(cumulate(t, carried), prefix, n),
            leaves_upto(cumulate(t, carried), prefix, n).len() as int,
        ) == leaf_sum_upto(t, carried + t.weight, n),
    decreases t, n,
{
    let c = cumulate(t, carried);
    if n > 0 {
        lemma_leaves_upto_weigh(t, carried, prefix, n - 1);
        lemma_leaves_weigh_leaf_sum(t.children[n - 1], carried + t.weight, prefix);
        let head = leaves_upto(c, prefix, n - 1);
        let tail = leaves(c.children[n - 1], prefix);
        lemma_total_weight_concat(head, tail, tail.len() as int);
    }
}

/// Whether the tree below `node` holds the execution `path` from position
/// `pos` on: each step leads to a child with the key of the step.
pub open spec fn holds_path(node: TreeView, path: Seq<Key>, pos: int) -> bool
    decreases path.len() - pos,
{
    if pos < 0 || pos >= path.len() {
        true
    } else {
        &&& has_child(node.children, path[pos])
        &&& holds_path(node.children[find_child(node.children, path[pos])], path, pos + 1)
    }
}

proof fn lemma_first_match(kids: Seq<TreeView>, key: Key, i: int)
    requires
        is_first_match(kids, key, i),
    ensures
        has_child(kids, key),
        find_child(kids, key) == i,
{
    let f = find_child(kids, key);
    assert(is_first_match(kids, key, f));
    if f < i {
        assert(kids[f].key() != key);
    }
    if i < f {
        assert(kids[i].key() != key);
    }
}

proof fn lemma_find_child(kids: Seq<TreeView>, key: Key)
    requires
        has_child(kids, key),
    ensures
        is_first_match(kids, key, find_child(kids, key)),
{
    let w = choose|i: int| 0 <= i < kids.len() && #[trigger] kids[i].key() == key;
    lemma_first_match_below(kids, key, w);
}

proof fn lemma_first_match_below(kids: Seq<TreeView>, key: Key, w: int)
    requires
        0 <= w < kids.len(),
        kids[w].key() == key,
    ensures
        exists|i: int| is_first_match(kids, key, i),
    decreases w,
{
    if exists|j: int| 0 <= j < w && #[trigger] kids[j].key() == key {
        let j = choose|j: int| 0 <= j < w && #[trigger] kids[j].key() == key;
        lemma_first_match_below(kids, key, j);
    } else {
        assert(is_first_match(kids, key, w));
    }
}

proof fn lemma_first_unclaimed_below(kids: Seq<TreeView>, w: int)
    requires
        0 <= w < kids.len(),
        !kids[w].claimed,
    ensures
        exists|i: int| is_first_unclaimed(kids, i),
    decreases w,
{
    if exists|j: int| 0 <= j < w && !(#[trigger] kids[j]).claimed {
        let j = choose|j: int| 0 <= j < w && !(#[trigger] kids[j]).claimed;
        lemma_first_unclaimed_below(kids, j);
    } else {
        assert(is_first_unclaimed(kids, w));
    }
}

proof fn lemma_pad(kids: Seq<TreeView>, counter: u32)
    ensures
        pad(kids, counter).0.len() >= kids.len(),
        pad(kids, counter).0.len() >= 2,
        forall|j: int| 0 <= j < kids.len() ==> pad(kids, counter).0[j] == kids[j],
    decreases 2 - kids.len(),
{
    if kids.len() < 2 {
        lemma_pad(kids.push(TreeView::fresh(counter, 0, false)), next_label(counter));
    }
}

proof fn lemma_branch(kids: Seq<TreeView>, key: Key)
    requires
        !has_child(kids, key),
    ensures
        is_first_match(branch(kids, key).0, key, branch(kids, key).1),
{
    if has_unclaimed(kids) {
        let w = choose|i: int| 0 <= i < kids.len() && !(#[trigger] kids[i]).claimed;
        lemma_first_unclaimed_below(kids, w);
        let u = first_unclaimed(kids);
        assert(is_first_unclaimed(kids, u));
    }
}

/// Recording an execution makes the tree hold it.
pub proof fn lemma_insert_holds(node: TreeView, path: Seq<Key>, pos: int, counter: u32)
    ensures
        holds_path(insert_from(node, path, pos, counter).0, path, pos),
        insert_from(node, path, pos, counter).0.key() == node.key(),
    decreases path.len() - pos,
{
    if !(pos < 0 || pos >= path.len()) {
        let key = path[pos];
        let now = insert_from(node, path, pos, counter).0;
        if has_child(node.children, key) {
            lemma_find_child(node.children, key);
            let i = find_child(node.children, key);
            lemma_insert_holds(node.children[i], path, pos + 1, counter);
            assert(is_first_match(now.children, key, i));
            lemma_first_match(now.children, key, i);
        } else {
            lemma_branch(node.children, key);
            let (taken, i) = branch(node.children, key);
            let (padded, label) = pad(taken, counter);
            lemma_pad(taken, counter);
            lemma_insert_holds(padded[i], path, pos + 1, label);
            assert(is_first_match(now.children, key, i)) by {
                assert forall|j: int| 0 <= j < i implies now.children[j].key() != key by {
                    assert(taken[j].key() != key);
                }
            }
            lemma_first_match(now.children, key, i);
        }
    }
}

/// Recording an execution that the tree holds already changes nothing.
pub proof fn lemma_insert_again(node: TreeView, path: Seq<Key>, pos: int, counter: u32)
    requires
        holds_path(node, path, pos),
    ensures
        insert_from(node, path, pos, counter) == (node, counter),
    decreases path.len() - pos,
{
    if !(pos < 0 || pos >= path.len()) {
        let i = find_child(node.children, path[pos]);
        lemma_find_child(node.children, path[pos]);
        lemma_insert_again(node.children[i], path, pos + 1, counter);
        assert(node.children.update(i, node.children[i]) =~= node.children);
    }
}

/// The balanced partitioner hands every leaf to exactly one plan, makes no
/// more plans than were asked for, and its plans name the keys on the paths
/// from the root to the leaves, all of them and no others.
pub proof fn lemma_partition_covers(t: TreeView, k: int, l: int, key: Key)
    requires
        k >= 1,
    ensures
        times(balanced(leaves(t, Seq::empty()), k), l) == if 0 <= l < leaves(t, Seq::empty()).len() {
            1nat
        } else {
            0nat
        },
        tree_partition(t, k).len() <= k,
        names(tree_partition(t, k), key) == names(leaves(t, Seq::empty()), key),
{
    let all = leaves(t, Seq::empty());
    lemma_every_leaf_once(all, k, l);
    lemma_plans_cover_paths(all, k, key);
}

/// No plan of the balanced partitioner weighs more than twice the target,
/// where no single leaf weighs more than the target and packing the leaves
/// took at most one plan more than were asked for.
pub proof fn lemma_partition_balanced(t: TreeView, k: int, p: int)
    requires
        k >= 1,
        forall|l: int|
            0 <= l < leaves(t, Seq::empty()).len() ==> (#[trigger] leaves(t, Seq::empty())[l]).weight
                <= target(leaves(t, Seq::empty()), k),
        pack(
            by_weight(leaves(t, Seq::empty()), leaves(t, Seq::empty()).len() as int),
            leaves(t, Seq::empty()),
            target(leaves(t, Seq::empty()), k),
            leaves(t, Seq::empty()).len() as int,
        ).len() <= k + 1,
        0 <= p < tree_partition(t, k).len(),
    ensures
        tree_partition(t, k)[p].weight <= 2 * target(leaves(t, Seq::empty()), k),
{
    let all = leaves(t, Seq::empty());
    lemma_balance(all, k, p);
    assert(tree_partition(t, k)[p] == bin_plan(balanced(all, k)[p], all));
}

/// An execution tree: every execution is a path from the root, and every
/// inner node keeps a second child as the place of the branch not taken.
#[derive(Debug)]
pub struct ETree {
    root: ENode,
    _counter: u32,
}

impl Clone for ETree {
    fn clone(&self) -> (copy: Self)
        ensures
            copy@ == self@,
            copy.label() == self.label(),
    {
        ETree { root: self.root.clone(), _counter: self._counter }
    }
}

impl View for ETree {
    type V = TreeView;

    closed spec fn view(&self) -> TreeView {
        self.root@
    }
}

fn sum_paths(node: &ENode, carried: u64) -> (sum: Option<u64>)
    ensures
        match sum {
            Some(sum) => sum == leaf_sum(node@, carried as nat),
            None => leaf_sum(node@, carried as nat) > u64::MAX,
        },
    decreases node,
{
    proof {
        lemma_view_children(*node);
        lemma_leaf_sum_lower(node@, carried as nat);
    }
    if node.weight > u64::MAX - carried {
        return None;
    }
    let below = carried + node.weight;
    if node.children.len() == 0 {
        return Some(below);
    }
    let mut sum: u64 = 0;
    let mut i: usize = 0;
    while i < node.children.len()
        invariant
            i <= node.children.len(),
            node@.children == views(node.children@),
            below == carried + node.weight,
            sum == leaf_sum_upto(node@, below as nat, i as int),
        decreases node.children.len() - i,
    {
        proof {
            lemma_leaf_sum_upto_grows(node@, below as nat, i as int + 1, node.children.len() as int);
        }
        match sum_paths(&node.children[i], below) {
            Some(part) => {
                if part > u64::MAX - sum {
                    return None;
                }
                sum = sum + part;
            },
            None => {
                return None;
            },
        }
        i += 1;
    }
    Some(sum)
}

fn find_child_index(kids: &Vec<ENode>, idx: u32, nth: u8) -> (found: Option<usize>)
    ensures
        match found {
            Some(i) => is_first_match(views(kids@), (idx, nth), i as int),
            None => !has_child(views(kids@), (idx, nth)),
        },
{
    let mut i: usize = 0;
    while i < kids.len()
        invariant
            i <= kids.len(),
            forall|j: int| 0 <= j < i ==> (#[trigger] views(kids@)[j]).key() != (idx, nth),
        decreases kids.len() - i,
    {
        if kids[i].idx == idx && kids[i].nth == nth {
            return Some(i);
        }
        i += 1;
    }
    None
}

fn first_unclaimed_index(kids: &Vec<ENode>) -> (found: Option<usize>)
    ensures
        match found {
            Some(i) => is_first_unclaimed(views(kids@), i as int),
            None => !has_unclaimed(views(kids@)),
        },
{
    let mut i: usize = 0;
    while i < kids.len()
        invariant
            i <= kids.len(),
            forall|j: int| 0 <= j < i ==> (#[trigger] views(kids@)[j]).claimed,
        decreases kids.len() - i,
    {
        if !kids[i]._claimed {
            return Some(i);
        }
        i += 1;
    }
    None
}

fn pad_children(kids: &mut Vec<ENode>, counter: &mut u32)
    ensures
        (views(final(kids)@), *final(counter)) == pad(views(old(kids)@), *old(counter)),
        forall|j: int| 0 <= j < old(kids)@.len() ==> final(kids)@[j] == old(kids)@[j],
        final(kids)@.len() >= old(kids)@.len(),
{
    while kids.len() < 2
        invariant
            pad(views(kids@), *counter) == pad(views(old(kids)@), *old(counter)),
            forall|j: int| 0 <= j < old(kids)@.len() ==> kids@[j] == old(kids)@[j],
            kids@.len() >= old(kids)@.len(),
        decreases 2 - kids.len(),
    {
        let ghost before = views(kids@);
        kids.push(ENode::new_unclaimed(*counter));
        assert(views(kids@) =~= before.push(TreeView::fresh(*counter, 0, false)));
        *counter = counter.wrapping_sub(1);
    }
}

fn insert_path(node: &mut ENode, trace: &Vec<(u32, u8)>, pos: usize, counter: &mut u32)
    requires
        pos <= trace.len(),
    ensures
        (final(node)@, *final(counter)) == insert_from(
            old(node)@,
            trace@,
            pos as int,
            *old(counter),
        ),
    decreases trace.len() - pos,
{
    if pos >= trace.len() {
        return ;
    }
    let (idx, nth) = trace[pos];
    proof {
        lemma_view_children(*node);
    }
    let ghost kids0 = views(node.children@);
    let next: usize = match find_child_index(&node.children, idx, nth) {
        Some(i) => {
            assert(has_child(kids0, (idx, nth)));
            assert(find_child(kids0, (idx, nth)) == i as int);
            i
        },
        None => {
            let i: usize = match first_unclaimed_index(&node.children) {
                Some(u) => {
                    assert(has_unclaimed(kids0));
                    assert(first_unclaimed(kids0) == u as int);
                    node.children[u]._claimed = true;
                    node.children[u].nth = nth;
                    node.children[u].idx = idx;
                    proof {
                        lemma_view_children(node.children@[u as int]);
                        lemma_view_children(old(node).children@[u as int]);
                    }
                    u
                },
                None => {
                    let at = node.children.len();
                    node.children.push(ENode::new_claimed(idx, nth));
                    at
                },
            };
            assert(views(node.children@) =~= branch(kids0, (idx, nth)).0);
            pad_children(&mut node.children, counter);
            i
        },
    };
    let ghost kids1 = views(node.children@);
    let ghost label = *counter;
    insert_path(&mut node.children[next], trace, pos + 1, counter);
    proof {
        lemma_view_children(*node);
        assert(views(node.children@) =~= kids1.update(
            next as int,
            insert_from(kids1[next as int], trace@, pos + 1, label).0,
        ));
    }
}

impl ETree {
    /// A tree that holds `root` and what hangs below it.
    pub fn new(root: ENode) -> (tree: Self)
        ensures
            tree@ == root@,
            tree.label() == u32::MAX,
    {
        ETree { root, _counter: u32::MAX }
    }

    /// The label that the next placeholder gets.
    pub closed spec fn label(&self) -> u32 {
        self._counter
    }

    /// The root, with the whole tree below it.
    pub fn root(&self) -> (root: &ENode)
        ensures
            root@ == self@,
    {
        &self.root
    }

    /// What the paths from the root to the leaves weigh together, unless that
    /// is more than 64 bits hold.
    pub fn checked_leaf_sum(&self) -> (sum: Option<u64>)
        ensures
            match sum {
                Some(sum) => sum == leaf_sum(self@, 0),
                None => leaf_sum(self@, 0) > u64::MAX,
            },
    {
        sum_paths(&self.root, 0)
    }

    /// Sets the scratch weight of `node` and of every node below it to the
    /// weight of the path that leads to it, `parent_weight` being what lies
    /// above `node`.
    pub fn _dfs_weight_helper(node: &mut ENode, parent_weight: u64)
        requires
            leaf_sum(old(node)@, parent_weight as nat) <= u64::MAX,
        ensures
            final(node)@ == cumulate(old(node)@, parent_weight as nat),
        decreases *old(node),
    {
        proof {
            lemma_leaf_sum_lower(node@, parent_weight as nat);
            lemma_view_children(*node);
        }
        let cumulated = parent_weight + node.weight;
        let mut i: usize = 0;
        while i < node.children.len()
            invariant
                i <= node.children.len(),
                node.children.len() == old(node).children.len(),
                node.idx == old(node).idx,
                node.nth == old(node).nth,
                node.weight == old(node).weight,
                node._claimed == old(node)._claimed,
                cumulated == parent_weight + node.weight,
                leaf_sum(old(node)@, parent_weight as nat) <= u64::MAX,
                old(node)@.children == views(old(node).children@),
                forall|j: int|
                    0 <= j < i ==> node.children@[j]@ == cumulate(
                        old(node).children@[j]@,
                        cumulated as nat,
                    ),
                forall|j: int| i <= j < node.children.len() ==> node.children@[j] == old(node).children@[j],
            decreases node.children.len() - i,
        {
            proof {
                lemma_leaf_sum_child(old(node)@, parent_weight as nat, i as int);
            }
            Self::_dfs_weight_helper(&mut node.children[i], cumulated);
            i += 1;
        }
        node._cumulated = cumulated;
        proof {
            lemma_view_children(*node);
            assert(node@.children =~= cumulate(old(node)@, parent_weight as nat).children);
        }
    }

    /// Sets every node's scratch weight to the weight of its path from the
    /// root.
    pub fn _update_weight(&mut self)
        requires
            leaf_sum(old(self)@, 0) <= u64::MAX,
        ensures
            final(self)@ == cumulate(old(self)@, 0),
            final(self).label() == old(self).label(),
    {
        Self::_dfs_weight_helper(&mut self.root, 0);
    }

    /// Appends one plan for each leaf below `node`, left to right: the keys
    /// in `trace`, which lead to `node`, then those down to the leaf, and the
    /// leaf's scratch weight.
    pub fn _dfs_grab_node_helper(node: &ENode, parts: &mut Vec<PartitionPlan>, trace: Vec<(u32, u8)>)
        ensures
            plan_views(final(parts)@) == plan_views(old(parts)@) + leaves(node@, trace@),
        decreases node,
    {
        proof {
            lemma_view_children(*node);
        }
        let mut path = trace;
        path.push((node.idx, node.nth));
        if node.children.len() == 0 {
            let plan = PartitionPlan {
                plan: path,
                weight: node._cumulated,
                dependencies: std::collections::HashMap::new(),
            };
            assert(plan@.dependencies =~= Map::empty());
            parts.push(plan);
            assert(plan_views(parts@) =~= plan_views(old(parts)@) + leaves(node@, trace@));
        } else {
            let mut i: usize = 0;
            assert(plan_views(parts@) =~= plan_views(old(parts)@) + leaves_upto(node@, path@, 0));
            while i < node.children.len()
                invariant
                    i <= node.children.len(),
                    node@.children == views(node.children@),
                    path@ == trace@.push(node@.key()),
                    plan_views(parts@) == plan_views(old(parts)@) + leaves_upto(
                        node@,
                        path@,
                        i as int,
                    ),
                decreases node.children.len() - i,
            {
                let ghost before = plan_views(parts@);
                let copy = copy_keys(&path);
                Self::_dfs_grab_node_helper(&node.children[i], parts, copy);
                assert(plan_views(parts@) =~= plan_views(old(parts)@) + leaves_upto(
                    node@,
                    path@,
                    i as int + 1,
                ));
                i += 1;
            }
        }
    }

    /// Shares the tree's leaves out over at most `k` plans of about the same
    /// weight. A plan lists, for each of its leaves, the keys from the root
    /// down to the leaf; its weight is that of those paths together.
    pub fn partition(&mut self, k: usize) -> (plans: Result<Vec<PartitionPlan>, GraphError>)
        requires
            leaf_sum(old(self)@, 0) <= u64::MAX,
        ensures
            final(self).label() == old(self).label(),
            match plans {
                Ok(plans) => {
                    &&& k > 0
                    &&& final(self)@ == cumulate(old(self)@, 0)
                    &&& plan_views(plans@) == tree_partition(final(self)@, k as int)
                },
                Err(error) => {
                    &&& k == 0
                    &&& error == GraphError::InvalidArity
                    &&& final(self)@ == old(self)@
                },
            },
    {
        if k == 0 {
            return Err(GraphError::InvalidArity);
        }
        self._update_weight();
        let mut found: Vec<PartitionPlan> = Vec::new();
        Self::_dfs_grab_node_helper(&self.root, &mut found, Vec::new());
        proof {
            lemma_leaves_weigh_leaf_sum(old(self)@, 0, Seq::empty());
            assert(plan_views(found@) =~= leaves(self@, Seq::empty()));
        }
        Ok(pack_leaves(&found, k))
    }

    /// Records one execution, given as the keys it visited, the root's first.
    pub fn add_trace(&mut self, trace: Vec<(u32, u8)>)
        requires
            trace@.len() > 0,
            trace@[0] == old(self)@.key(),
        ensures
            final(self)@ == insert_from(old(self)@, trace@, 1, old(self).label()).0,
            final(self).label() == insert_from(old(self)@, trace@, 1, old(self).label()).1,
    {
        insert_path(&mut self.root, &trace, 1, &mut self._counter);
    }
}

} // verus!
