//! The execution graph as a mathematical object: a sequence of nodes, each
//! with its key, its weight and the keys of its children.

use vstd::prelude::*;
use crate::codec::{parsed, EdgeEntry, NodeEntry};
use crate::nodes::Key;
use crate::partition::PlanView;

verus! {

/// The key of the root, which stands for the state before any execution.
pub open spec fn root_key() -> Key {
    (0u32, 0u8)
}

/// What a graph holds of one node.
pub ghost struct NodeView {
    /// The edge and which visit of it the node stands for.
    pub key: Key,
    /// How often the node was observed.
    pub weight: nat,
    /// The keys of the nodes seen one step after this one, in the order they
    /// were first seen.
    pub children: Seq<Key>,
}

/// Whether the graph has a node with the key `k`.
pub open spec fn has_key(g: Seq<NodeView>, k: Key) -> bool {
    exists|i: int| 0 <= i < g.len() && (#[trigger] g[i]).key == k
}

/// Where in the graph the node with the key `k` stands, if it has one.
pub open spec fn position(g: Seq<NodeView>, k: Key) -> int {
    choose|i: int| 0 <= i < g.len() && (#[trigger] g[i]).key == k
}

/// The weight of the node with the key `k`, and 0 where there is none.
pub open spec fn weight_of(g: Seq<NodeView>, k: Key) -> nat {
    if has_key(g, k) {
        g[position(g, k)].weight
    } else {
        0
    }
}

/// The children of the node with the key `k`; none where there is no such
/// node.
pub open spec fn children_of(g: Seq<NodeView>, k: Key) -> Seq<Key> {
    if has_key(g, k) {
        g[position(g, k)].children
    } else {
        Seq::empty()
    }
}

/// What the first `n` nodes weigh together.
pub open spec fn weight_upto(g: Seq<NodeView>, n: int) -> nat
    decreases n,
{
    if n <= 0 {
        0
    } else {
        weight_upto(g, n - 1) + g[n - 1].weight
    }
}

/// What all nodes weigh together.
pub open spec fn graph_weight(g: Seq<NodeView>) -> nat {
    weight_upto(g, g.len() as int)
}

/// What holds of every graph: the root comes first, no key occurs twice,
/// every child is a node of the graph, and no node has a child twice.
pub open spec fn well_formed(g: Seq<NodeView>) -> bool {
    &&& g.len() >= 1
    &&& g[0].key == root_key()
    &&& forall|i: int, j: int| 0 <= i < j < g.len() ==> (#[trigger] g[i]).key != (#[trigger] g[j]).key
    &&& forall|i: int, p: int|
        0 <= i < g.len() && 0 <= p < g[i].children.len() ==> has_key(g, #[trigger] g[i].children[p])
    &&& forall|i: int| 0 <= i < g.len() ==> (#[trigger] g[i]).children.no_duplicates()
}

/// The graph that holds the root only.
pub open spec fn fresh() -> Seq<NodeView> {
    seq![NodeView { key: root_key(), weight: 0, children: Seq::empty() }]
}

/// The graph after the key `k` was observed `w` times more: its node gains
/// that weight, and a node without children is appended where it had none.
pub open spec fn absorbed(g: Seq<NodeView>, k: Key, w: nat) -> Seq<NodeView> {
    if has_key(g, k) {
        let i = position(g, k);
        g.update(i, NodeView { weight: g[i].weight + w, ..g[i] })
    } else {
        g.push(NodeView { key: k, weight: w, children: Seq::empty() })
    }
}

/// The graph with `child` among the children of `parent`: appended as the
/// last child where it was none.
pub open spec fn linked(g: Seq<NodeView>, parent: Key, child: Key) -> Seq<NodeView> {
    let p = position(g, parent);
    if g[p].children.contains(child) {
        g
    } else {
        g.update(p, NodeView { children: g[p].children.push(child), ..g[p] })
    }
}

/// The graph after one step of an execution, from the node `from` to the key
/// `to`.
pub open spec fn stepped(g: Seq<NodeView>, from: Key, to: Key) -> Seq<NodeView> {
    linked(absorbed(g, to, 1), from, to)
}

/// The key that an execution stands at after `n` steps of `trace`: the root
/// before the first.
pub open spec fn stand(trace: Seq<Key>, n: int) -> Key {
    if n <= 0 {
        root_key()
    } else {
        trace[n - 1]
    }
}

/// The graph after the first `n` steps of `trace`, walked from the root.
pub open spec fn walked_upto(g: Seq<NodeView>, trace: Seq<Key>, n: int) -> Seq<NodeView>
    decreases n,
{
    if n <= 0 {
        g
    } else {
        stepped(walked_upto(g, trace, n - 1), stand(trace, n - 1), trace[n - 1])
    }
}

/// The graph after one execution, given as the keys it visited in order.
pub open spec fn walked(g: Seq<NodeView>, trace: Seq<Key>) -> Seq<NodeView> {
    walked_upto(g, trace, trace.len() as int)
}

/// The graph after the first `n` nodes of `other` have been taken in, each
/// with its weight and, for now, without its children.
pub open spec fn absorbed_upto(g: Seq<NodeView>, other: Seq<NodeView>, n: int) -> Seq<NodeView>
    decreases n,
{
    if n <= 0 {
        g
    } else {
        absorbed(absorbed_upto(g, other, n - 1), other[n - 1].key, other[n - 1].weight)
    }
}

/// The graph after the first `m` of `kids` have been made children of
/// `parent`.
pub open spec fn linked_upto(g: Seq<NodeView>, parent: Key, kids: Seq<Key>, m: int) -> Seq<NodeView>
    decreases m,
{
    if m <= 0 {
        g
    } else {
        linked(linked_upto(g, parent, kids, m - 1), parent, kids[m - 1])
    }
}

/// The graph after the child links of the first `n` nodes of `other` have
/// been taken in.
pub open spec fn adopted_upto(g: Seq<NodeView>, other: Seq<NodeView>, n: int) -> Seq<NodeView>
    decreases n,
{
    if n <= 0 {
        g
    } else {
        linked_upto(
            adopted_upto(g, other, n - 1),
            other[n - 1].key,
            other[n - 1].children,
            other[n - 1].children.len() as int,
        )
    }
}

/// The graph `g` with `other` merged into it: every node of `other` is a
/// node of the result, new ones behind those of `g` in the order of `other`;
/// a node weighs what it weighs in both together; and its children are
/// those it has in `g`, then those it has in `other` only.
pub open spec fn merged(g: Seq<NodeView>, other: Seq<NodeView>) -> Seq<NodeView> {
    adopted_upto(absorbed_upto(g, other, other.len() as int), other, other.len() as int)
}

/// The nodes of a graph as they go over the wire, in the order the graph
/// holds them.
pub open spec fn node_entries(g: Seq<NodeView>) -> Seq<NodeEntry> {
    Seq::new(g.len(), |i: int| (g[i].key.0, g[i].key.1, g[i].weight as u64))
}

/// The child links of one node as they go over the wire: of each child only
/// the edge is kept, not which visit of it.
pub open spec fn child_entries(node: NodeView) -> Seq<EdgeEntry> {
    Seq::new(node.children.len(), |p: int| (node.key.0, node.children[p].0))
}

/// The child links of the first `n` nodes as they go over the wire.
pub open spec fn edge_entries_upto(g: Seq<NodeView>, n: int) -> Seq<EdgeEntry>
    decreases n,
{
    if n <= 0 {
        Seq::empty()
    } else {
        edge_entries_upto(g, n - 1) + child_entries(g[n - 1])
    }
}

/// The child links of a graph as they go over the wire.
pub open spec fn edge_entries(g: Seq<NodeView>) -> Seq<EdgeEntry> {
    edge_entries_upto(g, g.len() as int)
}

/// The graph with the weight of the key `k` set to `w`, in a new node
/// without children where it had none for the key.
pub open spec fn assigned(g: Seq<NodeView>, k: Key, w: nat) -> Seq<NodeView> {
    if has_key(g, k) {
        let i = position(g, k);
        g.update(i, NodeView { weight: w, ..g[i] })
    } else {
        g.push(NodeView { key: k, weight: w, children: Seq::empty() })
    }
}

/// The graph that holds the root and the first `n` of the nodes read from
/// the wire; of a key read twice the later weight stands.
pub open spec fn placed_upto(nodes: Seq<NodeEntry>, n: int) -> Seq<NodeView>
    decreases n,
{
    if n <= 0 {
        fresh()
    } else {
        assigned(placed_upto(nodes, n - 1), (nodes[n - 1].0, nodes[n - 1].1), nodes[n - 1].2 as nat)
    }
}

/// Whether the graph can hold the first `n` nodes read from the wire, taken
/// in one after the other.
pub open spec fn holds_upto(nodes: Seq<NodeEntry>, n: int) -> bool {
    forall|j: int| 0 <= j <= n ==> graph_weight(#[trigger] placed_upto(nodes, j)) <= u64::MAX
}

/// The key that an edge read from the wire stands for: its first visit.
pub open spec fn first_visit(edge: u32) -> Key {
    (edge, 0u8)
}

/// The graph after the first `m` child links read from the wire have been
/// taken in, each between the first visits of its two edges.
pub open spec fn wired_upto(g: Seq<NodeView>, edges: Seq<EdgeEntry>, m: int) -> Seq<NodeView>
    decreases m,
{
    if m <= 0 {
        g
    } else {
        linked(wired_upto(g, edges, m - 1), first_visit(edges[m - 1].0), first_visit(edges[m - 1].1))
    }
}

/// Whether the graph has a node for both ends of each child link.
pub open spec fn resolvable(g: Seq<NodeView>, edges: Seq<EdgeEntry>) -> bool {
    forall|j: int|
        0 <= j < edges.len() ==> has_key(g, first_visit((#[trigger] edges[j]).0)) && has_key(
            g,
            first_visit(edges[j].1),
        )
}

/// The graph that nodes and child links read from the wire stand for, where
/// they stand for one.
pub open spec fn rebuilt(nodes: Seq<NodeEntry>, edges: Seq<EdgeEntry>) -> Option<Seq<NodeView>> {
    let g = placed_upto(nodes, nodes.len() as int);
    if holds_upto(nodes, nodes.len() as int) && resolvable(g, edges) {
        Some(wired_upto(g, edges, edges.len() as int))
    } else {
        None
    }
}

/// The graph that bytes stand for, where they stand for one.
pub open spec fn decoded(bytes: Seq<u8>) -> Option<Seq<NodeView>> {
    match parsed(bytes) {
        Some((nodes, edges)) => rebuilt(nodes, edges),
        None => None,
    }
}

/// The nodes from position `from` up to, not including, position `to` as one
/// plan: their keys in order, and what they weigh together.
pub open spec fn chunk_plan(g: Seq<NodeView>, from: int, to: int) -> PlanView {
    PlanView {
        plan: Seq::new((to - from) as nat, |i: int| g[from + i].key),
        weight: (weight_upto(g, to) - weight_upto(g, from)) as nat,
        dependencies: Map::empty(),
    }
}

/// Where the `j`th of `k` chunks of a graph of `len` nodes starts.
pub open spec fn chunk_start(len: int, k: int, j: int) -> int {
    j * (len / k)
}

/// Where the `j`th of `k` chunks of a graph of `len` nodes ends: each chunk
/// holds the `k`th part of the nodes, rounded down, and the last chunk also
/// what is left over.
pub open spec fn chunk_end(len: int, k: int, j: int) -> int {
    if j == k - 1 {
        len
    } else {
        (j + 1) * (len / k)
    }
}

/// The plans of the flat partitioner: the nodes in the order the graph holds
/// them, cut into `k` chunks.
pub open spec fn flat_partition(g: Seq<NodeView>, k: int) -> Seq<PlanView> {
    Seq::new(
        k as nat,
        |j: int| chunk_plan(g, chunk_start(g.len() as int, k, j), chunk_end(g.len() as int, k, j)),
    )
}

/// Graphs that hold the same keys at the same places hold the same keys.
pub proof fn lemma_same_keys(a: Seq<NodeView>, b: Seq<NodeView>, k: Key)
    requires
        a.len() == b.len(),
        forall|i: int| 0 <= i < a.len() ==> (#[trigger] a[i]).key == b[i].key,
    ensures
        has_key(a, k) == has_key(b, k),
{
    if has_key(a, k) {
        let i = position(a, k);
        assert(b[i].key == k);
    }
    if has_key(b, k) {
        let i = position(b, k);
        assert(a[i].key == k);
    }
}

/// In a graph in order a node stands where its key is found.
pub proof fn lemma_position(g: Seq<NodeView>, i: int)
    requires
        well_formed(g),
        0 <= i < g.len(),
    ensures
        has_key(g, g[i].key),
        position(g, g[i].key) == i,
{
    let p = position(g, g[i].key);
    if p < i {
        assert(g[p].key != g[i].key);
    }
    if i < p {
        assert(g[i].key != g[p].key);
    }
}

/// Nodes that weigh the same, one for one, weigh the same together.
pub proof fn lemma_weight_upto_same(a: Seq<NodeView>, b: Seq<NodeView>, n: int)
    requires
        0 <= n <= a.len(),
        n <= b.len(),
        forall|i: int| 0 <= i < n ==> (#[trigger] a[i]).weight == b[i].weight,
    ensures
        weight_upto(a, n) == weight_upto(b, n),
    decreases n,
{
    if n > 0 {
        lemma_weight_upto_same(a, b, n - 1);
    }
}

/// Where one node changes its weight, all change together by as much.
pub proof fn lemma_weight_upto_changed(a: Seq<NodeView>, b: Seq<NodeView>, at: int, n: int)
    requires
        0 <= at < n <= a.len(),
        n <= b.len(),
        forall|i: int| 0 <= i < n && i != at ==> (#[trigger] a[i]).weight == b[i].weight,
    ensures
        weight_upto(a, n) + b[at].weight == weight_upto(b, n) + a[at].weight,
    decreases n,
{
    if at == n - 1 {
        lemma_weight_upto_same(a, b, n - 1);
    } else {
        lemma_weight_upto_changed(a, b, at, n - 1);
    }
}

/// More nodes weigh no less.
pub proof fn lemma_weight_upto_grows(g: Seq<NodeView>, n: int, m: int)
    requires
        n <= m,
    ensures
        weight_upto(g, n) <= weight_upto(g, m),
    decreases m - n,
{
    if n < m {
        lemma_weight_upto_grows(g, n, m - 1);
    }
}

} // verus!
