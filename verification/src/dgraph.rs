//! The execution graph as it is stored: an arena of nodes with a table
//! from keys to positions.

use vstd::prelude::*;
use std::collections::HashMap;
use crate::codec::{encoding, SerializableDGraph};
use crate::error::GraphError;
use crate::model::{
    absorbed, absorbed_upto, adopted_upto, assigned, child_entries, chunk_plan, chunk_start,
    chunk_end, decoded, edge_entries, edge_entries_upto, first_visit, flat_partition, fresh,
    graph_weight, has_key, holds_upto, lemma_position, lemma_same_keys, lemma_weight_upto_changed,
    lemma_weight_upto_grows, lemma_weight_upto_same, linked, linked_upto, merged, node_entries,
    placed_upto, position, rebuilt, root_key, stand, walked, walked_upto, weight_of, weight_upto,
    well_formed, wired_upto, children_of, NodeView,
};
use crate::nodes::Key;
use crate::partition::{plan_views, PartitionPlan};

verus! {

broadcast use vstd::std_specs::hash::group_hash_axioms;

/// A key as one number.
spec fn packed(k: Key) -> u64 {
    (k.0 as u64 * 256 + k.1 as u64) as u64
}

/// One node as the graph stores it: its children by their positions.
struct Slot {
    idx: u32,
    nth: u8,
    weight: u64,
    children: Vec<usize>,
}

impl Slot {
    spec fn key(self) -> Key {
        (self.idx, self.nth)
    }
}

/// The node at position `i` of the stored nodes, its children by their keys.
spec fn node_view(nodes: Seq<Slot>, i: int) -> NodeView {
    NodeView {
        key: nodes[i].key(),
        weight: nodes[i].weight as nat,
        children: Seq::new(
            nodes[i].children@.len(),
            |p: int| nodes[nodes[i].children@[p] as int].key(),
        ),
    }
}

/// The stored nodes as a graph.
spec fn graph_view(nodes: Seq<Slot>) -> Seq<NodeView> {
    Seq::new(nodes.len(), |i: int| node_view(nodes, i))
}

/// Whether the stored nodes and the table of their positions fit together.
spec fn stored(nodes: Seq<Slot>, index: Map<u64, usize>) -> bool {
    &&& nodes.len() >= 1
    &&& nodes[0].key() == root_key()
    &&& forall|i: int, j: int|
        0 <= i < j < nodes.len() ==> (#[trigger] nodes[i]).key() != (#[trigger] nodes[j]).key()
    &&& forall|i: int|
        0 <= i < nodes.len() ==> index.contains_key(packed((#[trigger] nodes[i]).key()))
            && index[packed(nodes[i].key())] == i
    &&& forall|k: u64| #[trigger]
        index.contains_key(k) ==> index[k] < nodes.len() && packed(nodes[index[k] as int].key()) == k
    &&& forall|i: int, p: int|
        0 <= i < nodes.len() && 0 <= p < nodes[i].children@.len() ==> (
        #[trigger] nodes[i].children@[p]) < nodes.len()
    &&& forall|i: int| 0 <= i < nodes.len() ==> (#[trigger] nodes[i]).children@.no_duplicates()
}

/// The execution graph of a worker or of the fleet: one node for each key
/// observed, found by its key, with the steps seen between them.
pub struct DGraph {
    nodes: Vec<Slot>,
    index: HashMap<u64, usize>,
    total: u64,
}

impl View for DGraph {
    type V = Seq<NodeView>;

    closed spec fn view(&self) -> Seq<NodeView> {
        graph_view(self.nodes@)
    }
}

proof fn lemma_packed_injective(a: Key, b: Key)
    ensures
        packed(a) == packed(b) ==> a == b,
{
}

proof fn lemma_has_key(nodes: Seq<Slot>, index: Map<u64, usize>, k: Key)
    requires
        stored(nodes, index),
    ensures
        has_key(graph_view(nodes), k) <==> index.contains_key(packed(k)),
        index.contains_key(packed(k)) ==> position(graph_view(nodes), k) == index[packed(k)]
            && nodes[index[packed(k)] as int].key() == k,
{
    let g = graph_view(nodes);
    if index.contains_key(packed(k)) {
        let i = index[packed(k)] as int;
        lemma_packed_injective(nodes[i].key(), k);
        assert(g[i].key == k);
        let p = position(g, k);
        assert(g[p].key == k);
        if p < i {
            assert(nodes[p].key() != nodes[i].key());
        }
        if i < p {
            assert(nodes[i].key() != nodes[p].key());
        }
    }
    if has_key(g, k) {
        let p = position(g, k);
        assert(nodes[p].key() == k);
    }
}

proof fn lemma_stored_well_formed(nodes: Seq<Slot>, index: Map<u64, usize>)
    requires
        stored(nodes, index),
    ensures
        well_formed(graph_view(nodes)),
{
    let g = graph_view(nodes);
    assert forall|i: int, p: int| 0 <= i < g.len() && 0 <= p < g[i].children.len() implies has_key(
        g,
        #[trigger] g[i].children[p],
    ) by {
        let c = nodes[i].children@[p] as int;
        assert(g[c].key == g[i].children[p]);
    }
    assert forall|i: int| 0 <= i < g.len() implies (#[trigger] g[i]).children.no_duplicates() by {
        assert forall|p: int, q: int|
            0 <= p < g[i].children.len() && 0 <= q < g[i].children.len() && p != q implies g[i].children[p]
            != g[i].children[q] by {
            let a = nodes[i].children@[p] as int;
            let b = nodes[i].children@[q] as int;
            assert(a != b);
            if a < b {
                assert(nodes[a].key() != nodes[b].key());
            } else {
                assert(nodes[b].key() != nodes[a].key());
            }
        }
    }
}

impl DGraph {
    /// Whether the graph is in order: what holds of every graph that this
    /// library hands out.
    pub closed spec fn wf(&self) -> bool {
        &&& stored(self.nodes@, self.index@)
        &&& self.total as nat == graph_weight(self@)
    }

    /// A graph in order holds the root first and no key twice, and its
    /// weight fits in 64 bits.
    pub proof fn lemma_wf(&self)
        requires
            self.wf(),
        ensures
            well_formed(self@),
            graph_weight(self@) <= u64::MAX,
    {
        lemma_stored_well_formed(self.nodes@, self.index@);
    }

    /// The graph that holds the root only.
    pub fn new() -> (graph: Self)
        ensures
            graph.wf(),
            graph@ == fresh(),
            graph_weight(graph@) == 0,
    {
        let mut nodes: Vec<Slot> = Vec::new();
        nodes.push(Slot { idx: 0, nth: 0, weight: 0, children: Vec::new() });
        let mut index: HashMap<u64, usize> = HashMap::new();
        index.insert(0, 0);
        let graph = DGraph { nodes, index, total: 0 };
        proof {
            assert(graph@[0].children =~= Seq::empty());
            assert(graph@ =~= fresh());
            assert(weight_upto(graph@, 0) == 0);
            assert(weight_upto(graph@, 1) == 0);
        }
        graph
    }

    /// How many nodes the graph has, the root among them.
    pub fn len(&self) -> (n: usize)
        ensures
            n == self@.len(),
    {
        self.nodes.len()
    }

    /// What all nodes weigh together.
    pub fn total_weight(&self) -> (total: u64)
        requires
            self.wf(),
        ensures
            total == graph_weight(self@),
    {
        self.total
    }

    /// Whether the graph has a node with this key.
    pub fn contains(&self, idx: u32, nth: u8) -> (found: bool)
        requires
            self.wf(),
        ensures
            found == has_key(self@, (idx, nth)),
    {
        proof {
            lemma_has_key(self.nodes@, self.index@, (idx, nth));
        }
        self.index.contains_key(&pack_key(idx, nth))
    }

    /// The weight of the node with this key.
    pub fn weight(&self, idx: u32, nth: u8) -> (weight: Option<u64>)
        requires
            self.wf(),
        ensures
            weight is Some == has_key(self@, (idx, nth)),
            weight matches Some(w) ==> w == weight_of(self@, (idx, nth)),
    {
        proof {
            lemma_has_key(self.nodes@, self.index@, (idx, nth));
        }
        match self.index.get(&pack_key(idx, nth)) {
            Some(at) => Some(self.nodes[*at].weight),
            None => None,
        }
    }

    /// The keys of the children of the node with this key, in the order they
    /// were first seen.
    pub fn children(&self, idx: u32, nth: u8) -> (children: Option<Vec<(u32, u8)>>)
        requires
            self.wf(),
        ensures
            children is Some == has_key(self@, (idx, nth)),
            children matches Some(keys) ==> keys@ == children_of(self@, (idx, nth)),
    {
        proof {
            lemma_has_key(self.nodes@, self.index@, (idx, nth));
        }
        match self.index.get(&pack_key(idx, nth)) {
            Some(at) => {
                let at = *at;
                let mut keys: Vec<(u32, u8)> = Vec::new();
                let mut p: usize = 0;
                while p < self.nodes[at].children.len()
                    invariant
                        at < self.nodes.len(),
                        stored(self.nodes@, self.index@),
                        p <= self.nodes@[at as int].children@.len(),
                        keys@.len() == p,
                        forall|q: int| 0 <= q < p ==> keys@[q] == self@[at as int].children[q],
                    decreases self.nodes@[at as int].children@.len() - p,
                {
                    let c = self.nodes[at].children[p];
                    keys.push((self.nodes[c].idx, self.nodes[c].nth));
                    p += 1;
                }
                assert(keys@ =~= self@[at as int].children);
                Some(keys)
            },
            None => None,
        }
    }

    /// Counts `w` more observations of a key, in a new node where the graph
    /// had none for it, and says where the node stands.
    fn absorb(&mut self, idx: u32, nth: u8, w: u64) -> (at: usize)
        requires
            old(self).wf(),
            graph_weight(old(self)@) + w <= u64::MAX,
        ensures
            final(self).wf(),
            final(self)@ == absorbed(old(self)@, (idx, nth), w as nat),
            at < final(self)@.len(),
            final(self)@[at as int].key == (idx, nth),
            graph_weight(final(self)@) == graph_weight(old(self)@) + w,
            final(self)@.len() >= old(self)@.len(),
            forall|i: int| 0 <= i < old(self)@.len() ==> (#[trigger] final(self)@[i]).key == old(self)@[i].key,
    {
        let k = pack_key(idx, nth);
        let ghost g = self@;
        let ghost before = self.nodes@;
        proof {
            lemma_has_key(self.nodes@, self.index@, (idx, nth));
        }
        let found: Option<usize> = match self.index.get(&k) {
            Some(at) => Some(*at),
            None => None,
        };
        match found {
            Some(at) => {
                proof {
                    lemma_weight_upto_grows(g, at as int + 1, g.len() as int);
                }
                self.nodes[at].weight += w;
                self.total += w;
                proof {
                    assert forall|i: int| 0 <= i < self.nodes@.len() implies (#[trigger] self.nodes@[i]).key()
                        == before[i].key() && self.nodes@[i].children == before[i].children by {}
                    let goal = absorbed(g, (idx, nth), w as nat);
                    assert forall|i: int| 0 <= i < g.len() implies self@[i] == goal[i] by {
                        assert(self@[i].children =~= g[i].children);
                    }
                    assert(self@ =~= goal);
                    lemma_weight_upto_changed(g, self@, at as int, g.len() as int);
                }
                at
            },
            None => {
                let at = self.nodes.len();
                self.nodes.push(Slot { idx, nth, weight: w, children: Vec::new() });
                self.index.insert(k, at);
                self.total += w;
                proof {
                    assert forall|i: int| 0 <= i < before.len() implies self.nodes@[i] == before[i] by {}
                    assert forall|i: int, j: int| 0 <= i < j < self.nodes@.len() implies (
                    #[trigger] self.nodes@[i]).key() != (#[trigger] self.nodes@[j]).key() by {
                        if j == at {
                            assert(g[i].key == before[i].key());
                        }
                    }
                    assert forall|i: int| 0 <= i < self.nodes@.len() implies self.index@.contains_key(
                        packed((#[trigger] self.nodes@[i]).key()),
                    ) && self.index@[packed(self.nodes@[i].key())] == i by {
                        if i < at {
                            lemma_packed_injective(before[i].key(), (idx, nth));
                            assert(g[i].key == before[i].key());
                        }
                    }
                    let goal = absorbed(g, (idx, nth), w as nat);
                    assert forall|i: int| 0 <= i < self@.len() implies self@[i] == goal[i] by {
                        if i < at {
                            assert(self@[i].children =~= g[i].children);
                        } else {
                            assert(self@[i].children =~= Seq::empty());
                        }
                    }
                    assert(self@ =~= goal);
                    lemma_weight_upto_same(g, self@, g.len() as int);
                }
                at
            },
        }
    }

    /// Makes the node at `child` a child of the node at `parent`, where it
    /// was none.
    fn link(&mut self, parent: usize, child: usize)
        requires
            old(self).wf(),
            parent < old(self)@.len(),
            child < old(self)@.len(),
        ensures
            final(self).wf(),
            final(self)@ == linked(
                old(self)@,
                old(self)@[parent as int].key,
                old(self)@[child as int].key,
            ),
            final(self)@.len() == old(self)@.len(),
            graph_weight(final(self)@) == graph_weight(old(self)@),
            forall|i: int| 0 <= i < old(self)@.len() ==> (#[trigger] final(self)@[i]).key == old(self)@[i].key,
    {
        let ghost g = self@;
        let ghost before = self.nodes@;
        proof {
            lemma_stored_well_formed(self.nodes@, self.index@);
            assert(g[parent as int].key == before[parent as int].key());
            lemma_position(g, parent as int);
        }
        let mut p: usize = 0;
        let mut found = false;
        while p < self.nodes[parent].children.len()
            invariant
                self.nodes@ == before,
                parent < before.len(),
                p <= before[parent as int].children@.len(),
                found ==> before[parent as int].children@.contains(child),
                !found ==> forall|q: int| 0 <= q < p ==> before[parent as int].children@[q] != child,
            decreases before[parent as int].children@.len() - p,
        {
            if self.nodes[parent].children[p] == child {
                found = true;
            }
            p += 1;
        }
        proof {
            let kids = g[parent as int].children;
            let key = g[child as int].key;
            if found {
                let q = choose|q: int|
                    0 <= q < before[parent as int].children@.len() && before[parent as int].children@[q]
                        == child;
                assert(kids[q] == key);
            } else {
                assert forall|q: int| 0 <= q < kids.len() implies kids[q] != key by {
                    let c = before[parent as int].children@[q] as int;
                    assert(c != child);
                    if c < child {
                        assert(before[c].key() != before[child as int].key());
                    } else {
                        assert(before[child as int].key() != before[c].key());
                    }
                }
            }
            assert(found == kids.contains(key));
        }
        if !found {
            self.nodes[parent].children.push(child);
            proof {
                assert forall|i: int| 0 <= i < self.nodes@.len() implies (#[trigger] self.nodes@[i]).key()
                    == before[i].key() && self.nodes@[i].weight == before[i].weight && (i != parent
                    ==> self.nodes@[i].children == before[i].children) by {}
                assert(self.nodes@[parent as int].children@ == before[parent as int].children@.push(
                    child,
                ));
                assert(self@[parent as int].children =~= g[parent as int].children.push(
                    g[child as int].key,
                ));
                let goal = linked(g, g[parent as int].key, g[child as int].key);
                assert forall|i: int| 0 <= i < g.len() implies self@[i] == goal[i] by {
                    if i != parent {
                        assert(self@[i].children =~= g[i].children);
                    }
                }
                assert(self@ =~= goal);
                lemma_weight_upto_same(g, self@, g.len() as int);
            }
        }
    }

    /// Records one execution, given as the keys it visited in order: each
    /// key is counted once more, and each step from one key to the next is
    /// kept as a child link, the first step starting at the root.
    pub fn add_trace(&mut self, trace: Vec<(u32, u8)>)
        requires
            old(self).wf(),
            graph_weight(old(self)@) + trace@.len() <= u64::MAX,
        ensures
            final(self).wf(),
            final(self)@ == walked(old(self)@, trace@),
            graph_weight(final(self)@) == graph_weight(old(self)@) + trace@.len(),
    {
        let mut from: usize = 0;
        let mut n: usize = 0;
        proof {
            lemma_stored_well_formed(self.nodes@, self.index@);
        }
        while n < trace.len()
            invariant
                n <= trace.len(),
                self.wf(),
                self@ == walked_upto(old(self)@, trace@, n as int),
                graph_weight(self@) == graph_weight(old(self)@) + n,
                graph_weight(old(self)@) + trace@.len() <= u64::MAX,
                from < self@.len(),
                self@[from as int].key == stand(trace@, n as int),
            decreases trace.len() - n,
        {
            let (idx, nth) = trace[n];
            let to = self.absorb(idx, nth, 1);
            self.link(from, to);
            from = to;
            n += 1;
        }
    }

    /// Sets the weight of a key, in a new node where the graph had none for
    /// it, unless the graph would then weigh more than it can hold.
    fn assign(&mut self, idx: u32, nth: u8, w: u64) -> (done: bool)
        requires
            old(self).wf(),
        ensures
            final(self).wf(),
            done == (graph_weight(assigned(old(self)@, (idx, nth), w as nat)) <= u64::MAX),
            done ==> final(self)@ == assigned(old(self)@, (idx, nth), w as nat),
            !done ==> final(self)@ == old(self)@,
    {
        let k = pack_key(idx, nth);
        let ghost g = self@;
        let ghost before = self.nodes@;
        let ghost goal = assigned(g, (idx, nth), w as nat);
        proof {
            lemma_has_key(self.nodes@, self.index@, (idx, nth));
        }
        let found: Option<usize> = match self.index.get(&k) {
            Some(at) => Some(*at),
            None => None,
        };
        match found {
            Some(at) => {
                proof {
                    lemma_weight_upto_grows(g, at as int + 1, g.len() as int);
                    lemma_weight_upto_changed(g, goal, at as int, g.len() as int);
                }
                let rest = self.total - self.nodes[at].weight;
                if w > u64::MAX - rest {
                    return false;
                }
                self.nodes[at].weight = w;
                self.total = rest + w;
                proof {
                    assert forall|i: int| 0 <= i < self.nodes@.len() implies (#[trigger] self.nodes@[i]).key()
                        == before[i].key() && self.nodes@[i].children == before[i].children by {}
                    assert forall|i: int| 0 <= i < g.len() implies self@[i] == goal[i] by {
                        assert(self@[i].children =~= g[i].children);
                    }
                    assert(self@ =~= goal);
                }
                true
            },
            None => {
                proof {
                    lemma_weight_upto_same(g, goal, g.len() as int);
                }
                if w > u64::MAX - self.total {
                    return false;
                }
                let at = self.nodes.len();
                self.nodes.push(Slot { idx, nth, weight: w, children: Vec::new() });
                self.index.insert(k, at);
                self.total += w;
                proof {
                    assert forall|i: int| 0 <= i < before.len() implies self.nodes@[i] == before[i] by {}
                    assert forall|i: int, j: int| 0 <= i < j < self.nodes@.len() implies (
                    #[trigger] self.nodes@[i]).key() != (#[trigger] self.nodes@[j]).key() by {
                        if j == at {
                            assert(g[i].key == before[i].key());
                        }
                    }
                    assert forall|i: int| 0 <= i < self.nodes@.len() implies self.index@.contains_key(
                        packed((#[trigger] self.nodes@[i]).key()),
                    ) && self.index@[packed(self.nodes@[i].key())] == i by {
                        if i < at {
                            lemma_packed_injective(before[i].key(), (idx, nth));
                            assert(g[i].key == before[i].key());
                        }
                    }
                    assert forall|i: int| 0 <= i < self@.len() implies self@[i] == goal[i] by {
                        if i < at {
                            assert(self@[i].children =~= g[i].children);
                        } else {
                            assert(self@[i].children =~= Seq::empty());
                        }
                    }
                    assert(self@ =~= goal);
                }
                true
            },
        }
    }

    /// The nodes and child links of the graph as they go over the wire.
    pub fn to_parts(&self) -> (parts: SerializableDGraph)
        requires
            self.wf(),
        ensures
            parts.nodes@ == node_entries(self@),
            parts.edges@ == edge_entries(self@),
    {
        let ghost g = self@;
        let mut nodes: Vec<(u32, u8, u64)> = Vec::new();
        let mut edges: Vec<(u32, u32)> = Vec::new();
        let mut i: usize = 0;
        while i < self.nodes.len()
            invariant
                i <= self.nodes.len(),
                self.wf(),
                g == self@,
                nodes@.len() == i,
                forall|j: int| 0 <= j < i ==> nodes@[j] == node_entries(g)[j],
                edges@ == edge_entries_upto(g, i as int),
            decreases self.nodes.len() - i,
        {
            nodes.push((self.nodes[i].idx, self.nodes[i].nth, self.nodes[i].weight));
            let ghost start = edges@;
            let mut p: usize = 0;
            while p < self.nodes[i].children.len()
                invariant
                    i < self.nodes.len(),
                    p <= self.nodes@[i as int].children@.len(),
                    self.wf(),
                    g == self@,
                    edges@.len() == start.len() + p,
                    forall|q: int| 0 <= q < start.len() ==> edges@[q] == start[q],
                    forall|q: int| 0 <= q < p ==> edges@[start.len() + q] == child_entries(g[i as int])[q],
                decreases self.nodes@[i as int].children@.len() - p,
            {
                let c = self.nodes[i].children[p];
                edges.push((self.nodes[i].idx, self.nodes[c].idx));
                p += 1;
            }
            assert(edges@ =~= start + child_entries(g[i as int]));
            i += 1;
        }
        assert(nodes@ =~= node_entries(g));
        SerializableDGraph { nodes, edges }
    }

    /// The graph that nodes and child links read from the wire stand for:
    /// the root, then the nodes in the order read, each child link taken
    /// between the first visits of its two edges. Refused are links to an
    /// edge whose first visit is no node, and nodes that weigh more together
    /// than a graph can hold.
    pub fn from_parts(parts: &SerializableDGraph) -> (graph: Result<DGraph, GraphError>)
        ensures
            match graph {
                Ok(graph) => graph.wf() && rebuilt(parts.nodes@, parts.edges@) == Some(graph@),
                Err(error) => error == GraphError::MalformedGraph && rebuilt(
                    parts.nodes@,
                    parts.edges@,
                ) is None,
            },
    {
        let mut graph = DGraph::new();
        let mut i: usize = 0;
        while i < parts.nodes.len()
            invariant
                i <= parts.nodes.len(),
                graph.wf(),
                graph@ == placed_upto(parts.nodes@, i as int),
                holds_upto(parts.nodes@, i as int),
            decreases parts.nodes.len() - i,
        {
            let (idx, nth, weight) = parts.nodes[i];
            if !graph.assign(idx, nth, weight) {
                assert(!holds_upto(parts.nodes@, parts.nodes@.len() as int)) by {
                    assert(graph_weight(placed_upto(parts.nodes@, i as int + 1)) > u64::MAX);
                }
                return Err(GraphError::MalformedGraph);
            }
            assert(holds_upto(parts.nodes@, i as int + 1)) by {
                assert forall|j: int| 0 <= j <= i + 1 implies graph_weight(
                    #[trigger] placed_upto(parts.nodes@, j),
                ) <= u64::MAX by {
                    if j == i + 1 {
                        graph.lemma_wf();
                    }
                }
            }
            i += 1;
        }
        let ghost placed = graph@;
        let mut j: usize = 0;
        while j < parts.edges.len()
            invariant
                j <= parts.edges.len(),
                graph.wf(),
                placed == placed_upto(parts.nodes@, parts.nodes@.len() as int),
                holds_upto(parts.nodes@, parts.nodes@.len() as int),
                graph@ == wired_upto(placed, parts.edges@, j as int),
                graph@.len() == placed.len(),
                forall|i: int| 0 <= i < placed.len() ==> (#[trigger] graph@[i]).key == placed[i].key,
                forall|i: int|
                    0 <= i < j ==> has_key(placed, first_visit((#[trigger] parts.edges@[i]).0))
                        && has_key(placed, first_visit(parts.edges@[i].1)),
            decreases parts.edges.len() - j,
        {
            let (from, to) = parts.edges[j];
            proof {
                lemma_same_keys(graph@, placed, first_visit(from));
                lemma_same_keys(graph@, placed, first_visit(to));
            }
            if !graph.contains(from, 0) || !graph.contains(to, 0) {
                return Err(GraphError::MalformedGraph);
            }
            let parent = graph.find(from, 0);
            let child = graph.find(to, 0);
            graph.link(parent, child);
            j += 1;
        }
        Ok(graph)
    }

    /// The graph in its wire form.
    pub fn serialize(&self) -> (bytes: Vec<u8>)
        requires
            self.wf(),
        ensures
            bytes@ == encoding(node_entries(self@), edge_entries(self@)),
    {
        self.to_parts().to_bytes()
    }

    /// The graph that the bytes stand for. Bytes that stand for none are
    /// refused.
    pub fn deserialize(bytes: Vec<u8>) -> (graph: Result<DGraph, GraphError>)
        ensures
            match graph {
                Ok(graph) => graph.wf() && decoded(bytes@) == Some(graph@),
                Err(error) => error == GraphError::MalformedGraph && decoded(bytes@) is None,
            },
    {
        match SerializableDGraph::from_bytes(&bytes) {
            Ok(parts) => DGraph::from_parts(&parts),
            Err(error) => Err(error),
        }
    }

    /// Where the node with this key stands.
    fn find(&self, idx: u32, nth: u8) -> (at: usize)
        requires
            self.wf(),
            has_key(self@, (idx, nth)),
        ensures
            at < self@.len(),
            self@[at as int].key == (idx, nth),
    {
        proof {
            lemma_has_key(self.nodes@, self.index@, (idx, nth));
        }
        let at = self.index.get(&pack_key(idx, nth));
        *at.unwrap()
    }

    /// Takes `other` into the graph: every node of `other` is counted with
    /// its weight, in a new node where the graph had none for its key, and
    /// every child link of `other` is kept.
    pub fn merge(&mut self, other: &DGraph)
        requires
            old(self).wf(),
            other.wf(),
            graph_weight(old(self)@) + graph_weight(other@) <= u64::MAX,
        ensures
            final(self).wf(),
            final(self)@ == merged(old(self)@, other@),
            graph_weight(final(self)@) == graph_weight(old(self)@) + graph_weight(other@),
    {
        let ghost theirs = other@;
        let mut j: usize = 0;
        while j < other.nodes.len()
            invariant
                j <= other.nodes.len(),
                other.wf(),
                theirs == other@,
                self.wf(),
                self@ == absorbed_upto(old(self)@, theirs, j as int),
                graph_weight(self@) == graph_weight(old(self)@) + weight_upto(theirs, j as int),
                graph_weight(old(self)@) + graph_weight(theirs) <= u64::MAX,
                forall|i: int| 0 <= i < j ==> has_key(self@, (#[trigger] theirs[i]).key),
            decreases other.nodes.len() - j,
        {
            proof {
                lemma_weight_upto_grows(theirs, j as int + 1, theirs.len() as int);
            }
            let ghost before = self@;
            let at = self.absorb(other.nodes[j].idx, other.nodes[j].nth, other.nodes[j].weight);
            proof {
                assert forall|i: int| 0 <= i < j + 1 implies has_key(self@, (#[trigger] theirs[i]).key) by {
                    if i < j {
                        let p = position(before, theirs[i].key);
                        assert(self@[p].key == theirs[i].key);
                    } else {
                        assert(self@[at as int].key == theirs[i].key);
                    }
                }
            }
            j += 1;
        }
        let ghost taken = self@;
        let mut j: usize = 0;
        while j < other.nodes.len()
            invariant
                j <= other.nodes.len(),
                other.wf(),
                theirs == other@,
                self.wf(),
                self@ == adopted_upto(taken, theirs, j as int),
                graph_weight(self@) == graph_weight(taken),
                forall|i: int| 0 <= i < theirs.len() ==> has_key(self@, (#[trigger] theirs[i]).key),
            decreases other.nodes.len() - j,
        {
            assert(theirs[j as int].key == (other.nodes@[j as int].idx, other.nodes@[j as int].nth));
            let parent = self.find(other.nodes[j].idx, other.nodes[j].nth);
            let ghost start = self@;
            let mut p: usize = 0;
            while p < other.nodes[j].children.len()
                invariant
                    j < other.nodes.len(),
                    p <= other.nodes@[j as int].children@.len(),
                    other.wf(),
                    theirs == other@,
                    self.wf(),
                    parent < self@.len(),
                    self@[parent as int].key == theirs[j as int].key,
                    self@ == linked_upto(start, theirs[j as int].key, theirs[j as int].children, p as int),
                    graph_weight(self@) == graph_weight(taken),
                    forall|i: int| 0 <= i < theirs.len() ==> has_key(self@, (#[trigger] theirs[i]).key),
                decreases other.nodes@[j as int].children@.len() - p,
            {
                let c = other.nodes[j].children[p];
                assert(theirs[c as int].key == theirs[j as int].children[p as int]);
                assert(theirs[c as int].key == (other.nodes@[c as int].idx, other.nodes@[c as int].nth));
                let child = self.find(other.nodes[c].idx, other.nodes[c].nth);
                let ghost before = self@;
                self.link(parent, child);
                proof {
                    assert forall|i: int| 0 <= i < theirs.len() implies has_key(
                        self@,
                        (#[trigger] theirs[i]).key,
                    ) by {
                        let q = position(before, theirs[i].key);
                        assert(self@[q].key == theirs[i].key);
                    }
                }
                p += 1;
            }
            j += 1;
        }
    }

    /// Takes `other` into the graph as [`DGraph::merge`] does, unless both
    /// together weigh more than a graph can hold: then the graph stays as it
    /// is.
    pub fn try_merge(&mut self, other: &DGraph) -> (done: Result<(), GraphError>)
        requires
            old(self).wf(),
            other.wf(),
        ensures
            final(self).wf(),
            match done {
                Ok(_) => {
                    &&& graph_weight(old(self)@) + graph_weight(other@) <= u64::MAX
                    &&& final(self)@ == merged(old(self)@, other@)
                },
                Err(error) => {
                    &&& error == GraphError::MalformedGraph
                    &&& graph_weight(old(self)@) + graph_weight(other@) > u64::MAX
                    &&& final(self)@ == old(self)@
                },
            },
    {
        if other.total > u64::MAX - self.total {
            return Err(GraphError::MalformedGraph);
        }
        self.merge(other);
        Ok(())
    }

    /// Cuts the nodes, in the order the graph holds them, into `k` plans:
    /// each holds the `k`th part of the nodes, rounded down, and the last
    /// also what is left over. A plan weighs what its nodes weigh.
    pub fn partition(&mut self, k: usize) -> (plans: Result<Vec<PartitionPlan>, GraphError>)
        requires
            old(self).wf(),
        ensures
            final(self).wf(),
            final(self)@ == old(self)@,
            match plans {
                Ok(plans) => {
                    &&& 1 <= k <= old(self)@.len()
                    &&& plan_views(plans@) == flat_partition(old(self)@, k as int)
                },
                Err(error) => {
                    &&& error == GraphError::InvalidArity
                    &&& (k == 0 || k > old(self)@.len())
                },
            },
    {
        let n = self.nodes.len();
        if k == 0 || k > n {
            return Err(GraphError::InvalidArity);
        }
        let size = n / k;
        let ghost g = self@;
        let mut plans: Vec<PartitionPlan> = Vec::new();
        let mut j: usize = 0;
        let mut at: usize = 0;
        proof {
            assert(k * size <= n) by (nonlinear_arith)
                requires
                    size == n / k,
                    k > 0,
            ;
        }
        while j < k
            invariant
                j <= k,
                1 <= k <= n,
                n == self.nodes.len(),
                size == n / k,
                k * size <= n,
                g == self@,
                self.wf(),
                j < k ==> at == chunk_start(n as int, k as int, j as int),
                plans@.len() == j,
                forall|i: int|
                    0 <= i < j ==> (#[trigger] plans@[i])@ == chunk_plan(
                        g,
                        chunk_start(n as int, k as int, i),
                        chunk_end(n as int, k as int, i),
                    ),
            decreases k - j,
        {
            proof {
                assert((j + 1) * size == j * size + size) by (nonlinear_arith);
                assert((j + 1) * size <= k * size) by (nonlinear_arith)
                    requires
                        j + 1 <= k,
                ;
            }
            let end: usize = if j == k - 1 {
                n
            } else {
                at + size
            };
            let mut plan = PartitionPlan::new();
            let mut i: usize = at;
            assert(plan@.plan =~= chunk_plan(g, at as int, i as int).plan);
            while i < end
                invariant
                    at <= i <= end <= n,
                    n == self.nodes.len(),
                    g == self@,
                    self.wf(),
                    plan@ == chunk_plan(g, at as int, i as int),
                decreases end - i,
            {
                proof {
                    lemma_weight_upto_grows(g, 0, at as int);
                    lemma_weight_upto_grows(g, i as int + 1, n as int);
                    lemma_weight_upto_grows(g, at as int, i as int);
                }
                plan.plan.push((self.nodes[i].idx, self.nodes[i].nth));
                plan.weight = plan.weight + self.nodes[i].weight;
                i += 1;
                assert(plan@.plan =~= chunk_plan(g, at as int, i as int).plan);
            }
            plans.push(plan);
            at = end;
            j += 1;
        }
        assert(plan_views(plans@) =~= flat_partition(g, k as int));
        Ok(plans)
    }

    /// The key of the node at position `at`.
    pub fn key_at(&self, at: usize) -> (key: (u32, u8))
        requires
            at < self@.len(),
        ensures
            key == self@[at as int].key,
    {
        (self.nodes[at].idx, self.nodes[at].nth)
    }
}

/// A key as one number, for the table of positions.
fn pack_key(idx: u32, nth: u8) -> (k: u64)
    ensures
        k == packed((idx, nth)),
{
    (idx as u64) * 256 + (nth as u64)
}

} // verus!
