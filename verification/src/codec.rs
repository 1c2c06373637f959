//! The wire form of a graph.

use vstd::prelude::*;
use vstd::bytes::{
    lemma_auto_spec_u32_to_from_le_bytes, lemma_auto_spec_u64_to_from_le_bytes,
    spec_u32_from_le_bytes, spec_u32_to_le_bytes, spec_u64_from_le_bytes, spec_u64_to_le_bytes,
};
use crate::error::GraphError;

verus! {

/// A node as it goes over the wire: edge, visit, weight.
pub type NodeEntry = (u32, u8, u64);

/// A child link as it goes over the wire: the edge of the parent and the
/// edge of the child.
pub type EdgeEntry = (u32, u32);

/// A graph taken apart for the wire.
#[derive(Debug)]
pub struct SerializableDGraph {
    /// Every node with its weight.
    pub nodes: Vec<(u32, u8, u64)>,
    /// Every child link, by the edges of its two ends.
    pub edges: Vec<(u32, u32)>,
}

/// The 13 bytes of a node: edge and weight little-endian, the visit between
/// them.
pub open spec fn node_bytes(entry: NodeEntry) -> Seq<u8> {
    spec_u32_to_le_bytes(entry.0) + seq![entry.1] + spec_u64_to_le_bytes(entry.2)
}

/// The 8 bytes of a child link: both edges little-endian.
pub open spec fn edge_bytes(entry: EdgeEntry) -> Seq<u8> {
    spec_u32_to_le_bytes(entry.0) + spec_u32_to_le_bytes(entry.1)
}

/// The bytes of the first `n` nodes, one after the other.
pub open spec fn nodes_bytes(nodes: Seq<NodeEntry>, n: int) -> Seq<u8>
    decreases n,
{
    if n <= 0 {
        Seq::empty()
    } else {
        nodes_bytes(nodes, n - 1) + node_bytes(nodes[n - 1])
    }
}

/// The bytes of the first `m` child links, one after the other.
pub open spec fn edges_bytes(edges: Seq<EdgeEntry>, m: int) -> Seq<u8>
    decreases m,
{
    if m <= 0 {
        Seq::empty()
    } else {
        edges_bytes(edges, m - 1) + edge_bytes(edges[m - 1])
    }
}

/// The wire form of a graph: the number of nodes in 8 bytes little-endian,
/// the nodes, the number of child links in 8 bytes little-endian, the links.
pub open spec fn encoding(nodes: Seq<NodeEntry>, edges: Seq<EdgeEntry>) -> Seq<u8> {
    spec_u64_to_le_bytes(nodes.len() as u64) + nodes_bytes(nodes, nodes.len() as int)
        + spec_u64_to_le_bytes(edges.len() as u64) + edges_bytes(edges, edges.len() as int)
}

/// The node read from the 13 bytes at `at`.
pub open spec fn node_at(bytes: Seq<u8>, at: int) -> NodeEntry {
    (
        spec_u32_from_le_bytes(bytes.subrange(at, at + 4)),
        bytes[at + 4],
        spec_u64_from_le_bytes(bytes.subrange(at + 5, at + 13)),
    )
}

/// The child link read from the 8 bytes at `at`.
pub open spec fn edge_at(bytes: Seq<u8>, at: int) -> EdgeEntry {
    (
        spec_u32_from_le_bytes(bytes.subrange(at, at + 4)),
        spec_u32_from_le_bytes(bytes.subrange(at + 4, at + 8)),
    )
}

/// The number of nodes that the bytes announce.
pub open spec fn node_count(bytes: Seq<u8>) -> int {
    spec_u64_from_le_bytes(bytes.subrange(0, 8)) as int
}

/// The number of child links that the bytes announce behind their nodes.
pub open spec fn edge_count(bytes: Seq<u8>) -> int {
    spec_u64_from_le_bytes(
        bytes.subrange(8 + 13 * node_count(bytes), 16 + 13 * node_count(bytes)),
    ) as int
}

/// Whether the bytes are at least as long as the two counts in them say.
pub open spec fn reaches(bytes: Seq<u8>) -> bool {
    &&& bytes.len() >= 16
    &&& 16 + 13 * node_count(bytes) <= bytes.len()
    &&& 16 + 13 * node_count(bytes) + 8 * edge_count(bytes) <= bytes.len()
}

/// Whether the bytes are as long as the two counts in them say, no shorter
/// and no longer.
pub open spec fn conforms(bytes: Seq<u8>) -> bool {
    reaches(bytes) && 16 + 13 * node_count(bytes) + 8 * edge_count(bytes) == bytes.len()
}

/// The nodes and child links that the counts in the bytes announce, read
/// one after the other.
pub open spec fn held(bytes: Seq<u8>) -> (Seq<NodeEntry>, Seq<EdgeEntry>) {
    (
        Seq::new(node_count(bytes) as nat, |i: int| node_at(bytes, 8 + 13 * i)),
        Seq::new(
            edge_count(bytes) as nat,
            |i: int| edge_at(bytes, 16 + 13 * node_count(bytes) + 8 * i),
        ),
    )
}

/// What a reader finds at the start of the bytes, whatever follows: nothing
/// where the bytes end before the counts in them are met.
pub open spec fn read(bytes: Seq<u8>) -> Option<(Seq<NodeEntry>, Seq<EdgeEntry>)> {
    if reaches(bytes) {
        Some(held(bytes))
    } else {
        None
    }
}

/// What the bytes hold, where they conform.
pub open spec fn parsed(bytes: Seq<u8>) -> Option<(Seq<NodeEntry>, Seq<EdgeEntry>)> {
    if conforms(bytes) {
        Some(held(bytes))
    } else {
        None
    }
}

proof fn lemma_nodes_bytes_len(nodes: Seq<NodeEntry>, n: int)
    requires
        0 <= n,
    ensures
        nodes_bytes(nodes, n).len() == 13 * n,
    decreases n,
{
    lemma_auto_spec_u32_to_from_le_bytes();
    lemma_auto_spec_u64_to_from_le_bytes();
    if n > 0 {
        lemma_nodes_bytes_len(nodes, n - 1);
    }
}

proof fn lemma_edges_bytes_len(edges: Seq<EdgeEntry>, m: int)
    requires
        0 <= m,
    ensures
        edges_bytes(edges, m).len() == 8 * m,
    decreases m,
{
    lemma_auto_spec_u32_to_from_le_bytes();
    if m > 0 {
        lemma_edges_bytes_len(edges, m - 1);
    }
}

proof fn lemma_nodes_bytes_at(nodes: Seq<NodeEntry>, n: int, i: int)
    requires
        0 <= i < n,
    ensures
        nodes_bytes(nodes, n).len() == 13 * n,
        nodes_bytes(nodes, n).subrange(13 * i, 13 * i + 13) == node_bytes(nodes[i]),
    decreases n,
{
    lemma_auto_spec_u32_to_from_le_bytes();
    lemma_auto_spec_u64_to_from_le_bytes();
    lemma_nodes_bytes_len(nodes, n);
    lemma_nodes_bytes_len(nodes, n - 1);
    if i < n - 1 {
        lemma_nodes_bytes_at(nodes, n - 1, i);
        assert(nodes_bytes(nodes, n).subrange(13 * i, 13 * i + 13) =~= nodes_bytes(
            nodes,
            n - 1,
        ).subrange(13 * i, 13 * i + 13));
    } else {
        assert(nodes_bytes(nodes, n).subrange(13 * i, 13 * i + 13) =~= node_bytes(nodes[i]));
    }
}

proof fn lemma_edges_bytes_at(edges: Seq<EdgeEntry>, m: int, i: int)
    requires
        0 <= i < m,
    ensures
        edges_bytes(edges, m).len() == 8 * m,
        edges_bytes(edges, m).subrange(8 * i, 8 * i + 8) == edge_bytes(edges[i]),
    decreases m,
{
    lemma_auto_spec_u32_to_from_le_bytes();
    lemma_edges_bytes_len(edges, m);
    lemma_edges_bytes_len(edges, m - 1);
    if i < m - 1 {
        lemma_edges_bytes_at(edges, m - 1, i);
        assert(edges_bytes(edges, m).subrange(8 * i, 8 * i + 8) =~= edges_bytes(
            edges,
            m - 1,
        ).subrange(8 * i, 8 * i + 8));
    } else {
        assert(edges_bytes(edges, m).subrange(8 * i, 8 * i + 8) =~= edge_bytes(edges[i]));
    }
}

/// Reading the wire form of a graph gives the graph back.
pub proof fn lemma_parsed_encoding(nodes: Seq<NodeEntry>, edges: Seq<EdgeEntry>)
    requires
        nodes.len() <= u64::MAX,
        edges.len() <= u64::MAX,
    ensures
        parsed(encoding(nodes, edges)) == Some((nodes, edges)),
{
    lemma_auto_spec_u32_to_from_le_bytes();
    lemma_auto_spec_u64_to_from_le_bytes();
    let n = nodes.len() as int;
    let m = edges.len() as int;
    let b = encoding(nodes, edges);
    lemma_nodes_bytes_len(nodes, n);
    lemma_edges_bytes_len(edges, m);
    assert(b.len() == 16 + 13 * n + 8 * m);
    assert(b.subrange(0, 8) =~= spec_u64_to_le_bytes(nodes.len() as u64));
    assert(node_count(b) == n);
    assert(b.subrange(8 + 13 * n, 16 + 13 * n) =~= spec_u64_to_le_bytes(edges.len() as u64));
    assert(edge_count(b) == m);
    assert(conforms(b));
    let got = parsed(b)->0;
    assert forall|i: int| 0 <= i < n implies got.0[i] == nodes[i] by {
        lemma_nodes_bytes_at(nodes, n, i);
        let at = 8 + 13 * i;
        assert(b.subrange(at, at + 13) =~= nodes_bytes(nodes, n).subrange(13 * i, 13 * i + 13));
        let entry = node_bytes(nodes[i]);
        assert(b.subrange(at, at + 4) =~= entry.subrange(0, 4));
        assert(entry.subrange(0, 4) =~= spec_u32_to_le_bytes(nodes[i].0));
        assert(b[at + 4] == entry[4]);
        assert(b.subrange(at + 5, at + 13) =~= entry.subrange(5, 13));
        assert(entry.subrange(5, 13) =~= spec_u64_to_le_bytes(nodes[i].2));
    }
    assert forall|i: int| 0 <= i < m implies got.1[i] == edges[i] by {
        lemma_edges_bytes_at(edges, m, i);
        let at = 16 + 13 * n + 8 * i;
        assert(b.subrange(at, at + 8) =~= edges_bytes(edges, m).subrange(8 * i, 8 * i + 8));
        let entry = edge_bytes(edges[i]);
        assert(b.subrange(at, at + 4) =~= entry.subrange(0, 4));
        assert(entry.subrange(0, 4) =~= spec_u32_to_le_bytes(edges[i].0));
        assert(b.subrange(at + 4, at + 8) =~= entry.subrange(4, 8));
        assert(entry.subrange(4, 8) =~= spec_u32_to_le_bytes(edges[i].1));
    }
    assert(got.0 =~= nodes);
    assert(got.1 =~= edges);
}

proof fn lemma_nodes_bytes_back(bytes: Seq<u8>, nodes: Seq<NodeEntry>, n: int)
    requires
        0 <= n <= nodes.len(),
        8 + 13 * n <= bytes.len(),
        forall|i: int| 0 <= i < n ==> nodes[i] == node_at(bytes, 8 + 13 * i),
    ensures
        nodes_bytes(nodes, n) == bytes.subrange(8, 8 + 13 * n),
    decreases n,
{
    lemma_auto_spec_u32_to_from_le_bytes();
    lemma_auto_spec_u64_to_from_le_bytes();
    if n > 0 {
        lemma_nodes_bytes_back(bytes, nodes, n - 1);
        let at = 8 + 13 * (n - 1);
        assert(node_bytes(nodes[n - 1]) =~= bytes.subrange(at, at + 13)) by {
            assert(spec_u32_to_le_bytes(nodes[n - 1].0) == bytes.subrange(at, at + 4));
            assert(spec_u64_to_le_bytes(nodes[n - 1].2) == bytes.subrange(at + 5, at + 13));
        }
        assert(nodes_bytes(nodes, n) =~= bytes.subrange(8, 8 + 13 * n));
    } else {
        assert(nodes_bytes(nodes, n) =~= bytes.subrange(8, 8 + 13 * n));
    }
}

proof fn lemma_edges_bytes_back(bytes: Seq<u8>, edges: Seq<EdgeEntry>, from: int, m: int)
    requires
        0 <= m <= edges.len(),
        0 <= from,
        from + 8 * m <= bytes.len(),
        forall|i: int| 0 <= i < m ==> edges[i] == edge_at(bytes, from + 8 * i),
    ensures
        edges_bytes(edges, m) == bytes.subrange(from, from + 8 * m),
    decreases m,
{
    lemma_auto_spec_u32_to_from_le_bytes();
    if m > 0 {
        lemma_edges_bytes_back(bytes, edges, from, m - 1);
        let at = from + 8 * (m - 1);
        assert(edge_bytes(edges[m - 1]) =~= bytes.subrange(at, at + 8)) by {
            assert(spec_u32_to_le_bytes(edges[m - 1].0) == bytes.subrange(at, at + 4));
            assert(spec_u32_to_le_bytes(edges[m - 1].1) == bytes.subrange(at + 4, at + 8));
        }
        assert(edges_bytes(edges, m) =~= bytes.subrange(from, from + 8 * m));
    } else {
        assert(edges_bytes(edges, m) =~= bytes.subrange(from, from + 8 * m));
    }
}

/// Bytes that conform are the wire form of what they hold.
pub proof fn lemma_encoding_parsed(bytes: Seq<u8>)
    requires
        conforms(bytes),
    ensures
        ({
            let (nodes, edges) = parsed(bytes)->0;
            encoding(nodes, edges) == bytes
        }),
{
    lemma_auto_spec_u32_to_from_le_bytes();
    lemma_auto_spec_u64_to_from_le_bytes();
    let (nodes, edges) = parsed(bytes)->0;
    let n = node_count(bytes);
    let m = edge_count(bytes);
    lemma_nodes_bytes_back(bytes, nodes, n);
    lemma_edges_bytes_back(bytes, edges, 16 + 13 * n, m);
    assert(spec_u64_to_le_bytes(nodes.len() as u64) == bytes.subrange(0, 8));
    assert(spec_u64_to_le_bytes(edges.len() as u64) == bytes.subrange(8 + 13 * n, 16 + 13 * n));
    assert(encoding(nodes, edges) =~= bytes);
}

/// `bincode::serialize` on the nodes and the child links of a graph, given
/// as a pair of lists. With the settings of that function bincode writes
/// every integer in its full width, lowest byte first, a list as its length
/// in 64 bits and then its items, and a pair or triple as its parts one
/// after the other. It writes into a vector and sets no limit on the size,
/// so that it has no error to give for such lists. The contract claims that
/// the bytes are the wire form.
#[verifier::external_body]
fn bincode_serialize(nodes: &Vec<NodeEntry>, edges: &Vec<EdgeEntry>) -> (bytes: Vec<u8>)
    ensures
        bytes@ == encoding(nodes@, edges@),
{
    bincode::serialize(&(nodes, edges)).unwrap_or_default()
}

/// `bincode::deserialize` for the nodes and the child links of a graph, as
/// a pair of lists. With the settings of that function bincode reads the
/// length of a list in 64 bits and then that many items, every integer in
/// its full width, lowest byte first; it gives an error where the bytes end
/// too early, and does not look at bytes that follow the second list. The
/// contract claims that the call gives what stands at the start of the
/// bytes, and nothing where they end before their counts are met.
#[verifier::external_body]
fn bincode_deserialize(bytes: &Vec<u8>) -> (parts: Option<(Vec<NodeEntry>, Vec<EdgeEntry>)>)
    ensures
        match parts {
            Some((nodes, edges)) => read(bytes@) == Some((nodes@, edges@)),
            None => read(bytes@) is None,
        },
{
    bincode::deserialize(bytes.as_slice()).ok()
}

impl SerializableDGraph {
    /// The wire form.
    pub fn to_bytes(&self) -> (bytes: Vec<u8>)
        ensures
            bytes@ == encoding(self.nodes@, self.edges@),
    {
        bincode_serialize(&self.nodes, &self.edges)
    }

    /// Reads the wire form. Bytes that are shorter or longer than their two
    /// counts say are refused.
    pub fn from_bytes(bytes: &Vec<u8>) -> (parts: Result<SerializableDGraph, GraphError>)
        ensures
            match parts {
                Ok(parts) => parsed(bytes@) == Some((parts.nodes@, parts.edges@)),
                Err(error) => error == GraphError::MalformedGraph && parsed(bytes@) is None,
            },
    {
        match bincode_deserialize(bytes) {
            Some((nodes, edges)) => {
                let room = bytes.len() - 16;
                if 8 * edges.len() == room - 13 * nodes.len() {
                    Ok(SerializableDGraph { nodes, edges })
                } else {
                    Err(GraphError::MalformedGraph)
                }
            },
            None => Err(GraphError::MalformedGraph),
        }
    }
}

} // verus!
