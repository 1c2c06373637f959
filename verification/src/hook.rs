//! What a worker does after each execution and with each novel input.

use vstd::prelude::*;
use std::collections::HashMap;
use crate::dgraph::DGraph;
use crate::model::{graph_weight, walked};
use crate::nodes::Key;
use crate::wire::{encode_frame, framed, MAX_PAYLOAD, TESTCASE};

verus! {

broadcast use vstd::std_specs::hash::group_hash_axioms;

/// How often `edge` occurs among the first `n` entries of an edge trace.
pub open spec fn visits(trace: Seq<u32>, edge: u32, n: int) -> nat
    decreases n,
{
    if n <= 0 {
        0
    } else if trace[n - 1] == edge {
        visits(trace, edge, n - 1) + 1
    } else {
        visits(trace, edge, n - 1)
    }
}

/// The key for the entry `i` of an edge trace: its edge, and how often the
/// edge occurred before, counted round in 255.
pub open spec fn key_at(trace: Seq<u32>, i: int) -> Key {
    (trace[i], (visits(trace, trace[i], i) % 255) as u8)
}

/// The keys that an edge trace stands for, entry by entry.
pub open spec fn trace_keys(trace: Seq<u32>) -> Seq<Key> {
    Seq::new(trace.len(), |i: int| key_at(trace, i))
}

/// Where `target` first occurs in an edge trace; the length of the trace
/// where it does not occur.
pub open spec fn first_at(trace: Seq<u32>, target: usize, from: int) -> int
    decreases trace.len() - from,
{
    if from < 0 || from >= trace.len() || trace[from] as usize == target {
        from
    } else {
        first_at(trace, target, from + 1)
    }
}

/// The edge taken just before `target` was first reached: 0 where `target`
/// opens the trace, and the last edge of the trace where `target` is not in
/// it.
pub open spec fn predecessor(trace: Seq<u32>, target: usize) -> usize {
    let at = first_at(trace, target, 0);
    if at <= 0 {
        0
    } else {
        trace[at - 1] as usize
    }
}

/// The rank that an edge is assigned to; 0, which is no worker's rank, for
/// an edge beyond the table.
pub open spec fn owner(partitions: Seq<u32>, edge: usize) -> u32 {
    if edge < partitions.len() {
        partitions[edge as int]
    } else {
        0
    }
}

/// Whether a testcase goes to the rank `dest`: to a worker other than the
/// one that found it.
pub open spec fn forwards(dest: u32, rank: u32) -> bool {
    dest != 0 && dest != rank
}

/// A message and the rank it goes to.
#[derive(Debug)]
pub struct Outgoing {
    /// The rank that is to get the message.
    pub dest: u32,
    /// The message as the transport carries it.
    pub bytes: Vec<u8>,
}

/// The ranks that a testcase goes to for the first `n` of its interesting
/// edges: for each edge the owner of the edge taken just before it, where
/// that is another worker.
pub open spec fn routes_upto(
    interesting: Seq<usize>,
    trace: Seq<u32>,
    partitions: Seq<u32>,
    rank: u32,
    n: int,
) -> Seq<u32>
    decreases n,
{
    if n <= 0 {
        Seq::empty()
    } else {
        let before = routes_upto(interesting, trace, partitions, rank, n - 1);
        let dest = owner(partitions, predecessor(trace, interesting[n - 1]));
        if forwards(dest, rank) {
            before.push(dest)
        } else {
            before
        }
    }
}

/// The ranks that a testcase goes to. A testcase too long for one frame
/// goes nowhere.
pub open spec fn routes(
    data: Seq<u8>,
    interesting: Seq<usize>,
    trace: Seq<u32>,
    partitions: Seq<u32>,
    rank: u32,
) -> Seq<u32> {
    if data.len() > MAX_PAYLOAD {
        Seq::empty()
    } else {
        routes_upto(interesting, trace, partitions, rank, interesting.len() as int)
    }
}

/// The keys that an edge trace stands for: each edge with the number of its
/// earlier visits in this trace, counted round in 255.
pub fn reconstruct(edge_trace: &[u32]) -> (keys: Vec<(u32, u8)>)
    ensures
        keys@ == trace_keys(edge_trace@),
{
    let mut seen: HashMap<u32, u8> = HashMap::new();
    let mut keys: Vec<(u32, u8)> = Vec::new();
    let mut i: usize = 0;
    while i < edge_trace.len()
        invariant
            i <= edge_trace.len(),
            keys@.len() == i,
            forall|j: int| 0 <= j < i ==> keys@[j] == key_at(edge_trace@, j),
            forall|e: u32|
                if seen@.contains_key(e) {
                    seen@[e] == #[trigger] visits(edge_trace@, e, i as int) % 255
                } else {
                    visits(edge_trace@, e, i as int) == 0
                },
        decreases edge_trace.len() - i,
    {
        let edge = edge_trace[i];
        let nth: u8 = match seen.get(&edge) {
            Some(count) => *count,
            None => 0,
        };
        assert(nth == visits(edge_trace@, edge, i as int) % 255);
        keys.push((edge, nth));
        let next: u8 = if nth >= 254 {
            0
        } else {
            nth + 1
        };
        let ghost counts = seen@;
        seen.insert(edge, next);
        assert forall|e: u32|
            if seen@.contains_key(e) {
                seen@[e] == #[trigger] visits(edge_trace@, e, i as int + 1) % 255
            } else {
                visits(edge_trace@, e, i as int + 1) == 0
            } by {
            let before = visits(edge_trace@, e, i as int);
            assert(if counts.contains_key(e) {
                counts[e] == before % 255
            } else {
                before == 0
            });
        }
        i += 1;
    }
    assert(keys@ =~= trace_keys(edge_trace@));
    keys
}

/// Records one execution in the graph, given the edges it took in order.
pub fn on_execution_finished(graph: &mut DGraph, edge_trace: &[u32])
    requires
        old(graph).wf(),
        graph_weight(old(graph)@) + edge_trace@.len() <= u64::MAX,
    ensures
        final(graph).wf(),
        final(graph)@ == walked(old(graph)@, trace_keys(edge_trace@)),
{
    graph.add_trace(reconstruct(edge_trace));
}

/// The edge taken just before `target` was first reached.
pub fn find_predecessor(edge_trace: &[u32], target: usize) -> (last: usize)
    ensures
        last == predecessor(edge_trace@, target),
{
    let mut last: usize = 0;
    let mut i: usize = 0;
    while i < edge_trace.len()
        invariant
            i <= edge_trace.len(),
            first_at(edge_trace@, target, 0) == first_at(edge_trace@, target, i as int),
            last == if i == 0 {
                0
            } else {
                edge_trace@[i - 1] as usize
            },
        decreases edge_trace.len() - i,
    {
        if edge_trace[i] as usize == target {
            return last;
        }
        last = edge_trace[i] as usize;
        i += 1;
    }
    last
}

/// Says where a testcase that was novel on the edges `interesting` is to be
/// sent: for each of these edges, to the worker that owns the edge taken
/// just before it, unless that is the worker `rank` itself or no worker.
/// The messages carry the testcase as it is.
pub fn on_testcase_found(
    data: &[u8],
    interesting: &[usize],
    edge_trace: &[u32],
    partitions: &[u32],
    rank: u32,
) -> (messages: Vec<Outgoing>)
    ensures
        messages@.len() == routes(data@, interesting@, edge_trace@, partitions@, rank).len(),
        forall|i: int|
            0 <= i < messages@.len() ==> (#[trigger] messages@[i]).dest == routes(
                data@,
                interesting@,
                edge_trace@,
                partitions@,
                rank,
            )[i] && messages@[i].bytes@ == framed(TESTCASE, data@),
{
    let mut messages: Vec<Outgoing> = Vec::new();
    if data.len() > MAX_PAYLOAD {
        return messages;
    }
    let mut n: usize = 0;
    while n < interesting.len()
        invariant
            n <= interesting.len(),
            data@.len() <= MAX_PAYLOAD,
            messages@.len() == routes_upto(
                interesting@,
                edge_trace@,
                partitions@,
                rank,
                n as int,
            ).len(),
            forall|i: int|
                0 <= i < messages@.len() ==> (#[trigger] messages@[i]).dest == routes_upto(
                    interesting@,
                    edge_trace@,
                    partitions@,
                    rank,
                    n as int,
                )[i] && messages@[i].bytes@ == framed(TESTCASE, data@),
        decreases interesting.len() - n,
    {
        let last = find_predecessor(edge_trace, interesting[n]);
        let dest: u32 = if last < partitions.len() {
            partitions[last]
        } else {
            0
        };
        if dest != 0 && dest != rank {
            match encode_frame(TESTCASE, data) {
                Some(bytes) => {
                    messages.push(Outgoing { dest, bytes });
                },
                None => {},
            }
        }
        n += 1;
    }
    messages
}

} // verus!
