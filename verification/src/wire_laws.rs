//! What holds of a graph that goes over the wire and comes back.

use vstd::prelude::*;
use crate::codec::{encoding, lemma_parsed_encoding, parsed, EdgeEntry, NodeEntry};
use crate::graph_laws::{
    count_in, has_child, lemma_absorbed, lemma_fresh, lemma_linked, lemma_merged, lemma_walked_upto,
};
use crate::hook::{key_at, trace_keys, visits};
use crate::model::{
    absorbed, assigned, child_entries, decoded, edge_entries, edge_entries_upto, first_visit,
    fresh, graph_weight, has_key, holds_upto, lemma_position, lemma_same_keys,
    lemma_weight_upto_grows, lemma_weight_upto_same, merged, node_entries, placed_upto, position,
    rebuilt, resolvable, root_key, stand, walked, walked_upto, weight_upto, well_formed,
    wired_upto, NodeView,
};
use crate::nodes::Key;

verus! {

/// Whether the graph has a child link from a visit of the edge `p` to a
/// visit of the edge `c`.
pub open spec fn has_link(g: Seq<NodeView>, p: u32, c: u32) -> bool {
    exists|i: int, q: int|
        0 <= i < g.len() && 0 <= q < g[i].children.len() && g[i].key.0 == p && (
        #[trigger] g[i].children[q]).0 == c
}

/// Whether each edge that has a child link at either end has its first
/// visit in the graph. Every graph that a worker or the coordinator comes to
/// hold is so.
pub open spec fn keeps_first_visits(g: Seq<NodeView>) -> bool {
    forall|x: Key, y: Key| #[trigger]
        has_child(g, x, y) ==> has_key(g, first_visit(x.0)) && has_key(g, first_visit(y.0))
}

/// The first `n` nodes of a graph without their children.
spec fn bare(g: Seq<NodeView>, n: int) -> Seq<NodeView> {
    Seq::new(n as nat, |i: int| NodeView { key: g[i].key, weight: g[i].weight, children: Seq::empty() })
}

/// Whether the link `e` is that of one of the first `n` nodes.
spec fn from_nodes(g: Seq<NodeView>, e: EdgeEntry, n: int) -> bool {
    exists|i: int, q: int|
        0 <= i < n && i < g.len() && 0 <= q < g[i].children.len() && e == (
            g[i].key.0,
            (#[trigger] g[i].children[q]).0,
        )
}

/// Whether one of the first `m` links leads from `x` to `c`.
spec fn wired(edges: Seq<EdgeEntry>, x: Key, c: Key, m: int) -> bool {
    exists|j: int|
        0 <= j < m && j < edges.len() && x == first_visit((#[trigger] edges[j]).0) && c == first_visit(
            edges[j].1,
        )
}

proof fn lemma_node_weight(g: Seq<NodeView>, i: int)
    requires
        0 <= i < g.len(),
    ensures
        g[i].weight <= graph_weight(g),
{
    lemma_weight_upto_grows(g, i + 1, g.len() as int);
}

proof fn lemma_placed(g: Seq<NodeView>, n: int)
    requires
        well_formed(g),
        graph_weight(g) <= u64::MAX,
        1 <= n <= g.len(),
    ensures
        placed_upto(node_entries(g), n) == bare(g, n),
        well_formed(bare(g, n)),
        graph_weight(bare(g, n)) <= graph_weight(g),
    decreases n,
{
    let entries = node_entries(g);
    lemma_node_weight(g, n - 1);
    let now = bare(g, n);
    if n == 1 {
        let start = fresh();
        assert(start[0].key == root_key());
        assert(has_key(start, g[0].key));
        assert(position(start, g[0].key) == 0);
        assert(placed_upto(entries, 0) == start);
        assert(placed_upto(entries, 1) =~= now);
    } else {
        lemma_placed(g, n - 1);
        let before = bare(g, n - 1);
        if has_key(before, g[n - 1].key) {
            let at = position(before, g[n - 1].key);
            assert(g[at].key != g[n - 1].key);
        }
        assert(assigned(before, g[n - 1].key, g[n - 1].weight) =~= now);
    }
    assert(now[0].key == root_key());
    assert forall|i: int, j: int| 0 <= i < j < now.len() implies (#[trigger] now[i]).key != (
    #[trigger] now[j]).key by {
        assert(g[i].key != g[j].key);
    }
    assert(well_formed(now));
    lemma_weight_upto_same(now, g, n);
    lemma_weight_upto_grows(g, n, g.len() as int);
}

proof fn lemma_holds(g: Seq<NodeView>, j: int)
    requires
        well_formed(g),
        graph_weight(g) <= u64::MAX,
        0 <= j <= g.len(),
    ensures
        graph_weight(placed_upto(node_entries(g), j)) <= u64::MAX,
{
    if j == 0 {
        let start = fresh();
        assert(weight_upto(start, 0) == 0);
        assert(weight_upto(start, 1) == 0);
    } else {
        lemma_placed(g, j);
    }
}

proof fn lemma_edge_entries(g: Seq<NodeView>, n: int)
    requires
        0 <= n <= g.len(),
    ensures
        forall|j: int|
            0 <= j < edge_entries_upto(g, n).len() ==> from_nodes(
                g,
                #[trigger] edge_entries_upto(g, n)[j],
                n,
            ),
        forall|e: EdgeEntry| from_nodes(g, e, n) ==> #[trigger] edge_entries_upto(g, n).contains(e),
    decreases n,
{
    if n > 0 {
        lemma_edge_entries(g, n - 1);
        let head = edge_entries_upto(g, n - 1);
        let tail = child_entries(g[n - 1]);
        let all = edge_entries_upto(g, n);
        assert forall|j: int| 0 <= j < all.len() implies from_nodes(g, #[trigger] all[j], n) by {
            if j < head.len() {
                let e = head[j];
                assert(from_nodes(g, e, n - 1));
                let (i, q) = choose|i: int, q: int|
                    0 <= i < n - 1 && i < g.len() && 0 <= q < g[i].children.len() && e == (
                        g[i].key.0,
                        (#[trigger] g[i].children[q]).0,
                    );
                assert(0 <= i < n && e == (g[i].key.0, g[i].children[q].0));
            } else {
                let q = j - head.len();
                assert(all[j] == (g[n - 1].key.0, g[n - 1].children[q].0));
            }
        }
        assert forall|e: EdgeEntry| from_nodes(g, e, n) implies #[trigger] all.contains(e) by {
            let (i, q) = choose|i: int, q: int|
                0 <= i < n && i < g.len() && 0 <= q < g[i].children.len() && e == (
                    g[i].key.0,
                    (#[trigger] g[i].children[q]).0,
                );
            if i < n - 1 {
                assert(from_nodes(g, e, n - 1));
                assert(head.contains(e));
                let j = choose|j: int| 0 <= j < head.len() && head[j] == e;
                assert(all[j] == e);
            } else {
                assert(tail[q] == e);
                assert(all[head.len() + q] == e);
            }
        }
    }
}

proof fn lemma_wired_upto(g: Seq<NodeView>, edges: Seq<EdgeEntry>, m: int, x: Key, c: Key)
    requires
        well_formed(g),
        resolvable(g, edges),
        0 <= m <= edges.len(),
    ensures
        well_formed(wired_upto(g, edges, m)),
        has_key(wired_upto(g, edges, m), x) == has_key(g, x),
        has_child(wired_upto(g, edges, m), x, c) == (has_child(g, x, c) || wired(edges, x, c, m)),
        wired_upto(g, edges, m).len() == g.len(),
        forall|i: int|
            0 <= i < g.len() ==> (#[trigger] wired_upto(g, edges, m)[i]).key == g[i].key
                && wired_upto(g, edges, m)[i].weight == g[i].weight,
    decreases m,
{
    if m > 0 {
        let before = wired_upto(g, edges, m - 1);
        let from = first_visit(edges[m - 1].0);
        let to = first_visit(edges[m - 1].1);
        lemma_wired_upto(g, edges, m - 1, x, c);
        lemma_wired_upto(g, edges, m - 1, from, c);
        lemma_wired_upto(g, edges, m - 1, to, c);
        lemma_linked(before, from, to, x, c);
        let now = wired_upto(g, edges, m);
        assert forall|i: int| 0 <= i < g.len() implies (#[trigger] now[i]).key == g[i].key && now[i].weight
            == g[i].weight by {
            assert(before[i].key == g[i].key);
        }
        if wired(edges, x, c, m) {
            let j = choose|j: int|
                0 <= j < m && j < edges.len() && x == first_visit((#[trigger] edges[j]).0) && c
                    == first_visit(edges[j].1);
            if j < m - 1 {
                assert(wired(edges, x, c, m - 1));
            }
        }
        if wired(edges, x, c, m - 1) {
            let j = choose|j: int|
                0 <= j < m - 1 && j < edges.len() && x == first_visit((#[trigger] edges[j]).0) && c
                    == first_visit(edges[j].1);
            assert(0 <= j < m && x == first_visit(edges[j].0));
        }
        if x == from && c == to {
            assert(wired(edges, x, c, m));
        }
    }
}

/// A graph comes back from its wire form with every node and its weight in
/// place, and with a child link between the first visits of two edges
/// exactly where it had a link between visits of these edges. This holds of
/// graphs that keep the first visit of every edge with a link.
pub proof fn lemma_round_trip(g: Seq<NodeView>)
    requires
        well_formed(g),
        graph_weight(g) <= u64::MAX,
        g.len() <= u64::MAX,
        edge_entries(g).len() <= u64::MAX,
        keeps_first_visits(g),
    ensures
        decoded(encoding(node_entries(g), edge_entries(g))) is Some,
        ({
            let back = decoded(encoding(node_entries(g), edge_entries(g)))->0;
            &&& well_formed(back)
            &&& back.len() == g.len()
            &&& forall|i: int|
                0 <= i < g.len() ==> (#[trigger] back[i]).key == g[i].key && back[i].weight
                    == g[i].weight
            &&& forall|p: u32, c: u32| #[trigger] has_link(back, p, c) == has_link(g, p, c)
            &&& forall|x: Key, y: Key| #[trigger]
                has_child(back, x, y) == (x.1 == 0 && y.1 == 0 && has_link(g, x.0, y.0))
        }),
{
    let nodes = node_entries(g);
    let edges = edge_entries(g);
    let n = g.len() as int;
    lemma_parsed_encoding(nodes, edges);
    lemma_placed(g, n);
    let placed = bare(g, n);
    assert(holds_upto(nodes, n)) by {
        assert forall|j: int| 0 <= j <= n implies graph_weight(#[trigger] placed_upto(nodes, j))
            <= u64::MAX by {
            lemma_holds(g, j);
        }
    }
    lemma_edge_entries(g, n);
    assert(resolvable(placed, edges)) by {
        assert forall|j: int| 0 <= j < edges.len() implies has_key(
            placed,
            first_visit((#[trigger] edges[j]).0),
        ) && has_key(placed, first_visit(edges[j].1)) by {
            let e = edges[j];
            assert(from_nodes(g, e, n));
            let (i, q) = choose|i: int, q: int|
                0 <= i < n && i < g.len() && 0 <= q < g[i].children.len() && e == (
                    g[i].key.0,
                    (#[trigger] g[i].children[q]).0,
                );
            lemma_position(g, i);
            assert(has_child(g, g[i].key, g[i].children[q]));
            lemma_same_keys(placed, g, first_visit(e.0));
            lemma_same_keys(placed, g, first_visit(e.1));
        }
    }
    assert(rebuilt(nodes, edges) == Some(wired_upto(placed, edges, edges.len() as int)));
    let back = wired_upto(placed, edges, edges.len() as int);
    let m = edges.len() as int;
    lemma_wired_upto(placed, edges, m, root_key(), root_key());
    assert forall|x: Key, y: Key| #[trigger]
        has_child(back, x, y) == (x.1 == 0 && y.1 == 0 && has_link(g, x.0, y.0)) by {
        lemma_wired_upto(placed, edges, m, x, y);
        if has_key(placed, x) {
            let at = position(placed, x);
            assert(placed[at].children.len() == 0);
        }
        assert(!has_child(placed, x, y));
        if wired(edges, x, y, m) {
            let j = choose|j: int|
                0 <= j < m && j < edges.len() && x == first_visit((#[trigger] edges[j]).0) && y
                    == first_visit(edges[j].1);
            let e = edges[j];
            assert(from_nodes(g, e, n));
            let (i, q) = choose|i: int, q: int|
                0 <= i < n && i < g.len() && 0 <= q < g[i].children.len() && e == (
                    g[i].key.0,
                    (#[trigger] g[i].children[q]).0,
                );
            assert(g[i].key.0 == x.0 && g[i].children[q].0 == y.0);
        }
        if x.1 == 0 && y.1 == 0 && has_link(g, x.0, y.0) {
            let (i, q) = choose|i: int, q: int|
                0 <= i < g.len() && 0 <= q < g[i].children.len() && g[i].key.0 == x.0 && (
                #[trigger] g[i].children[q]).0 == y.0;
            let e = (x.0, y.0);
            assert(e == (g[i].key.0, g[i].children[q].0));
            assert(from_nodes(g, e, n));
            assert(edges.contains(e));
            let j = choose|j: int| 0 <= j < edges.len() && edges[j] == e;
            assert(x == first_visit(edges[j].0) && y == first_visit(edges[j].1));
        }
    }
    assert forall|p: u32, c: u32| #[trigger] has_link(back, p, c) == has_link(g, p, c) by {
        let x = first_visit(p);
        let y = first_visit(c);
        assert(has_child(back, x, y) == (x.1 == 0 && y.1 == 0 && has_link(g, x.0, y.0)));
        if has_link(back, p, c) {
            let (i, q) = choose|i: int, q: int|
                0 <= i < back.len() && 0 <= q < back[i].children.len() && back[i].key.0 == p && (
                #[trigger] back[i].children[q]).0 == c;
            let from = back[i].key;
            let to = back[i].children[q];
            lemma_position(back, i);
            assert(has_child(back, from, to));
            assert(has_child(back, from, to) == (from.1 == 0 && to.1 == 0 && has_link(
                g,
                from.0,
                to.0,
            )));
        }
        if has_link(g, p, c) {
            assert(has_child(back, x, y));
            let at = position(back, x);
            let q = choose|q: int| 0 <= q < back[at].children.len() && back[at].children[q] == y;
            assert(back[at].key.0 == p && back[at].children[q].0 == c);
        }
    }
    assert forall|i: int| 0 <= i < g.len() implies (#[trigger] back[i]).key == g[i].key && back[i].weight
        == g[i].weight by {
        assert(placed[i].key == g[i].key);
    }
}

proof fn lemma_visited_before(trace: Seq<u32>, edge: u32, n: int)
    requires
        0 <= n <= trace.len(),
        visits(trace, edge, n) > 0,
    ensures
        exists|k: int| 0 <= k < n && trace[k] == edge,
    decreases n,
{
    if n > 0 {
        if trace[n - 1] == edge {
            assert(0 <= n - 1 < n && trace[n - 1] == edge);
        } else {
            lemma_visited_before(trace, edge, n - 1);
            let k = choose|k: int| 0 <= k < n - 1 && trace[k] == edge;
            assert(0 <= k < n && trace[k] == edge);
        }
    }
}

proof fn lemma_first_visit_before(trace: Seq<u32>, i: int)
    requires
        0 <= i < trace.len(),
    ensures
        exists|j: int| 0 <= j <= i && key_at(trace, j) == first_visit(trace[i]),
    decreases i,
{
    let edge = trace[i];
    if visits(trace, edge, i) == 0 {
        assert(key_at(trace, i) == first_visit(edge));
    } else {
        lemma_visited_before(trace, edge, i);
        let k = choose|k: int| 0 <= k < i && trace[k] == edge;
        lemma_first_visit_before(trace, k);
        let j = choose|j: int| 0 <= j <= k && key_at(trace, j) == first_visit(trace[k]);
        assert(0 <= j <= i && key_at(trace, j) == first_visit(edge));
    }
}

proof fn lemma_count_in_found(keys: Seq<Key>, j: int, n: int)
    requires
        0 <= j < n <= keys.len(),
    ensures
        count_in(keys, keys[j], n) > 0,
    decreases n,
{
    if j < n - 1 {
        lemma_count_in_found(keys, j, n - 1);
    }
}

proof fn lemma_walked_keeps(g: Seq<NodeView>, trace: Seq<u32>, n: int)
    requires
        well_formed(g),
        keeps_first_visits(g),
        0 <= n <= trace.len(),
    ensures
        keeps_first_visits(walked_upto(g, trace_keys(trace), n)),
    decreases n,
{
    let keys = trace_keys(trace);
    if n > 0 {
        let before = walked_upto(g, keys, n - 1);
        let from = stand(keys, n - 1);
        let to = keys[n - 1];
        let counted = absorbed(before, to, 1);
        let now = walked_upto(g, keys, n);
        lemma_walked_keeps(g, trace, n - 1);
        lemma_walked_upto(g, keys, n - 1, from);
        lemma_absorbed(before, to, 1, from);
        lemma_absorbed(before, to, 1, to);
        assert forall|x: Key, y: Key| #[trigger] has_child(now, x, y) implies has_key(
            now,
            first_visit(x.0),
        ) && has_key(now, first_visit(y.0)) by {
            lemma_absorbed(before, to, 1, x);
            lemma_linked(counted, from, to, x, y);
            lemma_walked_upto(g, keys, n, first_visit(x.0));
            lemma_walked_upto(g, keys, n - 1, first_visit(x.0));
            lemma_walked_upto(g, keys, n, first_visit(y.0));
            lemma_walked_upto(g, keys, n - 1, first_visit(y.0));
            if has_child(before, x, y) {
                assert(has_key(before, first_visit(x.0)) && has_key(before, first_visit(y.0)));
            } else {
                assert(x == from && y == to);
                lemma_first_visit_before(trace, n - 1);
                let j = choose|j: int| 0 <= j <= n - 1 && key_at(trace, j) == first_visit(trace[n - 1]);
                assert(keys[j] == first_visit(y.0));
                lemma_count_in_found(keys, j, n);
                if n - 1 > 0 {
                    lemma_first_visit_before(trace, n - 2);
                    let i = choose|i: int| 0 <= i <= n - 2 && key_at(trace, i) == first_visit(trace[n - 2]);
                    assert(keys[i] == first_visit(x.0));
                    lemma_count_in_found(keys, i, n);
                } else {
                    assert(first_visit(x.0) == root_key());
                    assert(g[0].key == root_key());
                }
            }
        }
    }
}

/// The fresh graph keeps the first visit of every edge with a link, for it
/// has no links.
pub proof fn lemma_fresh_keeps_first_visits()
    ensures
        keeps_first_visits(fresh()),
{
    lemma_fresh();
    assert forall|x: Key, y: Key| #[trigger] has_child(fresh(), x, y) implies has_key(
        fresh(),
        first_visit(x.0),
    ) && has_key(fresh(), first_visit(y.0)) by {
        if has_key(fresh(), x) {
            assert(position(fresh(), x) == 0);
        }
    }
}

/// Recording an execution from its edge trace keeps the first visit of
/// every edge with a link.
pub proof fn lemma_walk_keeps_first_visits(g: Seq<NodeView>, trace: Seq<u32>)
    requires
        well_formed(g),
        keeps_first_visits(g),
    ensures
        keeps_first_visits(walked(g, trace_keys(trace))),
{
    lemma_walked_keeps(g, trace, trace.len() as int);
}

/// A merge keeps the first visit of every edge with a link.
pub proof fn lemma_merge_keeps_first_visits(a: Seq<NodeView>, b: Seq<NodeView>)
    requires
        well_formed(a),
        well_formed(b),
        keeps_first_visits(a),
        keeps_first_visits(b),
    ensures
        keeps_first_visits(merged(a, b)),
{
    let m = merged(a, b);
    assert forall|x: Key, y: Key| #[trigger] has_child(m, x, y) implies has_key(m, first_visit(x.0))
        && has_key(m, first_visit(y.0)) by {
        lemma_merged(a, b, x, y);
        lemma_merged(a, b, first_visit(x.0), y);
        lemma_merged(a, b, first_visit(y.0), y);
        if has_child(a, x, y) {
            assert(has_key(a, first_visit(x.0)) && has_key(a, first_visit(y.0)));
        } else {
            assert(has_key(b, first_visit(x.0)) && has_key(b, first_visit(y.0)));
        }
    }
}

/// A graph read from the wire is in order and keeps the first visit of
/// every edge with a link: its links lead from first visits to first
/// visits.
pub proof fn lemma_decoded_keeps_first_visits(bytes: Seq<u8>)
    requires
        decoded(bytes) is Some,
    ensures
        well_formed(decoded(bytes)->0),
        keeps_first_visits(decoded(bytes)->0),
{
    let (nodes, edges) = parsed(bytes)->0;
    let n = nodes.len() as int;
    let m = edges.len() as int;
    let placed = placed_upto(nodes, n);
    let back = wired_upto(placed, edges, m);
    lemma_placed_bare(nodes, n, root_key(), root_key());
    lemma_wired_upto(placed, edges, m, root_key(), root_key());
    assert forall|x: Key, y: Key| #[trigger] has_child(back, x, y) implies has_key(
        back,
        first_visit(x.0),
    ) && has_key(back, first_visit(y.0)) by {
        lemma_placed_bare(nodes, n, x, y);
        lemma_wired_upto(placed, edges, m, x, y);
        lemma_wired_upto(placed, edges, m, first_visit(x.0), y);
        lemma_wired_upto(placed, edges, m, first_visit(y.0), y);
        let j = choose|j: int|
            0 <= j < m && j < edges.len() && x == first_visit((#[trigger] edges[j]).0) && y
                == first_visit(edges[j].1);
        assert(has_key(placed, first_visit(edges[j].0)));
    }
}

proof fn lemma_placed_bare(nodes: Seq<NodeEntry>, n: int, x: Key, y: Key)
    requires
        0 <= n <= nodes.len(),
    ensures
        well_formed(placed_upto(nodes, n)),
        !has_child(placed_upto(nodes, n), x, y),
    decreases n,
{
    lemma_fresh();
    if n == 0 {
        if has_key(fresh(), x) {
            assert(position(fresh(), x) == 0);
        }
    } else {
        let before = placed_upto(nodes, n - 1);
        let k = (nodes[n - 1].0, nodes[n - 1].1);
        let w = nodes[n - 1].2 as nat;
        let now = assigned(before, k, w);
        lemma_placed_bare(nodes, n - 1, x, y);
        lemma_placed_bare(nodes, n - 1, k, y);
        assert forall|i: int| 0 <= i < before.len() implies (#[trigger] before[i]).children.len()
            == 0 by {
            lemma_position(before, i);
            lemma_placed_bare(nodes, n - 1, before[i].key, before[i].children[0]);
            if before[i].children.len() > 0 {
                assert(before[i].children.contains(before[i].children[0]));
            }
        }
        assert forall|i: int| 0 <= i < now.len() implies (#[trigger] now[i]).children.len() == 0 by {
            if i < before.len() {
                assert(before[i].children.len() == 0);
            }
        }
        assert(well_formed(now)) by {
            assert forall|i: int, j: int| 0 <= i < j < now.len() implies (#[trigger] now[i]).key != (
            #[trigger] now[j]).key by {
                if j == before.len() {
                    assert(before[i].key != k);
                } else {
                    assert(before[i].key != before[j].key);
                }
            }
        }
        if has_key(now, x) {
            let at = position(now, x);
            assert(now[at].children.len() == 0);
        }
    }
}

} // verus!
