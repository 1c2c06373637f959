//! What holds of recording and merging, whatever the graphs and traces.

use vstd::prelude::*;
use crate::model::{
    absorbed, absorbed_upto, adopted_upto, children_of, chunk_end, chunk_start,
    flat_partition, fresh, has_key, lemma_position, lemma_same_keys, linked, linked_upto,
    merged, position, root_key, stand, walked, walked_upto, weight_of, well_formed, NodeView,
};
use crate::nodes::Key;

verus! {

/// Whether the node with the key `k` has the child `c`.
pub open spec fn has_child(g: Seq<NodeView>, k: Key, c: Key) -> bool {
    children_of(g, k).contains(c)
}

/// How often the key `k` occurs among the first `n` steps of a trace.
pub open spec fn count_in(trace: Seq<Key>, k: Key, n: int) -> nat
    decreases n,
{
    if n <= 0 {
        0
    } else if trace[n - 1] == k {
        count_in(trace, k, n - 1) + 1
    } else {
        count_in(trace, k, n - 1)
    }
}

/// How often the key `k` occurs in a trace.
pub open spec fn visits_in(trace: Seq<Key>, k: Key) -> nat {
    count_in(trace, k, trace.len() as int)
}

/// How often the key `k` occurs in all traces together.
pub open spec fn visits_in_all(traces: Seq<Seq<Key>>, k: Key) -> nat
    decreases traces.len(),
{
    if traces.len() == 0 {
        0
    } else {
        visits_in_all(traces.drop_last(), k) + visits_in(traces.last(), k)
    }
}

/// The graph that a fresh graph becomes when the traces are recorded one
/// after the other.
pub open spec fn built(traces: Seq<Seq<Key>>) -> Seq<NodeView>
    decreases traces.len(),
{
    if traces.len() == 0 {
        fresh()
    } else {
        walked(built(traces.drop_last()), traces.last())
    }
}

/// The keys that occur in the traces.
pub open spec fn visited(traces: Seq<Seq<Key>>) -> Set<Key> {
    Set::new(|k: Key| visits_in_all(traces, k) > 0)
}

/// The keys of the nodes of a graph.
pub open spec fn key_set(g: Seq<NodeView>) -> Set<Key> {
    Set::new(|k: Key| has_key(g, k))
}

/// The keys of a graph, in the order the graph holds its nodes.
pub open spec fn keys(g: Seq<NodeView>) -> Seq<Key> {
    Seq::new(g.len(), |i: int| g[i].key)
}

/// The fresh graph is in order.
pub proof fn lemma_fresh()
    ensures
        well_formed(fresh()),
        forall|k: Key| has_key(fresh(), k) == (k == root_key()),
        forall|k: Key| weight_of(fresh(), k) == 0,
{
    let g = fresh();
    assert(g[0].key == root_key());
    assert forall|k: Key| has_key(g, k) == (k == root_key()) by {
        if k == root_key() {
            assert(g[0].key == k);
        }
    }
    assert forall|k: Key| weight_of(g, k) == 0 by {
        if has_key(g, k) {
            assert(position(g, k) == 0);
        }
    }
}

/// What counting a key does to a graph, seen from the key `x`: the counted
/// key is a node afterwards and weighs that much more; no other key
/// changes, and no child link does.
pub proof fn lemma_absorbed(g: Seq<NodeView>, k: Key, w: nat, x: Key)
    requires
        well_formed(g),
    ensures
        well_formed(absorbed(g, k, w)),
        has_key(absorbed(g, k, w), x) == (has_key(g, x) || x == k),
        weight_of(absorbed(g, k, w), x) == weight_of(g, x) + if x == k {
            w
        } else {
            0
        },
        children_of(absorbed(g, k, w), x) == children_of(g, x),
        absorbed(g, k, w).len() == g.len() + if has_key(g, k) {
            0int
        } else {
            1int
        },
        forall|i: int| 0 <= i < g.len() ==> (#[trigger] absorbed(g, k, w)[i]).key == g[i].key,
{
    let r = absorbed(g, k, w);
    assert forall|i: int| 0 <= i < g.len() implies (#[trigger] r[i]).key == g[i].key by {}
    assert forall|i: int, p: int| 0 <= i < r.len() && 0 <= p < r[i].children.len() implies has_key(
        r,
        #[trigger] r[i].children[p],
    ) by {
        let c = g[i].children[p];
        assert(has_key(g, c));
        let at = position(g, c);
        assert(r[at].key == c);
    }
    assert(well_formed(r)) by {
        assert forall|i: int, j: int| 0 <= i < j < r.len() implies (#[trigger] r[i]).key != (
        #[trigger] r[j]).key by {
            if j == g.len() {
                assert(g[i].key != k);
            }
        }
    }
    if has_key(g, x) {
        let at = position(g, x);
        assert(r[at].key == x);
        lemma_position(r, at);
    }
    if has_key(g, k) {
        let at = position(g, k);
        assert(r[at].key == k);
    } else {
        assert(r[g.len() as int].key == k);
        lemma_position(r, g.len() as int);
    }
    if has_key(r, x) {
        let at = position(r, x);
        if at < g.len() {
            assert(g[at].key == x);
        }
    }
}

/// What a new child link does to a graph, seen from the key `x` and the
/// child `c`: the nodes and their weights stay, and the one link is there
/// afterwards.
pub proof fn lemma_linked(g: Seq<NodeView>, a: Key, b: Key, x: Key, c: Key)
    requires
        well_formed(g),
        has_key(g, a),
        has_key(g, b),
    ensures
        well_formed(linked(g, a, b)),
        has_key(linked(g, a, b), x) == has_key(g, x),
        weight_of(linked(g, a, b), x) == weight_of(g, x),
        has_child(linked(g, a, b), x, c) == (has_child(g, x, c) || (x == a && c == b)),
        linked(g, a, b).len() == g.len(),
        forall|i: int| 0 <= i < g.len() ==> (#[trigger] linked(g, a, b)[i]).key == g[i].key,
{
    let r = linked(g, a, b);
    let p = position(g, a);
    assert forall|i: int| 0 <= i < g.len() implies (#[trigger] r[i]).key == g[i].key by {}
    assert forall|i: int, q: int| 0 <= i < r.len() && 0 <= q < r[i].children.len() implies has_key(
        r,
        #[trigger] r[i].children[q],
    ) by {
        let child = r[i].children[q];
        if i == p && q == g[p].children.len() {
            let at = position(g, b);
            assert(r[at].key == child);
        } else {
            assert(child == g[i].children[q]);
            assert(has_key(g, child));
            let at = position(g, child);
            assert(r[at].key == child);
        }
    }
    assert forall|i: int| 0 <= i < r.len() implies (#[trigger] r[i]).children.no_duplicates() by {
        assert(g[i].children.no_duplicates());
        if i == p && !g[p].children.contains(b) {
            let kids = r[i].children;
            assert forall|s: int, t: int| 0 <= s < kids.len() && 0 <= t < kids.len() && s != t implies kids[s]
                != kids[t] by {
                if s == g[p].children.len() {
                    assert(g[p].children[t] == kids[t]);
                }
                if t == g[p].children.len() {
                    assert(g[p].children[s] == kids[s]);
                }
            }
        }
    }
    assert(well_formed(r));
    if has_key(g, x) {
        let at = position(g, x);
        assert(r[at].key == x);
        lemma_position(r, at);
        lemma_position(g, at);
        lemma_position(g, p);
        if at == p && !g[p].children.contains(b) {
            let kids = g[p].children;
            if kids.push(b).contains(c) {
                let s = choose|s: int| 0 <= s < kids.push(b).len() && kids.push(b)[s] == c;
                if s < kids.len() {
                    assert(kids[s] == c);
                }
            }
            if kids.contains(c) {
                let s = choose|s: int| 0 <= s < kids.len() && kids[s] == c;
                assert(kids.push(b)[s] == c);
            }
            if c == b {
                assert(kids.push(b)[kids.len() as int] == c);
            }
        }
    }
    if has_key(r, x) {
        let at = position(r, x);
        assert(g[at].key == x);
    }
}

proof fn lemma_root_first(g: Seq<NodeView>)
    requires
        well_formed(g),
    ensures
        has_key(g, root_key()),
{
    assert(g[0].key == root_key());
}

/// What recording the first `n` steps of a trace does to a graph, seen from
/// the key `x`: the node of `x` weighs as much more as the steps visit it,
/// and it is a node afterwards if it was one or a step visits it.
pub proof fn lemma_walked_upto(g: Seq<NodeView>, trace: Seq<Key>, n: int, x: Key)
    requires
        well_formed(g),
        0 <= n <= trace.len(),
    ensures
        well_formed(walked_upto(g, trace, n)),
        has_key(walked_upto(g, trace, n), x) == (has_key(g, x) || count_in(trace, x, n) > 0),
        weight_of(walked_upto(g, trace, n), x) == weight_of(g, x) + count_in(trace, x, n),
        has_key(walked_upto(g, trace, n), stand(trace, n)),
    decreases n,
{
    if n <= 0 {
        lemma_root_first(g);
    } else {
        let before = walked_upto(g, trace, n - 1);
        let from = stand(trace, n - 1);
        let to = trace[n - 1];
        lemma_walked_upto(g, trace, n - 1, x);
        let counted = absorbed(before, to, 1);
        lemma_absorbed(before, to, 1, x);
        lemma_absorbed(before, to, 1, from);
        lemma_absorbed(before, to, 1, to);
        lemma_linked(counted, from, to, x, x);
        lemma_linked(counted, from, to, to, x);
    }
}

/// What recording traces in a fresh graph gives, seen from the key `x`: the
/// graph has the root and a node for each key visited, and a node weighs as
/// much as the traces visit it.
pub proof fn lemma_built(traces: Seq<Seq<Key>>, x: Key)
    ensures
        well_formed(built(traces)),
        has_key(built(traces), x) == (x == root_key() || visits_in_all(traces, x) > 0),
        weight_of(built(traces), x) == visits_in_all(traces, x),
    decreases traces.len(),
{
    lemma_fresh();
    if traces.len() > 0 {
        lemma_built(traces.drop_last(), x);
        lemma_walked_upto(built(traces.drop_last()), traces.last(), traces.last().len() as int, x);
    }
}

/// The weight of a node is the number of times the traces visit its key,
/// whatever the order in which the executions were recorded.
pub proof fn lemma_weights_count_visits(traces: Seq<Seq<Key>>)
    ensures
        well_formed(built(traces)),
        forall|k: Key| #[trigger] weight_of(built(traces), k) == visits_in_all(traces, k),
        forall|k: Key| #[trigger]
            has_key(built(traces), k) == (k == root_key() || visits_in_all(traces, k) > 0),
{
    lemma_built(traces, root_key());
    assert forall|k: Key| #[trigger] weight_of(built(traces), k) == visits_in_all(traces, k) by {
        lemma_built(traces, k);
    }
    assert forall|k: Key| #[trigger]
        has_key(built(traces), k) == (k == root_key() || visits_in_all(traces, k) > 0) by {
        lemma_built(traces, k);
    }
}

proof fn lemma_keys_unique(g: Seq<NodeView>)
    requires
        well_formed(g),
    ensures
        keys(g).no_duplicates(),
        keys(g).to_set() == key_set(g),
{
    assert forall|i: int, j: int| 0 <= i < keys(g).len() && 0 <= j < keys(g).len() && i != j implies keys(
        g,
    )[i] != keys(g)[j] by {
        if i < j {
            assert(g[i].key != g[j].key);
        } else {
            assert(g[j].key != g[i].key);
        }
    }
    assert forall|k: Key| keys(g).to_set().contains(k) == key_set(g).contains(k) by {
        if keys(g).contains(k) {
            let i = choose|i: int| 0 <= i < keys(g).len() && keys(g)[i] == k;
            assert(g[i].key == k);
        }
        if has_key(g, k) {
            let i = position(g, k);
            assert(keys(g)[i] == k);
        }
    }
    assert(keys(g).to_set() =~= key_set(g));
}

/// A graph built from traces has one node for each key that the traces
/// visit, and one more for the root, if no trace visits the root's own key.
pub proof fn lemma_node_count(traces: Seq<Seq<Key>>)
    requires
        visits_in_all(traces, root_key()) == 0,
    ensures
        visited(traces).finite(),
        built(traces).len() == visited(traces).len() + 1,
{
    let g = built(traces);
    lemma_weights_count_visits(traces);
    lemma_keys_unique(g);
    keys(g).unique_seq_to_set();
    vstd::seq_lib::seq_to_set_is_finite(keys(g));
    assert(visited(traces) =~= key_set(g).remove(root_key())) by {
        assert forall|k: Key| visited(traces).contains(k) == key_set(g).remove(root_key()).contains(
            k,
        ) by {
            assert(has_key(g, k) == (k == root_key() || visits_in_all(traces, k) > 0));
        }
    }
    assert(has_key(g, root_key()) == (root_key() == root_key() || visits_in_all(
        traces,
        root_key(),
    ) > 0));
    assert(key_set(g).contains(root_key()));
}

/// A graph built from traces has one node for each key that the traces
/// visit, wherever the root's own key is among them.
pub proof fn lemma_node_count_with_root(traces: Seq<Seq<Key>>)
    requires
        visits_in_all(traces, root_key()) > 0,
    ensures
        visited(traces).finite(),
        built(traces).len() == visited(traces).len(),
{
    let g = built(traces);
    lemma_weights_count_visits(traces);
    lemma_keys_unique(g);
    keys(g).unique_seq_to_set();
    vstd::seq_lib::seq_to_set_is_finite(keys(g));
    assert(visited(traces) =~= key_set(g)) by {
        assert forall|k: Key| visited(traces).contains(k) == key_set(g).contains(k) by {
            assert(has_key(g, k) == (k == root_key() || visits_in_all(traces, k) > 0));
        }
    }
}

proof fn lemma_visits_without(traces: Seq<Seq<Key>>, i: int, k: Key)
    requires
        0 <= i < traces.len(),
    ensures
        visits_in_all(traces, k) == visits_in_all(traces.remove(i), k) + visits_in(traces[i], k),
    decreases traces.len(),
{
    if i == traces.len() - 1 {
        assert(traces.remove(i) =~= traces.drop_last());
    } else {
        lemma_visits_without(traces.drop_last(), i, k);
        assert(traces.remove(i).drop_last() =~= traces.drop_last().remove(i));
        assert(traces.remove(i).last() == traces.last());
    }
}

proof fn lemma_visits_any_order(a: Seq<Seq<Key>>, b: Seq<Seq<Key>>, k: Key)
    requires
        a.to_multiset() == b.to_multiset(),
    ensures
        visits_in_all(a, k) == visits_in_all(b, k),
    decreases a.len(),
{
    broadcast use vstd::seq_lib::group_to_multiset_ensures;

    if a.len() == 0 {
        assert(b.to_multiset().len() == 0);
        assert(b.len() == 0);
    } else {
        let last = a.last();
        assert(a =~= a.drop_last().push(last));
        assert(a.to_multiset().count(last) > 0);
        assert(b.contains(last));
        let i = choose|i: int| 0 <= i < b.len() && b[i] == last;
        vstd::seq_lib::to_multiset_remove(b, i);
        assert(a.drop_last().to_multiset() =~= b.remove(i).to_multiset());
        lemma_visits_any_order(a.drop_last(), b.remove(i), k);
        lemma_visits_without(b, i, k);
    }
}

/// Two graphs built from the same traces, recorded in different orders,
/// have the same keys and hold the same weight for each.
pub proof fn lemma_weights_any_order(a: Seq<Seq<Key>>, b: Seq<Seq<Key>>)
    requires
        a.to_multiset() == b.to_multiset(),
    ensures
        forall|k: Key| #[trigger] weight_of(built(a), k) == weight_of(built(b), k),
        forall|k: Key| #[trigger] has_key(built(a), k) == has_key(built(b), k),
        built(a).len() == built(b).len(),
{
    assert forall|k: Key| #[trigger] weight_of(built(a), k) == weight_of(built(b), k) by {
        lemma_built(a, k);
        lemma_built(b, k);
        lemma_visits_any_order(a, b, k);
    }
    assert forall|k: Key| #[trigger] has_key(built(a), k) == has_key(built(b), k) by {
        lemma_built(a, k);
        lemma_built(b, k);
        lemma_visits_any_order(a, b, k);
    }
    lemma_built(a, root_key());
    lemma_built(b, root_key());
    lemma_keys_unique(built(a));
    lemma_keys_unique(built(b));
    keys(built(a)).unique_seq_to_set();
    keys(built(b)).unique_seq_to_set();
    assert(key_set(built(a)) =~= key_set(built(b)));
}

/// Whether one of the first `n` nodes has the key `x`.
spec fn among(other: Seq<NodeView>, x: Key, n: int) -> bool {
    exists|j: int| 0 <= j < n && j < other.len() && (#[trigger] other[j]).key == x
}

/// What the first `n` nodes weigh that have the key `x`.
spec fn weight_among(other: Seq<NodeView>, x: Key, n: int) -> nat
    decreases n,
{
    if n <= 0 {
        0
    } else if other[n - 1].key == x {
        weight_among(other, x, n - 1) + other[n - 1].weight
    } else {
        weight_among(other, x, n - 1)
    }
}

/// Whether one of the first `m` of `kids` is `c`.
spec fn listed(kids: Seq<Key>, c: Key, m: int) -> bool {
    exists|p: int| 0 <= p < m && p < kids.len() && kids[p] == c
}

/// Whether one of the first `n` nodes has the key `x` and the child `c`.
spec fn linked_among(other: Seq<NodeView>, x: Key, c: Key, n: int) -> bool {
    exists|j: int|
        0 <= j < n && j < other.len() && (#[trigger] other[j]).key == x && other[j].children.contains(
            c,
        )
}

proof fn lemma_among(other: Seq<NodeView>, x: Key, n: int)
    requires
        well_formed(other),
        0 <= n <= other.len(),
    ensures
        weight_among(other, x, n) == if among(other, x, n) {
            weight_of(other, x)
        } else {
            0
        },
        n == other.len() ==> among(other, x, n) == has_key(other, x),
    decreases n,
{
    if n > 0 {
        lemma_among(other, x, n - 1);
        if other[n - 1].key == x {
            lemma_position(other, n - 1);
            if among(other, x, n - 1) {
                let j = choose|j: int| 0 <= j < n - 1 && j < other.len() && (#[trigger] other[j]).key == x;
                assert(other[j].key != other[n - 1].key);
            }
            assert(among(other, x, n));
        } else {
            if among(other, x, n) {
                let j = choose|j: int| 0 <= j < n && j < other.len() && (#[trigger] other[j]).key == x;
                assert(among(other, x, n - 1));
            }
            if among(other, x, n - 1) {
                let j = choose|j: int| 0 <= j < n - 1 && j < other.len() && (#[trigger] other[j]).key == x;
                assert(0 <= j < n && other[j].key == x);
            }
        }
    }
    if n == other.len() {
        if has_key(other, x) {
            let j = position(other, x);
            assert(0 <= j < n && other[j].key == x);
        }
    }
}

proof fn lemma_absorbed_upto(g: Seq<NodeView>, other: Seq<NodeView>, n: int, x: Key)
    requires
        well_formed(g),
        0 <= n <= other.len(),
    ensures
        well_formed(absorbed_upto(g, other, n)),
        has_key(absorbed_upto(g, other, n), x) == (has_key(g, x) || among(other, x, n)),
        weight_of(absorbed_upto(g, other, n), x) == weight_of(g, x) + weight_among(other, x, n),
        children_of(absorbed_upto(g, other, n), x) == children_of(g, x),
    decreases n,
{
    if n > 0 {
        lemma_absorbed_upto(g, other, n - 1, x);
        lemma_absorbed(absorbed_upto(g, other, n - 1), other[n - 1].key, other[n - 1].weight, x);
        if among(other, x, n) {
            let j = choose|j: int| 0 <= j < n && j < other.len() && (#[trigger] other[j]).key == x;
            if j < n - 1 {
                assert(among(other, x, n - 1));
            }
        }
        if among(other, x, n - 1) {
            let j = choose|j: int| 0 <= j < n - 1 && j < other.len() && (#[trigger] other[j]).key == x;
            assert(0 <= j < n && other[j].key == x);
        }
        if other[n - 1].key == x {
            assert(among(other, x, n));
        }
    }
}

proof fn lemma_linked_upto(g: Seq<NodeView>, parent: Key, kids: Seq<Key>, m: int, x: Key, c: Key)
    requires
        well_formed(g),
        has_key(g, parent),
        0 <= m <= kids.len(),
        forall|p: int| 0 <= p < m ==> has_key(g, #[trigger] kids[p]),
    ensures
        well_formed(linked_upto(g, parent, kids, m)),
        has_key(linked_upto(g, parent, kids, m), x) == has_key(g, x),
        weight_of(linked_upto(g, parent, kids, m), x) == weight_of(g, x),
        has_child(linked_upto(g, parent, kids, m), x, c) == (has_child(g, x, c) || (x == parent
            && listed(kids, c, m))),
        linked_upto(g, parent, kids, m).len() == g.len(),
        forall|i: int| 0 <= i < g.len() ==> (#[trigger] linked_upto(g, parent, kids, m)[i]).key == g[i].key,
    decreases m,
{
    if m > 0 {
        let before = linked_upto(g, parent, kids, m - 1);
        lemma_linked_upto(g, parent, kids, m - 1, x, c);
        lemma_linked_upto(g, parent, kids, m - 1, parent, c);
        lemma_linked_upto(g, parent, kids, m - 1, kids[m - 1], c);
        lemma_linked(before, parent, kids[m - 1], x, c);
        if listed(kids, c, m) {
            let p = choose|p: int| 0 <= p < m && p < kids.len() && kids[p] == c;
            if p < m - 1 {
                assert(listed(kids, c, m - 1));
            }
        }
        if listed(kids, c, m - 1) {
            let p = choose|p: int| 0 <= p < m - 1 && p < kids.len() && kids[p] == c;
            assert(0 <= p < m && kids[p] == c);
        }
        if kids[m - 1] == c {
            assert(listed(kids, c, m));
        }
    }
}

proof fn lemma_adopted_upto(g: Seq<NodeView>, other: Seq<NodeView>, n: int, x: Key, c: Key)
    requires
        well_formed(g),
        well_formed(other),
        0 <= n <= other.len(),
        forall|j: int| 0 <= j < other.len() ==> has_key(g, (#[trigger] other[j]).key),
    ensures
        well_formed(adopted_upto(g, other, n)),
        has_key(adopted_upto(g, other, n), x) == has_key(g, x),
        weight_of(adopted_upto(g, other, n), x) == weight_of(g, x),
        has_child(adopted_upto(g, other, n), x, c) == (has_child(g, x, c) || linked_among(
            other,
            x,
            c,
            n,
        )),
        adopted_upto(g, other, n).len() == g.len(),
        forall|i: int| 0 <= i < g.len() ==> (#[trigger] adopted_upto(g, other, n)[i]).key == g[i].key,
    decreases n,
{
    if n > 0 {
        let before = adopted_upto(g, other, n - 1);
        let node = other[n - 1];
        lemma_adopted_upto(g, other, n - 1, x, c);
        lemma_adopted_upto(g, other, n - 1, node.key, c);
        assert forall|p: int| 0 <= p < node.children.len() implies has_key(
            before,
            #[trigger] node.children[p],
        ) by {
            let kid = node.children[p];
            assert(has_key(other, kid));
            let j = position(other, kid);
            assert(has_key(g, other[j].key));
            lemma_adopted_upto(g, other, n - 1, kid, c);
        }
        lemma_linked_upto(before, node.key, node.children, node.children.len() as int, x, c);
        if listed(node.children, c, node.children.len() as int) {
            let p = choose|p: int|
                0 <= p < node.children.len() && p < node.children.len() && node.children[p] == c;
            assert(node.children.contains(c));
        }
        if node.children.contains(c) {
            let p = choose|p: int| 0 <= p < node.children.len() && node.children[p] == c;
            assert(listed(node.children, c, node.children.len() as int));
        }
        if linked_among(other, x, c, n) {
            let j = choose|j: int|
                0 <= j < n && j < other.len() && (#[trigger] other[j]).key == x && other[j].children.contains(
                    c,
                );
            if j < n - 1 {
                assert(linked_among(other, x, c, n - 1));
            }
        }
        if linked_among(other, x, c, n - 1) {
            let j = choose|j: int|
                0 <= j < n - 1 && j < other.len() && (#[trigger] other[j]).key == x
                    && other[j].children.contains(c);
            assert(0 <= j < n && other[j].key == x && other[j].children.contains(c));
        }
        if node.key == x && node.children.contains(c) {
            assert(linked_among(other, x, c, n));
        }
    }
}

/// What a merge gives, seen from the key `x` and the child `c`: the merged
/// graph has the nodes of both, a node weighs what it weighs in both
/// together, and it has the children it has in either.
pub proof fn lemma_merged(g: Seq<NodeView>, other: Seq<NodeView>, x: Key, c: Key)
    requires
        well_formed(g),
        well_formed(other),
    ensures
        well_formed(merged(g, other)),
        has_key(merged(g, other), x) == (has_key(g, x) || has_key(other, x)),
        weight_of(merged(g, other), x) == weight_of(g, x) + weight_of(other, x),
        has_child(merged(g, other), x, c) == (has_child(g, x, c) || has_child(other, x, c)),
{
    let n = other.len() as int;
    let taken = absorbed_upto(g, other, n);
    lemma_absorbed_upto(g, other, n, x);
    lemma_among(other, x, n);
    assert forall|j: int| 0 <= j < other.len() implies has_key(taken, (#[trigger] other[j]).key) by {
        lemma_absorbed_upto(g, other, n, other[j].key);
        assert(among(other, other[j].key, n));
    }
    lemma_adopted_upto(taken, other, n, x, c);
    if linked_among(other, x, c, n) {
        let j = choose|j: int|
            0 <= j < n && j < other.len() && (#[trigger] other[j]).key == x && other[j].children.contains(
                c,
            );
        lemma_position(other, j);
    }
    if has_child(other, x, c) {
        let j = position(other, x);
        assert(other[j].key == x && other[j].children.contains(c));
    }
}

/// Merging a graph in once more adds no node and moves none.
pub proof fn lemma_merged_again(g: Seq<NodeView>, other: Seq<NodeView>)
    requires
        well_formed(g),
        well_formed(other),
        forall|j: int| 0 <= j < other.len() ==> has_key(g, (#[trigger] other[j]).key),
    ensures
        merged(g, other).len() == g.len(),
        forall|i: int| 0 <= i < g.len() ==> (#[trigger] merged(g, other)[i]).key == g[i].key,
{
    let n = other.len() as int;
    lemma_taken_again(g, other, n);
    let taken = absorbed_upto(g, other, n);
    assert forall|j: int| 0 <= j < other.len() implies has_key(taken, (#[trigger] other[j]).key) by {
        lemma_same_keys(taken, g, other[j].key);
    }
    lemma_absorbed_upto(g, other, n, root_key());
    lemma_adopted_upto(taken, other, n, root_key(), root_key());
    assert forall|i: int| 0 <= i < g.len() implies (#[trigger] merged(g, other)[i]).key == g[i].key by {
        assert(taken[i].key == g[i].key);
    }
}

proof fn lemma_taken_again(g: Seq<NodeView>, other: Seq<NodeView>, n: int)
    requires
        well_formed(g),
        0 <= n <= other.len(),
        forall|j: int| 0 <= j < other.len() ==> has_key(g, (#[trigger] other[j]).key),
    ensures
        absorbed_upto(g, other, n).len() == g.len(),
        forall|i: int| 0 <= i < g.len() ==> (#[trigger] absorbed_upto(g, other, n)[i]).key == g[i].key,
    decreases n,
{
    if n > 0 {
        lemma_taken_again(g, other, n - 1);
        let before = absorbed_upto(g, other, n - 1);
        lemma_absorbed_upto(g, other, n - 1, other[n - 1].key);
        lemma_absorbed(before, other[n - 1].key, other[n - 1].weight, root_key());
        let now = absorbed_upto(g, other, n);
        assert forall|i: int| 0 <= i < g.len() implies (#[trigger] now[i]).key == g[i].key by {
            assert(before[i].key == g[i].key);
        }
    }
}

/// Whether two graphs have the same nodes with the same weights and the
/// same children, in whatever order they hold them.
pub open spec fn alike(a: Seq<NodeView>, b: Seq<NodeView>) -> bool {
    &&& forall|x: Key| #[trigger] has_key(a, x) == has_key(b, x)
    &&& forall|x: Key| #[trigger] weight_of(a, x) == weight_of(b, x)
    &&& forall|x: Key, c: Key| #[trigger] has_child(a, x, c) == has_child(b, x, c)
}

/// Merging does not depend on which graph is merged into which, up to the
/// order of nodes and children.
pub proof fn lemma_merge_commutes(a: Seq<NodeView>, b: Seq<NodeView>)
    requires
        well_formed(a),
        well_formed(b),
    ensures
        alike(merged(a, b), merged(b, a)),
{
    assert forall|x: Key| #[trigger] has_key(merged(a, b), x) == has_key(merged(b, a), x) by {
        lemma_merged(a, b, x, x);
        lemma_merged(b, a, x, x);
    }
    assert forall|x: Key| #[trigger] weight_of(merged(a, b), x) == weight_of(merged(b, a), x) by {
        lemma_merged(a, b, x, x);
        lemma_merged(b, a, x, x);
    }
    assert forall|x: Key, c: Key| #[trigger]
        has_child(merged(a, b), x, c) == has_child(merged(b, a), x, c) by {
        lemma_merged(a, b, x, c);
        lemma_merged(b, a, x, c);
    }
}

/// Merging three graphs does not depend on how the merges are grouped, up
/// to the order of nodes and children.
pub proof fn lemma_merge_associates(a: Seq<NodeView>, b: Seq<NodeView>, c: Seq<NodeView>)
    requires
        well_formed(a),
        well_formed(b),
        well_formed(c),
    ensures
        alike(merged(merged(a, b), c), merged(a, merged(b, c))),
{
    let left = merged(merged(a, b), c);
    let right = merged(a, merged(b, c));
    lemma_merged(a, b, root_key(), root_key());
    lemma_merged(b, c, root_key(), root_key());
    assert forall|x: Key| #[trigger] has_key(left, x) == has_key(right, x) by {
        lemma_merged(a, b, x, x);
        lemma_merged(merged(a, b), c, x, x);
        lemma_merged(b, c, x, x);
        lemma_merged(a, merged(b, c), x, x);
    }
    assert forall|x: Key| #[trigger] weight_of(left, x) == weight_of(right, x) by {
        lemma_merged(a, b, x, x);
        lemma_merged(merged(a, b), c, x, x);
        lemma_merged(b, c, x, x);
        lemma_merged(a, merged(b, c), x, x);
    }
    assert forall|x: Key, y: Key| #[trigger] has_child(left, x, y) == has_child(right, x, y) by {
        lemma_merged(a, b, x, y);
        lemma_merged(merged(a, b), c, x, y);
        lemma_merged(b, c, x, y);
        lemma_merged(a, merged(b, c), x, y);
    }
}

/// The graph `g` after the graphs `others` have been merged into it one
/// after the other.
pub open spec fn merged_all(g: Seq<NodeView>, others: Seq<Seq<NodeView>>) -> Seq<NodeView>
    decreases others.len(),
{
    if others.len() == 0 {
        g
    } else {
        merged(merged_all(g, others.drop_last()), others.last())
    }
}

/// What the key `x` weighs in all the graphs together.
pub open spec fn weight_in_all(others: Seq<Seq<NodeView>>, x: Key) -> nat
    decreases others.len(),
{
    if others.len() == 0 {
        0
    } else {
        weight_in_all(others.drop_last(), x) + weight_of(others.last(), x)
    }
}

/// Whether one of the graphs has a node with the key `x`.
pub open spec fn key_in_any(others: Seq<Seq<NodeView>>, x: Key) -> bool {
    exists|i: int| 0 <= i < others.len() && has_key(#[trigger] others[i], x)
}

/// Whether in one of the graphs the node with the key `x` has the child
/// `c`.
pub open spec fn child_in_any(others: Seq<Seq<NodeView>>, x: Key, c: Key) -> bool {
    exists|i: int| 0 <= i < others.len() && has_child(#[trigger] others[i], x, c)
}

/// What merging several graphs in gives, seen from the key `x` and the
/// child `c`: the nodes of all, each with the weight it has in all
/// together and with the children it has in any.
pub proof fn lemma_merged_all(g: Seq<NodeView>, others: Seq<Seq<NodeView>>, x: Key, c: Key)
    requires
        well_formed(g),
        forall|i: int| 0 <= i < others.len() ==> well_formed(#[trigger] others[i]),
    ensures
        well_formed(merged_all(g, others)),
        has_key(merged_all(g, others), x) == (has_key(g, x) || key_in_any(others, x)),
        weight_of(merged_all(g, others), x) == weight_of(g, x) + weight_in_all(others, x),
        has_child(merged_all(g, others), x, c) == (has_child(g, x, c) || child_in_any(others, x, c)),
    decreases others.len(),
{
    if others.len() > 0 {
        let head = others.drop_last();
        let last = others.last();
        assert forall|i: int| 0 <= i < head.len() implies well_formed(#[trigger] head[i]) by {
            assert(head[i] == others[i]);
        }
        lemma_merged_all(g, head, x, c);
        lemma_merged(merged_all(g, head), last, x, c);
        if key_in_any(others, x) {
            let i = choose|i: int| 0 <= i < others.len() && has_key(#[trigger] others[i], x);
            if i < head.len() {
                assert(has_key(head[i], x));
            }
        }
        if key_in_any(head, x) {
            let i = choose|i: int| 0 <= i < head.len() && has_key(#[trigger] head[i], x);
            assert(has_key(others[i], x));
        }
        if has_key(last, x) {
            assert(has_key(others[others.len() - 1], x));
        }
        if child_in_any(others, x, c) {
            let i = choose|i: int| 0 <= i < others.len() && has_child(#[trigger] others[i], x, c);
            if i < head.len() {
                assert(has_child(head[i], x, c));
            }
        }
        if child_in_any(head, x, c) {
            let i = choose|i: int| 0 <= i < head.len() && has_child(#[trigger] head[i], x, c);
            assert(has_child(others[i], x, c));
        }
        if has_child(last, x, c) {
            assert(has_child(others[others.len() - 1], x, c));
        }
    }
}

proof fn lemma_weight_in_all_without(others: Seq<Seq<NodeView>>, i: int, x: Key)
    requires
        0 <= i < others.len(),
    ensures
        weight_in_all(others, x) == weight_in_all(others.remove(i), x) + weight_of(others[i], x),
    decreases others.len(),
{
    if i == others.len() - 1 {
        assert(others.remove(i) =~= others.drop_last());
    } else {
        lemma_weight_in_all_without(others.drop_last(), i, x);
        assert(others.remove(i).drop_last() =~= others.drop_last().remove(i));
        assert(others.remove(i).last() == others.last());
    }
}

proof fn lemma_weight_in_all_any_order(a: Seq<Seq<NodeView>>, b: Seq<Seq<NodeView>>, x: Key)
    requires
        a.to_multiset() == b.to_multiset(),
    ensures
        weight_in_all(a, x) == weight_in_all(b, x),
    decreases a.len(),
{
    broadcast use vstd::seq_lib::group_to_multiset_ensures;

    if a.len() == 0 {
        assert(b.to_multiset().len() == 0);
        assert(b.len() == 0);
    } else {
        let last = a.last();
        assert(a =~= a.drop_last().push(last));
        assert(a.to_multiset().count(last) > 0);
        assert(b.contains(last));
        let i = choose|i: int| 0 <= i < b.len() && b[i] == last;
        vstd::seq_lib::to_multiset_remove(b, i);
        assert(a.drop_last().to_multiset() =~= b.remove(i).to_multiset());
        lemma_weight_in_all_any_order(a.drop_last(), b.remove(i), x);
        lemma_weight_in_all_without(b, i, x);
    }
}

proof fn lemma_same_members(a: Seq<Seq<NodeView>>, b: Seq<Seq<NodeView>>, i: int)
    requires
        a.to_multiset() == b.to_multiset(),
        0 <= i < a.len(),
    ensures
        exists|j: int| 0 <= j < b.len() && b[j] == a[i],
{
    broadcast use vstd::seq_lib::group_to_multiset_ensures;

    assert(a.contains(a[i]));
    assert(a.to_multiset().count(a[i]) > 0);
    assert(b.contains(a[i]));
}

/// Whatever the order in which graphs are merged into a graph, the result
/// has the same nodes with the same weights and the same children.
pub proof fn lemma_merge_any_order(
    g: Seq<NodeView>,
    a: Seq<Seq<NodeView>>,
    b: Seq<Seq<NodeView>>,
)
    requires
        well_formed(g),
        forall|i: int| 0 <= i < a.len() ==> well_formed(#[trigger] a[i]),
        a.to_multiset() == b.to_multiset(),
    ensures
        alike(merged_all(g, a), merged_all(g, b)),
{
    assert forall|j: int| 0 <= j < b.len() implies well_formed(#[trigger] b[j]) by {
        lemma_same_members(b, a, j);
        let i = choose|i: int| 0 <= i < a.len() && a[i] == b[j];
        assert(well_formed(a[i]));
    }
    assert forall|x: Key| #[trigger] has_key(merged_all(g, a), x) == has_key(merged_all(g, b), x) by {
        lemma_merged_all(g, a, x, x);
        lemma_merged_all(g, b, x, x);
        if key_in_any(a, x) {
            let i = choose|i: int| 0 <= i < a.len() && has_key(#[trigger] a[i], x);
            lemma_same_members(a, b, i);
            let j = choose|j: int| 0 <= j < b.len() && b[j] == a[i];
            assert(has_key(b[j], x));
        }
        if key_in_any(b, x) {
            let i = choose|i: int| 0 <= i < b.len() && has_key(#[trigger] b[i], x);
            lemma_same_members(b, a, i);
            let j = choose|j: int| 0 <= j < a.len() && a[j] == b[i];
            assert(has_key(a[j], x));
        }
    }
    assert forall|x: Key| #[trigger]
        weight_of(merged_all(g, a), x) == weight_of(merged_all(g, b), x) by {
        lemma_merged_all(g, a, x, x);
        lemma_merged_all(g, b, x, x);
        lemma_weight_in_all_any_order(a, b, x);
    }
    assert forall|x: Key, c: Key| #[trigger]
        has_child(merged_all(g, a), x, c) == has_child(merged_all(g, b), x, c) by {
        lemma_merged_all(g, a, x, c);
        lemma_merged_all(g, b, x, c);
        if child_in_any(a, x, c) {
            let i = choose|i: int| 0 <= i < a.len() && has_child(#[trigger] a[i], x, c);
            lemma_same_members(a, b, i);
            let j = choose|j: int| 0 <= j < b.len() && b[j] == a[i];
            assert(has_child(b[j], x, c));
        }
        if child_in_any(b, x, c) {
            let i = choose|i: int| 0 <= i < b.len() && has_child(#[trigger] b[i], x, c);
            lemma_same_members(b, a, i);
            let j = choose|j: int| 0 <= j < a.len() && a[j] == b[i];
            assert(has_child(a[j], x, c));
        }
    }
}

/// A merge lets no weight fall.
pub proof fn lemma_merge_grows(g: Seq<NodeView>, other: Seq<NodeView>, x: Key)
    requires
        well_formed(g),
        well_formed(other),
    ensures
        weight_of(merged(g, other), x) >= weight_of(g, x),
{
    lemma_merged(g, other, x, x);
}

/// Recording an execution lets no weight fall and no node go.
pub proof fn lemma_walk_grows(g: Seq<NodeView>, trace: Seq<Key>, x: Key)
    requires
        well_formed(g),
    ensures
        weight_of(walked(g, trace), x) >= weight_of(g, x),
        has_key(g, x) ==> has_key(walked(g, trace), x),
{
    lemma_walked_upto(g, trace, trace.len() as int, x);
}

/// Whether the keys lead from the root along child links, each to the next.
pub open spec fn is_path(g: Seq<NodeView>, path: Seq<Key>) -> bool {
    &&& path.len() >= 1
    &&& path[0] == root_key()
    &&& forall|i: int| 0 <= i < path.len() - 1 ==> has_child(g, #[trigger] path[i], path[i + 1])
}

/// Whether child links lead from the root to the key `k`.
pub open spec fn reachable(g: Seq<NodeView>, k: Key) -> bool {
    exists|path: Seq<Key>| is_path(g, path) && path.last() == k
}

/// Whether child links lead from the root to every node.
pub open spec fn connected(g: Seq<NodeView>) -> bool {
    forall|k: Key| has_key(g, k) ==> reachable(g, k)
}

proof fn lemma_reachable_kept(g: Seq<NodeView>, h: Seq<NodeView>, k: Key)
    requires
        reachable(g, k),
        forall|x: Key, c: Key| has_child(g, x, c) ==> has_child(h, x, c),
    ensures
        reachable(h, k),
{
    let path = choose|path: Seq<Key>| is_path(g, path) && path.last() == k;
    assert(is_path(h, path));
}

proof fn lemma_reachable_next(g: Seq<NodeView>, from: Key, to: Key)
    requires
        reachable(g, from),
        has_child(g, from, to),
    ensures
        reachable(g, to),
{
    let path = choose|path: Seq<Key>| is_path(g, path) && path.last() == from;
    let longer = path.push(to);
    assert forall|i: int| 0 <= i < longer.len() - 1 implies has_child(
        g,
        #[trigger] longer[i],
        longer[i + 1],
    ) by {
        if i < path.len() - 1 {
            assert(has_child(g, path[i], path[i + 1]));
        }
    }
    assert(is_path(g, longer));
    assert(longer.last() == to);
}

/// In the fresh graph the root is all there is, and it is reached.
pub proof fn lemma_fresh_connected()
    ensures
        connected(fresh()),
{
    lemma_fresh();
    let path = seq![root_key()];
    assert(is_path(fresh(), path));
    assert(path.last() == root_key());
    assert forall|k: Key| has_key(fresh(), k) implies reachable(fresh(), k) by {
        assert(k == root_key());
    }
}

proof fn lemma_walked_connected(g: Seq<NodeView>, trace: Seq<Key>, n: int)
    requires
        well_formed(g),
        connected(g),
        0 <= n <= trace.len(),
    ensures
        connected(walked_upto(g, trace, n)),
    decreases n,
{
    if n > 0 {
        let before = walked_upto(g, trace, n - 1);
        let from = stand(trace, n - 1);
        let to = trace[n - 1];
        let counted = absorbed(before, to, 1);
        let now = walked_upto(g, trace, n);
        lemma_walked_connected(g, trace, n - 1);
        lemma_walked_upto(g, trace, n - 1, from);
        lemma_absorbed(before, to, 1, from);
        lemma_absorbed(before, to, 1, to);
        assert forall|x: Key, c: Key| has_child(before, x, c) implies has_child(now, x, c) by {
            lemma_absorbed(before, to, 1, x);
            lemma_linked(counted, from, to, x, c);
        }
        lemma_linked(counted, from, to, from, to);
        lemma_reachable_kept(before, now, from);
        lemma_reachable_next(now, from, to);
        assert forall|k: Key| has_key(now, k) implies reachable(now, k) by {
            lemma_absorbed(before, to, 1, k);
            lemma_linked(counted, from, to, k, k);
            if k != to {
                lemma_reachable_kept(before, now, k);
            }
        }
    }
}

/// Recording an execution keeps every node within reach of the root.
pub proof fn lemma_walk_connected(g: Seq<NodeView>, trace: Seq<Key>)
    requires
        well_formed(g),
        connected(g),
    ensures
        connected(walked(g, trace)),
{
    lemma_walked_connected(g, trace, trace.len() as int);
}

/// A merge of two graphs keeps every node within reach of the root.
pub proof fn lemma_merge_connected(a: Seq<NodeView>, b: Seq<NodeView>)
    requires
        well_formed(a),
        well_formed(b),
        connected(a),
        connected(b),
    ensures
        connected(merged(a, b)),
{
    let m = merged(a, b);
    assert forall|x: Key, c: Key| has_child(a, x, c) implies has_child(m, x, c) by {
        lemma_merged(a, b, x, c);
    }
    assert forall|x: Key, c: Key| has_child(b, x, c) implies has_child(m, x, c) by {
        lemma_merged(a, b, x, c);
    }
    assert forall|k: Key| has_key(m, k) implies reachable(m, k) by {
        lemma_merged(a, b, k, k);
        if has_key(a, k) {
            lemma_reachable_kept(a, m, k);
        } else {
            lemma_reachable_kept(b, m, k);
        }
    }
}

/// The chunk that the node at position `i` falls in when a graph of `len`
/// nodes is cut into `k` chunks.
pub open spec fn chunk_of(len: int, k: int, i: int) -> int {
    if i / (len / k) < k - 1 {
        i / (len / k)
    } else {
        k - 1
    }
}

/// The flat partitioner hands every node to exactly one plan: the node at
/// position `i` is a member of the plan for its chunk, and lies in no other
/// chunk.
pub proof fn lemma_flat_partition_covers(g: Seq<NodeView>, k: int, i: int)
    requires
        1 <= k <= g.len(),
        0 <= i < g.len(),
    ensures
        ({
            let len = g.len() as int;
            let r = chunk_of(len, k, i);
            let from = chunk_start(len, k, r);
            &&& 0 <= r < k
            &&& from <= i < chunk_end(len, k, r)
            &&& flat_partition(g, k)[r].plan[i - from] == g[i].key
            &&& forall|other: int|
                0 <= other < k && other != r ==> !(#[trigger] chunk_start(len, k, other) <= i
                    < chunk_end(len, k, other))
        }),
{
    let len = g.len() as int;
    let size = len / k;
    let r = chunk_of(len, k, i);
    assert(size >= 1) by (nonlinear_arith)
        requires
            1 <= k <= len,
            size == len / k,
    ;
    let q = i / size;
    assert(q * size <= i < (q + 1) * size && q >= 0) by (nonlinear_arith)
        requires
            q == i / size,
            size >= 1,
            i >= 0,
    ;
    assert(0 <= r < k);
    assert(chunk_start(len, k, r) <= i < chunk_end(len, k, r)) by (nonlinear_arith)
        requires
            q * size <= i < (q + 1) * size,
            r == if q < k - 1 {
                q
            } else {
                k - 1
            },
            i < len,
            chunk_start(len, k, r) == r * size,
            chunk_end(len, k, r) == if r == k - 1 {
                len
            } else {
                (r + 1) * size
            },
            size >= 1,
    ;
    assert forall|other: int| 0 <= other < k && other != r implies !(#[trigger] chunk_start(
        len,
        k,
        other,
    ) <= i < chunk_end(len, k, other)) by {
        let from = chunk_start(len, k, other);
        let to = chunk_end(len, k, other);
        if other < r {
            assert(to <= i) by (nonlinear_arith)
                requires
                    other < r,
                    r <= q,
                    q * size <= i,
                    to == (other + 1) * size,
                    size >= 1,
            ;
        } else {
            assert(from > i) by (nonlinear_arith)
                requires
                    other > r,
                    r == q,
                    i < (q + 1) * size,
                    from == other * size,
                    size >= 1,
            ;
        }
    }
}

} // verus!
