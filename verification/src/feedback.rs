//! The novelty test of a worker's coverage feedback.

use vstd::prelude::*;

verus! {

/// The hit count that stands for an edge after a new count came in: the
/// higher of the two.
pub open spec fn reduced(seen: u8, now: u8) -> u8 {
    if seen > now {
        seen
    } else {
        now
    }
}

/// The hit count seen so far on the entry `i`: the initial count for an
/// entry beyond the history.
pub open spec fn seen_at(history: Seq<u8>, initial: u8, i: int) -> u8 {
    if 0 <= i < history.len() {
        history[i]
    } else {
        initial
    }
}

/// Whether the entry `i` of a coverage map is a new hit: it was hit in this
/// execution, its edge is not masked out, and the new count changes the
/// count that stands for it. An edge beyond the mask is not masked.
pub open spec fn is_hit(
    map: Seq<u8>,
    history: Seq<u8>,
    ignored: Seq<bool>,
    initial: u8,
    i: int,
) -> bool {
    &&& 0 <= i < map.len()
    &&& map[i] != initial
    &&& !(i < ignored.len() && ignored[i])
    &&& reduced(seen_at(history, initial, i), map[i]) != seen_at(history, initial, i)
}

/// The new hits among the first `n` entries of a coverage map, in rising
/// order.
pub open spec fn hits_upto(
    map: Seq<u8>,
    history: Seq<u8>,
    ignored: Seq<bool>,
    initial: u8,
    n: int,
) -> Seq<usize>
    decreases n,
{
    if n <= 0 {
        Seq::empty()
    } else if is_hit(map, history, ignored, initial, n - 1) {
        hits_upto(map, history, ignored, initial, n - 1).push((n - 1) as usize)
    } else {
        hits_upto(map, history, ignored, initial, n - 1)
    }
}

/// The edges on which this execution was novel, in rising order: hit, not
/// masked out for this worker, and with a hit count above the highest seen
/// before.
///
/// This is the novelty test of a map feedback that keeps the maximum of
/// the counts and takes every change of it as novel.
pub fn novel_hits(map: &[u8], history: &[u8], ignored: &[bool], initial: u8) -> (hits: Vec<usize>)
    ensures
        hits@ == hits_upto(map@, history@, ignored@, initial, map@.len() as int),
{
    let mut hits: Vec<usize> = Vec::new();
    let mut i: usize = 0;
    while i < map.len()
        invariant
            i <= map.len(),
            hits@ == hits_upto(map@, history@, ignored@, initial, i as int),
        decreases map.len() - i,
    {
        let item = map[i];
        let masked = i < ignored.len() && ignored[i];
        let existing = if i < history.len() {
            history[i]
        } else {
            initial
        };
        let reduced = if existing > item {
            existing
        } else {
            item
        };
        if item != initial && !masked && reduced != existing {
            hits.push(i);
        }
        i += 1;
    }
    hits
}

/// An execution is interesting when it has a new hit.
pub fn is_interesting(map: &[u8], history: &[u8], ignored: &[bool], initial: u8) -> (interesting:
    bool)
    ensures
        interesting == (exists|i: int| is_hit(map@, history@, ignored@, initial, i)),
{
    let n = map.len();
    let hits = novel_hits(map, history, ignored, initial);
    proof {
        lemma_hits(map@, history@, ignored@, initial, n as int);
        if hits@.len() > 0 {
            assert(hits@.contains(hits@[0]));
            assert(is_hit(map@, history@, ignored@, initial, hits@[0] as int));
        }
        if exists|i: int| is_hit(map@, history@, ignored@, initial, i) {
            let i = choose|i: int| is_hit(map@, history@, ignored@, initial, i);
            assert(hits@.contains(i as usize));
        }
    }
    hits.len() > 0
}

/// The new hits among the first `n` entries are exactly the entries below
/// `n` that are new hits.
pub proof fn lemma_hits(map: Seq<u8>, history: Seq<u8>, ignored: Seq<bool>, initial: u8, n: int)
    requires
        0 <= n <= map.len(),
        n <= usize::MAX,
    ensures
        forall|h: usize| #[trigger]
            hits_upto(map, history, ignored, initial, n).contains(h) <==> h < n && is_hit(
                map,
                history,
                ignored,
                initial,
                h as int,
            ),
    decreases n,
{
    let now = hits_upto(map, history, ignored, initial, n);
    if n > 0 {
        lemma_hits(map, history, ignored, initial, n - 1);
        let before = hits_upto(map, history, ignored, initial, n - 1);
        assert forall|h: usize|
            now.contains(h) <==> h < n && is_hit(map, history, ignored, initial, h as int) by {
            assert(before.contains(h) <==> h < n - 1 && is_hit(
                map,
                history,
                ignored,
                initial,
                h as int,
            ));
            if !is_hit(map, history, ignored, initial, n - 1) {
                assert(now == before);
            } else {
                assert(now =~= before.push((n - 1) as usize));
                if before.contains(h) {
                    let j = choose|j: int| 0 <= j < before.len() && before[j] == h;
                    assert(now[j] == h);
                }
                if h == n - 1 {
                    assert(now[now.len() - 1] == h);
                }
                if now.contains(h) {
                    let j = choose|j: int| 0 <= j < now.len() && now[j] == h;
                    if j < before.len() {
                        assert(before[j] == h);
                    }
                }
            }
        }
    } else {
        assert forall|h: usize| !now.contains(h) by {}
    }
}

} // verus!
