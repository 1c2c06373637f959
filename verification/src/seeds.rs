//! The shared corpus of a fleet that exchanges testcases without a graph.

use vstd::prelude::*;
use std::collections::HashMap;
use crate::wire::{
    be32_bytes, decode_frame, encode_frame, frame_kind, frame_payload, framed, has_frame,
    GLOBAL_GRAPH, LOCAL_GRAPH, MAX_PAYLOAD, SEED, TESTCASE,
};

verus! {

broadcast use vstd::std_specs::hash::group_hash_axioms;

/// The kind of message by which a worker asks for the testcases it has not
/// seen yet.
pub const REQUEST: u8 = LOCAL_GRAPH;

/// The kind of message that says how many testcases follow.
pub const COUNT: u8 = GLOBAL_GRAPH;

/// The corpus that the process of rank 0 keeps where the fleet shares
/// testcases and no graph: every testcase handed in, and for each rank how
/// many of them it has been sent.
pub struct SeedStore {
    /// The testcases in the order they came in.
    pub corpus: Vec<Vec<u8>>,
    /// For a rank, the number of testcases it has been sent.
    pub served: HashMap<u32, usize>,
}

/// How many testcases the rank has been sent; none where nothing is noted.
pub open spec fn served_to(served: Map<u32, usize>, rank: u32) -> int {
    if served.contains_key(rank) {
        served[rank] as int
    } else {
        0
    }
}

/// The testcases as byte sequences.
pub open spec fn testcases(corpus: Seq<Vec<u8>>) -> Seq<Seq<u8>> {
    Seq::new(corpus.len(), |i: int| corpus[i]@)
}

/// The answer to a request: how many testcases follow, then each of the
/// testcases from position `from` on.
pub open spec fn handout(corpus: Seq<Seq<u8>>, from: int) -> Seq<Seq<u8>> {
    Seq::new(
        (corpus.len() - from + 1) as nat,
        |i: int|
            if i == 0 {
                framed(COUNT, be32_bytes(corpus.len() - from))
            } else {
                framed(TESTCASE, corpus[from + i - 1])
            },
    )
}

/// The messages as byte sequences.
pub open spec fn message_views(messages: Seq<Vec<u8>>) -> Seq<Seq<u8>> {
    Seq::new(messages.len(), |i: int| messages[i]@)
}

impl SeedStore {
    /// Whether the store is in order: no testcase is too long for a frame,
    /// their number fits in a count, and no rank has been sent more than
    /// there is.
    pub open spec fn wf(&self) -> bool {
        &&& self.corpus@.len() <= u32::MAX
        &&& forall|i: int| 0 <= i < self.corpus@.len() ==> (#[trigger] self.corpus@[i])@.len() <= MAX_PAYLOAD
        &&& forall|rank: u32| 0 <= #[trigger] served_to(self.served@, rank) <= self.corpus@.len()
    }

    /// What the store holds, as byte sequences.
    pub open spec fn view(&self) -> Seq<Seq<u8>> {
        testcases(self.corpus@)
    }

    /// Whether the store takes the testcase in: it fits a frame and the
    /// store is not full.
    pub open spec fn takes(&self, payload: Seq<u8>) -> bool {
        payload.len() <= MAX_PAYLOAD && self.corpus@.len() < u32::MAX
    }

    /// A store without testcases.
    pub fn new() -> (store: Self)
        ensures
            store.wf(),
            store@ == Seq::<Seq<u8>>::empty(),
            forall|rank: u32| served_to(store.served@, rank) == 0,
    {
        let store = SeedStore { corpus: Vec::new(), served: HashMap::new() };
        assert(store@ =~= Seq::<Seq<u8>>::empty());
        store
    }

    /// Acts on a message from the rank `from` and says what to send back.
    /// A testcase handed in is kept. A request is answered with the number
    /// of testcases that the rank has not been sent yet, and with these.
    /// Any other message changes nothing.
    pub fn on_message(&mut self, from: u32, bytes: &[u8]) -> (replies: Vec<Vec<u8>>)
        requires
            old(self).wf(),
        ensures
            final(self).wf(),
            if has_frame(bytes@) && frame_kind(bytes@) == SEED && old(self).takes(
                frame_payload(bytes@),
            ) {
                &&& final(self)@ == old(self)@.push(frame_payload(bytes@))
                &&& final(self).served@ == old(self).served@
                &&& replies@.len() == 0
            } else if has_frame(bytes@) && frame_kind(bytes@) == REQUEST {
                &&& final(self)@ == old(self)@
                &&& final(self).served@ == old(self).served@.insert(from, old(self).corpus@.len() as usize)
                &&& message_views(replies@) == handout(
                    old(self)@,
                    served_to(old(self).served@, from),
                )
            } else {
                &&& final(self)@ == old(self)@
                &&& final(self).served@ == old(self).served@
                &&& replies@.len() == 0
            },
    {
        let mut replies: Vec<Vec<u8>> = Vec::new();
        let frame = match decode_frame(bytes) {
            Some(frame) => frame,
            None => {
                return replies;
            },
        };
        if frame.kind == SEED {
            if frame.payload.len() <= MAX_PAYLOAD && self.corpus.len() < u32::MAX as usize {
                let ghost before = self@;
                self.corpus.push(frame.payload);
                proof {
                    assert(self@ =~= before.push(frame_payload(bytes@)));
                    assert forall|rank: u32| 0 <= #[trigger] served_to(self.served@, rank)
                        <= self.corpus@.len() by {
                        assert(served_to(old(self).served@, rank) <= old(self).corpus@.len());
                    }
                }
            }
            return replies;
        }
        if frame.kind != REQUEST {
            return replies;
        }
        let start: usize = match self.served.get(&from) {
            Some(count) => *count,
            None => 0,
        };
        assert(start == served_to(self.served@, from));
        let pending = self.corpus.len() - start;
        let mut count: Vec<u8> = Vec::new();
        count.push((pending / 0x100_0000 % 0x100) as u8);
        count.push((pending / 0x1_0000 % 0x100) as u8);
        count.push((pending / 0x100 % 0x100) as u8);
        count.push((pending % 0x100) as u8);
        assert(count@ =~= be32_bytes(pending as int));
        let ghost goal = handout(self@, start as int);
        match encode_frame(COUNT, count.as_slice()) {
            Some(message) => {
                replies.push(message);
            },
            None => {},
        }
        let mut i: usize = start;
        while i < self.corpus.len()
            invariant
                start <= i <= self.corpus.len(),
                self.wf(),
                *self == *old(self),
                goal == handout(self@, start as int),
                replies@.len() == i - start + 1,
                forall|j: int| 0 <= j < replies@.len() ==> (#[trigger] replies@[j])@ == goal[j],
            decreases self.corpus.len() - i,
        {
            match encode_frame(TESTCASE, self.corpus[i].as_slice()) {
                Some(message) => {
                    replies.push(message);
                },
                None => {},
            }
            i += 1;
        }
        self.served.insert(from, self.corpus.len());
        proof {
            assert(message_views(replies@) =~= goal);
            assert forall|rank: u32| 0 <= #[trigger] served_to(self.served@, rank)
                <= self.corpus@.len() by {
                assert(served_to(old(self).served@, rank) <= old(self).corpus@.len());
            }
        }
        replies
    }
}

} // verus!
