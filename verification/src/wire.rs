//! The frames in which messages travel between the processes.

use vstd::prelude::*;

verus! {

/// The length of every message on the transport.
pub const FRAME_LEN: usize = 4096;

/// The most that a message can carry.
pub const MAX_PAYLOAD: usize = 4091;

/// A worker hands its graph to the coordinator.
pub const LOCAL_GRAPH: u8 = 0;

/// The coordinator hands the graph of the fleet to a worker.
pub const GLOBAL_GRAPH: u8 = 1;

/// A worker hands a testcase to the worker that owns its region.
pub const TESTCASE: u8 = 2;

/// A worker hands a testcase to the coordinator's seed corpus.
pub const SEED: u8 = 3;

/// The number that the four bytes at `offset` stand for, the first byte
/// counting most.
pub open spec fn be32(bytes: Seq<u8>, offset: int) -> int {
    bytes[offset] * 0x100_0000 + bytes[offset + 1] * 0x1_0000 + bytes[offset + 2] * 0x100
        + bytes[offset + 3]
}

/// The four bytes that stand for `n`, the first byte counting most.
pub open spec fn be32_bytes(n: int) -> Seq<u8> {
    seq![
        (n / 0x100_0000 % 0x100) as u8,
        (n / 0x1_0000 % 0x100) as u8,
        (n / 0x100 % 0x100) as u8,
        (n % 0x100) as u8,
    ]
}

/// A message as the transport carries it: the payload's length plus one in
/// four bytes, the kind, the payload, and zeros up to the length of a frame.
pub open spec fn framed(kind: u8, payload: Seq<u8>) -> Seq<u8> {
    be32_bytes(payload.len() as int + 1) + seq![kind] + payload + Seq::new(
        (MAX_PAYLOAD - payload.len()) as nat,
        |i: int| 0u8,
    )
}

/// Whether the bytes start with a header that fits them: a length of one or
/// more that does not reach past their end.
pub open spec fn has_frame(bytes: Seq<u8>) -> bool {
    &&& bytes.len() >= 5
    &&& 1 <= be32(bytes, 0)
    &&& 4 + be32(bytes, 0) <= bytes.len()
}

/// The kind of the message in the bytes.
pub open spec fn frame_kind(bytes: Seq<u8>) -> u8 {
    bytes[4]
}

/// The payload of the message in the bytes.
pub open spec fn frame_payload(bytes: Seq<u8>) -> Seq<u8> {
    bytes.subrange(5, 4 + be32(bytes, 0))
}

/// A message taken off the transport.
#[derive(Debug)]
pub struct Frame {
    /// What the payload is.
    pub kind: u8,
    /// What the message carries.
    pub payload: Vec<u8>,
}

/// Reads the number in the four bytes at `offset`, the first byte counting
/// most.
pub fn get_u32(v: &[u8], offset: usize) -> (n: u32)
    requires
        offset + 4 <= v.len(),
    ensures
        n == be32(v@, offset as int),
{
    let end = offset + 4;
    let mut size: u32 = 0;
    let mut i: usize = offset;
    while i < end
        invariant
            end == offset + 4,
            offset <= i <= offset + 4,
            offset + 4 <= v@.len(),
            i == offset ==> size == 0,
            i == offset + 1 ==> size == v@[offset as int],
            i == offset + 2 ==> size == v@[offset as int] * 0x100 + v@[offset + 1],
            i == offset + 3 ==> size == v@[offset as int] * 0x1_0000 + v@[offset + 1] * 0x100
                + v@[offset + 2],
            i == offset + 4 ==> size == be32(v@, offset as int),
        decreases offset + 4 - i,
    {
        size = size * 256;
        size = size + v[i] as u32;
        i += 1;
    }
    size
}

/// A frame packs and unpacks to what went in.
pub proof fn lemma_framed(kind: u8, payload: Seq<u8>)
    requires
        payload.len() <= MAX_PAYLOAD,
    ensures
        framed(kind, payload).len() == FRAME_LEN,
        has_frame(framed(kind, payload)),
        frame_kind(framed(kind, payload)) == kind,
        frame_payload(framed(kind, payload)) == payload,
{
    let bytes = framed(kind, payload);
    let n = payload.len() + 1;
    assert(be32(bytes, 0) == n);
    assert(frame_payload(bytes) =~= payload);
}

/// Packs a message for the transport. A payload that is too long for one
/// frame is refused.
pub fn encode_frame(kind: u8, payload: &[u8]) -> (bytes: Option<Vec<u8>>)
    ensures
        bytes is Some == (payload@.len() <= MAX_PAYLOAD),
        bytes matches Some(b) ==> b@ == framed(kind, payload@),
{
    if payload.len() > MAX_PAYLOAD {
        return None;
    }
    let size: usize = payload.len() + 1;
    let mut bytes: Vec<u8> = Vec::new();
    bytes.push((size / 0x100_0000 % 0x100) as u8);
    bytes.push((size / 0x1_0000 % 0x100) as u8);
    bytes.push((size / 0x100 % 0x100) as u8);
    bytes.push((size % 0x100) as u8);
    bytes.push(kind);
    let ghost head = bytes@;
    assert(head =~= be32_bytes(size as int) + seq![kind]);
    let mut i: usize = 0;
    while i < payload.len()
        invariant
            i <= payload.len(),
            bytes@ == head + payload@.take(i as int),
        decreases payload.len() - i,
    {
        bytes.push(payload[i]);
        assert(payload@.take(i + 1) =~= payload@.take(i as int).push(payload@[i as int]));
        i += 1;
    }
    assert(payload@.take(payload.len() as int) =~= payload@);
    let ghost body = bytes@;
    while bytes.len() < FRAME_LEN
        invariant
            body.len() <= bytes@.len() <= FRAME_LEN,
            body == head + payload@,
            head.len() == 5,
            payload@.len() <= MAX_PAYLOAD,
            bytes@ == body + Seq::new((bytes@.len() - body.len()) as nat, |i: int| 0u8),
        decreases FRAME_LEN - bytes.len(),
    {
        bytes.push(0);
    }
    assert(bytes@ =~= framed(kind, payload@));
    Some(bytes)
}

/// Unpacks a message taken off the transport. Bytes whose header does not
/// fit them are refused.
pub fn decode_frame(bytes: &[u8]) -> (frame: Option<Frame>)
    ensures
        frame is Some == has_frame(bytes@),
        frame matches Some(f) ==> f.kind == frame_kind(bytes@) && f.payload@ == frame_payload(bytes@),
{
    if bytes.len() < 5 {
        return None;
    }
    let size = get_u32(bytes, 0) as usize;
    if size < 1 || size > bytes.len() - 4 {
        return None;
    }
    let end = 4 + size;
    let mut payload: Vec<u8> = Vec::new();
    let mut i: usize = 5;
    while i < end
        invariant
            end == 4 + size,
            5 <= i <= 4 + size <= bytes@.len(),
            payload@ == bytes@.subrange(5, i as int),
        decreases 4 + size - i,
    {
        payload.push(bytes[i]);
        assert(bytes@.subrange(5, i + 1) =~= bytes@.subrange(5, i as int).push(bytes@[i as int]));
        i += 1;
    }
    Some(Frame { kind: bytes[4], payload })
}

} // verus!
