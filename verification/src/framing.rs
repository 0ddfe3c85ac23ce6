//! Length-prefixed framing of serialized messages on a byte stream.
//!
//! A frame is the payload's length as four big-endian bytes, then the payload.
use vstd::prelude::*;

verus! {

/// The four big-endian bytes of `n`.
pub open spec fn be_bytes(n: u32) -> Seq<u8> {
    seq![(n >> 24u32) as u8, ((n >> 16u32) & 0xffu32) as u8, ((n >> 8u32) & 0xffu32) as u8, (n & 0xffu32) as u8]
}

/// The number four big-endian bytes spell.
pub open spec fn be_value(b0: u8, b1: u8, b2: u8, b3: u8) -> u32 {
    ((b0 as u32) << 24u32) | ((b1 as u32) << 16u32) | ((b2 as u32) << 8u32) | (b3 as u32)
}

/// The frame carrying `payload`: its length (kept to 32 bits) in big-endian
/// order, then the payload.
pub open spec fn frame_of(payload: Seq<u8>) -> Seq<u8> {
    be_bytes(payload.len() as u32) + payload
}

/// Frame `payload`: four big-endian length bytes, then the payload. The
/// length is taken modulo 2^32, as the wire format holds 32 bits.
pub fn encode_frame(payload: &[u8]) -> (r: Vec<u8>)
    ensures
        r@ == frame_of(payload@),
{
    let len = payload.len() as u32;
    let mut r: Vec<u8> = Vec::new();
    r.push((len >> 24u32) as u8);
    r.push(((len >> 16u32) & 0xffu32) as u8);
    r.push(((len >> 8u32) & 0xffu32) as u8);
    r.push((len & 0xffu32) as u8);
    let mut i: usize = 0;
    while i < payload.len()
        invariant
            i <= payload@.len(),
            len == payload@.len() as u32,
            r@ == be_bytes(len) + payload@.take(i as int),
        decreases payload.len() - i,
    {
        r.push(payload[i]);
        i = i + 1;
        assert(r@ =~= be_bytes(len) + payload@.take(i as int));
    }
    assert(payload@.take(i as int) =~= payload@);
    r
}

/// Where the first frame of `buf` lies: `Some((4, 4 + length))`, the
/// payload's positions, once the whole frame has arrived; `None` while fewer
/// than four bytes, or fewer than the announced length, are there.
pub fn frame_extent(buf: &[u8]) -> (r: Option<(usize, usize)>)
    ensures
        buf@.len() < 4 ==> r is None,
        buf@.len() >= 4 ==> ({
            let n = be_value(buf@[0], buf@[1], buf@[2], buf@[3]) as int;
            &&& buf@.len() < 4 + n ==> r is None
            &&& buf@.len() >= 4 + n ==> r == Some((4usize, (4 + n) as usize))
        }),
{
    if buf.len() < 4 {
        return None;
    }
    let b0 = buf[0];
    let b1 = buf[1];
    let b2 = buf[2];
    let b3 = buf[3];
    let n: u32 = ((b0 as u32) << 24u32) | ((b1 as u32) << 16u32) | ((b2 as u32) << 8u32) | (b3 as u32);
    if buf.len() - 4 < n as usize {
        return None;
    }
    Some((4, 4 + n as usize))
}

/// Reading back a frame gives the payload: for a payload that fits the
/// 32-bit length, the first frame of the frame followed by anything else is
/// exactly the payload's place.
pub proof fn lemma_frame_round_trip(payload: Seq<u8>, rest: Seq<u8>)
    requires
        payload.len() <= u32::MAX,
    ensures
        ({
            let buf = frame_of(payload) + rest;
            &&& buf.len() >= 4
            &&& be_value(buf[0], buf[1], buf[2], buf[3]) == payload.len()
            &&& buf.len() >= 4 + payload.len()
            &&& buf.subrange(4, (4 + payload.len()) as int) == payload
            &&& buf.skip((4 + payload.len()) as int) == rest
        }),
{
    let n = payload.len() as u32;
    let buf = frame_of(payload) + rest;
    assert(be_value(
        (n >> 24u32) as u8,
        ((n >> 16u32) & 0xffu32) as u8,
        ((n >> 8u32) & 0xffu32) as u8,
        (n & 0xffu32) as u8,
    ) == n) by (bit_vector);
    assert(buf[0] == (n >> 24u32) as u8);
    assert(buf.subrange(4, (4 + payload.len()) as int) =~= payload);
    assert(buf.skip((4 + payload.len()) as int) =~= rest);
}

} // verus!
