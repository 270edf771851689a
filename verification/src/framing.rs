//! Length-prefixed framing of byte payloads.
//!
//! On the wire, every payload travels as a 4-byte big-endian length followed
//! by exactly that many payload bytes.  [`frame_payload`] builds one frame;
//! [`FrameDecoder`] accumulates arbitrary stream chunks and hands back the
//! framed payloads one at a time, in order, however the stream was chunked.

use vstd::prelude::*;

verus! {

/// The four big-endian bytes of a 32-bit length.
pub open spec fn be_bytes(n: u32) -> Seq<u8> {
    seq![
        (n >> 24) as u8,
        ((n >> 16) & 0xff) as u8,
        ((n >> 8) & 0xff) as u8,
        (n & 0xff) as u8,
    ]
}

/// The 32-bit value read from four big-endian bytes.
pub open spec fn be_val(b0: u8, b1: u8, b2: u8, b3: u8) -> u32 {
    ((b0 as u32) << 24) | ((b1 as u32) << 16) | ((b2 as u32) << 8) | (b3 as u32)
}

/// Reading back the four bytes of a length gives the length.
pub proof fn lemma_be_roundtrip(n: u32)
    ensures
        be_val(
            (n >> 24) as u8,
            ((n >> 16) & 0xff) as u8,
            ((n >> 8) & 0xff) as u8,
            (n & 0xff) as u8,
        ) == n,
{
    assert((((n >> 24) as u8 as u32) << 24) | ((((n >> 16) & 0xff) as u8 as u32) << 16) | ((((n
        >> 8) & 0xff) as u8 as u32) << 8) | ((n & 0xff) as u8 as u32) == n) by (bit_vector);
}

/// One frame: the big-endian byte length of the payload, then the payload.
pub open spec fn frame(payload: Seq<u8>) -> Seq<u8>
    recommends
        payload.len() <= u32::MAX,
{
    be_bytes(payload.len() as u32) + payload
}

/// A buffer starts with a complete frame.
pub open spec fn has_frame(b: Seq<u8>) -> bool {
    b.len() >= 4 && 4 + frame_len(b) <= b.len()
}

/// The payload length announced by the first four buffered bytes.
pub open spec fn frame_len(b: Seq<u8>) -> nat
    recommends
        b.len() >= 4,
{
    be_val(b[0], b[1], b[2], b[3]) as nat
}

/// The payload of the first complete frame in a buffer.
pub open spec fn first_payload(b: Seq<u8>) -> Seq<u8>
    recommends
        has_frame(b),
{
    b.subrange(4, 4 + frame_len(b) as int)
}

/// The buffer with its first complete frame removed.
pub open spec fn after_first_frame(b: Seq<u8>) -> Seq<u8>
    recommends
        has_frame(b),
{
    b.skip(4 + frame_len(b) as int)
}

/// Builds the frame for a payload.  Fails exactly when the payload is too
/// long for its length to fit in 32 bits.
pub fn frame_payload(payload: &[u8]) -> (r: Option<Vec<u8>>)
    ensures
        r matches Some(f) ==> payload@.len() <= u32::MAX && f@ == frame(payload@),
        r is None <==> payload@.len() > u32::MAX,
{
    if payload.len() > u32::MAX as usize {
        return None;
    }
    let n = payload.len() as u32;
    let mut out: Vec<u8> = Vec::new();
    out.push((n >> 24) as u8);
    out.push(((n >> 16) & 0xff) as u8);
    out.push(((n >> 8) & 0xff) as u8);
    out.push((n & 0xff) as u8);
    let mut i: usize = 0;
    while i < payload.len()
        invariant
            i <= payload@.len(),
            out@ == be_bytes(payload@.len() as u32) + payload@.take(i as int),
        decreases payload@.len() - i,
    {
        out.push(payload[i]);
        proof {
            assert(payload@.take(i as int).push(payload@[i as int]) =~= payload@.take(i as int + 1));
        }
        i = i + 1;
    }
    proof {
        assert(payload@.take(payload@.len() as int) =~= payload@);
        assert(out@ =~= be_bytes(payload@.len() as u32) + payload@);
    }
    Some(out)
}

/// Accumulates stream chunks and yields one framed payload at a time.
pub struct FrameDecoder {
    buf: Vec<u8>,
}

impl FrameDecoder {
    /// The bytes received and not yet consumed by a completed frame.
    pub closed spec fn buffered(&self) -> Seq<u8> {
        self.buf@
    }

    /// A fresh decoder with an empty buffer.
    pub fn new() -> (r: FrameDecoder)
        ensures
            r.buffered() == Seq::<u8>::empty(),
    {
        FrameDecoder { buf: Vec::new() }
    }

    /// Appends one received chunk to the buffer.  Where the stream is cut
    /// into chunks makes no difference: only the concatenation matters.
    pub fn feed(&mut self, chunk: &[u8])
        ensures
            final(self).buffered() == old(self).buffered() + chunk@,
    {
        let mut i: usize = 0;
        while i < chunk.len()
            invariant
                i <= chunk@.len(),
                self.buf@ == old(self).buf@ + chunk@.take(i as int),
            decreases chunk@.len() - i,
        {
            self.buf.push(chunk[i]);
            proof {
                assert(chunk@.take(i as int).push(chunk@[i as int]) =~= chunk@.take(i as int + 1));
            }
            i = i + 1;
        }
        proof {
            assert(chunk@.take(chunk@.len() as int) =~= chunk@);
        }
    }

    /// Takes the first complete frame's payload off the buffer, if one whole
    /// frame has arrived.
    pub fn next_frame(&mut self) -> (r: Option<Vec<u8>>)
        ensures
            has_frame(old(self).buffered()) ==> (r matches Some(p) && p@ == first_payload(
                old(self).buffered(),
            ) && final(self).buffered() == after_first_frame(old(self).buffered())),
            !has_frame(old(self).buffered()) ==> r is None && final(self).buffered() == old(
                self,
            ).buffered(),
    {
        if self.buf.len() < 4 {
            return None;
        }
        let n = be_to_u32(self.buf[0], self.buf[1], self.buf[2], self.buf[3]);
        let len = n as usize;
        if len > self.buf.len() - 4 {
            return None;
        }
        let end: usize = 4 + len;
        let mut payload: Vec<u8> = Vec::new();
        let mut i: usize = 4;
        while i < end
            invariant
                4 <= i <= end,
                end == 4 + len,
                end <= self.buf@.len(),
                len == frame_len(self.buf@),
                payload@ == self.buf@.subrange(4, i as int),
            decreases end - i,
        {
            payload.push(self.buf[i]);
            proof {
                assert(self.buf@.subrange(4, i as int).push(self.buf@[i as int])
                    =~= self.buf@.subrange(4, i as int + 1));
            }
            i = i + 1;
        }
        let mut rest: Vec<u8> = Vec::new();
        let mut j: usize = end;
        while j < self.buf.len()
            invariant
                end == 4 + len,
                end <= j <= self.buf@.len(),
                rest@ == self.buf@.subrange(end as int, j as int),
            decreases self.buf@.len() - j,
        {
            rest.push(self.buf[j]);
            proof {
                assert(self.buf@.subrange(end as int, j as int).push(self.buf@[j as int])
                    =~= self.buf@.subrange(end as int, j as int + 1));
            }
            j = j + 1;
        }
        proof {
            assert(rest@ =~= old(self).buffered().skip(4 + len as int));
        }
        self.buf = rest;
        Some(payload)
    }
}

/// The 32-bit value read from four big-endian bytes.
fn be_to_u32(b0: u8, b1: u8, b2: u8, b3: u8) -> (r: u32)
    ensures
        r == be_val(b0, b1, b2, b3),
{
    ((b0 as u32) << 24) | ((b1 as u32) << 16) | ((b2 as u32) << 8) | (b3 as u32)
}

/// The concatenation of the frames of a list of payloads, in order.
pub open spec fn frames(payloads: Seq<Seq<u8>>) -> Seq<u8>
    decreases payloads,
{
    if payloads.len() == 0 {
        Seq::empty()
    } else {
        frame(payloads[0]) + frames(payloads.drop_first())
    }
}

/// The payloads recovered by reading complete frames off a buffer until
/// none is left.
pub open spec fn decode_all(b: Seq<u8>) -> Seq<Seq<u8>>
    decreases b.len(),
{
    if has_frame(b) {
        seq![first_payload(b)] + decode_all(after_first_frame(b))
    } else {
        Seq::empty()
    }
}

/// Framing correctness: however many frames are written back to back, a
/// reader recovers exactly those payloads, in order.  Chunking does not
/// matter, because [`FrameDecoder::feed`] only concatenates.
pub proof fn lemma_frames_decode(payloads: Seq<Seq<u8>>)
    requires
        forall|i: int| 0 <= i < payloads.len() ==> #[trigger] payloads[i].len() <= u32::MAX,
    ensures
        decode_all(frames(payloads)) == payloads,
    decreases payloads,
{
    if payloads.len() == 0 {
        assert(!has_frame(frames(payloads)));
        assert(decode_all(frames(payloads)) =~= payloads);
    } else {
        let p = payloads[0];
        let b = frames(payloads);
        let restb = frames(payloads.drop_first());
        assert(b == frame(p) + restb);
        lemma_be_roundtrip(p.len() as u32);
        assert(b[0] == be_bytes(p.len() as u32)[0]);
        assert(b[1] == be_bytes(p.len() as u32)[1]);
        assert(b[2] == be_bytes(p.len() as u32)[2]);
        assert(b[3] == be_bytes(p.len() as u32)[3]);
        assert(frame_len(b) == p.len());
        assert(has_frame(b));
        assert(first_payload(b) =~= p);
        assert(after_first_frame(b) =~= restb);
        lemma_frames_decode(payloads.drop_first());
        assert(decode_all(b) =~= payloads);
    }
}

} // verus!
