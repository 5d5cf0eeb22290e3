//! Length-prefixed frames: how messages are delimited on the wire.

use crate::error::KvsError;
use vstd::prelude::*;
use vstd::string::StringExecFns;

verus! {

/// The longest payload a frame may carry.
pub const MAX_FRAME_LEN: u32 = 8 * 1024 * 1024;

/// The four bytes of `n`, most significant first.
pub open spec fn be32(n: u32) -> Seq<u8> {
    seq![(n >> 24u32) as u8, (n >> 16u32) as u8, (n >> 8u32) as u8, n as u8]
}

/// The number that four bytes give, most significant first.
pub open spec fn be32_value(b: Seq<u8>) -> u32 {
    ((b[0] as u32) << 24u32) | ((b[1] as u32) << 16u32) | ((b[2] as u32) << 8u32) | (b[3] as u32)
}

/// A payload framed for the wire: its length in four big-endian bytes,
/// then the payload.
pub open spec fn frame_of(payload: Seq<u8>) -> Seq<u8> {
    be32(payload.len() as u32) + payload
}

/// What the front of a buffer holds.
pub enum FrameView {
    /// Not yet a whole frame.
    Incomplete,
    /// A header announcing a payload longer than `MAX_FRAME_LEN`.
    TooLong,
    /// A whole frame: its payload, and the bytes it takes up.
    Complete(Seq<u8>, nat),
}

/// What the front of `buf` holds, read as frames.
pub open spec fn frame_at(buf: Seq<u8>) -> FrameView {
    if buf.len() < 4 {
        FrameView::Incomplete
    } else {
        let n = be32_value(buf.take(4));
        if n > MAX_FRAME_LEN {
            FrameView::TooLong
        } else if buf.len() < 4 + n {
            FrameView::Incomplete
        } else {
            FrameView::Complete(buf.subrange(4, 4 + n), (4 + n) as nat)
        }
    }
}

/// The front of a buffer, read as frames.
pub enum Frame {
    Incomplete,
    TooLong,
    Complete { payload: Vec<u8>, consumed: usize },
}

impl Frame {
    /// This result as a mathematical value.
    pub open spec fn view(&self) -> FrameView {
        match self {
            Frame::Incomplete => FrameView::Incomplete,
            Frame::TooLong => FrameView::TooLong,
            Frame::Complete { payload, consumed } => FrameView::Complete(payload@, *consumed as nat),
        }
    }
}

/// `payload` framed for the wire; refused when it is longer than
/// `MAX_FRAME_LEN`.
pub fn encode_frame(payload: &Vec<u8>) -> (r: Result<Vec<u8>, KvsError>)
    ensures
        payload@.len() <= MAX_FRAME_LEN ==> (r matches Ok(f) && f@ == frame_of(payload@)),
        payload@.len() > MAX_FRAME_LEN ==> r matches Err(KvsError::OtherError(_)),
{
    if payload.len() > MAX_FRAME_LEN as usize {
        return Err(KvsError::OtherError(String::from_str("frame size too big")));
    }
    let n = payload.len() as u32;
    let mut out: Vec<u8> = Vec::new();
    out.push((n >> 24u32) as u8);
    out.push((n >> 16u32) as u8);
    out.push((n >> 8u32) as u8);
    out.push(n as u8);
    let mut i: usize = 0;
    while i < payload.len()
        invariant
            i <= payload@.len(),
            n == payload@.len(),
            out@ == be32(n) + payload@.take(i as int),
        decreases payload@.len() - i,
    {
        out.push(payload[i]);
        assert(payload@.take(i + 1) =~= payload@.take(i as int).push(payload@[i as int]));
        i = i + 1;
    }
    assert(payload@.take(payload@.len() as int) =~= payload@);
    Ok(out)
}

/// What the front of `buf` holds: a whole frame and the bytes it takes up,
/// a header announcing too long a payload, or not yet a whole frame.
pub fn decode_frame(buf: &Vec<u8>) -> (r: Frame)
    ensures
        r@ == frame_at(buf@),
{
    if buf.len() < 4 {
        return Frame::Incomplete;
    }
    let n = ((buf[0] as u32) << 24u32) | ((buf[1] as u32) << 16u32) | ((buf[2] as u32) << 8u32)
        | (buf[3] as u32);
    assert(n == be32_value(buf@.take(4)));
    if n > MAX_FRAME_LEN {
        return Frame::TooLong;
    }
    let end = 4 + n as usize;
    if buf.len() < end {
        return Frame::Incomplete;
    }
    let mut payload: Vec<u8> = Vec::new();
    let mut i: usize = 4;
    while i < end
        invariant
            4 <= i <= end,
            end <= buf@.len(),
            payload@ == buf@.subrange(4, i as int),
        decreases end - i,
    {
        payload.push(buf[i]);
        assert(buf@.subrange(4, i + 1) =~= buf@.subrange(4, i as int).push(buf@[i as int]));
        i = i + 1;
    }
    Frame::Complete { payload, consumed: end }
}

/// Reading a frame back gives the payload that was framed, whatever follows
/// it in the buffer.
pub proof fn lemma_frame_round_trip(payload: Seq<u8>, rest: Seq<u8>)
    requires
        payload.len() <= MAX_FRAME_LEN,
    ensures
        frame_at(frame_of(payload) + rest) == FrameView::Complete(payload, 4 + payload.len()),
{
    let n = payload.len() as u32;
    let buf = frame_of(payload) + rest;
    assert(buf.take(4) =~= be32(n));
    assert(be32_value(be32(n)) == n) by {
        let b0 = (n >> 24u32) as u8;
        let b1 = (n >> 16u32) as u8;
        let b2 = (n >> 8u32) as u8;
        let b3 = n as u8;
        assert(((b0 as u32) << 24u32) | ((b1 as u32) << 16u32) | ((b2 as u32) << 8u32) | (b3 as u32)
            == n) by (bit_vector)
            requires
                b0 == (n >> 24u32) as u8,
                b1 == (n >> 16u32) as u8,
                b2 == (n >> 8u32) as u8,
                b3 == n as u8,
        ;
    }
    assert(buf.subrange(4, 4 + n) =~= payload);
}

} // verus!
