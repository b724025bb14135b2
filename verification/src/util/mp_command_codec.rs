//! Framing of MessagePack-encoded command buffers: every frame is preceded
//! by its length in two bytes, most significant byte first.
use vstd::prelude::*;

verus! {

/// Codec of length-prefixed frames.
pub struct MpCommandCodec {}

impl MpCommandCodec {
    pub fn new() -> (r: MpCommandCodec) {
        MpCommandCodec {}
    }
}

/// What the front of a buffer of received bytes holds.
#[derive(Debug, Clone, Copy, PartialEq, Eq, Structural)]
pub enum FrameStatus {
    /// Not even the length marker has arrived.
    NoLength,
    /// The frame is not complete: `missing` more bytes are needed.
    Incomplete { missing: usize },
    /// A complete frame: its payload is the `len` bytes after the marker.
    Complete { len: usize },
}

/// Why a payload cannot be framed.
#[derive(Debug, Clone, Copy, PartialEq, Eq, Structural)]
pub enum FrameError {
    /// The payload is longer than a two-byte length can tell.
    MessageTooLong,
}

/// The length a marker of two bytes tells.
pub open spec fn marker_length(hi: u8, lo: u8) -> int {
    hi * 256 + lo
}

/// What the front of `src` holds.
pub open spec fn spec_frame_status(src: Seq<u8>) -> FrameStatus {
    if src.len() < 2 {
        FrameStatus::NoLength
    } else {
        let len = marker_length(src[0], src[1]);
        if src.len() < 2 + len {
            FrameStatus::Incomplete { missing: (2 + len - src.len()) as usize }
        } else {
            FrameStatus::Complete { len: len as usize }
        }
    }
}

/// The frame of `payload`: its length in two bytes, most significant first,
/// then the payload.
pub open spec fn spec_frame(payload: Seq<u8>) -> Seq<u8> {
    seq![(payload.len() / 256) as u8, (payload.len() % 256) as u8] + payload
}

/// Reads the front of `src` (see `spec_frame_status`).
pub fn frame_status(src: &[u8]) -> (r: FrameStatus)
    ensures
        r == spec_frame_status(src@),
{
    if src.len() < 2 {
        return FrameStatus::NoLength;
    }
    let length = (src[0] as usize) * 256 + (src[1] as usize);
    if src.len() < 2 + length {
        FrameStatus::Incomplete { missing: 2 + length - src.len() }
    } else {
        FrameStatus::Complete { len: length }
    }
}

/// Frames `payload`; refused when it is longer than `u16::MAX` bytes.
pub fn encode_frame(payload: &[u8]) -> (r: Result<Vec<u8>, FrameError>)
    ensures
        payload@.len() > u16::MAX ==> r == Err::<Vec<u8>, FrameError>(FrameError::MessageTooLong),
        payload@.len() <= u16::MAX ==> r is Ok && r->Ok_0@ == spec_frame(payload@),
{
    let n = payload.len();
    if n > 0xFFFF {
        return Err(FrameError::MessageTooLong);
    }
    let mut out: Vec<u8> = Vec::with_capacity(n + 2);
    out.push((n / 256) as u8);
    out.push((n % 256) as u8);
    let mut i: usize = 0;
    while i < n
        invariant
            i <= n,
            n == payload@.len(),
            n <= 0xFFFF,
            out@ == seq![(n / 256) as u8, (n % 256) as u8] + payload@.subrange(0, i as int),
        decreases n - i,
    {
        out.push(payload[i]);
        i = i + 1;
        assert(out@ =~= seq![(n / 256) as u8, (n % 256) as u8] + payload@.subrange(0, i as int));
    }
    assert(payload@.subrange(0, n as int) =~= payload@);
    Ok(out)
}

/// Reading back a frame: a frame of a payload, followed by any bytes, is
/// read as a complete frame of the payload's length, whose bytes are the
/// payload.
pub proof fn lemma_frame_roundtrip(payload: Seq<u8>, rest: Seq<u8>)
    requires
        payload.len() <= u16::MAX,
    ensures
        spec_frame_status(spec_frame(payload) + rest) == (FrameStatus::Complete { len: payload.len() as usize }),
        (spec_frame(payload) + rest).subrange(2, 2 + payload.len() as int) == payload,
{
    let f = spec_frame(payload) + rest;
    let n = payload.len();
    assert(f[0] == (n / 256) as u8);
    assert(f[1] == (n % 256) as u8);
    assert(marker_length(f[0], f[1]) == n);
    assert(f.subrange(2, 2 + n as int) =~= payload);
}

} // verus!
