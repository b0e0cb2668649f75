//! Length-prefixed frames: how one serialised message travels over a pipe
//! between the server and a child process.
use vstd::prelude::*;
use crate::endian::{
    le_bytes, le_value, le_read_u32, le_write_u32, lemma_le_bytes_len, lemma_le_value_of_bytes,
    lemma_pow256_4,
};

verus! {

/// The largest payload whose length the four-byte header holds exactly.
pub const MAX_FRAME_PAYLOAD: usize = 0xffff_ffff;

/// The length field that a frame carries for a payload of `len` bytes:
/// the length cut to 32 bits, as a cast to `u32` does.
pub open spec fn header_field(len: nat) -> nat {
    len % 0x1_0000_0000
}

/// The bytes of the frame that carries `payload`.
pub open spec fn frame_bytes(payload: Seq<u8>) -> Seq<u8> {
    le_bytes(header_field(payload.len()), 4) + payload
}

/// The payload length that the first four bytes of `bytes` announce.
pub open spec fn announced_len(bytes: Seq<u8>) -> nat {
    le_value(bytes.take(4))
}

/// Why a buffer does not hold a whole frame.
#[derive(Debug, PartialEq, Eq)]
pub enum FrameError {
    /// Fewer than four bytes: the length header is cut off.
    MissingHeader,
    /// The header announces `expected` bytes of payload, and fewer follow.
    MissingPayload { expected: usize },
}

/// Frames a serialised message: its length as four bytes, least
/// significant first (the length is cut to 32 bits), then the message.
pub fn encode_frame(payload: &[u8]) -> (frame: Vec<u8>)
    ensures
        frame@ == frame_bytes(payload@),
{
    let len: usize = payload.len();
    // the length cut to its low 32 bits, as `len as u32` gives it
    let wide: u64 = len as u64;
    let field: u32 = (wide % 0x1_0000_0000) as u32;
    let mut frame: Vec<u8> = Vec::new();
    frame.push(0u8);
    frame.push(0u8);
    frame.push(0u8);
    frame.push(0u8);
    le_write_u32(&mut frame, field);
    proof {
        lemma_le_bytes_len(field as nat, 4);
        assert(frame@ =~= le_bytes(header_field(len as nat), 4));
    }
    frame.extend_from_slice(payload);
    frame
}

/// The payload length that a frame header announces.
pub fn payload_len(header: &[u8]) -> (len: usize)
    requires
        header@.len() >= 4,
    ensures
        len as nat == announced_len(header@),
{
    let n: u32 = le_read_u32(header);
    n as usize
}

/// Splits the first frame off `bytes`: its payload and the number of bytes
/// the frame takes, or what is missing for a whole frame.
pub fn decode_frame(bytes: &[u8]) -> (res: Result<(Vec<u8>, usize), FrameError>)
    ensures
        bytes@.len() < 4 <==> res == Err::<(Vec<u8>, usize), FrameError>(FrameError::MissingHeader),
        bytes@.len() >= 4 ==> match res {
            Ok((payload, used)) => {
                &&& 4 + announced_len(bytes@) <= bytes@.len()
                &&& used == 4 + announced_len(bytes@)
                &&& payload@ == bytes@.subrange(4, used as int)
            },
            Err(FrameError::MissingPayload { expected }) => {
                &&& expected == announced_len(bytes@)
                &&& bytes@.len() < 4 + announced_len(bytes@)
            },
            Err(FrameError::MissingHeader) => false,
        },
{
    if bytes.len() < 4 {
        return Err(FrameError::MissingHeader);
    }
    let len = payload_len(bytes);
    if bytes.len() - 4 < len {
        return Err(FrameError::MissingPayload { expected: len });
    }
    let used: usize = 4 + len;
    let mut payload: Vec<u8> = Vec::new();
    let mut i: usize = 4;
    while i < used
        invariant
            4 <= i <= used <= bytes@.len(),
            payload@ == bytes@.subrange(4, i as int),
        decreases used - i,
    {
        payload.push(bytes[i]);
        proof {
            assert(payload@ =~= bytes@.subrange(4, i + 1));
        }
        i = i + 1;
    }
    Ok((payload, used))
}

/// A frame announces the length of the payload it carries, and the payload
/// follows the header, whatever bytes come after the frame, as long as the
/// length fits in the header.
pub proof fn lemma_frame_roundtrip(payload: Seq<u8>, rest: Seq<u8>)
    requires
        payload.len() <= MAX_FRAME_PAYLOAD,
    ensures
        ({
            let bytes = frame_bytes(payload) + rest;
            &&& bytes.len() >= 4
            &&& announced_len(bytes) == payload.len()
            &&& bytes.subrange(4, 4 + payload.len() as int) == payload
        }),
{
    let bytes = frame_bytes(payload) + rest;
    let h = header_field(payload.len());
    assert(h == payload.len());
    lemma_le_bytes_len(h, 4);
    lemma_pow256_4();
    lemma_le_value_of_bytes(h, 4);
    assert(bytes.take(4) =~= le_bytes(h, 4));
    assert(bytes.subrange(4, 4 + payload.len() as int) =~= payload);
}

} // verus!
