//! The layout of a checkpoint file: a format version, eight bytes least
//! significant first, then the serialised checkpoint.
use vstd::prelude::*;
use crate::endian::{
    le_bytes, le_value, le_read_u64, le_write_u64, lemma_le_bytes_len, lemma_le_value_of_bytes,
    lemma_pow256_8,
};

verus! {

/// The format version this library reads and writes.
pub const CHECKPOINT_VERSION: u64 = 1;

/// The bytes of a checkpoint file whose serialised checkpoint is `body`.
pub open spec fn checkpoint_file_bytes(body: Seq<u8>) -> Seq<u8> {
    le_bytes(CHECKPOINT_VERSION as nat, 8) + body
}

/// The version that the first eight bytes of a file state.
pub open spec fn stated_version(bytes: Seq<u8>) -> nat {
    le_value(bytes.take(8))
}

/// Why the bytes of a file are no checkpoint this library reads.
#[derive(Debug, PartialEq, Eq)]
pub enum CheckpointFileError {
    /// The file ends before the eight bytes of its version.
    Truncated,
    /// The file states another format version.
    VersionMismatch { expected: u64, got: u64 },
}

/// The bytes to write to a checkpoint file: the version, then the body.
pub fn encode_checkpoint_file(body: &[u8]) -> (bytes: Vec<u8>)
    ensures
        bytes@ == checkpoint_file_bytes(body@),
{
    let mut bytes: Vec<u8> = Vec::new();
    let mut i: usize = 0;
    while i < 8
        invariant
            i <= 8,
            bytes@.len() == i,
        decreases 8 - i,
    {
        bytes.push(0u8);
        i = i + 1;
    }
    le_write_u64(&mut bytes, CHECKPOINT_VERSION);
    proof {
        lemma_le_bytes_len(CHECKPOINT_VERSION as nat, 8);
        assert(bytes@ =~= le_bytes(CHECKPOINT_VERSION as nat, 8));
    }
    bytes.extend_from_slice(body);
    bytes
}

/// The serialised checkpoint that a file holds after its version, or why
/// the file is refused: it ends before the version, or states another one.
pub fn decode_checkpoint_file(bytes: &[u8]) -> (res: Result<Vec<u8>, CheckpointFileError>)
    ensures
        bytes@.len() < 8 <==> res == Err::<Vec<u8>, CheckpointFileError>(
            CheckpointFileError::Truncated,
        ),
        bytes@.len() >= 8 ==> match res {
            Ok(body) => stated_version(bytes@) == CHECKPOINT_VERSION && body@ == bytes@.skip(8),
            Err(CheckpointFileError::VersionMismatch { expected, got }) => {
                &&& expected == CHECKPOINT_VERSION
                &&& got as nat == stated_version(bytes@)
                &&& got != CHECKPOINT_VERSION
            },
            Err(CheckpointFileError::Truncated) => false,
        },
{
    if bytes.len() < 8 {
        return Err(CheckpointFileError::Truncated);
    }
    let version: u64 = le_read_u64(bytes);
    if version != CHECKPOINT_VERSION {
        return Err(CheckpointFileError::VersionMismatch { expected: CHECKPOINT_VERSION, got: version });
    }
    let mut body: Vec<u8> = Vec::new();
    let mut i: usize = 8;
    while i < bytes.len()
        invariant
            8 <= i <= bytes@.len(),
            body@ == bytes@.subrange(8, i as int),
        decreases bytes@.len() - i,
    {
        body.push(bytes[i]);
        proof {
            assert(body@ =~= bytes@.subrange(8, i + 1));
        }
        i = i + 1;
    }
    proof {
        assert(body@ =~= bytes@.skip(8));
    }
    Ok(body)
}

/// A written checkpoint file states the version this library reads, and
/// its body follows: reading what was written gives the body back.
pub proof fn lemma_checkpoint_file_roundtrip(body: Seq<u8>)
    ensures
        checkpoint_file_bytes(body).len() >= 8,
        stated_version(checkpoint_file_bytes(body)) == CHECKPOINT_VERSION,
        checkpoint_file_bytes(body).skip(8) == body,
{
    let bytes = checkpoint_file_bytes(body);
    lemma_le_bytes_len(CHECKPOINT_VERSION as nat, 8);
    lemma_pow256_8();
    lemma_le_value_of_bytes(CHECKPOINT_VERSION as nat, 8);
    assert(bytes.take(8) =~= le_bytes(CHECKPOINT_VERSION as nat, 8));
    assert(bytes.skip(8) =~= body);
}

} // verus!
