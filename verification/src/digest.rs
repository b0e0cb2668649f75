//! How a program is identified in a checkpoint: by the SHA-256 digest of its
//! source, shown as the hexadecimal form of the digest's first four bytes.
use vstd::prelude::*;
use sha2::{Digest, Sha256};

verus! {

/// The SHA-256 digest of `data`, as sha2 computes it.
pub uninterp spec fn sha256(data: Seq<u8>) -> Seq<u8>;

/// `Sha256::digest` of sha2: the SHA-256 digest of `data`, 32 bytes.
#[verifier::external_body]
fn sha256_digest(data: &[u8]) -> (out: Vec<u8>)
    ensures
        out@ == sha256(data@),
        out@.len() == 32,
{
    Sha256::digest(data).to_vec()
}

/// The lowercase hexadecimal digit for `d`, below sixteen.
pub open spec fn hex_digit(d: nat) -> char {
    seq!['0', '1', '2', '3', '4', '5', '6', '7', '8', '9', 'a', 'b', 'c', 'd', 'e', 'f'][d as int]
}

/// Two lowercase hexadecimal digits per byte, high half first.
pub open spec fn hex_lower(data: Seq<u8>) -> Seq<char>
    decreases data.len(),
{
    if data.len() == 0 {
        Seq::empty()
    } else {
        seq![hex_digit(data[0] as nat / 16), hex_digit(data[0] as nat % 16)] + hex_lower(data.drop_first())
    }
}

/// `hex::encode` of hex: two lowercase hexadecimal digits per byte.
#[verifier::external_body]
fn hex_encode(data: &[u8]) -> (out: String)
    ensures
        out@ == hex_lower(data@),
{
    hex::encode(data)
}

/// The key under which a checkpoint files the results of a program: the
/// SHA-256 digest of its source.
pub fn program_digest(source: &[u8]) -> (key: [u8; 32])
    ensures
        key@ == sha256(source@),
{
    let digest = sha256_digest(source);
    let mut key: [u8; 32] = [0u8; 32];
    let mut i: usize = 0;
    while i < 32
        invariant
            i <= 32,
            digest@ == sha256(source@),
            digest@.len() == 32,
            key@.len() == 32,
            forall|j: int| 0 <= j < i ==> key@[j] == digest@[j],
        decreases 32 - i,
    {
        key[i] = digest[i];
        i = i + 1;
    }
    proof {
        assert(key@ =~= digest@);
    }
    key
}

/// The short tag under which the summary and the CSV export show a
/// program: the hexadecimal form of the first four bytes of its key.
pub fn algorithm_tag(key: &[u8; 32]) -> (tag: String)
    ensures
        tag@ == hex_lower(key@.take(4)),
{
    let mut head: Vec<u8> = Vec::new();
    let mut i: usize = 0;
    while i < 4
        invariant
            i <= 4,
            key@.len() == 32,
            head@ == key@.take(i as int),
        decreases 4 - i,
    {
        head.push(key[i]);
        proof {
            assert(head@ =~= key@.take(i + 1));
        }
        i = i + 1;
    }
    hex_encode(head.as_slice())
}

} // verus!
