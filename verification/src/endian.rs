//! Little-endian integer encoding, and the byte-order calls the library makes.
use vstd::prelude::*;
use vstd::arithmetic::power::pow;
use byteorder::{ByteOrder, LittleEndian};

verus! {

/// The number that the bytes `s` denote, least significant byte first.
pub open spec fn le_value(s: Seq<u8>) -> nat
    decreases s.len(),
{
    if s.len() == 0 {
        0
    } else {
        s[0] as nat + 256 * le_value(s.drop_first())
    }
}

/// The `len` lowest bytes of `n`, least significant byte first.
pub open spec fn le_bytes(n: nat, len: nat) -> Seq<u8>
    decreases len,
{
    if len == 0 {
        Seq::empty()
    } else {
        seq![(n % 256) as u8] + le_bytes(n / 256, (len - 1) as nat)
    }
}

pub proof fn lemma_le_bytes_len(n: nat, len: nat)
    ensures
        le_bytes(n, len).len() == len,
    decreases len,
{
    if len > 0 {
        lemma_le_bytes_len(n / 256, (len - 1) as nat);
    }
}

/// Reading back the bytes that `le_bytes` writes gives the number written,
/// when it fits in that many bytes.
pub proof fn lemma_le_value_of_bytes(n: nat, len: nat)
    requires
        n < pow(256, len),
    ensures
        le_value(le_bytes(n, len)) == n,
    decreases len,
{
    reveal(pow);
    if len == 0 {
    } else {
        let rest = le_bytes(n / 256, (len - 1) as nat);
        let s = le_bytes(n, len);
        assert(s.drop_first() =~= rest);
        assert(pow(256, len) == 256 * pow(256, (len - 1) as nat));
        assert(n / 256 < pow(256, (len - 1) as nat)) by (nonlinear_arith)
            requires
                n < 256 * pow(256, (len - 1) as nat),
        ;
        lemma_le_value_of_bytes(n / 256, (len - 1) as nat);
        assert(n == n % 256 + 256 * (n / 256)) by (nonlinear_arith);
    }
}

/// Writing the number that some bytes denote gives those bytes back.
pub proof fn lemma_le_bytes_of_value(s: Seq<u8>)
    ensures
        le_bytes(le_value(s), s.len()) == s,
    decreases s.len(),
{
    if s.len() > 0 {
        let v = le_value(s);
        let r = le_value(s.drop_first());
        assert(v == s[0] as nat + 256 * r);
        assert(v % 256 == s[0] as nat && v / 256 == r) by (nonlinear_arith)
            requires
                v == s[0] as nat + 256 * r,
                s[0] < 256,
        ;
        lemma_le_bytes_of_value(s.drop_first());
        assert(le_bytes(v, s.len()) =~= seq![s[0]] + s.drop_first());
        assert(seq![s[0]] + s.drop_first() =~= s);
    }
}

/// The number that `len` bytes denote is below `256` to the power `len`.
pub proof fn lemma_le_value_bound(s: Seq<u8>)
    ensures
        le_value(s) < pow(256, s.len()),
    decreases s.len(),
{
    reveal(pow);
    if s.len() > 0 {
        lemma_le_value_bound(s.drop_first());
        let r = le_value(s.drop_first());
        let p = pow(256, (s.len() - 1) as nat);
        assert(s[0] as nat + 256 * r < 256 * p) by (nonlinear_arith)
            requires
                r < p,
                s[0] < 256,
        ;
    }
}

pub proof fn lemma_pow256_4()
    ensures
        pow(256, 4) == 0x1_0000_0000,
{
    reveal_with_fuel(pow, 5);
}

pub proof fn lemma_pow256_8()
    ensures
        pow(256, 8) == 0x1_0000_0000_0000_0000,
{
    reveal_with_fuel(pow, 9);
}

/// `LittleEndian::read_u32` of byteorder: the number that the first four
/// bytes of `buf` denote, least significant first.
#[verifier::external_body]
pub(crate) fn le_read_u32(buf: &[u8]) -> (n: u32)
    requires
        buf@.len() >= 4,
    ensures
        n as nat == le_value(buf@.take(4)),
{
    LittleEndian::read_u32(buf)
}

/// `LittleEndian::write_u32` of byteorder: the first four bytes of `buf`
/// become the bytes of `n`, least significant first; the rest is unchanged.
#[verifier::external_body]
pub(crate) fn le_write_u32(buf: &mut Vec<u8>, n: u32)
    requires
        old(buf)@.len() >= 4,
    ensures
        final(buf)@ == le_bytes(n as nat, 4) + old(buf)@.skip(4),
{
    LittleEndian::write_u32(buf.as_mut_slice(), n)
}

/// `LittleEndian::read_u64` of byteorder: the number that the first eight
/// bytes of `buf` denote, least significant first.
#[verifier::external_body]
pub(crate) fn le_read_u64(buf: &[u8]) -> (n: u64)
    requires
        buf@.len() >= 8,
    ensures
        n as nat == le_value(buf@.take(8)),
{
    LittleEndian::read_u64(buf)
}

/// `LittleEndian::write_u64` of byteorder: the first eight bytes of `buf`
/// become the bytes of `n`, least significant first; the rest is unchanged.
#[verifier::external_body]
pub(crate) fn le_write_u64(buf: &mut Vec<u8>, n: u64)
    requires
        old(buf)@.len() >= 8,
    ensures
        final(buf)@ == le_bytes(n as nat, 8) + old(buf)@.skip(8),
{
    LittleEndian::write_u64(buf.as_mut_slice(), n)
}

} // verus!
