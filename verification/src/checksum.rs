//! The Adler-32 checksum (RFC 1950, section 8.2) and its big-endian form,
//! which is how a zlib stream carries it.

use vstd::prelude::*;

verus! {

/// The modulus of both Adler-32 sums: the largest prime below 2^16.
pub const ADLER_BASE: u32 = 65521;

/// The two running sums of Adler-32 after `s`: `a` is 1 plus the sum of the
/// bytes, `b` the sum of the successive values of `a`, both modulo 65521.
pub open spec fn adler_sums(s: Seq<u8>) -> (nat, nat)
    decreases s.len(),
{
    if s.len() == 0 {
        (1, 0)
    } else {
        let prev = adler_sums(s.drop_last());
        let a = ((prev.0 + s.last()) % (ADLER_BASE as int)) as nat;
        (a, (((prev.1 + a) as int) % (ADLER_BASE as int)) as nat)
    }
}

/// The Adler-32 checksum of `s`: `b * 65536 + a`.
pub open spec fn adler32_spec(s: Seq<u8>) -> u32 {
    (adler_sums(s).1 * 65536 + adler_sums(s).0) as u32
}

/// `x` as four bytes, most significant first.
pub open spec fn be32(x: u32) -> Seq<u8> {
    seq![
        (x / 0x100_0000) as u8,
        ((x / 0x1_0000) % 256) as u8,
        ((x / 0x100) % 256) as u8,
        (x % 256) as u8,
    ]
}

/// Both sums stay below the modulus, so the checksum is exact in 32 bits.
pub proof fn lemma_adler_sums_bounded(s: Seq<u8>)
    ensures
        adler_sums(s).0 < ADLER_BASE,
        adler_sums(s).1 < ADLER_BASE,
        adler32_spec(s) == adler_sums(s).1 * 65536 + adler_sums(s).0,
    decreases s.len(),
{
    if s.len() > 0 {
        lemma_adler_sums_bounded(s.drop_last());
    }
}

/// Adler-32 of `data`, computed by `simd_adler32::adler32`.
///
/// Trusted: the crate documents this function as the Adler-32 hash of the
/// bytes, and its scalar and SIMD paths keep the two sums of RFC 1950
/// modulo 65521; the contract states exactly that checksum.
#[verifier::external_body]
fn adler32(data: &[u8]) -> (h: u32)
    ensures
        h == adler32_spec(data@),
{
    simd_adler32::adler32(&data)
}

/// Splits `x` into its four bytes, most significant first (what
/// `u32::to_be_bytes` returns).
pub fn u32_to_be(x: u32) -> (r: [u8; 4])
    ensures
        r@ == be32(x),
{
    let r = [(x >> 24u32) as u8, (x >> 16u32) as u8, (x >> 8u32) as u8, x as u8];
    assert((x >> 24u32) as u8 == (x / 0x100_0000) as u8) by (bit_vector);
    assert((x >> 16u32) as u8 == ((x / 0x1_0000) % 256) as u8) by (bit_vector);
    assert((x >> 8u32) as u8 == ((x / 0x100) % 256) as u8) by (bit_vector);
    assert(x as u8 == (x % 256) as u8) by (bit_vector);
    assert(r@ =~= be32(x));
    r
}

/// The four bytes that close a zlib stream over `data`: the Adler-32 of the
/// uncompressed bytes, big-endian.
pub fn zlib_trailer(data: &[u8]) -> (t: [u8; 4])
    ensures
        t@ == be32(adler32_spec(data@)),
{
    u32_to_be(adler32(data))
}

} // verus!
