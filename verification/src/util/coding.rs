use vstd::prelude::*;
use vstd::slice::slice_subrange;

verus! {

/// The four bytes of `x`, least significant first.
pub open spec fn fixed32_bytes(x: u32) -> Seq<u8> {
    seq![
        (x % 256) as u8,
        ((x / 0x100) % 256) as u8,
        ((x / 0x1_0000) % 256) as u8,
        ((x / 0x100_0000) % 256) as u8,
    ]
}

/// The eight bytes of `x`, least significant first.
pub open spec fn fixed64_bytes(x: u64) -> Seq<u8> {
    fixed32_bytes((x % 0x1_0000_0000) as u32) + fixed32_bytes((x / 0x1_0000_0000) as u32)
}

/// The number whose little-endian digits are the first four bytes of `s`.
pub open spec fn fixed32_value(s: Seq<u8>) -> u32
    recommends
        s.len() >= 4,
{
    (s[0] as int + 0x100 * (s[1] as int) + 0x1_0000 * (s[2] as int) + 0x100_0000 * (s[3] as int)) as u32
}

/// The number whose little-endian digits are the first eight bytes of `s`.
pub open spec fn fixed64_value(s: Seq<u8>) -> u64
    recommends
        s.len() >= 8,
{
    (fixed32_value(s.subrange(0, 4)) as int + 0x1_0000_0000 * (fixed32_value(
        s.subrange(4, 8),
    ) as int)) as u64
}

/// Decoding inverts encoding.
pub proof fn lemma_fixed32_round_trip(x: u32)
    ensures
        fixed32_bytes(x).len() == 4,
        fixed32_value(fixed32_bytes(x)) == x,
{
}

/// Four bytes are told by their number.
pub proof fn lemma_fixed32_one_to_one(a: Seq<u8>, b: Seq<u8>)
    requires
        a.len() == 4,
        b.len() == 4,
        fixed32_value(a) == fixed32_value(b),
    ensures
        a == b,
{
    let (a0, a1, a2, a3) = (a[0], a[1], a[2], a[3]);
    let (b0, b1, b2, b3) = (b[0], b[1], b[2], b[3]);
    lemma_u32_of_bytes(a0, a1, a2, a3);
    lemma_u32_of_bytes(b0, b1, b2, b3);
    assert((a0 as u32) | ((a1 as u32) << 8) | ((a2 as u32) << 16) | ((a3 as u32) << 24) == (
    b0 as u32) | ((b1 as u32) << 8) | ((b2 as u32) << 16) | ((b3 as u32) << 24) ==> a0 == b0
        && a1 == b1 && a2 == b2 && a3 == b3) by (bit_vector);
    assert(a =~= b);
}

proof fn lemma_byte_of_u32(x: u32)
    ensures
        (x & 0xff) == x % 256,
        ((x >> 8) & 0xff) == (x / 0x100) % 256,
        ((x >> 16) & 0xff) == (x / 0x1_0000) % 256,
        ((x >> 24) & 0xff) == (x / 0x100_0000) % 256,
{
    assert((x & 0xff) == x % 256) by (bit_vector);
    assert(((x >> 8) & 0xff) == (x / 0x100) % 256) by (bit_vector);
    assert(((x >> 16) & 0xff) == (x / 0x1_0000) % 256) by (bit_vector);
    assert(((x >> 24) & 0xff) == (x / 0x100_0000) % 256) by (bit_vector);
}

proof fn lemma_u32_of_bytes(a: u8, b: u8, c: u8, d: u8)
    ensures
        (a as u32) | ((b as u32) << 8) | ((c as u32) << 16) | ((d as u32) << 24) == a as int + 0x100
            * (b as int) + 0x1_0000 * (c as int) + 0x100_0000 * (d as int),
{
    assert((a as u32) | ((b as u32) << 8) | ((c as u32) << 16) | ((d as u32) << 24) == a as u32
        + 0x100 * (b as u32) + 0x1_0000 * (c as u32) + 0x100_0000 * (d as u32)) by (bit_vector);
}

/// Encodes `x` as four little-endian bytes.
pub fn encode_fixed32(x: u32) -> (out: Vec<u8>)
    ensures
        out@ == fixed32_bytes(x),
{
    proof {
        lemma_byte_of_u32(x);
    }
    let mut out: Vec<u8> = Vec::with_capacity(4);
    out.push((x & 0xff) as u8);
    out.push(((x >> 8) & 0xff) as u8);
    out.push(((x >> 16) & 0xff) as u8);
    out.push(((x >> 24) & 0xff) as u8);
    assert(out@ =~= fixed32_bytes(x));
    out
}

/// Encodes `x` as eight little-endian bytes.
pub fn encode_fixed64(x: u64) -> (out: Vec<u8>)
    ensures
        out@ == fixed64_bytes(x),
{
    let lo: u32 = (x & 0xffff_ffff) as u32;
    let hi: u32 = (x >> 32) as u32;
    assert((x & 0xffff_ffff) == x % 0x1_0000_0000) by (bit_vector);
    assert((x >> 32) == x / 0x1_0000_0000) by (bit_vector);
    let mut out = encode_fixed32(lo);
    let mut high = encode_fixed32(hi);
    out.append(&mut high);
    out
}

/// Decodes the four little-endian bytes at the start of `s`.
pub fn decode_fixed32(s: &[u8]) -> (x: u32)
    requires
        s@.len() >= 4,
    ensures
        x == fixed32_value(s@),
{
    proof {
        lemma_u32_of_bytes(s@[0], s@[1], s@[2], s@[3]);
    }
    (s[0] as u32) | ((s[1] as u32) << 8) | ((s[2] as u32) << 16) | ((s[3] as u32) << 24)
}

/// Decodes the eight little-endian bytes at the start of `s`.
pub fn decode_fixed64(s: &[u8]) -> (x: u64)
    requires
        s@.len() >= 8,
    ensures
        x == fixed64_value(s@),
{
    let lo = decode_fixed32(slice_subrange(s, 0, 4));
    let hi = decode_fixed32(slice_subrange(s, 4, 8));
    let lo64: u64 = lo as u64;
    let hi64: u64 = hi as u64;
    assert((lo64 | (hi64 << 32)) == lo64 + 0x1_0000_0000 * hi64) by (bit_vector)
        requires
            lo64 <= 0xffff_ffff,
            hi64 <= 0xffff_ffff,
    ;
    lo64 | (hi64 << 32)
}

} // verus!
