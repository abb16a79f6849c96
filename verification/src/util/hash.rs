use vstd::prelude::*;

verus! {

/// The reflected generator polynomial of CRC-32.
pub const CRC32_POLY: u32 = 0xEDB8_8320;

/// One step of the shift register: divide by x, reducing by the generator.
pub open spec fn shift_bit(c: u32) -> u32 {
    if c & 1 == 1 {
        (c >> 1) ^ CRC32_POLY
    } else {
        c >> 1
    }
}

/// `k` steps of the shift register.
pub open spec fn shift_bits(c: u32, k: nat) -> u32
    decreases k,
{
    if k == 0 {
        c
    } else {
        shift_bit(shift_bits(c, (k - 1) as nat))
    }
}

/// The register after one more byte has been fed in.
pub open spec fn feed_byte(c: u32, b: u8) -> u32 {
    shift_bits(c ^ (b as u32), 8)
}

/// The register after all of `bytes` has been fed in, starting from `c`.
pub open spec fn feed(c: u32, bytes: Seq<u8>) -> u32
    decreases bytes.len(),
{
    if bytes.len() == 0 {
        c
    } else {
        feed_byte(feed(c, bytes.drop_last()), bytes.last())
    }
}

/// CRC-32 of `bytes`, continuing from the checksum `seed` of what came before.
/// The checksum of nothing is 0.
pub open spec fn crc32_spec(seed: u32, bytes: Seq<u8>) -> u32 {
    feed(seed ^ 0xffff_ffff, bytes) ^ 0xffff_ffff
}

/// Feeding `a` and then `b` is feeding `a + b`.
pub proof fn lemma_feed_concat(c: u32, a: Seq<u8>, b: Seq<u8>)
    ensures
        feed(feed(c, a), b) == feed(c, a + b),
    decreases b.len(),
{
    if b.len() == 0 {
        assert(a + b =~= a);
    } else {
        lemma_feed_concat(c, a, b.drop_last());
        assert((a + b).drop_last() =~= a + b.drop_last());
        assert((a + b).last() == b.last());
    }
}

/// A checksum can be extended: the checksum of `b` seeded with the checksum of
/// `a` is the checksum of `a` followed by `b`.
pub proof fn lemma_crc32_extend(seed: u32, a: Seq<u8>, b: Seq<u8>)
    ensures
        crc32_spec(crc32_spec(seed, a), b) == crc32_spec(seed, a + b),
{
    let mid = feed(seed ^ 0xffff_ffff, a);
    assert((mid ^ 0xffff_ffff) ^ 0xffff_ffff == mid) by (bit_vector);
    lemma_feed_concat(seed ^ 0xffff_ffff, a, b);
}

fn feed_byte_exec(c: u32, b: u8) -> (r: u32)
    ensures
        r == feed_byte(c, b),
{
    let mut r: u32 = c ^ (b as u32);
    let mut k: u8 = 0;
    while k < 8
        invariant
            k <= 8,
            r == shift_bits(c ^ (b as u32), k as nat),
        decreases 8 - k,
    {
        r = if r & 1 == 1 {
            (r >> 1) ^ CRC32_POLY
        } else {
            r >> 1
        };
        k = k + 1;
    }
    r
}

/// CRC-32 of `data`, continuing from `seed`.
pub fn crc32(seed: u32, data: &[u8]) -> (r: u32)
    ensures
        r == crc32_spec(seed, data@),
{
    let mut c: u32 = seed ^ 0xffff_ffff;
    let mut i: usize = 0;
    while i < data.len()
        invariant
            i <= data@.len(),
            c == feed(seed ^ 0xffff_ffff, data@.take(i as int)),
        decreases data@.len() - i,
    {
        assert(data@.take(i + 1).drop_last() =~= data@.take(i as int));
        c = feed_byte_exec(c, data[i]);
        i = i + 1;
    }
    assert(data@.take(i as int) =~= data@);
    c ^ 0xffff_ffff
}

/// The shift register is linear: it takes a difference of two registers to
/// the difference of what it takes them to.
pub proof fn lemma_shift_bits_linear(a: u32, b: u32, k: nat)
    ensures
        shift_bits(a ^ b, k) == shift_bits(a, k) ^ shift_bits(b, k),
    decreases k,
{
    if k > 0 {
        lemma_shift_bits_linear(a, b, (k - 1) as nat);
        let x = shift_bits(a, (k - 1) as nat);
        let y = shift_bits(b, (k - 1) as nat);
        assert((if (x ^ y) & 1 == 1 {
            ((x ^ y) >> 1) ^ 0xEDB8_8320u32
        } else {
            (x ^ y) >> 1
        }) == (if x & 1 == 1 {
            (x >> 1) ^ 0xEDB8_8320u32
        } else {
            x >> 1
        }) ^ (if y & 1 == 1 {
            (y >> 1) ^ 0xEDB8_8320u32
        } else {
            y >> 1
        })) by (bit_vector);
    }
}

/// The shift register loses nothing: a register that is not zero never
/// becomes zero.
pub proof fn lemma_shift_bits_nonzero(x: u32, k: nat)
    requires
        x != 0,
    ensures
        shift_bits(x, k) != 0,
    decreases k,
{
    if k > 0 {
        lemma_shift_bits_nonzero(x, (k - 1) as nat);
        let y = shift_bits(x, (k - 1) as nat);
        assert(y != 0 ==> (if y & 1 == 1 {
            (y >> 1) ^ 0xEDB8_8320u32
        } else {
            y >> 1
        }) != 0) by (bit_vector);
    }
}

/// `m` steps and then `k` steps are `m + k` steps.
pub proof fn lemma_shift_bits_add(x: u32, m: nat, k: nat)
    ensures
        shift_bits(shift_bits(x, m), k) == shift_bits(x, m + k),
    decreases k,
{
    if k > 0 {
        lemma_shift_bits_add(x, m, (k - 1) as nat);
    }
}

/// A difference in the register before bytes are fed in is the same
/// difference, shifted, after they are fed in.
pub proof fn lemma_feed_difference(c: u32, d: u32, bytes: Seq<u8>)
    ensures
        feed(c ^ d, bytes) == feed(c, bytes) ^ shift_bits(d, 8 * bytes.len()),
    decreases bytes.len(),
{
    if bytes.len() == 0 {
    } else {
        let front = bytes.drop_last();
        let b = bytes.last() as u32;
        lemma_feed_difference(c, d, front);
        let x = feed(c, front);
        let moved = shift_bits(d, 8 * front.len());
        assert((x ^ moved) ^ b == (x ^ b) ^ moved) by (bit_vector);
        lemma_shift_bits_linear(x ^ b, moved, 8);
        lemma_shift_bits_add(d, 8 * front.len(), 8);
    }
}

/// A checksum tells a changed byte: two runs of bytes that differ in one
/// byte, and be it in one bit of it, have different checksums.
pub proof fn lemma_crc32_tells_changed_byte(seed: u32, bytes: Seq<u8>, j: int, value: u8)
    requires
        0 <= j < bytes.len(),
        value != bytes[j],
    ensures
        crc32_spec(seed, bytes.update(j, value)) != crc32_spec(seed, bytes),
{
    let start = seed ^ 0xffff_ffff;
    let front = bytes.take(j);
    let back = bytes.skip(j + 1);
    let old = bytes[j];
    let changed = bytes.update(j, value);
    assert(bytes =~= front + seq![old] + back);
    assert(changed =~= front + seq![value] + back);
    lemma_feed_concat(start, front, seq![old]);
    lemma_feed_concat(start, front + seq![old], back);
    lemma_feed_concat(start, front, seq![value]);
    lemma_feed_concat(start, front + seq![value], back);
    let at = feed(start, front);
    reveal_with_fuel(feed, 2);
    assert(seq![old].drop_last() =~= Seq::<u8>::empty());
    assert(seq![value].drop_last() =~= Seq::<u8>::empty());
    assert(feed(at, seq![old]) == feed_byte(at, old));
    assert(feed(at, seq![value]) == feed_byte(at, value));
    let e = (old as u32) ^ (value as u32);
    assert(e != 0 && at ^ (value as u32) == (at ^ (old as u32)) ^ e) by (bit_vector)
        requires
            e == (old as u32) ^ (value as u32),
            old != value,
    ;
    lemma_shift_bits_linear(at ^ (old as u32), e, 8);
    let d = shift_bits(e, 8);
    lemma_shift_bits_nonzero(e, 8);
    lemma_feed_difference(feed_byte(at, old), d, back);
    let moved = shift_bits(d, 8 * back.len());
    lemma_shift_bits_nonzero(d, 8 * back.len());
    let sound = feed(start, bytes);
    assert(moved != 0 ==> ((sound ^ moved) ^ 0xffff_ffffu32) != (sound ^ 0xffff_ffffu32))
        by (bit_vector);
}

} // verus!
