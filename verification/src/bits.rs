use vstd::prelude::*;

verus! {

/// Whether bit `k` of `byte` is set, counting from the most significant
/// bit: bit 0 is the leftmost pixel packed into the byte.
pub open spec fn bit_set(byte: u8, k: int) -> bool {
    byte & (0x80u8 >> (k as u8)) != 0
}

/// OR-ing an MSB-first single-bit mask into a byte sets exactly that bit
/// and leaves every other bit as it was.
pub proof fn lemma_or_sets_bit(byte: u8, k: int, j: int)
    requires
        0 <= k < 8,
        0 <= j < 8,
    ensures
        bit_set(byte | (0x80u8 >> (k as u8)), j) == (j == k || bit_set(byte, j)),
{
    let ku: u8 = k as u8;
    let ju: u8 = j as u8;
    assert(((byte | (0x80u8 >> ku)) & (0x80u8 >> ju) != 0) == (ju == ku || (byte & (0x80u8 >> ju)
        != 0))) by (bit_vector)
        requires
            ku < 8,
            ju < 8,
    ;
    assert((j == k) == (ju == ku));
}

/// A zero byte has no bit set.
pub proof fn lemma_zero_byte_clear(j: int)
    requires
        0 <= j < 8,
    ensures
        !bit_set(0u8, j),
{
    let ju: u8 = j as u8;
    assert(0u8 & (0x80u8 >> ju) == 0) by (bit_vector);
}

/// Two bytes that agree on all eight bits are the same byte.
pub proof fn lemma_bits_determine_byte(a: u8, b: u8)
    requires
        forall|j: int| 0 <= j < 8 ==> bit_set(a, j) == bit_set(b, j),
    ensures
        a == b,
{
    assert(bit_set(a, 0) == bit_set(b, 0));
    assert(bit_set(a, 1) == bit_set(b, 1));
    assert(bit_set(a, 2) == bit_set(b, 2));
    assert(bit_set(a, 3) == bit_set(b, 3));
    assert(bit_set(a, 4) == bit_set(b, 4));
    assert(bit_set(a, 5) == bit_set(b, 5));
    assert(bit_set(a, 6) == bit_set(b, 6));
    assert(bit_set(a, 7) == bit_set(b, 7));
    assert(a == b) by (bit_vector)
        requires
            (a & (0x80u8 >> 0u8) != 0) == (b & (0x80u8 >> 0u8) != 0),
            (a & (0x80u8 >> 1u8) != 0) == (b & (0x80u8 >> 1u8) != 0),
            (a & (0x80u8 >> 2u8) != 0) == (b & (0x80u8 >> 2u8) != 0),
            (a & (0x80u8 >> 3u8) != 0) == (b & (0x80u8 >> 3u8) != 0),
            (a & (0x80u8 >> 4u8) != 0) == (b & (0x80u8 >> 4u8) != 0),
            (a & (0x80u8 >> 5u8) != 0) == (b & (0x80u8 >> 5u8) != 0),
            (a & (0x80u8 >> 6u8) != 0) == (b & (0x80u8 >> 6u8) != 0),
            (a & (0x80u8 >> 7u8) != 0) == (b & (0x80u8 >> 7u8) != 0),
    ;
}

} // verus!
