use vstd::prelude::*;

verus! {

/// Bit 5 of every byte of a word (the bit that spaces and digits have and a
/// newline lacks).
pub const BIT5_MASK: u64 = 0x2020202020202020;

/// Bit 4 of every byte of a word (the bit that digits have and a space lacks).
pub const BIT4_MASK: u64 = 0x1010101010101010;

/// Byte `k` of a word, counting from the least significant one.
pub open spec fn byte_of(w: u64, k: u64) -> u8 {
    (w >> (8 * k)) as u8
}

/// Bit `i` of a byte, as 0 or 1.
pub open spec fn bit_of(b: u8, i: u8) -> u8 {
    (b >> i) & 1
}

/// The number of set bits of a byte.
pub open spec fn popcount_u8(b: u8) -> int {
    bit_of(b, 0) + bit_of(b, 1) + bit_of(b, 2) + bit_of(b, 3) + bit_of(b, 4) + bit_of(b, 5)
        + bit_of(b, 6) + bit_of(b, 7)
}

/// The number of set bits of a word: the sum over its eight bytes.
pub open spec fn popcount_u64(w: u64) -> int {
    popcount_u8(byte_of(w, 0)) + popcount_u8(byte_of(w, 1)) + popcount_u8(byte_of(w, 2))
        + popcount_u8(byte_of(w, 3)) + popcount_u8(byte_of(w, 4)) + popcount_u8(byte_of(w, 5))
        + popcount_u8(byte_of(w, 6)) + popcount_u8(byte_of(w, 7))
}

/// `u64::count_ones`: the number of set bits of `x`, stated here as the sum of
/// the set bits of its eight bytes.
#[verifier::external_body]
pub(crate) fn count_ones(x: u64) -> (r: u32)
    ensures
        r as int == popcount_u64(x),
{
    x.count_ones()
}

/// The mask of the `j` lowest bytes of a word, for `j < 8`.
pub open spec fn low_bytes_mask(j: u64) -> u64 {
    ((1u64 << (8 * j)) - 1) as u64
}

/// The bytes of a word masked to bit 4.
pub proof fn lemma_byte_of_bit4(w: u64, k: u64)
    by (bit_vector)
    requires
        k < 8,
    ensures
        byte_of(w & BIT4_MASK, k) == byte_of(w, k) & 0x10u8,
        popcount_u8(byte_of(w, k) & 0x10u8) == bit_of(byte_of(w, k), 4),
        bit_of(byte_of(w, k), 4) <= 1u8,
{
}

/// The bytes of a word masked to its `j` lowest bytes and to bit 4.
pub proof fn lemma_byte_of_low_bit4(w: u64, j: u64, k: u64)
    by (bit_vector)
    requires
        j < 8,
        k < 8,
    ensures
        byte_of((w & low_bytes_mask(j)) & BIT4_MASK, k) == if k < j {
            byte_of(w, k) & 0x10u8
        } else {
            0u8
        },
        popcount_u8(0u8) == 0,
{
}


/// Bits 4 and 5 of a space, a digit and a newline.
pub proof fn lemma_ascii_bits(b: u8)
    by (bit_vector)
    ensures
        b == 32u8 ==> bit_of(b, 5) == 1u8 && bit_of(b, 4) == 0u8,
        48u8 <= b <= 57u8 ==> bit_of(b, 5) == 1u8 && bit_of(b, 4) == 1u8,
        b == 10u8 ==> bit_of(b, 5) == 0u8,
{
}

/// A word whose eight bytes all have bit 5 keeps all of `BIT5_MASK`.
pub proof fn lemma_all_bit5(w: u64)
    by (bit_vector)
    requires
        bit_of(byte_of(w, 0), 5) == 1u8,
        bit_of(byte_of(w, 1), 5) == 1u8,
        bit_of(byte_of(w, 2), 5) == 1u8,
        bit_of(byte_of(w, 3), 5) == 1u8,
        bit_of(byte_of(w, 4), 5) == 1u8,
        bit_of(byte_of(w, 5), 5) == 1u8,
        bit_of(byte_of(w, 6), 5) == 1u8,
        bit_of(byte_of(w, 7), 5) == 1u8,
    ensures
        w & BIT5_MASK == BIT5_MASK,
{
}

/// Where byte `j` lacks bit 5, bit `8 j + 5` of the flipped mask is set.
pub proof fn lemma_clear_bit5(w: u64, j: u64)
    by (bit_vector)
    requires
        j < 8,
        bit_of(byte_of(w, j), 5) == 0u8,
    ensures
        (((w & BIT5_MASK) ^ BIT5_MASK) >> (8 * j + 5)) & 1u64 == 1u64,
        w & BIT5_MASK != BIT5_MASK,
        (w & BIT5_MASK) ^ BIT5_MASK != 0,
        1u64 << (8 * j) >= 1,
{
}

/// Where the bytes below `j` have bit 5, the flipped mask has no set bit below
/// `8 j + 5`.
pub proof fn lemma_low_bits_clear(w: u64, j: u64, t: u64)
    by (bit_vector)
    requires
        j < 8,
        t < 8 * j + 5,
        0 < j ==> bit_of(byte_of(w, 0), 5) == 1u8,
        1 < j ==> bit_of(byte_of(w, 1), 5) == 1u8,
        2 < j ==> bit_of(byte_of(w, 2), 5) == 1u8,
        3 < j ==> bit_of(byte_of(w, 3), 5) == 1u8,
        4 < j ==> bit_of(byte_of(w, 4), 5) == 1u8,
        5 < j ==> bit_of(byte_of(w, 5), 5) == 1u8,
        6 < j ==> bit_of(byte_of(w, 6), 5) == 1u8,
    ensures
        (((w & BIT5_MASK) ^ BIT5_MASK) >> t) & 1u64 == 0u64,
{
}

/// The bytes of a word assembled from eight bytes, least significant first.
pub proof fn lemma_assemble(w: u64, b0: u8, b1: u8, b2: u8, b3: u8, b4: u8, b5: u8, b6: u8, b7: u8)
    by (bit_vector)
    requires
        w == (b0 as u64) | ((b1 as u64) << 8u64) | ((b2 as u64) << 16u64) | ((b3 as u64) << 24u64)
            | ((b4 as u64) << 32u64) | ((b5 as u64) << 40u64) | ((b6 as u64) << 48u64) | ((
        b7 as u64) << 56u64),
    ensures
        byte_of(w, 0) == b0,
        byte_of(w, 1) == b1,
        byte_of(w, 2) == b2,
        byte_of(w, 3) == b3,
        byte_of(w, 4) == b4,
        byte_of(w, 5) == b5,
        byte_of(w, 6) == b6,
        byte_of(w, 7) == b7,
{
}


/// Reads eight bytes of `src` from `pos` as a little-endian word.
pub fn load_word(src: &[u8], pos: usize) -> (w: u64)
    requires
        pos + 8 <= src@.len(),
    ensures
        forall|k: u64| k < 8 ==> #[trigger] byte_of(w, k) == src@[pos + k],
{
    let b0 = src[pos];
    let b1 = src[pos + 1];
    let b2 = src[pos + 2];
    let b3 = src[pos + 3];
    let b4 = src[pos + 4];
    let b5 = src[pos + 5];
    let b6 = src[pos + 6];
    let b7 = src[pos + 7];
    let w = (b0 as u64) | ((b1 as u64) << 8u64) | ((b2 as u64) << 16u64) | ((b3 as u64) << 24u64)
        | ((b4 as u64) << 32u64) | ((b5 as u64) << 40u64) | ((b6 as u64) << 48u64) | ((
    b7 as u64) << 56u64);
    proof {
        lemma_assemble(w, b0, b1, b2, b3, b4, b5, b6, b7);
        assert forall|k: u64| k < 8 implies #[trigger] byte_of(w, k) == src@[pos + k] by {
            assert(k == 0 || k == 1 || k == 2 || k == 3 || k == 4 || k == 5 || k == 6 || k == 7);
        }
    }
    w
}

} // verus!
