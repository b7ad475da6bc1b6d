use vstd::prelude::*;
use crate::lanes::{count_true, first_set, index_lt, lanes_eq, mask_any, mask_count, select, splat};
use crate::words::{
    bit_of, byte_of, count_ones, lemma_all_bit5, lemma_ascii_bits, lemma_byte_of_bit4,
    lemma_byte_of_low_bit4, lemma_clear_bit5, lemma_low_bits_clear, load_word, low_bytes_mask,
    popcount_u64, BIT4_MASK, BIT5_MASK,
};

verus! {

/// The ASCII space.
pub const SPACE: u8 = 32;

/// The ASCII line feed.
pub const NEWLINE: u8 = 10;

// ---------------------------------------------------------------------------
// The model: the number of spaces on the first line.
// ---------------------------------------------------------------------------

/// The number of times `b` occurs in `s`.
pub open spec fn count_byte(s: Seq<u8>, b: u8) -> nat
    decreases s.len(),
{
    if s.len() == 0 {
        0
    } else {
        count_byte(s.drop_last(), b) + if s.last() == b {
            1nat
        } else {
            0nat
        }
    }
}

/// `n` is the index of the first newline of `s`.
pub open spec fn is_first_newline(s: Seq<u8>, n: int) -> bool {
    &&& 0 <= n < s.len()
    &&& s[n] == NEWLINE
    &&& forall|i: int| 0 <= i < n ==> s[i] != NEWLINE
}

/// `s` holds a newline.
pub open spec fn has_newline(s: Seq<u8>) -> bool {
    exists|i: int| 0 <= i < s.len() && s[i] == NEWLINE
}

/// The index of the first newline of `s` (meaningful where it has one).
pub open spec fn first_newline(s: Seq<u8>) -> int {
    choose|n: int| is_first_newline(s, n)
}

/// The number of spaces before the first newline of `s`.
pub open spec fn line_spaces(s: Seq<u8>) -> nat {
    count_byte(s.take(first_newline(s)), SPACE)
}

/// A space or an ASCII digit.
pub open spec fn is_space_or_digit(b: u8) -> bool {
    b == SPACE || (48 <= b <= 57)
}

/// Every byte before the first newline of `s` is a space or a digit.
pub open spec fn line_is_spaces_and_digits(s: Seq<u8>) -> bool {
    forall|i: int| 0 <= i < first_newline(s) ==> is_space_or_digit(#[trigger] s[i])
}

/// The number of bytes among the `j` lowest of `w` that have bit 4 set.
pub open spec fn digits_below(w: u64, j: int) -> int
    decreases j,
{
    if j <= 0 {
        0
    } else {
        digits_below(w, j - 1) + bit_of(byte_of(w, (j - 1) as u64), 4)
    }
}

// ---------------------------------------------------------------------------
// Lemmas.
// ---------------------------------------------------------------------------

/// A text with a newline has a first one.
pub proof fn lemma_first_newline(s: Seq<u8>)
    requires
        has_newline(s),
    ensures
        is_first_newline(s, first_newline(s)),
{
    let i = choose|i: int| 0 <= i < s.len() && s[i] == NEWLINE;
    lemma_first_newline_below(s, i);
}

proof fn lemma_first_newline_below(s: Seq<u8>, i: int)
    requires
        0 <= i < s.len(),
        s[i] == NEWLINE,
    ensures
        is_first_newline(s, first_newline(s)),
    decreases i,
{
    if exists|k: int| 0 <= k < i && s[k] == NEWLINE {
        let k = choose|k: int| 0 <= k < i && s[k] == NEWLINE;
        lemma_first_newline_below(s, k);
    } else {
        assert(is_first_newline(s, i));
    }
}

/// The first newline is unique.
pub proof fn lemma_first_newline_unique(s: Seq<u8>, n: int)
    requires
        is_first_newline(s, n),
    ensures
        first_newline(s) == n,
{
    let m = first_newline(s);
    assert(is_first_newline(s, m));
    if m < n {
        assert(s[m] != NEWLINE);
    }
    if n < m {
        assert(s[n] != NEWLINE);
    }
}

/// Counting one more byte.
pub proof fn lemma_count_byte_push(s: Seq<u8>, b: u8, i: int)
    requires
        0 <= i < s.len(),
    ensures
        count_byte(s.take(i + 1), b) == count_byte(s.take(i), b) + if s[i] == b {
            1nat
        } else {
            0nat
        },
{
    assert(s.take(i + 1).drop_last() =~= s.take(i));
}

/// Counts over prefixes grow with the prefix and by at most its length.
pub proof fn lemma_count_byte_mono(s: Seq<u8>, b: u8, i: int, j: int)
    requires
        0 <= i <= j <= s.len(),
    ensures
        count_byte(s.take(i), b) <= count_byte(s.take(j), b),
        count_byte(s.take(j), b) <= count_byte(s.take(i), b) + (j - i),
    decreases j - i,
{
    if i < j {
        lemma_count_byte_mono(s, b, i, j - 1);
        lemma_count_byte_push(s, b, j - 1);
    }
}

/// A single byte counts once if it is `v` and else not at all; with
/// `lemma_count_byte_append` this says what `count_byte` is on every sequence.
pub proof fn lemma_count_byte_single(b: u8, v: u8)
    ensures
        count_byte(seq![b], v) == if b == v {
            1nat
        } else {
            0nat
        },
{
    let s = seq![b];
    assert(s.drop_last() =~= Seq::<u8>::empty());
    assert(count_byte(Seq::<u8>::empty(), v) == 0);
    assert(s.last() == b);
    assert(count_byte(s, v) == count_byte(s.drop_last(), v) + if s.last() == v {
        1nat
    } else {
        0nat
    });
}

/// Counting over a concatenation.
pub proof fn lemma_count_byte_append(a: Seq<u8>, b: Seq<u8>, v: u8)
    ensures
        count_byte(a + b, v) == count_byte(a, v) + count_byte(b, v),
    decreases b.len(),
{
    if b.len() == 0 {
        assert(a + b =~= a);
    } else {
        lemma_count_byte_append(a, b.drop_last(), v);
        assert((a + b).drop_last() =~= a + b.drop_last());
    }
}

/// Counting the set lanes of a comparison with `v` counts `v`.
pub proof fn lemma_count_true_eq(s: Seq<u8>, m: Seq<bool>, v: u8)
    requires
        m.len() == s.len(),
        forall|i: int| 0 <= i < s.len() ==> m[i] == (s[i] == v),
    ensures
        count_true(m) == count_byte(s, v),
    decreases s.len(),
{
    if s.len() > 0 {
        lemma_count_true_eq(s.drop_last(), m.drop_last(), v);
    }
}

/// A sequence without `v` counts no `v`.
proof fn lemma_count_byte_none(s: Seq<u8>, v: u8)
    requires
        forall|i: int| 0 <= i < s.len() ==> s[i] != v,
    ensures
        count_byte(s, v) == 0,
    decreases s.len(),
{
    if s.len() > 0 {
        lemma_count_byte_none(s.drop_last(), v);
    }
}

/// A window of `s` from `pos` that is read at once: where it holds no newline
/// the line goes on past it; where its first newline is at `idx`, that is the
/// first newline of `s`. Its spaces before `end` add to those before `pos`.
proof fn lemma_window(s: Seq<u8>, pos: int, len: int, end: int)
    requires
        has_newline(s),
        0 <= pos <= first_newline(s),
        pos + len <= s.len(),
        0 <= end <= len,
    ensures
        count_byte(s.take(pos + end), SPACE) == count_byte(s.take(pos), SPACE) + count_byte(
            s.subrange(pos, pos + len).take(end),
            SPACE,
        ),
        (forall|k: int| pos <= k < pos + len ==> #[trigger] s[k] != NEWLINE) ==> pos + len
            <= first_newline(s),
        (end < len && s[pos + end] == NEWLINE && forall|k: int|
            pos <= k < pos + end ==> #[trigger] s[k] != NEWLINE) ==> pos + end == first_newline(s),
{
    lemma_first_newline(s);
    let n = first_newline(s);
    let w = s.subrange(pos, pos + len);
    assert(s.take(pos + end) =~= s.take(pos) + w.take(end));
    lemma_count_byte_append(s.take(pos), w.take(end), SPACE);
    if forall|k: int| pos <= k < pos + len ==> #[trigger] s[k] != NEWLINE {
        if n < pos + len {
            assert(s[n] != NEWLINE);
        }
    }
    if end < len && s[pos + end] == NEWLINE && forall|k: int|
        pos <= k < pos + end ==> #[trigger] s[k] != NEWLINE {
        assert forall|i: int| 0 <= i < pos + end implies s[i] != NEWLINE by {
            if i < pos {
                assert(i < n);
            }
        }
        lemma_first_newline_unique(s, pos + end);
    }
}

/// The spaces of a window whose lanes from `idx` on are replaced by zeros are
/// those of its first `idx` lanes.
proof fn lemma_masked_spaces(w: Seq<u8>, sel: Seq<u8>, idx: int)
    requires
        0 <= idx <= w.len(),
        sel.len() == w.len(),
        forall|i: int| 0 <= i < w.len() ==> sel[i] == if i < idx { w[i] } else { 0u8 },
    ensures
        count_byte(sel, SPACE) == count_byte(w.take(idx), SPACE),
{
    assert(sel =~= w.take(idx) + sel.skip(idx));
    lemma_count_byte_append(w.take(idx), sel.skip(idx), SPACE);
    lemma_count_byte_none(sel.skip(idx), SPACE);
}

/// Spaces among the first `j` bytes of a word of spaces and digits are the
/// bytes without bit 4.
proof fn lemma_word_spaces(s: Seq<u8>, pos: int, w: u64, j: int)
    requires
        0 <= pos,
        0 <= j <= 8,
        pos + j <= s.len(),
        forall|k: u64| k < 8 && pos + k < s.len() ==> byte_of(w, k) == s[pos + k],
        forall|k: int| pos <= k < pos + j ==> is_space_or_digit(#[trigger] s[k]),
    ensures
        count_byte(s.take(pos + j), SPACE) == count_byte(s.take(pos), SPACE) + j - digits_below(
            w,
            j,
        ),
        0 <= digits_below(w, j) <= j,
    decreases j,
{
    if j > 0 {
        lemma_word_spaces(s, pos, w, j - 1);
        lemma_count_byte_push(s, SPACE, pos + j - 1);
        let b = s[pos + j - 1];
        assert(byte_of(w, (j - 1) as u64) == b);
        lemma_ascii_bits(b);
    }
}

/// At most one per byte has bit 4.
proof fn lemma_digits_below_bound(w: u64, j: int)
    requires
        0 <= j <= 8,
    ensures
        0 <= digits_below(w, j) <= j,
    decreases j,
{
    if j > 0 {
        lemma_digits_below_bound(w, j - 1);
        lemma_byte_of_bit4(w, (j - 1) as u64);
    }
}

/// The set bits of a word masked to bit 4, and to its `j` lowest bytes.
proof fn lemma_popcount_digits(w: u64, j: u64)
    requires
        j < 8,
    ensures
        popcount_u64((w & low_bytes_mask(j)) & BIT4_MASK) == digits_below(w, j as int),
        popcount_u64(w & BIT4_MASK) == digits_below(w, 8),
        0 <= popcount_u64(w & BIT4_MASK) <= 8,
{
    lemma_digits_below_bound(w, 8);
    let m = w & low_bytes_mask(j);
    let x = m & BIT4_MASK;
    lemma_byte_of_low_bit4(w, j, 0);
    lemma_byte_of_low_bit4(w, j, 1);
    lemma_byte_of_low_bit4(w, j, 2);
    lemma_byte_of_low_bit4(w, j, 3);
    lemma_byte_of_low_bit4(w, j, 4);
    lemma_byte_of_low_bit4(w, j, 5);
    lemma_byte_of_low_bit4(w, j, 6);
    lemma_byte_of_low_bit4(w, j, 7);
    lemma_byte_of_bit4(w, 0);
    lemma_byte_of_bit4(w, 1);
    lemma_byte_of_bit4(w, 2);
    lemma_byte_of_bit4(w, 3);
    lemma_byte_of_bit4(w, 4);
    lemma_byte_of_bit4(w, 5);
    lemma_byte_of_bit4(w, 6);
    lemma_byte_of_bit4(w, 7);
    reveal_with_fuel(digits_below, 9);
}


/// What a word of eight bytes of `s` from `pos` tells about the first line:
/// where the line goes on past the word, the word keeps all of `BIT5_MASK` and
/// its spaces are the bytes without bit 4; where the line ends in it, the
/// first byte without bit 5 is the newline.
proof fn lemma_word(s: Seq<u8>, pos: int, w: u64)
    requires
        has_newline(s),
        line_is_spaces_and_digits(s),
        0 <= pos <= first_newline(s),
        pos + 8 <= s.len(),
        forall|k: u64| k < 8 ==> #[trigger] byte_of(w, k) == s[pos + k],
    ensures
        first_newline(s) >= pos + 8 ==> {
            &&& w & BIT5_MASK == BIT5_MASK
            &&& count_byte(s.take(pos + 8), SPACE) == count_byte(s.take(pos), SPACE) + 8
                - popcount_u64(w & BIT4_MASK)
            &&& 0 <= popcount_u64(w & BIT4_MASK) <= 8
        },
        first_newline(s) < pos + 8 ==> {
            let j = (first_newline(s) - pos) as u64;
            let x = (w & BIT5_MASK) ^ BIT5_MASK;
            &&& w & BIT5_MASK != BIT5_MASK
            &&& x.trailing_zeros() == 8 * j + 5
            &&& 1u64 << (8 * j) >= 1
            &&& count_byte(s.take(first_newline(s)), SPACE) == count_byte(s.take(pos), SPACE) + j
                - popcount_u64((w & low_bytes_mask(j)) & BIT4_MASK)
            &&& 0 <= popcount_u64((w & low_bytes_mask(j)) & BIT4_MASK) <= j
        },
{
    lemma_first_newline(s);
    let n = first_newline(s);
    assert forall|k: u64| k < 8 && pos + k < n implies bit_of(#[trigger] byte_of(w, k), 5) == 1u8 by {
        assert(is_space_or_digit(s[pos + k]));
        lemma_ascii_bits(s[pos + k]);
    }
    if n >= pos + 8 {
        assert(bit_of(byte_of(w, 0), 5) == 1u8);
        assert(bit_of(byte_of(w, 1), 5) == 1u8);
        assert(bit_of(byte_of(w, 2), 5) == 1u8);
        assert(bit_of(byte_of(w, 3), 5) == 1u8);
        assert(bit_of(byte_of(w, 4), 5) == 1u8);
        assert(bit_of(byte_of(w, 5), 5) == 1u8);
        assert(bit_of(byte_of(w, 6), 5) == 1u8);
        assert(bit_of(byte_of(w, 7), 5) == 1u8);
        lemma_all_bit5(w);
        lemma_word_spaces(s, pos, w, 8);
        lemma_popcount_digits(w, 0);
    } else {
        let j = (n - pos) as u64;
        assert(byte_of(w, j) == NEWLINE);
        lemma_ascii_bits(NEWLINE);
        lemma_clear_bit5(w, j);
        let x = (w & BIT5_MASK) ^ BIT5_MASK;
        vstd::std_specs::bits::axiom_u64_trailing_zeros(x);
        let tz = x.trailing_zeros();
        if tz < 8 * j + 5 {
            assert(0 < j ==> bit_of(byte_of(w, 0), 5) == 1u8);
            assert(1 < j ==> bit_of(byte_of(w, 1), 5) == 1u8);
            assert(2 < j ==> bit_of(byte_of(w, 2), 5) == 1u8);
            assert(3 < j ==> bit_of(byte_of(w, 3), 5) == 1u8);
            assert(4 < j ==> bit_of(byte_of(w, 4), 5) == 1u8);
            assert(5 < j ==> bit_of(byte_of(w, 5), 5) == 1u8);
            assert(6 < j ==> bit_of(byte_of(w, 6), 5) == 1u8);
            lemma_low_bits_clear(w, j, tz as u64);
        }
        if tz > 8 * j + 5 {
            assert((x >> (8 * j + 5)) & 1u64 == 0u64);
        }
        assert forall|k: int| pos <= k < pos + j implies is_space_or_digit(#[trigger] s[k]) by {}
        lemma_word_spaces(s, pos, w, j as int);
        lemma_popcount_digits(w, j);
    }
}

/// Counts the spaces before the first newline of `src`, truncated to 16 bits.
pub fn count_spaces_std(src: &[u8]) -> (r: u16)
    requires
        has_newline(src@),
    ensures
        r == line_spaces(src@) as u16,
{
    proof {
        lemma_first_newline(src@);
    }
    let ghost n = first_newline(src@);
    let mut i: usize = 0;
    let mut count: usize = 0;
    while src[i] != NEWLINE
        invariant
            is_first_newline(src@, n),
            i <= n,
            count == count_byte(src@.take(i as int), SPACE),
            count <= i,
        decreases n - i,
    {
        proof {
            lemma_count_byte_push(src@, SPACE, i as int);
        }
        if src[i] == SPACE {
            count = count + 1;
        }
        i = i + 1;
    }
    assert(i == n);
    count as u16
}

/// Counts the spaces before the first newline of `src`, eight bytes at a time.
///
/// Each word of eight bytes is read little-endian. Spaces and digits have bit
/// 5 and a newline lacks it, so the first byte of a word without bit 5 is the
/// newline; before it, the spaces are the bytes without bit 4.
#[verifier::spinoff_prover]
#[verifier::rlimit(50)]
pub fn count_spaces_simd_novec(src: &[u8]) -> (r: u16)
    requires
        has_newline(src@),
        first_newline(src@) + 8 <= src@.len(),
        line_is_spaces_and_digits(src@),
        line_spaces(src@) <= u16::MAX,
    ensures
        r == line_spaces(src@),
{
    proof {
        lemma_first_newline(src@);
    }
    let ghost n = first_newline(src@);
    let len = src.len();
    let mut pos: usize = 0;
    let mut total: u16 = 0;
    loop
        invariant
            len == src@.len(),
            has_newline(src@),
            n == first_newline(src@),
            n + 8 <= src@.len(),
            line_is_spaces_and_digits(src@),
            line_spaces(src@) <= u16::MAX,
            pos <= n,
            total == count_byte(src@.take(pos as int), SPACE),
        decreases n - pos,
    {
        let word = load_word(src, pos);
        proof {
            lemma_word(src@, pos as int, word);
            lemma_count_byte_mono(src@, SPACE, pos as int, n);
        }
        let nl = word & BIT5_MASK;
        if nl != BIT5_MASK {
            let tz = (nl ^ BIT5_MASK).trailing_zeros() - 5;
            let mask = 1u64.wrapping_shl(tz).wrapping_sub(1);
            assert(mask == low_bytes_mask((n - pos) as u64));
            let space_count = (tz / 8) - count_ones(word & mask & BIT4_MASK);
            return total + space_count as u16;
        }
        proof {
            lemma_count_byte_mono(src@, SPACE, pos + 8, n);
        }
        total += 8 - (count_ones(word & BIT4_MASK) as u16);
        pos += 8;
    }
}


/// Counts the spaces before the first newline of `src`, one cache line of
/// eight words at a time; each word as in `count_spaces_simd_novec`.
#[verifier::spinoff_prover]
#[verifier::rlimit(50)]
pub fn count_spaces_simd_novec_x8(src: &[u8]) -> (r: u16)
    requires
        has_newline(src@),
        first_newline(src@) + 64 <= src@.len(),
        line_is_spaces_and_digits(src@),
        line_spaces(src@) <= u16::MAX,
    ensures
        r == line_spaces(src@),
{
    proof {
        lemma_first_newline(src@);
    }
    let ghost n = first_newline(src@);
    let len = src.len();
    let mut pos: usize = 0;
    let mut total: u16 = 0;
    loop
        invariant
            len == src@.len(),
            has_newline(src@),
            n == first_newline(src@),
            n + 64 <= src@.len(),
            line_is_spaces_and_digits(src@),
            line_spaces(src@) <= u16::MAX,
            pos <= n,
            total == count_byte(src@.take(pos as int), SPACE),
        decreases n - pos,
    {
        // load an entire cache line at once
        let words: [u64; 8] = [
            load_word(src, pos),
            load_word(src, pos + 8),
            load_word(src, pos + 16),
            load_word(src, pos + 24),
            load_word(src, pos + 32),
            load_word(src, pos + 40),
            load_word(src, pos + 48),
            load_word(src, pos + 56),
        ];
        let ghost line_pos = pos;
        let mut i: usize = 0;
        while i < 8
            invariant
                len == src@.len(),
                has_newline(src@),
                n == first_newline(src@),
                n + 64 <= src@.len(),
                line_is_spaces_and_digits(src@),
                line_spaces(src@) <= u16::MAX,
                line_pos <= n,
                i <= 8,
                pos == line_pos,
                line_pos + 8 * i <= n,
                total == count_byte(src@.take(line_pos + 8 * i), SPACE),
                forall|q: int, k: u64|
                    0 <= q < 8 && k < 8 ==> #[trigger] byte_of(words@[q], k) == src@[line_pos + 8 * q
                        + k],
            decreases 8 - i,
        {
            let word = words[i];
            let ghost wpos = line_pos + 8 * i;
            proof {
                assert forall|k: u64| k < 8 implies #[trigger] byte_of(word, k) == src@[wpos + k] by {
                    assert(byte_of(words@[i as int], k) == src@[line_pos + 8 * i + k]);
                }
                lemma_word(src@, wpos, word);
                lemma_popcount_digits(word, 0);
                lemma_count_byte_mono(src@, SPACE, wpos, n);
            }
            let nl = word & BIT5_MASK;
            let word_total = 8 - (count_ones(word & BIT4_MASK) as u16);
            if nl != BIT5_MASK {
                let tz = (nl ^ BIT5_MASK).trailing_zeros() - 5;
                let mask = 1u64.wrapping_shl(tz).wrapping_sub(1);
                assert(mask == low_bytes_mask((n - wpos) as u64));
                let space_count = (tz / 8) - count_ones(word & mask & BIT4_MASK);
                return total + space_count as u16;
            } else {
                proof {
                    lemma_count_byte_mono(src@, SPACE, wpos + 8, n);
                }
                total += word_total;
            }
            i = i + 1;
        }
        pos += 64;
    }
}

/// Counts the spaces before the first newline of `src`, a cache line of 64
/// bytes at a time as two halves of 32 lanes compared with a space and with a
/// newline.
#[verifier::spinoff_prover]
#[verifier::rlimit(50)]
pub fn count_spaces_simd_portable_256(src: &[u8]) -> (r: u16)
    requires
        has_newline(src@),
        first_newline(src@) + 64 <= src@.len(),
        line_spaces(src@) <= u16::MAX,
    ensures
        r == line_spaces(src@),
{
    proof {
        lemma_first_newline(src@);
    }
    let ghost n = first_newline(src@);
    let len = src.len();
    let mut pos: usize = 0;
    let mut total: u16 = 0;
    let zeros = splat(0, 32);
    loop
        invariant
            len == src@.len(),
            has_newline(src@),
            n == first_newline(src@),
            n + 64 <= src@.len(),
            line_spaces(src@) <= u16::MAX,
            pos <= n,
            total == count_byte(src@.take(pos as int), SPACE),
            zeros@ == Seq::new(32, |i: int| 0u8),
        decreases n - pos,
    {
        // load an entire cache line at once
        let w1 = &src[pos..pos + 32];
        let w2 = &src[pos + 32..pos + 64];
        let ghost start = pos;
        pos = pos + 64;

        let nl1 = lanes_eq(w1, NEWLINE);
        let sp1 = lanes_eq(w1, SPACE);
        let t1 = mask_count(&sp1) as u16;

        let nl2 = lanes_eq(w2, NEWLINE);
        let sp2 = lanes_eq(w2, SPACE);
        let t2 = mask_count(&sp2) as u16;

        proof {
            let w = src@.subrange(start as int, start + 64);
            assert(w1@ =~= w.take(32));
            assert(w2@ =~= src@.subrange(start + 32, start + 64));
            assert(w.take(64) =~= w);
            lemma_count_true_eq(w1@, sp1@, SPACE);
            lemma_count_true_eq(w2@, sp2@, SPACE);
            lemma_window(src@, start as int, 64, 32);
            lemma_window(src@, start as int, 32, 32);
            assert(src@.subrange(start as int, start + 32) =~= w1@);
            lemma_count_byte_mono(src@, SPACE, start as int, n);
            lemma_count_byte_mono(w1@, SPACE, 32, 32);
            assert(w1@.take(32) =~= w1@);
            assert(w2@.take(32) =~= w2@);
            lemma_count_byte_mono(w2@, SPACE, 32, 32);
        }

        if mask_any(&nl1) || mask_any(&nl2) {
            if let Some(idx) = first_set(&nl1) {
                let before_newline = index_lt(32, idx);
                let masked = select(&before_newline, w1, &zeros);
                let spaces = lanes_eq(&masked, SPACE);
                proof {
                    lemma_count_true_eq(masked@, spaces@, SPACE);
                    lemma_masked_spaces(w1@, masked@, idx as int);
                    assert(src@.subrange(start as int, start + 32) =~= w1@);
                    assert forall|k: int| start <= k < start + idx implies #[trigger] src@[k] != NEWLINE by {
                        assert(w1@[k - start] == src@[k]);
                        assert(!nl1@[k - start]);
                    }
                    assert(w1@[idx as int] == src@[start + idx]);
                    lemma_window(src@, start as int, 32, idx as int);
                    lemma_count_byte_mono(w1@, SPACE, idx as int, 32);
                }
                total += mask_count(&spaces) as u16;
                return total;
            } else {
                let idx = first_set(&nl2).unwrap();
                let before_newline = index_lt(32, idx);
                let masked = select(&before_newline, w2, &zeros);
                let spaces = lanes_eq(&masked, SPACE);
                proof {
                    lemma_count_true_eq(masked@, spaces@, SPACE);
                    lemma_masked_spaces(w2@, masked@, idx as int);
                    let w = src@.subrange(start as int, start + 64);
                    assert(w.take(32 + idx) =~= w1@ + w2@.take(idx as int));
                    lemma_count_byte_append(w1@, w2@.take(idx as int), SPACE);
                    assert forall|k: int| start <= k < start + 32 + idx implies #[trigger] src@[k] != NEWLINE by {
                        if k < start + 32 {
                            assert(w1@[k - start] == src@[k]);
                            assert(!nl1@[k - start]);
                        } else {
                            assert(w2@[k - start - 32] == src@[k]);
                            assert(!nl2@[k - start - 32]);
                        }
                    }
                    assert(w2@[idx as int] == src@[start + 32 + idx]);
                    lemma_window(src@, start as int, 64, 32 + idx);
                    lemma_count_byte_mono(w2@, SPACE, idx as int, 32);
                }
                total += mask_count(&spaces) as u16;
                return total + t1;  // the spaces of the first half count too
            }
        }
        proof {
            let w = src@.subrange(start as int, start + 64);
            assert(w =~= w1@ + w2@);
            lemma_count_byte_append(w1@, w2@, SPACE);
            assert forall|k: int| start <= k < start + 64 implies #[trigger] src@[k] != NEWLINE by {
                if k < start + 32 {
                    assert(w1@[k - start] == src@[k]);
                    assert(!nl1@[k - start]);
                } else {
                    assert(w2@[k - start - 32] == src@[k]);
                    assert(!nl2@[k - start - 32]);
                }
            }
            lemma_window(src@, start as int, 64, 64);
            lemma_count_byte_mono(src@, SPACE, start + 64, n);
        }
        total += t1 + t2;
    }
}

/// Counts the spaces before the first newline of `src`, a cache line of 64
/// lanes at a time compared with a space and with a newline.
#[verifier::spinoff_prover]
#[verifier::rlimit(50)]
pub fn count_spaces_simd_portable_512(src: &[u8]) -> (r: u16)
    requires
        has_newline(src@),
        first_newline(src@) + 64 <= src@.len(),
        line_spaces(src@) <= u16::MAX,
    ensures
        r == line_spaces(src@),
{
    proof {
        lemma_first_newline(src@);
    }
    let ghost n = first_newline(src@);
    let len = src.len();
    let mut pos: usize = 0;
    let mut total: u16 = 0;
    let zeros = splat(0, 64);
    loop
        invariant
            len == src@.len(),
            has_newline(src@),
            n == first_newline(src@),
            n + 64 <= src@.len(),
            line_spaces(src@) <= u16::MAX,
            pos <= n,
            total == count_byte(src@.take(pos as int), SPACE),
            zeros@ == Seq::new(64, |i: int| 0u8),
        decreases n - pos,
    {
        let w = &src[pos..pos + 64];
        let ghost start = pos;
        pos = pos + 64;

        let nl = lanes_eq(w, NEWLINE);
        proof {
            lemma_count_byte_mono(src@, SPACE, start as int, n);
        }

        if let Some(idx) = first_set(&nl) {
            let before_newline = index_lt(64, idx);
            let masked = select(&before_newline, w, &zeros);
            let spaces = lanes_eq(&masked, SPACE);
            proof {
                lemma_count_true_eq(masked@, spaces@, SPACE);
                lemma_masked_spaces(w@, masked@, idx as int);
                assert forall|k: int| start <= k < start + idx implies #[trigger] src@[k] != NEWLINE by {
                    assert(w@[k - start] == src@[k]);
                    assert(!nl@[k - start]);
                }
                assert(w@[idx as int] == src@[start + idx]);
                lemma_window(src@, start as int, 64, idx as int);
                lemma_count_byte_mono(w@, SPACE, idx as int, 64);
                assert(w@.take(64) =~= w@);
            }
            total += mask_count(&spaces) as u16;
            return total;
        }
        let spaces = lanes_eq(w, SPACE);
        proof {
            assert forall|k: int| start <= k < start + 64 implies #[trigger] src@[k] != NEWLINE by {
                assert(w@[k - start] == src@[k]);
                assert(!nl@[k - start]);
            }
            lemma_count_true_eq(w@, spaces@, SPACE);
            assert(w@.take(64) =~= w@);
            lemma_window(src@, start as int, 64, 64);
            lemma_count_byte_mono(src@, SPACE, start + 64, n);
        }
        let space_count = mask_count(&spaces) as u16;
        total += space_count;
    }
}


/// The bytes that `pad_bytes` appends: `1 2 3 4 5 ` then 118 times `1`.
pub open spec fn pad_tail() -> Seq<u8> {
    seq![49u8, 32u8, 50u8, 32u8, 51u8, 32u8, 52u8, 32u8, 53u8, 32u8] + Seq::new(118, |i: int| 49u8)
}

/// `Vec::leak`: hands out the contents of `v` for the rest of the program.
#[verifier::external_body]
fn leak_vec(v: Vec<u8>) -> (r: &'static [u8])
    ensures
        r@ == v@,
{
    v.leak()
}

/// Appends 128 bytes of digits and spaces after `src`, so that the fast
/// counters may read whole cache lines past its first newline.
pub fn pad_bytes(src: &[u8]) -> (r: &'static [u8])
    requires
        has_newline(src@),
        src@.len() + 128 <= isize::MAX,
    ensures
        r@ == src@ + pad_tail(),
        has_newline(r@),
        first_newline(r@) == first_newline(src@),
        first_newline(r@) + 64 <= r@.len(),
        line_spaces(r@) == line_spaces(src@),
        line_is_spaces_and_digits(r@) == line_is_spaces_and_digits(src@),
{
    let mut v: Vec<u8> = Vec::with_capacity(src.len() + 128);
    v.extend_from_slice(src);
    let tail: [u8; 10] = [49, 32, 50, 32, 51, 32, 52, 32, 53, 32];
    v.extend_from_slice(tail.as_slice());
    let ones = splat(49, 118);
    v.extend_from_slice(ones.as_slice());
    proof {
        assert(v@ =~= src@ + pad_tail());
        lemma_first_newline(src@);
        let n = first_newline(src@);
        assert(is_first_newline(v@, n));
        lemma_first_newline_unique(v@, n);
        assert(v@.take(n) =~= src@.take(n));
        assert forall|i: int| 0 <= i < n implies v@[i] == src@[i] by {}
        if line_is_spaces_and_digits(src@) {
            assert forall|i: int| 0 <= i < n implies is_space_or_digit(#[trigger] v@[i]) by {
                assert(is_space_or_digit(src@[i]));
            }
        }
        if line_is_spaces_and_digits(v@) {
            assert forall|i: int| 0 <= i < n implies is_space_or_digit(#[trigger] src@[i]) by {
                assert(is_space_or_digit(v@[i]));
            }
        }
    }
    leak_vec(v)
}

/// Padding a text keeps what the fast counters are asked of it, and the
/// counters agree with `count_spaces_std` wherever the count fits in 16 bits.
pub proof fn lemma_padded_counts(src: Seq<u8>)
    requires
        has_newline(src),
        line_spaces(src) <= u16::MAX,
    ensures
        has_newline(src + pad_tail()),
        first_newline(src + pad_tail()) + 64 <= (src + pad_tail()).len(),
        line_spaces(src + pad_tail()) == line_spaces(src),
        line_spaces(src) as u16 == line_spaces(src),
{
    lemma_first_newline(src);
    let n = first_newline(src);
    let v = src + pad_tail();
    assert(is_first_newline(v, n));
    lemma_first_newline_unique(v, n);
    assert(v.take(n) =~= src.take(n));
}

} // verus!
