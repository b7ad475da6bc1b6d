use vstd::prelude::*;
use crate::lanes::{lanes_eq, lanes_or, lanes_sub, mask_all, mask_or, sub_wrap};

verus! {

/// ASCII codes of the bytes that base64 gives a meaning to.
pub const UPPER_A: u8 = 65;
pub const UPPER_Z: u8 = 90;
pub const LOWER_A: u8 = 97;
pub const LOWER_Z: u8 = 122;
pub const DIGIT_0: u8 = 48;
pub const DIGIT_9: u8 = 57;
pub const PLUS: u8 = 43;
pub const SLASH: u8 = 47;
pub const PAD: u8 = 61;

// ---------------------------------------------------------------------------
// The model: what a byte means in base64 and what a chunk of four decodes to.
// ---------------------------------------------------------------------------

/// A byte of the base64 alphabet (RFC 4648, without the padding byte `=`).
pub open spec fn is_b64_char(b: u8) -> bool {
    ||| UPPER_A <= b <= UPPER_Z
    ||| LOWER_A <= b <= LOWER_Z
    ||| DIGIT_0 <= b <= DIGIT_9
    ||| b == PLUS
    ||| b == SLASH
}

/// Every byte of `s` belongs to the base64 alphabet.
pub open spec fn all_b64(s: Seq<u8>) -> bool {
    forall|i: int| 0 <= i < s.len() ==> is_b64_char(#[trigger] s[i])
}

/// The six-bit value of a base64 byte; `255` marks a byte outside the alphabet.
pub open spec fn sextet(b: u8) -> u8 {
    if UPPER_A <= b <= UPPER_Z {
        (b - UPPER_A) as u8
    } else if LOWER_A <= b <= LOWER_Z {
        (b - LOWER_A + 26) as u8
    } else if DIGIT_0 <= b <= DIGIT_9 {
        (b - DIGIT_0 + 52) as u8
    } else if b == PLUS {
        62
    } else if b == SLASH {
        63
    } else {
        255
    }
}

/// The sextets of `s` shifted into one 32-bit word, the first one highest:
/// each step shifts the word left by six bits and ors in the next value.
pub open spec fn pack_sextets(s: Seq<u8>) -> u32
    decreases s.len(),
{
    if s.len() == 0 {
        0
    } else {
        (pack_sextets(s.drop_last()) << 6u32) | (s.last() as u32)
    }
}

/// The three bytes carried by the low 24 bits of a packed word, highest first.
pub open spec fn word_bytes(w: u32) -> Seq<u8> {
    seq![(w >> 16u32) as u8, (w >> 8u32) as u8, w as u8]
}

/// The word that a chunk of four base64 bytes packs to.
pub open spec fn chunk_word(c: Seq<u8>) -> u32 {
    pack_sextets(c.map_values(|b: u8| sextet(b)))
}

/// A chunk of at most four bytes filled up to four with `A` (the sextet 0).
pub open spec fn pad_chunk(c: Seq<u8>) -> Seq<u8> {
    c + Seq::new((4 - c.len()) as nat, |i: int| UPPER_A)
}

/// The number of bytes that `input` base64 characters (padding removed)
/// decode to.
pub open spec fn spec_decoded_len(input: int) -> int {
    input / 4 * 3 + (input % 4 - (input % 4) / 2)
}

/// The bytes that a chunk of at most four base64 characters decodes to.
pub open spec fn decode_chunk(c: Seq<u8>) -> Seq<u8> {
    word_bytes(chunk_word(pad_chunk(c))).take(spec_decoded_len(c.len() as int))
}

/// Decoding of `s` chunk by chunk of four; the last chunk may be shorter.
pub open spec fn decode_blocks(s: Seq<u8>) -> Seq<u8>
    decreases s.len(),
{
    if s.len() <= 4 {
        decode_chunk(s)
    } else {
        decode_chunk(s.take(4)) + decode_blocks(s.skip(4))
    }
}

/// `s` without its trailing padding: `==` if it ends so, else `=` if it ends
/// so, else all of it.
pub open spec fn strip_padding(s: Seq<u8>) -> Seq<u8> {
    if s.len() >= 2 && s[s.len() - 1] == PAD && s[s.len() - 2] == PAD {
        s.take(s.len() - 2)
    } else if s.len() >= 1 && s[s.len() - 1] == PAD {
        s.take(s.len() - 1)
    } else {
        s
    }
}

/// The length of the longest run of whole chunks at the start of `s` (the last
/// one may be short) that hold base64 bytes only.
pub open spec fn valid_prefix_len(s: Seq<u8>) -> nat
    decreases s.len(),
{
    if s.len() <= 4 {
        if all_b64(s) {
            s.len()
        } else {
            0
        }
    } else if all_b64(s.take(4)) {
        4 + valid_prefix_len(s.skip(4))
    } else {
        0
    }
}

/// What the lane-wise decoder subtracts from a byte: the offset of the one
/// range that holds it, or 0 for a byte outside the alphabet.
pub open spec fn lane_offset(b: u8) -> u8 {
    (if UPPER_A <= b <= UPPER_Z { 65u8 } else { 0u8 })
        | (if LOWER_A <= b <= LOWER_Z { 71u8 } else { 0u8 })
        | (if DIGIT_0 <= b <= DIGIT_9 { 252u8 } else { 0u8 })
        | (if b == PLUS { 237u8 } else { 0u8 })
        | (if b == SLASH { 240u8 } else { 0u8 })
}

/// The sextet that the lane-wise decoder computes for a byte; for a byte
/// outside the alphabet it is the byte itself.
pub open spec fn lane_sextet(b: u8) -> u8 {
    sub_wrap(b, lane_offset(b))
}

/// The raw bytes of whole chunks of four decoded with lane-wise sextets,
/// whatever the chunks hold.
pub open spec fn lane_decode_blocks(s: Seq<u8>) -> Seq<u8>
    decreases s.len(),
{
    if s.len() < 4 {
        Seq::empty()
    } else {
        word_bytes(pack_sextets(s.take(4).map_values(|b: u8| lane_sextet(b)))) + lane_decode_blocks(
            s.skip(4),
        )
    }
}

// ---------------------------------------------------------------------------
// Executable decoding.
// ---------------------------------------------------------------------------

/// Number of bytes decoded from `input` base64 characters, padding removed.
pub fn decoded_len(input: usize) -> (r: usize)
    ensures
        r == spec_decoded_len(input as int),
{
    let mod4 = input % 4;
    input / 4 * 3 + (mod4 - mod4 / 2)
}

/// The sextet of one byte, `255` where the byte is not base64.
fn sextet_of(byte: u8) -> (r: u8)
    ensures
        r == sextet(byte),
{
    if UPPER_A <= byte && byte <= UPPER_Z {
        byte - UPPER_A
    } else if LOWER_A <= byte && byte <= LOWER_Z {
        byte - LOWER_A + 26
    } else if DIGIT_0 <= byte && byte <= DIGIT_9 {
        byte - DIGIT_0 + 52
    } else if byte == PLUS {
        62
    } else if byte == SLASH {
        63
    } else {
        255
    }
}

/// Decodes four base64 bytes into three bytes, and says whether all four were
/// in the alphabet. Where one is not, the bytes are those of the sextet `255`.
pub fn decode_chunk_branched(ascii: [u8; 4]) -> (r: ([u8; 3], bool))
    ensures
        r.0@ == word_bytes(chunk_word(ascii@)),
        r.1 == all_b64(ascii@),
{
    let mut bytes: u32 = 0;
    let mut ok = true;
    let mut k: usize = 0;
    while k < 4
        invariant
            k <= 4,
            bytes == pack_sextets(ascii@.take(k as int).map_values(|b: u8| sextet(b))),
            ok == all_b64(ascii@.take(k as int)),
        decreases 4 - k,
    {
        let byte = ascii[k];
        let s = sextet_of(byte);
        proof {
            let f = |b: u8| sextet(b);
            assert(ascii@.take(k + 1).map_values(f).drop_last() =~= ascii@.take(k as int).map_values(f));
            assert(ascii@.take(k + 1).map_values(f).last() == s);
            assert(s != 255 <==> is_b64_char(byte));
            assert(ascii@.take(k + 1)[k as int] == byte);
            assert(all_b64(ascii@.take(k + 1)) <==> (all_b64(ascii@.take(k as int)) && is_b64_char(byte))) by {
                if all_b64(ascii@.take(k + 1)) {
                    assert forall|i: int| 0 <= i < k implies is_b64_char(#[trigger] ascii@.take(k as int)[i]) by {
                        assert(ascii@.take(k + 1)[i] == ascii@.take(k as int)[i]);
                    }
                }
            }
        }
        bytes = bytes << 6;
        bytes = bytes | (s as u32);
        ok = ok && s != 255;
        k = k + 1;
    }
    proof {
        assert(ascii@.take(4) =~= ascii@);
    }
    let b1 = bytes as u8;
    let b2 = (bytes >> 8) as u8;
    let b3 = (bytes >> 16) as u8;
    let out = [b3, b2, b1];
    assert(out@ =~= word_bytes(bytes));
    (out, ok)
}

/// For each lane of `bytes`, whether it lies in `start..=end`.
pub fn in_range(bytes: &[u8], start: u8, end: u8) -> (r: Vec<bool>)
    ensures
        r@.len() == bytes@.len(),
        forall|i: int| 0 <= i < bytes@.len() ==> r@[i] == (start <= bytes@[i] <= end),
{
    let mut r: Vec<bool> = Vec::new();
    let mut i: usize = 0;
    while i < bytes.len()
        invariant
            i <= bytes@.len(),
            r@.len() == i,
            forall|k: int| 0 <= k < i ==> r@[k] == (start <= bytes@[k] <= end),
        decreases bytes@.len() - i,
    {
        r.push(start <= bytes[i] && bytes[i] <= end);
        i = i + 1;
    }
    r
}

/// `value` in the lanes that `mask` sets, 0 in the others.
pub fn masked_splat(mask: &[bool], value: u8) -> (r: Vec<u8>)
    ensures
        r@.len() == mask@.len(),
        forall|i: int| 0 <= i < mask@.len() ==> r@[i] == if mask@[i] { value } else { 0u8 },
{
    let mut r: Vec<u8> = Vec::new();
    let mut i: usize = 0;
    while i < mask.len()
        invariant
            i <= mask@.len(),
            r@.len() == i,
            forall|k: int| 0 <= k < i ==> r@[k] == if mask@[k] { value } else { 0u8 },
        decreases mask@.len() - i,
    {
        r.push(if mask[i] { value } else { 0 });
        i = i + 1;
    }
    r
}

/// Computes the sextets of all lanes of `ascii` at once, by range masks and
/// offsets, and says whether every lane was in the alphabet. A lane outside
/// the alphabet keeps its byte.
pub fn decode_chunk_simd_elegant(ascii: &[u8]) -> (r: (Vec<u8>, bool))
    ensures
        r.0@ == ascii@.map_values(|b: u8| lane_sextet(b)),
        r.1 == all_b64(ascii@),
{
    // One mask per range; the ranges are disjoint.
    let uppers = in_range(ascii, UPPER_A, UPPER_Z);
    let lowers = in_range(ascii, LOWER_A, LOWER_Z);
    let digits = in_range(ascii, DIGIT_0, DIGIT_9);
    let pluses = lanes_eq(ascii, PLUS);
    let solidi = lanes_eq(ascii, SLASH);

    // A byte outside the alphabet is in no mask.
    let any1 = mask_or(&uppers, &lowers);
    let any2 = mask_or(&any1, &digits);
    let any3 = mask_or(&any2, &pluses);
    let any4 = mask_or(&any3, &solidi);
    let ok = mask_all(&any4);

    // The offset of each lane, by splatting each range's offset over its mask.
    let o1 = masked_splat(&uppers, UPPER_A);
    let o2 = masked_splat(&lowers, LOWER_A - 26);
    let o3 = masked_splat(&digits, DIGIT_0.wrapping_sub(52));
    let o4 = masked_splat(&pluses, PLUS.wrapping_sub(62));
    let o5 = masked_splat(&solidi, SLASH.wrapping_sub(63));
    let p1 = lanes_or(&o1, &o2);
    let p2 = lanes_or(&p1, &o3);
    let p3 = lanes_or(&p2, &o4);
    let offsets = lanes_or(&p3, &o5);

    let sextets = lanes_sub(ascii, &offsets);
    proof {
        assert(sextets@ =~= ascii@.map_values(|b: u8| lane_sextet(b)));
        assert(ok == all_b64(ascii@)) by {
            assert forall|i: int| 0 <= i < ascii@.len() implies #[trigger] any4@[i] == is_b64_char(ascii@[i]) by {}
        }
    }
    (sextets, ok)
}

/// Packs four sextets into three bytes, the first sextet highest.
pub fn decode_pack(input: [u8; 4]) -> (r: [u8; 3])
    ensures
        r@ == word_bytes(pack_sextets(input@)),
{
    let mut output: u32 = 0;
    let mut i: usize = 0;
    while i < 4
        invariant
            i <= 4,
            output == pack_sextets(input@.take(i as int)),
        decreases 4 - i,
    {
        assert(input@.take(i + 1).drop_last() =~= input@.take(i as int));
        output = output << 6;
        output = output | (input[i] as u32);
        i = i + 1;
    }
    assert(input@.take(4) =~= input@);
    let w = output;
    output = output << 8;
    let b0 = (output >> 24) as u8;
    let b1 = (output >> 16) as u8;
    let b2 = (output >> 8) as u8;
    assert(b0 == (w >> 16u32) as u8 && b1 == (w >> 8u32) as u8 && b2 == w as u8) by (bit_vector)
        requires
            output == w << 8u32,
            b0 == (output >> 24u32) as u8,
            b1 == (output >> 16u32) as u8,
            b2 == (output >> 8u32) as u8,
    ;
    let out = [b0, b1, b2];
    assert(out@ =~= word_bytes(w));
    out
}


// ---------------------------------------------------------------------------
// Lemmas about the model.
// ---------------------------------------------------------------------------

proof fn lemma_decode_chunk_empty()
    ensures
        decode_blocks(Seq::<u8>::empty()) =~= Seq::<u8>::empty(),
{
}

/// Decoding splits at any multiple of four.
pub proof fn lemma_decode_blocks_split(s: Seq<u8>, k: int)
    requires
        0 <= k <= s.len(),
        k % 4 == 0,
    ensures
        decode_blocks(s) == decode_blocks(s.take(k)) + decode_blocks(s.skip(k)),
    decreases k,
{
    lemma_decode_chunk_empty();
    if k == 0 {
        assert(s.take(0) =~= Seq::<u8>::empty());
        assert(s.skip(0) =~= s);
        assert(decode_blocks(s) =~= Seq::<u8>::empty() + decode_blocks(s));
    } else if s.len() <= 4 {
        assert(s.take(k) =~= s);
        assert(s.skip(k) =~= Seq::<u8>::empty());
        assert(decode_blocks(s) =~= decode_blocks(s) + Seq::<u8>::empty());
    } else {
        let t = s.skip(4);
        lemma_decode_blocks_split(t, k - 4);
        assert(t.skip(k - 4) =~= s.skip(k));
        if k == 4 {
            assert(s.take(k).len() == 4);
            assert(t.take(0) =~= Seq::<u8>::empty());
            assert(decode_blocks(t.take(0)) =~= Seq::<u8>::empty());
            assert(decode_blocks(s.take(4)) == decode_chunk(s.take(4)));
            assert(decode_blocks(t) =~= decode_blocks(t.take(0)) + decode_blocks(t.skip(0)));
            assert(t.skip(0) =~= t);
            assert(decode_blocks(s) =~= decode_blocks(s.take(k)) + decode_blocks(s.skip(k)));
        } else {
            assert(s.take(k).take(4) =~= s.take(4));
            assert(s.take(k).skip(4) =~= t.take(k - 4));
            assert(decode_blocks(s.take(k)) == decode_chunk(s.take(4)) + decode_blocks(t.take(k - 4)));
            assert(decode_blocks(s) =~= decode_blocks(s.take(k)) + decode_blocks(s.skip(k)));
        }
    }
}

/// Decoding a prefix that ends at a multiple of four and adding the next chunk
/// gives the decoding of the longer prefix.
pub proof fn lemma_decode_blocks_extend(s: Seq<u8>, p: int, q: int)
    requires
        0 <= p < q <= s.len(),
        p % 4 == 0,
        q == p + 4 || (q == s.len() && q < p + 4),
    ensures
        decode_blocks(s.take(q)) == decode_blocks(s.take(p)) + decode_chunk(s.subrange(p, q)),
{
    let t = s.take(q);
    lemma_decode_blocks_split(t, p);
    assert(t.take(p) =~= s.take(p));
    assert(t.skip(p) =~= s.subrange(p, q));
}

/// The valid prefix grows past a prefix of whole valid chunks.
pub proof fn lemma_valid_prefix_len_skip(s: Seq<u8>, i: int)
    requires
        0 <= i <= s.len(),
        i % 4 == 0,
        all_b64(s.take(i)),
    ensures
        valid_prefix_len(s) == i + valid_prefix_len(s.skip(i)),
    decreases i,
{
    if i == 0 {
        assert(s.skip(0) =~= s);
    } else if s.len() <= 4 {
        assert(s.take(i) =~= s);
        assert(s.skip(i).len() == 0);
        assert(all_b64(s.skip(i)));
    } else {
        assert forall|j: int| 0 <= j < 4 implies is_b64_char(#[trigger] s.take(4)[j]) by {
            assert(s.take(i)[j] == s.take(4)[j]);
        }
        let t = s.skip(4);
        assert forall|j: int| 0 <= j < i - 4 implies is_b64_char(#[trigger] t.take(i - 4)[j]) by {
            assert(s.take(i)[j + 4] == t.take(i - 4)[j]);
        }
        lemma_valid_prefix_len_skip(t, i - 4);
        assert(t.skip(i - 4) =~= s.skip(i));
    }
}

/// The whole input is valid exactly where the valid prefix is all of it.
pub proof fn lemma_valid_prefix_len_all(s: Seq<u8>)
    ensures
        valid_prefix_len(s) <= s.len(),
        all_b64(s) <==> valid_prefix_len(s) == s.len(),
    decreases s.len(),
{
    if s.len() > 4 {
        let t = s.skip(4);
        lemma_valid_prefix_len_all(t);
        if all_b64(s) {
            assert forall|j: int| 0 <= j < 4 implies is_b64_char(#[trigger] s.take(4)[j]) by {
                assert(s[j] == s.take(4)[j]);
            }
            assert forall|j: int| 0 <= j < t.len() implies is_b64_char(#[trigger] t[j]) by {
                assert(s[j + 4] == t[j]);
            }
        }
        if valid_prefix_len(s) == s.len() {
            assert(all_b64(s.take(4)));
            assert forall|j: int| 0 <= j < s.len() implies is_b64_char(#[trigger] s[j]) by {
                if j < 4 {
                    assert(s.take(4)[j] == s[j]);
                } else {
                    assert(t[j - 4] == s[j]);
                }
            }
        }
    }
}

/// A prefix is valid exactly where its two parts are.
proof fn lemma_all_b64_split(s: Seq<u8>, p: int, q: int)
    requires
        0 <= p <= q <= s.len(),
    ensures
        all_b64(s.take(q)) <==> (all_b64(s.take(p)) && all_b64(s.subrange(p, q))),
{
    if all_b64(s.take(q)) {
        assert forall|j: int| 0 <= j < p implies is_b64_char(#[trigger] s.take(p)[j]) by {
            assert(s.take(q)[j] == s.take(p)[j]);
        }
        assert forall|j: int| 0 <= j < q - p implies is_b64_char(#[trigger] s.subrange(p, q)[j]) by {
            assert(s.take(q)[j + p] == s.subrange(p, q)[j]);
        }
    }
    if all_b64(s.take(p)) && all_b64(s.subrange(p, q)) {
        assert forall|j: int| 0 <= j < q implies is_b64_char(#[trigger] s.take(q)[j]) by {
            if j < p {
                assert(s.take(p)[j] == s.take(q)[j]);
            } else {
                assert(s.subrange(p, q)[j - p] == s.take(q)[j]);
            }
        }
    }
}

/// A chunk that holds a byte outside the alphabet stops the valid prefix.
proof fn lemma_valid_prefix_len_stops(s: Seq<u8>, i: int, n: int)
    requires
        0 <= i < s.len(),
        i % 4 == 0,
        n == if s.len() - i < 4 { s.len() - i } else { 4 },
        all_b64(s.take(i)),
        !all_b64(s.subrange(i, i + n)),
    ensures
        valid_prefix_len(s) == i,
        !all_b64(s),
{
    lemma_valid_prefix_len_skip(s, i);
    let t = s.skip(i);
    if t.len() <= 4 {
        assert(t =~= s.subrange(i, i + n));
    } else {
        assert(t.take(4) =~= s.subrange(i, i + n));
    }
    let j = choose|j: int| 0 <= j < n && !is_b64_char(#[trigger] s.subrange(i, i + n)[j]);
    assert(s[i + j] == s.subrange(i, i + n)[j]);
}

/// On a base64 byte the lane-wise sextet is the sextet.
pub proof fn lemma_lane_sextet(b: u8)
    by (bit_vector)
    requires
        is_b64_char(b),
    ensures
        lane_sextet(b) == sextet(b),
{
}

/// The two chunk decoders agree: the lane-wise decoder accepts a chunk
/// exactly where the branching one does, and then gives the same bytes.
pub proof fn lemma_chunk_decoders_agree(ascii: Seq<u8>)
    requires
        ascii.len() == 4,
    ensures
        all_b64(ascii) ==> word_bytes(pack_sextets(ascii.map_values(|b: u8| lane_sextet(b))))
            == word_bytes(chunk_word(ascii)),
{
    if all_b64(ascii) {
        let lanes = ascii.map_values(|b: u8| lane_sextet(b));
        let sextets = ascii.map_values(|b: u8| sextet(b));
        assert forall|i: int| 0 <= i < 4 implies #[trigger] lanes[i] == sextets[i] by {
            lemma_lane_sextet(ascii[i]);
        }
        assert(lanes =~= sextets);
    }
}

/// Lane-wise decoding of whole chunks extends chunk by chunk.
proof fn lemma_lane_decode_blocks_extend(s: Seq<u8>, p: int)
    requires
        0 <= p,
        p + 4 <= s.len(),
        p % 4 == 0,
    ensures
        lane_decode_blocks(s.take(p + 4)) == lane_decode_blocks(s.take(p)) + word_bytes(
            pack_sextets(s.subrange(p, p + 4).map_values(|b: u8| lane_sextet(b))),
        ),
    decreases p,
{
    let w = word_bytes(pack_sextets(s.subrange(p, p + 4).map_values(|b: u8| lane_sextet(b))));
    if p == 0 {
        let t = s.take(4);
        assert(t.take(4) =~= s.subrange(0, 4));
        assert(t.skip(4).len() == 0);
        assert(lane_decode_blocks(t.skip(4)) =~= Seq::<u8>::empty());
        assert(s.take(0).len() == 0);
        assert(lane_decode_blocks(s.take(0)) =~= Seq::<u8>::empty());
        assert(lane_decode_blocks(t) =~= lane_decode_blocks(s.take(0)) + w);
    } else {
        let t = s.skip(4);
        lemma_lane_decode_blocks_extend(t, p - 4);
        assert(t.subrange(p - 4, p) =~= s.subrange(p, p + 4));
        assert(s.take(p + 4).take(4) =~= s.take(4));
        assert(s.take(p + 4).skip(4) =~= t.take(p));
        assert(s.take(p).take(4) =~= s.take(4));
        assert(s.take(p).skip(4) =~= t.take(p - 4));
        assert(lane_decode_blocks(s.take(p + 4)) =~= lane_decode_blocks(s.take(p)) + w);
    }
}

/// On base64 bytes, lane-wise decoding of whole chunks is decoding.
pub proof fn lemma_lane_decode_blocks_valid(s: Seq<u8>)
    requires
        s.len() % 4 == 0,
        all_b64(s),
    ensures
        lane_decode_blocks(s) == decode_blocks(s),
    decreases s.len(),
{
    if s.len() == 0 {
        lemma_decode_chunk_empty();
    } else {
        let c = s.take(4);
        assert forall|i: int| 0 <= i < 4 implies is_b64_char(#[trigger] c[i]) by {
            assert(c[i] == s[i]);
        }
        lemma_chunk_decoders_agree(c);
        assert(pad_chunk(c) =~= c);
        let w = word_bytes(chunk_word(c));
        assert(decode_chunk(c) =~= w);
        let t = s.skip(4);
        assert forall|i: int| 0 <= i < t.len() implies is_b64_char(#[trigger] t[i]) by {
            assert(t[i] == s[i + 4]);
        }
        lemma_lane_decode_blocks_valid(t);
        if s.len() == 4 {
            assert(t.len() == 0);
            lemma_decode_chunk_empty();
            assert(c =~= s);
            assert(lane_decode_blocks(s) =~= w + Seq::<u8>::empty());
        }
    }
}

/// Decoding `n` characters gives `decoded_len(n)` bytes.
pub proof fn lemma_decode_blocks_len(s: Seq<u8>)
    ensures
        decode_blocks(s).len() == spec_decoded_len(s.len() as int),
    decreases s.len(),
{
    if s.len() > 4 {
        lemma_decode_blocks_len(s.skip(4));
        assert(spec_decoded_len(s.len() as int) == 3 + spec_decoded_len(s.len() - 4));
    }
}

/// The decoded length grows with the input length.
pub proof fn lemma_decoded_len_mono(a: int, b: int)
    requires
        0 <= a <= b,
    ensures
        spec_decoded_len(a) <= spec_decoded_len(b),
{
}

/// What a decoder appends on success fits in `decoded_len` of the whole input,
/// padding included.
pub proof fn lemma_output_fits(data: Seq<u8>)
    ensures
        decode_blocks(strip_padding(data)).len() <= spec_decoded_len(data.len() as int),
{
    lemma_decode_blocks_len(strip_padding(data));
    lemma_decoded_len_mono(strip_padding(data).len() as int, data.len() as int);
}

proof fn lemma_pack4(s: Seq<u8>)
    requires
        s.len() == 4,
    ensures
        pack_sextets(s) == ((((((((0u32 << 6u32) | (s[0] as u32)) << 6u32) | (s[1] as u32))
            << 6u32) | (s[2] as u32)) << 6u32) | (s[3] as u32)),
{
    let s3 = s.drop_last();
    let s2 = s3.drop_last();
    let s1 = s2.drop_last();
    let s0 = s1.drop_last();
    assert(s0.len() == 0);
    assert(pack_sextets(s0) == 0);
    assert(s1.last() == s[0] && s2.last() == s[1] && s3.last() == s[2] && s.last() == s[3]);
    assert(pack_sextets(s1) == (0u32 << 6u32) | (s[0] as u32));
    assert(pack_sextets(s2) == (pack_sextets(s1) << 6u32) | (s[1] as u32));
    assert(pack_sextets(s3) == (pack_sextets(s2) << 6u32) | (s[2] as u32));
    assert(pack_sextets(s) == (pack_sextets(s3) << 6u32) | (s[3] as u32));
}

proof fn lemma_unpack4(s0: u32, s1: u32, s2: u32, s3: u32)
    by (bit_vector)
    requires
        s0 < 64,
        s1 < 64,
        s2 < 64,
        s3 < 64,
    ensures
        ({
            let w = ((((((((0u32 << 6u32) | s0) << 6u32) | s1) << 6u32) | s2) << 6u32) | s3);
            &&& (w >> 16u32) as u8 == (((s0 as u8) << 2u8) | ((s1 as u8) >> 4u8))
            &&& (w >> 8u32) as u8 == (((s1 as u8) << 4u8) | ((s2 as u8) >> 2u8))
            &&& w as u8 == (((s2 as u8) << 6u8) | (s3 as u8))
        }),
{
}

/// A chunk of four base64 characters decodes as RFC 4648 says: its four
/// sextets, first highest, make the 24 bits of three bytes.
pub proof fn lemma_chunk_rfc4648(c: Seq<u8>)
    requires
        c.len() == 4,
        all_b64(c),
    ensures
        ({
            let (s0, s1, s2, s3) = (sextet(c[0]), sextet(c[1]), sextet(c[2]), sextet(c[3]));
            decode_chunk(c) == seq![
                (s0 << 2u8) | (s1 >> 4u8),
                (s1 << 4u8) | (s2 >> 2u8),
                (s2 << 6u8) | s3,
            ]
        }),
{
    assert(pad_chunk(c) =~= c);
    let m = c.map_values(|b: u8| sextet(b));
    lemma_pack4(m);
    assert(is_b64_char(c[0]) && is_b64_char(c[1]) && is_b64_char(c[2]) && is_b64_char(c[3]));
    lemma_unpack4(m[0] as u32, m[1] as u32, m[2] as u32, m[3] as u32);
    assert(decode_chunk(c) =~= word_bytes(chunk_word(c)));
}

// ---------------------------------------------------------------------------
// Encoding, and decoding as its inverse.
// ---------------------------------------------------------------------------

/// The alphabet character of a six-bit value (RFC 4648, table 1).
pub open spec fn b64_char(v: u8) -> u8 {
    if v < 26 {
        (v + 65) as u8
    } else if v < 52 {
        (v + 71) as u8
    } else if v < 62 {
        (v - 4) as u8
    } else if v == 62 {
        43
    } else {
        47
    }
}

/// The four characters that encode the three bytes `b0 b1 b2`: their 24 bits
/// cut into four six-bit values, highest first.
pub open spec fn encode_triple(b0: u8, b1: u8, b2: u8) -> Seq<u8> {
    seq![
        b64_char(b0 >> 2u8),
        b64_char(((b0 & 3u8) << 4u8) | (b1 >> 4u8)),
        b64_char(((b1 & 15u8) << 2u8) | (b2 >> 6u8)),
        b64_char(b2 & 63u8),
    ]
}

/// The standard padded base64 encoding of `x` (RFC 4648): each group of three
/// bytes gives four characters; a last group of one byte gives two characters
/// and `==`, one of two bytes three characters and `=`.
pub open spec fn encode_b64(x: Seq<u8>) -> Seq<u8>
    decreases x.len(),
{
    if x.len() == 0 {
        Seq::empty()
    } else if x.len() == 1 {
        encode_triple(x[0], 0, 0).take(2) + seq![PAD, PAD]
    } else if x.len() == 2 {
        encode_triple(x[0], x[1], 0).take(3) + seq![PAD]
    } else {
        encode_triple(x[0], x[1], x[2]) + encode_b64(x.skip(3))
    }
}

/// The alphabet characters are base64 bytes whose sextets are their values.
proof fn lemma_b64_char(v: u8)
    requires
        v < 64,
    ensures
        is_b64_char(b64_char(v)),
        sextet(b64_char(v)) == v,
        b64_char(v) != PAD,
{
}

proof fn lemma_triple_bits(b0: u8, b1: u8, b2: u8)
    by (bit_vector)
    ensures
        b0 >> 2u8 < 64u8,
        ((b0 & 3u8) << 4u8) | (b1 >> 4u8) < 64u8,
        ((b1 & 15u8) << 2u8) | (b2 >> 6u8) < 64u8,
        b2 & 63u8 < 64u8,
        ((b0 >> 2u8) << 2u8) | ((((b0 & 3u8) << 4u8) | (b1 >> 4u8)) >> 4u8) == b0,
        ((((b0 & 3u8) << 4u8) | (b1 >> 4u8)) << 4u8) | ((((b1 & 15u8) << 2u8) | (b2 >> 6u8))
            >> 2u8) == b1,
        ((((b1 & 15u8) << 2u8) | (b2 >> 6u8)) << 6u8) | (b2 & 63u8) == b2,
        0u8 >> 4u8 == 0u8,
        0u8 >> 6u8 == 0u8,
        0u8 & 63u8 == 0u8,
        ((0u8 & 15u8) << 2u8) | (0u8 >> 6u8) == 0u8,
{
}

/// The four characters of three bytes are base64 and decode back to them.
proof fn lemma_decode_triple(b0: u8, b1: u8, b2: u8)
    ensures
        all_b64(encode_triple(b0, b1, b2)),
        decode_chunk(encode_triple(b0, b1, b2)) == seq![b0, b1, b2],
        encode_triple(b0, b1, b2)[3] != PAD,
{
    let q = encode_triple(b0, b1, b2);
    lemma_triple_bits(b0, b1, b2);
    lemma_b64_char(b0 >> 2u8);
    lemma_b64_char(((b0 & 3u8) << 4u8) | (b1 >> 4u8));
    lemma_b64_char(((b1 & 15u8) << 2u8) | (b2 >> 6u8));
    lemma_b64_char(b2 & 63u8);
    assert forall|i: int| 0 <= i < 4 implies is_b64_char(#[trigger] q[i]) by {}
    lemma_chunk_rfc4648(q);
    assert(decode_chunk(q) =~= seq![b0, b1, b2]);
}

/// The alphabet is exactly the characters of the encoding table, and the
/// sextet of a character is its value in the table.
pub proof fn lemma_alphabet(b: u8)
    ensures
        is_b64_char(b) <==> exists|v: u8| v < 64 && #[trigger] b64_char(v) == b,
        is_b64_char(b) ==> sextet(b) < 64 && b64_char(sextet(b)) == b,
{
    if exists|v: u8| v < 64 && #[trigger] b64_char(v) == b {
        let v = choose|v: u8| v < 64 && #[trigger] b64_char(v) == b;
        lemma_b64_char(v);
    }
    if is_b64_char(b) {
        assert(sextet(b) < 64 && b64_char(sextet(b)) == b);
    }
}

/// A short chunk decodes as the chunk filled up with `A` does, cut to its
/// decoded length.
proof fn lemma_decode_short_chunk(c: Seq<u8>)
    requires
        2 <= c.len() <= 3,
    ensures
        decode_chunk(c) == decode_chunk(pad_chunk(c)).take(spec_decoded_len(c.len() as int)),
{
    assert(pad_chunk(pad_chunk(c)) =~= pad_chunk(c));
}

/// Removing the padding looks only at the last two bytes.
proof fn lemma_strip_padding_concat(a: Seq<u8>, b: Seq<u8>)
    requires
        b.len() >= 2,
    ensures
        strip_padding(a + b) == a + strip_padding(b),
{
    let s = a + b;
    assert(s[s.len() - 1] == b[b.len() - 1]);
    assert(s[s.len() - 2] == b[b.len() - 2]);
    assert(s.take(s.len() - 2) =~= a + b.take(b.len() - 2));
    assert(s.take(s.len() - 1) =~= a + b.take(b.len() - 1));
}

/// Removing the padding takes off one trailing `=` after a byte that is not
/// `=`, whatever the length of the text before it, and leaves a text that
/// does not end in `=` as it is.
pub proof fn lemma_strip_padding_exact(t: Seq<u8>)
    requires
        t.len() == 0 || t[t.len() - 1] != PAD,
    ensures
        strip_padding(t) == t,
        strip_padding(t.push(PAD)) == t,
        strip_padding(t.push(PAD).push(PAD)) == t,
{
    lemma_strip_double_padding(t);
    assert(t.push(PAD).take(t.len() as int) =~= t);
}

/// Removing the padding takes off a trailing `==` from any text, whatever its
/// length and whatever comes before. With `lemma_strip_padding_exact` this
/// says what it does to every text.
pub proof fn lemma_strip_double_padding(t: Seq<u8>)
    ensures
        strip_padding(t.push(PAD).push(PAD)) == t,
{
    assert(t.push(PAD).push(PAD).take(t.len() as int) =~= t);
}

/// The encoding of a non-empty text is at least four characters long.
proof fn lemma_encode_b64_len(x: Seq<u8>)
    ensures
        x.len() > 0 ==> encode_b64(x).len() >= 4,
    decreases x.len(),
{
    if x.len() >= 3 {
        lemma_encode_b64_len(x.skip(3));
    }
}

/// Decoding inverts encoding: for every byte sequence `x`, its standard padded
/// base64 encoding, with the padding removed, is all base64 bytes and decodes
/// to exactly `x`. With the decoders' contracts this says that each decoder
/// accepts the encoding of any `x` and appends exactly `x`.
pub proof fn lemma_decode_encode(x: Seq<u8>)
    ensures
        all_b64(strip_padding(encode_b64(x))),
        decode_blocks(strip_padding(encode_b64(x))) == x,
    decreases x.len(),
{
    if x.len() == 0 {
        lemma_decode_chunk_empty();
        assert(encode_b64(x) =~= Seq::<u8>::empty());
        assert(strip_padding(encode_b64(x)) =~= Seq::<u8>::empty());
        assert(x =~= Seq::<u8>::empty());
    } else if x.len() == 1 {
        let q = encode_triple(x[0], 0, 0);
        lemma_decode_triple(x[0], 0, 0);
        let c = q.take(2);
        lemma_strip_padding_exact(c);
        assert(encode_b64(x) =~= c.push(PAD).push(PAD));
        lemma_triple_bits(x[0], 0, 0);
        assert(q[2] == UPPER_A && q[3] == UPPER_A);
        assert(pad_chunk(c) =~= q);
        lemma_decode_short_chunk(c);
        assert forall|i: int| 0 <= i < 2 implies is_b64_char(#[trigger] c[i]) by {
            assert(c[i] == q[i]);
        }
        assert(decode_blocks(c) =~= x);
    } else if x.len() == 2 {
        let q = encode_triple(x[0], x[1], 0);
        lemma_decode_triple(x[0], x[1], 0);
        let c = q.take(3);
        lemma_strip_padding_exact(c);
        assert(encode_b64(x) =~= c.push(PAD));
        lemma_triple_bits(x[0], x[1], 0);
        assert(q[3] == UPPER_A);
        assert(pad_chunk(c) =~= q);
        lemma_decode_short_chunk(c);
        assert forall|i: int| 0 <= i < 3 implies is_b64_char(#[trigger] c[i]) by {
            assert(c[i] == q[i]);
        }
        assert(decode_blocks(c) =~= x);
    } else {
        let q = encode_triple(x[0], x[1], x[2]);
        lemma_decode_triple(x[0], x[1], x[2]);
        let rest = x.skip(3);
        let e = encode_b64(rest);
        assert(encode_b64(x) == q + e);
        if rest.len() == 0 {
            assert(e =~= Seq::<u8>::empty());
            assert(q + e =~= q);
            lemma_strip_padding_exact(q);
            assert(x =~= seq![x[0], x[1], x[2]]);
        } else {
            lemma_encode_b64_len(rest);
            lemma_decode_encode(rest);
            lemma_strip_padding_concat(q, e);
            let t = strip_padding(e);
            let s = q + t;
            assert(s.take(4) =~= q);
            assert(s.skip(4) =~= t);
            assert forall|i: int| 0 <= i < s.len() implies is_b64_char(#[trigger] s[i]) by {
                if i < 4 {
                    assert(s[i] == q[i]);
                } else {
                    assert(s[i] == t[i - 4]);
                }
            }
            assert(decode_blocks(s) == decode_chunk(q) + decode_blocks(t));
            assert(x =~= seq![x[0], x[1], x[2]] + rest);
        }
    }
}

// ---------------------------------------------------------------------------
// Decoding loops.
// ---------------------------------------------------------------------------

/// Appends the first `n` bytes of `bytes` to `out`.
fn extend_with_prefix(out: &mut Vec<u8>, bytes: &[u8], n: usize)
    requires
        n <= bytes@.len(),
    ensures
        final(out)@ == old(out)@ + bytes@.take(n as int),
{
    let mut j: usize = 0;
    while j < n
        invariant
            j <= n <= bytes@.len(),
            out@ == old(out)@ + bytes@.take(j as int),
        decreases n - j,
    {
        out.push(bytes[j]);
        assert(bytes@.take(j + 1) =~= bytes@.take(j as int).push(bytes@[j as int]));
        j = j + 1;
    }
}

/// The chunk of at most four bytes at `i`, filled up with `A`.
fn padded_chunk(data: &[u8], i: usize, n: usize) -> (r: [u8; 4])
    requires
        1 <= n <= 4,
        i + n <= data@.len(),
    ensures
        r@ == pad_chunk(data@.subrange(i as int, i + n)),
{
    let c0 = data[i];
    let c1 = if n > 1 { data[i + 1] } else { UPPER_A };
    let c2 = if n > 2 { data[i + 2] } else { UPPER_A };
    let c3 = if n > 3 { data[i + 3] } else { UPPER_A };
    let r = [c0, c1, c2, c3];
    assert(r@ =~= pad_chunk(data@.subrange(i as int, i + n)));
    r
}

/// Decodes `data[start..end]` chunk by chunk of four into `out`, and stops at
/// the first chunk that holds a byte outside the alphabet.
fn decode_range_branched(data: &[u8], start: usize, end: usize, out: &mut Vec<u8>) -> (ok: bool)
    requires
        start <= end <= data@.len(),
    ensures
        ({
            let seg = data@.subrange(start as int, end as int);
            &&& ok == all_b64(seg)
            &&& final(out)@ == old(out)@ + decode_blocks(seg.take(valid_prefix_len(seg) as int))
        }),
{
    let ghost seg = data@.subrange(start as int, end as int);
    let mut i = start;
    proof {
        lemma_decode_chunk_empty();
        assert(seg.take(0) =~= Seq::<u8>::empty());
        assert(out@ =~= old(out)@ + Seq::<u8>::empty());
    }
    while i < end
        invariant
            start <= i <= end <= data@.len(),
            seg == data@.subrange(start as int, end as int),
            (i - start) % 4 == 0 || i == end,
            all_b64(seg.take(i - start)),
            out@ == old(out)@ + decode_blocks(seg.take(i - start)),
        decreases end - i,
    {
        let n: usize = if end - i < 4 { end - i } else { 4 };
        let ghost p = i - start;
        let ascii = padded_chunk(data, i, n);
        let (bytes, ok) = decode_chunk_branched(ascii);
        let ghost chunk = seg.subrange(p, p + n);
        assert(chunk =~= data@.subrange(i as int, i + n));
        if !ok {
            proof {
                if all_b64(chunk) {
                    assert forall|j: int| 0 <= j < 4 implies is_b64_char(#[trigger] ascii@[j]) by {
                        if j < n {
                            assert(ascii@[j] == chunk[j]);
                        }
                    }
                }
                lemma_valid_prefix_len_stops(seg, p, n as int);
            }
            return false;
        }
        let len = decoded_len(n);
        extend_with_prefix(out, &bytes, len);
        proof {
            assert forall|j: int| 0 <= j < p + n implies is_b64_char(#[trigger] seg.take(p + n)[j]) by {
                if j < p {
                    assert(seg.take(p)[j] == seg.take(p + n)[j]);
                } else {
                    assert(ascii@[j - p] == seg.take(p + n)[j]);
                }
            }
            lemma_decode_blocks_extend(seg, p, p + n);
            assert(out@ =~= old(out)@ + decode_blocks(seg.take(p + n)));
        }
        i = i + n;
    }
    proof {
        assert(seg.take(seg.len() as int) =~= seg);
        lemma_valid_prefix_len_all(seg);
    }
    true
}

/// Error of a base64 decoder: the input holds a byte outside the alphabet.
#[derive(Debug, Clone, Copy)]
pub struct B64Error;

/// The length of `data` without its trailing padding.
fn unpadded_len(data: &[u8]) -> (r: usize)
    ensures
        r <= data@.len(),
        data@.take(r as int) == strip_padding(data@),
{
    let len = data.len();
    let r = if len >= 2 && data[len - 1] == PAD && data[len - 2] == PAD {
        len - 2
    } else if len >= 1 && data[len - 1] == PAD {
        len - 1
    } else {
        len
    };
    assert(data@.take(len as int) =~= data@);
    r
}

/// Decodes base64 `data` into `out`, one chunk of four at a time.
///
/// One trailing `=` or `==` is dropped first. Decoding stops at the first
/// chunk that holds a byte outside the alphabet, with the chunks before it
/// appended, and then gives an error.
pub fn unb64_nonsimd(data: &[u8], out: &mut Vec<u8>) -> (r: Result<(), B64Error>)
    ensures
        ({
            let s = strip_padding(data@);
            &&& r is Ok <==> all_b64(s)
            &&& r is Ok ==> final(out)@ == old(out)@ + decode_blocks(s)
            &&& forall|x: Seq<u8>|
                #[trigger] encode_b64(x) == data@ ==> r is Ok && final(out)@ == old(out)@ + x
            &&& final(out)@ == old(out)@ + decode_blocks(s.take(valid_prefix_len(s) as int))
        }),
{
    let end = unpadded_len(data);
    assert(data@.subrange(0, end as int) =~= data@.take(end as int));
    let ok = decode_range_branched(data, 0, end, out);
    proof {
        let s = strip_padding(data@);
        lemma_valid_prefix_len_all(s);
        assert(s.take(s.len() as int) =~= s);
    }
    proof {
        assert forall|x: Seq<u8>| #[trigger] encode_b64(x) == data@ implies all_b64(
            strip_padding(data@),
        ) && decode_blocks(strip_padding(data@)) == x by {
            lemma_decode_encode(x);
        }
    }
    if ok {
        Ok(())
    } else {
        Err(B64Error)
    }
}


/// Decodes base64 `data` into `out`, a cache line of 64 input bytes at a time.
///
/// One trailing `=` or `==` is dropped first. Each whole cache line is
/// decoded and appended whatever it holds; the rest is decoded chunk by chunk
/// of four and stops at the first chunk that holds a byte outside the
/// alphabet. The result is an error where any byte is outside the alphabet.
#[verifier::spinoff_prover]
#[verifier::rlimit(50)]
pub fn unb64_nonsimd_cachelines(data: &[u8], out: &mut Vec<u8>) -> (r: Result<(), B64Error>)
    ensures
        ({
            let s = strip_padding(data@);
            let f = 64 * (s.len() / 64);
            let rem = s.skip(f as int);
            &&& r is Ok <==> all_b64(s)
            &&& r is Ok ==> final(out)@ == old(out)@ + decode_blocks(s)
            &&& forall|x: Seq<u8>|
                #[trigger] encode_b64(x) == data@ ==> r is Ok && final(out)@ == old(out)@ + x
            &&& final(out)@ == old(out)@ + decode_blocks(s.take(f as int)) + decode_blocks(
                rem.take(valid_prefix_len(rem) as int),
            )
        }),
{
    let end = unpadded_len(data);
    let ghost s = strip_padding(data@);
    let lines = end / 64;
    let mut total_ok = true;
    let mut c: usize = 0;
    proof {
        lemma_decode_chunk_empty();
        assert(s.take(0) =~= Seq::<u8>::empty());
        assert(out@ =~= old(out)@ + Seq::<u8>::empty());
    }
    while c < lines
        invariant
            end == s.len(),
            s == data@.take(end as int),
            end <= data@.len(),
            lines == end / 64,
            c <= lines,
            total_ok == all_b64(s.take(64 * c)),
            out@ == old(out)@ + decode_blocks(s.take(64 * c)),
        decreases lines - c,
    {
        let base = 64 * c;
        let mut j: usize = 0;
        while j < 16
            invariant
                end == s.len(),
                s == data@.take(end as int),
                end <= data@.len(),
                c < lines,
                lines == end / 64,
                base == 64 * c,
                j <= 16,
                total_ok == all_b64(s.take(base + 4 * j)),
                out@ == old(out)@ + decode_blocks(s.take(base + 4 * j)),
            decreases 16 - j,
        {
            let i = base + 4 * j;
            let ascii = padded_chunk(data, i, 4);
            let (bytes, ok) = decode_chunk_branched(ascii);
            extend_with_prefix(out, &bytes, 3);
            proof {
                let chunk = s.subrange(i as int, i + 4);
                assert(chunk =~= data@.subrange(i as int, i + 4));
                assert(pad_chunk(chunk) =~= chunk);
                assert(bytes@.take(3) =~= bytes@);
                lemma_decode_blocks_extend(s, i as int, i + 4);
                lemma_all_b64_split(s, i as int, i + 4);
                assert(out@ =~= old(out)@ + decode_blocks(s.take(i + 4)));
            }
            total_ok = total_ok && ok;
            j = j + 1;
        }
        c = c + 1;
    }
    let f = 64 * lines;
    assert(data@.subrange(f as int, end as int) =~= s.skip(f as int));
    let ok = decode_range_branched(data, f, end, out);
    proof {
        let rem = s.skip(f as int);
        lemma_all_b64_split(s, f as int, end as int);
        assert(s.take(end as int) =~= s);
        assert(s.subrange(f as int, end as int) =~= rem);
        lemma_valid_prefix_len_all(rem);
        assert(rem.take(rem.len() as int) =~= rem);
        lemma_decode_blocks_split(s, f as int);
    }
    proof {
        assert forall|x: Seq<u8>| #[trigger] encode_b64(x) == data@ implies all_b64(
            strip_padding(data@),
        ) && decode_blocks(strip_padding(data@)) == x by {
            lemma_decode_encode(x);
        }
    }
    if total_ok && ok {
        Ok(())
    } else {
        Err(B64Error)
    }
}


/// Decodes `data[start..end]` chunk by chunk of four into `out` with the
/// lane-wise decoder, and stops at the first chunk that holds a byte outside
/// the alphabet.
fn decode_range_lanes(data: &[u8], start: usize, end: usize, out: &mut Vec<u8>) -> (ok: bool)
    requires
        start <= end <= data@.len(),
    ensures
        ({
            let seg = data@.subrange(start as int, end as int);
            &&& ok == all_b64(seg)
            &&& final(out)@ == old(out)@ + decode_blocks(seg.take(valid_prefix_len(seg) as int))
        }),
{
    let ghost seg = data@.subrange(start as int, end as int);
    let mut i = start;
    proof {
        lemma_decode_chunk_empty();
        assert(seg.take(0) =~= Seq::<u8>::empty());
        assert(out@ =~= old(out)@ + Seq::<u8>::empty());
    }
    while i < end
        invariant
            start <= i <= end <= data@.len(),
            seg == data@.subrange(start as int, end as int),
            (i - start) % 4 == 0 || i == end,
            all_b64(seg.take(i - start)),
            out@ == old(out)@ + decode_blocks(seg.take(i - start)),
        decreases end - i,
    {
        let n: usize = if end - i < 4 { end - i } else { 4 };
        let ghost p = i - start;
        let ascii = padded_chunk(data, i, n);
        let (sextets, ok) = decode_chunk_simd_elegant(ascii.as_slice());
        let ghost chunk = seg.subrange(p, p + n);
        assert(chunk =~= data@.subrange(i as int, i + n));
        if !ok {
            proof {
                if all_b64(chunk) {
                    assert forall|j: int| 0 <= j < 4 implies is_b64_char(#[trigger] ascii@[j]) by {
                        if j < n {
                            assert(ascii@[j] == chunk[j]);
                        }
                    }
                }
                lemma_valid_prefix_len_stops(seg, p, n as int);
            }
            return false;
        }
        let bytes = decode_pack([sextets[0], sextets[1], sextets[2], sextets[3]]);
        let len = decoded_len(n);
        extend_with_prefix(out, &bytes, len);
        proof {
            let lanes = ascii@.map_values(|b: u8| lane_sextet(b));
            assert(seq![sextets@[0], sextets@[1], sextets@[2], sextets@[3]] =~= lanes);
            lemma_chunk_decoders_agree(ascii@);
            assert forall|j: int| 0 <= j < p + n implies is_b64_char(#[trigger] seg.take(p + n)[j]) by {
                if j < p {
                    assert(seg.take(p)[j] == seg.take(p + n)[j]);
                } else {
                    assert(ascii@[j - p] == seg.take(p + n)[j]);
                }
            }
            lemma_decode_blocks_extend(seg, p, p + n);
            assert(out@ =~= old(out)@ + decode_blocks(seg.take(p + n)));
        }
        i = i + n;
    }
    proof {
        assert(seg.take(seg.len() as int) =~= seg);
        lemma_valid_prefix_len_all(seg);
    }
    true
}

/// Decodes base64 `data` into `out`, 32 input bytes at a time with lane-wise
/// range masks.
///
/// One trailing `=` or `==` is dropped first. Each whole block of 32 is
/// decoded and appended whatever it holds (a byte outside the alphabet keeps
/// its value as its sextet); the rest is decoded chunk by chunk of four and
/// stops at the first chunk that holds a byte outside the alphabet. The result
/// is an error where any byte is outside the alphabet.
#[verifier::spinoff_prover]
#[verifier::rlimit(50)]
pub fn unb64_simd_elegant(data: &[u8], out: &mut Vec<u8>) -> (r: Result<(), B64Error>)
    ensures
        ({
            let s = strip_padding(data@);
            let f = 32 * (s.len() / 32);
            let rem = s.skip(f as int);
            &&& r is Ok <==> all_b64(s)
            &&& r is Ok ==> final(out)@ == old(out)@ + decode_blocks(s)
            &&& forall|x: Seq<u8>|
                #[trigger] encode_b64(x) == data@ ==> r is Ok && final(out)@ == old(out)@ + x
            &&& final(out)@ == old(out)@ + lane_decode_blocks(s.take(f as int)) + decode_blocks(
                rem.take(valid_prefix_len(rem) as int),
            )
        }),
{
    let end = unpadded_len(data);
    let ghost s = strip_padding(data@);
    let blocks = end / 32;
    let mut total_ok = true;
    let mut c: usize = 0;
    proof {
        assert(s.take(0).len() == 0);
        assert(lane_decode_blocks(s.take(0)) =~= Seq::<u8>::empty());
        assert(out@ =~= old(out)@ + Seq::<u8>::empty());
    }
    while c < blocks
        invariant
            end == s.len(),
            s == data@.take(end as int),
            end <= data@.len(),
            blocks == end / 32,
            c <= blocks,
            total_ok == all_b64(s.take(32 * c)),
            out@ == old(out)@ + lane_decode_blocks(s.take(32 * c)),
        decreases blocks - c,
    {
        let base = 32 * c;
        let chunk = &data[base..base + 32];
        let (sextets, ok) = decode_chunk_simd_elegant(chunk);
        proof {
            assert(chunk@ =~= s.subrange(base as int, base + 32));
            lemma_all_b64_split(s, base as int, base + 32);
        }
        total_ok = total_ok && ok;
        let mut g: usize = 0;
        while g < 8
            invariant
                end == s.len(),
                s == data@.take(end as int),
                c < blocks,
                blocks == end / 32,
                base == 32 * c,
                g <= 8,
                chunk@ == s.subrange(base as int, base + 32),
                sextets@ == chunk@.map_values(|b: u8| lane_sextet(b)),
                out@ == old(out)@ + lane_decode_blocks(s.take(base + 4 * g)),
            decreases 8 - g,
        {
            let k = 4 * g;
            let bytes = decode_pack([sextets[k], sextets[k + 1], sextets[k + 2], sextets[k + 3]]);
            extend_with_prefix(out, &bytes, 3);
            proof {
                let q = base + k;
                assert(seq![sextets@[k as int], sextets@[k + 1], sextets@[k + 2], sextets@[k + 3]]
                    =~= s.subrange(q as int, q + 4).map_values(|b: u8| lane_sextet(b)));
                assert(bytes@.take(3) =~= bytes@);
                lemma_lane_decode_blocks_extend(s, q as int);
                assert(out@ =~= old(out)@ + lane_decode_blocks(s.take(q + 4)));
            }
            g = g + 1;
        }
        c = c + 1;
    }
    let f = 32 * blocks;
    assert(data@.subrange(f as int, end as int) =~= s.skip(f as int));
    let ok = decode_range_lanes(data, f, end, out);
    proof {
        let rem = s.skip(f as int);
        lemma_all_b64_split(s, f as int, end as int);
        assert(s.take(end as int) =~= s);
        assert(s.subrange(f as int, end as int) =~= rem);
        lemma_valid_prefix_len_all(rem);
        assert(rem.take(rem.len() as int) =~= rem);
        lemma_decode_blocks_split(s, f as int);
        if total_ok && ok {
            lemma_lane_decode_blocks_valid(s.take(f as int));
        }
    }
    proof {
        assert forall|x: Seq<u8>| #[trigger] encode_b64(x) == data@ implies all_b64(
            strip_padding(data@),
        ) && decode_blocks(strip_padding(data@)) == x by {
            lemma_decode_encode(x);
        }
    }
    if total_ok && ok {
        Ok(())
    } else {
        Err(B64Error)
    }
}

} // verus!
