//! A single-error-correcting, double-error-detecting Hamming code over 64-bit
//! words: the lowest seven bits of a word hold the check bits, the other 57 bits
//! hold the payload.
use vstd::prelude::*;

verus! {

/// The seven parity masks. Masks 0 to 5 each cover one check bit (bit `k` for
/// mask `k`) and a distinct selection of payload bits; mask 6 covers every bit
/// of the word and so carries the overall parity.
pub open spec fn spec_mask(k: int) -> u64 {
    if k == 0 {
        0xdab5_556a_aaaa_aa81u64
    } else if k == 1 {
        0xb66c_ccd9_9999_9982u64
    } else if k == 2 {
        0x71e3_c3c7_8787_8784u64
    } else if k == 3 {
        0x0fe0_3fc0_7f80_7f88u64
    } else if k == 4 {
        0x001f_ffc0_007f_ff90u64
    } else if k == 5 {
        0x0000_003f_ffff_ffa0u64
    } else {
        0xffff_ffff_ffff_ffffu64
    }
}

/// The number of parity masks.
pub open spec fn num_masks() -> int {
    7
}

/// The bits of a word that hold the check bits.
pub open spec fn check_bits() -> u64 {
    0x7fu64
}

/// Bit `i` of `x`.
pub open spec fn bit(x: u64, i: u64) -> bool {
    (x >> i) & 1u64 == 1u64
}

/// True when `x` has an odd number of bits set: the exclusive-or of all 64
/// bits, folded onto the lowest bit.
pub open spec fn word_parity(x: u64) -> bool {
    let a = ((x >> 32u64) ^ x) as u32;
    let b = (a >> 16u32) ^ a;
    let c = (b >> 8u32) ^ b;
    let d = (c >> 4u32) ^ c;
    let e = (d >> 2u32) ^ d;
    let f = (e >> 1u32) ^ e;
    f & 1u32 == 1u32
}

fn mask(k: usize) -> (m: u64)
    requires
        k < 7,
    ensures
        m == spec_mask(k as int),
{
    match k {
        0 => 0xdab5_556a_aaaa_aa81u64,
        1 => 0xb66c_ccd9_9999_9982u64,
        2 => 0x71e3_c3c7_8787_8784u64,
        3 => 0x0fe0_3fc0_7f80_7f88u64,
        4 => 0x001f_ffc0_007f_ff90u64,
        5 => 0x0000_003f_ffff_ffa0u64,
        _ => 0xffff_ffff_ffff_ffffu64,
    }
}

/// Returns true if `of` has an odd number of ones or false if an even number.
fn parity(of: u64) -> (r: bool)
    ensures
        r == word_parity(of),
{
    let of: u32 = ((of >> 32u64) ^ of) as u32;
    let of: u32 = (of >> 16u32) ^ of;
    let of: u32 = (of >> 8u32) ^ of;
    let of: u32 = (of >> 4u32) ^ of;
    let of: u32 = (of >> 2u32) ^ of;
    let of: u32 = (of >> 1u32) ^ of;
    of & 0x1u32 == 1u32
}

/// Syndrome bit `k` of `x`: the parity of the bits of `x` that mask `k` covers.
pub open spec fn syndrome(x: u64, k: int) -> bool {
    word_parity(x & spec_mask(k))
}

/// `word` is the code word for `payload`: it carries the payload bits of
/// `payload` unchanged, and every mask covers an even number of its set bits.
pub open spec fn is_codeword_for(word: u64, payload: u64) -> bool {
    &&& word & !check_bits() == payload
    &&& forall|k: int| 0 <= k < num_masks() ==> !#[trigger] syndrome(word, k)
}

/// The positions that agree with the first `n` syndrome bits of `x`: a bit
/// position survives when, for each mask, it is covered by the mask exactly
/// when that syndrome bit is set.
pub open spec fn located_error(x: u64, n: nat) -> u64
    decreases n,
{
    if n == 0 {
        0xffff_ffff_ffff_ffffu64
    } else {
        let prev = located_error(x, (n - 1) as nat);
        if syndrome(x, n - 1) {
            prev & spec_mask(n - 1)
        } else {
            prev & !spec_mask(n - 1)
        }
    }
}

/// Some of the first `n` syndrome bits of `x` is set.
pub open spec fn any_error(x: u64, n: nat) -> bool
    decreases n,
{
    if n == 0 {
        false
    } else {
        any_error(x, (n - 1) as nat) || syndrome(x, n - 1)
    }
}

/// The result of decoding `x`: an error is reported when some syndrome bit is
/// set but no single bit position explains the syndrome; otherwise the located
/// bit (if any) is flipped back and the check bits are cleared.
pub open spec fn spec_decode(x: u64) -> Result<u64, ()> {
    let e = located_error(x, 7);
    if any_error(x, 7) && e == 0 {
        Err(())
    } else {
        Ok((x ^ e) & !check_bits())
    }
}

proof fn lemma_and_xor(a: u64, b: u64, m: u64)
    ensures
        (a ^ b) & m == (a & m) ^ (b & m),
{
    assert((a ^ b) & m == (a & m) ^ (b & m)) by (bit_vector);
}

/// Parity is additive over exclusive-or.
pub proof fn lemma_parity_xor(a: u64, b: u64)
    ensures
        word_parity(a ^ b) == (word_parity(a) != word_parity(b)),
{
    assert(word_parity(a ^ b) == (word_parity(a) != word_parity(b))) by (bit_vector);
}

/// A syndrome bit of `a ^ b` is the exclusive-or of those of `a` and `b`.
pub proof fn lemma_syndrome_xor(a: u64, b: u64, k: int)
    ensures
        syndrome(a ^ b, k) == (syndrome(a, k) != syndrome(b, k)),
{
    lemma_and_xor(a, b, spec_mask(k));
    lemma_parity_xor(a & spec_mask(k), b & spec_mask(k));
}

/// The parity of a single bit selected by a mask is that bit of the mask.
proof fn lemma_single_bit_parity(i: u64, m: u64)
    requires
        i < 64,
    ensures
        word_parity((1u64 << i) & m) == bit(m, i),
{
    assert(i < 64 ==> (word_parity((1u64 << i) & m) == (((m >> i) & 1u64) == 1u64))) by (bit_vector);
}


/// Each bit position is the only one whose mask membership matches its own
/// membership pattern.
proof fn lemma_patterns_locate(i: u64)
    requires
        i < 64,
    ensures
        0xffff_ffff_ffff_ffffu64 & (if (0xdab5_556a_aaaa_aa81u64 >> i) & 1u64 == 1u64 { 0xdab5_556a_aaaa_aa81u64 } else { !0xdab5_556a_aaaa_aa81u64 }) & (if (0xb66c_ccd9_9999_9982u64 >> i) & 1u64 == 1u64 { 0xb66c_ccd9_9999_9982u64 } else { !0xb66c_ccd9_9999_9982u64 }) & (if (0x71e3_c3c7_8787_8784u64 >> i) & 1u64 == 1u64 { 0x71e3_c3c7_8787_8784u64 } else { !0x71e3_c3c7_8787_8784u64 }) & (if (0x0fe0_3fc0_7f80_7f88u64 >> i) & 1u64 == 1u64 { 0x0fe0_3fc0_7f80_7f88u64 } else { !0x0fe0_3fc0_7f80_7f88u64 }) & (if (0x001f_ffc0_007f_ff90u64 >> i) & 1u64 == 1u64 { 0x001f_ffc0_007f_ff90u64 } else { !0x001f_ffc0_007f_ff90u64 }) & (if (0x0000_003f_ffff_ffa0u64 >> i) & 1u64 == 1u64 { 0x0000_003f_ffff_ffa0u64 } else { !0x0000_003f_ffff_ffa0u64 }) & (if (0xffff_ffff_ffff_ffffu64 >> i) & 1u64 == 1u64 { 0xffff_ffff_ffff_ffffu64 } else { !0xffff_ffff_ffff_ffffu64 }) == 1u64 << i,
{
    assert(i < 64 ==> 0xffff_ffff_ffff_ffffu64 & (if (0xdab5_556a_aaaa_aa81u64 >> i) & 1u64 == 1u64 { 0xdab5_556a_aaaa_aa81u64 } else { !0xdab5_556a_aaaa_aa81u64 }) & (if (0xb66c_ccd9_9999_9982u64 >> i) & 1u64 == 1u64 { 0xb66c_ccd9_9999_9982u64 } else { !0xb66c_ccd9_9999_9982u64 }) & (if (0x71e3_c3c7_8787_8784u64 >> i) & 1u64 == 1u64 { 0x71e3_c3c7_8787_8784u64 } else { !0x71e3_c3c7_8787_8784u64 }) & (if (0x0fe0_3fc0_7f80_7f88u64 >> i) & 1u64 == 1u64 { 0x0fe0_3fc0_7f80_7f88u64 } else { !0x0fe0_3fc0_7f80_7f88u64 }) & (if (0x001f_ffc0_007f_ff90u64 >> i) & 1u64 == 1u64 { 0x001f_ffc0_007f_ff90u64 } else { !0x001f_ffc0_007f_ff90u64 }) & (if (0x0000_003f_ffff_ffa0u64 >> i) & 1u64 == 1u64 { 0x0000_003f_ffff_ffa0u64 } else { !0x0000_003f_ffff_ffa0u64 }) & (if (0xffff_ffff_ffff_ffffu64 >> i) & 1u64 == 1u64 { 0xffff_ffff_ffff_ffffu64 } else { !0xffff_ffff_ffff_ffffu64 }) == 1u64 << i) by (bit_vector);
}

/// No two bit positions are covered by the same selection of masks 0 to 5.
proof fn lemma_patterns_distinct(i: u64, j: u64)
    requires
        i < 64,
        j < 64,
        i != j,
    ensures
        ((((0xdab5_556a_aaaa_aa81u64 >> i) & 1u64) == 1u64) != (((0xdab5_556a_aaaa_aa81u64 >> j) & 1u64) == 1u64)) || ((((0xb66c_ccd9_9999_9982u64 >> i) & 1u64) == 1u64) != (((0xb66c_ccd9_9999_9982u64 >> j) & 1u64) == 1u64)) || ((((0x71e3_c3c7_8787_8784u64 >> i) & 1u64) == 1u64) != (((0x71e3_c3c7_8787_8784u64 >> j) & 1u64) == 1u64)) || ((((0x0fe0_3fc0_7f80_7f88u64 >> i) & 1u64) == 1u64) != (((0x0fe0_3fc0_7f80_7f88u64 >> j) & 1u64) == 1u64)) || ((((0x001f_ffc0_007f_ff90u64 >> i) & 1u64) == 1u64) != (((0x001f_ffc0_007f_ff90u64 >> j) & 1u64) == 1u64)) || ((((0x0000_003f_ffff_ffa0u64 >> i) & 1u64) == 1u64) != (((0x0000_003f_ffff_ffa0u64 >> j) & 1u64) == 1u64)),
{
    assert(i < 64 && j < 64 && i != j ==> ((((0xdab5_556a_aaaa_aa81u64 >> i) & 1u64) == 1u64) != (((0xdab5_556a_aaaa_aa81u64 >> j) & 1u64) == 1u64)) || ((((0xb66c_ccd9_9999_9982u64 >> i) & 1u64) == 1u64) != (((0xb66c_ccd9_9999_9982u64 >> j) & 1u64) == 1u64)) || ((((0x71e3_c3c7_8787_8784u64 >> i) & 1u64) == 1u64) != (((0x71e3_c3c7_8787_8784u64 >> j) & 1u64) == 1u64)) || ((((0x0fe0_3fc0_7f80_7f88u64 >> i) & 1u64) == 1u64) != (((0x0fe0_3fc0_7f80_7f88u64 >> j) & 1u64) == 1u64)) || ((((0x001f_ffc0_007f_ff90u64 >> i) & 1u64) == 1u64) != (((0x001f_ffc0_007f_ff90u64 >> j) & 1u64) == 1u64)) || ((((0x0000_003f_ffff_ffa0u64 >> i) & 1u64) == 1u64) != (((0x0000_003f_ffff_ffa0u64 >> j) & 1u64) == 1u64))) by (bit_vector);
}


/// Flipping bits of a code word changes its syndrome exactly as the flipped
/// bits alone would.
proof fn lemma_located_xor(w: u64, e: u64, n: nat)
    requires
        forall|k: int| 0 <= k < num_masks() ==> !#[trigger] syndrome(w, k),
        n <= 7,
    ensures
        located_error(w ^ e, n) == located_error(e, n),
        any_error(w ^ e, n) == any_error(e, n),
    decreases n,
{
    if n > 0 {
        lemma_located_xor(w, e, (n - 1) as nat);
        lemma_syndrome_xor(w, e, n - 1);
        assert(!syndrome(w, n - 1));
    }
}

proof fn lemma_single_error_pattern(i: u64)
    requires
        i < 64,
    ensures
        located_error(1u64 << i, 7) == 1u64 << i,
        any_error(1u64 << i, 7),
{
    let e = 1u64 << i;
    lemma_single_bit_parity(i, spec_mask(0));
    lemma_single_bit_parity(i, spec_mask(1));
    lemma_single_bit_parity(i, spec_mask(2));
    lemma_single_bit_parity(i, spec_mask(3));
    lemma_single_bit_parity(i, spec_mask(4));
    lemma_single_bit_parity(i, spec_mask(5));
    lemma_single_bit_parity(i, spec_mask(6));
    reveal_with_fuel(located_error, 8);
    reveal_with_fuel(any_error, 8);
    lemma_patterns_locate(i);
    assert(i < 64 ==> (0xffff_ffff_ffff_ffffu64 >> i) & 1u64 == 1u64) by (bit_vector);
}

proof fn lemma_double_error_pattern(i: u64, j: u64)
    requires
        i < 64,
        j < 64,
        i != j,
    ensures
        located_error((1u64 << i) ^ (1u64 << j), 7) == 0,
        any_error((1u64 << i) ^ (1u64 << j), 7),
{
    let a = 1u64 << i;
    let b = 1u64 << j;
    let e = a ^ b;
    assert forall|k: int| 0 <= k < 7 implies #[trigger] syndrome(e, k) == (bit(spec_mask(k), i)
        != bit(spec_mask(k), j)) by {
        lemma_syndrome_xor(a, b, k);
        lemma_single_bit_parity(i, spec_mask(k));
        lemma_single_bit_parity(j, spec_mask(k));
    }
    assert(syndrome(e, 0) == (bit(spec_mask(0), i) != bit(spec_mask(0), j)));
    assert(syndrome(e, 1) == (bit(spec_mask(1), i) != bit(spec_mask(1), j)));
    assert(syndrome(e, 2) == (bit(spec_mask(2), i) != bit(spec_mask(2), j)));
    assert(syndrome(e, 3) == (bit(spec_mask(3), i) != bit(spec_mask(3), j)));
    assert(syndrome(e, 4) == (bit(spec_mask(4), i) != bit(spec_mask(4), j)));
    assert(syndrome(e, 5) == (bit(spec_mask(5), i) != bit(spec_mask(5), j)));
    assert(syndrome(e, 6) == (bit(spec_mask(6), i) != bit(spec_mask(6), j)));
    assert(i < 64 && j < 64 ==> (0xffff_ffff_ffff_ffffu64 >> i) & 1u64 == (
    0xffff_ffff_ffff_ffffu64 >> j) & 1u64) by (bit_vector);
    lemma_patterns_distinct(i, j);
    reveal_with_fuel(any_error, 8);
    let prev = located_error(e, 6);
    assert(prev & !0xffff_ffff_ffff_ffffu64 == 0) by (bit_vector);
}

/// Decoding a code word gives back its payload.
pub proof fn law_decode_codeword(word: u64, payload: u64)
    requires
        is_codeword_for(word, payload),
    ensures
        spec_decode(word) == Ok::<u64, ()>(payload),
{
    assert(!syndrome(word, 0));
    assert(!syndrome(word, 1));
    assert(!syndrome(word, 2));
    assert(!syndrome(word, 3));
    assert(!syndrome(word, 4));
    assert(!syndrome(word, 5));
    assert(!syndrome(word, 6));
    reveal_with_fuel(any_error, 8);
    let prev = located_error(word, 6);
    assert(prev & !0xffff_ffff_ffff_ffffu64 == 0) by (bit_vector);
    assert(word ^ 0 == word) by (bit_vector);
}

/// A code word with any single bit flipped still decodes to its payload.
pub proof fn law_single_error_corrected(word: u64, payload: u64, i: u64)
    requires
        is_codeword_for(word, payload),
        i < 64,
    ensures
        spec_decode(word ^ (1u64 << i)) == Ok::<u64, ()>(payload),
{
    let e = 1u64 << i;
    lemma_located_xor(word, e, 7);
    lemma_single_error_pattern(i);
    assert(i < 64 ==> 1u64 << i != 0) by (bit_vector);
    assert((word ^ e) ^ e == word) by (bit_vector);
}

/// A code word with two distinct bits flipped is reported as corrupt.
pub proof fn law_double_error_detected(word: u64, payload: u64, i: u64, j: u64)
    requires
        is_codeword_for(word, payload),
        i < 64,
        j < 64,
        i != j,
    ensures
        spec_decode(word ^ (1u64 << i) ^ (1u64 << j)) == Err::<u64, ()>(()),
{
    let e = (1u64 << i) ^ (1u64 << j);
    assert(word ^ (1u64 << i) ^ (1u64 << j) == word ^ ((1u64 << i) ^ (1u64 << j))) by (bit_vector);
    lemma_located_xor(word, e, 7);
    lemma_double_error_pattern(i, j);
}


/// A payload has exactly one code word: two code words for the same payload
/// are equal.
pub proof fn law_codeword_unique(a: u64, b: u64, payload: u64)
    requires
        is_codeword_for(a, payload),
        is_codeword_for(b, payload),
    ensures
        a == b,
{
    let e = a ^ b;
    assert(e & !0x7fu64 == 0) by (bit_vector)
        requires
            a & !0x7fu64 == payload,
            b & !0x7fu64 == payload,
            e == a ^ b,
    ;
    assert forall|k: int| 0 <= k < 7 implies !#[trigger] syndrome(e, k) by {
        lemma_syndrome_xor(a, b, k);
        assert(!syndrome(a, k));
        assert(!syndrome(b, k));
    }
    assert(!syndrome(e, 0));
    assert(!syndrome(e, 1));
    assert(!syndrome(e, 2));
    assert(!syndrome(e, 3));
    assert(!syndrome(e, 4));
    assert(!syndrome(e, 5));
    assert(!syndrome(e, 6));
    assert(e == 0) by (bit_vector)
        requires
            e & !0x7fu64 == 0,
            !word_parity(e & 0xdab5_556a_aaaa_aa81u64),
            !word_parity(e & 0xb66c_ccd9_9999_9982u64),
            !word_parity(e & 0x71e3_c3c7_8787_8784u64),
            !word_parity(e & 0x0fe0_3fc0_7f80_7f88u64),
            !word_parity(e & 0x001f_ffc0_007f_ff90u64),
            !word_parity(e & 0x0000_003f_ffff_ffa0u64),
            !word_parity(e & 0xffff_ffff_ffff_ffffu64),
    ;
    assert(a == b) by (bit_vector)
        requires
            e == a ^ b,
            e == 0,
    ;
}

/// Among the check bits, mask `j` (for `j < 6`) covers only bit `j`, and mask 6
/// covers them all.
proof fn lemma_check_bit_coverage(j: int, k: u64)
    requires
        0 <= j < 7,
        k < 7,
    ensures
        bit(spec_mask(j), k) == (j == k || j == 6),
{
    assert(k < 7 ==> ((((0xdab5_556a_aaaa_aa81u64 >> k) & 1u64) == 1u64) == (k == 0u64)) && ((((0xb66c_ccd9_9999_9982u64 >> k) & 1u64) == 1u64) == (k == 1u64)) && ((((0x71e3_c3c7_8787_8784u64 >> k) & 1u64) == 1u64) == (k == 2u64)) && ((((0x0fe0_3fc0_7f80_7f88u64 >> k) & 1u64) == 1u64) == (k == 3u64)) && ((((0x001f_ffc0_007f_ff90u64 >> k) & 1u64) == 1u64) == (k == 4u64)) && ((((0x0000_003f_ffff_ffa0u64 >> k) & 1u64) == 1u64) == (k == 5u64)) && (((0xffff_ffff_ffff_ffffu64 >> k) & 1u64) == 1u64)) by (bit_vector);
}

/// One step of encoding: setting check bit `k` to the parity of the bits that
/// mask `k` covers makes syndrome bit `k` zero and leaves the lower ones zero.
proof fn lemma_encode_step(data: u64, payload: u64, k: u64, p: bool, next: u64)
    requires
        next == data | ((if p { 1u64 } else { 0u64 }) << k),
        k < 7,
        data & !0x7fu64 == payload,
        data & 0x7fu64 < (1u64 << k),
        forall|j: int| 0 <= j < k ==> !#[trigger] syndrome(data, j),
        p == syndrome(data, k as int),
    ensures
        next & !0x7fu64 == payload,
        next & 0x7fu64 < (1u64 << (k + 1) as u64),
        forall|j: int| 0 <= j <= k ==> !#[trigger] syndrome(next, j),
{
    let b = (if p { 1u64 } else { 0u64 }) << k;
    assert(k < 7 && data & 0x7fu64 < (1u64 << k) ==> (data | ((1u64) << k)) == data ^ ((1u64) << k)
        && (data | ((1u64) << k)) & !0x7fu64 == data & !0x7fu64
        && (data | ((1u64) << k)) & 0x7fu64 < (1u64 << (k + 1) as u64)) by (bit_vector);
    assert(k < 7 && data & 0x7fu64 < (1u64 << k) ==> (data | ((0u64) << k)) == data ^ ((0u64) << k)
        && (data | ((0u64) << k)) & 0x7fu64 < (1u64 << (k + 1) as u64)) by (bit_vector);
    assert(data | (0u64 << k) == data) by (bit_vector);
    assert forall|j: int| 0 <= j <= k implies !#[trigger] syndrome(next, j) by {
        lemma_syndrome_xor(data, b, j);
        if p {
            lemma_single_bit_parity(k, spec_mask(j));
            lemma_check_bit_coverage(j, k);
        } else {
            assert(0u64 << k == 0) by (bit_vector);
            assert(0u64 & spec_mask(j) == 0) by (bit_vector);
            assert(!word_parity(0)) by (bit_vector);
        }
    }
}

/// Adds the seven check bits to a payload whose check bits are zero.
pub fn encode_u64(data: u64) -> (r: u64)
    requires
        data & 0x7fu64 == 0,
    ensures
        is_codeword_for(r, data),
{
    let ghost payload = data;
    let mut data = data;
    assert(data & !0x7fu64 == data) by (bit_vector)
        requires
            data & 0x7fu64 == 0,
    ;
    let mut m: u64 = 0;
    assert(data & 0x7fu64 < (1u64 << 0u64)) by (bit_vector)
        requires
            data & 0x7fu64 == 0,
    ;
    while m < 7
        invariant
            m <= 7,
            data & !0x7fu64 == payload,
            data & 0x7fu64 < (1u64 << m),
            forall|j: int| 0 <= j < m ==> !#[trigger] syndrome(data, j),
        decreases 7 - m,
    {
        let p = parity(data & mask(m as usize));
        let next = data | ((if p { 1u64 } else { 0u64 }) << m);
        proof {
            lemma_encode_step(data, payload, m, p, next);
        }
        data = next;
        m = m + 1;
    }
    data
}

/// Corrects a single flipped bit and strips the check bits, or reports an
/// error when two bits were flipped.
pub fn decode_u64(data: u64) -> (r: Result<u64, ()>)
    ensures
        r == spec_decode(data),
{
    // All ones: narrowed down to the position of the error.
    let mut error_mask: u64 = 0xFFFF_FFFF_FFFF_FFFFu64;
    let mut encountered_any_error = false;
    let mut m: usize = 0;
    while m < 7
        invariant
            m <= 7,
            error_mask == located_error(data, m as nat),
            encountered_any_error == any_error(data, m as nat),
        decreases 7 - m,
    {
        let msk = mask(m);
        if parity(data & msk) {
            encountered_any_error = true;
            error_mask = error_mask & msk;
        } else {
            error_mask = error_mask & !msk;
        }
        m = m + 1;
    }
    if encountered_any_error && error_mask == 0 {
        // An error happened, but no single position explains it.
        Err(())
    } else {
        Ok((data ^ error_mask) & !0b111_1111u64)
    }
}


/// A block with bit `i` of its word flipped, the word read most significant
/// byte first and bit 0 its least significant bit.
pub open spec fn flip_block_bit(block: Seq<u8>, i: int) -> Seq<u8> {
    bytes_of_word(word_of(block, false) ^ (1u64 << (i as u64)), false)
}

/// A block that the `secded` code can encode: eight bytes whose lowest seven
/// bits, which hold the correction code, are zero.
pub open spec fn encodable_block(block: Seq<u8>) -> bool {
    block.len() == 8 && block[7] & 0x7fu8 == 0
}

/// The rows of the check matrix of `secded`'s 57-bit code
/// (`SecDed64::new(57)`), first row first.
pub open spec fn secded_row(k: int) -> u64 {
    if k == 0 {
        0x0000_003f_ffff_ffc0u64
    } else if k == 1 {
        0x001f_ffc0_007f_ffa0u64
    } else if k == 2 {
        0x0fe0_3fc0_7f80_7f90u64
    } else if k == 3 {
        0x71e3_c3c7_8787_8788u64
    } else if k == 4 {
        0xb66c_ccd9_9999_9984u64
    } else {
        0xdab5_556a_aaaa_aa82u64
    }
}

/// Bit `b` set exactly when `p` holds.
pub open spec fn flag(p: bool, b: u64) -> u64 {
    if p {
        b
    } else {
        0u64
    }
}

/// The parity of the bits of `v` that row `k` of the check matrix selects.
pub open spec fn row_parity(v: u64, k: int) -> bool {
    word_parity(v & secded_row(k))
}

/// The seven check bits that `secded`'s 57-bit code computes for the word
/// `v`: the parity of each row's bits of `v`, first row in bit 6 down to the
/// sixth in bit 1, and in bit 0 the parity of those six.
pub open spec fn secded_code(v: u64) -> u64 {
    let p0 = row_parity(v, 0);
    let p1 = row_parity(v, 1);
    let p2 = row_parity(v, 2);
    let p3 = row_parity(v, 3);
    let p4 = row_parity(v, 4);
    let p5 = row_parity(v, 5);
    let all = p0 != (p1 != (p2 != (p3 != (p4 != p5))));
    flag(p0, 64) | flag(p1, 32) | flag(p2, 16) | flag(p3, 8) | flag(p4, 4) | flag(p5, 2) | flag(all, 1)
}

/// The block that `secded`'s 57-bit code makes of `block` by encoding it: its
/// bytes, read as a word most significant byte first, with the check bits
/// added to the lowest seven bits.
pub open spec fn secded_encoded(block: Seq<u8>) -> Seq<u8> {
    let v = word_of(block, false);
    bytes_of_word(v | secded_code(v), false)
}

/// The first bit position from `start` on whose flip alone gives the check
/// bits `s`.
pub open spec fn secded_error_position(s: u64, start: nat) -> Option<u64>
    decreases 64 - start,
{
    if start >= 64 {
        None
    } else if secded_code(1u64 << (start as u64)) == s {
        Some(start as u64)
    } else {
        secded_error_position(s, start + 1)
    }
}

/// What `secded`'s 57-bit code makes of the eight-byte `block` by decoding
/// it, its word read most significant byte first. The check bits of the whole
/// word (its syndrome) are zero for an intact block, which is kept; otherwise
/// the first bit position whose flip alone gives the same syndrome is flipped
/// back, and when there is none an uncorrectable error is reported (`None`).
/// Either way the seven check bits are cleared.
pub open spec fn secded_decoded(block: Seq<u8>) -> Option<Seq<u8>> {
    if block.len() != 8 {
        None
    } else {
        let w = word_of(block, false);
        let s = secded_code(w);
        if s == 0 {
            Some(bytes_of_word(w & !0x7fu64, false))
        } else {
            match secded_error_position(s, 0) {
                Some(i) => Some(bytes_of_word((w ^ (1u64 << i)) & !0x7fu64, false)),
                None => None,
            }
        }
    }
}

/// The check bits as the bits of `secded_code`: each row's parity in its own
/// bit, their parity in bit 0, nothing above bit 6, and zero when every row's
/// parity is even.
proof fn lemma_code_bits(v: u64)
    ensures
        bit(secded_code(v), 6) == row_parity(v, 0),
        bit(secded_code(v), 5) == row_parity(v, 1),
        bit(secded_code(v), 4) == row_parity(v, 2),
        bit(secded_code(v), 3) == row_parity(v, 3),
        bit(secded_code(v), 2) == row_parity(v, 4),
        bit(secded_code(v), 1) == row_parity(v, 5),
        secded_code(v) & !0x7fu64 == 0,
        !row_parity(v, 0) && !row_parity(v, 1) && !row_parity(v, 2) && !row_parity(v, 3)
            && !row_parity(v, 4) && !row_parity(v, 5) ==> secded_code(v) == 0,
{
    let p0 = row_parity(v, 0);
    let p1 = row_parity(v, 1);
    let p2 = row_parity(v, 2);
    let p3 = row_parity(v, 3);
    let p4 = row_parity(v, 4);
    let p5 = row_parity(v, 5);
    let a = p0 != (p1 != (p2 != (p3 != (p4 != p5))));
    let c = secded_code(v);
    assert(c == (if p0 { 64u64 } else { 0u64 }) | (if p1 { 32u64 } else { 0u64 }) | (if p2 { 16u64 } else { 0u64 }) | (if p3 { 8u64 } else { 0u64 }) | (if p4 { 4u64 } else { 0u64 }) | (if p5 { 2u64 } else { 0u64 }) | (if a { 1u64 } else { 0u64 }));
    assert((((c >> 6u64) & 1u64 == 1u64) == p0) && (((c >> 5u64) & 1u64 == 1u64) == p1) && (((c >> 4u64) & 1u64 == 1u64) == p2) && (((c >> 3u64) & 1u64 == 1u64) == p3) && (((c >> 2u64) & 1u64 == 1u64) == p4) && (((c >> 1u64) & 1u64 == 1u64) == p5) && c & !0x7fu64 == 0 && (!p0 && !p1 && !p2 && !p3 && !p4 && !p5 && !a ==> c == 0)) by (bit_vector)
        requires
            c == (if p0 { 64u64 } else { 0u64 }) | (if p1 { 32u64 } else { 0u64 }) | (if p2 { 16u64 } else { 0u64 }) | (if p3 { 8u64 } else { 0u64 }) | (if p4 { 4u64 } else { 0u64 }) | (if p5 { 2u64 } else { 0u64 }) | (if a { 1u64 } else { 0u64 }),
    ;
}

/// Facts of the lowest seven bits: a payload and check bits in them combine
/// without overlap; a row that covers one check bit `j` sees of the check
/// bits only that bit; flipping a check bit does not touch the payload.
proof fn lemma_low_bits(v: u64, c: u64, r: u64, j: u64, x: u64, y: u64)
    ensures
        v & 0x7fu64 == 0 && c & !0x7fu64 == 0 ==> v | c == v ^ c && (v | c) & !0x7fu64 == v,
        c & !0x7fu64 == 0 && j < 7 && r & 0x7fu64 == 1u64 << j ==> word_parity(c & r) == bit(c, j),
        j < 7 ==> (x ^ (1u64 << j)) & !0x7fu64 == x & !0x7fu64,
        (x ^ y) ^ y == x,
        !bit(0u64, j),
{
    assert((v & 0x7fu64 == 0 && c & !0x7fu64 == 0 ==> v | c == v ^ c && (v | c) & !0x7fu64 == v) && (c & !0x7fu64 == 0 && j < 7 && r & 0x7fu64 == 1u64 << j ==> word_parity(c & r) == ((c >> j) & 1u64 == 1u64)) && (j < 7 ==> (x ^ (1u64 << j)) & !0x7fu64 == x & !0x7fu64) && (x ^ y) ^ y == x && !((0u64 >> j) & 1u64 == 1u64)) by (bit_vector);
}

/// The columns of the check matrix: row `k` covers check bit `6 - k` and no
/// other among the lowest seven bits, no row covers bit 0, and each payload
/// position `i` is covered by a selection of rows that no lower position has.
proof fn lemma_columns(i: u64, j: u64)
    requires
        7 <= i < 64,
        j < i,
    ensures
        secded_row(0) & 0x7fu64 == 1u64 << 6u64,
        secded_row(1) & 0x7fu64 == 1u64 << 5u64,
        secded_row(2) & 0x7fu64 == 1u64 << 4u64,
        secded_row(3) & 0x7fu64 == 1u64 << 3u64,
        secded_row(4) & 0x7fu64 == 1u64 << 2u64,
        secded_row(5) & 0x7fu64 == 1u64 << 1u64,
        !bit(secded_row(0), 0) && !bit(secded_row(1), 0) && !bit(secded_row(2), 0)
            && !bit(secded_row(3), 0) && !bit(secded_row(4), 0) && !bit(secded_row(5), 0),
        bit(secded_row(0), i) != bit(secded_row(0), j) || bit(secded_row(1), i) != bit(secded_row(1), j)
            || bit(secded_row(2), i) != bit(secded_row(2), j) || bit(secded_row(3), i) != bit(
            secded_row(3),
            j,
        ) || bit(secded_row(4), i) != bit(secded_row(4), j) || bit(secded_row(5), i) != bit(
            secded_row(5),
            j,
        ),
{
    assert(0x0000_003f_ffff_ffc0u64 & 0x7fu64 == 1u64 << 6u64 && 0x001f_ffc0_007f_ffa0u64 & 0x7fu64 == 1u64 << 5u64 && 0x0fe0_3fc0_7f80_7f90u64 & 0x7fu64 == 1u64 << 4u64 && 0x71e3_c3c7_8787_8788u64 & 0x7fu64 == 1u64 << 3u64 && 0xb66c_ccd9_9999_9984u64 & 0x7fu64 == 1u64 << 2u64 && 0xdab5_556a_aaaa_aa82u64 & 0x7fu64 == 1u64 << 1u64
        && !((0x0000_003f_ffff_ffc0u64 >> 0u64) & 1u64 == 1u64) && !((0x001f_ffc0_007f_ffa0u64 >> 0u64) & 1u64 == 1u64) && !((0x0fe0_3fc0_7f80_7f90u64 >> 0u64) & 1u64 == 1u64) && !((0x71e3_c3c7_8787_8788u64 >> 0u64) & 1u64 == 1u64) && !((0xb66c_ccd9_9999_9984u64 >> 0u64) & 1u64 == 1u64) && !((0xdab5_556a_aaaa_aa82u64 >> 0u64) & 1u64 == 1u64)
        && (((0x0000_003f_ffff_ffc0u64 >> i) & 1u64 == 1u64) != ((0x0000_003f_ffff_ffc0u64 >> j) & 1u64 == 1u64) || ((0x001f_ffc0_007f_ffa0u64 >> i) & 1u64 == 1u64) != ((0x001f_ffc0_007f_ffa0u64 >> j) & 1u64 == 1u64) || ((0x0fe0_3fc0_7f80_7f90u64 >> i) & 1u64 == 1u64) != ((0x0fe0_3fc0_7f80_7f90u64 >> j) & 1u64 == 1u64) || ((0x71e3_c3c7_8787_8788u64 >> i) & 1u64 == 1u64) != ((0x71e3_c3c7_8787_8788u64 >> j) & 1u64 == 1u64) || ((0xb66c_ccd9_9999_9984u64 >> i) & 1u64 == 1u64) != ((0xb66c_ccd9_9999_9984u64 >> j) & 1u64 == 1u64) || ((0xdab5_556a_aaaa_aa82u64 >> i) & 1u64 == 1u64) != ((0xdab5_556a_aaaa_aa82u64 >> j) & 1u64 == 1u64))) by (bit_vector)
        requires
            7 <= i < 64,
            j < i,
    ;
}

/// A row's parity of `a ^ b` is the exclusive-or of its parities of `a` and
/// of `b`.
proof fn lemma_row_parity_xor(a: u64, b: u64, k: int)
    ensures
        row_parity(a ^ b, k) == (row_parity(a, k) != row_parity(b, k)),
{
    lemma_and_xor(a, b, secded_row(k));
    lemma_parity_xor(a & secded_row(k), b & secded_row(k));
}

/// The word of the block that `secded` makes of `x`: the payload of `x` with
/// its check bits, every row's parity of it even.
proof fn lemma_encoded_word(x: Seq<u8>)
    requires
        encodable_block(x),
    ensures
        word_of(secded_encoded(x), false) & !0x7fu64 == word_of(x, false),
        secded_encoded(x).len() == 8,
        forall|k: int| 0 <= k < 6 ==> !#[trigger] row_parity(word_of(secded_encoded(x), false), k),
{
    let v = word_of(x, false);
    lemma_bytes_round_trip(x, false);
    let c = secded_code(v);
    lemma_code_bits(v);
    let w = v | c;
    lemma_word_round_trip(w, false);
    lemma_columns(7, 0);
    lemma_low_bits(v, c, secded_row(0), 6, 0, 0);
    lemma_low_bits(v, c, secded_row(1), 5, 0, 0);
    lemma_low_bits(v, c, secded_row(2), 4, 0, 0);
    lemma_low_bits(v, c, secded_row(3), 3, 0, 0);
    lemma_low_bits(v, c, secded_row(4), 2, 0, 0);
    lemma_low_bits(v, c, secded_row(5), 1, 0, 0);
    assert forall|k: int| 0 <= k < 6 implies !#[trigger] row_parity(w, k) by {
        lemma_row_parity_xor(v, c, k);
    }
}

/// The search for an error position finds one no later than a position whose
/// flip gives `s`, and exactly that one when no earlier position does.
proof fn lemma_error_position(s: u64, start: nat, i: u64)
    requires
        start <= i < 64,
        secded_code(1u64 << i) == s,
    ensures
        secded_error_position(s, start) matches Some(j) && start <= j <= i,
        (forall|j: u64| start <= j < i ==> #[trigger] secded_code(1u64 << j) != s)
            ==> secded_error_position(s, start) == Some(i),
    decreases i - start,
{
    if start < i {
        lemma_error_position(s, start + 1, i);
        if forall|j: u64| start <= j < i ==> #[trigger] secded_code(1u64 << j) != s {
            assert(secded_code(1u64 << (start as u64)) != s);
        }
    }
}

/// Decoding a block that `secded` encoded gives the block back.
pub proof fn law_secded_round_trip(x: Seq<u8>)
    requires
        encodable_block(x),
    ensures
        secded_decoded(secded_encoded(x)) == Some(x),
{
    let w = word_of(secded_encoded(x), false);
    lemma_encoded_word(x);
    assert(!row_parity(w, 0) && !row_parity(w, 1) && !row_parity(w, 2));
    assert(!row_parity(w, 3) && !row_parity(w, 4) && !row_parity(w, 5));
    lemma_code_bits(w);
    lemma_bytes_round_trip(x, false);
}

/// A block that `secded` encoded, with any one bit flipped, decodes to the
/// block that was encoded.
pub proof fn law_secded_single_error(x: Seq<u8>, i: int)
    requires
        encodable_block(x),
        0 <= i < 64,
    ensures
        secded_decoded(flip_block_bit(secded_encoded(x), i)) == Some(x),
{
    let enc = secded_encoded(x);
    let w = word_of(enc, false);
    let v = word_of(x, false);
    let iu = i as u64;
    let e = 1u64 << iu;
    let f = w ^ e;
    lemma_encoded_word(x);
    lemma_bytes_round_trip(x, false);
    lemma_word_round_trip(f, false);
    let flipped = flip_block_bit(enc, i);
    assert(word_of(flipped, false) == f);
    assert forall|k: int| 0 <= k < 6 implies #[trigger] row_parity(f, k) == row_parity(e, k) by {
        lemma_row_parity_xor(w, e, k);
    }
    let s = secded_code(f);
    assert(row_parity(f, 0) == row_parity(e, 0) && row_parity(f, 1) == row_parity(e, 1));
    assert(row_parity(f, 2) == row_parity(e, 2) && row_parity(f, 3) == row_parity(e, 3));
    assert(row_parity(f, 4) == row_parity(e, 4) && row_parity(f, 5) == row_parity(e, 5));
    assert(secded_code(e) == s);
    lemma_low_bits(0, 0, 0x40u64, 6, w, e);
    assert((f ^ e) == w);
    if iu < 7 {
        lemma_low_bits(0, 0, 1u64 << iu, iu, w, 0);
        assert(f & !0x7fu64 == v);
        if s != 0 {
            lemma_error_position(s, 0, iu);
            let j = secded_error_position(s, 0).unwrap();
            lemma_low_bits(0, 0, 1u64 << j, j, f, 0);
        }
    } else {
        lemma_columns(iu, 0);
        lemma_code_bits(f);
        lemma_code_bits(0);
        lemma_low_bits(0, 0, 0x40u64, 6, 0, 0);
        lemma_low_bits(0, 0, 0x20u64, 5, 0, 0);
        lemma_low_bits(0, 0, 0x10u64, 4, 0, 0);
        lemma_low_bits(0, 0, 0x08u64, 3, 0, 0);
        lemma_low_bits(0, 0, 0x04u64, 2, 0, 0);
        lemma_low_bits(0, 0, 0x02u64, 1, 0, 0);
        assert forall|k: int| 0 <= k < 6 implies #[trigger] row_parity(e, k) == bit(secded_row(k), iu) by {
            lemma_single_bit_parity(iu, secded_row(k));
        }
        assert(s != 0);
        assert forall|j: u64| 0 <= j < iu implies #[trigger] secded_code(1u64 << j) != s by {
            lemma_columns(iu, j);
            lemma_code_bits(1u64 << j);
            assert forall|k: int| 0 <= k < 6 implies #[trigger] row_parity(1u64 << j, k) == bit(
                secded_row(k),
                j,
            ) by {
                lemma_single_bit_parity(j, secded_row(k));
            }
        }
        lemma_error_position(s, 0, iu);
    }
}

/// Encoding keeps a block's first seven bytes: the check bits go into the
/// lowest seven bits of its word, which lie in its eighth byte.
proof fn lemma_encoded_bytes(x: Seq<u8>)
    requires
        encodable_block(x),
    ensures
        secded_encoded(x).len() == 8,
        secded_encoded(x).take(7) == x.take(7),
{
    let v = word_of(x, false);
    let c = secded_code(v);
    lemma_bytes_round_trip(x, false);
    lemma_code_bits(v);
    let w = v | c;
    assert(((w >> 8u64) & 0xffu64) == ((v >> 8u64) & 0xffu64) && ((w >> 16u64) & 0xffu64) == ((v >> 16u64) & 0xffu64) && ((w >> 24u64) & 0xffu64) == ((v >> 24u64) & 0xffu64) && ((w >> 32u64) & 0xffu64) == ((v >> 32u64) & 0xffu64) && ((w >> 40u64) & 0xffu64) == ((v >> 40u64) & 0xffu64) && ((w >> 48u64) & 0xffu64) == ((v >> 48u64) & 0xffu64) && ((w >> 56u64) & 0xffu64) == ((v >> 56u64) & 0xffu64)) by (bit_vector)
        requires
            w == v | c,
            c & !0x7fu64 == 0,
    ;
    assert(secded_encoded(x).take(7) =~= bytes_of_word(v, false).take(7));
}

/// `SecDed64::new(57)` and its `encode`: writes the correction code into the
/// lowest seven bits of the eight-byte block, read as a word most significant
/// byte first. The contract claims that the result is `secded_encoded` of the
/// input (the check bits are the parities of the rows that `new` builds), and
/// (as the crate's source shows) that it does not panic when those bits are
/// zero.
#[verifier::external_body]
fn secded_encode_block(block: &mut [u8])
    requires
        encodable_block(old(block)@),
    ensures
        final(block)@ == secded_encoded(old(block)@),
{
    secded::SecDedCodec::encode(&secded::SecDed64::new(57), block)
}

/// `SecDed64::new(57)` and its `decode`: corrects a single flipped bit in
/// place and clears the correction code, or reports a detected error and
/// leaves the block unchanged. The contract claims that the outcome is
/// `secded_decoded` of the input (the syndrome search that `decode` makes over
/// the matrix that `new` builds), and that a reported error leaves the block
/// as it was.
#[verifier::external_body]
fn hamming_decode(block: &mut [u8]) -> (r: Result<(), ()>)
    requires
        old(block)@.len() == 8,
    ensures
        r is Ok <==> secded_decoded(old(block)@) is Some,
        r is Ok ==> final(block)@ == secded_decoded(old(block)@).unwrap(),
        r is Err ==> final(block)@ == old(block)@,
{
    secded::SecDedCodec::decode(&secded::SecDed64::new(57), block)
}

/// Block `k` (eight bytes) of `s`.
pub open spec fn block(s: Seq<u8>, k: int) -> Seq<u8> {
    s.subrange(8 * k, 8 * k + 8)
}

/// Every block of `s` has its eighth byte zero.
pub open spec fn blocks_reserved_zero(s: Seq<u8>) -> bool {
    &&& s.len() % 8 == 0
    &&& forall|k: int| 0 <= k < s.len() / 8 ==> #[trigger] block(s, k)[7] == 0
}

/// The first `n` blocks of `s`, each encoded.
pub open spec fn encoded_blocks(s: Seq<u8>, n: nat) -> Seq<u8>
    decreases n,
{
    if n == 0 {
        Seq::empty()
    } else {
        encoded_blocks(s, (n - 1) as nat) + secded_encoded(block(s, n - 1))
    }
}

/// The first `n` blocks of `s`, each decoded, or `None` when one of them
/// reports an error.
pub open spec fn decoded_blocks(s: Seq<u8>, n: nat) -> Option<Seq<u8>>
    decreases n,
{
    if n == 0 {
        Some(Seq::empty())
    } else {
        match decoded_blocks(s, (n - 1) as nat) {
            Some(prefix) => match secded_decoded(block(s, n - 1)) {
                Some(b) => Some(prefix + b),
                None => None,
            },
            None => None,
        }
    }
}

proof fn lemma_encoded_blocks_len(s: Seq<u8>, n: nat)
    requires
        8 * n <= s.len(),
        forall|k: int| 0 <= k < n ==> (#[trigger] secded_encoded(block(s, k))).len() == 8,
    ensures
        encoded_blocks(s, n).len() == 8 * n,
    decreases n,
{
    if n > 0 {
        lemma_encoded_blocks_len(s, (n - 1) as nat);
    }
}

/// Block `k` of the first `n` encoded blocks is the encoding of block `k`.
proof fn lemma_encoded_block(s: Seq<u8>, n: nat, k: int)
    requires
        8 * n <= s.len(),
        0 <= k < n,
        forall|j: int| 0 <= j < n ==> (#[trigger] secded_encoded(block(s, j))).len() == 8,
    ensures
        block(encoded_blocks(s, n), k) == secded_encoded(block(s, k)),
    decreases n,
{
    lemma_encoded_blocks_len(s, n);
    lemma_encoded_blocks_len(s, (n - 1) as nat);
    if k < n - 1 {
        lemma_encoded_block(s, (n - 1) as nat, k);
        assert(block(encoded_blocks(s, n), k) =~= block(encoded_blocks(s, (n - 1) as nat), k));
    } else {
        assert(block(encoded_blocks(s, n), k) =~= secded_encoded(block(s, k)));
    }
}

/// Modifies a stream of bytes to include Hamming error correction codes. Every
/// eighth byte must be zero.
pub fn encode(input: &mut [u8])
    requires
        blocks_reserved_zero(old(input)@),
    ensures
        final(input)@ == encoded_blocks(old(input)@, old(input)@.len() / 8),
        final(input)@.len() == old(input)@.len(),
        forall|k: int|
            0 <= k < old(input)@.len() / 8 ==> #[trigger] block(final(input)@, k) == secded_encoded(
                block(old(input)@, k),
            ) && block(final(input)@, k).len() == 8 && block(final(input)@, k).take(7) == block(
                old(input)@,
                k,
            ).take(7),
{
    let ghost original = input@;
    let total = input.len();
    let n = total / 8;
    let mut k: usize = 0;
    while k < n
        invariant
            original.len() == input@.len(),
            original.len() == total,
            blocks_reserved_zero(original),
            n == original.len() / 8,
            k <= n,
            input@.take(8 * k) == encoded_blocks(original, k as nat),
            input@.skip(8 * k) == original.skip(8 * k),
            forall|j: int|
                0 <= j < k ==> (#[trigger] secded_encoded(block(original, j))).len() == 8
                    && secded_encoded(block(original, j)).take(7) == block(original, j).take(7),
        decreases n - k,
    {
        assert(8 * k + 8 <= original.len()) by (nonlinear_arith)
            requires
                k < n,
                n == original.len() / 8,
        ;
        assert(8 * k + 8 <= total);
        let base: usize = 8 * k;
        let mut chunk: Vec<u8> = Vec::new();
        let mut j: usize = 0;
        while j < 8
            invariant
                j <= 8,
                k < n,
                base == 8 * k,
                base + 8 <= original.len(),
                n == original.len() / 8,
                input@.len() == original.len(),
                input@.skip(8 * k) == original.skip(8 * k),
                chunk@ == block(original, k as int).take(j as int),
            decreases 8 - j,
        {
            assert(input@[8 * k + j] == original.skip(8 * k)[j as int]);
            chunk.push(input[base + j]);
            assert(chunk@ =~= block(original, k as int).take(j + 1));
            j = j + 1;
        }
        assert(chunk@ =~= block(original, k as int));
        assert(block(original, k as int)[7] == 0);
        proof {
            lemma_zero_code_byte(block(original, k as int));
            lemma_encoded_bytes(block(original, k as int));
        }
        secded_encode_block(chunk.as_mut_slice());
        let ghost before = input@;
        assert(before.skip(8 * k + 8) =~= original.skip(8 * k + 8)) by {
            assert(before.skip(8 * k + 8) =~= before.skip(8 * k).skip(8));
            assert(original.skip(8 * k + 8) =~= original.skip(8 * k).skip(8));
        }
        let mut j: usize = 0;
        while j < 8
            invariant
                j <= 8,
                k < n,
                base == 8 * k,
                base + 8 <= original.len(),
                n == original.len() / 8,
                chunk@.len() == 8,
                input@.len() == original.len(),
                input@.take(8 * k) == before.take(8 * k),
                input@.skip(8 * k + 8) == before.skip(8 * k + 8),
                forall|jj: int| 0 <= jj < j ==> input@[8 * k + jj] == #[trigger] chunk@[jj],
                before.len() == original.len(),
                before.skip(8 * k + 8) == original.skip(8 * k + 8),
            decreases 8 - j,
        {
            input[base + j] = chunk[j];
            assert(input@.take(8 * k) =~= before.take(8 * k));
            assert(input@.skip(8 * k + 8) =~= before.skip(8 * k + 8));
            j = j + 1;
        }
        proof {
            assert(input@.take(8 * (k + 1)) =~= encoded_blocks(original, k as nat) + chunk@);
            assert(input@.skip(8 * (k + 1)) =~= original.skip(8 * (k + 1)));
        }
        k = k + 1;
    }
    assert(input@ =~= input@.take(8 * n));
    proof {
        assert forall|j: int| 0 <= j < n implies #[trigger] block(input@, j) == secded_encoded(
            block(original, j),
        ) && block(input@, j).len() == 8 && block(input@, j).take(7) == block(original, j).take(7) by {
            lemma_encoded_block(original, n as nat, j);
        }
    }
}


proof fn lemma_decoded_blocks_fail(s: Seq<u8>, k: nat, n: nat)
    requires
        k < n,
        decoded_blocks(s, (k + 1) as nat) is None,
    ensures
        decoded_blocks(s, n) is None,
    decreases n - k,
{
    if n > k + 1 {
        lemma_decoded_blocks_fail(s, k, (n - 1) as nat);
    }
}

/// Every block of `s` is the encoding of the matching block of `x`, whose
/// correction bits are zero.
pub open spec fn encodes_blocks(s: Seq<u8>, x: Seq<u8>) -> bool {
    &&& s.len() == x.len()
    &&& s.len() % 8 == 0
    &&& forall|k: int| 0 <= k < s.len() / 8 ==> #[trigger] encodable_block(block(x, k))
    &&& forall|k: int| 0 <= k < s.len() / 8 ==> #[trigger] block(s, k) == secded_encoded(block(x, k))
}

/// Every block of `s` is the encoding of the matching block of `x`, whose
/// correction bits are zero, intact or with a single bit flipped.
pub open spec fn encodes_blocks_within_one_bit(s: Seq<u8>, x: Seq<u8>) -> bool {
    &&& s.len() == x.len()
    &&& s.len() % 8 == 0
    &&& forall|k: int| 0 <= k < s.len() / 8 ==> #[trigger] encodable_block(block(x, k))
    &&& forall|k: int|
        0 <= k < s.len() / 8 ==> #[trigger] block(s, k) == secded_encoded(block(x, k)) || exists|
            i: int,
        |
            0 <= i < 64 && block(s, k) == #[trigger] flip_block_bit(secded_encoded(block(x, k)), i)
}

/// A block whose eighth byte is zero can be encoded.
proof fn lemma_zero_code_byte(b: Seq<u8>)
    requires
        b.len() == 8,
        b[7] == 0,
    ensures
        encodable_block(b),
{
    assert(0u8 & 0x7fu8 == 0) by (bit_vector);
}

/// The first `m` blocks of a stream whose blocks each decode to those of `x`
/// decode to the first `m` blocks of `x`.
proof fn lemma_decoded_prefix(s: Seq<u8>, x: Seq<u8>, m: nat)
    requires
        8 * m <= s.len(),
        s.len() == x.len(),
        forall|k: int| 0 <= k < m ==> #[trigger] secded_decoded(block(s, k)) == Some(block(x, k)),
    ensures
        decoded_blocks(s, m) == Some(x.take(8 * m as int)),
    decreases m,
{
    if m > 0 {
        lemma_decoded_prefix(s, x, (m - 1) as nat);
        assert(x.take(8 * (m - 1)) + block(x, m - 1) =~= x.take(8 * m as int));
    }
}

/// Encoding a stream whose every eighth byte is zero, then flipping at most
/// one bit in each block, leaves a stream that decodes to the one encoded.
pub proof fn law_stream_round_trip(data: Seq<u8>, damaged: Seq<u8>)
    requires
        blocks_reserved_zero(data),
        damaged.len() == data.len(),
        forall|k: int|
            0 <= k < data.len() / 8 ==> #[trigger] block(damaged, k) == block(
                encoded_blocks(data, data.len() / 8),
                k,
            ) || exists|i: int|
                0 <= i < 64 && block(damaged, k) == #[trigger] flip_block_bit(
                    block(encoded_blocks(data, data.len() / 8), k),
                    i,
                ),
    ensures
        decoded_blocks(damaged, data.len() / 8) == Some(data),
{
    let n = data.len() / 8;
    assert forall|k: int| 0 <= k < n implies #[trigger] encodable_block(block(data, k)) by {
        lemma_zero_code_byte(block(data, k));
    }
    assert forall|k: int| 0 <= k < n implies (#[trigger] secded_encoded(block(data, k))).len() == 8 by {
        lemma_encoded_word(block(data, k));
    }
    assert forall|k: int| 0 <= k < n implies #[trigger] secded_decoded(block(damaged, k)) == Some(
        block(data, k),
    ) by {
        lemma_encoded_block(data, n as nat, k);
        assert(encodable_block(block(data, k)));
        if block(damaged, k) == block(encoded_blocks(data, n as nat), k) {
            law_secded_round_trip(block(data, k));
        } else {
            let i = choose|i: int|
                0 <= i < 64 && block(damaged, k) == #[trigger] flip_block_bit(
                    block(encoded_blocks(data, n as nat), k),
                    i,
                );
            law_secded_single_error(block(data, k), i);
        }
    }
    assert(8 * n <= damaged.len()) by (nonlinear_arith)
        requires
            n == data.len() / 8,
            damaged.len() == data.len(),
    ;
    lemma_decoded_prefix(damaged, data, n as nat);
    assert(data.take(8 * n as int) =~= data);
}

/// Decodes a stream of Hamming encoded bytes in place, block by block,
/// stopping at the first block with an uncorrectable error.
pub fn decode(input: &mut [u8]) -> (r: Result<(), ()>)
    requires
        old(input)@.len() % 8 == 0,
    ensures
        final(input)@.len() == old(input)@.len(),
        r is Ok <==> decoded_blocks(old(input)@, old(input)@.len() / 8) is Some,
        r is Ok ==> final(input)@ == decoded_blocks(old(input)@, old(input)@.len() / 8).unwrap(),
        r is Err ==> exists|k: int|
            0 <= k < old(input)@.len() / 8 && decoded_blocks(old(input)@, k as nat) is Some
                && secded_decoded(#[trigger] block(old(input)@, k)) is None && final(input)@
                == decoded_blocks(old(input)@, k as nat).unwrap() + old(input)@.skip(8 * k),
        forall|x: Seq<u8>| #[trigger] encodes_blocks(old(input)@, x) ==> r is Ok && final(input)@ == x,
        forall|x: Seq<u8>|
            #[trigger] encodes_blocks_within_one_bit(old(input)@, x) ==> r is Ok && final(input)@ == x,
{
    let ghost original = input@;
    let total = input.len();
    let n = total / 8;
    let mut k: usize = 0;
    while k < n
        invariant
            original.len() == input@.len(),
            original.len() == total,
            original.len() % 8 == 0,
            original == old(input)@,
            n == original.len() / 8,
            k <= n,
            decoded_blocks(original, k as nat) is Some,
            input@.take(8 * k) == decoded_blocks(original, k as nat).unwrap(),
            input@.skip(8 * k) == original.skip(8 * k),
            forall|x: Seq<u8>| #[trigger] encodes_blocks(original, x) ==> decoded_blocks(original, k as nat)
                == Some(x.take(8 * k)),
            forall|x: Seq<u8>|
                #[trigger] encodes_blocks_within_one_bit(original, x) ==> decoded_blocks(
                    original,
                    k as nat,
                ) == Some(x.take(8 * k)),
        decreases n - k,
    {
        assert(8 * k + 8 <= original.len()) by (nonlinear_arith)
            requires
                k < n,
                n == original.len() / 8,
        ;
        let base: usize = 8 * k;
        let mut chunk: Vec<u8> = Vec::new();
        let mut j: usize = 0;
        while j < 8
            invariant
                j <= 8,
                base == 8 * k,
                base + 8 <= original.len(),
                input@.len() == original.len(),
                input@.skip(8 * k) == original.skip(8 * k),
                chunk@ == block(original, k as int).take(j as int),
            decreases 8 - j,
        {
            assert(input@[8 * k + j] == original.skip(8 * k)[j as int]);
            chunk.push(input[base + j]);
            assert(chunk@ =~= block(original, k as int).take(j + 1));
            j = j + 1;
        }
        assert(chunk@ =~= block(original, k as int));
        let res = hamming_decode(chunk.as_mut_slice());
        proof {
            assert forall|x: Seq<u8>| #[trigger] encodes_blocks(original, x) implies secded_decoded(
                block(original, k as int),
            ) == Some(block(x, k as int)) by {
                assert(encodable_block(block(x, k as int)));
                assert(block(original, k as int) == secded_encoded(block(x, k as int)));
                law_secded_round_trip(block(x, k as int));
            }
            assert forall|x: Seq<u8>| #[trigger] encodes_blocks_within_one_bit(original, x) implies secded_decoded(
                block(original, k as int),
            ) == Some(block(x, k as int)) by {
                assert(encodable_block(block(x, k as int)));
                if block(original, k as int) != secded_encoded(block(x, k as int)) {
                    let i = choose|i: int|
                        0 <= i < 64 && block(original, k as int) == #[trigger] flip_block_bit(
                            secded_encoded(block(x, k as int)),
                            i,
                        );
                    law_secded_single_error(block(x, k as int), i);
                } else {
                    law_secded_round_trip(block(x, k as int));
                }
            }
        }
        if res.is_err() {
            assert(input@ =~= decoded_blocks(original, k as nat).unwrap() + original.skip(8 * k)) by {
                assert(input@ =~= input@.take(8 * k) + input@.skip(8 * k));
            }
            proof {
                assert(secded_decoded(block(original, k as int)) is None);
                lemma_decoded_blocks_fail(original, k as nat, n as nat);
                assert(0 <= k < original.len() / 8 && decoded_blocks(original, k as nat) is Some
                    && secded_decoded(block(original, k as int)) is None && input@
                    == decoded_blocks(original, k as nat).unwrap() + original.skip(8 * k));
            }
            return Err(());
        }
        let ghost before = input@;
        assert(before.skip(8 * k + 8) =~= original.skip(8 * k + 8)) by {
            assert(before.skip(8 * k + 8) =~= before.skip(8 * k).skip(8));
            assert(original.skip(8 * k + 8) =~= original.skip(8 * k).skip(8));
        }
        let mut j: usize = 0;
        while j < 8
            invariant
                j <= 8,
                base == 8 * k,
                base + 8 <= original.len(),
                chunk@.len() == 8,
                input@.len() == original.len(),
                input@.take(8 * k) == before.take(8 * k),
                input@.skip(8 * k + 8) == before.skip(8 * k + 8),
                forall|jj: int| 0 <= jj < j ==> input@[8 * k + jj] == #[trigger] chunk@[jj],
                before.len() == original.len(),
                before.skip(8 * k + 8) == original.skip(8 * k + 8),
            decreases 8 - j,
        {
            input[base + j] = chunk[j];
            assert(input@.take(8 * k) =~= before.take(8 * k));
            assert(input@.skip(8 * k + 8) =~= before.skip(8 * k + 8));
            j = j + 1;
        }
        proof {
            assert(input@.take(8 * (k + 1)) =~= decoded_blocks(original, k as nat).unwrap() + chunk@);
            assert(input@.skip(8 * (k + 1)) =~= original.skip(8 * (k + 1)));
            assert forall|x: Seq<u8>| #[trigger] encodes_blocks(original, x) implies decoded_blocks(
                original,
                (k + 1) as nat,
            ) == Some(x.take(8 * (k + 1))) by {
                assert(x.take(8 * k) + block(x, k as int) =~= x.take(8 * (k + 1)));
            }
            assert forall|x: Seq<u8>| #[trigger] encodes_blocks_within_one_bit(original, x) implies decoded_blocks(
                original,
                (k + 1) as nat,
            ) == Some(x.take(8 * (k + 1))) by {
                assert(x.take(8 * k) + block(x, k as int) =~= x.take(8 * (k + 1)));
            }
        }
        k = k + 1;
    }
    assert(input@ =~= input@.take(8 * n));
    proof {
        assert forall|x: Seq<u8>| #[trigger] encodes_blocks(original, x) implies input@ == x by {
            assert(x.take(8 * n) =~= x);
        }
        assert forall|x: Seq<u8>| #[trigger] encodes_blocks_within_one_bit(original, x) implies input@
            == x by {
            assert(x.take(8 * n) =~= x);
        }
    }
    Ok(())
}


/// A copy of block `k` of `data`.
fn copy_block_out(data: &[u8], k: usize) -> (chunk: Vec<u8>)
    requires
        8 * k + 8 <= data@.len(),
    ensures
        chunk@ == block(data@, k as int),
{
    let total = data.len();
    let base: usize = 8 * k;
    let mut chunk: Vec<u8> = Vec::new();
    let mut j: usize = 0;
    while j < 8
        invariant
            j <= 8,
            base == 8 * k,
            base + 8 <= data@.len(),
            chunk@ == block(data@, k as int).take(j as int),
        decreases 8 - j,
    {
        chunk.push(data[base + j]);
        assert(chunk@ =~= block(data@, k as int).take(j + 1));
        j = j + 1;
    }
    assert(chunk@ =~= block(data@, k as int));
    chunk
}

/// Overwrites block `k` of `data` with `chunk`.
fn copy_block_in(data: &mut [u8], k: usize, chunk: &Vec<u8>)
    requires
        8 * k + 8 <= old(data)@.len(),
        chunk@.len() == 8,
    ensures
        final(data)@ == old(data)@.take(8 * k) + chunk@ + old(data)@.skip(8 * k + 8),
{
    let ghost before = data@;
    let total = data.len();
    assert(8 * k + 8 <= total);
    let base: usize = 8 * k;
    let mut j: usize = 0;
    while j < 8
        invariant
            j <= 8,
            chunk@.len() == 8,
            base == 8 * k,
            base + 8 <= before.len(),
            data@.len() == before.len(),
            data@.take(8 * k) == before.take(8 * k),
            data@.skip(8 * k + 8) == before.skip(8 * k + 8),
            forall|jj: int| 0 <= jj < j ==> data@[8 * k + jj] == #[trigger] chunk@[jj],
        decreases 8 - j,
    {
        data[base + j] = chunk[j];
        assert(data@.take(8 * k) =~= before.take(8 * k));
        assert(data@.skip(8 * k + 8) =~= before.skip(8 * k + 8));
        j = j + 1;
    }
    assert(data@ =~= before.take(8 * k) + chunk@ + before.skip(8 * k + 8));
}

/// The word that eight bytes hold, least significant byte first.
pub open spec fn le_word(b: Seq<u8>) -> u64 {
    (b[0] as u64) | ((b[1] as u64) << 8u64) | ((b[2] as u64) << 16u64) | ((b[3] as u64) << 24u64) | ((b[4] as u64) << 32u64) | ((b[5] as u64) << 40u64) | ((b[6] as u64) << 48u64) | ((b[7] as u64) << 56u64)
}

/// The eight bytes of a word, least significant first.
pub open spec fn le_bytes(w: u64) -> Seq<u8> {
    seq![
        (w & 0xffu64) as u8,
        ((w >> 8u64) & 0xffu64) as u8,
        ((w >> 16u64) & 0xffu64) as u8,
        ((w >> 24u64) & 0xffu64) as u8,
        ((w >> 32u64) & 0xffu64) as u8,
        ((w >> 40u64) & 0xffu64) as u8,
        ((w >> 48u64) & 0xffu64) as u8,
        ((w >> 56u64) & 0xffu64) as u8,
    ]
}

/// Eight bytes in the opposite order.
pub open spec fn rev8(b: Seq<u8>) -> Seq<u8> {
    seq![b[7], b[6], b[5], b[4], b[3], b[2], b[1], b[0]]
}

/// The word that eight bytes hold, in the byte order `little` (least
/// significant byte first) or not (most significant first).
pub open spec fn word_of(b: Seq<u8>, little: bool) -> u64 {
    if little {
        le_word(b)
    } else {
        le_word(rev8(b))
    }
}

/// The eight bytes of a word in the byte order `little` or not.
pub open spec fn bytes_of_word(w: u64, little: bool) -> Seq<u8> {
    if little {
        le_bytes(w)
    } else {
        rev8(le_bytes(w))
    }
}

/// The position, in a block of eight bytes, of the byte that holds the
/// lowest bits of its word, and so the check bits.
pub open spec fn code_byte(little: bool) -> int {
    if little {
        0
    } else {
        7
    }
}

proof fn lemma_le_word_bytes(w: u64)
    ensures
        le_word(le_bytes(w)) == w,
        le_bytes(w).len() == 8,
{
    assert(((w & 0xffu64) as u8 as u64) | ((((w >> 8u64) & 0xffu64) as u8 as u64) << 8u64) | ((((w >> 16u64) & 0xffu64) as u8 as u64) << 16u64) | ((((w >> 24u64) & 0xffu64) as u8 as u64) << 24u64) | ((((w >> 32u64) & 0xffu64) as u8 as u64) << 32u64) | ((((w >> 40u64) & 0xffu64) as u8 as u64) << 40u64) | ((((w >> 48u64) & 0xffu64) as u8 as u64) << 48u64) | ((((w >> 56u64) & 0xffu64) as u8 as u64) << 56u64) == w) by (bit_vector);
}

proof fn lemma_le_bytes_word(b: Seq<u8>)
    requires
        b.len() == 8,
    ensures
        le_bytes(le_word(b)) == b,
        b[0] == 0 ==> le_word(b) & 0x7fu64 == 0,
        b[0] & 0x7fu8 == 0 ==> le_word(b) & 0x7fu64 == 0,
{
    let b0 = b[0];
    let b1 = b[1];
    let b2 = b[2];
    let b3 = b[3];
    let b4 = b[4];
    let b5 = b[5];
    let b6 = b[6];
    let b7 = b[7];
    let w = le_word(b);
    assert((w & 0xffu64) as u8 == b0 && ((w >> 8u64) & 0xffu64) as u8 == b1 && ((w >> 16u64) & 0xffu64) as u8 == b2 && ((w >> 24u64) & 0xffu64) as u8 == b3 && ((w >> 32u64) & 0xffu64) as u8 == b4 && ((w >> 40u64) & 0xffu64) as u8 == b5 && ((w >> 48u64) & 0xffu64) as u8 == b6 && ((w >> 56u64) & 0xffu64) as u8 == b7 && (b0 == 0 ==> w & 0x7fu64 == 0) && (b0 & 0x7fu8 == 0 ==> w & 0x7fu64 == 0)) by (bit_vector)
        requires
            w == (b0 as u64) | ((b1 as u64) << 8u64) | ((b2 as u64) << 16u64) | ((b3 as u64) << 24u64) | ((b4 as u64) << 32u64) | ((b5 as u64) << 40u64) | ((b6 as u64) << 48u64) | ((b7 as u64) << 56u64),
    ;
    assert(le_bytes(w) =~= b);
}

/// Writing a word as bytes and reading it back, in one byte order, gives the
/// word back.
pub proof fn lemma_word_round_trip(w: u64, little: bool)
    ensures
        word_of(bytes_of_word(w, little), little) == w,
        bytes_of_word(w, little).len() == 8,
{
    lemma_le_word_bytes(w);
    assert(rev8(rev8(le_bytes(w))) =~= le_bytes(w));
}

/// Reading eight bytes as a word and writing it back, in one byte order,
/// gives the bytes back; and a zero code byte leaves the check bits zero.
pub proof fn lemma_bytes_round_trip(b: Seq<u8>, little: bool)
    requires
        b.len() == 8,
    ensures
        bytes_of_word(word_of(b, little), little) == b,
        b[code_byte(little)] == 0 ==> word_of(b, little) & 0x7fu64 == 0,
        b[code_byte(little)] & 0x7fu8 == 0 ==> word_of(b, little) & 0x7fu64 == 0,
{
    if little {
        lemma_le_bytes_word(b);
    } else {
        lemma_le_bytes_word(rev8(b));
        assert(rev8(rev8(b)) =~= b);
    }
}

/// The word that the block `b` holds, in the byte order `little`.
pub fn word_in_block(b: &[u8], little: bool) -> (w: u64)
    requires
        b@.len() == 8,
    ensures
        w == word_of(b@, little),
{
    if little {
        (b[0] as u64) | ((b[1] as u64) << 8u64) | ((b[2] as u64) << 16u64) | ((b[3] as u64) << 24u64) | ((b[4] as u64) << 32u64) | ((b[5] as u64) << 40u64) | ((b[6] as u64) << 48u64) | ((b[7] as u64) << 56u64)
    } else {
        (b[7] as u64) | ((b[6] as u64) << 8u64) | ((b[5] as u64) << 16u64) | ((b[4] as u64) << 24u64) | ((b[3] as u64) << 32u64) | ((b[2] as u64) << 40u64) | ((b[1] as u64) << 48u64) | ((b[0] as u64) << 56u64)
    }
}

/// The eight bytes of `w` in the byte order `little`.
pub fn bytes_in_order(w: u64, little: bool) -> (r: Vec<u8>)
    ensures
        r@ == bytes_of_word(w, little),
{
    let mut r: Vec<u8> = Vec::new();
    if little {
        r.push((w & 0xffu64) as u8);
        r.push(((w >> 8u64) & 0xffu64) as u8);
        r.push(((w >> 16u64) & 0xffu64) as u8);
        r.push(((w >> 24u64) & 0xffu64) as u8);
        r.push(((w >> 32u64) & 0xffu64) as u8);
        r.push(((w >> 40u64) & 0xffu64) as u8);
        r.push(((w >> 48u64) & 0xffu64) as u8);
        r.push(((w >> 56u64) & 0xffu64) as u8);
        assert(r@ =~= le_bytes(w));
    } else {
        r.push(((w >> 56u64) & 0xffu64) as u8);
        r.push(((w >> 48u64) & 0xffu64) as u8);
        r.push(((w >> 40u64) & 0xffu64) as u8);
        r.push(((w >> 32u64) & 0xffu64) as u8);
        r.push(((w >> 24u64) & 0xffu64) as u8);
        r.push(((w >> 16u64) & 0xffu64) as u8);
        r.push(((w >> 8u64) & 0xffu64) as u8);
        r.push((w & 0xffu64) as u8);
        assert(r@ =~= rev8(le_bytes(w)));
    }
    r
}

/// Whether the machine running this code lays out words least significant
/// byte first, by vstd's account of the executing hardware's byte order.
pub open spec fn machine_little() -> bool {
    vstd::endian::endianness() is Little
}

/// `bytemuck::bytes_of` on a word: its eight bytes as the machine lays them
/// out. The contract claims that they are the word's bytes in the byte order
/// of the machine running the code.
#[verifier::external_body]
fn native_bytes(w: u64) -> (r: Vec<u8>)
    ensures
        r@ == bytes_of_word(w, machine_little()),
{
    bytemuck::bytes_of(&w).to_vec()
}

/// The word one as bytes: one in its least significant byte, zero in its
/// most significant.
proof fn lemma_one_bytes()
    ensures
        bytes_of_word(1, true)[0] == 1,
        bytes_of_word(1, false)[0] == 0,
{
    assert((1u64 & 0xffu64) as u8 == 1u8 && ((1u64 >> 56u64) & 0xffu64) as u8 == 0u8) by (bit_vector);
}

/// Whether this machine lays out words least significant byte first, as
/// `bytemuck` shows it: the byte order in which streams of words are read and
/// written on it.
pub fn native_little_endian() -> (r: bool)
    ensures
        r == machine_little(),
{
    let probe = native_bytes(1);
    proof {
        lemma_one_bytes();
    }
    probe[0] == 1
}

/// Block `k` of `t` holds the code word for the word of block `k` of `s`, in
/// the byte order `little`; that word's check bits were zero.
pub open spec fn word_encoded(s: Seq<u8>, little: bool, t: Seq<u8>, k: int) -> bool {
    &&& word_of(block(s, k), little) & 0x7fu64 == 0
    &&& is_codeword_for(word_of(block(t, k), little), word_of(block(s, k), little))
}

/// The word of block `k` of `s`, in the byte order `little`, uses its check
/// bits.
pub open spec fn word_not_encodable(s: Seq<u8>, little: bool, k: int) -> bool {
    word_of(block(s, k), little) & 0x7fu64 != 0
}

/// `t` and `r` are what encoding the words of `s` in the byte order `little`
/// gives: every block becomes the code word for its word, or, at the first
/// word whose check bits are not zero, encoding stops with an error and that
/// block and all later ones stay as they were.
pub open spec fn encoded_words(s: Seq<u8>, little: bool, t: Seq<u8>, r: Result<(), ()>) -> bool {
    &&& t.len() == s.len()
    &&& match r {
        Ok(_) => forall|k: int| 0 <= k < s.len() / 8 ==> #[trigger] word_encoded(s, little, t, k),
        Err(_) => exists|f: int|
            0 <= f < s.len() / 8 && #[trigger] word_not_encodable(s, little, f) && (forall|k: int|
                0 <= k < f ==> #[trigger] word_encoded(s, little, t, k)) && t.skip(8 * f) == s.skip(
                8 * f,
            ),
    }
}

/// Block `k` of `t` holds the decoding of the word of block `k` of `s`, in the
/// byte order `little`.
pub open spec fn word_decoded(s: Seq<u8>, little: bool, t: Seq<u8>, k: int) -> bool {
    &&& spec_decode(word_of(block(s, k), little)) is Ok
    &&& block(t, k) == bytes_of_word(spec_decode(word_of(block(s, k), little))->Ok_0, little)
}

/// The word of block `k` of `s`, in the byte order `little`, does not decode.
pub open spec fn word_not_decodable(s: Seq<u8>, little: bool, k: int) -> bool {
    spec_decode(word_of(block(s, k), little)) is Err
}

/// `t` and `r` are what decoding the words of `s` in the byte order `little`
/// gives: every block becomes the decoding of its word, or, at the first word
/// that does not decode, decoding stops with an error and that block and all
/// later ones stay as they were.
pub open spec fn decoded_words(s: Seq<u8>, little: bool, t: Seq<u8>, r: Result<(), ()>) -> bool {
    &&& t.len() == s.len()
    &&& match r {
        Ok(_) => forall|k: int| 0 <= k < s.len() / 8 ==> #[trigger] word_decoded(s, little, t, k),
        Err(_) => exists|f: int|
            0 <= f < s.len() / 8 && #[trigger] word_not_decodable(s, little, f) && (forall|k: int|
                0 <= k < f ==> #[trigger] word_decoded(s, little, t, k)) && t.skip(8 * f) == s.skip(
                8 * f,
            ),
    }
}

/// After overwriting block `k`, the blocks before it are unchanged.
proof fn lemma_earlier_blocks(before: Seq<u8>, after: Seq<u8>, chunk: Seq<u8>, k: int, j: int)
    requires
        0 <= j <= k,
        8 * k + 8 <= before.len(),
        chunk.len() == 8,
        after == before.take(8 * k) + chunk + before.skip(8 * k + 8),
    ensures
        j < k ==> block(after, j) == block(before, j),
        block(after, k) == chunk,
{
    if j < k {
        assert(block(after, j) =~= block(before, j));
    }
    assert(block(after, k) =~= chunk);
}

/// Adds Hamming codes to a stream of words held in bytes in the byte order
/// `little`, block by block, stopping with an error at the first word whose
/// check bits are not zero.
pub fn encode_words(data: &mut [u8], little: bool) -> (r: Result<(), ()>)
    requires
        old(data)@.len() % 8 == 0,
    ensures
        encoded_words(old(data)@, little, final(data)@, r),
{
    let ghost s = data@;
    let total = data.len();
    let n = total / 8;
    let mut k: usize = 0;
    while k < n
        invariant
            s == old(data)@,
            data@.len() == total,
            s.len() == total,
            total % 8 == 0,
            n == total / 8,
            k <= n,
            forall|j: int| 0 <= j < k ==> #[trigger] word_encoded(s, little, data@, j),
            data@.skip(8 * k) == s.skip(8 * k),
        decreases n - k,
    {
        assert(8 * k + 8 <= total) by (nonlinear_arith)
            requires
                k < n,
                n == total / 8,
        ;
        let chunk = copy_block_out(data, k);
        assert(chunk@ =~= block(s, k as int)) by {
            assert(block(data@, k as int) =~= data@.skip(8 * k).take(8));
            assert(block(s, k as int) =~= s.skip(8 * k).take(8));
        }
        let word = word_in_block(chunk.as_slice(), little);
        if word & 0x7fu64 != 0 {
            assert(word_not_encodable(s, little, k as int));
            return Err(());
        }
        let code = encode_u64(word);
        let encoded = bytes_in_order(code, little);
        proof {
            lemma_word_round_trip(code, little);
        }
        let ghost before = data@;
        copy_block_in(data, k, &encoded);
        proof {
            assert forall|j: int| 0 <= j < k + 1 implies #[trigger] word_encoded(s, little, data@, j) by {
                if j < k {
                    lemma_earlier_blocks(before, data@, encoded@, k as int, j);
                    assert(word_encoded(s, little, before, j));
                } else {
                    lemma_earlier_blocks(before, data@, encoded@, k as int, k as int);
                }
            }
            assert(data@.skip(8 * k + 8) =~= s.skip(8 * k + 8)) by {
                assert(before.skip(8 * k + 8) =~= before.skip(8 * k).skip(8));
                assert(s.skip(8 * k + 8) =~= s.skip(8 * k).skip(8));
            }
        }
        k = k + 1;
    }
    Ok(())
}

/// Corrects and strips the Hamming codes of a stream of words held in bytes in
/// the byte order `little`, block by block, stopping with an error at the
/// first word that does not decode.
pub fn decode_words(data: &mut [u8], little: bool) -> (r: Result<(), ()>)
    requires
        old(data)@.len() % 8 == 0,
    ensures
        decoded_words(old(data)@, little, final(data)@, r),
{
    let ghost s = data@;
    let total = data.len();
    let n = total / 8;
    let mut k: usize = 0;
    while k < n
        invariant
            s == old(data)@,
            data@.len() == total,
            s.len() == total,
            total % 8 == 0,
            n == total / 8,
            k <= n,
            forall|j: int| 0 <= j < k ==> #[trigger] word_decoded(s, little, data@, j),
            data@.skip(8 * k) == s.skip(8 * k),
        decreases n - k,
    {
        assert(8 * k + 8 <= total) by (nonlinear_arith)
            requires
                k < n,
                n == total / 8,
        ;
        let chunk = copy_block_out(data, k);
        assert(chunk@ =~= block(s, k as int)) by {
            assert(block(data@, k as int) =~= data@.skip(8 * k).take(8));
            assert(block(s, k as int) =~= s.skip(8 * k).take(8));
        }
        let word = word_in_block(chunk.as_slice(), little);
        let decoded = match decode_u64(word) {
            Ok(d) => d,
            Err(e) => {
                assert(word_not_decodable(s, little, k as int));
                return Err(e);
            },
        };
        let bytes = bytes_in_order(decoded, little);
        proof {
            lemma_word_round_trip(decoded, little);
        }
        let ghost before = data@;
        copy_block_in(data, k, &bytes);
        proof {
            assert forall|j: int| 0 <= j < k + 1 implies #[trigger] word_decoded(s, little, data@, j) by {
                if j < k {
                    lemma_earlier_blocks(before, data@, bytes@, k as int, j);
                    assert(word_decoded(s, little, before, j));
                } else {
                    lemma_earlier_blocks(before, data@, bytes@, k as int, k as int);
                }
            }
            assert(data@.skip(8 * k + 8) =~= s.skip(8 * k + 8)) by {
                assert(before.skip(8 * k + 8) =~= before.skip(8 * k).skip(8));
                assert(s.skip(8 * k + 8) =~= s.skip(8 * k).skip(8));
            }
        }
        k = k + 1;
    }
    Ok(())
}

/// Adds Hamming codes to a stream of bytes, treating each block of eight bytes
/// as a word in the machine's byte order. Fails, leaving that block and the
/// later ones unchanged, at the first word whose check bits are not zero.
pub fn encode_bytes(data: &mut [u8]) -> (r: Result<(), ()>)
    requires
        old(data)@.len() % 8 == 0,
    ensures
        encoded_words(old(data)@, machine_little(), final(data)@, r),
{
    let little = native_little_endian();
    encode_words(data, little)
}

/// Corrects and strips the Hamming codes of a stream of bytes, treating each
/// block of eight bytes as a word in the machine's byte order. Fails, leaving
/// that block and the later ones unchanged, at the first word with an error
/// that no single bit explains.
pub fn decode_bytes(data: &mut [u8]) -> (r: Result<(), ()>)
    requires
        old(data)@.len() % 8 == 0,
    ensures
        decoded_words(old(data)@, machine_little(), final(data)@, r),
{
    let little = native_little_endian();
    decode_words(data, little)
}

/// Two streams of whole blocks that agree block by block are equal.
proof fn lemma_blocks_equal(a: Seq<u8>, b: Seq<u8>)
    requires
        a.len() == b.len(),
        a.len() % 8 == 0,
        forall|k: int| 0 <= k < a.len() / 8 ==> #[trigger] block(a, k) == block(b, k),
    ensures
        a == b,
{
    assert forall|i: int| 0 <= i < a.len() implies a[i] == b[i] by {
        let k = i / 8;
        assert(0 <= k < a.len() / 8);
        assert(block(a, k)[i - 8 * k] == a[i]);
        assert(block(b, k)[i - 8 * k] == b[i]);
    }
    assert(a =~= b);
}

/// Decoding, in one byte order, the stream that encoding in that order gave
/// gives back the stream that was encoded.
pub proof fn law_word_stream_round_trip(
    s: Seq<u8>,
    little: bool,
    t: Seq<u8>,
    u: Seq<u8>,
    r: Result<(), ()>,
)
    requires
        s.len() % 8 == 0,
        encoded_words(s, little, t, Ok(())),
        decoded_words(t, little, u, r),
    ensures
        r is Ok,
        u == s,
{
    assert forall|k: int| 0 <= k < t.len() / 8 implies spec_decode(word_of(block(t, k), little))
        == Ok::<u64, ()>(word_of(block(s, k), little)) by {
        assert(word_encoded(s, little, t, k));
        law_decode_codeword(word_of(block(t, k), little), word_of(block(s, k), little));
    }
    if r is Err {
        let f = choose|f: int|
            0 <= f < t.len() / 8 && #[trigger] word_not_decodable(t, little, f) && (forall|k: int|
                0 <= k < f ==> #[trigger] word_decoded(t, little, u, k)) && u.skip(8 * f) == t.skip(
                8 * f,
            );
        assert(spec_decode(word_of(block(t, f), little)) is Ok);
    }
    assert forall|k: int| 0 <= k < u.len() / 8 implies #[trigger] block(u, k) == block(s, k) by {
        assert(word_decoded(t, little, u, k));
        assert(spec_decode(word_of(block(t, k), little)) == Ok::<u64, ()>(word_of(block(s, k), little)));
        lemma_bytes_round_trip(block(s, k), little);
    }
    lemma_blocks_equal(u, s);
}

} // verus!
