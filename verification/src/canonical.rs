//! The codes of the format follow from their lengths.
//!
//! Read in the order in which a stream holds them, the codes of a table go down from all ones: shorter
//! codes come first, and among codes of one length the lower symbol. Together with the fact that
//! every stream starts with exactly one code, this leaves no choice for a code but its length.
use crate::code_words;
use crate::tables::{
    CH_BITS_ASC, CH_CODE_ASC, DIST_BITS, DIST_CODE, LEN_BITS, LEN_CODE,
};
use vstd::prelude::*;

verus! {

/// Each pair of neighbouring bits of a sixteen-bit word, swapped.
pub open spec fn swap_bits(x: u32) -> u32 {
    ((x & 0x5555) << 1) | ((x >> 1) & 0x5555)
}

/// Each pair of neighbouring bit pairs of a sixteen-bit word, swapped.
pub open spec fn swap_pairs(x: u32) -> u32 {
    ((x & 0x3333) << 2) | ((x >> 2) & 0x3333)
}

/// Each pair of neighbouring half bytes of a sixteen-bit word, swapped.
pub open spec fn swap_halves(x: u32) -> u32 {
    ((x & 0x0F0F) << 4) | ((x >> 4) & 0x0F0F)
}

/// A code of up to sixteen bits with the first bit of the stream in the highest place.
pub open spec fn first_bit_highest(code: u32) -> u32 {
    ((swap_halves(swap_pairs(swap_bits(code))) & 0xFF) << 8) | ((swap_halves(
        swap_pairs(swap_bits(code)),
    ) >> 8) & 0xFF)
}

/// The length codes are in canonical order.
pub proof fn law_length_codes_are_canonical(i: int, j: int)
    requires
        0 <= i < 16,
        0 <= j < 16,
        LEN_BITS[i] < LEN_BITS[j] || (LEN_BITS[i] == LEN_BITS[j] && i < j),
    ensures
        first_bit_highest(LEN_CODE[i] as u32) > first_bit_highest(LEN_CODE[j] as u32),
{
    let a = i as u32;
    let b = j as u32;
    code_words::lemma_len_words(a);
    code_words::lemma_len_words(b);
    assert(a < 16 && b < 16 && (code_words::len_bits_of(a) < code_words::len_bits_of(b) || (
    code_words::len_bits_of(a) == code_words::len_bits_of(b) && a < b)) ==> first_bit_highest(
        code_words::len_code_of(a),
    ) > first_bit_highest(code_words::len_code_of(b))) by (bit_vector);
}

/// The distance codes are in canonical order, and a smaller distance never has a longer code.
pub proof fn law_distance_codes_are_canonical(i: int, j: int)
    requires
        0 <= i < j < 64,
    ensures
        DIST_BITS[i] <= DIST_BITS[j],
        first_bit_highest(DIST_CODE[i] as u32) > first_bit_highest(DIST_CODE[j] as u32),
{
    let a = i as u32;
    let b = j as u32;
    code_words::lemma_dist_words(a);
    code_words::lemma_dist_words(b);
    assert(a < b && b < 64 ==> code_words::dist_bits_of(a) <= code_words::dist_bits_of(b)
        && first_bit_highest(code_words::dist_code_of(a)) > first_bit_highest(
        code_words::dist_code_of(b),
    )) by (bit_vector);
}

/// The byte codes of the ASCII mode are in canonical order.
#[verifier::rlimit(60)]
pub proof fn law_byte_codes_are_canonical(i: int, j: int)
    requires
        0 <= i < 256,
        0 <= j < 256,
        CH_BITS_ASC[i] < CH_BITS_ASC[j] || (CH_BITS_ASC[i] == CH_BITS_ASC[j] && i < j),
    ensures
        first_bit_highest(CH_CODE_ASC[i] as u32) > first_bit_highest(CH_CODE_ASC[j] as u32),
{
    let a = i as u32;
    let b = j as u32;
    code_words::lemma_asc_words(a);
    code_words::lemma_asc_words(b);
    assert(a < 256 && b < 256 && (code_words::asc_bits_of(a) < code_words::asc_bits_of(b) || (
    code_words::asc_bits_of(a) == code_words::asc_bits_of(b) && a < b)) ==> first_bit_highest(
        code_words::asc_code_of(a),
    ) > first_bit_highest(code_words::asc_code_of(b))) by (bit_vector);
}

} // verus!
