//! The codes of a stream and what they stand for.
//!
//! A stream is a sequence of symbols. A symbol below 256 is a literal byte; a symbol from 256
//! up to `SYMBOLS - 2` is a repetition length, followed by a distance; the last one ends
//! the stream.
use crate::code_words;
use crate::common::CompressionMode;
use crate::tables::{
    CH_BITS_ASC, CH_CODE_ASC, DIST_BITS, DIST_CODE, EX_LEN_BITS, LEN_BASE, LEN_BITS, LEN_CODE,
};
use vstd::arithmetic::div_mod;
use vstd::arithmetic::power2;
use vstd::prelude::*;

verus! {

/// The number of symbols.
pub const SYMBOLS: usize = 0x306;

/// The bits of `v` start with the code `code` of length `bits`.
pub open spec fn begins(v: nat, code: nat, bits: nat) -> bool {
    v % power2::pow2(bits) == code
}

/// The bits of `v` start with the length code of index `i`.
pub open spec fn begins_len(v: nat, i: int) -> bool {
    begins(v, LEN_CODE[i] as nat, LEN_BITS[i] as nat)
}

/// The bits of `v` start with the distance code of index `i`.
pub open spec fn begins_dist(v: nat, i: int) -> bool {
    begins(v, DIST_CODE[i] as nat, DIST_BITS[i] as nat)
}

/// The bits of `v` start with the ASCII mode's code of byte `c`.
pub open spec fn begins_asc(v: nat, c: int) -> bool {
    begins(v, CH_CODE_ASC[c] as nat, CH_BITS_ASC[c] as nat)
}

/// The length code whose range holds `k`.
pub open spec fn length_index(k: int) -> int {
    if k < 8 {
        k
    } else if k < 0x0A {
        8
    } else if k < 0x0E {
        9
    } else if k < 0x16 {
        10
    } else if k < 0x26 {
        11
    } else if k < 0x46 {
        12
    } else if k < 0x86 {
        13
    } else if k < 0x106 {
        14
    } else {
        15
    }
}

/// The code length of symbol `n`.
pub open spec fn symbol_bits(mode: CompressionMode, n: int) -> nat {
    if n < 0x100 {
        match mode {
            CompressionMode::Binary => 9,
            CompressionMode::ASCII => CH_BITS_ASC[n] as nat + 1,
        }
    } else {
        let i = length_index(n - 0x100);
        1 + LEN_BITS[i] as nat + EX_LEN_BITS[i] as nat
    }
}

/// The code of symbol `n`: a flag bit, clear for a literal and set for a length; then the byte,
/// verbatim or by its ASCII code, or the length code and its verbatim bits.
pub open spec fn symbol_code(mode: CompressionMode, n: int) -> nat {
    if n < 0x100 {
        match mode {
            CompressionMode::Binary => (2 * n) as nat,
            CompressionMode::ASCII => (2 * CH_CODE_ASC[n]) as nat,
        }
    } else {
        let i = length_index(n - 0x100);
        (1 + 2 * (LEN_CODE[i] + power2::pow2(LEN_BITS[i] as nat) * (n - 0x100 - LEN_BASE[i]))) as nat
    }
}

/// The bits of `v` start with the code of symbol `n`.
pub open spec fn begins_symbol(mode: CompressionMode, v: nat, n: int) -> bool {
    begins(v, symbol_code(mode, n), symbol_bits(mode, n))
}

/// The symbol that the bits of `v` start with.
pub open spec fn symbol_at(mode: CompressionMode, v: nat) -> int {
    choose|n: int| 0 <= n < SYMBOLS && #[trigger] begins_symbol(mode, v, n)
}

/// The index of the distance code that the bits of `v` start with.
pub open spec fn dist_at(v: nat) -> int {
    choose|i: int| 0 <= i < 64 && #[trigger] begins_dist(v, i)
}

/// The byte whose ASCII code the bits of `v` start with.
pub open spec fn asc_at(v: nat) -> int {
    choose|c: int| 0 <= c < 256 && #[trigger] begins_asc(v, c)
}

/// The number of low distance bits that are stored verbatim behind the distance code.
pub open spec fn low_distance_bits(length: int, dict_bits: nat) -> nat {
    if length == 2 {
        2
    } else {
        dict_bits
    }
}

/// How many bits the distance takes that the bits of `v` start with.
pub open spec fn distance_bits(v: nat, low: nat) -> nat {
    DIST_BITS[dist_at(v)] as nat + low
}

/// The distance that the bits of `v` start with: a distance code for the upper bits and `low`
/// verbatim bits, which together hold the distance less one.
pub open spec fn distance_at(v: nat, low: nat) -> nat {
    let i = dist_at(v);
    (i * power2::pow2(low) + (v / power2::pow2(DIST_BITS[i] as nat)) % power2::pow2(low) + 1) as nat
}

/// A word holds enough of a stream to tell its first code.
proof fn lemma_word(v: nat, code: u32, bits: u32)
    requires
        bits <= 16,
    ensures
        begins(v, code as nat, bits as nat) <==> code_words::starts_with(
            (v % 65536) as u32,
            code,
            bits,
        ),
{
    let x = (v % 65536) as u32;
    code_words::lemma_starts_with(x, code, bits);
    power2::lemma2_to64();
    crate::bits::lemma_low_of_low(v, bits as nat, 16);
}

/// Every stream starts with exactly one length code.
pub proof fn lemma_len_at(v: nat) -> (i: int)
    ensures
        0 <= i < 16,
        begins_len(v, i),
        forall|j: int| 0 <= j < 16 && begins_len(v, j) ==> j == i,
{
    let x = (v % 65536) as u32;
    let c = code_words::lemma_len_complete(x);
    code_words::lemma_len_words(c);
    lemma_word(v, code_words::len_code_of(c), code_words::len_bits_of(c));
    assert forall|j: int| 0 <= j < 16 && begins_len(v, j) implies j == c by {
        let k = j as u32;
        code_words::lemma_len_words(k);
        lemma_word(v, code_words::len_code_of(k), code_words::len_bits_of(k));
        code_words::lemma_len_prefix_free(x, c, k);
    }
    c as int
}

/// Every stream starts with exactly one distance code.
pub proof fn lemma_dist_at(v: nat)
    ensures
        0 <= dist_at(v) < 64,
        begins_dist(v, dist_at(v)),
        forall|j: int| 0 <= j < 64 && begins_dist(v, j) ==> j == dist_at(v),
{
    let x = (v % 65536) as u32;
    let c = code_words::lemma_dist_complete(x);
    code_words::lemma_dist_words(c);
    lemma_word(v, code_words::dist_code_of(c), code_words::dist_bits_of(c));
    assert(begins_dist(v, c as int));
    assert forall|j: int| 0 <= j < 64 && begins_dist(v, j) implies j == c by {
        let k = j as u32;
        code_words::lemma_dist_words(k);
        lemma_word(v, code_words::dist_code_of(k), code_words::dist_bits_of(k));
        code_words::lemma_dist_prefix_free(x, c, k);
    }
}

/// Every stream starts with exactly one byte code of the ASCII mode.
pub proof fn lemma_asc_at(v: nat)
    ensures
        0 <= asc_at(v) < 256,
        begins_asc(v, asc_at(v)),
        forall|j: int| 0 <= j < 256 && begins_asc(v, j) ==> j == asc_at(v),
{
    let x = (v % 65536) as u32;
    let c = code_words::lemma_asc_complete(x);
    code_words::lemma_asc_words(c);
    lemma_word(v, code_words::asc_code_of(c), code_words::asc_bits_of(c));
    assert(begins_asc(v, c as int));
    assert forall|j: int| 0 <= j < 256 && begins_asc(v, j) implies j == c by {
        let k = j as u32;
        code_words::lemma_asc_words(k);
        lemma_word(v, code_words::asc_code_of(k), code_words::asc_bits_of(k));
        code_words::lemma_asc_prefix_free(x, c, k);
    }
}

/// The verbatim bits of a length code reach to the next length code's base.
pub proof fn lemma_length_index(k: int)
    requires
        0 <= k < 0x206,
    ensures
        ({
            let i = length_index(k);
            &&& 0 <= i < 16
            &&& LEN_BASE[i] <= k < LEN_BASE[i] + power2::pow2(EX_LEN_BITS[i] as nat)
            &&& EX_LEN_BITS[i] <= 8
            &&& 2 <= LEN_BITS[i] <= 7
        }),
{
    power2::lemma2_to64();
}

/// A value in a length code's range belongs to that code alone.
pub proof fn lemma_length_index_of(i: int, e: int)
    requires
        0 <= i < 16,
        0 <= e < power2::pow2(EX_LEN_BITS[i] as nat),
    ensures
        0 <= LEN_BASE[i] + e < 0x206,
        length_index(LEN_BASE[i] + e) == i,
{
    power2::lemma2_to64();
}

/// A number is one low bit and one rest.
proof fn lemma_parity(a: nat, b: nat, c: nat, d: nat)
    requires
        a < 2,
        c < 2,
        a + 2 * b == c + 2 * d,
    ensures
        a == c,
        b == d,
{
}

/// `code` and `bits` behind a flag bit.
proof fn lemma_flagged(v: nat, flag: nat, code: nat, bits: nat)
    requires
        flag < 2,
    ensures
        begins(v, flag + 2 * code, 1 + bits) <==> v % 2 == flag && begins(v / 2, code, bits),
{
    power2::lemma2_to64();
    crate::bits::lemma_low_sum(v, 1, bits);
    assert(v % power2::pow2(1) == v % 2);
    assert(v / power2::pow2(1) == v / 2);
    let high = (v / 2) % power2::pow2(bits);
    assert(power2::pow2(1) * high == 2 * high) by (nonlinear_arith)
        requires
            power2::pow2(1) == 2,
    ;
    assert(v % power2::pow2(1 + bits) == v % 2 + 2 * high);
    if v % 2 + 2 * high == flag + 2 * code {
        lemma_parity(v % 2, high, flag, code);
    }
}

/// `code` of `bits` bits, followed by `extra` of `more` bits.
pub proof fn lemma_joined(v: nat, code: nat, bits: nat, extra: nat, more: nat)
    requires
        code < power2::pow2(bits),
    ensures
        begins(v, code + power2::pow2(bits) * extra, bits + more) <==> begins(v, code, bits)
            && begins(v / power2::pow2(bits), extra, more),
{
    let m = power2::pow2(bits);
    power2::lemma_pow2_pos(bits);
    crate::bits::lemma_low_sum(v, bits, more);
    let hi = (v / m) % power2::pow2(more);
    div_mod::lemma_mod_bound(v as int, m as int);
    if v % m + m * hi == code + m * extra {
        crate::bits::lemma_split((v % m) as nat, bits, hi);
        crate::bits::lemma_split(code, bits, extra);
    }
}

/// A literal's code in the binary mode.
pub proof fn lemma_begins_binary(v: nat, n: int)
    requires
        0 <= n < 0x100,
    ensures
        begins_symbol(CompressionMode::Binary, v, n) <==> v % 2 == 0 && (v / 2) % 256 == n,
{
    power2::lemma2_to64();
    lemma_flagged(v, 0, n as nat, 8);
}

/// A literal's code in the ASCII mode.
pub proof fn lemma_begins_ascii(v: nat, n: int)
    requires
        0 <= n < 0x100,
    ensures
        begins_symbol(CompressionMode::ASCII, v, n) <==> v % 2 == 0 && begins_asc(v / 2, n),
{
    lemma_flagged(v, 0, CH_CODE_ASC[n] as nat, CH_BITS_ASC[n] as nat);
}

/// A length's code.
pub proof fn lemma_begins_length(mode: CompressionMode, v: nat, n: int)
    requires
        0x100 <= n < SYMBOLS,
    ensures
        ({
            let i = length_index(n - 0x100);
            begins_symbol(mode, v, n) <==> v % 2 == 1 && begins_len(v / 2, i) && begins(
                (v / 2) / power2::pow2(LEN_BITS[i] as nat),
                (n - 0x100 - LEN_BASE[i]) as nat,
                EX_LEN_BITS[i] as nat,
            )
        }),
{
    let k = n - 0x100;
    let i = length_index(k);
    lemma_length_index(k);
    let e = (k - LEN_BASE[i]) as nat;
    let c = LEN_CODE[i] as nat;
    let b = LEN_BITS[i] as nat;
    let x = EX_LEN_BITS[i] as nat;
    lemma_len_fits(i);
    let joined = c + power2::pow2(b) * e;
    lemma_flagged(v, 1, joined, b + x);
    lemma_joined(v / 2, c, b, e, x);
    assert(symbol_bits(mode, n) == 1 + (b + x));
    assert(symbol_code(mode, n) == 1 + 2 * joined);
}

/// A length code fits in its length.
pub proof fn lemma_len_fits(i: int)
    requires
        0 <= i < 16,
    ensures
        LEN_CODE[i] < power2::pow2(LEN_BITS[i] as nat),
        2 <= LEN_BITS[i] <= 7,
{
    power2::lemma2_to64();
}

/// Every stream starts with exactly one symbol: the codes of a mode are complete and
/// prefix-free.
pub proof fn lemma_symbol_at(mode: CompressionMode, v: nat)
    ensures
        0 <= symbol_at(mode, v) < SYMBOLS,
        begins_symbol(mode, v, symbol_at(mode, v)),
        forall|n: int| 0 <= n < SYMBOLS && begins_symbol(mode, v, n) ==> n == symbol_at(mode, v),
{
    let w = v / 2;
    if v % 2 == 0 {
        assert forall|n: int| 0x100 <= n < SYMBOLS implies !begins_symbol(mode, v, n) by {
            lemma_begins_length(mode, v, n);
        }
        match mode {
            CompressionMode::Binary => {
                let c = (w % 256) as int;
                lemma_begins_binary(v, c);
                assert(begins_symbol(mode, v, c));
                assert forall|n: int| 0 <= n < SYMBOLS && begins_symbol(mode, v, n) implies n
                    == c by {
                    if n < 0x100 {
                        lemma_begins_binary(v, n);
                    }
                }
            },
            CompressionMode::ASCII => {
                let c = asc_at(w);
                lemma_asc_at(w);
                lemma_begins_ascii(v, c);
                assert(begins_symbol(mode, v, c));
                assert forall|n: int| 0 <= n < SYMBOLS && begins_symbol(mode, v, n) implies n
                    == c by {
                    if n < 0x100 {
                        lemma_begins_ascii(v, n);
                    }
                }
            },
        }
    } else {
        let i = lemma_len_at(w);
        let m = power2::pow2(LEN_BITS[i] as nat);
        let x = power2::pow2(EX_LEN_BITS[i] as nat);
        power2::lemma_pow2_pos(EX_LEN_BITS[i] as nat);
        let e = (w / m) % x;
        lemma_length_index_of(i, e as int);
        let c = 0x100 + LEN_BASE[i] + e;
        lemma_begins_length(mode, v, c);
        assert(begins_symbol(mode, v, c));
        assert forall|n: int| 0 <= n < SYMBOLS && begins_symbol(mode, v, n) implies n == c by {
            if n < 0x100 {
                match mode {
                    CompressionMode::Binary => lemma_begins_binary(v, n),
                    CompressionMode::ASCII => lemma_begins_ascii(v, n),
                }
            } else {
                lemma_begins_length(mode, v, n);
                lemma_length_index(n - 0x100);
            }
        }
    }
}

} // verus!
