//! The lookup tables that the decoder builds from the code tables, and what they answer.
use crate::bits;
use crate::code_words;
use crate::codes;
use crate::tables::{
    CH_BITS_ASC, CH_CODE_ASC, DIST_BITS, DIST_CODE, LEN_BITS, LEN_CODE,
};
use vstd::arithmetic::div_mod;
use vstd::arithmetic::mul;
use vstd::arithmetic::power2;
use vstd::prelude::*;

verus! {

/// Stepping from `code` by `2^bits` reaches `x`: the low bits of `x` are `code`.
pub open spec fn reaches(code: nat, bits: nat, x: int) -> bool {
    x >= code && (x - code) % (power2::pow2(bits) as int) == 0
}

/// The last of the first `n` codes that reaches `x`, or `unset` if none does.
pub open spec fn table_entry(codes: Seq<u8>, lengths: Seq<u8>, n: nat, x: int, unset: u8) -> u8
    decreases n,
{
    if n == 0 {
        unset
    } else if reaches(codes[n - 1] as nat, lengths[n - 1] as nat, x) {
        ((n - 1) % 256) as u8
    } else {
        table_entry(codes, lengths, (n - 1) as nat, x, unset)
    }
}

/// How many leading bits of byte `c`'s ASCII code are skipped before the lookup that finds it.
pub open spec fn asc_skip(c: int) -> nat {
    let code = CH_CODE_ASC[c];
    if CH_BITS_ASC[c] <= 8 {
        0
    } else if code % 256 == 0 {
        8
    } else if code % 64 == 0 {
        6
    } else {
        4
    }
}

/// How many bits of byte `c`'s ASCII code are left at the lookup that finds it.
pub open spec fn asc_left(c: int) -> nat {
    (CH_BITS_ASC[c] - asc_skip(c)) as nat
}

/// Byte `c` fills place `x` of the table that is looked up after `skip` bits.
pub open spec fn asc_fills(skip: nat, c: int, x: int) -> bool {
    ||| asc_skip(c) == skip && reaches(
        (CH_CODE_ASC[c] as nat) / power2::pow2(skip),
        asc_left(c),
        x,
    )
    ||| skip == 0 && 0 < asc_skip(c) < 8 && x == CH_CODE_ASC[c] % 256
}

/// What byte `c` puts in the table that is looked up after `skip` bits: itself, or the mark that
/// another lookup is needed.
pub open spec fn asc_mark(skip: nat, c: int) -> u8 {
    if asc_skip(c) == skip {
        c as u8
    } else {
        0xFF
    }
}

/// The entry of the first byte from `c` up that fills place `x`, or `unset` if none does.
pub open spec fn asc_entry(skip: nat, c: int, x: int, unset: u8) -> u8
    decreases 256 - c,
{
    if c >= 256 {
        unset
    } else if asc_fills(skip, c, x) {
        asc_mark(skip, c)
    } else {
        asc_entry(skip, c + 1, x, unset)
    }
}

/// A code below `2^bits` reaches exactly the numbers whose low bits it is.
pub proof fn lemma_reaches(code: nat, bits: nat, x: nat)
    requires
        code < power2::pow2(bits),
    ensures
        reaches(code, bits, x as int) <==> x % power2::pow2(bits) == code,
{
    let m = power2::pow2(bits) as int;
    div_mod::lemma_fundamental_div_mod(x as int, m);
    if x as int % m == code {
        let q = x as int / m;
        mul::lemma_mul_is_commutative(m, q);
        div_mod::lemma_div_pos_is_pos(x as int, m);
        assert(m * q >= 0) by (nonlinear_arith)
            requires
                m > 0,
                q >= 0,
        ;
        div_mod::lemma_mod_multiples_basic(q, m);
    }
    if reaches(code, bits, x as int) {
        let d = x - code;
        div_mod::lemma_fundamental_div_mod(d, m);
        mul::lemma_mul_is_commutative(m, d / m);
        div_mod::lemma_fundamental_div_mod_converse(x as int, m, d / m, code as int);
    }
}

/// If only code `i` reaches `x`, the table entry is `i`.
pub proof fn lemma_table_entry(codes: Seq<u8>, lengths: Seq<u8>, n: nat, x: int, unset: u8, i: int)
    requires
        0 <= i < n <= 256,
        reaches(codes[i] as nat, lengths[i] as nat, x),
        forall|j: int|
            0 <= j < n && #[trigger] reaches(codes[j] as nat, lengths[j] as nat, x) ==> j == i,
    ensures
        table_entry(codes, lengths, n, x, unset) == i,
    decreases n,
{
    if n - 1 != i {
        assert(!reaches(codes[n - 1] as nat, lengths[n - 1] as nat, x));
        lemma_table_entry(codes, lengths, (n - 1) as nat, x, unset, i);
    }
}

/// The length table answers with the length code that a stream starts with.
pub proof fn lemma_len_lookup(v: nat, unset: u8) -> (i: int)
    ensures
        0 <= i < 16,
        codes::begins_len(v, i),
        forall|j: int| 0 <= j < 16 && codes::begins_len(v, j) ==> j == i,
        table_entry(LEN_CODE@, LEN_BITS@, 16, (v % 256) as int, unset) == i,
{
    let i = codes::lemma_len_at(v);
    let x = v % 256;
    power2::lemma2_to64();
    assert forall|j: int| 0 <= j < 16 implies (#[trigger] reaches(
        LEN_CODE@[j] as nat,
        LEN_BITS@[j] as nat,
        x as int,
    ) <==> codes::begins_len(v, j)) by {
        codes::lemma_len_fits(j);
        lemma_reaches(LEN_CODE[j] as nat, LEN_BITS[j] as nat, x);
        bits::lemma_low_of_low(v, LEN_BITS[j] as nat, 8);
    }
    assert(reaches(LEN_CODE@[i] as nat, LEN_BITS@[i] as nat, x as int));
    lemma_table_entry(LEN_CODE@, LEN_BITS@, 16, x as int, unset, i);
    i
}

/// A distance code fits in its length.
pub proof fn lemma_dist_fits(i: int)
    requires
        0 <= i < 64,
    ensures
        DIST_CODE[i] < power2::pow2(DIST_BITS[i] as nat),
        2 <= DIST_BITS[i] <= 8,
{
    let c = i as u32;
    code_words::lemma_dist_words(c);
    assert(c < 64 ==> code_words::starts_with(
        code_words::dist_code_of(c),
        code_words::dist_code_of(c),
        code_words::dist_bits_of(c),
    )) by (bit_vector);
    code_words::lemma_starts_with(
        code_words::dist_code_of(c),
        code_words::dist_code_of(c),
        code_words::dist_bits_of(c),
    );
    power2::lemma_pow2_pos(DIST_BITS[i] as nat);
    div_mod::lemma_mod_bound(DIST_CODE[i] as int, power2::pow2(DIST_BITS[i] as nat) as int);
}

/// The distance table answers with the distance code that a stream starts with.
pub proof fn lemma_dist_lookup(v: nat, unset: u8)
    ensures
        table_entry(DIST_CODE@, DIST_BITS@, 64, (v % 256) as int, unset) == codes::dist_at(v),
{
    codes::lemma_dist_at(v);
    let i = codes::dist_at(v);
    let x = v % 256;
    power2::lemma2_to64();
    assert forall|j: int| 0 <= j < 64 implies (#[trigger] reaches(
        DIST_CODE@[j] as nat,
        DIST_BITS@[j] as nat,
        x as int,
    ) <==> codes::begins_dist(v, j)) by {
        lemma_dist_fits(j);
        lemma_reaches(DIST_CODE[j] as nat, DIST_BITS[j] as nat, x);
        bits::lemma_low_of_low(v, DIST_BITS[j] as nat, 8);
    }
    assert(reaches(DIST_CODE@[i] as nat, DIST_BITS@[i] as nat, x as int));
    lemma_table_entry(DIST_CODE@, DIST_BITS@, 64, x as int, unset, i);
}

/// The shape of the ASCII codes: each fits in its length; a short one is not zero and not that of
/// the mark; the skipped bits of a long one are clear, and at most eight bits follow them, or
/// seven after six.
pub proof fn lemma_asc_shape(c: int)
    requires
        0 <= c < 256,
    ensures
        4 <= CH_BITS_ASC[c] <= 13,
        CH_CODE_ASC[c] < power2::pow2(CH_BITS_ASC[c] as nat),
        asc_skip(c) <= CH_BITS_ASC[c],
        1 <= asc_left(c) <= 8,
        asc_skip(c) == 0 ==> CH_CODE_ASC[c] != 0 && c != 0xFF,
        CH_CODE_ASC[c] as nat % power2::pow2(asc_skip(c)) == 0,
        asc_skip(c) == 6 ==> asc_left(c) <= 7,
        asc_skip(c) == 4 ==> CH_CODE_ASC[c] % 64 != 0 && CH_CODE_ASC[c] % 256 != 0,
        asc_skip(c) == 6 ==> CH_CODE_ASC[c] % 64 == 0 && CH_CODE_ASC[c] % 256 != 0,
        asc_skip(c) == 8 ==> CH_CODE_ASC[c] % 256 == 0,
{
    let w = c as u32;
    code_words::lemma_asc_words(w);
    let b = code_words::asc_bits_of(w);
    let k = code_words::asc_code_of(w);
    assert(w < 256 ==> code_words::starts_with(
        code_words::asc_code_of(w),
        code_words::asc_code_of(w),
        code_words::asc_bits_of(w),
    )) by (bit_vector);
    code_words::lemma_starts_with(k, k, b);
    power2::lemma_pow2_pos(b as nat);
    div_mod::lemma_mod_bound(k as int, power2::pow2(b as nat) as int);
    assert(w < 256 ==> (code_words::asc_bits_of(w) <= 8 ==> code_words::asc_code_of(w) != 0 && w
        != 255) && (code_words::asc_bits_of(w) > 8 && code_words::asc_code_of(w) % 64 != 0
        ==> code_words::asc_code_of(w) % 16 == 0 && code_words::asc_bits_of(w) <= 12))
        by (bit_vector);
    power2::lemma2_to64();
}

/// A byte fills place `x` behind its skipped bits exactly where a stream with those bits clear
/// starts with its code.
proof fn lemma_asc_fills(w: nat, skip: nat, c: int, width: nat)
    requires
        0 <= c < 256,
        asc_skip(c) == skip,
        w % power2::pow2(skip) == 0,
        asc_left(c) <= width,
    ensures
        reaches(
            (CH_CODE_ASC[c] as nat) / power2::pow2(skip),
            asc_left(c),
            ((w / power2::pow2(skip)) % power2::pow2(width)) as int,
        ) <==> codes::begins_asc(w, c),
{
    let code = CH_CODE_ASC[c] as nat;
    let m = power2::pow2(skip);
    let rest = code / m;
    let x = (w / m) % power2::pow2(width);
    lemma_asc_shape(c);
    power2::lemma_pow2_pos(skip);
    bits::lemma_div_bound(code, skip, CH_BITS_ASC[c] as nat);
    div_mod::lemma_fundamental_div_mod(code as int, m as int);
    assert(code == 0 + m * rest);
    lemma_reaches(rest, asc_left(c), x);
    bits::lemma_low_of_low(w / m, asc_left(c), width);
    codes::lemma_joined(w, 0, skip, rest, asc_left(c));
    assert(skip + asc_left(c) == CH_BITS_ASC[c]);
}

/// The entry found from `c` up is `value` if every byte that fills the place gives `value` and
/// one from `c` up does.
proof fn lemma_asc_entry(skip: nat, c: int, x: int, unset: u8, hit: int, value: u8)
    requires
        0 <= c <= hit < 256,
        asc_fills(skip, hit, x),
        forall|j: int| 0 <= j < 256 && #[trigger] asc_fills(skip, j, x) ==> asc_mark(skip, j) == value,
    ensures
        asc_entry(skip, c, x, unset) == value,
    decreases 256 - c,
{
    if c < hit && !asc_fills(skip, c, x) {
        lemma_asc_entry(skip, c + 1, x, unset, hit, value);
    }
}

/// What the tables of the ASCII mode answer for a stream `w` that starts with the code of `c`.
pub proof fn lemma_asc_lookup(w: nat, c: int)
    requires
        0 <= c < 256,
        codes::begins_asc(w, c),
    ensures
        asc_skip(c) < 8 ==> w % 256 != 0 && asc_entry(0, 0, (w % 256) as int, 0) == asc_mark(0, c),
        asc_skip(c) == 0 ==> c != 0xFF,
        asc_skip(c) == 4 ==> w % 64 != 0 && asc_entry(4, 0, ((w / 16) % 256) as int, 0) == c,
        asc_skip(c) == 6 ==> w % 64 == 0 && asc_entry(6, 0, ((w / 64) % 128) as int, 0) == c,
        asc_skip(c) == 8 ==> w % 256 == 0 && asc_entry(8, 0, ((w / 256) % 256) as int, 0) == c,
{
    lemma_asc_shape(c);
    power2::lemma2_to64();
    codes::lemma_asc_at(w);
    let code = CH_CODE_ASC[c] as nat;
    let b = CH_BITS_ASC[c] as nat;
    let s = asc_skip(c);
    bits::lemma_low_of_low(w, s, b);
    assert(w % power2::pow2(s) == 0);
    if s == 0 {
        bits::lemma_low_of_low(w, b, 8);
        if w % 256 == 0 {
            div_mod::lemma_small_mod(0, power2::pow2(b));
            assert(false);
        }
    } else {
        bits::lemma_low_of_low(w, 8, b);
        bits::lemma_low_of_low(w, 6, b);
        assert(w % 256 == code % 256);
        assert(w % 64 == code % 64);
    }
    if s < 8 {
        let x = (w % 256) as int;
        assert(w / power2::pow2(0) == w);
        assert(asc_fills(0, c, x)) by {
            if s == 0 {
                lemma_asc_fills(w, 0, c, 8);
            }
        }
        assert forall|j: int| 0 <= j < 256 && #[trigger] asc_fills(0, j, x) implies asc_mark(0, j)
            == asc_mark(0, c) by {
            lemma_asc_shape(j);
            if asc_skip(j) == 0 {
                lemma_asc_fills(w, 0, j, 8);
            } else if s == 0 {
                let cj = CH_CODE_ASC[j] as nat;
                bits::lemma_low_of_low(cj, b, 8);
                div_mod::lemma_small_mod(cj, power2::pow2(CH_BITS_ASC[j] as nat));
                assert(codes::begins_asc(cj, j));
                assert(codes::begins_asc(cj, c));
                codes::lemma_asc_at(cj);
                assert(j == c);
            }
        }
        lemma_asc_entry(0, 0, x, 0, c, asc_mark(0, c));
    }
    if s > 0 {
        let width: nat = if s == 6 { 7 } else { 8 };
        let x = ((w / power2::pow2(s)) % power2::pow2(width)) as int;
        lemma_asc_fills(w, s, c, width);
        assert forall|j: int| 0 <= j < 256 && #[trigger] asc_fills(s, j, x) implies asc_mark(s, j)
            == c as u8 by {
            lemma_asc_shape(j);
            lemma_asc_fills(w, s, j, width);
        }
        lemma_asc_entry(s, 0, x, 0, c, c as u8);
    }
}

} // verus!
