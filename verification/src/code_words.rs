//! Prefix-freeness and completeness of the fixed code tables.
//!
//! The facts are about finitely many codes of at most thirteen bits. They are stated here on
//! machine words, with the tables as functions, where the bit-vector prover decides them.
use crate::tables::{CH_BITS_ASC, CH_CODE_ASC, DIST_BITS, DIST_CODE, LEN_BITS, LEN_CODE};
use vstd::arithmetic::div_mod;
use vstd::arithmetic::power2;
use vstd::bits;
use vstd::prelude::*;

verus! {

/// The `k`-th of sixteen values.
pub open spec fn pick(
    k: u32,
    v0: u32, v1: u32, v2: u32, v3: u32, v4: u32, v5: u32, v6: u32, v7: u32,
    v8: u32, v9: u32, v10: u32, v11: u32, v12: u32, v13: u32, v14: u32, v15: u32,
) -> u32 {
    if k < 8 {
        if k < 4 {
            if k < 2 {
                if k < 1 { v0 } else { v1 }
            } else {
                if k < 3 { v2 } else { v3 }
            }
        } else {
            if k < 6 {
                if k < 5 { v4 } else { v5 }
            } else {
                if k < 7 { v6 } else { v7 }
            }
        }
    } else {
        if k < 12 {
            if k < 10 {
                if k < 9 { v8 } else { v9 }
            } else {
                if k < 11 { v10 } else { v11 }
            }
        } else {
            if k < 14 {
                if k < 13 { v12 } else { v13 }
            } else {
                if k < 15 { v14 } else { v15 }
            }
        }
    }
}

/// `LEN_BITS` as a function on words.
pub open spec fn len_bits_of(c: u32) -> u32 {
    pick(c, 3, 2, 3, 3, 4, 4, 4, 5, 5, 5, 5, 6, 6, 6, 7, 7)
}

/// `LEN_CODE` as a function on words.
pub open spec fn len_code_of(c: u32) -> u32 {
    pick(c, 0x05, 0x03, 0x01, 0x06, 0x0A, 0x02, 0x0C, 0x14, 0x04, 0x18, 0x08, 0x30, 0x10, 0x20, 0x40, 0x00)
}

/// `DIST_BITS` as a function on words.
pub open spec fn dist_bits_of(c: u32) -> u32 {
    if c < 0x10 {
        pick(
            (c - 0x00) as u32, 2, 4, 4, 5, 5, 5, 5, 6, 6, 6, 6, 6, 6, 6, 6, 6,
        )
    } else if c < 0x20 {
        pick(
            (c - 0x10) as u32, 6, 6, 6, 6, 6, 6, 7, 7, 7, 7, 7, 7, 7, 7, 7, 7,
        )
    } else if c < 0x30 {
        7
    } else {
        8
    }
}

/// `DIST_CODE` as a function on words.
pub open spec fn dist_code_of(c: u32) -> u32 {
    if c < 0x10 {
        pick(
            (c - 0x00) as u32,
            0x03, 0x0D, 0x05, 0x19, 0x09, 0x11, 0x01, 0x3E,
            0x1E, 0x2E, 0x0E, 0x36, 0x16, 0x26, 0x06, 0x3A,
        )
    } else if c < 0x20 {
        pick(
            (c - 0x10) as u32,
            0x1A, 0x2A, 0x0A, 0x32, 0x12, 0x22, 0x42, 0x02,
            0x7C, 0x3C, 0x5C, 0x1C, 0x6C, 0x2C, 0x4C, 0x0C,
        )
    } else if c < 0x30 {
        pick(
            (c - 0x20) as u32,
            0x74, 0x34, 0x54, 0x14, 0x64, 0x24, 0x44, 0x04,
            0x78, 0x38, 0x58, 0x18, 0x68, 0x28, 0x48, 0x08,
        )
    } else {
        pick(
            (c - 0x30) as u32,
            0xF0, 0x70, 0xB0, 0x30, 0xD0, 0x50, 0x90, 0x10,
            0xE0, 0x60, 0xA0, 0x20, 0xC0, 0x40, 0x80, 0x00,
        )
    }
}

/// `CH_BITS_ASC` as a function on words.
pub open spec fn asc_bits_of(c: u32) -> u32 {
    if c < 0x10 {
        pick(
            (c - 0x00) as u32, 11, 12, 12, 12, 12, 12, 12, 12, 12, 8, 7, 12, 12, 7, 12, 12,
        )
    } else if c < 0x20 {
        pick(
            (c - 0x10) as u32, 12, 12, 12, 12, 12, 12, 12, 12, 12, 12, 13, 12, 12, 12, 12, 12,
        )
    } else if c < 0x30 {
        pick(
            (c - 0x20) as u32, 4, 10, 8, 12, 10, 12, 10, 8, 7, 7, 8, 9, 7, 6, 7, 8,
        )
    } else if c < 0x40 {
        pick(
            (c - 0x30) as u32, 7, 6, 7, 7, 7, 7, 8, 7, 7, 8, 8, 12, 11, 7, 9, 11,
        )
    } else if c < 0x50 {
        pick(
            (c - 0x40) as u32, 12, 6, 7, 6, 6, 5, 7, 8, 8, 6, 11, 9, 6, 7, 6, 6,
        )
    } else if c < 0x60 {
        pick(
            (c - 0x50) as u32, 7, 11, 6, 6, 6, 7, 9, 8, 9, 9, 11, 8, 11, 9, 12, 8,
        )
    } else if c < 0x70 {
        pick(
            (c - 0x60) as u32, 12, 5, 6, 6, 6, 5, 6, 6, 6, 5, 11, 7, 5, 6, 5, 5,
        )
    } else if c < 0x80 {
        pick(
            (c - 0x70) as u32, 6, 10, 5, 5, 5, 5, 8, 7, 8, 8, 10, 11, 11, 12, 12, 12,
        )
    } else if c < 0x90 {
        13
    } else if c < 0xA0 {
        13
    } else if c < 0xB0 {
        13
    } else if c < 0xC0 {
        12
    } else if c < 0xD0 {
        12
    } else if c < 0xE0 {
        12
    } else if c < 0xF0 {
        pick(
            (c - 0xE0) as u32, 13, 12, 13, 13, 13, 12, 13, 13, 13, 12, 13, 13, 13, 13, 12, 13,
        )
    } else {
        pick(
            (c - 0xF0) as u32, 13, 13, 12, 12, 12, 13, 13, 13, 13, 13, 13, 13, 13, 13, 13, 13,
        )
    }
}

/// `CH_CODE_ASC` as a function on words.
pub open spec fn asc_code_of(c: u32) -> u32 {
    if c < 0x10 {
        pick(
            (c - 0x00) as u32,
            0x0490, 0x0FE0, 0x07E0, 0x0BE0, 0x03E0, 0x0DE0, 0x05E0, 0x09E0,
            0x01E0, 0x00B8, 0x0062, 0x0EE0, 0x06E0, 0x0022, 0x0AE0, 0x02E0,
        )
    } else if c < 0x20 {
        pick(
            (c - 0x10) as u32,
            0x0CE0, 0x04E0, 0x08E0, 0x00E0, 0x0F60, 0x0760, 0x0B60, 0x0360,
            0x0D60, 0x0560, 0x1240, 0x0960, 0x0160, 0x0E60, 0x0660, 0x0A60,
        )
    } else if c < 0x30 {
        pick(
            (c - 0x20) as u32,
            0x000F, 0x0250, 0x0038, 0x0260, 0x0050, 0x0C60, 0x0390, 0x00D8,
            0x0042, 0x0002, 0x0058, 0x01B0, 0x007C, 0x0029, 0x003C, 0x0098,
        )
    } else if c < 0x40 {
        pick(
            (c - 0x30) as u32,
            0x005C, 0x0009, 0x001C, 0x006C, 0x002C, 0x004C, 0x0018, 0x000C,
            0x0074, 0x00E8, 0x0068, 0x0460, 0x0090, 0x0034, 0x00B0, 0x0710,
        )
    } else if c < 0x50 {
        pick(
            (c - 0x40) as u32,
            0x0860, 0x0031, 0x0054, 0x0011, 0x0021, 0x0017, 0x0014, 0x00A8,
            0x0028, 0x0001, 0x0310, 0x0130, 0x003E, 0x0064, 0x001E, 0x002E,
        )
    } else if c < 0x60 {
        pick(
            (c - 0x50) as u32,
            0x0024, 0x0510, 0x000E, 0x0036, 0x0016, 0x0044, 0x0030, 0x00C8,
            0x01D0, 0x00D0, 0x0110, 0x0048, 0x0610, 0x0150, 0x0060, 0x0088,
        )
    } else if c < 0x70 {
        pick(
            (c - 0x60) as u32,
            0x0FA0, 0x0007, 0x0026, 0x0006, 0x003A, 0x001B, 0x001A, 0x002A,
            0x000A, 0x000B, 0x0210, 0x0004, 0x0013, 0x0032, 0x0003, 0x001D,
        )
    } else if c < 0x80 {
        pick(
            (c - 0x70) as u32,
            0x0012, 0x0190, 0x000D, 0x0015, 0x0005, 0x0019, 0x0008, 0x0078,
            0x00F0, 0x0070, 0x0290, 0x0410, 0x0010, 0x07A0, 0x0BA0, 0x03A0,
        )
    } else if c < 0x90 {
        pick(
            (c - 0x80) as u32,
            0x0240, 0x1C40, 0x0C40, 0x1440, 0x0440, 0x1840, 0x0840, 0x1040,
            0x0040, 0x1F80, 0x0F80, 0x1780, 0x0780, 0x1B80, 0x0B80, 0x1380,
        )
    } else if c < 0xA0 {
        pick(
            (c - 0x90) as u32,
            0x0380, 0x1D80, 0x0D80, 0x1580, 0x0580, 0x1980, 0x0980, 0x1180,
            0x0180, 0x1E80, 0x0E80, 0x1680, 0x0680, 0x1A80, 0x0A80, 0x1280,
        )
    } else if c < 0xB0 {
        pick(
            (c - 0xA0) as u32,
            0x0280, 0x1C80, 0x0C80, 0x1480, 0x0480, 0x1880, 0x0880, 0x1080,
            0x0080, 0x1F00, 0x0F00, 0x1700, 0x0700, 0x1B00, 0x0B00, 0x1300,
        )
    } else if c < 0xC0 {
        pick(
            (c - 0xB0) as u32,
            0x0DA0, 0x05A0, 0x09A0, 0x01A0, 0x0EA0, 0x06A0, 0x0AA0, 0x02A0,
            0x0CA0, 0x04A0, 0x08A0, 0x00A0, 0x0F20, 0x0720, 0x0B20, 0x0320,
        )
    } else if c < 0xD0 {
        pick(
            (c - 0xC0) as u32,
            0x0D20, 0x0520, 0x0920, 0x0120, 0x0E20, 0x0620, 0x0A20, 0x0220,
            0x0C20, 0x0420, 0x0820, 0x0020, 0x0FC0, 0x07C0, 0x0BC0, 0x03C0,
        )
    } else if c < 0xE0 {
        pick(
            (c - 0xD0) as u32,
            0x0DC0, 0x05C0, 0x09C0, 0x01C0, 0x0EC0, 0x06C0, 0x0AC0, 0x02C0,
            0x0CC0, 0x04C0, 0x08C0, 0x00C0, 0x0F40, 0x0740, 0x0B40, 0x0340,
        )
    } else if c < 0xF0 {
        pick(
            (c - 0xE0) as u32,
            0x0300, 0x0D40, 0x1D00, 0x0D00, 0x1500, 0x0540, 0x0500, 0x1900,
            0x0900, 0x0940, 0x1100, 0x0100, 0x1E00, 0x0E00, 0x0140, 0x1600,
        )
    } else {
        pick(
            (c - 0xF0) as u32,
            0x0600, 0x1A00, 0x0E40, 0x0640, 0x0A40, 0x0A00, 0x1200, 0x0200,
            0x1C00, 0x0C00, 0x1400, 0x0400, 0x1800, 0x0800, 0x1000, 0x0000,
        )
    }
}

/// The lowest `bits` bits of `x` are `code`.
pub open spec fn starts_with(x: u32, code: u32, bits: u32) -> bool {
    x & !(0xFFFF_FFFFu32 << bits) == code
}

/// One of the first `n` length codes is at the low end of `x`.
pub open spec fn some_len(x: u32, n: u32) -> bool
    decreases n,
{
    if n == 0 {
        false
    } else {
        let c = (n - 1) as u32;
        starts_with(x, len_code_of(c), len_bits_of(c)) || some_len(x, c)
    }
}

/// One of the first `n` distance codes is at the low end of `x`.
pub open spec fn some_dist(x: u32, n: u32) -> bool
    decreases n,
{
    if n == 0 {
        false
    } else {
        let c = (n - 1) as u32;
        starts_with(x, dist_code_of(c), dist_bits_of(c)) || some_dist(x, c)
    }
}

/// One of the first `n` byte codes is at the low end of `x`.
pub open spec fn some_asc(x: u32, n: u32) -> bool
    decreases n,
{
    if n == 0 {
        false
    } else {
        let c = (n - 1) as u32;
        starts_with(x, asc_code_of(c), asc_bits_of(c)) || some_asc(x, c)
    }
}

proof fn lemma_some_len(x: u32, n: u32) -> (c: u32)
    requires
        some_len(x, n),
    ensures
        c < n,
        starts_with(x, len_code_of(c), len_bits_of(c)),
    decreases n,
{
    let c = (n - 1) as u32;
    if starts_with(x, len_code_of(c), len_bits_of(c)) {
        c
    } else {
        lemma_some_len(x, c)
    }
}

proof fn lemma_some_dist(x: u32, n: u32) -> (c: u32)
    requires
        some_dist(x, n),
    ensures
        c < n,
        starts_with(x, dist_code_of(c), dist_bits_of(c)),
    decreases n,
{
    let c = (n - 1) as u32;
    if starts_with(x, dist_code_of(c), dist_bits_of(c)) {
        c
    } else {
        lemma_some_dist(x, c)
    }
}

proof fn lemma_some_asc(x: u32, n: u32) -> (c: u32)
    requires
        some_asc(x, n),
    ensures
        c < n,
        starts_with(x, asc_code_of(c), asc_bits_of(c)),
    decreases n,
{
    let c = (n - 1) as u32;
    if starts_with(x, asc_code_of(c), asc_bits_of(c)) {
        c
    } else {
        lemma_some_asc(x, c)
    }
}

/// The word functions are the tables, and every code fits in its length.
pub proof fn lemma_len_words(c: u32)
    requires
        c < 16,
    ensures
        len_bits_of(c) == LEN_BITS[c as int],
        len_code_of(c) == LEN_CODE[c as int],
        2 <= len_bits_of(c) <= 7,
{
}

/// The word functions are the tables, and every code fits in its length.
pub proof fn lemma_dist_words(c: u32)
    requires
        c < 64,
    ensures
        dist_bits_of(c) == DIST_BITS[c as int],
        dist_code_of(c) == DIST_CODE[c as int],
        2 <= dist_bits_of(c) <= 8,
{
}

/// The word functions are the tables, and every code fits in its length.
pub proof fn lemma_asc_words(c: u32)
    requires
        c < 256,
    ensures
        asc_bits_of(c) == CH_BITS_ASC[c as int],
        asc_code_of(c) == CH_CODE_ASC[c as int],
        4 <= asc_bits_of(c) <= 13,
{
    assert(c < 256 ==> 4 <= asc_bits_of(c) <= 13) by (bit_vector);
}

/// Masking out all but the low bits is taking a remainder.
pub proof fn lemma_starts_with(x: u32, code: u32, n: u32)
    requires
        n < 32,
    ensures
        starts_with(x, code, n) <==> x as nat % power2::pow2(n as nat) == code,
{
    assert(x & !(0xFFFF_FFFFu32 << n) == x - ((x >> n) << n) && (x >> n) << n <= x) by (bit_vector)
        requires
            n < 32,
    ;
    bits::lemma_u32_shr_is_div(x, n);
    power2::lemma_pow2_pos(n as nat);
    div_mod::lemma_fundamental_div_mod(x as int, power2::pow2(n as nat) as int);
    assert((x >> n) * power2::pow2(n as nat) <= x) by {
        vstd::arithmetic::mul::lemma_mul_is_commutative(
            (x >> n) as int,
            power2::pow2(n as nat) as int,
        );
        div_mod::lemma_mod_bound(x as int, power2::pow2(n as nat) as int);
    }
    bits::lemma_u32_shl_is_mul(x >> n, n);
    vstd::arithmetic::mul::lemma_mul_is_commutative((x >> n) as int, power2::pow2(n as nat) as int);
}

/// Some length code is at the low end of every word.
pub proof fn lemma_len_complete(x: u32) -> (c: u32)
    ensures
        c < 16,
        starts_with(x, len_code_of(c), len_bits_of(c)),
{
    assert(some_len(x, 16)) by (bit_vector);
    lemma_some_len(x, 16)
}

/// No word starts with two length codes.
pub proof fn lemma_len_prefix_free(x: u32, i: u32, j: u32)
    requires
        i < 16,
        j < 16,
        starts_with(x, len_code_of(i), len_bits_of(i)),
        starts_with(x, len_code_of(j), len_bits_of(j)),
    ensures
        i == j,
{
    assert(i < 16 && j < 16 && starts_with(x, len_code_of(i), len_bits_of(i)) && starts_with(
        x,
        len_code_of(j),
        len_bits_of(j),
    ) ==> i == j) by (bit_vector);
}

/// Some distance code is at the low end of every word.
pub proof fn lemma_dist_complete(x: u32) -> (c: u32)
    ensures
        c < 64,
        starts_with(x, dist_code_of(c), dist_bits_of(c)),
{
    assert(some_dist(x, 64)) by (bit_vector);
    lemma_some_dist(x, 64)
}

/// No word starts with two distance codes.
pub proof fn lemma_dist_prefix_free(x: u32, i: u32, j: u32)
    requires
        i < 64,
        j < 64,
        starts_with(x, dist_code_of(i), dist_bits_of(i)),
        starts_with(x, dist_code_of(j), dist_bits_of(j)),
    ensures
        i == j,
{
    assert(i < 64 && j < 64 && starts_with(x, dist_code_of(i), dist_bits_of(i)) && starts_with(
        x,
        dist_code_of(j),
        dist_bits_of(j),
    ) ==> i == j) by (bit_vector);
}

/// Some byte code is at the low end of every word.
pub proof fn lemma_asc_complete(x: u32) -> (c: u32)
    ensures
        c < 256,
        starts_with(x, asc_code_of(c), asc_bits_of(c)),
{
    assert(some_asc(x, 256)) by (bit_vector);
    lemma_some_asc(x, 256)
}

/// No word starts with two byte codes.
pub proof fn lemma_asc_prefix_free(x: u32, i: u32, j: u32)
    requires
        i < 256,
        j < 256,
        starts_with(x, asc_code_of(i), asc_bits_of(i)),
        starts_with(x, asc_code_of(j), asc_bits_of(j)),
    ensures
        i == j,
{
    if i != j {
        lemma_asc_differ(i, j);
        let ci = asc_code_of(i);
        let cj = asc_code_of(j);
        let bi = asc_bits_of(i);
        let bj = asc_bits_of(j);
        assert((ci ^ cj) & !(0xFFFF_FFFFu32 << bi) & !(0xFFFF_FFFFu32 << bj) == 0) by (bit_vector)
            requires
                x & !(0xFFFF_FFFFu32 << bi) == ci,
                x & !(0xFFFF_FFFFu32 << bj) == cj,
        ;
    }
}

/// Two byte codes differ in a bit that belongs to both.
#[verifier::rlimit(40)]
proof fn lemma_asc_differ(i: u32, j: u32)
    requires
        i < 256,
        j < 256,
        i != j,
    ensures
        (asc_code_of(i) ^ asc_code_of(j)) & !(0xFFFF_FFFFu32 << asc_bits_of(i)) & !(0xFFFF_FFFFu32
            << asc_bits_of(j)) != 0,
{
    assert(i < 256 && j < 256 && i != j ==> (asc_code_of(i) ^ asc_code_of(j)) & !(0xFFFF_FFFFu32
        << asc_bits_of(i)) & !(0xFFFF_FFFFu32 << asc_bits_of(j)) != 0) by (bit_vector);
}

} // verus!
