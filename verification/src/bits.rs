//! Bit streams as numbers.
//!
//! A compressed stream is read from the least significant bit of each byte upwards. A finite
//! run of such bits is a natural number together with a length: the next bit of the stream is
//! the lowest bit of the number, so reading is taking a remainder and skipping is dividing.
use vstd::arithmetic::div_mod;
use vstd::arithmetic::mul;
use vstd::arithmetic::power2;
use vstd::prelude::*;

verus! {

/// A finite run of bits; the next one to be read is the lowest bit of `value`.
pub struct Bits {
    pub value: nat,
    pub len: nat,
}

/// The number that a byte sequence spells, least significant byte first.
pub open spec fn le_value(bytes: Seq<u8>) -> nat
    decreases bytes.len(),
{
    if bytes.len() == 0 {
        0
    } else {
        bytes[0] as nat + 256 * le_value(bytes.drop_first())
    }
}

impl Bits {
    /// No bit is set at or above `len`.
    pub open spec fn wf(self) -> bool {
        self.value < power2::pow2(self.len)
    }

    /// The bits of a byte sequence.
    pub open spec fn of_bytes(bytes: Seq<u8>) -> Bits {
        Bits { value: le_value(bytes), len: 8 * bytes.len() }
    }

    /// The number that the next `n` bits spell.
    pub open spec fn low(self, n: nat) -> nat {
        self.value % power2::pow2(n)
    }

    /// What is left after `n` bits.
    pub open spec fn skip(self, n: nat) -> Bits {
        Bits { value: self.value / power2::pow2(n), len: (self.len - n) as nat }
    }

    /// This run followed by `next`.
    pub open spec fn followed_by(self, next: Bits) -> Bits {
        Bits { value: self.value + power2::pow2(self.len) * next.value, len: self.len + next.len }
    }

    /// The `n`-bit number `code` followed by `rest`.
    pub open spec fn put(code: nat, n: nat, rest: Bits) -> Bits {
        Bits { value: code, len: n }.followed_by(rest)
    }
}

/// Splitting `code + 2^n * rest` at bit `n` gives both parts back.
pub proof fn lemma_split(code: nat, n: nat, rest: nat)
    requires
        code < power2::pow2(n),
    ensures
        (code + power2::pow2(n) * rest) % power2::pow2(n) == code,
        (code + power2::pow2(n) * rest) / power2::pow2(n) == rest,
{
    let m = power2::pow2(n) as int;
    mul::lemma_mul_is_commutative(m, rest as int);
    div_mod::lemma_fundamental_div_mod_converse(code + m * rest, m, rest as int, code as int);
}

/// Taking `a` bits of the low `b` bits is taking `a` bits, if `a` is not above `b`.
pub proof fn lemma_low_of_low(v: nat, a: nat, b: nat)
    requires
        a <= b,
    ensures
        (v % power2::pow2(b)) % power2::pow2(a) == v % power2::pow2(a),
{
    power2::lemma_pow2_pos(a);
    power2::lemma_pow2_pos((b - a) as nat);
    power2::lemma_pow2_adds(a, (b - a) as nat);
    div_mod::lemma_mod_mod(v as int, power2::pow2(a) as int, power2::pow2((b - a) as nat) as int);
}

/// Skipping `a` and `b` bits one after the other is skipping `a + b` bits.
pub proof fn lemma_div_div(v: nat, a: nat, b: nat)
    ensures
        (v / power2::pow2(a)) / power2::pow2(b) == v / power2::pow2(a + b),
{
    power2::lemma_pow2_pos(a);
    power2::lemma_pow2_pos(b);
    power2::lemma_pow2_adds(a, b);
    div_mod::lemma_div_denominator(v as int, power2::pow2(a) as int, power2::pow2(b) as int);
}

/// The low `a + b` bits are the low `a` bits and the `b` bits above them.
pub proof fn lemma_low_sum(v: nat, a: nat, b: nat)
    ensures
        v % power2::pow2(a + b) == v % power2::pow2(a) + power2::pow2(a) * ((v / power2::pow2(a))
            % power2::pow2(b)),
{
    power2::lemma_pow2_pos(a);
    power2::lemma_pow2_pos(b);
    power2::lemma_pow2_adds(a, b);
    div_mod::lemma_mod_breakdown(v as int, power2::pow2(a) as int, power2::pow2(b) as int);
}

/// Skipping fewer bits than lie below a higher part leaves that part in place.
pub proof fn lemma_div_below(low: nat, n: nat, k: nat, high: nat)
    requires
        n <= k,
    ensures
        (low + power2::pow2(k) * high) / power2::pow2(n) == low / power2::pow2(n) + power2::pow2(
            (k - n) as nat,
        ) * high,
        (low + power2::pow2(k) * high) % power2::pow2(n) == low % power2::pow2(n),
{
    let d = power2::pow2(n) as int;
    let e = power2::pow2((k - n) as nat) as int;
    power2::lemma_pow2_pos(n);
    power2::lemma_pow2_adds(n, (k - n) as nat);
    assert(power2::pow2(k) * high == d * (e * high)) by {
        mul::lemma_mul_is_associative(d, e, high as int);
    }
    div_mod::lemma_fundamental_div_mod(low as int, d);
    let q = low as int / d;
    let r = low as int % d;
    assert(low + d * (e * high) == (q + e * high) * d + r) by {
        mul::lemma_mul_is_distributive_add(d, q, e * high);
        mul::lemma_mul_is_commutative(d, q + e * high);
    }
    div_mod::lemma_fundamental_div_mod_converse(low + d * (e * high), d, q + e * high, r);
}

/// A number below `2^k` has nothing left after a skip of `n` bits but what lies below `2^(k - n)`.
pub proof fn lemma_div_bound(v: nat, n: nat, k: nat)
    requires
        n <= k,
        v < power2::pow2(k),
    ensures
        v / power2::pow2(n) < power2::pow2((k - n) as nat),
{
    let d = power2::pow2(n) as int;
    let e = power2::pow2((k - n) as nat) as int;
    power2::lemma_pow2_pos(n);
    power2::lemma_pow2_adds(n, (k - n) as nat);
    mul::lemma_mul_is_commutative(d, e);
    div_mod::lemma_multiply_divide_lt(v as int, d, e);
}

/// The number that one byte sequence after another spells.
pub proof fn lemma_le_value_add(a: Seq<u8>, b: Seq<u8>)
    ensures
        le_value(a + b) == le_value(a) + power2::pow2(8 * a.len()) * le_value(b),
    decreases a.len(),
{
    power2::lemma2_to64();
    if a.len() == 0 {
        assert(a + b =~= b);
        let y = le_value(b);
        assert(power2::pow2(8 * a.len()) * y == y) by (nonlinear_arith)
            requires
                power2::pow2(8 * a.len()) == 1,
        ;
    } else {
        let t = a.drop_first();
        lemma_le_value_add(t, b);
        assert((a + b).drop_first() =~= t + b);
        power2::lemma_pow2_adds(8, 8 * t.len());
        let p = power2::pow2(8 * t.len());
        let q = power2::pow2(8 * a.len());
        let y = le_value(b);
        assert(q * y == 256 * (p * y)) by (nonlinear_arith)
            requires
                q == 256 * p,
        ;
    }
}

} // verus!
