//! What decompression is for, said with the bits, bytes and numbers of the format themselves.
use super::model;
use super::model::{Decoder, Fault, Outcome, Reading, Token};
use super::reader::{ExplodeReader, Progress};
use super::state;
use super::state::{Decoded, ExplodeState};
use crate::bits;
use crate::bits::Bits;
use crate::codes;
use crate::common::{CompressionMode, PkLibError, Result};
use crate::explode::lookup;
use crate::roundtrip;
use crate::tables::{
    CH_BITS_ASC, CH_CODE_ASC, DIST_BITS, DIST_CODE, EX_LEN_BITS, LEN_BASE, LEN_BITS, LEN_CODE,
};
use vstd::arithmetic::div_mod;
use vstd::arithmetic::mul;
use vstd::arithmetic::power2;
use vstd::prelude::*;

verus! {

/// A number is its low `n` bits and what lies above them.
proof fn lemma_unput(s: Bits, code: nat, n: nat)
    requires
        codes::begins(s.value, code, n),
        n <= s.len,
    ensures
        s == Bits::put(code, n, s.skip(n)),
{
    power2::lemma_pow2_pos(n);
    div_mod::lemma_fundamental_div_mod(s.value as int, power2::pow2(n) as int);
}

/// A symbol that is read is one that was written.
proof fn lemma_symbol_unread(mode: CompressionMode, s: Bits)
    requires
        codes::symbol_bits(mode, codes::symbol_at(mode, s.value)) <= s.len,
    ensures
        ({
            let n = codes::symbol_at(mode, s.value);
            s == roundtrip::write_symbol(mode, n, s.skip(codes::symbol_bits(mode, n)))
        }),
{
    let n = codes::symbol_at(mode, s.value);
    codes::lemma_symbol_at(mode, s.value);
    lemma_unput(s, codes::symbol_code(mode, n), codes::symbol_bits(mode, n));
}

/// A distance that is read is one that was written.
proof fn lemma_distance_unread(s: Bits, low: nat)
    requires
        codes::distance_bits(s.value, low) <= s.len,
    ensures
        ({
            let distance = codes::distance_at(s.value, low);
            &&& 1 <= distance <= 64 * power2::pow2(low)
            &&& s == roundtrip::write_distance(
                distance,
                low,
                s.skip(codes::distance_bits(s.value, low)),
            )
        }),
{
    codes::lemma_dist_at(s.value);
    let i = codes::dist_at(s.value);
    let n = DIST_BITS[i] as nat;
    let m = power2::pow2(low);
    let rest = s.skip(n);
    let x = rest.value % m;
    power2::lemma_pow2_pos(low);
    div_mod::lemma_mod_bound(rest.value as int, m as int);
    let stored = i * m + x;
    assert(0 <= stored < 64 * m) by (nonlinear_arith)
        requires
            stored == i * m + x,
            0 <= i <= 63,
            0 <= x < m,
    ;
    mul::lemma_mul_is_commutative(i, m as int);
    div_mod::lemma_fundamental_div_mod_converse(stored, m as int, i, x as int);
    lemma_unput(s, DIST_CODE[i] as nat, n);
    lemma_unput(rest, x, low);
    state::lemma_skip_skip(s, n, low);
}

/// A token that is read is one that was written: the bits spell it, and eight more bits follow, or it
/// is the mark of the end and the source has ended.
pub proof fn law_whole_token_was_written(
    mode: CompressionMode,
    dict_bits: nat,
    s: Bits,
    ended: bool,
)
    ensures
        model::next_token(mode, dict_bits, s, ended) matches Reading::Whole { token, bits } ==> {
            &&& 0 < bits <= s.len
            &&& s == roundtrip::write_token(mode, dict_bits, token, s.skip(bits))
            &&& s.len >= bits + 8 || (token is End && ended)
            &&& token matches Token::Copy { length, distance } ==> {
                &&& 2 <= length <= 518
                &&& 1 <= distance <= 64 * power2::pow2(if length == 2 { 2 } else { dict_bits })
            }
        },
{
    let n = codes::symbol_at(mode, s.value);
    let size = codes::symbol_bits(mode, n);
    codes::lemma_symbol_at(mode, s.value);
    if let Reading::Whole { token, bits } = model::next_token(mode, dict_bits, s, ended) {
        lemma_symbol_unread(mode, s);
        if let Token::Copy { length, distance } = token {
            let rest = s.skip(size);
            let low = codes::low_distance_bits(length as int, dict_bits);
            lemma_distance_unread(rest, low);
            state::lemma_skip_skip(s, size, codes::distance_bits(rest.value, low));
        }
    }
}

/// If no token is read, none is there: whatever token the bits spell, less than eight bits follow,
/// and it is not the mark of the end of a source that has ended. The bits stop in a distance if they
/// hold a length and eight more bits, and in a literal or length if they hold no symbol with eight
/// more bits.
pub proof fn law_short_token_is_not_there(
    mode: CompressionMode,
    dict_bits: nat,
    s: Bits,
    ended: bool,
    token: Token,
    n: int,
    rest: Bits,
)
    requires
        !(model::next_token(mode, dict_bits, s, ended) is Whole),
        token matches Token::Copy { length, distance } ==> {
            &&& 2 <= length <= 518
            &&& 1 <= distance <= 64 * power2::pow2(if length == 2 { 2 } else { dict_bits })
        },
        0 <= n <= 0x305,
    ensures
        s == roundtrip::write_token(mode, dict_bits, token, rest) ==> rest.len < 8 && !(
        token is End && ended),
        model::next_token(mode, dict_bits, s, ended) is ShortLiteral && s
            == roundtrip::write_symbol(mode, n, rest) ==> rest.len < 8,
        model::next_token(mode, dict_bits, s, ended) is ShortDistance ==> ({
            let length_symbol = codes::symbol_at(mode, s.value);
            let behind = s.skip(codes::symbol_bits(mode, length_symbol));
            &&& 0x100 <= length_symbol < 0x305
            &&& s == roundtrip::write_symbol(mode, length_symbol, behind)
            &&& behind.len >= 8
        }),
{
    if s == roundtrip::write_token(mode, dict_bits, token, rest) {
        if rest.len >= 8 {
            roundtrip::law_token_roundtrip(mode, dict_bits, token, rest, ended);
        }
        if token is End && ended {
            roundtrip::law_symbol_roundtrip(mode, 0x305, rest);
        }
    }
    if s == roundtrip::write_symbol(mode, n, rest) {
        roundtrip::law_symbol_roundtrip(mode, n, rest);
    }
    codes::lemma_symbol_at(mode, s.value);
    if model::next_token(mode, dict_bits, s, ended) is ShortDistance {
        lemma_symbol_unread(mode, s);
    }
}

/// Writing one more token is writing it in front of what follows.
pub proof fn law_tokens_are_written_in_order(
    mode: CompressionMode,
    dict_bits: nat,
    tokens: Seq<Token>,
    token: Token,
    tail: Bits,
)
    ensures
        roundtrip::write_all(mode, dict_bits, Seq::empty(), tail) == tail,
        roundtrip::write_all(mode, dict_bits, tokens.push(token), tail) == roundtrip::write_all(
            mode,
            dict_bits,
            tokens,
            roundtrip::write_token(mode, dict_bits, token, tail),
        ),
        roundtrip::write_all(mode, dict_bits, seq![token] + tokens, tail)
            == roundtrip::write_token(
            mode,
            dict_bits,
            token,
            roundtrip::write_all(mode, dict_bits, tokens, tail),
        ),
        roundtrip::write_stream(mode, dict_bits, tokens, tail) == roundtrip::write_all(
            mode,
            dict_bits,
            tokens,
            roundtrip::write_token(mode, dict_bits, Token::End, tail),
        ),
    decreases tokens.len(),
{
    let longer = tokens.push(token);
    assert((seq![token] + tokens).drop_first() =~= tokens);
    if tokens.len() == 0 {
        assert(longer.drop_first() =~= Seq::empty());
        assert(roundtrip::write_all(mode, dict_bits, longer.drop_first(), tail) == tail);
    } else {
        assert(longer.drop_first() =~= tokens.drop_first().push(token));
        law_tokens_are_written_in_order(mode, dict_bits, tokens.drop_first(), token, tail);
    }
}

/// A literal byte: a clear bit, then eight bits, or the byte's code in the ASCII mode.
pub proof fn law_byte_is_written(mode: CompressionMode, dict_bits: nat, byte: u8, rest: Bits)
    ensures
        ({
            let written = roundtrip::write_token(mode, dict_bits, Token::Byte(byte), rest);
            match mode {
                CompressionMode::Binary => {
                    &&& written.value == 2 * byte + 512 * rest.value
                    &&& written.len == 9 + rest.len
                },
                CompressionMode::ASCII => {
                    let size = (CH_BITS_ASC[byte as int] + 1) as nat;
                    &&& written.value == 2 * CH_CODE_ASC[byte as int] + power2::pow2(size)
                        * rest.value
                    &&& written.len == size + rest.len
                },
            }
        }),
{
    power2::lemma2_to64();
    assert(power2::pow2(9) * rest.value == 512 * rest.value) by (nonlinear_arith)
        requires
            power2::pow2(9) == 512,
    ;
}

/// A symbol from 256 up: a set bit, then the code of the range that holds it, then its place in the
/// range, verbatim.
pub proof fn law_length_is_written(mode: CompressionMode, i: int, e: int, rest: Bits)
    requires
        0 <= i < 16,
        0 <= e < power2::pow2(EX_LEN_BITS[i] as nat),
    ensures
        ({
            let written = roundtrip::write_symbol(mode, 0x100 + LEN_BASE[i] + e, rest);
            let size = (1 + LEN_BITS[i] + EX_LEN_BITS[i]) as nat;
            &&& written.value == 1 + 2 * (LEN_CODE[i] + power2::pow2(LEN_BITS[i] as nat) * e)
                + power2::pow2(size) * rest.value
            &&& written.len == size + rest.len
        }),
{
    codes::lemma_length_index_of(i, e);
    let p = power2::pow2(LEN_BITS[i] as nat);
    assert(p * e >= 0) by (nonlinear_arith)
        requires
            p >= 0,
            e >= 0,
    ;
}

/// The ranges of the length codes follow each other: sixteen ranges, the first eight of one value and
/// each of the others twice as large as the one before, hold the values below 0x206 once each.
pub proof fn law_length_ranges(k: int) -> (i: int)
    requires
        0 <= k < 0x206,
    ensures
        0 <= i < 16,
        LEN_BASE[i] <= k < LEN_BASE[i] + power2::pow2(EX_LEN_BITS[i] as nat),
        forall|j: int|
            0 <= j < 16 && #[trigger] LEN_BASE[j] <= k < LEN_BASE[j] + power2::pow2(
                EX_LEN_BITS[j] as nat,
            ) ==> j == i,
        EX_LEN_BITS[i] == (if i < 8 {
            0
        } else {
            i - 7
        }),
{
    power2::lemma2_to64();
    codes::length_index(k)
}

/// A distance: the code of its upper six bits, then its `low` lower bits, verbatim; what is stored is
/// the distance less one.
pub proof fn law_distance_is_written(upper: int, lower: int, low: nat, rest: Bits)
    requires
        0 <= upper < 64,
        0 <= lower < power2::pow2(low),
    ensures
        ({
            let distance = (upper * power2::pow2(low) + lower + 1) as nat;
            let written = roundtrip::write_distance(distance, low, rest);
            &&& written.value == DIST_CODE[upper] + power2::pow2(DIST_BITS[upper] as nat) * (lower
                + power2::pow2(low) * rest.value)
            &&& written.len == DIST_BITS[upper] + low + rest.len
        }),
{
    let m = power2::pow2(low) as int;
    let stored = upper * m + lower;
    assert(stored >= 0) by (nonlinear_arith)
        requires
            stored == upper * m + lower,
            upper >= 0,
            m >= 0,
            lower >= 0,
    ;
    mul::lemma_mul_is_commutative(upper, m);
    div_mod::lemma_fundamental_div_mod_converse(stored, m, upper, lower);
}

/// A repetition: the symbol 254 above its length, then its distance. Two lower bits of the distance
/// are verbatim if the length is two; else as many as the dictionary size says.
pub proof fn law_copy_is_written(
    mode: CompressionMode,
    dict_bits: nat,
    length: nat,
    distance: nat,
    rest: Bits,
)
    ensures
        roundtrip::write_token(mode, dict_bits, Token::Copy { length, distance }, rest)
            == roundtrip::write_symbol(
            mode,
            (length + 254) as int,
            roundtrip::write_distance(distance, if length == 2 { 2 } else { dict_bits }, rest),
        ),
{
}

/// The mark of the end: sixteen bits, 0xFF01, in both modes.
pub proof fn law_end_is_written(mode: CompressionMode, dict_bits: nat, rest: Bits)
    ensures
        ({
            let written = roundtrip::write_token(mode, dict_bits, Token::End, rest);
            &&& written.value == 0xFF01 + 65536 * rest.value
            &&& written.len == 16 + rest.len
        }),
{
    power2::lemma2_to64();
    assert(power2::pow2(7) * 255 == 128 * 255);
    assert(power2::pow2(16) * rest.value == 65536 * rest.value) by (nonlinear_arith)
        requires
            power2::pow2(16) == 65536,
    ;
}

/// Bytes spell their bits, first byte first and lowest bit first.
pub proof fn law_bytes_spell_their_bits(bytes: Seq<u8>, i: int)
    requires
        0 <= i < bytes.len(),
    ensures
        Bits::of_bytes(bytes).len == 8 * bytes.len(),
        Bits::of_bytes(bytes).value < power2::pow2(8 * bytes.len()),
        (Bits::of_bytes(bytes).value / power2::pow2((8 * i) as nat)) % 256 == bytes[i],
    decreases i,
{
    power2::lemma2_to64();
    super::pieces::lemma_of_bytes_wf(bytes);
    let v = bits::le_value(bytes);
    let rest = bytes.drop_first();
    let r = bits::le_value(rest);
    assert(v == bytes[0] + 256 * r);
    if i == 0 {
        assert(v / power2::pow2(0) == v);
    } else {
        law_bytes_spell_their_bits(rest, i - 1);
        bits::lemma_div_div(v, 8, (8 * (i - 1)) as nat);
        assert(v / 256 == r);
    }
}

/// One run of bits after another: the first comes first and the second is what is left behind it.
pub proof fn law_more_bits_follow(s: Bits, t: Bits, n: nat)
    requires
        s.wf(),
        t.wf(),
    ensures
        s.followed_by(t).len == s.len + t.len,
        s.followed_by(t).value == s.value + power2::pow2(s.len) * t.value,
        n <= s.len ==> s.followed_by(t).value % power2::pow2(n) == s.value % power2::pow2(n),
        s.followed_by(t).value / power2::pow2(s.len) == t.value,
{
    super::pieces::lemma_followed_by(s, t, n);
    super::pieces::lemma_followed_by(s, t, s.len);
    bits::lemma_split(s.value, s.len, t.value);
}

/// A repetition adds its length, and every byte that it adds is the one that lies its distance back,
/// also where that is one of its own.
pub proof fn law_replayed_bytes(history: Seq<u8>, length: nat, distance: nat, i: int)
    requires
        1 <= distance <= history.len(),
        0 <= i < history.len() + length,
    ensures
        ({
            let all = model::replay(history, length, distance);
            &&& all.len() == history.len() + length
            &&& all[i] == if i < history.len() {
                history[i]
            } else {
                all[i - distance]
            }
        }),
    decreases length,
{
    model::lemma_replay(history, length, distance);
    let all = model::replay(history, length, distance);
    if i < history.len() {
        assert(all.take(history.len() as int)[i] == all[i]);
    } else {
        let shorter = (length - 1) as nat;
        model::lemma_replay(history, shorter, distance);
        if i < history.len() + shorter {
            law_replayed_bytes(history, shorter, distance, i);
        }
    }
}

/// What tokens add, token by token: a literal adds its byte, a repetition what it repeats, and the end
/// nothing.
pub proof fn law_tokens_are_applied_in_order(history: Seq<u8>, tokens: Seq<Token>, token: Token)
    ensures
        model::apply_all(history, Seq::empty()) == history,
        model::apply_all(history, tokens.push(token)) == ({
            let so_far = model::apply_all(history, tokens);
            match token {
                Token::Byte(byte) => so_far.push(byte),
                Token::Copy { length, distance } => model::replay(so_far, length, distance),
                Token::End => so_far,
            }
        }),
        model::apply_all(history, seq![token] + tokens) == model::apply_all(
            match token {
                Token::Byte(byte) => history.push(byte),
                Token::Copy { length, distance } => model::replay(history, length, distance),
                Token::End => history,
            },
            tokens,
        ),
    decreases tokens.len(),
{
    let longer = tokens.push(token);
    assert((seq![token] + tokens).drop_first() =~= tokens);
    if tokens.len() == 0 {
        assert(longer.drop_first() =~= Seq::empty());
        let next = model::apply(history, token);
        assert(model::apply_all(next, longer.drop_first()) == next);
    } else {
        assert(longer.drop_first() =~= tokens.drop_first().push(token));
        law_tokens_are_applied_in_order(
            model::apply(history, tokens[0]),
            tokens.drop_first(),
            token,
        );
    }
}

/// Tokens that a stream can hold: literals, and repetitions of two to 518 bytes whose distance has six
/// coded bits and two verbatim ones, or as many verbatim ones as the dictionary size says.
pub open spec fn in_format(dict_bits: nat, tokens: Seq<Token>) -> bool {
    forall|i: int|
        0 <= i < tokens.len() ==> match #[trigger] tokens[i] {
            Token::Byte(byte) => true,
            Token::Copy { length, distance } => {
                &&& 2 <= length <= 518
                &&& 1 <= distance <= 64 * power2::pow2(if length == 2 { 2 } else { dict_bits })
            },
            Token::End => false,
        }
}

/// What a call that decodes does. The bits that it takes are those of tokens, and each token is carried
/// out. It comes to its end in one of four ways.
///
/// - The block is full: its bytes are the next output, and it becomes the dictionary.
/// - The mark of the end is there: the block at hand is the last output. Nothing else ends a stream.
/// - The bits that are left hold no whole token: more input is needed, or, if the source has ended,
///   the stream is cut off and refused.
/// - The next repetition does not fit in the output buffer.
pub proof fn law_run_carries_out_tokens(d: Decoder) -> (tokens: Seq<Token>)
    requires
        d.ready,
        !d.finished,
        0x1000 <= d.window.len() < 0x2000,
    ensures
        in_format(d.dict_bits, tokens),
        ({
            let (next, outcome) = d.run();
            let reached = model::apply_all(d.window, tokens);
            &&& next.ready && next.mode == d.mode && next.dict_bits == d.dict_bits
            &&& match outcome {
                Outcome::Written(count) => if next.finished {
                    let padding = next.bits.skip(16);
                    &&& d.bits == roundtrip::write_stream(d.mode, d.dict_bits, tokens, padding)
                    &&& next.bits == roundtrip::write_token(d.mode, d.dict_bits, Token::End, padding)
                    &&& padding.len >= 8 || d.ended
                    &&& reached.len() < 0x2000
                    &&& next.window == reached
                    &&& next.pending == d.pending + reached.skip(0x1000)
                    &&& count == reached.len() - 0x1000
                    &&& next.ended == d.ended
                } else {
                    &&& d.bits == roundtrip::write_all(d.mode, d.dict_bits, tokens, next.bits)
                    &&& next.bits.len >= 8
                    &&& tokens.len() > 0
                    &&& model::apply_all(d.window, tokens.drop_last()).len() < 0x2000
                    &&& 0x2000 <= reached.len() <= 0x2204
                    &&& next.window == reached.skip(0x1000)
                    &&& next.pending == d.pending + reached.subrange(0x1000, 0x2000)
                    &&& count == 0x1000
                    &&& next.ended == d.ended
                },
                Outcome::NeedInput => {
                    &&& !d.ended && !next.ended && !next.finished
                    &&& d.bits == roundtrip::write_all(d.mode, d.dict_bits, tokens, next.bits)
                    &&& forall|token: Token, rest: Bits|
                        (in_format(d.dict_bits, seq![token]) || token is End) && next.bits
                            == #[trigger] roundtrip::write_token(d.mode, d.dict_bits, token, rest)
                            ==> rest.len < 8
                    &&& reached.len() < 0x2000
                    &&& next.window == reached
                    &&& next.pending == d.pending
                },
                Outcome::Failed(Fault::Overflow) => {
                    &&& tokens.len() > 0
                    &&& tokens.last() is Copy
                    &&& d.bits == roundtrip::write_all(d.mode, d.dict_bits, tokens, next.bits)
                    &&& next.bits.len >= 8
                    &&& reached.len() > 0x2204
                    &&& next.window == model::apply_all(d.window, tokens.drop_last())
                    &&& next.window.len() < 0x2000
                    &&& next.pending == d.pending
                    &&& !next.finished
                    &&& next.ended == d.ended
                },
                Outcome::Failed(fault) => {
                    &&& d.ended && !next.ended && !next.finished
                    &&& d.bits == roundtrip::write_all(d.mode, d.dict_bits, tokens, next.bits)
                    &&& forall|token: Token, rest: Bits|
                        (in_format(d.dict_bits, seq![token]) || token is End) && next.bits
                            == #[trigger] roundtrip::write_token(d.mode, d.dict_bits, token, rest)
                            ==> rest.len < 8 && !(token is End)
                    &&& fault is Literal ==> forall|n: int, rest: Bits|
                        0 <= n <= 0x305 && next.bits == #[trigger] roundtrip::write_symbol(
                            d.mode,
                            n,
                            rest,
                        ) ==> rest.len < 8
                    &&& fault is Distance ==> exists|n: int, rest: Bits|
                        0x100 <= n < 0x305 && rest.len >= 8 && next.bits
                            == #[trigger] roundtrip::write_symbol(d.mode, n, rest)
                    &&& reached.len() < 0x2000
                    &&& next.window == reached
                    &&& next.pending == d.pending
                },
            }
        }),
    decreases d.bits.len,
{
    let none = Seq::<Token>::empty();
    law_whole_token_was_written(d.mode, d.dict_bits, d.bits, d.ended);
    match model::next_token(d.mode, d.dict_bits, d.bits, d.ended) {
        Reading::Whole { token, bits } => {
            let window = model::apply(d.window, token);
            let rest = d.bits.skip(bits);
            let after = Decoder { bits: rest, window, ..d };
            if let Token::Copy { length, distance } = token {
                model::lemma_replay(d.window, length, distance);
            }
            if token is End {
                assert(codes::symbol_bits(d.mode, 0x305) == 16);
                none
            } else if window.len() >= 0x2000 {
                let one = seq![token];
                law_tokens_are_written_in_order(d.mode, d.dict_bits, none, token, rest);
                law_tokens_are_applied_in_order(d.window, none, token);
                assert(none.push(token) =~= one);
                assert(one.drop_last() =~= none);
                one
            } else {
                let later = law_run_carries_out_tokens(after);
                let all = seq![token] + later;
                let next = d.run().0;
                assert(d.run() == after.run());
                law_tokens_are_written_in_order(d.mode, d.dict_bits, later, token, next.bits);
                law_tokens_are_written_in_order(
                    d.mode,
                    d.dict_bits,
                    later,
                    token,
                    roundtrip::write_token(
                        d.mode,
                        d.dict_bits,
                        Token::End,
                        next.bits.skip(16),
                    ),
                );
                law_tokens_are_applied_in_order(d.window, later, token);
                if later.len() > 0 {
                    assert(all.last() == later.last());
                    assert(all.drop_last() =~= seq![token] + later.drop_last());
                    law_tokens_are_applied_in_order(d.window, later.drop_last(), token);
                }
                assert forall|i: int| 0 <= i < all.len() implies match #[trigger] all[i] {
                    Token::Byte(byte) => true,
                    Token::Copy { length, distance } => {
                        &&& 2 <= length <= 518
                        &&& 1 <= distance <= 64 * power2::pow2(
                            if length == 2 {
                                2
                            } else {
                                d.dict_bits
                            },
                        )
                    },
                    Token::End => false,
                } by {
                    if i > 0 {
                        assert(all[i] == later[i - 1]);
                    }
                }
                all
            }
        },
        _ => {
            let s = d.bits;
            assert forall|token: Token, rest: Bits|
                (in_format(d.dict_bits, seq![token]) || token is End) && s
                    == #[trigger] roundtrip::write_token(
                    d.mode,
                    d.dict_bits,
                    token,
                    rest,
                ) implies rest.len < 8 && !(token is End && d.ended) by {
                assert(seq![token][0] == token);
                law_short_token_is_not_there(d.mode, d.dict_bits, s, d.ended, token, 0, rest);
            }
            assert forall|n: int, rest: Bits|
                0 <= n <= 0x305 && s == #[trigger] roundtrip::write_symbol(d.mode, n, rest)
                    && model::next_token(
                    d.mode,
                    d.dict_bits,
                    s,
                    d.ended,
                ) is ShortLiteral implies rest.len < 8 by {
                law_short_token_is_not_there(d.mode, d.dict_bits, s, d.ended, Token::End, n, rest);
            }
            law_short_token_is_not_there(d.mode, d.dict_bits, s, d.ended, Token::End, 0, s);
            none
        },
    }
}

/// What is drained is what a stream says: if all output comes out, the bits are those of tokens and of
/// the mark of the end in full, and the output is what the tokens say. A stream that is cut off gives
/// no output as if it were complete, in either mode.
pub proof fn law_drained_output_is_of_a_stream(d: Decoder) -> (result: (Seq<Token>, Bits))
    requires
        d.ready,
        !d.finished,
        d.drained() is Some,
        0x1000 <= d.window.len() < 0x2000,
        d.dict_bits <= 6,
    ensures
        ({
            let (tokens, padding) = result;
            &&& in_format(d.dict_bits, tokens)
            &&& d.bits == roundtrip::write_stream(d.mode, d.dict_bits, tokens, padding)
            &&& padding.len >= 8 || d.ended
            &&& d.drained() == Some(
                d.pending + model::apply_all(d.window, tokens).skip(0x1000),
            )
        }),
    decreases d.bits.len,
{
    let (next, outcome) = d.run();
    let first = law_run_carries_out_tokens(d);
    if next.finished {
        (first, next.bits.skip(16))
    } else {
        let (later, padding) = law_drained_output_is_of_a_stream(next);
        let all = first + later;
        assert forall|i: int| 0 <= i < all.len() implies match #[trigger] all[i] {
            Token::Byte(byte) => true,
            Token::Copy { length, distance } => {
                &&& 2 <= length <= 518
                &&& 1 <= distance <= 64 * power2::pow2(
                    if length == 2 {
                        2
                    } else {
                        d.dict_bits
                    },
                )
            },
            Token::End => false,
        } by {
            if i < first.len() {
                assert(all[i] == first[i]);
            } else {
                assert(all[i] == later[i - first.len()]);
            }
        }
        let end = roundtrip::write_token(d.mode, d.dict_bits, Token::End, padding);
        lemma_written_together(d.mode, d.dict_bits, first, later, end);
        lemma_applied_together(d.window, first, later);
        let reached = model::apply_all(d.window, first);
        let front = reached.take(0x1000);
        assert(front + next.window =~= reached);
        lemma_format_reach(d.dict_bits, later, next.window.len());
        model::law_old_history_can_be_dropped(front, next.window, later);
        roundtrip::lemma_starts_with_window(next.window, later);
        let whole = model::apply_all(d.window, all);
        let kept = model::apply_all(next.window, later);
        assert(whole =~= front + kept);
        let block = reached.subrange(0x1000, 0x2000);
        assert(block =~= kept.take(0x1000)) by {
            assert(kept.take(0x1000) =~= kept.take(next.window.len() as int).take(0x1000));
        }
        assert(whole.skip(0x1000) =~= block + kept.skip(0x1000));
        assert(d.pending + whole.skip(0x1000) =~= next.pending + kept.skip(0x1000));
        (all, padding)
    }
}

/// Tokens in the format reach back over at most 4 KiB.
proof fn lemma_format_reach(dict_bits: nat, tokens: Seq<Token>, reach: nat)
    requires
        in_format(dict_bits, tokens),
        dict_bits <= 6,
        reach >= 0x1000,
    ensures
        model::within_reach(tokens, reach),
{
    power2::lemma2_to64();
    assert forall|i: int| 0 <= i < tokens.len() implies (#[trigger] tokens[i] matches Token::Copy {
        length,
        distance,
    } ==> 1 <= distance <= reach) by {
        if let Token::Copy { length, distance } = tokens[i] {
            let low: nat = if length == 2 { 2 } else { dict_bits };
            if low < 6 {
                power2::lemma_pow2_strictly_increases(low, 6);
            }
        }
    }
}

/// Writing tokens after tokens.
proof fn lemma_written_together(
    mode: CompressionMode,
    dict_bits: nat,
    first: Seq<Token>,
    later: Seq<Token>,
    tail: Bits,
)
    ensures
        roundtrip::write_all(mode, dict_bits, first + later, tail) == roundtrip::write_all(
            mode,
            dict_bits,
            first,
            roundtrip::write_all(mode, dict_bits, later, tail),
        ),
    decreases first.len(),
{
    if first.len() == 0 {
        assert(first + later =~= later);
    } else {
        assert((first + later).drop_first() =~= first.drop_first() + later);
        lemma_written_together(mode, dict_bits, first.drop_first(), later, tail);
    }
}

/// Applying tokens after tokens.
proof fn lemma_applied_together(history: Seq<u8>, first: Seq<Token>, later: Seq<Token>)
    ensures
        model::apply_all(history, first + later) == model::apply_all(
            model::apply_all(history, first),
            later,
        ),
    decreases first.len(),
{
    if first.len() == 0 {
        assert(first + later =~= later);
    } else {
        assert((first + later).drop_first() =~= first.drop_first() + later);
        lemma_applied_together(model::apply(history, first[0]), first.drop_first(), later);
    }
}

/// Every stream is decoded: literals and repetitions of two to 516 bytes within the dictionary, or of
/// two bytes within the last 256, then the mark of the end, give what they say. Behind the mark there
/// are eight more bits, or the source has ended.
pub proof fn law_every_stream_is_decoded(d: Decoder, tokens: Seq<Token>, padding: Bits)
    requires
        d.ready,
        !d.finished,
        4 <= d.dict_bits <= 6,
        0x1000 <= d.window.len() < 0x2000,
        forall|i: int|
            0 <= i < tokens.len() ==> match #[trigger] tokens[i] {
                Token::Byte(byte) => true,
                Token::Copy { length, distance } => {
                    &&& 2 <= length <= 516
                    &&& 1 <= distance <= (if length == 2 {
                        256
                    } else if d.dict_bits == 4 {
                        1024
                    } else if d.dict_bits == 5 {
                        2048
                    } else {
                        4096int
                    })
                },
                Token::End => false,
            },
        padding.len >= 8 || d.ended,
        d.bits == roundtrip::write_stream(d.mode, d.dict_bits, tokens, padding),
    ensures
        d.drained() == Some(d.pending + model::apply_all(d.window, tokens).skip(0x1000)),
{
    power2::lemma2_to64();
    assert forall|i: int| 0 <= i < tokens.len() implies {
        &&& roundtrip::writable(d.dict_bits, #[trigger] tokens[i])
        &&& !(tokens[i] is End)
        &&& tokens[i] matches Token::Copy { length, distance } ==> length <= 516
    } by {}
    roundtrip::law_stream_roundtrip(d, tokens, padding);
}

/// A first piece of input is accepted if and only if it has more than four bytes, the first of which
/// is 0 or 1 and the second of which is 4, 5 or 6. Else the error says which of these fails first, and
/// names the byte.
pub proof fn law_headers_that_are_accepted(chunk: Seq<u8>, error: PkLibError)
    ensures
        model::header_ok(chunk) <==> chunk.len() > 4 && (chunk[0] == 0 || chunk[0] == 1) && (
        chunk[1] == 4 || chunk[1] == 5 || chunk[1] == 6),
        chunk.len() <= 4 ==> (model::header_error(error, chunk) <==> (error
            matches PkLibError::InvalidData(text) && text@ == "Not enough data"@)),
        chunk.len() > 4 && chunk[0] > 1 ==> (model::header_error(error, chunk) <==> error
            == PkLibError::InvalidCompressionMode(chunk[0])),
        chunk.len() > 4 && chunk[0] <= 1 && !(4 <= chunk[1] <= 6) ==> (model::header_error(
            error,
            chunk,
        ) <==> error == PkLibError::InvalidDictionaryBits(chunk[1])),
{
}

/// An accepted header says the mode and the dictionary size, and the bits of the stream are those of
/// the bytes behind it. Before any output lie 4096 zeros.
pub proof fn law_header_opens_the_stream(d: Decoder, chunk: Seq<u8>, i: int)
    requires
        chunk.len() > 4,
        chunk[0] <= 1,
        4 <= chunk[1] <= 6,
        2 <= i < chunk.len(),
    ensures
        ({
            let opened = d.opened(chunk);
            &&& opened.ready
            &&& opened.mode == if chunk[0] == 0 {
                CompressionMode::Binary
            } else {
                CompressionMode::ASCII
            }
            &&& opened.dict_bits == chunk[1]
            &&& opened.bits.len == 8 * (chunk.len() - 2)
            &&& opened.bits.value < power2::pow2(opened.bits.len)
            &&& (opened.bits.value / power2::pow2((8 * (i - 2)) as nat)) % 256 == chunk[i]
            &&& opened.window.len() == 0x1000
            &&& forall|k: int| 0 <= k < 0x1000 ==> #[trigger] opened.window[k] == 0
            &&& opened.finished == d.finished
            &&& opened.ended == d.ended
            &&& opened.pending == d.pending
        }),
{
    law_bytes_spell_their_bits(chunk.skip(2), i - 2);
}

/// A decompression that has not begun.
pub proof fn law_fresh_decoder_is_empty()
    ensures
        ({
            let d = Decoder::fresh();
            !d.ready && !d.finished && !d.ended && d.pending.len() == 0
        }),
{
}

/// More input adds the bits of its bytes behind those that are there, and an empty piece, and nothing
/// else, is the end of the source.
pub proof fn law_input_is_appended(d: Decoder, chunk: Seq<u8>, i: int)
    requires
        d.bits.wf(),
        0 <= i < chunk.len(),
    ensures
        ({
            let after = d.supplied(chunk);
            &&& after.bits.len == d.bits.len + 8 * chunk.len()
            &&& after.bits.value % power2::pow2(d.bits.len) == d.bits.value
            &&& (after.bits.value / power2::pow2((d.bits.len + 8 * i) as nat)) % 256 == chunk[i]
            &&& !after.ended
            &&& after == (Decoder { bits: after.bits, ended: false, ..d })
        }),
        d.supplied(Seq::empty()) == (Decoder { ended: true, ..d }),
{
    super::pieces::lemma_of_bytes_wf(chunk);
    law_bytes_spell_their_bits(chunk, i);
    law_more_bits_follow(d.bits, Bits::of_bytes(chunk), d.bits.len);
    div_mod::lemma_small_mod(d.bits.value, power2::pow2(d.bits.len));
    bits::lemma_div_div(d.supplied(chunk).bits.value, d.bits.len, (8 * i) as nat);
    let p = power2::pow2(d.bits.len);
    assert(p * 0 == 0) by (nonlinear_arith);
}

/// What the model of a reader is made of.
pub proof fn law_view_is_the_fields<R>(reader: &ExplodeReader<R>)
    requires
        reader.wf(),
    ensures
        ({
            let state = reader.state;
            let unread = Bits::of_bytes(state.in_buff@.skip(state.in_pos as int));
            let d = reader@;
            &&& d.ready == reader.initialized
            &&& d.finished == reader.finished
            &&& d.mode == state.ctype
            &&& d.dict_bits == state.dsize_bits
            &&& d.ended == state.in_ended
            &&& d.window == state.out_buff@.take(state.output_pos as int)
            &&& d.pending == reader.output_buffer@.skip(reader.output_pos as int)
            &&& d.bits.len == 8 + state.extra_bits + unread.len
            &&& d.bits.value == state.bit_buff + power2::pow2((8 + state.extra_bits) as nat)
                * unread.value
            &&& state.bit_buff < power2::pow2((8 + state.extra_bits) as nat)
            &&& state.in_pos <= state.in_buff@.len()
            &&& reader.output_pos <= reader.output_buffer@.len()
            &&& reader.initialized ==> {
                &&& 0x1000 <= state.output_pos < 0x2000
                &&& 4 <= state.dsize_bits <= 6
                &&& state.dsize_mask == power2::pow2(state.dsize_bits as nat) - 1
            }
        }),
{
}

/// A read gives pending output first, as much as fits, in order; only if there is none, it decodes.
pub proof fn law_pending_output_comes_first(d: Decoder, room: nat)
    ensures
        d.pending.len() > 0 ==> d.asked() == (d, Outcome::Written(0)),
        d.pending.len() == 0 ==> d.asked() == d.run(),
        d.handed(room) <= room,
        d.handed(room) <= d.pending.len(),
        d.handed(room) == room || d.handed(room) == d.pending.len(),
        d.taken(d.handed(room) as int).pending == d.pending.subrange(
            d.handed(room) as int,
            d.pending.len() as int,
        ),
        d.taken(d.handed(room) as int) == (Decoder {
            pending: d.taken(d.handed(room) as int).pending,
            ..d
        }),
{
    assert(d.pending.skip(d.handed(room) as int) =~= d.pending.subrange(
        d.handed(room) as int,
        d.pending.len() as int,
    ));
}

/// What a call of `expand` returns says how it came to its end, and an error says what is wrong.
pub proof fn law_results_tell_the_outcome<R>(result: Result<Progress>, count: nat)
    ensures
        ExplodeReader::<R>::tells(result, Outcome::NeedInput) <==> result == Ok::<
            Progress,
            PkLibError,
        >(Progress::NeedInput),
        ExplodeReader::<R>::tells(result, Outcome::Written(count)) <==> (result
            matches Ok(Progress::Written(n)) && n == count),
        ExplodeReader::<R>::tells(result, Outcome::Failed(Fault::Literal)) <==> (result
            matches Err(PkLibError::DecompressionError(text)) && text@ == "Decode error"@),
        ExplodeReader::<R>::tells(result, Outcome::Failed(Fault::Distance)) <==> (result
            matches Err(PkLibError::DecompressionError(text)) && text@ == "Invalid distance"@),
        ExplodeReader::<R>::tells(result, Outcome::Failed(Fault::Overflow)) <==> (result
            matches Err(PkLibError::DecompressionError(text)) && text@ == "Buffer overflow"@),
{
}

/// The symbol that is decoded is the one that the stream was written with, if eight more bits follow,
/// or if it is the mark of the end and the source has ended; else the answer is 0x306.
pub proof fn law_decoded_literal_was_written(state: &ExplodeState, n: int, rest: Bits)
    requires
        0 <= n <= 0x305,
        state.stream() == roundtrip::write_symbol(state.ctype, n, rest),
    ensures
        state.literal() == (if rest.len >= 8 || (n == 0x305 && state.in_ended) {
            n
        } else {
            0x306
        }),
{
    roundtrip::law_symbol_roundtrip(state.ctype, n, rest);
}

/// A stream that holds a symbol with eight more bits was written with it.
pub proof fn law_stream_starts_with_the_literal(state: &ExplodeState)
    ensures
        state.literal() <= 0x306,
        state.literal() < 0x306 ==> exists|rest: Bits|
            state.stream() == #[trigger] roundtrip::write_symbol(
                state.ctype,
                state.literal() as int,
                rest,
            ) && (rest.len >= 8 || (state.literal() == 0x305 && state.in_ended)),
{
    let s = state.stream();
    let n = codes::symbol_at(state.ctype, s.value);
    codes::lemma_symbol_at(state.ctype, s.value);
    if state.literal() < 0x306 {
        assert(codes::symbol_bits(state.ctype, 0x305) == 16);
        lemma_symbol_unread(state.ctype, s);
        assert(s.skip(codes::symbol_bits(state.ctype, n)).len >= 8 || n == 0x305);
    }
}

/// The distance that is decoded is the one that the stream was written with, if eight more bits
/// follow; else the answer is zero.
pub proof fn law_decoded_distance_was_written(
    state: &ExplodeState,
    rep_length: u32,
    distance: nat,
    rest: Bits,
)
    requires
        state.dsize_bits <= 6,
        1 <= distance <= 64 * power2::pow2(
            if rep_length == 2 {
                2
            } else {
                state.dsize_bits as nat
            },
        ),
        state.stream() == roundtrip::write_distance(
            distance,
            if rep_length == 2 {
                2
            } else {
                state.dsize_bits as nat
            },
            rest,
        ),
    ensures
        state.distance(rep_length) == (if rest.len >= 8 {
            distance
        } else {
            0
        }),
{
    let low: nat = if rep_length == 2 { 2 } else { state.dsize_bits as nat };
    power2::lemma2_to64();
    if low < 6 {
        power2::lemma_pow2_strictly_increases(low, 6);
    }
    roundtrip::law_distance_roundtrip(distance, low, rest);
}

/// A distance that is decoded is in the stream.
pub proof fn law_stream_starts_with_the_distance(
    state: &ExplodeState,
    rep_length: u32,
) -> (rest: Bits)
    requires
        state.dsize_bits <= 6,
    ensures
        state.distance(rep_length) > 0 ==> rest.len >= 8 && state.stream()
            == roundtrip::write_distance(
            state.distance(rep_length) as nat,
            if rep_length == 2 {
                2
            } else {
                state.dsize_bits as nat
            },
            rest,
        ),
{
    let s = state.stream();
    let low: nat = if rep_length == 2 { 2 } else { state.dsize_bits as nat };
    if state.distance(rep_length) > 0 {
        state::lemma_distance_range(s.value, low);
        lemma_distance_unread(s, low);
    }
    s.skip(codes::distance_bits(s.value, low))
}

/// What `decode_token` finds is the next token of the stream.
pub proof fn law_decoded_token_is_the_reading(state: &ExplodeState, decoded: Decoded)
    ensures
        state.reading() == model::next_token(
            state.ctype,
            state.dsize_bits as nat,
            state.stream(),
            state.in_ended,
        ),
        decoded.tells(state.reading()) ==> match decoded {
            Decoded::Byte(byte) => state.reading() matches Reading::Whole {
                token: Token::Byte(read),
                bits,
            } && read == byte,
            Decoded::Copy { length, distance } => state.reading() matches Reading::Whole {
                token: Token::Copy { length: l, distance: d },
                bits,
            } && l == length && d == distance,
            Decoded::End => state.reading() matches Reading::Whole { token: Token::End, bits },
            Decoded::ShortLiteral => state.reading() is ShortLiteral,
            Decoded::ShortDistance => state.reading() is ShortDistance,
        },
{
}

/// The lookup of a decode table: the last code that a number starts with, or what was there if it
/// starts with none.
pub proof fn law_table_entry_is_the_last_code(
    starts: Seq<u8>,
    lengths: Seq<u8>,
    n: nat,
    x: int,
    unset: u8,
) -> (i: int)
    ensures
        -1 <= i < n,
        i >= 0 ==> {
            &&& lookup::table_entry(starts, lengths, n, x, unset) == i % 256
            &&& x >= starts[i]
            &&& (x - starts[i]) % (power2::pow2(lengths[i] as nat) as int) == 0
        },
        i < 0 ==> lookup::table_entry(starts, lengths, n, x, unset) == unset,
        forall|j: int|
            i < j < n ==> !(x >= #[trigger] starts[j] && (x - starts[j]) % (power2::pow2(
                lengths[j] as nat,
            ) as int) == 0),
    decreases n,
{
    if n == 0 {
        -1
    } else if lookup::reaches(starts[n - 1] as nat, lengths[n - 1] as nat, x) {
        n - 1
    } else {
        law_table_entry_is_the_last_code(starts, lengths, (n - 1) as nat, x, unset)
    }
}

/// The lookup tables of a reader answer with the code that the next eight bits start with.
pub proof fn law_tables_find_the_codes(state: &ExplodeState, x: int)
    requires
        state.tables_wf(),
        0 <= x < 0x100,
    ensures
        ({
            let i = state.length_codes@[x] as int;
            &&& 0 <= i < 16
            &&& x as nat % power2::pow2(LEN_BITS[i] as nat) == LEN_CODE[i]
        }),
        ({
            let i = state.dist_pos_codes@[x] as int;
            &&& 0 <= i < 64
            &&& x as nat % power2::pow2(DIST_BITS[i] as nat) == DIST_CODE[i]
        }),
        state.len_bits@ == LEN_BITS@,
        state.ex_len_bits@ == EX_LEN_BITS@,
        state.len_base@ == LEN_BASE@,
        state.dist_bits@ == DIST_BITS@,
{
    let i = lookup::lemma_len_lookup(x as nat, 0);
    lookup::lemma_dist_lookup(x as nat, 0);
    codes::lemma_dist_at(x as nat);
    assert(x % 256 == x);
    assert(state.length_codes@[x] == i);
}

/// The tables of the ASCII mode lead from a stream to its byte. A code of up to eight bits is found by
/// the next eight bits; a longer one after four clear bits, six or eight, which its own bits say; and
/// where the next eight bits are not zero, the first table marks that.
pub proof fn law_ascii_tables_find_the_bytes(state: &ExplodeState, w: nat, c: int)
    requires
        state.tables_wf(),
        state.ctype == CompressionMode::ASCII,
        0 <= c < 256,
        w % power2::pow2(CH_BITS_ASC[c] as nat) == CH_CODE_ASC[c],
    ensures
        ({
            let first = state.offs_2c34@[(w % 256) as int];
            let left = state.ch_bits_asc@[c];
            if CH_BITS_ASC[c] <= 8 {
                first == c && c != 0xFF && left == CH_BITS_ASC[c]
            } else if w % 256 == 0 {
                &&& state.offs_2eb4@[((w / 256) % 256) as int] == c
                &&& left == CH_BITS_ASC[c] - 8
            } else if w % 64 == 0 {
                &&& first == 0xFF
                &&& state.offs_2e34@[((w / 64) % 128) as int] == c
                &&& left == CH_BITS_ASC[c] - 6
            } else {
                &&& first == 0xFF
                &&& state.offs_2d34@[((w / 16) % 256) as int] == c
                &&& left == CH_BITS_ASC[c] - 4
            }
        }),
{
    assert(codes::begins_asc(w, c));
    lookup::lemma_asc_lookup(w, c);
    lookup::lemma_asc_shape(c);
    assert(state.ascii_wf());
    assert(state.ch_bits_asc@[c] == lookup::asc_left(c));
    assert(state.offs_2c34@[(w % 256) as int] == lookup::asc_entry(0, 0, (w % 256) as int, 0));
}

/// What `gen_asc_tabs` fills is what the lookup needs: tables that were clear become those of the
/// ASCII mode.
pub proof fn law_ascii_tables_are_complete<R>(before: &ExplodeReader<R>, after: &ExplodeReader<R>)
    requires
        after.asc_tabs_from(before, 0),
        forall|x: int| 0 <= x < 0x100 ==> #[trigger] before.state.offs_2c34@[x] == 0,
        forall|x: int| 0 <= x < 0x100 ==> #[trigger] before.state.offs_2d34@[x] == 0,
        forall|x: int| 0 <= x < 0x80 ==> #[trigger] before.state.offs_2e34@[x] == 0,
        forall|x: int| 0 <= x < 0x100 ==> #[trigger] before.state.offs_2eb4@[x] == 0,
    ensures
        after.state.ascii_wf(),
{
}

/// Moving on in the stream changes nothing else, output changes nothing of the stream, and input
/// nothing of the output.
pub proof fn law_steps_keep_the_rest<R>(
    a: &ExplodeState,
    b: &ExplodeState,
    before: &ExplodeReader<R>,
    after: &ExplodeReader<R>,
)
    ensures
        b.moved_from(a) <==> *b == (ExplodeState {
            bit_buff: b.bit_buff,
            extra_bits: b.extra_bits,
            in_pos: b.in_pos,
            ..*a
        }),
        b.output_from(a) <==> *b == (ExplodeState {
            out_buff: b.out_buff,
            output_pos: b.output_pos,
            ..*a
        }),
        b.window() == b.out_buff@.take(b.output_pos as int),
        ExplodeReader::same_output(before, after) <==> *after == (ExplodeReader {
            state: after.state,
            initialized: after.initialized,
            ..*before
        }),
        after.only_asc_tabs_changed(before) ==> {
            &&& after.reader == before.reader
            &&& after.initialized == before.initialized
            &&& after.finished == before.finished
            &&& after.output_buffer == before.output_buffer
            &&& after.output_pos == before.output_pos
            &&& after.state == (ExplodeState {
                ch_bits_asc: after.state.ch_bits_asc,
                offs_2c34: after.state.offs_2c34,
                offs_2d34: after.state.offs_2d34,
                offs_2e34: after.state.offs_2e34,
                offs_2eb4: after.state.offs_2eb4,
                ..before.state
            })
        },
{
}

/// Before the header, decoding only asks for input, and after the end it does nothing.
pub proof fn law_nothing_to_decode(d: Decoder)
    ensures
        !d.ready ==> d.run() == (d, Outcome::NeedInput),
        d.ready && d.finished ==> d.run() == (d, Outcome::Written(0)),
{
}

/// Which places of the tables of the ASCII mode a byte fills. A code of up to eight bits fills every
/// place of the first table that starts with it. A longer one marks the place of its first eight bits
/// there, if they are not all clear, and fills every place that starts with what follows four clear
/// bits, six or eight.
pub proof fn law_ascii_places(c: int, x: int)
    requires
        0 <= c < 256,
        0 <= x,
    ensures
        ({
            let code = CH_CODE_ASC[c] as int;
            let size = CH_BITS_ASC[c] as int;
            &&& lookup::asc_fills(0, c, x) <==> if size <= 8 {
                x >= code && (x - code) % (power2::pow2(size as nat) as int) == 0
            } else {
                code % 256 != 0 && x == code % 256
            }
            &&& lookup::asc_fills(4, c, x) <==> size > 8 && code % 64 != 0 && x >= code / 16 && (x
                - code / 16) % (power2::pow2((size - 4) as nat) as int) == 0
            &&& lookup::asc_fills(6, c, x) <==> size > 8 && code % 64 == 0 && code % 256 != 0 && x
                >= code / 64 && (x - code / 64) % (power2::pow2((size - 6) as nat) as int) == 0
            &&& lookup::asc_fills(8, c, x) <==> size > 8 && code % 256 == 0 && x >= code / 256 && (x
                - code / 256) % (power2::pow2((size - 8) as nat) as int) == 0
            &&& lookup::asc_mark(0, c) == (if size <= 8 {
                c
            } else {
                0xFF
            })
            &&& size > 8 && code % 64 != 0 ==> lookup::asc_mark(4, c) == c
            &&& size > 8 && code % 64 == 0 && code % 256 != 0 ==> lookup::asc_mark(6, c) == c
            &&& size > 8 && code % 256 == 0 ==> lookup::asc_mark(8, c) == c
        }),
{
    power2::lemma2_to64();
    lookup::lemma_asc_shape(c);
    assert((CH_CODE_ASC[c] as nat) / power2::pow2(0) == CH_CODE_ASC[c]);
}

/// A place of a table of the ASCII mode holds what the lowest byte that fills it puts there, or what
/// was there before if none does. That byte is returned, or 256.
pub proof fn law_ascii_entry_is_the_lowest_byte(skip: nat, x: int, unset: u8, from: int) -> (c: int)
    requires
        0 <= from <= 256,
    ensures
        from <= c <= 256,
        c < 256 ==> lookup::asc_fills(skip, c, x) && lookup::asc_entry(skip, from, x, unset)
            == lookup::asc_mark(skip, c),
        c == 256 ==> lookup::asc_entry(skip, from, x, unset) == unset,
        forall|j: int| from <= j < c ==> !#[trigger] lookup::asc_fills(skip, j, x),
    decreases 256 - from,
{
    if from == 256 {
        256
    } else if lookup::asc_fills(skip, from, x) {
        from
    } else {
        law_ascii_entry_is_the_lowest_byte(skip, x, unset, from + 1)
    }
}

/// What `gen_asc_tabs` does to tables of any contents: each place gets its entry over what was there.
pub proof fn law_ascii_tables_are_filled<R>(
    before: &ExplodeReader<R>,
    after: &ExplodeReader<R>,
    x: int,
)
    requires
        after.asc_tabs_from(before, 0),
        0 <= x < 0x100,
    ensures
        after.state.offs_2c34@[x] == lookup::asc_entry(0, 0, x, before.state.offs_2c34@[x]),
        after.state.offs_2d34@[x] == lookup::asc_entry(4, 0, x, before.state.offs_2d34@[x]),
        x < 0x80 ==> after.state.offs_2e34@[x] == lookup::asc_entry(
            6,
            0,
            x,
            before.state.offs_2e34@[x],
        ),
        after.state.offs_2eb4@[x] == lookup::asc_entry(8, 0, x, before.state.offs_2eb4@[x]),
        after.state.ch_bits_asc@[x] == CH_BITS_ASC[x] - (if CH_BITS_ASC[x] <= 8 {
            0int
        } else if CH_CODE_ASC[x] % 256 == 0 {
            8
        } else if CH_CODE_ASC[x] % 64 == 0 {
            6
        } else {
            4
        }),
{
    lookup::lemma_asc_shape(x);
}

/// A state that holds nothing: no input, no output, and tables of zeros.
pub proof fn law_blank_state_is_empty(state: &ExplodeState, i: int)
    requires
        state.blank(),
    ensures
        state.in_buff@.len() == 0 && state.in_pos == 0 && !state.in_ended,
        state.bit_buff == 0 && state.extra_bits == 0 && state.dsize_bits == 0,
        state.output_pos == 0x1000,
        0 <= i < 0x2204 ==> state.out_buff@[i] == 0,
        0 <= i < 0x100 ==> {
            &&& state.dist_pos_codes@[i] == 0
            &&& state.length_codes@[i] == 0
            &&& state.offs_2c34@[i] == 0
            &&& state.offs_2d34@[i] == 0
            &&& state.offs_2eb4@[i] == 0
        },
        0 <= i < 0x80 ==> state.offs_2e34@[i] == 0,
{
}

} // verus!
