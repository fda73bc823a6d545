//! What is written is what is read.
//!
//! The compressor's tables say how a token is written; the decompressor's model says what is read.
use crate::bits;
use crate::bits::Bits;
use crate::codes;
use crate::common::CompressionMode;
use crate::explode::lookup;
use crate::explode::model;
use crate::explode::model::{Decoder, Reading, Token};
use crate::explode::{LITERAL_END_OF_STREAM, OUT_FLUSH, OUT_START};
use crate::implode::MAX_REP_LENGTH;
use crate::tables::{DIST_BITS, DIST_CODE, EX_LEN_BITS, LEN_BASE, LEN_BITS, LEN_CODE};
use vstd::arithmetic::div_mod;
use vstd::arithmetic::power2;
use vstd::prelude::*;

verus! {

/// Symbol `n`, followed by `rest`.
pub open spec fn write_symbol(mode: CompressionMode, n: int, rest: Bits) -> Bits {
    Bits::put(codes::symbol_code(mode, n), codes::symbol_bits(mode, n), rest)
}

/// A distance with `low` verbatim bits, followed by `rest`.
pub open spec fn write_distance(distance: nat, low: nat, rest: Bits) -> Bits {
    let stored = (distance - 1) as nat;
    let upper = (stored / power2::pow2(low)) as int;
    Bits::put(
        DIST_CODE[upper] as nat,
        DIST_BITS[upper] as nat,
        Bits::put(stored % power2::pow2(low), low, rest),
    )
}

/// A token that the format can express with `dict_bits` verbatim distance bits.
pub open spec fn writable(dict_bits: nat, token: Token) -> bool {
    token matches Token::Copy { length, distance } ==> {
        &&& 2 <= length <= 0x206
        &&& 1 <= distance <= 64 * power2::pow2(
            codes::low_distance_bits(length as int, dict_bits),
        )
    }
}

/// A token, followed by `rest`.
pub open spec fn write_token(
    mode: CompressionMode,
    dict_bits: nat,
    token: Token,
    rest: Bits,
) -> Bits {
    match token {
        Token::Byte(byte) => write_symbol(mode, byte as int, rest),
        Token::Copy { length, distance } => write_symbol(
            mode,
            (length + 0xFE) as int,
            write_distance(distance, codes::low_distance_bits(length as int, dict_bits), rest),
        ),
        Token::End => write_symbol(mode, LITERAL_END_OF_STREAM as int, rest),
    }
}

/// A symbol's code fits in its length.
pub proof fn lemma_symbol_fits(mode: CompressionMode, n: int)
    requires
        0 <= n < codes::SYMBOLS,
    ensures
        codes::symbol_code(mode, n) < power2::pow2(codes::symbol_bits(mode, n)),
{
    power2::lemma2_to64();
    let b = codes::symbol_bits(mode, n);
    power2::lemma_pow2_unfold(b);
    if n < 0x100 {
        if mode == CompressionMode::ASCII {
            lookup::lemma_asc_shape(n);
        }
    } else {
        let i = codes::length_index(n - 0x100);
        codes::lemma_length_index(n - 0x100);
        codes::lemma_len_fits(i);
        let c = LEN_CODE[i] as int;
        let e = n - 0x100 - LEN_BASE[i];
        let p = power2::pow2(LEN_BITS[i] as nat) as int;
        let x = power2::pow2(EX_LEN_BITS[i] as nat) as int;
        power2::lemma_pow2_adds(LEN_BITS[i] as nat, EX_LEN_BITS[i] as nat);
        assert(c + p * e < p * x) by (nonlinear_arith)
            requires
                0 <= c < p,
                0 <= e,
                e + 1 <= x,
        ;
    }
}

/// A number that is written in front of a stream is read back, and the stream is left.
pub proof fn lemma_put(code: nat, n: nat, rest: Bits)
    requires
        code < power2::pow2(n),
    ensures
        codes::begins(Bits::put(code, n, rest).value, code, n),
        Bits::put(code, n, rest).skip(n) == rest,
        Bits::put(code, n, rest).len == n + rest.len,
{
    bits::lemma_split(code, n, rest.value);
}

/// A symbol that is written is read back, and what follows it is left.
pub proof fn law_symbol_roundtrip(mode: CompressionMode, n: int, rest: Bits)
    requires
        0 <= n < codes::SYMBOLS,
    ensures
        codes::symbol_at(mode, write_symbol(mode, n, rest).value) == n,
        write_symbol(mode, n, rest).skip(codes::symbol_bits(mode, n)) == rest,
        write_symbol(mode, n, rest).len == codes::symbol_bits(mode, n) + rest.len,
{
    lemma_symbol_fits(mode, n);
    lemma_put(codes::symbol_code(mode, n), codes::symbol_bits(mode, n), rest);
    let v = write_symbol(mode, n, rest).value;
    codes::lemma_symbol_at(mode, v);
    assert(codes::begins_symbol(mode, v, n));
}

/// A distance that is written is read back, and what follows it is left.
pub proof fn law_distance_roundtrip(distance: nat, low: nat, rest: Bits)
    requires
        1 <= distance <= 64 * power2::pow2(low),
    ensures
        ({
            let written = write_distance(distance, low, rest);
            let size = codes::distance_bits(written.value, low);
            &&& codes::distance_at(written.value, low) == distance
            &&& written.skip(size) == rest
            &&& written.len == size + rest.len
        }),
{
    let stored = (distance - 1) as nat;
    let m = power2::pow2(low);
    power2::lemma_pow2_pos(low);
    let upper = (stored / m) as int;
    let lower = stored % m;
    div_mod::lemma_fundamental_div_mod(stored as int, m as int);
    div_mod::lemma_mod_bound(stored as int, m as int);
    assert(0 <= upper < 64) by {
        vstd::arithmetic::mul::lemma_mul_is_commutative(64, m as int);
        div_mod::lemma_multiply_divide_lt(stored as int, m as int, 64);
        div_mod::lemma_div_pos_is_pos(stored as int, m as int);
    }
    lookup::lemma_dist_fits(upper);
    let tail = Bits::put(lower, low, rest);
    let written = write_distance(distance, low, rest);
    lemma_put(lower, low, rest);
    lemma_put(DIST_CODE[upper] as nat, DIST_BITS[upper] as nat, tail);
    codes::lemma_dist_at(written.value);
    assert(codes::begins_dist(written.value, upper));
    bits::lemma_div_div(written.value, DIST_BITS[upper] as nat, low);
    vstd::arithmetic::mul::lemma_mul_is_commutative(upper, m as int);
}

/// A token that is written is read back, and what follows it is left: at least eight bits must
/// follow.
pub proof fn law_token_roundtrip(
    mode: CompressionMode,
    dict_bits: nat,
    token: Token,
    rest: Bits,
    ended: bool,
)
    requires
        writable(dict_bits, token),
        rest.len >= 8,
    ensures
        ({
            let written = write_token(mode, dict_bits, token, rest);
            let reading = model::next_token(mode, dict_bits, written, ended);
            &&& reading matches Reading::Whole { token: read, bits }
            &&& read == token
            &&& written.skip(bits) == rest
            &&& written.len == bits + rest.len
            &&& bits > 0
        }),
{
    let written = write_token(mode, dict_bits, token, rest);
    match token {
        Token::Byte(byte) => {
            law_symbol_roundtrip(mode, byte as int, rest);
        },
        Token::Copy { length, distance } => {
            let low = codes::low_distance_bits(length as int, dict_bits);
            let tail = write_distance(distance, low, rest);
            let n = (length + 0xFE) as int;
            law_distance_roundtrip(distance, low, rest);
            law_symbol_roundtrip(mode, n, tail);
            bits::lemma_div_div(
                written.value,
                codes::symbol_bits(mode, n),
                codes::distance_bits(tail.value, low),
            );
        },
        Token::End => {
            law_symbol_roundtrip(mode, LITERAL_END_OF_STREAM as int, rest);
        },
    }
}

/// A sequence of tokens, followed by `tail`.
pub open spec fn write_all(
    mode: CompressionMode,
    dict_bits: nat,
    tokens: Seq<Token>,
    tail: Bits,
) -> Bits
    decreases tokens.len(),
{
    if tokens.len() == 0 {
        tail
    } else {
        write_token(
            mode,
            dict_bits,
            tokens[0],
            write_all(mode, dict_bits, tokens.drop_first(), tail),
        )
    }
}

/// A whole stream: tokens, the mark of the end, and any bits behind it.
pub open spec fn write_stream(
    mode: CompressionMode,
    dict_bits: nat,
    tokens: Seq<Token>,
    padding: Bits,
) -> Bits {
    write_all(mode, dict_bits, tokens, write_token(mode, dict_bits, Token::End, padding))
}

/// Tokens of a compressor: bytes and repetitions that can be written, of at most the length that
/// the search for repetitions gives.
pub open spec fn compressor_tokens(dict_bits: nat, tokens: Seq<Token>) -> bool {
    forall|i: int|
        0 <= i < tokens.len() ==> {
            &&& writable(dict_bits, #[trigger] tokens[i])
            &&& !(tokens[i] is End)
            &&& tokens[i] matches Token::Copy { length, distance } ==> length <= MAX_REP_LENGTH
        }
}

/// A stream is at least as long as its end mark.
proof fn lemma_stream_length(
    mode: CompressionMode,
    dict_bits: nat,
    tokens: Seq<Token>,
    padding: Bits,
)
    ensures
        write_stream(mode, dict_bits, tokens, padding).len >= 16,
    decreases tokens.len(),
{
    if tokens.len() > 0 {
        lemma_stream_length(mode, dict_bits, tokens.drop_first(), padding);
    }
}

/// A writable distance lies in a 4 KiB dictionary.
proof fn lemma_reach(dict_bits: nat, token: Token)
    requires
        dict_bits <= 6,
        writable(dict_bits, token),
    ensures
        token matches Token::Copy { length, distance } ==> 1 <= distance <= OUT_START,
{
    power2::lemma2_to64();
    if let Token::Copy { length, distance } = token {
        let low = codes::low_distance_bits(length as int, dict_bits);
        if low < 6 {
            power2::lemma_pow2_strictly_increases(low, 6);
        }
    }
}

/// Decoding a stream in blocks gives what its tokens say: the pending output, then what the tokens
/// add to the window, no matter where in a block the decoder stands.
pub proof fn law_stream_roundtrip(d: Decoder, tokens: Seq<Token>, padding: Bits)
    requires
        d.ready,
        !d.finished,
        d.dict_bits <= 6,
        OUT_START <= d.window.len() < OUT_FLUSH,
        compressor_tokens(d.dict_bits, tokens),
        padding.len >= 8 || d.ended,
        d.bits == write_stream(d.mode, d.dict_bits, tokens, padding),
    ensures
        d.drained() == Some(d.pending + model::apply_all(d.window, tokens).skip(OUT_START as int)),
    decreases tokens.len(),
{
    if tokens.len() == 0 {
        law_symbol_roundtrip(d.mode, LITERAL_END_OF_STREAM as int, padding);
        assert(d.run() == d.finish());
    } else {
        let token = tokens[0];
        let rest = tokens.drop_first();
        let tail = write_stream(d.mode, d.dict_bits, rest, padding);
        lemma_stream_length(d.mode, d.dict_bits, rest, padding);
        law_token_roundtrip(d.mode, d.dict_bits, token, tail, d.ended);
        lemma_reach(d.dict_bits, token);
        let window = model::apply(d.window, token);
        let after = Decoder { bits: tail, window, ..d };
        assert(window.len() > d.window.len() && window.len() <= d.window.len() + MAX_REP_LENGTH) by {
            if let Token::Copy { length, distance } = token {
                model::lemma_replay(d.window, length, distance);
            }
        }
        assert forall|i: int| 0 <= i < rest.len() implies {
            &&& writable(d.dict_bits, #[trigger] rest[i])
            &&& !(rest[i] is End)
            &&& rest[i] matches Token::Copy { length, distance } ==> length <= MAX_REP_LENGTH
        } by {
            assert(rest[i] == tokens[i + 1]);
        }
        if window.len() >= OUT_FLUSH {
            let next = after.flush().0;
            assert(d.run() == after.flush());
            law_stream_roundtrip(next, rest, padding);
            let front = window.take((OUT_FLUSH - OUT_START) as int);
            assert(front + next.window =~= window);
            assert forall|i: int| 0 <= i < rest.len() implies (#[trigger] rest[i] matches Token::Copy {
                length,
                distance,
            } ==> 1 <= distance <= next.window.len()) by {
                lemma_reach(d.dict_bits, rest[i]);
            }
            model::law_old_history_can_be_dropped(front, next.window, rest);
            let all = model::apply_all(window, rest);
            let kept = model::apply_all(next.window, rest);
            assert(all =~= front + kept);
            lemma_starts_with_window(next.window, rest);
            let block = window.subrange(OUT_START as int, OUT_FLUSH as int);
            assert(block =~= kept.take(OUT_START as int));
            assert(all.skip(OUT_START as int) =~= block + kept.skip(OUT_START as int));
            assert(d.pending + all.skip(OUT_START as int) =~= next.pending + kept.skip(
                OUT_START as int,
            ));
        } else {
            assert(d.run() == after.run());
            law_stream_roundtrip(after, rest, padding);
        }
    }
}

/// Applying tokens changes no byte that is there.
pub proof fn lemma_starts_with_window(window: Seq<u8>, tokens: Seq<Token>)
    ensures
        model::apply_all(window, tokens).len() >= window.len(),
        model::apply_all(window, tokens).take(window.len() as int) == window,
    decreases tokens.len(),
{
    if tokens.len() > 0 {
        let next = model::apply(window, tokens[0]);
        if let Token::Copy { length, distance } = tokens[0] {
            model::lemma_replay(window, length, distance);
        }
        lemma_starts_with_window(next, tokens.drop_first());
        let all = model::apply_all(window, tokens);
        assert(next.take(window.len() as int) =~= window);
        assert(all.take(window.len() as int) =~= all.take(next.len() as int).take(
            window.len() as int,
        ));
    } else {
        assert(window.take(window.len() as int) =~= window);
    }
}

/// Decompressing a file gives back what was compressed: the first piece of input holds the header
/// and a whole stream, and what comes out is what the tokens of the stream say.
pub proof fn law_file_roundtrip(chunk: Seq<u8>, tokens: Seq<Token>, padding: Bits)
    requires
        model::header_ok(chunk),
        compressor_tokens(chunk[1] as nat, tokens),
        padding.len >= 8,
        Bits::of_bytes(chunk.skip(2)) == write_stream(
            if chunk[0] == 0 {
                CompressionMode::Binary
            } else {
                CompressionMode::ASCII
            },
            chunk[1] as nat,
            tokens,
            padding,
        ),
    ensures
        Decoder::fresh().opened(chunk).drained() == Some(
            model::apply_all(model::dictionary(), tokens).skip(OUT_START as int),
        ),
{
    let d = Decoder::fresh().opened(chunk);
    law_stream_roundtrip(d, tokens, padding);
    let out = model::apply_all(model::dictionary(), tokens).skip(OUT_START as int);
    assert(Seq::<u8>::empty() + out =~= out);
}

} // verus!
