//! How the input is cut into pieces does not matter.
use super::model;
use super::model::{Decoder, Outcome, Reading, Token};
use super::{LITERAL_END_OF_STREAM, OUT_BUFF_SIZE, OUT_FLUSH, OUT_START};
use crate::bits;
use crate::bits::Bits;
use crate::codes;
use crate::common::CompressionMode;
use crate::roundtrip;
use crate::tables::{DIST_BITS, DIST_CODE};
use vstd::arithmetic::power2;
use vstd::prelude::*;

verus! {

/// A sequence of byte sequences, joined.
pub open spec fn join(pieces: Seq<Seq<u8>>) -> Seq<u8>
    decreases pieces.len(),
{
    if pieces.len() == 0 {
        Seq::empty()
    } else {
        pieces[0] + join(pieces.drop_first())
    }
}

impl Decoder {
    /// All output of a decompression that gets the pieces one by one, each when more input is
    /// needed, and the end of the input after the last; nothing if it fails.
    pub open spec fn driven(self, pieces: Seq<Seq<u8>>) -> Option<Seq<u8>>
        decreases pieces.len(), self.bits.len,
    {
        match self.run() {
            (next, Outcome::Written(_)) => if next.finished {
                Some(next.pending)
            } else if next.bits.len < self.bits.len {
                next.driven(pieces)
            } else {
                None
            },
            (next, Outcome::NeedInput) => if pieces.len() == 0 {
                next.supplied(Seq::empty()).drained()
            } else {
                next.supplied(pieces[0]).driven(pieces.drop_first())
            },
            (next, Outcome::Failed(_)) => None,
        }
    }

    /// This state with more bits supplied.
    pub open spec fn with_more(self, more: Bits, ended: bool) -> Decoder {
        Decoder { bits: self.bits.followed_by(more), ended, ..self }
    }
}

/// Bytes spell a number below two to the number of their bits.
pub proof fn lemma_of_bytes_wf(bytes: Seq<u8>)
    ensures
        Bits::of_bytes(bytes).wf(),
    decreases bytes.len(),
{
    power2::lemma2_to64();
    if bytes.len() > 0 {
        let rest = bytes.drop_first();
        lemma_of_bytes_wf(rest);
        power2::lemma_pow2_adds(8, 8 * rest.len());
        assert(8 * bytes.len() == 8 + 8 * rest.len());
    }
}

/// One run of bits after another.
pub proof fn lemma_followed_by(s: Bits, t: Bits, n: nat)
    requires
        s.wf(),
        t.wf(),
    ensures
        s.followed_by(t).wf(),
        n <= s.len ==> s.followed_by(t).low(n) == s.low(n),
        n <= s.len ==> s.followed_by(t).skip(n) == s.skip(n).followed_by(t),
        n <= s.len ==> s.skip(n).wf(),
{
    if n <= s.len {
        bits::lemma_div_below(s.value, n, s.len, t.value);
        bits::lemma_div_bound(s.value, n, s.len);
    }
    power2::lemma_pow2_adds(s.len, t.len);
    let a = power2::pow2(s.len);
    let b = power2::pow2(t.len);
    let x = s.value;
    let y = t.value;
    assert(x + a * y < a * b) by (nonlinear_arith)
        requires
            x < a,
            y + 1 <= b,
    ;
}

/// A code that starts a stream starts every stream that goes on with it.
proof fn lemma_begins_more(s: Bits, t: Bits, code: nat, n: nat)
    requires
        s.wf(),
        t.wf(),
        n <= s.len,
    ensures
        codes::begins(s.followed_by(t).value, code, n) <==> codes::begins(s.value, code, n),
{
    lemma_followed_by(s, t, n);
}

/// A token that is there stays there when more input comes.
proof fn lemma_token_with_more(
    mode: CompressionMode,
    dict_bits: nat,
    s: Bits,
    t: Bits,
    ended: bool,
)
    requires
        s.wf(),
        t.wf(),
        model::next_token(mode, dict_bits, s, false) is Whole,
    ensures
        model::next_token(mode, dict_bits, s.followed_by(t), ended) == model::next_token(
            mode,
            dict_bits,
            s,
            false,
        ),
{
    let more = s.followed_by(t);
    let n = codes::symbol_at(mode, s.value);
    let size = codes::symbol_bits(mode, n);
    codes::lemma_symbol_at(mode, s.value);
    codes::lemma_symbol_at(mode, more.value);
    lemma_begins_more(s, t, codes::symbol_code(mode, n), size);
    assert(codes::begins_symbol(mode, more.value, n));
    if 0x100 <= n < LITERAL_END_OF_STREAM {
        let rest = s.skip(size);
        lemma_followed_by(s, t, size);
        let i = codes::dist_at(rest.value);
        let low = codes::low_distance_bits(n - 0xFE, dict_bits);
        codes::lemma_dist_at(rest.value);
        codes::lemma_dist_at(rest.followed_by(t).value);
        lemma_begins_more(rest, t, DIST_CODE[i] as nat, DIST_BITS[i] as nat);
        assert(codes::begins_dist(rest.followed_by(t).value, i));
        lemma_followed_by(rest, t, DIST_BITS[i] as nat);
        lemma_followed_by(rest.skip(DIST_BITS[i] as nat), t, low);
    }
}

/// What has been decoded does not change when more input comes: a call that needs input goes on
/// from where it stopped, and any other call comes to the same end.
pub proof fn law_more_input_changes_nothing(d: Decoder, more: Bits, ended: bool)
    requires
        d.ready,
        !d.finished,
        !d.ended,
        d.bits.wf(),
        more.wf(),
    ensures
        ({
            let (next, outcome) = d.run();
            let all = d.with_more(more, ended);
            &&& next.ready
            &&& !next.ended
            &&& next.bits.wf()
            &&& outcome is NeedInput ==> !next.finished && all.run() == next.with_more(
                more,
                ended,
            ).run()
            &&& !(outcome is NeedInput) ==> all.run() == (next.with_more(more, ended), outcome)
        }),
    decreases d.bits.len,
{
    let reading = model::next_token(d.mode, d.dict_bits, d.bits, false);
    let all = d.with_more(more, ended);
    if let Reading::Whole { token, bits } = reading {
        lemma_token_with_more(d.mode, d.dict_bits, d.bits, more, ended);
        if !(token is End) {
            lemma_followed_by(d.bits, more, bits);
            let window = model::apply(d.window, token);
            let after = Decoder { bits: d.bits.skip(bits), window, ..d };
            let all_after = Decoder { bits: all.bits.skip(bits), window, ..all };
            assert(all_after == after.with_more(more, ended));
            if window.len() < OUT_FLUSH {
                law_more_input_changes_nothing(after, more, ended);
            }
        }
    }
}

/// Supplying one byte sequence after another is supplying both at once.
pub proof fn lemma_supply_twice(s: Bits, a: Seq<u8>, b: Seq<u8>)
    ensures
        s.followed_by(Bits::of_bytes(a)).followed_by(Bits::of_bytes(b)) == s.followed_by(
            Bits::of_bytes(a + b),
        ),
{
    bits::lemma_le_value_add(a, b);
    let n = s.len;
    let k = 8 * a.len();
    power2::lemma_pow2_adds(n, k);
    let lo = bits::le_value(a);
    let hi = bits::le_value(b);
    assert(power2::pow2(n) * (lo + power2::pow2(k) * hi) == power2::pow2(n) * lo + power2::pow2(
        n + k,
    ) * hi) by (nonlinear_arith)
        requires
            power2::pow2(n + k) == power2::pow2(n) * power2::pow2(k),
    ;
}

/// Equal runs drain alike.
pub proof fn lemma_same_drained(c: Decoder, d: Decoder)
    requires
        c.ready,
        !c.finished,
        d.ready,
        !d.finished,
        c.run() == d.run(),
    ensures
        c.drained() == d.drained(),
{
    if c.run().1 is Written {
        model::lemma_run_takes_bits(c);
        model::lemma_run_takes_bits(d);
    }
}

/// A decompression gives the same output however its input is cut into pieces: it is the output
/// of decoding all input at once.
pub proof fn law_pieces_do_not_matter(d: Decoder, pieces: Seq<Seq<u8>>)
    requires
        d.ready,
        !d.finished,
        !d.ended,
        d.bits.wf(),
        forall|i: int| 0 <= i < pieces.len() ==> (#[trigger] pieces[i]).len() > 0,
    ensures
        d.driven(pieces) == d.with_more(Bits::of_bytes(join(pieces)), true).drained(),
    decreases pieces.len(), d.bits.len,
{
    let more = Bits::of_bytes(join(pieces));
    let all = d.with_more(more, true);
    let (next, outcome) = d.run();
    lemma_of_bytes_wf(join(pieces));
    law_more_input_changes_nothing(d, more, true);
    match outcome {
        Outcome::Written(_) => {
            model::lemma_run_takes_bits(d);
            model::lemma_run_takes_bits(all);
            if !next.finished {
                law_pieces_do_not_matter(next, pieces);
            }
        },
        Outcome::NeedInput => {
            lemma_same_drained(all, next.with_more(more, true));
            if pieces.len() == 0 {
                assert(next.supplied(Seq::empty()) == next.with_more(more, true));
            } else {
                let piece = pieces[0];
                let rest = pieces.drop_first();
                assert forall|i: int| 0 <= i < rest.len() implies (#[trigger] rest[i]).len()
                    > 0 by {
                    assert(rest[i] == pieces[i + 1]);
                }
                let fed = next.supplied(piece);
                lemma_of_bytes_wf(piece);
                lemma_followed_by(next.bits, Bits::of_bytes(piece), 0);
                law_pieces_do_not_matter(fed, rest);
                lemma_supply_twice(next.bits, piece, join(rest));
                assert(fed.with_more(Bits::of_bytes(join(rest)), true) == next.with_more(
                    more,
                    true,
                ));
            }
        },
        Outcome::Failed(_) => {},
    }
}

/// Decompressing a file gives back what was compressed, however the file is cut into pieces. The
/// first piece holds the header; whatever lies behind the end of the stream is ignored.
pub proof fn law_streamed_file_roundtrip(
    first: Seq<u8>,
    pieces: Seq<Seq<u8>>,
    tokens: Seq<Token>,
    padding: Bits,
)
    requires
        model::header_ok(first),
        forall|i: int| 0 <= i < pieces.len() ==> (#[trigger] pieces[i]).len() > 0,
        roundtrip::compressor_tokens(first[1] as nat, tokens),
        Bits::of_bytes((first + join(pieces)).skip(2)) == roundtrip::write_stream(
            if first[0] == 0 {
                CompressionMode::Binary
            } else {
                CompressionMode::ASCII
            },
            first[1] as nat,
            tokens,
            padding,
        ),
    ensures
        Decoder::fresh().opened(first).driven(pieces) == Some(
            model::apply_all(model::dictionary(), tokens).skip(OUT_START as int),
        ),
{
    let d = Decoder::fresh().opened(first);
    let start = first.skip(2);
    let rest = join(pieces);
    lemma_of_bytes_wf(start);
    law_pieces_do_not_matter(d, pieces);
    assert((first + rest).skip(2) =~= start + rest);
    bits::lemma_le_value_add(start, rest);
    let all = d.with_more(Bits::of_bytes(rest), true);
    roundtrip::law_stream_roundtrip(all, tokens, padding);
    let out = model::apply_all(model::dictionary(), tokens).skip(OUT_START as int);
    assert(Seq::<u8>::empty() + out =~= out);
}

/// When output is handed out does not matter: a state from which output has been taken decodes as
/// the full state does, and what stays pending is the rest of what would be.
pub proof fn law_handing_out_changes_nothing(d: Decoder, count: int)
    requires
        0 <= count <= d.pending.len(),
    ensures
        d.taken(count).run() == (d.run().0.taken(count), d.run().1),
        d.run().0.pending.take(count) == d.pending.take(count),
        d.run().0.pending.len() >= d.pending.len(),
    decreases d.bits.len,
{
    if d.ready && !d.finished {
        if let Reading::Whole { token, bits } = model::next_token(
            d.mode,
            d.dict_bits,
            d.bits,
            d.ended,
        ) {
            let window = model::apply(d.window, token);
            let after = Decoder { bits: d.bits.skip(bits), window, ..d };
            if token is End {
                let block = d.window.skip(OUT_START as int);
                assert((d.pending + block).skip(count) =~= d.pending.skip(count) + block);
                assert((d.pending + block).take(count) =~= d.pending.take(count));
            } else if window.len() <= OUT_BUFF_SIZE {
                if window.len() >= OUT_FLUSH {
                    let block = window.subrange(OUT_START as int, OUT_FLUSH as int);
                    assert((d.pending + block).skip(count) =~= d.pending.skip(count) + block);
                    assert((d.pending + block).take(count) =~= d.pending.take(count));
                } else {
                    law_handing_out_changes_nothing(after, count);
                    assert(after.taken(count) == Decoder {
                        bits: d.bits.skip(bits),
                        window,
                        ..d.taken(count)
                    });
                }
            }
        }
    }
}

} // verus!
