//! What a whole sequence of calls delivers.
use super::model;
use super::model::{Decoder, Outcome, Reading, Token};
use super::pieces;
use super::reader::ExplodeReader;
use super::{OUT_FLUSH, OUT_START};
use crate::bits;
use crate::bits::Bits;
use crate::roundtrip;
use vstd::prelude::*;

verus! {

/// A call of a reader that does not fail.
pub enum Call {
    /// A call of `expand`.
    Expand,
    /// A call of `read` with a buffer of `room` bytes: what it puts there, or nothing if more input
    /// is needed.
    Read { room: nat, got: Option<Seq<u8>> },
    /// A call of `supply`, after the header has been read.
    Supply(Seq<u8>),
}

/// `call` leads from `before` to `after`.
pub open spec fn leads(before: Decoder, call: Call, after: Decoder) -> bool {
    match call {
        Call::Expand => after == before.run().0 && !(before.run().1 is Failed),
        Call::Read { room, got } => {
            let (from, outcome) = before.asked();
            match outcome {
                Outcome::NeedInput => after == from && got is None,
                Outcome::Written(_) => {
                    let count = from.handed(room) as int;
                    after == from.taken(count) && got == Some(from.pending.take(count))
                },
                Outcome::Failed(_) => false,
            }
        },
        Call::Supply(chunk) => after == before.supplied(chunk),
    }
}

/// The calls lead from each of the states to the next.
pub open spec fn session(states: Seq<Decoder>, calls: Seq<Call>) -> bool {
    &&& states.len() == calls.len() + 1
    &&& forall|i: int|
        0 <= i < calls.len() ==> leads(states[i], #[trigger] calls[i], states[i + 1])
}

/// All input that the calls supply.
pub open spec fn input(calls: Seq<Call>) -> Seq<u8>
    decreases calls.len(),
{
    if calls.len() == 0 {
        Seq::empty()
    } else {
        let later = input(calls.drop_first());
        match calls[0] {
            Call::Supply(chunk) => chunk + later,
            _ => later,
        }
    }
}

/// All output that the calls hand out.
pub open spec fn output(calls: Seq<Call>) -> Seq<u8>
    decreases calls.len(),
{
    if calls.len() == 0 {
        Seq::empty()
    } else {
        let later = output(calls.drop_first());
        match calls[0] {
            Call::Read { room, got: Some(bytes) } => bytes + later,
            _ => later,
        }
    }
}

/// An empty piece is supplied only at the end of the source: no input comes after it, and no `rest`
/// is left in the source.
pub open spec fn orderly(calls: Seq<Call>, rest: Seq<u8>) -> bool
    decreases calls.len(),
{
    calls.len() == 0 || {
        &&& orderly(calls.drop_first(), rest)
        &&& calls[0] matches Call::Supply(chunk) ==> chunk.len() > 0 || (input(
            calls.drop_first(),
        ).len() == 0 && rest.len() == 0)
    }
}

/// The last call is a read that had room and found the end of the stream.
pub open spec fn read_to_the_end(calls: Seq<Call>) -> bool {
    &&& calls.len() > 0
    &&& calls.last() matches Call::Read { room, got: Some(bytes) }
    &&& room > 0
    &&& bytes.len() == 0
}

/// The state of a decompression with all bytes of its source supplied.
pub open spec fn complete(d: Decoder, bytes: Seq<u8>) -> Decoder {
    d.with_more(Bits::of_bytes(bytes), true)
}

/// No bytes add no bits.
proof fn lemma_nothing_more(s: Bits)
    ensures
        s.followed_by(Bits::of_bytes(Seq::empty())) == s,
{
    let p = vstd::arithmetic::power2::pow2(s.len);
    assert(p * 0 == 0) by (nonlinear_arith);
}

/// Decoding keeps the bits of the stream well-formed, and it ends or gives output.
proof fn lemma_run(d: Decoder)
    requires
        d.ready,
        !d.finished,
        d.bits.wf(),
    ensures
        d.run().0.ready,
        d.run().0.bits.wf(),
        d.run().0.pending.len() >= d.pending.len(),
        d.run().1 is Written ==> d.run().0.finished || d.run().0.pending.len() > d.pending.len(),
        d.run().1 is NeedInput ==> !d.ended,
        d.run().0.ended ==> d.ended,
    decreases d.bits.len,
{
    if let Reading::Whole { token, bits } = model::next_token(d.mode, d.dict_bits, d.bits, d.ended) {
        let window = model::apply(d.window, token);
        let after = Decoder { bits: d.bits.skip(bits), window, ..d };
        if !(token is End) {
            bits::lemma_div_bound(d.bits.value, bits, d.bits.len);
            if window.len() < OUT_FLUSH {
                lemma_run(after);
            }
        }
    }
}

/// A step of a decompression leaves what comes out in the end as it is.
proof fn lemma_run_of_all(d: Decoder, bytes: Seq<u8>)
    requires
        d.ready,
        !d.finished,
        d.bits.wf(),
        d.ended ==> bytes.len() == 0,
        !(d.run().1 is Failed),
    ensures
        d.run().0.finished ==> complete(d, bytes).drained() == Some(d.run().0.pending),
        !d.run().0.finished ==> complete(d, bytes).drained() == complete(
            d.run().0,
            bytes,
        ).drained(),
{
    let all = complete(d, bytes);
    let (next, outcome) = d.run();
    lemma_run(d);
    if d.ended {
        assert(bytes =~= Seq::empty());
        lemma_nothing_more(d.bits);
        assert(all == d);
        model::lemma_run_takes_bits(d);
        if !next.finished {
            lemma_nothing_more(next.bits);
            assert(complete(next, bytes) == next);
        }
    } else {
        let more = Bits::of_bytes(bytes);
        pieces::lemma_of_bytes_wf(bytes);
        pieces::law_more_input_changes_nothing(d, more, true);
        if outcome is NeedInput {
            pieces::lemma_same_drained(all, complete(next, bytes));
        } else {
            model::lemma_run_takes_bits(d);
            model::lemma_run_takes_bits(all);
        }
    }
}

/// Output that is handed out is the start of what comes out in the end, and what is left comes out
/// later.
proof fn lemma_drained_taken(d: Decoder, count: int)
    requires
        0 <= count <= d.pending.len(),
    ensures
        match d.drained() {
            Some(out) => {
                &&& out.len() >= d.pending.len()
                &&& out.take(count) == d.pending.take(count)
                &&& d.taken(count).drained() == Some(out.skip(count))
            },
            None => d.taken(count).drained() is None,
        },
    decreases d.bits.len,
{
    pieces::law_handing_out_changes_nothing(d, count);
    let (next, outcome) = d.run();
    if outcome is Written && !next.finished && next.bits.len < d.bits.len {
        lemma_drained_taken(next, count);
    }
}

/// Taking input now or later comes to the same.
proof fn lemma_supplied_of_all(d: Decoder, chunk: Seq<u8>, bytes: Seq<u8>)
    requires
        d.bits.wf(),
    ensures
        complete(d.supplied(chunk), bytes) == complete(d, chunk + bytes),
        d.supplied(chunk).bits.wf(),
{
    pieces::lemma_of_bytes_wf(chunk);
    pieces::lemma_followed_by(d.bits, Bits::of_bytes(chunk), 0);
    pieces::lemma_supply_twice(d.bits, chunk, bytes);
}

/// What a call supplies.
pub open spec fn given(call: Call) -> Seq<u8> {
    match call {
        Call::Supply(chunk) => chunk,
        _ => Seq::empty(),
    }
}

/// What a call hands out.
pub open spec fn handed_out(call: Call) -> Seq<u8> {
    match call {
        Call::Read { room, got: Some(bytes) } => bytes,
        _ => Seq::empty(),
    }
}

/// `e` has the output of `d` but for `got`, which was handed out, if `bytes` are still to come to `d`
/// and `fewer` to `e`.
spec fn keeps_output(d: Decoder, bytes: Seq<u8>, got: Seq<u8>, e: Decoder, fewer: Seq<u8>) -> bool {
    if d.finished {
        e.finished && d.pending == got + e.pending
    } else if e.finished {
        complete(d, bytes).drained() == Some(got + e.pending)
    } else {
        complete(e, fewer).drained() matches Some(out) ==> complete(d, bytes).drained() == Some(
            got + out,
        )
    }
}

/// Decoding keeps the output.
proof fn lemma_run_keeps_output(d: Decoder, bytes: Seq<u8>)
    requires
        d.ready,
        d.bits.wf(),
        d.ended ==> bytes.len() == 0,
        !(d.run().1 is Failed),
    ensures
        keeps_output(d, bytes, Seq::empty(), d.run().0, bytes),
{
    let next = d.run().0;
    assert(Seq::empty() + next.pending =~= next.pending);
    if !d.finished {
        lemma_run_of_all(d, bytes);
        if let Some(out) = complete(next, bytes).drained() {
            assert(Seq::empty() + out =~= out);
        }
    }
}

/// Handing out keeps the output.
proof fn lemma_taken_keeps_output(d: Decoder, bytes: Seq<u8>, count: int)
    requires
        0 <= count <= d.pending.len(),
    ensures
        keeps_output(d, bytes, d.pending.take(count), d.taken(count), bytes),
{
    assert(d.pending =~= d.pending.take(count) + d.pending.skip(count));
    if !d.finished {
        let all = complete(d, bytes);
        lemma_drained_taken(all, count);
        assert(all.taken(count) == complete(d.taken(count), bytes));
        if let Some(whole) = all.drained() {
            assert(whole =~= whole.take(count) + whole.skip(count));
        }
    }
}

/// Output is kept over two steps if it is kept over each.
proof fn lemma_keeps_output_twice(
    d: Decoder,
    bytes: Seq<u8>,
    c: Decoder,
    got: Seq<u8>,
    e: Decoder,
)
    requires
        keeps_output(d, bytes, Seq::empty(), c, bytes),
        keeps_output(c, bytes, got, e, bytes),
    ensures
        keeps_output(d, bytes, got, e, bytes),
{
    assert(Seq::empty() + c.pending =~= c.pending);
    if let Some(out) = complete(c, bytes).drained() {
        assert(Seq::empty() + out =~= out);
    }
}

/// A call keeps the output.
proof fn lemma_call_keeps_output(d: Decoder, call: Call, e: Decoder, bytes: Seq<u8>)
    requires
        leads(d, call, e),
        d.ready,
        d.bits.wf(),
        d.ended ==> given(call).len() == 0 && bytes.len() == 0,
    ensures
        keeps_output(d, given(call) + bytes, handed_out(call), e, bytes),
{
    assert(Seq::empty() + bytes =~= bytes);
    match call {
        Call::Supply(chunk) => {
            lemma_supplied_of_all(d, chunk, bytes);
            assert(Seq::empty() + e.pending =~= e.pending);
            if let Some(out) = complete(e, bytes).drained() {
                assert(Seq::empty() + out =~= out);
            }
        },
        Call::Expand => {
            lemma_run_keeps_output(d, bytes);
        },
        Call::Read { room, got } => {
            let (from, outcome) = d.asked();
            let count = from.handed(room) as int;
            if d.pending.len() == 0 {
                lemma_run_keeps_output(d, bytes);
            }
            if outcome is Written {
                lemma_taken_keeps_output(from, bytes, count);
                if d.pending.len() == 0 {
                    lemma_keeps_output_twice(d, bytes, from, from.pending.take(count), e);
                }
            }
        },
    }
}

/// A call keeps a state that can be read.
proof fn lemma_call_ready(d: Decoder, call: Call, e: Decoder)
    requires
        leads(d, call, e),
        d.ready,
        d.bits.wf(),
    ensures
        e.ready,
        e.bits.wf(),
        e.ended ==> d.ended || call == Call::Supply(Seq::empty()),
{
    if !d.finished {
        lemma_run(d);
    }
    if let Call::Supply(chunk) = call {
        lemma_supplied_of_all(d, chunk, Seq::empty());
        if chunk.len() == 0 {
            assert(chunk =~= Seq::empty());
        }
    }
}

/// What calls deliver until the end of the stream, together with what is then pending, is the output
/// of decoding the whole source at once: whatever calls there are, in whatever order, with whatever
/// buffers and pieces of input. No byte is lost, repeated or moved. A `rest` of the source that was
/// never taken does not matter.
pub proof fn law_calls_deliver_the_output(states: Seq<Decoder>, calls: Seq<Call>, rest: Seq<u8>)
    requires
        session(states, calls),
        states[0].ready,
        states[0].bits.wf(),
        orderly(calls, rest),
        states[0].ended ==> input(calls).len() == 0 && rest.len() == 0,
        states.last().finished,
    ensures
        !states[0].finished ==> complete(states[0], input(calls) + rest).drained() == Some(
            output(calls) + states.last().pending,
        ),
        states[0].finished ==> states[0].pending == output(calls) + states.last().pending,
    decreases calls.len(),
{
    let d = states[0];
    let last = states.last();
    if calls.len() == 0 {
        assert(output(calls) + last.pending =~= d.pending);
    } else {
        let call = calls[0];
        let e = states[1];
        let later = calls.drop_first();
        let after = states.drop_first();
        assert(leads(d, call, e));
        assert(session(after, later)) by {
            assert forall|i: int| 0 <= i < later.len() implies leads(
                after[i],
                #[trigger] later[i],
                after[i + 1],
            ) by {
                assert(later[i] == calls[i + 1]);
            }
        }
        let bytes = input(later) + rest;
        let out = output(later) + last.pending;
        assert(given(call) + bytes =~= input(calls) + rest);
        assert(handed_out(call) + out =~= output(calls) + last.pending);
        lemma_call_ready(d, call, e);
        lemma_call_keeps_output(d, call, e, bytes);
        law_calls_deliver_the_output(after, later, rest);
    }
}

/// A read that has room and hands out nothing has found the end: the stream has ended and nothing is
/// pending.
pub proof fn law_empty_read_is_the_end(before: Decoder, room: nat, after: Decoder)
    requires
        before.ready,
        before.bits.wf(),
        room > 0,
        leads(before, (Call::Read { room, got: Some(Seq::empty()) }), after),
    ensures
        after.finished,
        after.pending.len() == 0,
{
    if before.pending.len() == 0 && !before.finished {
        lemma_run(before);
    }
    let (from, outcome) = before.asked();
    let count = from.handed(room) as int;
    assert(from.pending.take(count).len() == count);
}

/// Calls keep a state that can be read.
proof fn lemma_session_ready(states: Seq<Decoder>, calls: Seq<Call>, i: int)
    requires
        session(states, calls),
        states[0].ready,
        states[0].bits.wf(),
        0 <= i < states.len(),
    ensures
        states[i].ready,
        states[i].bits.wf(),
    decreases i,
{
    if i > 0 {
        lemma_session_ready(states, calls, i - 1);
        assert(leads(states[i - 1], calls[i - 1], states[i]));
        lemma_call_ready(states[i - 1], calls[i - 1], states[i]);
    }
}

/// A source that is read to the end gives the output of decoding all of it at once.
pub proof fn law_read_gives_the_output(
    first: Seq<u8>,
    states: Seq<Decoder>,
    calls: Seq<Call>,
    rest: Seq<u8>,
)
    requires
        model::header_ok(first),
        states.len() > 0,
        states[0] == Decoder::fresh().opened(first),
        session(states, calls),
        orderly(calls, rest),
        read_to_the_end(calls),
    ensures
        complete(Decoder::fresh().opened(first + input(calls) + rest), Seq::empty()).drained()
            == Some(output(calls)),
{
    let d = states[0];
    let n = calls.len() - 1;
    pieces::lemma_of_bytes_wf(first.skip(2));
    lemma_session_ready(states, calls, n);
    if let Call::Read { room, got: Some(bytes) } = calls[n] {
        assert(bytes =~= Seq::empty());
        assert(leads(states[n], calls[n], states[n + 1]));
        law_empty_read_is_the_end(states[n], room, states[n + 1]);
    }
    law_calls_deliver_the_output(states, calls, rest);
    assert(output(calls) + states.last().pending =~= output(calls));
    let more = input(calls) + rest;
    let whole = first + input(calls) + rest;
    assert(whole.skip(2) =~= first.skip(2) + more);
    bits::lemma_le_value_add(first.skip(2), more);
    lemma_nothing_more(Bits::of_bytes(whole.skip(2)));
    assert(complete(Decoder::fresh().opened(whole), Seq::empty()) == complete(d, more));
}

/// Two readers of the same source deliver the same bytes, however their reads and their pieces of
/// input are split.
pub proof fn law_readers_agree(
    first_a: Seq<u8>,
    states_a: Seq<Decoder>,
    calls_a: Seq<Call>,
    rest_a: Seq<u8>,
    first_b: Seq<u8>,
    states_b: Seq<Decoder>,
    calls_b: Seq<Call>,
    rest_b: Seq<u8>,
)
    requires
        first_a + input(calls_a) + rest_a == first_b + input(calls_b) + rest_b,
        model::header_ok(first_a),
        states_a.len() > 0,
        states_a[0] == Decoder::fresh().opened(first_a),
        session(states_a, calls_a),
        orderly(calls_a, rest_a),
        read_to_the_end(calls_a),
        model::header_ok(first_b),
        states_b.len() > 0,
        states_b[0] == Decoder::fresh().opened(first_b),
        session(states_b, calls_b),
        orderly(calls_b, rest_b),
        read_to_the_end(calls_b),
    ensures
        output(calls_a) == output(calls_b),
{
    law_read_gives_the_output(first_a, states_a, calls_a, rest_a);
    law_read_gives_the_output(first_b, states_b, calls_b, rest_b);
}

/// The calls of `expand` and `supply` lead from each of the readers to the next.
pub open spec fn expanding<R>(readers: Seq<ExplodeReader<R>>, calls: Seq<Call>) -> bool {
    &&& readers.len() == calls.len() + 1
    &&& forall|i: int|
        0 <= i < calls.len() ==> match #[trigger] calls[i] {
            Call::Expand => {
                &&& ExplodeReader::expands(&readers[i], &readers[i + 1])
                &&& !(readers[i]@.run().1 is Failed)
            },
            Call::Supply(chunk) => ExplodeReader::supplies(&readers[i], &readers[i + 1], chunk),
            Call::Read { room, got } => false,
        }
}

/// Calls of `expand` and `supply` only add to the output.
proof fn lemma_expanding<R>(readers: Seq<ExplodeReader<R>>, calls: Seq<Call>, i: int)
    requires
        expanding(readers, calls),
        readers[0].initialized,
        readers[0]@.bits.wf(),
        0 <= i < readers.len(),
    ensures
        readers[i].initialized,
        readers[i]@.bits.wf(),
        readers[i].output_pos == readers[0].output_pos,
        readers[i].output_buffer@.len() >= readers[0].output_buffer@.len(),
        readers[i].output_buffer@.take(readers[0].output_buffer@.len() as int)
            == readers[0].output_buffer@,
    decreases i,
{
    let start = readers[0].output_buffer@;
    if i > 0 {
        lemma_expanding(readers, calls, i - 1);
        let before = readers[i - 1];
        let call = calls[i - 1];
        if !before.finished {
            lemma_run(before@);
        }
        match call {
            Call::Expand => {
                assert(ExplodeReader::expands(&before, &readers[i]));
                assert(before@.run().0.ready);
                assert(readers[i].output_buffer@.take(start.len() as int)
                    =~= readers[i].output_buffer@.take(before.output_buffer@.len() as int).take(
                    start.len() as int,
                ));
            },
            Call::Supply(chunk) => {
                assert(ExplodeReader::supplies(&before, &readers[i], chunk));
                lemma_supplied_of_all(before@, chunk, Seq::empty());
            },
            Call::Read { room, got } => {},
        }
    } else {
        assert(start.take(start.len() as int) =~= start);
    }
}

/// The calls of `expand` together append to the output buffer what the tokens of the stream say, also
/// where a repetition runs past the end of a block or reaches back over it.
pub proof fn law_expand_appends_what_the_tokens_say<R>(
    readers: Seq<ExplodeReader<R>>,
    calls: Seq<Call>,
    rest: Seq<u8>,
    tokens: Seq<Token>,
    padding: Bits,
)
    requires
        expanding(readers, calls),
        readers[0].wf(),
        readers[0].initialized,
        !readers[0].finished,
        !readers[0].state.in_ended,
        orderly(calls, rest),
        readers.last().finished,
        roundtrip::compressor_tokens(readers[0]@.dict_bits, tokens),
        readers[0]@.bits.followed_by(Bits::of_bytes(input(calls) + rest))
            == roundtrip::write_stream(
            readers[0]@.mode,
            readers[0]@.dict_bits,
            tokens,
            padding,
        ),
    ensures
        readers.last().output_buffer@ == readers[0].output_buffer@ + model::apply_all(
            readers[0]@.window,
            tokens,
        ).skip(OUT_START as int),
{
    let states = Seq::new(readers.len(), |i: int| readers[i]@);
    lemma_stream_wf(&readers[0]);
    assert forall|i: int| 0 <= i < calls.len() implies leads(
        states[i],
        #[trigger] calls[i],
        states[i + 1],
    ) by {
        lemma_expanding(readers, calls, i);
    }
    let d = readers[0]@;
    law_calls_deliver_the_output(states, calls, rest);
    lemma_no_reads(readers, calls);
    roundtrip::law_stream_roundtrip(complete(d, input(calls) + rest), tokens, padding);
    lemma_expanding(readers, calls, readers.len() - 1);
    let end = readers.last();
    let added = model::apply_all(d.window, tokens).skip(OUT_START as int);
    assert(end@.pending =~= Seq::empty() + end@.pending);
    assert(end@.pending == d.pending + added);
    let at = end.output_pos as int;
    let n = readers[0].output_buffer@.len() as int;
    assert(end.output_buffer@ =~= end.output_buffer@.take(at) + end@.pending);
    assert(end.output_buffer@.take(at) =~= end.output_buffer@.take(n).take(at));
    assert(readers[0].output_buffer@ =~= readers[0].output_buffer@.take(at) + d.pending);
    assert(end.output_buffer@ =~= readers[0].output_buffer@ + added);
}

/// The bits that a reader holds are well-formed.
proof fn lemma_stream_wf<R>(reader: &ExplodeReader<R>)
    requires
        reader.wf(),
    ensures
        reader@.bits.wf(),
{
    let state = reader.state;
    let unread = state.in_buff@.skip(state.in_pos as int);
    pieces::lemma_of_bytes_wf(unread);
    pieces::lemma_followed_by(
        Bits { value: state.bit_buff as nat, len: (8 + state.extra_bits) as nat },
        Bits::of_bytes(unread),
        0,
    );
}

/// Calls without a read hand out nothing.
proof fn lemma_no_reads<R>(readers: Seq<ExplodeReader<R>>, calls: Seq<Call>)
    requires
        expanding(readers, calls),
    ensures
        output(calls) == Seq::<u8>::empty(),
    decreases calls.len(),
{
    if calls.len() > 0 {
        let later = calls.drop_first();
        let after = readers.drop_first();
        assert forall|i: int| 0 <= i < later.len() implies match #[trigger] later[i] {
            Call::Expand => {
                &&& ExplodeReader::expands(&after[i], &after[i + 1])
                &&& !(after[i]@.run().1 is Failed)
            },
            Call::Supply(chunk) => ExplodeReader::supplies(&after[i], &after[i + 1], chunk),
            Call::Read { room, got } => false,
        } by {
            assert(later[i] == calls[i + 1]);
        }
        lemma_no_reads(after, later);
        assert(!(calls[0] is Read));
    }
}

} // verus!
