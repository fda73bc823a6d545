//! What a decompression does, as a function on mathematical values.
use super::{LITERAL_END_OF_STREAM, OUT_BUFF_SIZE, OUT_FLUSH, OUT_START};
use crate::bits::Bits;
use crate::codes;
use crate::common::{CompressionMode, PkLibError};
use vstd::prelude::*;

verus! {

/// One step of a stream.
pub enum Token {
    /// A literal byte.
    Byte(u8),
    /// `length` bytes, each the one that lies `distance` bytes back.
    Copy { length: nat, distance: nat },
    /// The end of the stream.
    End,
}

/// What is found at the start of the bits that have been supplied.
pub enum Reading {
    /// A token of `bits` bits.
    Whole { token: Token, bits: nat },
    /// The bits stop short of the end of a literal or length.
    ShortLiteral,
    /// The bits stop short of the end of a distance.
    ShortDistance,
}

/// Why a stream cannot be decoded.
pub enum Fault {
    /// The input ends within a literal or a length.
    Literal,
    /// The input ends within a distance.
    Distance,
    /// A repetition does not fit in the output buffer.
    Overflow,
}

/// How a call that decodes comes to its end.
pub enum Outcome {
    /// More input is needed.
    NeedInput,
    /// So many bytes were added to the pending output.
    Written(nat),
    /// The stream cannot be decoded.
    Failed(Fault),
}

/// The state of a decompression.
pub struct Decoder {
    /// Whether the header has been read.
    pub ready: bool,
    /// Whether the end of the stream has been read.
    pub finished: bool,
    /// The compression mode.
    pub mode: CompressionMode,
    /// The number of low distance bits that are stored verbatim.
    pub dict_bits: nat,
    /// The bits that have been supplied and not been decoded.
    pub bits: Bits,
    /// Whether the source has reported its end.
    pub ended: bool,
    /// The dictionary, followed by the output of the block at hand.
    pub window: Seq<u8>,
    /// Output that has not been handed out.
    pub pending: Seq<u8>,
}

/// What `bits` start with. Every token must be followed by eight more bits; only the end of the
/// stream needs none when the source has ended.
pub open spec fn next_token(mode: CompressionMode, dict_bits: nat, bits: Bits, ended: bool) -> Reading {
    let n = codes::symbol_at(mode, bits.value);
    let size = codes::symbol_bits(mode, n);
    if n == LITERAL_END_OF_STREAM {
        if bits.len >= size + 8 || (ended && bits.len >= 16) {
            Reading::Whole { token: Token::End, bits: size }
        } else {
            Reading::ShortLiteral
        }
    } else if bits.len < size + 8 {
        Reading::ShortLiteral
    } else if n < 0x100 {
        Reading::Whole { token: Token::Byte(n as u8), bits: size }
    } else {
        let length = (n - 0xFE) as nat;
        let rest = bits.skip(size);
        let low = codes::low_distance_bits(length as int, dict_bits);
        let more = codes::distance_bits(rest.value, low);
        if rest.len < more + 8 {
            Reading::ShortDistance
        } else {
            Reading::Whole {
                token: Token::Copy { length, distance: codes::distance_at(rest.value, low) },
                bits: size + more,
            }
        }
    }
}

/// `history` and `length` more bytes, each the one that lies `distance` bytes back. The
/// distance may be smaller than the length.
pub open spec fn replay(history: Seq<u8>, length: nat, distance: nat) -> Seq<u8>
    decreases length,
{
    if length == 0 {
        history
    } else {
        let so_far = replay(history, (length - 1) as nat, distance);
        so_far.push(so_far[so_far.len() - distance])
    }
}

/// `history` and what a token adds to it.
pub open spec fn apply(history: Seq<u8>, token: Token) -> Seq<u8> {
    match token {
        Token::Byte(byte) => history.push(byte),
        Token::Copy { length, distance } => replay(history, length, distance),
        Token::End => history,
    }
}

/// `history` and what a sequence of tokens adds to it.
pub open spec fn apply_all(history: Seq<u8>, tokens: Seq<Token>) -> Seq<u8>
    decreases tokens.len(),
{
    if tokens.len() == 0 {
        history
    } else {
        apply_all(apply(history, tokens[0]), tokens.drop_first())
    }
}

/// The error that reports a fault.
pub open spec fn reports(error: PkLibError, fault: Fault) -> bool {
    error matches PkLibError::DecompressionError(text) && text@ == (match fault {
        Fault::Literal => "Decode error"@,
        Fault::Distance => "Invalid distance"@,
        Fault::Overflow => "Buffer overflow"@,
    })
}

/// The dictionary before any output.
pub open spec fn dictionary() -> Seq<u8> {
    Seq::new(OUT_START as nat, |i: int| 0u8)
}

impl Decoder {
    /// A decompression that has not begun.
    pub open spec fn fresh() -> Decoder {
        Decoder {
            ready: false,
            finished: false,
            mode: CompressionMode::Binary,
            dict_bits: 0,
            bits: Bits { value: 0, len: 8 },
            ended: false,
            window: dictionary(),
            pending: Seq::empty(),
        }
    }

    /// Decodes until a block of output is full, the stream ends, the input runs out or the
    /// stream turns out to be broken.
    pub open spec fn run(self) -> (Decoder, Outcome)
        decreases self.bits.len,
    {
        if !self.ready {
            (self, Outcome::NeedInput)
        } else if self.finished {
            (self, Outcome::Written(0))
        } else {
            match next_token(self.mode, self.dict_bits, self.bits, self.ended) {
                Reading::ShortLiteral => self.short(Fault::Literal),
                Reading::ShortDistance => self.short(Fault::Distance),
                Reading::Whole { token, bits } => {
                    let window = apply(self.window, token);
                    let after = Decoder { bits: self.bits.skip(bits), window, ..self };
                    if token is End {
                        self.finish()
                    } else if window.len() > OUT_BUFF_SIZE {
                        (
                            Decoder { bits: self.bits.skip(bits), ..self },
                            Outcome::Failed(Fault::Overflow),
                        )
                    } else if window.len() >= OUT_FLUSH {
                        after.flush()
                    } else {
                        after.run()
                    }
                },
            }
        }
    }

    /// What a read starts with: the pending output if there is any, or else one more block.
    pub open spec fn asked(self) -> (Decoder, Outcome) {
        if self.pending.len() > 0 {
            (self, Outcome::Written(0))
        } else {
            self.run()
        }
    }

    /// All output that comes without more input, if the stream ends: what is pending when block
    /// after block has been decoded and nothing has been handed out.
    pub open spec fn drained(self) -> Option<Seq<u8>>
        decreases self.bits.len,
    {
        match self.run() {
            (next, Outcome::Written(_)) => if next.finished {
                Some(next.pending)
            } else if next.bits.len < self.bits.len {
                next.drained()
            } else {
                None
            },
            _ => None,
        }
    }

    /// The input has run out: more is needed, or the stream is cut off.
    pub open spec fn short(self, fault: Fault) -> (Decoder, Outcome) {
        if self.ended {
            (Decoder { ended: false, ..self }, Outcome::Failed(fault))
        } else {
            (self, Outcome::NeedInput)
        }
    }

    /// The end of the stream: the block at hand becomes pending output.
    pub open spec fn finish(self) -> (Decoder, Outcome) {
        let block = self.window.skip(OUT_START as int);
        (
            Decoder { finished: true, pending: self.pending + block, ..self },
            Outcome::Written(block.len()),
        )
    }

    /// A full block becomes pending output and the dictionary of the next one; what has run
    /// past its end starts the next block.
    pub open spec fn flush(self) -> (Decoder, Outcome) {
        let block = self.window.subrange(OUT_START as int, OUT_FLUSH as int);
        (
            Decoder {
                window: self.window.skip((OUT_FLUSH - OUT_START) as int),
                pending: self.pending + block,
                ..self
            },
            Outcome::Written((OUT_FLUSH - OUT_START) as nat),
        )
    }

    /// More input, or the end of the input if `chunk` is empty.
    pub open spec fn supplied(self, chunk: Seq<u8>) -> Decoder {
        Decoder {
            bits: self.bits.followed_by(Bits::of_bytes(chunk)),
            ended: chunk.len() == 0,
            ..self
        }
    }

    /// A decompression whose first input is `chunk`: two header bytes and the start of the
    /// stream.
    pub open spec fn opened(self, chunk: Seq<u8>) -> Decoder {
        Decoder {
            ready: true,
            mode: if chunk[0] == 0 {
                CompressionMode::Binary
            } else {
                CompressionMode::ASCII
            },
            dict_bits: chunk[1] as nat,
            bits: Bits::of_bytes(chunk.skip(2)),
            window: dictionary(),
            ..self
        }
    }

    /// How many bytes of the pending output fit into `room` bytes.
    pub open spec fn handed(self, room: nat) -> nat {
        if room < self.pending.len() {
            room
        } else {
            self.pending.len()
        }
    }

    /// `count` bytes of the pending output handed out.
    pub open spec fn taken(self, count: int) -> Decoder {
        Decoder { pending: self.pending.skip(count), ..self }
    }
}

/// A first piece of input that is a header and the start of a stream.
pub open spec fn header_ok(chunk: Seq<u8>) -> bool {
    &&& chunk.len() > 4
    &&& chunk[0] <= 1
    &&& 4 <= chunk[1] <= 6
}

/// The error that reports what is wrong with a first piece of input.
pub open spec fn header_error(error: PkLibError, chunk: Seq<u8>) -> bool {
    if chunk.len() <= 4 {
        error matches PkLibError::InvalidData(text) && text@ == "Not enough data"@
    } else if chunk[0] > 1 {
        error == PkLibError::InvalidCompressionMode(chunk[0])
    } else {
        error == PkLibError::InvalidDictionaryBits(chunk[1])
    }
}

/// A replay adds `length` bytes and changes none.
pub proof fn lemma_replay(history: Seq<u8>, length: nat, distance: nat)
    ensures
        replay(history, length, distance).len() == history.len() + length,
        replay(history, length, distance).take(history.len() as int) == history,
    decreases length,
{
    if length > 0 {
        lemma_replay(history, (length - 1) as nat, distance);
        let so_far = replay(history, (length - 1) as nat, distance);
        assert(replay(history, length, distance).take(history.len() as int) =~= so_far.take(
            history.len() as int,
        ));
    }
}

/// A block that is decoded takes bits of the stream.
pub proof fn lemma_run_takes_bits(d: Decoder)
    requires
        d.ready,
        !d.finished,
        d.run().1 is Written,
    ensures
        d.run().0.finished || d.run().0.bits.len < d.bits.len,
        d.run().0.ready,
        !d.run().0.finished ==> d.run().0.ended == d.ended,
    decreases d.bits.len,
{
    if let Reading::Whole { token, bits } = next_token(d.mode, d.dict_bits, d.bits, d.ended) {
        if !(token is End) {
            let window = apply(d.window, token);
            let after = Decoder { bits: d.bits.skip(bits), window, ..d };
            if window.len() < OUT_FLUSH {
                lemma_run_takes_bits(after);
            }
        }
    }
}

/// A replay looks no further back than its distance.
pub proof fn lemma_replay_suffix(front: Seq<u8>, history: Seq<u8>, length: nat, distance: nat)
    requires
        1 <= distance <= history.len(),
    ensures
        replay(front + history, length, distance) == front + replay(history, length, distance),
    decreases length,
{
    if length > 0 {
        let shorter = (length - 1) as nat;
        lemma_replay_suffix(front, history, shorter, distance);
        lemma_replay(history, shorter, distance);
        let near = replay(history, shorter, distance);
        assert((front + near).push((front + near)[(front + near).len() - distance]) =~= front
            + near.push(near[near.len() - distance]));
    }
}

/// A token looks no further back than its distance.
pub proof fn lemma_apply_suffix(front: Seq<u8>, history: Seq<u8>, token: Token)
    requires
        token matches Token::Copy { length, distance } ==> 1 <= distance <= history.len(),
    ensures
        apply(front + history, token) == front + apply(history, token),
        apply(history, token).len() >= history.len(),
{
    match token {
        Token::Byte(byte) => {
            assert((front + history).push(byte) =~= front + history.push(byte));
        },
        Token::Copy { length, distance } => {
            lemma_replay_suffix(front, history, length, distance);
            lemma_replay(history, length, distance);
        },
        Token::End => {},
    }
}

/// Every repetition reaches back by at most `reach` bytes.
pub open spec fn within_reach(tokens: Seq<Token>, reach: nat) -> bool {
    forall|i: int|
        0 <= i < tokens.len() ==> (#[trigger] tokens[i] matches Token::Copy { length, distance }
            ==> 1 <= distance <= reach)
}

/// Only as much history matters as the repetitions reach back: what lies before can be dropped and
/// put back.
pub proof fn law_old_history_can_be_dropped(front: Seq<u8>, history: Seq<u8>, tokens: Seq<Token>)
    requires
        within_reach(tokens, history.len()),
    ensures
        apply_all(front + history, tokens) == front + apply_all(history, tokens),
        apply_all(history, tokens).len() >= history.len(),
    decreases tokens.len(),
{
    if tokens.len() > 0 {
        let rest = tokens.drop_first();
        let next = apply(history, tokens[0]);
        lemma_apply_suffix(front, history, tokens[0]);
        assert forall|i: int| 0 <= i < rest.len() implies (#[trigger] rest[i] matches Token::Copy {
            length,
            distance,
        } ==> 1 <= distance <= next.len()) by {
            assert(rest[i] == tokens[i + 1]);
        }
        law_old_history_can_be_dropped(front, next, rest);
    }
}

} // verus!
