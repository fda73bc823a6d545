//! Streaming decompression.
use super::model;
use super::model::{Decoder, Outcome};
use super::state::{Decoded, ExplodeState};
use super::{OUT_BUFF_SIZE, OUT_FLUSH, OUT_START};
use crate::bits;
use crate::common::{CompressionMode, PkLibError, Result};
use crate::explode::lookup;
use crate::tables::{
    CH_BITS_ASC, CH_CODE_ASC, DIST_BITS, DIST_CODE, EX_LEN_BITS, LEN_BASE, LEN_BITS, LEN_CODE,
};
use vstd::arithmetic::div_mod;
use vstd::arithmetic::power2;
use vstd::prelude::*;

verus! {

/// Decompresses what comes from a source of type `R`.
///
/// The reader decides and the owner of the source acts: a method that returns `NeedInput` is
/// called again after the next piece of input has been taken from `reader` and handed to
/// `supply`.
#[derive(Debug)]
pub struct ExplodeReader<R> {
    /// The source of the compressed data.
    pub reader: R,
    /// The state of the decompression.
    pub state: ExplodeState,
    /// Whether the header has been read.
    pub initialized: bool,
    /// Whether the end of the stream has been read.
    pub finished: bool,
    /// Decompressed data.
    pub output_buffer: Vec<u8>,
    /// How much of the decompressed data has been handed out.
    pub output_pos: usize,
}

/// How far `expand` got.
#[derive(Debug, Clone, Copy, PartialEq, Eq, Structural)]
pub enum Progress {
    /// It cannot go on without more input.
    NeedInput,
    /// It added so many bytes of output; zero means that the stream has ended.
    Written(usize),
}

/// How far `read` got.
#[derive(Debug, Clone, Copy, PartialEq, Eq, Structural)]
pub enum ReadStep {
    /// It cannot go on without more input.
    NeedInput,
    /// It filled so many bytes; zero means that the stream has ended, or that there was no room.
    Read(usize),
}

/// Writes `value` to every place below `limit` that is reached from `start` in steps of
/// `2^step_bits`.
pub fn fill_steps(table: &mut [u8], start: u32, step_bits: u32, limit: u32, value: u8)
    requires
        step_bits < 32,
        limit <= 0x100,
    ensures
        final(table)@.len() == old(table)@.len(),
        forall|x: int|
            0 <= x < old(table)@.len() ==> #[trigger] final(table)@[x] == (if x < limit
                && lookup::reaches(start as nat, step_bits as nat, x) {
                value
            } else {
                old(table)@[x]
            }),
        forall|x: int|
            0 <= x < old(table)@.len() ==> #[trigger] final(table)@[x] == (if start <= x < limit
                && (x - start) % (power2::pow2(step_bits as nat) as int) == 0 {
                value
            } else {
                old(table)@[x]
            }),
{
    proof {
        power2::lemma2_to64();
        power2::lemma_pow2_pos(step_bits as nat);
        if step_bits < 31 {
            power2::lemma_pow2_strictly_increases(step_bits as nat, 31);
        }
        vstd::bits::lemma_u32_shl_is_mul(1, step_bits);
        div_mod::lemma_small_mod(0, power2::pow2(step_bits as nat));
    }
    let step: u32 = 1u32 << step_bits;
    let mut index: u32 = start;
    while index < limit
        invariant
            step == power2::pow2(step_bits as nat),
            0 < step <= 0x8000_0000,
            limit <= 0x100,
            index >= start,
            (index - start) % (step as int) == 0,
            table@.len() == old(table)@.len(),
            forall|x: int|
                0 <= x < table@.len() ==> #[trigger] table@[x] == (if x < limit && x < index
                    && lookup::reaches(start as nat, step_bits as nat, x) {
                    value
                } else {
                    old(table)@[x]
                }),
        decreases u32::MAX - index,
    {
        let ghost before = table@;
        if (index as usize) < table.len() {
            table[index as usize] = value;
        }
        proof {
            div_mod::lemma_mod_add_multiples_vanish(index - start, step as int);
            assert forall|x: int| index < x < index + step implies !lookup::reaches(
                start as nat,
                step_bits as nat,
                x,
            ) by {
                let d = x - index;
                div_mod::lemma_mod_adds(index - start, d, step as int);
                div_mod::lemma_small_mod(d as nat, step as nat);
            }
        }
        index = index + step;
    }
}

impl<R> View for ExplodeReader<R> {
    type V = Decoder;

    /// The state of the decompression.
    open spec fn view(&self) -> Decoder {
        Decoder {
            ready: self.initialized,
            finished: self.finished,
            mode: self.state.ctype,
            dict_bits: self.state.dsize_bits as nat,
            bits: self.state.stream(),
            ended: self.state.in_ended,
            window: self.state.out_buff@.take(self.state.output_pos as int),
            pending: self.output_buffer@.skip(self.output_pos as int),
        }
    }
}

impl<R> ExplodeReader<R> {
    /// The invariant of a reader.
    pub open spec fn wf(&self) -> bool {
        &&& self.output_pos <= self.output_buffer@.len()
        &&& self.state.bits_wf()
        &&& self.initialized ==> self.state.wf()
        &&& self.initialized ==> OUT_START <= self.state.output_pos < OUT_FLUSH
        &&& !self.initialized ==> self.state.blank()
        &&& !self.initialized ==> !self.finished && self@.pending == Seq::<u8>::empty()
    }

    /// A reader of the compressed data that `reader` gives.
    pub fn new(reader: R) -> (result: Result<Self>)
        ensures
            result matches Ok(made) && made.wf() && made.reader == reader && made@
                == Decoder::fresh() && made.output_pos == 0 && made.output_buffer@.len() == 0,
    {
        let made = ExplodeReader {
            reader,
            state: ExplodeState::new(),
            initialized: false,
            finished: false,
            output_buffer: Vec::new(),
            output_pos: 0,
        };
        proof {
            made.lemma_blank_view();
        }
        Ok(made)
    }

    /// What a blank reader looks like.
    proof fn lemma_blank_view(&self)
        requires
            self.state.blank(),
            !self.initialized,
            !self.finished,
            self.output_buffer@.len() == 0,
            self.output_pos == 0,
        ensures
            self@ == Decoder::fresh(),
    {
        let rest = self.state.in_buff@.skip(0);
        assert(rest.len() == 0);
        assert(bits::le_value(rest) == 0);
        assert(power2::pow2(8) * 0 == 0);
        assert(self@.window =~= model::dictionary());
        assert(self@.pending =~= Seq::<u8>::empty());
    }

    /// Nothing but the state of the decompression and the flag of the header differs between
    /// `before` and `after`.
    pub open spec fn same_output(before: &Self, after: &Self) -> bool {
        *after == (ExplodeReader {
            state: after.state,
            initialized: after.initialized,
            ..*before
        })
    }

    /// Reads the header from the first piece of input, which also holds the start of the
    /// stream. A reader that has been initialized stays as it is.
    pub fn initialize(&mut self, chunk: &[u8]) -> (result: Result<()>)
        requires
            old(self).wf(),
        ensures
            final(self).wf(),
            final(self).reader == old(self).reader,
            old(self).initialized ==> result is Ok && *final(self) == *old(self),
            !old(self).initialized ==> (result is Ok <==> model::header_ok(chunk@)),
            !old(self).initialized && result is Ok ==> {
                &&& final(self)@ == old(self)@.opened(chunk@)
                &&& final(self).state.in_buff@ == chunk@
                &&& final(self).state.in_pos == 3
                &&& final(self).state.bit_buff == chunk@[2]
                &&& final(self).state.extra_bits == 0
                &&& final(self).state.output_pos == OUT_START
            },
            Self::same_output(old(self), final(self)),
            result matches Err(error) ==> model::header_error(error, chunk@) && *final(self)
                == *old(self),
            !old(self).initialized ==> match result {
                Ok(()) => {
                    &&& chunk@.len() > 4
                    &&& chunk@[0] == 0 || chunk@[0] == 1
                    &&& chunk@[1] == 4 || chunk@[1] == 5 || chunk@[1] == 6
                    &&& final(self).initialized
                    &&& final(self).state.ctype == if chunk@[0] == 0 {
                        CompressionMode::Binary
                    } else {
                        CompressionMode::ASCII
                    }
                    &&& final(self).state.dsize_bits == chunk@[1]
                    &&& !final(self).state.in_ended
                    &&& final(self).state.out_buff == old(self).state.out_buff
                    &&& chunk@[0] == 0 ==> {
                        &&& final(self).state.ch_bits_asc == old(self).state.ch_bits_asc
                        &&& final(self).state.offs_2c34 == old(self).state.offs_2c34
                        &&& final(self).state.offs_2d34 == old(self).state.offs_2d34
                        &&& final(self).state.offs_2e34 == old(self).state.offs_2e34
                        &&& final(self).state.offs_2eb4 == old(self).state.offs_2eb4
                    }
                },
                Err(PkLibError::InvalidData(text)) => chunk@.len() <= 4 && text@
                    == "Not enough data"@,
                Err(PkLibError::InvalidCompressionMode(mode)) => chunk@.len() > 4 && chunk@[0] > 1
                    && mode == chunk@[0],
                Err(PkLibError::InvalidDictionaryBits(bits)) => chunk@.len() > 4 && chunk@[0] <= 1
                    && !(4 <= chunk@[1] <= 6) && bits == chunk@[1],
                Err(PkLibError::DecompressionError(text)) => false,
            },
    {
        if self.initialized {
            return Ok(());
        }
        if chunk.len() <= 4 {
            return Err(PkLibError::InvalidData("Not enough data".to_string()));
        }
        let ctype = if chunk[0] == 0 {
            CompressionMode::Binary
        } else if chunk[0] == 1 {
            CompressionMode::ASCII
        } else {
            return Err(PkLibError::InvalidCompressionMode(chunk[0]));
        };
        let dsize_bits: u32 = chunk[1] as u32;
        if dsize_bits < 4 || dsize_bits > 6 {
            return Err(PkLibError::InvalidDictionaryBits(chunk[1]));
        }
        self.state.ctype = ctype;
        self.state.dsize_bits = dsize_bits;
        self.state.dsize_mask = 0xFFFF >> (16 - dsize_bits);
        self.state.bit_buff = chunk[2] as u32;
        self.state.extra_bits = 0;
        self.state.in_buff = vstd::slice::slice_to_vec(chunk);
        self.state.in_pos = 3;

        self.state.dist_bits = DIST_BITS;
        self.state.len_bits = LEN_BITS;
        self.state.ex_len_bits = EX_LEN_BITS;
        self.state.len_base = LEN_BASE;
        Self::gen_decode_tabs(&mut self.state.length_codes, &LEN_CODE, &LEN_BITS);
        Self::gen_decode_tabs(&mut self.state.dist_pos_codes, &DIST_CODE, &DIST_BITS);
        if let CompressionMode::ASCII = ctype {
            self.state.ch_bits_asc = CH_BITS_ASC;
            self.gen_asc_tabs();
        }
        self.initialized = true;
        proof {
            power2::lemma2_to64();
            assert(0xFFFFu32 >> 12 == 15 && 0xFFFFu32 >> 11 == 31 && 0xFFFFu32 >> 10 == 63)
                by (bit_vector);
            let rest = chunk@.skip(2);
            assert(rest.drop_first() =~= chunk@.skip(3));
            assert(self@.bits.value == bits::le_value(rest));
            assert(self@.window =~= model::dictionary());
        }
        Ok(())
    }

    /// `after` is what `before` becomes when it takes `chunk`.
    pub open spec fn supplies(before: &Self, after: &Self, chunk: Seq<u8>) -> bool {
        &&& after@ == if before.initialized {
            before@.supplied(chunk)
        } else {
            before@.opened(chunk)
        }
        &&& Self::same_output(before, after)
    }

    /// Takes a piece of input from the source, or its end if `chunk` is empty. The first piece
    /// must hold the header.
    pub fn supply(&mut self, chunk: &[u8]) -> (result: Result<()>)
        requires
            old(self).wf(),
        ensures
            final(self).wf(),
            final(self).reader == old(self).reader,
            result is Ok <==> old(self).initialized || model::header_ok(chunk@),
            result is Ok ==> Self::supplies(old(self), final(self), chunk@),
            result matches Err(error) ==> model::header_error(error, chunk@) && *final(self)
                == *old(self),
            match result {
                Ok(()) => if old(self).initialized {
                    &&& final(self).state.in_buff@.skip(final(self).state.in_pos as int) == old(
                        self,
                    ).state.in_buff@.skip(old(self).state.in_pos as int) + chunk@
                    &&& final(self).state.in_ended == (chunk@.len() == 0)
                    &&& *final(self) == (ExplodeReader {
                        state: ExplodeState {
                            in_buff: final(self).state.in_buff,
                            in_pos: final(self).state.in_pos,
                            in_ended: final(self).state.in_ended,
                            ..old(self).state
                        },
                        ..*old(self)
                    })
                } else {
                    &&& chunk@.len() > 4
                    &&& chunk@[0] == 0 || chunk@[0] == 1
                    &&& chunk@[1] == 4 || chunk@[1] == 5 || chunk@[1] == 6
                    &&& final(self).initialized
                    &&& final(self).state.ctype == if chunk@[0] == 0 {
                        CompressionMode::Binary
                    } else {
                        CompressionMode::ASCII
                    }
                    &&& final(self).state.dsize_bits == chunk@[1]
                    &&& final(self).state.in_buff@ == chunk@
                    &&& final(self).state.in_pos == 3
                    &&& final(self).state.bit_buff == chunk@[2]
                    &&& final(self).state.extra_bits == 0
                    &&& final(self).state.output_pos == 0x1000
                    &&& !final(self).state.in_ended
                },
                Err(PkLibError::InvalidData(text)) => !old(self).initialized && chunk@.len() <= 4
                    && text@ == "Not enough data"@,
                Err(PkLibError::InvalidCompressionMode(mode)) => !old(self).initialized
                    && chunk@.len() > 4 && chunk@[0] > 1 && mode == chunk@[0],
                Err(PkLibError::InvalidDictionaryBits(bits)) => !old(self).initialized
                    && chunk@.len() > 4 && chunk@[0] <= 1 && !(4 <= chunk@[1] <= 6) && bits
                    == chunk@[1],
                Err(PkLibError::DecompressionError(text)) => false,
            },
    {
        if !self.initialized {
            return self.initialize(chunk);
        }
        let ghost rest = self.state.in_buff@.skip(self.state.in_pos as int);
        let mut input: Vec<u8> = Vec::new();
        let mut i: usize = self.state.in_pos;
        while i < self.state.in_buff.len()
            invariant
                self.state.in_pos <= i <= self.state.in_buff@.len(),
                input@ == self.state.in_buff@.subrange(self.state.in_pos as int, i as int),
            decreases self.state.in_buff@.len() - i,
        {
            input.push(self.state.in_buff[i]);
            i = i + 1;
        }
        assert(input@ =~= rest);
        input.extend_from_slice(chunk);
        self.state.in_buff = input;
        self.state.in_pos = 0;
        self.state.in_ended = chunk.len() == 0;
        proof {
            assert(self.state.in_buff@ =~= rest + chunk@);
            assert(self.state.in_buff@.skip(0) =~= rest + chunk@);
            bits::lemma_le_value_add(rest, chunk@);
            let n = (8 + self.state.extra_bits) as nat;
            let k = 8 * rest.len();
            let lo = bits::le_value(rest);
            let hi = bits::le_value(chunk@);
            power2::lemma_pow2_adds(n, k);
            assert(power2::pow2(n) * (lo + power2::pow2(k) * hi) == power2::pow2(n) * lo
                + power2::pow2(n + k) * hi) by (nonlinear_arith)
                requires
                    power2::pow2(n + k) == power2::pow2(n) * power2::pow2(k),
            ;
        }
        Ok(())
    }

    /// A result of `expand` that says what `outcome` says.
    pub open spec fn tells(result: Result<Progress>, outcome: Outcome) -> bool {
        match outcome {
            Outcome::NeedInput => result == Ok::<Progress, PkLibError>(Progress::NeedInput),
            Outcome::Written(count) => result matches Ok(Progress::Written(n)) && n == count,
            Outcome::Failed(fault) => result matches Err(error) && model::reports(error, fault),
        }
    }

    /// `after` is what `before` becomes when it decodes: what is decoded goes behind the output
    /// that is there. A reader that has finished stays as it is.
    pub open spec fn expands(before: &Self, after: &Self) -> bool {
        &&& after@ == before@.run().0
        &&& after.reader == before.reader
        &&& after.output_pos == before.output_pos
        &&& after.output_buffer@.len() >= before.output_buffer@.len()
        &&& after.output_buffer@.take(before.output_buffer@.len() as int) == before.output_buffer@
        &&& before.finished ==> *after == *before
    }

    /// Decodes until a block of output is full, the stream ends, or the input runs out.
    #[verifier::rlimit(50)]
    pub fn expand(&mut self) -> (result: Result<Progress>)
        requires
            old(self).wf(),
        ensures
            final(self).wf(),
            Self::expands(old(self), final(self)),
            Self::tells(result, old(self)@.run().1),
            final(self)@ == old(self)@.run().0,
            final(self).reader == old(self).reader,
            final(self).output_pos == old(self).output_pos,
            final(self).initialized == old(self).initialized,
            old(self).finished ==> *final(self) == *old(self),
            match result {
                Ok(Progress::Written(count)) => {
                    &&& old(self)@.run().1 == Outcome::Written(count as nat)
                    &&& final(self).output_buffer@.len() == old(self).output_buffer@.len() + count
                    &&& final(self).output_buffer@.take(old(self).output_buffer@.len() as int)
                        == old(self).output_buffer@
                    &&& count <= OUT_FLUSH - OUT_START
                    &&& final(self).finished <==> count < OUT_FLUSH - OUT_START
                    &&& old(self).initialized
                    &&& old(self).finished ==> count == 0
                },
                Ok(Progress::NeedInput) => {
                    &&& old(self)@.run().1 is NeedInput
                    &&& final(self).output_buffer@ == old(self).output_buffer@
                    &&& !old(self).finished && !final(self).finished
                    &&& !old(self).state.in_ended && !final(self).state.in_ended
                },
                Err(PkLibError::DecompressionError(text)) => {
                    &&& old(self)@.run().1 matches Outcome::Failed(fault)
                    &&& fault is Literal ==> text@ == "Decode error"@
                    &&& fault is Distance ==> text@ == "Invalid distance"@
                    &&& fault is Overflow ==> text@ == "Buffer overflow"@
                    &&& fault is Literal || fault is Distance ==> old(self).state.in_ended
                        && !final(self).state.in_ended
                    &&& final(self).output_buffer@ == old(self).output_buffer@
                    &&& !old(self).finished && !final(self).finished
                },
                Err(_) => false,
            },
    {
        assert(self.output_buffer@.take(self.output_buffer@.len() as int) =~= self.output_buffer@);
        if !self.initialized {
            return Ok(Progress::NeedInput);
        }
        if self.finished {
            return Ok(Progress::Written(0));
        }
        loop
            invariant
                self.wf(),
                self.initialized,
                !self.finished,
                !old(self).finished,
                self.reader == old(self).reader,
                self.output_pos == old(self).output_pos,
                self.output_buffer@ == old(self).output_buffer@,
                self.output_buffer@.take(self.output_buffer@.len() as int) == self.output_buffer@,
                self@.run() == old(self)@.run(),
                self.initialized == old(self).initialized,
                self.state.in_ended == old(self).state.in_ended,
            decreases self@.bits.len,
        {
            let ghost at = self@;
            match self.state.decode_token() {
                Decoded::End => {
                    self.finished = true;
                    let end: usize = self.state.output_pos;
                    self.emit(end);
                    assert(at.window.skip(OUT_START as int) =~= self.state.out_buff@.subrange(
                        OUT_START as int,
                        end as int,
                    ));
                    return Ok(Progress::Written(end - OUT_START));
                },
                Decoded::ShortLiteral => {
                    if self.state.in_ended {
                        self.state.in_ended = false;
                        return Err(PkLibError::DecompressionError("Decode error".to_string()));
                    }
                    return Ok(Progress::NeedInput);
                },
                Decoded::ShortDistance => {
                    if self.state.in_ended {
                        self.state.in_ended = false;
                        return Err(PkLibError::DecompressionError("Invalid distance".to_string()));
                    }
                    return Ok(Progress::NeedInput);
                },
                Decoded::Byte(byte) => {
                    self.state.put_byte(byte);
                },
                Decoded::Copy { length, distance } => {
                    proof {
                        model::lemma_replay(at.window, length as nat, distance as nat);
                    }
                    if self.state.output_pos + length > OUT_BUFF_SIZE {
                        return Err(PkLibError::DecompressionError("Buffer overflow".to_string()));
                    }
                    self.state.put_repetition(length, distance);
                },
            }
            if self.state.output_pos >= OUT_FLUSH {
                let ghost full = self@;
                self.emit(OUT_FLUSH);
                assert(full.window.subrange(OUT_START as int, OUT_FLUSH as int)
                    =~= self.state.out_buff@.subrange(OUT_START as int, OUT_FLUSH as int));
                self.state.slide();
                return Ok(Progress::Written(OUT_FLUSH - OUT_START));
            }
        }
    }

    /// `after` is `from` with as much of its pending output as fits handed out into a buffer that
    /// held `old_buf` and holds `new_buf`.
    pub open spec fn hands_out(
        from: Decoder,
        after: Decoder,
        old_buf: Seq<u8>,
        new_buf: Seq<u8>,
        count: usize,
    ) -> bool {
        &&& count == from.handed(old_buf.len())
        &&& after == from.taken(count as int)
        &&& new_buf == from.pending.take(count as int) + old_buf.skip(count as int)
    }

    /// Fills `buf` with decompressed data. Pending output comes first; if there is none, one
    /// more block is decoded. Output that was pending is dropped once all of it is handed out.
    pub fn read(&mut self, buf: &mut [u8]) -> (result: Result<ReadStep>)
        requires
            old(self).wf(),
        ensures
            final(self).wf(),
            final(self).reader == old(self).reader,
            ({
                let (from, outcome) = old(self)@.asked();
                match outcome {
                    Outcome::NeedInput => {
                        &&& result == Ok::<ReadStep, PkLibError>(ReadStep::NeedInput)
                        &&& final(self)@ == from
                        &&& final(buf)@ == old(buf)@
                        &&& final(self).output_buffer@ == old(self).output_buffer@
                        &&& final(self).output_pos == old(self).output_pos
                    },
                    Outcome::Written(_) => {
                        &&& result matches Ok(ReadStep::Read(count))
                        &&& Self::hands_out(from, final(self)@, old(buf)@, final(buf)@, count)
                        &&& old(self)@.pending.len() > 0 ==> final(self).state == old(self).state
                        &&& if old(self)@.pending.len() == 0 {
                            &&& final(self).output_buffer@ == old(self).output_buffer@
                                + from.pending
                            &&& final(self).output_pos == old(self).output_pos + count
                        } else if count == old(self)@.pending.len() {
                            &&& final(self).output_buffer@ == Seq::<u8>::empty()
                            &&& final(self).output_pos == 0
                        } else {
                            &&& final(self).output_buffer@ == old(self).output_buffer@
                            &&& final(self).output_pos == old(self).output_pos + count
                        }
                    },
                    Outcome::Failed(fault) => {
                        &&& result matches Err(error)
                        &&& model::reports(error, fault)
                        &&& final(self)@ == from
                        &&& final(buf)@ == old(buf)@
                        &&& final(self).output_buffer@ == old(self).output_buffer@
                        &&& final(self).output_pos == old(self).output_pos
                    },
                }
            }),
            final(buf)@.len() == old(buf)@.len(),
            old(self).output_pos < old(self).output_buffer@.len() ==> {
                let available = old(self).output_buffer@.len() - old(self).output_pos;
                let count = if old(buf)@.len() < available {
                    old(buf)@.len() as int
                } else {
                    available
                };
                &&& result matches Ok(ReadStep::Read(n)) && n == count
                &&& forall|i: int|
                    0 <= i < old(buf)@.len() ==> #[trigger] final(buf)@[i] == if i < count {
                        old(self).output_buffer@[old(self).output_pos + i]
                    } else {
                        old(buf)@[i]
                    }
                &&& final(self).state == old(self).state
                &&& final(self).finished == old(self).finished
                &&& final(self).initialized == old(self).initialized
                &&& final(self).output_buffer@.skip(final(self).output_pos as int) == old(
                    self,
                ).output_buffer@.skip(old(self).output_pos + count)
            },
            old(self).output_pos >= old(self).output_buffer@.len() ==> match old(self)@.run() {
                (next, Outcome::Written(_)) => {
                    let count = if old(buf)@.len() < next.pending.len() {
                        old(buf)@.len()
                    } else {
                        next.pending.len()
                    };
                    &&& result matches Ok(ReadStep::Read(n)) && n == count
                    &&& forall|i: int|
                        0 <= i < old(buf)@.len() ==> #[trigger] final(buf)@[i] == if i < count {
                            next.pending[i]
                        } else {
                            old(buf)@[i]
                        }
                    &&& final(self)@ == (Decoder {
                        pending: next.pending.skip(count as int),
                        ..next
                    })
                },
                (next, Outcome::NeedInput) => {
                    &&& result matches Ok(ReadStep::NeedInput)
                    &&& final(self)@ == next
                    &&& final(buf)@ == old(buf)@
                },
                (next, Outcome::Failed(fault)) => {
                    &&& result matches Err(PkLibError::DecompressionError(text))
                    &&& fault is Literal ==> text@ == "Decode error"@
                    &&& fault is Distance ==> text@ == "Invalid distance"@
                    &&& fault is Overflow ==> text@ == "Buffer overflow"@
                    &&& final(self)@ == next
                    &&& final(buf)@ == old(buf)@
                },
            },
    {
        if self.output_pos < self.output_buffer.len() {
            let count: usize = self.hand_out(buf);
            if self.output_pos >= self.output_buffer.len() {
                self.output_buffer.clear();
                self.output_pos = 0;
                assert(self@.pending =~= old(self)@.pending.skip(count as int));
            }
            return Ok(ReadStep::Read(count));
        }
        match self.expand() {
            Ok(Progress::NeedInput) => Ok(ReadStep::NeedInput),
            Ok(Progress::Written(_)) => {
                assert(self.output_buffer@ =~= old(self).output_buffer@ + self@.pending);
                Ok(ReadStep::Read(self.hand_out(buf)))
            },
            Err(error) => Err(error),
        }
    }

    /// Hands out pending output.
    fn hand_out(&mut self, buf: &mut [u8]) -> (count: usize)
        requires
            old(self).wf(),
        ensures
            final(self).wf(),
            *final(self) == (ExplodeReader { output_pos: final(self).output_pos, ..*old(self) }),
            final(self).output_pos == old(self).output_pos + count,
            Self::hands_out(old(self)@, final(self)@, old(buf)@, final(buf)@, count),
    {
        let available: usize = self.output_buffer.len() - self.output_pos;
        let count: usize = if buf.len() < available {
            buf.len()
        } else {
            available
        };
        let ghost pending = self@.pending;
        let mut i: usize = 0;
        while i < count
            invariant
                i <= count,
                count <= buf@.len(),
                buf@.len() == old(buf)@.len(),
                self.output_pos + count <= self.output_buffer.len(),
                pending == self.output_buffer@.skip(self.output_pos as int),
                buf@ == pending.take(i as int) + old(buf)@.skip(i as int),
            decreases count - i,
        {
            buf[i] = self.output_buffer[self.output_pos + i];
            assert(buf@ =~= pending.take(i + 1) + old(buf)@.skip(i + 1));
            i = i + 1;
        }
        assert(old(buf)@ =~= pending.take(0) + old(buf)@.skip(0));
        self.output_pos = self.output_pos + count;
        assert(self@.pending =~= pending.skip(count as int));
        count
    }

    /// Adds the output up to `end` to the decompressed data.
    fn emit(&mut self, end: usize)
        requires
            OUT_START <= end <= OUT_BUFF_SIZE,
            old(self).output_pos <= old(self).output_buffer@.len(),
        ensures
            *final(self) == (ExplodeReader {
                output_buffer: final(self).output_buffer,
                ..*old(self)
            }),
            final(self).output_buffer@ == old(self).output_buffer@ + old(
                self,
            ).state.out_buff@.subrange(OUT_START as int, end as int),
            final(self).output_buffer@.take(old(self).output_buffer@.len() as int) == old(
                self,
            ).output_buffer@,
            final(self)@.pending == old(self)@.pending + old(self).state.out_buff@.subrange(
                OUT_START as int,
                end as int,
            ),
    {
        let mut i: usize = OUT_START;
        while i < end
            invariant
                OUT_START <= i <= end <= OUT_BUFF_SIZE,
                *self == (ExplodeReader { output_buffer: self.output_buffer, ..*old(self) }),
                self.output_buffer@ == old(self).output_buffer@ + old(
                    self,
                ).state.out_buff@.subrange(OUT_START as int, i as int),
            decreases end - i,
        {
            self.output_buffer.push(self.state.out_buff[i]);
            assert(self.output_buffer@ =~= old(self).output_buffer@ + old(
                self,
            ).state.out_buff@.subrange(OUT_START as int, i + 1));
            i = i + 1;
        }
        assert(self@.pending =~= old(self)@.pending + old(self).state.out_buff@.subrange(
            OUT_START as int,
            end as int,
        ));
    }
}

impl<R> ExplodeReader<R> {
    /// Fills a lookup table: the place of every number below 0x100 whose low bits are a code gets
    /// that code's index.
    pub fn gen_decode_tabs(positions: &mut [u8], start_indexes: &[u8], length_bits: &[u8])
        requires
            start_indexes@.len() <= length_bits@.len(),
            forall|i: int| 0 <= i < start_indexes@.len() ==> #[trigger] length_bits@[i] < 32,
        ensures
            final(positions)@.len() == old(positions)@.len(),
            forall|x: int|
                0 <= x < old(positions)@.len() ==> #[trigger] final(positions)@[x] == (if x
                    < 0x100 {
                    lookup::table_entry(
                        start_indexes@,
                        length_bits@,
                        start_indexes@.len(),
                        x,
                        old(positions)@[x],
                    )
                } else {
                    old(positions)@[x]
                }),
    {
        let mut i: usize = 0;
        while i < start_indexes.len()
            invariant
                i <= start_indexes@.len(),
                start_indexes@.len() <= length_bits@.len(),
                forall|j: int| 0 <= j < start_indexes@.len() ==> #[trigger] length_bits@[j] < 32,
                positions@.len() == old(positions)@.len(),
                forall|x: int|
                    0 <= x < positions@.len() ==> #[trigger] positions@[x] == (if x < 0x100 {
                        lookup::table_entry(
                            start_indexes@,
                            length_bits@,
                            i as nat,
                            x,
                            old(positions)@[x],
                        )
                    } else {
                        old(positions)@[x]
                    }),
            decreases start_indexes@.len() - i,
        {
            assert(i as u8 == i % 256) by (bit_vector);
            fill_steps(positions, start_indexes[i] as u32, length_bits[i] as u32, 0x100, i as u8);
            i = i + 1;
        }
    }

    /// Fills the lookup tables of the ASCII mode and takes the bits that are skipped before the
    /// lookup off the code lengths.
    pub fn gen_asc_tabs(&mut self)
        requires
            old(self).state.ch_bits_asc@ == CH_BITS_ASC@,
        ensures
            final(self).asc_tabs_from(old(self), 0),
            final(self).only_asc_tabs_changed(old(self)),
    {
        let mut count: usize = 0x100;
        while count > 0
            invariant
                count <= 0x100,
                old(self).state.ch_bits_asc@ == CH_BITS_ASC@,
                self.asc_tabs_from(old(self), count as int),
                self.only_asc_tabs_changed(old(self)),
            decreases count,
        {
            count = count - 1;
            let ghost before = *self;
            let ch_code_asc: u16 = CH_CODE_ASC[count];
            let bits_asc: u8 = self.state.ch_bits_asc[count];
            proof {
                lookup::lemma_asc_shape(count as int);
                power2::lemma2_to64();
                assert(ch_code_asc & 0xFF == ch_code_asc % 256) by (bit_vector);
                assert(ch_code_asc & 0x3F == ch_code_asc % 64) by (bit_vector);
                assert(ch_code_asc >> 4 == ch_code_asc / 16) by (bit_vector);
                assert(ch_code_asc >> 6 == ch_code_asc / 64) by (bit_vector);
                assert(ch_code_asc >> 8 == ch_code_asc / 256) by (bit_vector);
                assert(ch_code_asc as nat / power2::pow2(0) == ch_code_asc);
            }
            if bits_asc <= 8 {
                fill_steps(
                    &mut self.state.offs_2c34,
                    ch_code_asc as u32,
                    bits_asc as u32,
                    0x100,
                    count as u8,
                );
            } else if ch_code_asc & 0xFF != 0 {
                self.state.offs_2c34[(ch_code_asc & 0xFF) as usize] = 0xFF;
                if ch_code_asc & 0x3F != 0 {
                    self.state.ch_bits_asc[count] = bits_asc - 4;
                    fill_steps(
                        &mut self.state.offs_2d34,
                        (ch_code_asc >> 4) as u32,
                        (bits_asc - 4) as u32,
                        0x100,
                        count as u8,
                    );
                } else {
                    self.state.ch_bits_asc[count] = bits_asc - 6;
                    fill_steps(
                        &mut self.state.offs_2e34,
                        (ch_code_asc >> 6) as u32,
                        (bits_asc - 6) as u32,
                        0x80,
                        count as u8,
                    );
                }
            } else {
                self.state.ch_bits_asc[count] = bits_asc - 8;
                fill_steps(
                    &mut self.state.offs_2eb4,
                    (ch_code_asc >> 8) as u32,
                    (bits_asc - 8) as u32,
                    0x100,
                    count as u8,
                );
            }
        }
    }

    /// The tables of the ASCII mode hold what the bytes from `count` up put there.
    pub open spec fn asc_tabs_from(&self, before: &Self, count: int) -> bool {
        &&& forall|c: int|
            0 <= c < 0x100 ==> #[trigger] self.state.ch_bits_asc@[c] == (if c >= count {
                lookup::asc_left(c)
            } else {
                CH_BITS_ASC[c] as nat
            })
        &&& forall|x: int|
            0 <= x < 0x100 ==> #[trigger] self.state.offs_2c34@[x] == lookup::asc_entry(
                0,
                count,
                x,
                before.state.offs_2c34@[x],
            )
        &&& forall|x: int|
            0 <= x < 0x100 ==> #[trigger] self.state.offs_2d34@[x] == lookup::asc_entry(
                4,
                count,
                x,
                before.state.offs_2d34@[x],
            )
        &&& forall|x: int|
            0 <= x < 0x80 ==> #[trigger] self.state.offs_2e34@[x] == lookup::asc_entry(
                6,
                count,
                x,
                before.state.offs_2e34@[x],
            )
        &&& forall|x: int|
            0 <= x < 0x100 ==> #[trigger] self.state.offs_2eb4@[x] == lookup::asc_entry(
                8,
                count,
                x,
                before.state.offs_2eb4@[x],
            )
    }

    /// This reader is `before` with nothing changed but the tables of the ASCII mode.
    pub open spec fn only_asc_tabs_changed(&self, before: &Self) -> bool {
        *self == (ExplodeReader {
            state: ExplodeState {
                ch_bits_asc: self.state.ch_bits_asc,
                offs_2c34: self.state.offs_2c34,
                offs_2d34: self.state.offs_2d34,
                offs_2e34: self.state.offs_2e34,
                offs_2eb4: self.state.offs_2eb4,
                ..before.state
            },
            ..*before
        })
    }
}

} // verus!
