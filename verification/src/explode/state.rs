//! The state of a decompression and the decoding of single symbols.
use super::{LITERAL_END_OF_STREAM, LITERAL_ERROR, OUT_BUFF_SIZE, OUT_FLUSH, OUT_START};
use crate::bits;
use crate::bits::Bits;
use crate::codes;
use crate::common::CompressionMode;
use crate::explode::lookup;
use crate::explode::model;
use crate::explode::model::{Reading, Token};
use crate::tables::{DIST_BITS, DIST_CODE, EX_LEN_BITS, LEN_BASE, LEN_BITS, LEN_CODE};
use vstd::arithmetic::power2;
use vstd::prelude::*;

verus! {

/// What `decode_token` finds at the start of the stream.
#[derive(Debug, Clone, Copy, PartialEq, Eq, Structural)]
pub enum Decoded {
    /// A literal byte.
    Byte(u8),
    /// A repetition.
    Copy { length: usize, distance: usize },
    /// The end of the stream.
    End,
    /// The input stops short of the end of a literal or length.
    ShortLiteral,
    /// The input stops short of the end of a distance.
    ShortDistance,
}

impl Decoded {
    /// This says what `reading` says.
    pub open spec fn tells(self, reading: Reading) -> bool {
        match reading {
            Reading::Whole { token, bits } => match token {
                Token::Byte(byte) => self == Decoded::Byte(byte),
                Token::Copy { length, distance } => {
                    &&& self matches Decoded::Copy { length: l, distance: d }
                    &&& l == length
                    &&& d == distance
                },
                Token::End => self == Decoded::End,
            },
            Reading::ShortLiteral => self == Decoded::ShortLiteral,
            Reading::ShortDistance => self == Decoded::ShortDistance,
        }
    }
}

/// Decompression state.
#[derive(Debug)]
pub struct ExplodeState {
    /// Compression mode.
    pub ctype: CompressionMode,
    /// Position in the output buffer.
    pub output_pos: usize,
    /// Number of low distance bits that are stored verbatim (4, 5 or 6).
    pub dsize_bits: u32,
    /// Bit mask for the low distance bits (0x0F, 0x1F or 0x3F).
    pub dsize_mask: u32,
    /// The next bits of the stream; `8 + extra_bits` of them are valid.
    pub bit_buff: u32,
    /// Number of valid bits in the bit buffer above the lowest eight.
    pub extra_bits: u32,
    /// Position of the next unread byte in the input buffer.
    pub in_pos: usize,
    /// Input that has been supplied and not dropped yet.
    pub in_buff: Vec<u8>,
    /// Whether the source has no more input.
    pub in_ended: bool,
    /// Output buffer: dictionary, then output.
    pub out_buff: [u8; OUT_BUFF_SIZE],
    /// Distance codes by the next eight bits.
    pub dist_pos_codes: [u8; 0x100],
    /// Length codes by the next eight bits.
    pub length_codes: [u8; 0x100],
    /// Bytes of the ASCII mode by the next eight bits.
    pub offs_2c34: [u8; 0x100],
    /// Bytes of the ASCII mode by the next eight bits after four clear ones.
    pub offs_2d34: [u8; 0x100],
    /// Bytes of the ASCII mode by the next seven bits after six clear ones.
    pub offs_2e34: [u8; 0x80],
    /// Bytes of the ASCII mode by the next eight bits after eight clear ones.
    pub offs_2eb4: [u8; 0x100],
    /// Code lengths of the ASCII mode, less the bits that are skipped before the lookup.
    pub ch_bits_asc: [u8; 0x100],
    /// Lengths of the distance codes.
    pub dist_bits: [u8; 0x40],
    /// Lengths of the length codes.
    pub len_bits: [u8; 0x10],
    /// Number of verbatim bits after each length code.
    pub ex_len_bits: [u8; 0x10],
    /// Smallest value of each length code.
    pub len_base: [u16; 0x10],
}

impl ExplodeState {
    /// No input, no output and empty tables.
    pub open spec fn blank(&self) -> bool {
        &&& self.ctype == CompressionMode::Binary
        &&& self.dsize_bits == 0
        &&& self.bit_buff == 0
        &&& self.extra_bits == 0
        &&& self.in_pos == 0
        &&& self.in_buff@ == Seq::<u8>::empty()
        &&& !self.in_ended
        &&& self.output_pos == OUT_START
        &&& self.out_buff@ == Seq::new(OUT_BUFF_SIZE as nat, |i: int| 0u8)
        &&& self.dist_pos_codes@ == Seq::new(0x100, |i: int| 0u8)
        &&& self.length_codes@ == Seq::new(0x100, |i: int| 0u8)
        &&& self.offs_2c34@ == Seq::new(0x100, |i: int| 0u8)
        &&& self.offs_2d34@ == Seq::new(0x100, |i: int| 0u8)
        &&& self.offs_2e34@ == Seq::new(0x80, |i: int| 0u8)
        &&& self.offs_2eb4@ == Seq::new(0x100, |i: int| 0u8)
    }

    /// A state with no input, no output and empty tables.
    pub fn new() -> (state: Self)
        ensures
            state.bits_wf(),
            state.blank(),
            state.dsize_mask == 0,
            forall|i: int| 0 <= i < 0x2204 ==> #[trigger] state.out_buff@[i] == 0,
            forall|i: int| 0 <= i < 0x100 ==> #[trigger] state.ch_bits_asc@[i] == 0,
            forall|i: int| 0 <= i < 0x40 ==> #[trigger] state.dist_bits@[i] == 0,
            forall|i: int| 0 <= i < 0x10 ==> #[trigger] state.len_bits@[i] == 0,
            forall|i: int| 0 <= i < 0x10 ==> #[trigger] state.ex_len_bits@[i] == 0,
            forall|i: int| 0 <= i < 0x10 ==> #[trigger] state.len_base@[i] == 0,
    {
        let state = ExplodeState {
            ctype: CompressionMode::Binary,
            output_pos: OUT_START,
            dsize_bits: 0,
            dsize_mask: 0,
            bit_buff: 0,
            extra_bits: 0,
            in_pos: 0,
            in_buff: Vec::new(),
            in_ended: false,
            out_buff: [0; OUT_BUFF_SIZE],
            dist_pos_codes: [0; 0x100],
            length_codes: [0; 0x100],
            offs_2c34: [0; 0x100],
            offs_2d34: [0; 0x100],
            offs_2e34: [0; 0x80],
            offs_2eb4: [0; 0x100],
            ch_bits_asc: [0; 0x100],
            dist_bits: [0; 0x40],
            len_bits: [0; 0x10],
            ex_len_bits: [0; 0x10],
            len_base: [0; 0x10],
        };
        proof {
            power2::lemma2_to64();
            assert(state.out_buff@ =~= Seq::new(OUT_BUFF_SIZE as nat, |i: int| 0u8));
            assert(state.dist_pos_codes@ =~= Seq::new(0x100, |i: int| 0u8));
            assert(state.length_codes@ =~= Seq::new(0x100, |i: int| 0u8));
            assert(state.offs_2c34@ =~= Seq::new(0x100, |i: int| 0u8));
            assert(state.offs_2d34@ =~= Seq::new(0x100, |i: int| 0u8));
            assert(state.offs_2e34@ =~= Seq::new(0x80, |i: int| 0u8));
            assert(state.offs_2eb4@ =~= Seq::new(0x100, |i: int| 0u8));
        }
        state
    }

    /// The bit buffer holds `8 + extra_bits` bits, and the input position lies in the buffer.
    pub open spec fn bits_wf(&self) -> bool {
        &&& self.extra_bits < 8
        &&& self.bit_buff < power2::pow2((8 + self.extra_bits) as nat)
        &&& self.in_pos <= self.in_buff@.len()
    }

    /// The bits that have been supplied and not been decoded yet.
    pub open spec fn stream(&self) -> Bits {
        Bits { value: self.bit_buff as nat, len: (8 + self.extra_bits) as nat }.followed_by(
            Bits::of_bytes(self.in_buff@.skip(self.in_pos as int)),
        )
    }

    /// The tables are those of the format.
    pub open spec fn tables_wf(&self) -> bool {
        &&& self.dist_bits@ == DIST_BITS@
        &&& self.len_bits@ == LEN_BITS@
        &&& self.ex_len_bits@ == EX_LEN_BITS@
        &&& self.len_base@ == LEN_BASE@
        &&& forall|x: int|
            0 <= x < 0x100 ==> #[trigger] self.length_codes@[x] == lookup::table_entry(
                LEN_CODE@,
                LEN_BITS@,
                16,
                x,
                0,
            )
        &&& forall|x: int|
            0 <= x < 0x100 ==> #[trigger] self.dist_pos_codes@[x] == lookup::table_entry(
                DIST_CODE@,
                DIST_BITS@,
                64,
                x,
                0,
            )
        &&& self.ctype == CompressionMode::ASCII ==> self.ascii_wf()
    }

    /// The tables of the ASCII mode are those of the format.
    pub open spec fn ascii_wf(&self) -> bool {
        &&& forall|c: int|
            0 <= c < 0x100 ==> #[trigger] self.ch_bits_asc@[c] == lookup::asc_left(c)
        &&& forall|x: int|
            0 <= x < 0x100 ==> #[trigger] self.offs_2c34@[x] == lookup::asc_entry(0, 0, x, 0)
        &&& forall|x: int|
            0 <= x < 0x100 ==> #[trigger] self.offs_2d34@[x] == lookup::asc_entry(4, 0, x, 0)
        &&& forall|x: int|
            0 <= x < 0x80 ==> #[trigger] self.offs_2e34@[x] == lookup::asc_entry(6, 0, x, 0)
        &&& forall|x: int|
            0 <= x < 0x100 ==> #[trigger] self.offs_2eb4@[x] == lookup::asc_entry(8, 0, x, 0)
    }

    /// The dictionary parameters are those of one of the three dictionary sizes.
    pub open spec fn dict_wf(&self) -> bool {
        &&& 4 <= self.dsize_bits <= 6
        &&& self.dsize_mask == power2::pow2(self.dsize_bits as nat) - 1
    }

    /// A state in which symbols can be decoded.
    pub open spec fn wf(&self) -> bool {
        &&& self.bits_wf()
        &&& self.tables_wf()
        &&& self.dict_wf()
    }

    /// This state is `before` with nothing changed but the position in the stream.
    pub open spec fn moved_from(&self, before: &ExplodeState) -> bool {
        *self == (ExplodeState {
            bit_buff: self.bit_buff,
            extra_bits: self.extra_bits,
            in_pos: self.in_pos,
            ..*before
        })
    }

    /// Skips `n_bits` bits of the stream. Eight bits must be left behind them: if the input
    /// that has been supplied is too short for that, nothing changes and the answer is `false`.
    pub fn waste_bits(&mut self, n_bits: u32) -> (ok: bool)
        requires
            old(self).bits_wf(),
            n_bits <= 8,
        ensures
            final(self).bits_wf(),
            final(self).moved_from(old(self)),
            ok == (old(self).stream().len >= n_bits + 8),
            ok ==> final(self).stream() == old(self).stream().skip(n_bits as nat),
            !ok ==> *final(self) == *old(self),
    {
        let ghost n = n_bits as nat;
        let ghost e = self.extra_bits as nat;
        let ghost b = self.bit_buff as nat;
        let ghost rest = self.in_buff@.skip(self.in_pos as int);
        let ghost high = bits::le_value(rest);
        if n_bits <= self.extra_bits {
            proof {
                vstd::bits::lemma_u32_shr_is_div(self.bit_buff, n_bits);
                bits::lemma_div_below(b, n, 8 + e, high);
                bits::lemma_div_bound(b, n, 8 + e);
            }
            self.bit_buff = self.bit_buff >> n_bits;
            self.extra_bits = self.extra_bits - n_bits;
            return true;
        }
        if self.in_pos >= self.in_buff.len() {
            return false;
        }
        let byte: u32 = self.in_buff[self.in_pos] as u32;
        let kept: u32 = self.bit_buff >> self.extra_bits;
        let joined: u32 = kept | (byte << 8);
        let more: u32 = n_bits - self.extra_bits;
        proof {
            power2::lemma2_to64();
            vstd::bits::lemma_u32_shr_is_div(self.bit_buff, self.extra_bits);
            bits::lemma_div_bound(b, e, 8 + e);
            assert(joined == kept + 256 * byte) by (bit_vector)
                requires
                    kept < 256,
                    byte < 256,
                    joined == kept | (byte << 8),
            ;
            vstd::bits::lemma_u32_shr_is_div(joined, more);
            let tail = self.in_buff@.skip(self.in_pos + 1);
            assert(rest.drop_first() =~= tail);
            let high2 = bits::le_value(tail);
            assert(high == byte + 256 * high2);
            lemma_refill(b, e, byte as nat, high2, n);
        }
        self.in_pos = self.in_pos + 1;
        self.bit_buff = joined >> more;
        self.extra_bits = self.extra_bits + 8 - n_bits;
        true
    }

    /// What the stream's first symbol is decoded to; see `decode_lit`.
    pub open spec fn literal(&self) -> u32 {
        let s = self.stream();
        let n = codes::symbol_at(self.ctype, s.value);
        if s.len >= codes::symbol_bits(self.ctype, n) + 8 {
            n as u32
        } else if n == LITERAL_END_OF_STREAM && self.in_ended && s.len >= 16 {
            LITERAL_END_OF_STREAM
        } else {
            LITERAL_ERROR
        }
    }

    /// What the stream starts with, taken as a distance; see `decode_dist`.
    pub open spec fn distance(&self, rep_length: u32) -> u32 {
        let s = self.stream();
        let low = codes::low_distance_bits(rep_length as int, self.dsize_bits as nat);
        if s.len >= codes::distance_bits(s.value, low) + 8 {
            codes::distance_at(s.value, low) as u32
        } else {
            0
        }
    }

    /// Reads the symbol at the start of the stream: a byte, 0x100 and above for a repetition
    /// length, or `LITERAL_END_OF_STREAM`. The answer is `LITERAL_ERROR` if the input that has
    /// been supplied does not reach eight bits past the symbol. At the very end of the input
    /// the mark of the end of the stream is recognised without those eight bits.
    pub fn decode_lit(&mut self) -> (literal: u32)
        requires
            old(self).wf(),
        ensures
            final(self).wf(),
            final(self).moved_from(old(self)),
            literal == old(self).literal(),
            literal < LITERAL_END_OF_STREAM ==> final(self).stream() == old(self).stream().skip(
                codes::symbol_bits(old(self).ctype, literal as int),
            ),
            literal >= LITERAL_END_OF_STREAM ==> *final(self) == *old(self),
    {
        let bit_buff: u32 = self.bit_buff;
        let extra_bits: u32 = self.extra_bits;
        let in_pos: usize = self.in_pos;
        let literal: u32 = self.read_symbol();
        if literal >= LITERAL_END_OF_STREAM {
            self.bit_buff = bit_buff;
            self.extra_bits = extra_bits;
            self.in_pos = in_pos;
        }
        literal
    }

    /// Reads the distance of a repetition of `rep_length` bytes. The answer is zero if the input
    /// that has been supplied does not reach eight bits past it; nothing changes if so.
    pub fn decode_dist(&mut self, rep_length: u32) -> (distance: u32)
        requires
            old(self).wf(),
        ensures
            final(self).wf(),
            final(self).moved_from(old(self)),
            distance == old(self).distance(rep_length),
            distance <= 0x1000,
            distance > 0 ==> final(self).stream() == old(self).stream().skip(
                codes::distance_bits(
                    old(self).stream().value,
                    codes::low_distance_bits(rep_length as int, old(self).dsize_bits as nat),
                ),
            ),
            distance == 0 ==> *final(self) == *old(self),
    {
        let ghost s = self.stream();
        let ghost v = s.value;
        let ghost i = codes::dist_at(v);
        let low: u32 = if rep_length == 2 {
            2
        } else {
            self.dsize_bits
        };
        let bit_buff: u32 = self.bit_buff;
        let extra_bits: u32 = self.extra_bits;
        let in_pos: usize = self.in_pos;
        proof {
            power2::lemma2_to64();
            codes::lemma_dist_at(v);
            lookup::lemma_dist_lookup(v, 0);
            lookup::lemma_dist_fits(i);
            power2::lemma_pow2_pos(low as nat);
        }
        let index: u32 = self.peek_byte();
        let dist_pos_code: u32 = self.dist_pos_codes[index as usize] as u32;
        let dist_pos_bits: u32 = self.dist_bits[dist_pos_code as usize] as u32;
        if !self.waste_bits(dist_pos_bits) {
            return 0;
        }
        let low_part: u32 = self.peek(low);
        proof {
            assert(dist_pos_code * power2::pow2(low as nat) <= 64 * 64) by (nonlinear_arith)
                requires
                    dist_pos_code < 64,
                    power2::pow2(low as nat) <= 64,
            ;
            vstd::bits::lemma_u32_shl_is_mul(dist_pos_code, low);
            vstd::bits::lemma_u32_shl_is_mul(1, low);
            assert((dist_pos_code << low) | low_part == (dist_pos_code << low) + low_part
                && (dist_pos_code << low) + low_part < 0x1000) by (bit_vector)
                requires
                    dist_pos_code < 64,
                    low <= 6,
                    low_part < (1u32 << low),
            ;
        }
        let distance: u32 = ((dist_pos_code << low) | low_part) + 1;
        if !self.waste_bits(low) {
            self.bit_buff = bit_buff;
            self.extra_bits = extra_bits;
            self.in_pos = in_pos;
            return 0;
        }
        proof {
            lemma_skip_skip(s, dist_pos_bits as nat, low as nat);
        }
        distance
    }

    /// The dictionary and the output of the block at hand.
    pub open spec fn window(&self) -> Seq<u8> {
        self.out_buff@.take(self.output_pos as int)
    }

    /// This state is `before` with nothing changed but the output buffer and the position in it.
    pub open spec fn output_from(&self, before: &ExplodeState) -> bool {
        *self == (ExplodeState {
            out_buff: self.out_buff,
            output_pos: self.output_pos,
            ..*before
        })
    }

    /// Appends a byte to the output.
    pub fn put_byte(&mut self, byte: u8)
        requires
            old(self).output_pos < OUT_BUFF_SIZE,
        ensures
            final(self).output_from(old(self)),
            final(self).output_pos == old(self).output_pos + 1,
            final(self).window() == old(self).window().push(byte),
    {
        self.out_buff[self.output_pos] = byte;
        self.output_pos = self.output_pos + 1;
        assert(self.window() =~= old(self).window().push(byte));
    }

    /// Appends `length` bytes to the output, each the one that lies `distance` bytes back.
    pub fn put_repetition(&mut self, length: usize, distance: usize)
        requires
            0 < distance <= old(self).output_pos,
            old(self).output_pos + length <= OUT_BUFF_SIZE,
        ensures
            final(self).output_from(old(self)),
            final(self).output_pos == old(self).output_pos + length,
            final(self).window() == model::replay(
                old(self).window(),
                length as nat,
                distance as nat,
            ),
    {
        let target: usize = self.output_pos;
        let source: usize = target - distance;
        let mut i: usize = 0;
        assert(self.out_buff@.take(target as int) =~= self.window());
        while i < length
            invariant
                i <= length,
                0 < distance <= target,
                source == target - distance,
                target + length <= OUT_BUFF_SIZE,
                self.output_pos == target,
                old(self).output_pos == target,
                self.output_from(old(self)),
                self.out_buff@.take(target + i) == model::replay(
                    old(self).window(),
                    i as nat,
                    distance as nat,
                ),
            decreases length - i,
        {
            let ghost so_far = self.out_buff@.take(target + i);
            let byte: u8 = self.out_buff[source + i];
            self.out_buff[target + i] = byte;
            assert(self.out_buff@.take(target + i + 1) =~= so_far.push(
                so_far[so_far.len() - distance],
            ));
            i = i + 1;
        }
        self.output_pos = target + length;
    }

    /// Makes a full block the dictionary of the next one.
    pub fn slide(&mut self)
        requires
            OUT_FLUSH <= old(self).output_pos <= OUT_BUFF_SIZE,
        ensures
            final(self).output_from(old(self)),
            final(self).output_pos == old(self).output_pos - (OUT_FLUSH - OUT_START),
            final(self).window() == old(self).window().skip((OUT_FLUSH - OUT_START) as int),
    {
        let kept: usize = self.output_pos - OUT_START;
        let mut i: usize = 0;
        while i < kept
            invariant
                i <= kept,
                kept + OUT_START == self.output_pos,
                self.output_pos == old(self).output_pos,
                OUT_FLUSH <= self.output_pos <= OUT_BUFF_SIZE,
                self.output_from(old(self)),
                forall|j: int|
                    0 <= j < i ==> #[trigger] self.out_buff@[j] == old(self).out_buff@[j
                        + OUT_START],
                forall|j: int|
                    i <= j < OUT_BUFF_SIZE ==> #[trigger] self.out_buff@[j] == old(
                        self,
                    ).out_buff@[j],
            decreases kept - i,
        {
            let byte: u8 = self.out_buff[OUT_START + i];
            self.out_buff[i] = byte;
            i = i + 1;
        }
        self.output_pos = kept;
        assert(self.window() =~= old(self).window().skip((OUT_FLUSH - OUT_START) as int));
    }

    /// What the stream starts with.
    pub open spec fn reading(&self) -> Reading {
        model::next_token(self.ctype, self.dsize_bits as nat, self.stream(), self.in_ended)
    }

    /// Reads a byte or a whole repetition. Nothing changes if the stream ends or the input runs
    /// out.
    pub fn decode_token(&mut self) -> (decoded: Decoded)
        requires
            old(self).wf(),
        ensures
            final(self).wf(),
            final(self).moved_from(old(self)),
            decoded.tells(old(self).reading()),
            decoded matches Decoded::Copy { length, distance } ==> 2 <= length <= 0x206 && 1
                <= distance <= 0x1000,
            decoded is Byte || decoded is Copy ==> final(self).stream() == old(self).stream().skip(
                old(self).reading()->bits,
            ),
            !(decoded is Byte || decoded is Copy) ==> *final(self) == *old(self),
    {
        let ghost s = self.stream();
        let bit_buff: u32 = self.bit_buff;
        let extra_bits: u32 = self.extra_bits;
        let in_pos: usize = self.in_pos;
        proof {
            codes::lemma_symbol_at(self.ctype, s.value);
        }
        let literal: u32 = self.decode_lit();
        if literal == LITERAL_ERROR {
            proof {
                lemma_end_bits(self.ctype);
            }
            return Decoded::ShortLiteral;
        }
        if literal == LITERAL_END_OF_STREAM {
            return Decoded::End;
        }
        if literal < 0x100 {
            return Decoded::Byte(literal as u8);
        }
        let rep_length: u32 = literal - 0xFE;
        let ghost n = codes::symbol_bits(self.ctype, literal as int);
        let ghost low = codes::low_distance_bits(rep_length as int, self.dsize_bits as nat);
        proof {
            lemma_distance_range(s.skip(n).value, low);
        }
        let distance: u32 = self.decode_dist(rep_length);
        if distance == 0 {
            self.bit_buff = bit_buff;
            self.extra_bits = extra_bits;
            self.in_pos = in_pos;
            return Decoded::ShortDistance;
        }
        proof {
            lemma_skip_skip(s, n, codes::distance_bits(s.skip(n).value, low));
        }
        Decoded::Copy { length: rep_length as usize, distance: distance as usize }
    }

    /// Reads a symbol, leaving the position anywhere if it is not a byte or a length.
    fn read_symbol(&mut self) -> (literal: u32)
        requires
            old(self).wf(),
        ensures
            final(self).wf(),
            final(self).moved_from(old(self)),
            literal == old(self).literal(),
            literal < LITERAL_END_OF_STREAM ==> final(self).stream() == old(self).stream().skip(
                codes::symbol_bits(old(self).ctype, literal as int),
            ),
    {
        proof {
            self.lemma_peek(1);
            let b = self.bit_buff;
            assert(b & 1 == b % 2) by (bit_vector);
            lemma_byte_or_length(self.ctype, self.stream().value);
        }
        if self.bit_buff & 1 != 0 {
            self.read_length()
        } else if let CompressionMode::Binary = self.ctype {
            self.read_binary()
        } else {
            self.read_ascii()
        }
    }

    /// Reads a symbol that is a length or the end of the stream.
    fn read_length(&mut self) -> (literal: u32)
        requires
            old(self).wf(),
            old(self).stream().value % 2 == 1,
        ensures
            final(self).wf(),
            final(self).moved_from(old(self)),
            literal == old(self).literal(),
            literal < LITERAL_END_OF_STREAM ==> final(self).stream() == old(self).stream().skip(
                codes::symbol_bits(old(self).ctype, literal as int),
            ),
    {
        let ghost s = self.stream();
        let ghost v = s.value;
        let ghost i = lemma_length_symbol(self.ctype, v);
        let ghost b = LEN_BITS[i] as nat;
        let ghost x = EX_LEN_BITS[i] as nat;
        proof {
            power2::lemma2_to64();
        }
        if !self.waste_bits(1) {
            return LITERAL_ERROR;
        }
        let index: u32 = self.peek_byte();
        let length_code: usize = self.length_codes[index as usize] as usize;
        assert(length_code == i);
        if !self.waste_bits(self.len_bits[length_code] as u32) {
            return LITERAL_ERROR;
        }
        proof {
            lemma_skip_skip(s, 1, b);
            bits::lemma_div_div(v, 1, b);
        }
        let extra_bits: u32 = self.ex_len_bits[length_code] as u32;
        if extra_bits == 0 {
            return length_code as u32 + 0x100;
        }
        let extra: u32 = self.peek(extra_bits);
        if self.waste_bits(extra_bits) {
            proof {
                lemma_skip_skip(s, 1 + b, x);
            }
        } else {
            if !self.in_ended || length_code as u32 + extra != 0x10E {
                return LITERAL_ERROR;
            }
        }
        self.len_base[length_code] as u32 + extra + 0x100
    }

    /// Reads a symbol that is a byte, in the binary mode.
    fn read_binary(&mut self) -> (literal: u32)
        requires
            old(self).wf(),
            old(self).stream().value % 2 == 0,
            old(self).ctype == CompressionMode::Binary,
        ensures
            final(self).wf(),
            final(self).moved_from(old(self)),
            literal == old(self).literal(),
            literal < LITERAL_END_OF_STREAM ==> final(self).stream() == old(self).stream().skip(
                codes::symbol_bits(old(self).ctype, literal as int),
            ),
    {
        let ghost s = self.stream();
        proof {
            power2::lemma2_to64();
            lemma_byte_symbol(self.ctype, s.value);
        }
        if !self.waste_bits(1) {
            return LITERAL_ERROR;
        }
        let byte: u32 = self.peek_byte();
        if !self.waste_bits(8) {
            return LITERAL_ERROR;
        }
        proof {
            lemma_skip_skip(s, 1, 8);
        }
        byte
    }

    /// Reads a symbol that is a byte, in the ASCII mode.
    fn read_ascii(&mut self) -> (literal: u32)
        requires
            old(self).wf(),
            old(self).stream().value % 2 == 0,
            old(self).ctype == CompressionMode::ASCII,
        ensures
            final(self).wf(),
            final(self).moved_from(old(self)),
            literal == old(self).literal(),
            literal < LITERAL_END_OF_STREAM ==> final(self).stream() == old(self).stream().skip(
                codes::symbol_bits(old(self).ctype, literal as int),
            ),
    {
        let ghost s = self.stream();
        let ghost v = s.value;
        let ghost n = codes::symbol_at(self.ctype, v);
        proof {
            power2::lemma2_to64();
            lemma_byte_symbol(self.ctype, v);
            codes::lemma_asc_at(v / 2);
            lookup::lemma_asc_shape(n);
        }
        if !self.waste_bits(1) {
            return LITERAL_ERROR;
        }
        let found: Option<u8> = self.find_ascii();
        match found {
            Some(value) => {
                proof {
                    lemma_skip_skip(s, 1, lookup::asc_skip(n));
                }
                if !self.waste_bits(self.ch_bits_asc[value as usize] as u32) {
                    return LITERAL_ERROR;
                }
                proof {
                    lemma_skip_skip(s, 1 + lookup::asc_skip(n), lookup::asc_left(n));
                }
                value as u32
            },
            None => LITERAL_ERROR,
        }
    }

    /// Looks up the byte whose ASCII code the stream starts with, skipping the leading bits of
    /// a long code.
    fn find_ascii(&mut self) -> (found: Option<u8>)
        requires
            old(self).wf(),
            old(self).ctype == CompressionMode::ASCII,
        ensures
            final(self).wf(),
            final(self).moved_from(old(self)),
            ({
                let s = old(self).stream();
                let c = codes::asc_at(s.value);
                let skip = lookup::asc_skip(c);
                match found {
                    Some(value) => value == c && s.len >= skip + 8 && final(self).stream()
                        == s.skip(skip),
                    None => s.len < skip + 8,
                }
            }),
    {
        let ghost s = self.stream();
        let ghost w = s.value;
        let ghost c = codes::asc_at(w);
        proof {
            power2::lemma2_to64();
            codes::lemma_asc_at(w);
            lookup::lemma_asc_lookup(w, c);
            lookup::lemma_asc_shape(c);
        }
        let first: u32 = self.peek_byte();
        if first == 0 {
            if !self.waste_bits(8) {
                return None;
            }
            let index: u32 = self.peek_byte();
            return Some(self.offs_2eb4[index as usize]);
        }
        let value: u8 = self.offs_2c34[first as usize];
        if value != 0xFF {
            proof {
                assert(s.skip(0).value == s.value);
            }
            return Some(value);
        }
        if first % 0x40 != 0 {
            if !self.waste_bits(4) {
                return None;
            }
            let index: u32 = self.peek_byte();
            Some(self.offs_2d34[index as usize])
        } else {
            if !self.waste_bits(6) {
                return None;
            }
            let index: u32 = self.peek(7);
            Some(self.offs_2e34[index as usize])
        }
    }

    /// The next eight bits.
    fn peek_byte(&self) -> (byte: u32)
        requires
            self.bits_wf(),
        ensures
            byte == self.stream().value % 256,
    {
        proof {
            self.lemma_peek(8);
            let b = self.bit_buff;
            assert(b & 0xFF == b % 256) by (bit_vector);
        }
        self.bit_buff & 0xFF
    }

    /// The next `n` bits.
    fn peek(&self, n: u32) -> (low: u32)
        requires
            self.bits_wf(),
            n <= 8,
        ensures
            low == self.stream().value % power2::pow2(n as nat),
    {
        proof {
            power2::lemma2_to64();
            vstd::bits::lemma_u32_shl_is_mul(1, n);
            lemma_mask(self.bit_buff, n, ((1u32 << n) - 1) as u32);
            self.lemma_peek(n as nat);
        }
        self.bit_buff & ((1u32 << n) - 1)
    }

    /// The next `n` bits of the stream are the lowest of the bit buffer.
    proof fn lemma_peek(&self, n: nat)
        requires
            self.bits_wf(),
            n <= 8,
        ensures
            self.stream().value % power2::pow2(n) == self.bit_buff as nat % power2::pow2(n),
            self.stream().len >= 8,
            power2::pow2(1) == 2,
            power2::pow2(8) == 256,
    {
        power2::lemma2_to64();
        bits::lemma_div_below(
            self.bit_buff as nat,
            n,
            (8 + self.extra_bits) as nat,
            bits::le_value(self.in_buff@.skip(self.in_pos as int)),
        );
    }
}

/// Skipping twice is skipping the sum.
pub proof fn lemma_skip_skip(s: Bits, a: nat, b: nat)
    requires
        a + b <= s.len,
    ensures
        s.skip(a).skip(b) == s.skip(a + b),
{
    bits::lemma_div_div(s.value, a, b);
}

/// The mark of the end of the stream takes sixteen bits.
proof fn lemma_end_bits(mode: CompressionMode)
    ensures
        codes::symbol_bits(mode, LITERAL_END_OF_STREAM as int) == 16,
{
}

/// A distance reaches back at least one byte and at most over a 4 KiB dictionary.
pub proof fn lemma_distance_range(v: nat, low: nat)
    requires
        low <= 6,
    ensures
        1 <= codes::distance_at(v, low) <= 0x1000,
{
    codes::lemma_dist_at(v);
    let i = codes::dist_at(v);
    let m = power2::pow2(low);
    let x = (v / power2::pow2(DIST_BITS[i] as nat)) % m;
    power2::lemma2_to64();
    assert(m <= 64) by {
        if low < 6 {
            power2::lemma_pow2_strictly_increases(low, 6);
        }
    }
    power2::lemma_pow2_pos(low);
    vstd::arithmetic::div_mod::lemma_mod_bound(
        (v / power2::pow2(DIST_BITS[i] as nat)) as int,
        m as int,
    );
    assert(i * m + x < 64 * 64) by (nonlinear_arith)
        requires
            0 <= i <= 63,
            1 <= m <= 64,
            x < m,
    ;
    assert(i * m >= 0) by (nonlinear_arith)
        requires
            i >= 0,
            m >= 1,
    ;
}

/// A mask of `n` bits takes a remainder.
proof fn lemma_mask(x: u32, n: u32, mask: u32)
    requires
        n <= 8,
        mask == (1u32 << n) - 1,
    ensures
        (x & mask) as nat == x as nat % power2::pow2(n as nat),
{
    power2::lemma2_to64();
    vstd::bits::lemma_u32_shl_is_mul(1, n);
    vstd::bits::lemma_u32_low_bits_mask_is_mod(x, n as nat);
    vstd::bits::lemma_low_bits_mask_values();
}

/// A stream that starts with a set bit starts with a length: the length code behind the bit is
/// what the lookup answers, and the verbatim bits follow.
proof fn lemma_length_symbol(mode: CompressionMode, v: nat) -> (i: int)
    requires
        v % 2 == 1,
    ensures
        ({
            let n = codes::symbol_at(mode, v);
            let w = v / 2;
            let rest = w / power2::pow2(LEN_BITS[i] as nat);
            let extra = rest % power2::pow2(EX_LEN_BITS[i] as nat);
            &&& 0 <= i < 16
            &&& lookup::table_entry(LEN_CODE@, LEN_BITS@, 16, (w % 256) as int, 0) == i
            &&& n == 0x100 + LEN_BASE[i] + extra
            &&& codes::symbol_bits(mode, n) == 1 + LEN_BITS[i] + EX_LEN_BITS[i]
            &&& n <= LITERAL_END_OF_STREAM
            &&& 2 <= LEN_BITS[i] <= 7
            &&& EX_LEN_BITS[i] <= 8
            &&& EX_LEN_BITS[i] == 0 ==> LEN_BASE[i] == i && extra == 0
            &&& (n == LITERAL_END_OF_STREAM <==> EX_LEN_BITS[i] != 0 && i + extra == 0x10E)
            &&& n == LITERAL_END_OF_STREAM ==> LEN_BITS[i] == 7 && EX_LEN_BITS[i] == 8
            &&& extra < 256
            &&& LEN_BASE[i] <= 0x106
        }),
{
    let w = v / 2;
    let i = lookup::lemma_len_lookup(w, 0);
    let rest = w / power2::pow2(LEN_BITS[i] as nat);
    let x = EX_LEN_BITS[i] as nat;
    power2::lemma2_to64();
    power2::lemma_pow2_pos(x);
    let extra = rest % power2::pow2(x);
    codes::lemma_length_index_of(i, extra as int);
    codes::lemma_length_index(LEN_BASE[i] + extra);
    let n = 0x100 + LEN_BASE[i] + extra;
    codes::lemma_begins_length(mode, v, n);
    codes::lemma_symbol_at(mode, v);
    assert(codes::begins_symbol(mode, v, n));
    i
}

/// The symbol at the start of a stream.
proof fn lemma_byte_or_length(mode: CompressionMode, v: nat)
    ensures
        0 <= codes::symbol_at(mode, v) <= LITERAL_END_OF_STREAM,
{
    codes::lemma_symbol_at(mode, v);
}

/// A stream that starts with a clear bit starts with a byte.
proof fn lemma_byte_symbol(mode: CompressionMode, v: nat)
    requires
        v % 2 == 0,
    ensures
        ({
            let n = codes::symbol_at(mode, v);
            &&& 0 <= n < 0x100
            &&& mode == CompressionMode::Binary ==> n == (v / 2) % 256
            &&& mode == CompressionMode::ASCII ==> codes::begins_asc(v / 2, n)
        }),
{
    codes::lemma_symbol_at(mode, v);
    let n = codes::symbol_at(mode, v);
    if n >= 0x100 {
        codes::lemma_begins_length(mode, v, n);
    } else {
        match mode {
            CompressionMode::Binary => codes::lemma_begins_binary(v, n),
            CompressionMode::ASCII => codes::lemma_begins_ascii(v, n),
        }
    }
}

/// Taking a byte into the bit buffer and skipping `n` bits.
proof fn lemma_refill(b: nat, e: nat, byte: nat, high: nat, n: nat)
    requires
        e < n <= 8,
        byte < 256,
        b < power2::pow2(8 + e),
    ensures
        ({
            let joined = b / power2::pow2(e) + 256 * byte;
            let left = joined / power2::pow2((n - e) as nat);
            &&& (b + power2::pow2(8 + e) * (byte + 256 * high)) / power2::pow2(n) == left
                + power2::pow2((16 + e - n) as nat) * high
            &&& left < power2::pow2((16 + e - n) as nat)
        }),
{
    power2::lemma2_to64();
    let low = b + power2::pow2(8 + e) * byte;
    power2::lemma_pow2_adds(8 + e, 8);
    assert(power2::pow2(8 + e) * (byte + 256 * high) == power2::pow2(8 + e) * byte + power2::pow2(
        16 + e,
    ) * high) by (nonlinear_arith)
        requires
            power2::pow2(16 + e) == power2::pow2(8 + e) * 256,
    ;
    bits::lemma_div_below(low, n, 16 + e, high);
    bits::lemma_div_below(b, e, 8 + e, byte);
    bits::lemma_div_div(low, e, (n - e) as nat);
    assert(low < power2::pow2(16 + e)) by (nonlinear_arith)
        requires
            low == b + power2::pow2(8 + e) * byte,
            b < power2::pow2(8 + e),
            byte <= 255,
            power2::pow2(16 + e) == power2::pow2(8 + e) * 256,
    ;
    bits::lemma_div_bound(low, n, 16 + e);
}

} // verus!
