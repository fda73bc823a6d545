//! The state of a compression.
use super::{
    HASH_TABLE_SIZE, LITERALS_COUNT, OFFSS_SIZE2, OUT_BUFF_SIZE, WORK_BUFF_SIZE,
};
use crate::codes;
use crate::common::{CompressionMode, DictionarySize, Result};
use crate::tables::{
    CH_BITS_ASC, CH_CODE_ASC, DIST_BITS, DIST_CODE, EX_LEN_BITS, LEN_BASE, LEN_BITS, LEN_CODE,
};
use vstd::arithmetic::power2;
use vstd::prelude::*;

verus! {

/// Compression state.
#[derive(Debug)]
pub struct ImplodeState {
    /// Backward distance of the repetition that was found, less one.
    pub distance: u32,
    /// Number of bytes available in the output buffer.
    pub out_bytes: u32,
    /// Number of bits available in the last output byte.
    pub out_bits: u32,
    /// Number of bits needed for the dictionary size (4, 5 or 6).
    pub dsize_bits: u32,
    /// Bit mask for the dictionary (0x0F, 0x1F or 0x3F).
    pub dsize_mask: u32,
    /// Compression mode.
    pub ctype: CompressionMode,
    /// Dictionary size in bytes.
    pub dsize_bytes: u32,
    /// Distance bit lengths.
    pub dist_bits: [u8; 64],
    /// Distance codes.
    pub dist_codes: [u8; 64],
    /// Bit length of each symbol in the output stream.
    pub literal_bits: [u8; LITERALS_COUNT],
    /// Code of each symbol in the output stream.
    pub literal_codes: [u16; LITERALS_COUNT],
    /// For each byte pair hash, the index in `phash_offs` of its first occurrence.
    pub phash_to_index: [u16; HASH_TABLE_SIZE],
    /// Output buffer for compressed data.
    pub out_buff: [u8; OUT_BUFF_SIZE],
    /// Work buffer: dictionary and uncompressed data.
    pub work_buff: [u8; WORK_BUFF_SIZE],
    /// Offsets of the byte pairs, ordered by hash.
    pub phash_offs: [u16; WORK_BUFF_SIZE],
    /// Temporary offset buffer.
    pub offs_buffer: [u16; OFFSS_SIZE2],
    /// Number of byte pairs that `phash_offs` was built for.
    pub pair_count: usize,
    /// Current position in the work buffer.
    pub work_pos: usize,
    /// Current position in the input data.
    pub input_pos: usize,
    /// Amount of data in the work buffer.
    pub work_bytes: usize,
    /// How many bytes at the start of the work buffer have been compressed and emitted.
    pub compressed_pos: usize,
}

impl ImplodeState {
    /// The code tables are those of the format for this mode.
    pub open spec fn codes_wf(&self) -> bool {
        &&& self.dist_bits@ == DIST_BITS@
        &&& self.dist_codes@ == DIST_CODE@
        &&& forall|n: int|
            0 <= n < LITERALS_COUNT ==> #[trigger] self.literal_bits@[n] == codes::symbol_bits(
                self.ctype,
                n,
            )
        &&& forall|n: int|
            0 <= n < LITERALS_COUNT ==> #[trigger] self.literal_codes@[n] == codes::symbol_code(
                self.ctype,
                n,
            )
    }

    /// The dictionary parameters are those of `dict_size`.
    pub open spec fn has_dictionary(&self, dict_size: DictionarySize) -> bool {
        &&& self.dsize_bytes == dict_size.spec_bytes()
        &&& self.dsize_bits == dict_size.spec_bits()
        &&& self.dsize_mask == power2::pow2(dict_size.spec_bits() as nat) - 1
    }

    /// Nothing has been compressed: all counters and buffers are zero.
    pub open spec fn blank(&self) -> bool {
        &&& self.distance == 0
        &&& self.out_bytes == 0
        &&& self.out_bits == 0
        &&& self.pair_count == 0
        &&& self.work_pos == 0
        &&& self.input_pos == 0
        &&& self.work_bytes == 0
        &&& self.compressed_pos == 0
        &&& self.phash_to_index@ == Seq::new(HASH_TABLE_SIZE as nat, |i: int| 0u16)
        &&& self.out_buff@ == Seq::new(OUT_BUFF_SIZE as nat, |i: int| 0u8)
        &&& self.work_buff@ == Seq::new(WORK_BUFF_SIZE as nat, |i: int| 0u8)
        &&& self.phash_offs@ == Seq::new(WORK_BUFF_SIZE as nat, |i: int| 0u16)
        &&& self.offs_buffer@ == Seq::new(OFFSS_SIZE2 as nat, |i: int| 0u16)
    }

    /// A compression state for a mode and a dictionary size.
    pub fn new(mode: CompressionMode, dict_size: DictionarySize) -> (result: Result<Self>)
        ensures
            result matches Ok(state) && state.ctype == mode && state.has_dictionary(dict_size)
                && state.codes_wf() && state.blank(),
    {
        let dsize_bytes: u32 = dict_size.bytes();
        let dsize_bits: u32 = dict_size.bits() as u32;
        proof {
            power2::lemma2_to64();
            assert(1u32 << 4 == 16 && 1u32 << 5 == 32 && 1u32 << 6 == 64) by (bit_vector);
        }
        let dsize_mask: u32 = (1u32 << dsize_bits) - 1;
        let mut state = ImplodeState {
            distance: 0,
            out_bytes: 0,
            out_bits: 0,
            dsize_bits,
            dsize_mask,
            ctype: mode,
            dsize_bytes,
            dist_bits: DIST_BITS,
            dist_codes: DIST_CODE,
            literal_bits: [0; LITERALS_COUNT],
            literal_codes: [0; LITERALS_COUNT],
            phash_to_index: [0; HASH_TABLE_SIZE],
            out_buff: [0; OUT_BUFF_SIZE],
            work_buff: [0; WORK_BUFF_SIZE],
            phash_offs: [0; WORK_BUFF_SIZE],
            offs_buffer: [0; OFFSS_SIZE2],
            pair_count: 0,
            work_pos: 0,
            input_pos: 0,
            work_bytes: 0,
            compressed_pos: 0,
        };
        proof {
            state.lemma_blank();
        }
        state.init_literal_tables()?;
        Ok(state)
    }

    /// Makes the state ready for a new compression with the same mode and dictionary size.
    pub fn reset(&mut self)
        ensures
            final(self).blank(),
            *final(self) == (ImplodeState {
                distance: 0,
                out_bytes: 0,
                out_bits: 0,
                pair_count: 0,
                work_pos: 0,
                input_pos: 0,
                work_bytes: 0,
                compressed_pos: 0,
                phash_to_index: final(self).phash_to_index,
                out_buff: final(self).out_buff,
                work_buff: final(self).work_buff,
                phash_offs: final(self).phash_offs,
                offs_buffer: final(self).offs_buffer,
                ..*old(self)
            }),
            old(self).codes_wf() ==> final(self).codes_wf(),
    {
        self.distance = 0;
        self.out_bytes = 0;
        self.out_bits = 0;
        self.pair_count = 0;
        self.work_pos = 0;
        self.input_pos = 0;
        self.work_bytes = 0;
        self.compressed_pos = 0;
        self.phash_to_index = [0; HASH_TABLE_SIZE];
        self.out_buff = [0; OUT_BUFF_SIZE];
        self.work_buff = [0; WORK_BUFF_SIZE];
        self.phash_offs = [0; WORK_BUFF_SIZE];
        self.offs_buffer = [0; OFFSS_SIZE2];
        proof {
            self.lemma_blank();
        }
    }

    /// Zero everywhere is blank.
    proof fn lemma_blank(&self)
        requires
            self.distance == 0,
            self.out_bytes == 0,
            self.out_bits == 0,
            self.pair_count == 0,
            self.work_pos == 0,
            self.input_pos == 0,
            self.work_bytes == 0,
            self.compressed_pos == 0,
            forall|i: int| 0 <= i < HASH_TABLE_SIZE ==> #[trigger] self.phash_to_index@[i] == 0,
            forall|i: int| 0 <= i < OUT_BUFF_SIZE ==> #[trigger] self.out_buff@[i] == 0,
            forall|i: int| 0 <= i < WORK_BUFF_SIZE ==> #[trigger] self.work_buff@[i] == 0,
            forall|i: int| 0 <= i < WORK_BUFF_SIZE ==> #[trigger] self.phash_offs@[i] == 0,
            forall|i: int| 0 <= i < OFFSS_SIZE2 ==> #[trigger] self.offs_buffer@[i] == 0,
        ensures
            self.blank(),
    {
        assert(self.phash_to_index@ =~= Seq::new(HASH_TABLE_SIZE as nat, |i: int| 0u16));
        assert(self.out_buff@ =~= Seq::new(OUT_BUFF_SIZE as nat, |i: int| 0u8));
        assert(self.work_buff@ =~= Seq::new(WORK_BUFF_SIZE as nat, |i: int| 0u8));
        assert(self.phash_offs@ =~= Seq::new(WORK_BUFF_SIZE as nat, |i: int| 0u16));
        assert(self.offs_buffer@ =~= Seq::new(OFFSS_SIZE2 as nat, |i: int| 0u16));
    }

    /// This state is `before` with nothing changed but the literal tables.
    pub open spec fn only_literals_changed(&self, before: &ImplodeState) -> bool {
        *self == (ImplodeState {
            literal_bits: self.literal_bits,
            literal_codes: self.literal_codes,
            ..*before
        })
    }

    /// The first `count` entries of the literal tables are those of the format.
    pub open spec fn literals_upto(&self, count: int) -> bool {
        &&& forall|n: int|
            0 <= n < count ==> #[trigger] self.literal_bits@[n] == codes::symbol_bits(
                self.ctype,
                n,
            )
        &&& forall|n: int|
            0 <= n < count ==> #[trigger] self.literal_codes@[n] == codes::symbol_code(
                self.ctype,
                n,
            )
    }

    /// Fills the literal tables for this state's mode: the bytes, then the repetition lengths
    /// and the end of the stream.
    pub fn init_literal_tables(&mut self) -> (result: Result<()>)
        ensures
            result is Ok,
            final(self).literals_upto(LITERALS_COUNT as int),
            final(self).only_literals_changed(old(self)),
    {
        let mut n_count: usize = 0;
        while n_count < 0x100
            invariant
                n_count <= 0x100,
                self.literals_upto(n_count as int),
                self.only_literals_changed(old(self)),
            decreases 0x100 - n_count,
        {
            match self.ctype {
                CompressionMode::Binary => {
                    self.literal_bits[n_count] = 9;
                    self.literal_codes[n_count] = (n_count * 2) as u16;
                },
                CompressionMode::ASCII => {
                    proof {
                        lemma_asc_size(n_count as int);
                    }
                    self.literal_bits[n_count] = CH_BITS_ASC[n_count] + 1;
                    self.literal_codes[n_count] = CH_CODE_ASC[n_count] * 2;
                },
            }
            n_count = n_count + 1;
        }
        let mut i: usize = 0;
        while i < 0x10
            invariant
                i <= 0x10,
                n_count == (if i < 0x10 {
                    0x100 + LEN_BASE[i as int]
                } else {
                    LITERALS_COUNT as int
                }),
                self.literals_upto(n_count as int),
                self.only_literals_changed(old(self)),
            decreases 0x10 - i,
        {
            let ex_bits: u8 = EX_LEN_BITS[i];
            let len_bits: u8 = LEN_BITS[i];
            let len_code: u16 = LEN_CODE[i] as u16;
            proof {
                lemma_length_step(i as int);
                vstd::bits::lemma_u16_shl_is_mul(1, ex_bits as u16);
            }
            let n_count2_max: u16 = 1u16 << ex_bits;
            let mut n_count2: u16 = 0;
            while n_count2 < n_count2_max
                invariant
                    i < 0x10,
                    n_count2 <= n_count2_max,
                    n_count2_max == power2::pow2(EX_LEN_BITS[i as int] as nat),
                    n_count2_max <= 256,
                    ex_bits == EX_LEN_BITS[i as int],
                    len_bits == LEN_BITS[i as int],
                    len_code == LEN_CODE[i as int],
                    n_count == 0x100 + LEN_BASE[i as int] + n_count2,
                    n_count <= LITERALS_COUNT,
                    0x100 + LEN_BASE[i as int] + n_count2_max <= LITERALS_COUNT,
                    self.literals_upto(n_count as int),
                    self.only_literals_changed(old(self)),
                decreases n_count2_max - n_count2,
            {
                proof {
                    codes::lemma_length_index_of(i as int, n_count2 as int);
                    lemma_length_code(n_count2, len_bits as u16, len_code, i as int);
                }
                self.literal_bits[n_count] = ex_bits + len_bits + 1;
                self.literal_codes[n_count] = (n_count2 << (len_bits + 1)) | (len_code * 2) | 1;
                n_count = n_count + 1;
                n_count2 = n_count2 + 1;
            }
            i = i + 1;
        }
        Ok(())
    }
}

impl Default for ImplodeState {
    /// A state for the binary mode with a 2 KiB dictionary.
    fn default() -> (state: Self)
        ensures
            state.ctype == CompressionMode::Binary,
            state.has_dictionary(DictionarySize::Size2K),
            state.codes_wf(),
            state.blank(),
    {
        ImplodeState::new(CompressionMode::Binary, DictionarySize::Size2K).unwrap()
    }
}

/// Blank states of the same mode and dictionary size are equal: a state that has been reset is as
/// good as a new one.
pub proof fn law_blank_states_are_equal(a: ImplodeState, b: ImplodeState, size: DictionarySize)
    requires
        a.blank(),
        b.blank(),
        a.codes_wf(),
        b.codes_wf(),
        a.ctype == b.ctype,
        a.has_dictionary(size),
        b.has_dictionary(size),
    ensures
        a == b,
{
    assert(a.literal_bits@ =~= b.literal_bits@);
    assert(a.literal_codes@ =~= b.literal_codes@);
    assert(a.dist_bits =~= b.dist_bits);
    assert(a.dist_codes =~= b.dist_codes);
    assert(a.literal_bits =~= b.literal_bits);
    assert(a.literal_codes =~= b.literal_codes);
    assert(a.phash_to_index =~= b.phash_to_index);
    assert(a.out_buff =~= b.out_buff);
    assert(a.work_buff =~= b.work_buff);
    assert(a.phash_offs =~= b.phash_offs);
    assert(a.offs_buffer =~= b.offs_buffer);
}

/// The ASCII codes leave room for the flag bit.
proof fn lemma_asc_size(c: int)
    requires
        0 <= c < 0x100,
    ensures
        CH_BITS_ASC[c] <= 13,
        CH_CODE_ASC[c] < 0x2000,
{
    let w = c as u32;
    crate::code_words::lemma_asc_words(w);
    assert(w < 256 ==> crate::code_words::asc_code_of(w) < 0x2000) by (bit_vector);
}

/// The ranges of the length codes follow each other and end with the last symbol.
proof fn lemma_length_step(i: int)
    requires
        0 <= i < 16,
    ensures
        LEN_BASE[i] + power2::pow2(EX_LEN_BITS[i] as nat) == (if i < 15 {
            LEN_BASE[i + 1] as int
        } else {
            0x206
        }),
        power2::pow2(EX_LEN_BITS[i] as nat) <= 256,
        EX_LEN_BITS[i] <= 8,
        LEN_BITS[i] <= 7,
{
    power2::lemma2_to64();
}

/// Verbatim bits, length code and flag bit do not overlap.
proof fn lemma_length_code(extra: u16, len_bits: u16, len_code: u16, i: int)
    requires
        0 <= i < 16,
        extra < power2::pow2(EX_LEN_BITS[i] as nat),
        len_bits == LEN_BITS[i],
        len_code == LEN_CODE[i],
    ensures
        ((extra << ((len_bits + 1) as u16)) | ((len_code * 2) as u16) | 1) == 1 + 2 * (len_code
            + power2::pow2(len_bits as nat) * extra),
{
    codes::lemma_len_fits(i);
    lemma_length_step(i);
    power2::lemma2_to64();
    let n = (len_bits + 1) as u16;
    let doubled = (len_code * 2) as u16;
    vstd::bits::lemma_u16_shl_is_mul(1, len_bits);
    assert(((extra << n) | doubled | 1) == (extra << n) + 2 * len_code + 1) by (bit_vector)
        requires
            len_bits <= 7,
            extra < 256,
            n == len_bits + 1,
            doubled == len_code * 2,
            len_code < (1u16 << len_bits),
    ;
    let p = power2::pow2(len_bits as nat);
    power2::lemma_pow2_unfold(n as nat);
    assert(power2::pow2(n as nat) == 2 * p);
    assert(extra * power2::pow2(n as nat) == 2 * (p * extra)) by (nonlinear_arith)
        requires
            power2::pow2(n as nat) == 2 * p,
    ;
    assert(p * extra <= 128 * 255) by (nonlinear_arith)
        requires
            p <= 128,
            extra <= 255,
    ;
    vstd::bits::lemma_u16_shl_is_mul(extra, n);
}

} // verus!
