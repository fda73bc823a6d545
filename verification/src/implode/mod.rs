//! Compression: the state of the compressor and its search for repetitions.
pub mod hash;
pub mod laws;
pub mod pattern;
pub mod state;

use vstd::prelude::*;

verus! {

/// The size of the work buffer: dictionary and uncompressed data.
pub const WORK_BUFF_SIZE: usize = 0x2204;

/// The size of the output buffer.
pub const OUT_BUFF_SIZE: usize = 0x802;

/// The number of values that `byte_pair_hash` is allowed to take.
pub const HASH_TABLE_SIZE: usize = 0x900;

/// The number of symbols of a stream.
pub const LITERALS_COUNT: usize = 0x306;

/// The size of the temporary offset buffer.
pub const OFFSS_SIZE2: usize = 0x204;

/// The longest repetition that is used.
pub const MAX_REP_LENGTH: usize = 0x204;

/// The hash of the byte pair `a`, `b`.
pub open spec fn pair_hash(a: u8, b: u8) -> int {
    a * 4 + b * 5
}

/// The hash of the byte pair at `pos`.
pub open spec fn hash_at(work: Seq<u8>, pos: int) -> int {
    pair_hash(work[pos], work[pos + 1])
}

/// The hash of the first two bytes of `buffer`.
pub fn byte_pair_hash(buffer: &[u8]) -> (hash: usize)
    requires
        buffer@.len() >= 2,
    ensures
        hash == pair_hash(buffer@[0], buffer@[1]),
        hash == buffer@[0] * 4 + buffer@[1] * 5,
        hash < HASH_TABLE_SIZE,
{
    buffer[0] as usize * 4 + buffer[1] as usize * 5
}

} // verus!
