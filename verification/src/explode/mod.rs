//! Decompression.
pub mod calls;
pub mod laws;
pub mod lookup;
pub mod model;
pub mod pieces;
pub mod reader;
pub mod state;

use vstd::prelude::*;

verus! {

/// The size of the sliding output buffer: the dictionary, one block of output, and room for a
/// repetition that runs past the end of the block.
pub const OUT_BUFF_SIZE: usize = 0x2204;

/// Where output starts in the output buffer; what lies below is the dictionary.
pub const OUT_START: usize = 0x1000;

/// Where a block of output ends.
pub const OUT_FLUSH: usize = 0x2000;

/// The most bytes that are taken from the source at a time.
pub const IN_BUFF_SIZE: usize = 0x800;

/// What `decode_lit` returns at the end of the stream.
pub const LITERAL_END_OF_STREAM: u32 = 0x305;

/// What `decode_lit` returns when the input runs out.
pub const LITERAL_ERROR: u32 = 0x306;

} // verus!
