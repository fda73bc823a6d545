//! Compression and decompression in the format of the PKWare Data Compression Library.
//!
//! `explode` decompresses: `ExplodeReader` takes a stream piece by piece and gives its plain text
//! back. `implode` holds the state of a compressor and its search for repetitions. What they share
//! is the coding of the stream: `tables` holds the code tables, `codes` says what a code stands
//! for, and `bits` what a stream of bits is. `explode::laws`, `implode::laws`, `roundtrip` and
//! `canonical` say what all this guarantees, in bytes, distances and bits.
pub mod bits;
pub mod canonical;
pub mod code_words;
pub mod codes;
pub mod common;
pub mod explode;
pub mod implode;
pub mod roundtrip;
pub mod tables;

pub use common::{CompressionMode, DictionarySize, PkLibError, Result};
pub use explode::reader::{ExplodeReader, Progress, ReadStep};
pub use implode::pattern::MatchResult;
pub use implode::state::ImplodeState;
