//! Types that both directions share.
use vstd::prelude::*;

verus! {

/// How literal bytes are coded in a stream.
#[derive(Debug, Clone, Copy, PartialEq, Eq, Structural)]
pub enum CompressionMode {
    /// Every literal takes eight bits.
    Binary,
    /// Literals have variable-length codes that favour text.
    ASCII,
}

/// The size of the sliding dictionary.
#[derive(Debug, Clone, Copy, PartialEq, Eq, Structural)]
pub enum DictionarySize {
    /// 1024 bytes.
    Size1K,
    /// 2048 bytes.
    Size2K,
    /// 4096 bytes.
    Size4K,
}

impl DictionarySize {
    /// The number of low distance bits that a stream with this dictionary stores verbatim.
    pub open spec fn spec_bits(self) -> u8 {
        match self {
            DictionarySize::Size1K => 4,
            DictionarySize::Size2K => 5,
            DictionarySize::Size4K => 6,
        }
    }

    /// The dictionary size in bytes.
    pub open spec fn spec_bytes(self) -> u32 {
        match self {
            DictionarySize::Size1K => 1024,
            DictionarySize::Size2K => 2048,
            DictionarySize::Size4K => 4096,
        }
    }

    /// The number of low distance bits that a stream with this dictionary stores verbatim.
    pub fn bits(self) -> (bits: u8)
        ensures
            bits == self.spec_bits(),
    {
        match self {
            DictionarySize::Size1K => 4,
            DictionarySize::Size2K => 5,
            DictionarySize::Size4K => 6,
        }
    }

    /// The dictionary size in bytes.
    pub fn bytes(self) -> (bytes: u32)
        ensures
            bytes == self.spec_bytes(),
    {
        match self {
            DictionarySize::Size1K => 1024,
            DictionarySize::Size2K => 2048,
            DictionarySize::Size4K => 4096,
        }
    }
}

/// What can go wrong.
#[derive(Debug, PartialEq, Eq)]
pub enum PkLibError {
    /// The stream is too short to hold a header.
    InvalidData(String),
    /// The first header byte names no compression mode.
    InvalidCompressionMode(u8),
    /// The second header byte names no dictionary size.
    InvalidDictionaryBits(u8),
    /// The stream cannot be decoded.
    DecompressionError(String),
}

/// The result type of this library.
pub type Result<T> = core::result::Result<T, PkLibError>;

} // verus!
