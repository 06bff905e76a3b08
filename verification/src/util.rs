//! Constants and option structures shared by the compressor.
use vstd::prelude::*;

verus! {

/// Supported output formats.
#[derive(Debug, Clone, Copy, PartialEq, Eq, Structural)]
pub enum Format {
    /// Gzip container format (RFC 1952)
    Gzip,
    /// Zlib container format (RFC 1950)
    Zlib,
    /// Raw deflate stream format (RFC 1951)
    Deflate,
}

/// Options for Zopfli compression.
#[derive(Debug, Clone, Copy)]
pub struct SafeOptions {
    /// Whether to print verbose output.
    pub verbose: bool,
    /// Whether to print even more verbose output.
    pub verbose_more: bool,
    /// Number of iterations.
    pub numiterations: i32,
    /// Whether to enable block splitting.
    pub blocksplitting: bool,
    /// Left for backwards compatibility.
    pub blocksplittinglast: bool,
    /// Maximum number of blocks to split into.
    pub blocksplittingmax: i32,
}

impl Default for SafeOptions {
    fn default() -> (r: Self)
        ensures
            !r.verbose,
            !r.verbose_more,
            r.numiterations == 15,
            r.blocksplitting,
            !r.blocksplittinglast,
            r.blocksplittingmax == 15,
    {
        SafeOptions {
            verbose: false,
            verbose_more: false,
            numiterations: 15,
            blocksplitting: true,
            blocksplittinglast: false,
            blocksplittingmax: 15,
        }
    }
}

/// Maximum length that can be encoded in deflate.
pub const MAX_MATCH: usize = 258;
/// Minimum length that can be encoded in deflate.
pub const MIN_MATCH: usize = 3;

/// Minimum length symbol in DEFLATE.
pub const MIN_LENGTH_SYMBOL: usize = 257;

/// Number of distinct literal/length symbols in DEFLATE.
pub const NUM_LL: usize = 288;
/// Number of distinct distance symbols in DEFLATE.
pub const NUM_D: usize = 32;

/// Code-length code that repeats the previous length.
pub const RLE_CODE_COPY: usize = 16;
/// Code-length code for a run of 3 to 10 zeros.
pub const RLE_CODE_ZERO_3_10: usize = 17;
/// Code-length code for a run of 11 to 138 zeros.
pub const RLE_CODE_ZERO_11_138: usize = 18;

/// Shortest repetition the copy code can express.
pub const RLE_COPY_MIN: usize = 3;
/// Longest repetition the copy code can express.
pub const RLE_COPY_MAX: usize = 6;
/// Run length from which the copy code is used.
pub const RLE_COPY_THRESHOLD: usize = 4;
/// Shortest zero run of code 17.
pub const RLE_ZERO_17_MIN: usize = 3;
/// Longest zero run of code 17.
pub const RLE_ZERO_17_MAX: usize = 10;
/// Shortest zero run of code 18.
pub const RLE_ZERO_18_MIN: usize = 11;
/// Longest zero run of code 18.
pub const RLE_ZERO_18_MAX: usize = 138;

/// Extra bits of the copy code.
pub const RLE_COPY_EXTRA_BITS: u32 = 2;
/// Extra bits of code 17.
pub const RLE_ZERO_17_EXTRA_BITS: u32 = 3;
/// Extra bits of code 18.
pub const RLE_ZERO_18_EXTRA_BITS: u32 = 7;

/// Maximum code length for the code length Huffman tree in DEFLATE.
pub const MAX_CL_BIT_LENGTH: i32 = 7;

/// The window size for deflate. Must be a power of two.
pub const WINDOW_SIZE: usize = 32768;
/// The window mask used to wrap indices into the window.
pub const WINDOW_MASK: usize = 32767;

/// A block structure size to divide the input into.
pub const MACRO_BLOCK_SIZE: usize = 262144;

/// For longest match cache length.
pub const CACHE_LENGTH: usize = 8;

/// Limit the max hash chain hits.
pub const MAX_CHAIN_HITS: usize = 8192;

/// Represent the deflate block type.
#[derive(Debug, Clone, Copy, PartialEq, Eq, Structural)]
pub enum BlockType {
    /// Non-compressed block.
    Uncompressed,
    /// Block with fixed Huffman tree.
    FixedTree,
    /// Block with dynamic Huffman tree.
    DynamicTree,
}


/// Output formats as C callers number them: gzip, zlib, deflate (0, 1, 2 in this order).
#[allow(non_camel_case_types)]
#[derive(Debug, Clone, Copy, PartialEq, Eq, Structural)]
pub enum CZopfliFormat {
    /// Gzip output format.
    ZOPFLI_FORMAT_GZIP,
    /// Zlib output format.
    ZOPFLI_FORMAT_ZLIB,
    /// Deflate output format.
    ZOPFLI_FORMAT_DEFLATE,
}

impl CZopfliFormat {
    /// The output format that this C format number stands for.
    pub fn to_format(self) -> (r: Format)
        ensures
            self == CZopfliFormat::ZOPFLI_FORMAT_GZIP ==> r == Format::Gzip,
            self == CZopfliFormat::ZOPFLI_FORMAT_ZLIB ==> r == Format::Zlib,
            self == CZopfliFormat::ZOPFLI_FORMAT_DEFLATE ==> r == Format::Deflate,
    {
        match self {
            CZopfliFormat::ZOPFLI_FORMAT_GZIP => Format::Gzip,
            CZopfliFormat::ZOPFLI_FORMAT_ZLIB => Format::Zlib,
            CZopfliFormat::ZOPFLI_FORMAT_DEFLATE => Format::Deflate,
        }
    }
}

/// The machine's `usize` has 64 bits, so that bit counts of large blocks fit in it.
pub open spec fn wide_usize() -> bool {
    usize::BITS == 64
}

/// Masking an index with `WINDOW_MASK` (or with 65535) takes its remainder.
pub proof fn lemma_mask_low_bits(x: usize)
    ensures
        x & 32767usize == x % 32768,
        x & 65535usize == x % 65536,
{
    assert(x & 32767usize == x % 32768 && x & 65535usize == x % 65536) by (bit_vector);
}

/// The four little-endian bytes of a 32-bit word.
pub proof fn lemma_u32_bytes(v: u32)
    ensures
        v as u8 == (v % 256) as u8,
        (v >> 8u32) as u8 == ((v / 256) % 256) as u8,
        (v >> 16u32) as u8 == ((v / 65536) % 256) as u8,
        (v >> 24u32) as u8 == ((v / 16777216) % 256) as u8,
{
    assert(v as u8 == (v % 256) as u8 && (v >> 8u32) as u8 == ((v / 256) % 256) as u8 && (v >> 16u32) as u8 == ((
    v / 65536) % 256) as u8 && (v >> 24u32) as u8 == ((v / 16777216) % 256) as u8) by (bit_vector);
}

} // verus!
