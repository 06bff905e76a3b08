//! A Rust implementation of the Zopfli compression algorithm.
//!
//! Zopfli is a DEFLATE-compatible compression algorithm that performs exhaustive
//! search to find the optimal block splitting and LZ77 parsing, achieving higher
//! compression ratio at the cost of significantly slower compression speed.
pub mod bitstream;
pub mod blocksplitter;
pub mod cache;
pub mod checksum;
pub mod deflate;
pub mod error;
pub mod gzip_container;
pub mod hash;
pub mod inflate;
pub mod inflate_dynamic;
pub mod inflate_stream;
pub mod katajainen;
pub mod lz77;
pub mod math;
pub mod squeeze;
pub mod symbols;
pub mod tree;
pub mod util;
pub mod zlib_container;
