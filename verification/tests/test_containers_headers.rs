//! Tests of the gzip and zlib containers.

use zopfli_rs::gzip_container::gzip_compress;
use zopfli_rs::lz77::{lz77_greedy, UninitializedLz77Store, ZopfliBlockState};
use zopfli_rs::util::SafeOptions;
use zopfli_rs::zlib_container::zlib_compress;

/// A greedy LZ77 parse of `data[start..end]`, standing in for the optimal parser.
fn greedy_parse(data: &[u8], start: usize, end: usize) -> (Vec<u16>, Vec<u16>) {
    let options = SafeOptions::default();
    let mut s = ZopfliBlockState { options: &options, lmc: None, blockstart: start, blockend: end };
    let mut store = UninitializedLz77Store::new().initialize(data);
    lz77_greedy(&mut s, data, start, end, &mut store);
    (store.litlens, store.dists)
}

#[test]
fn test_gzip_container_headers_empty() {
    let options = SafeOptions::default();
    let mut out = Vec::new();
    let optimal = |s: usize, e: usize| greedy_parse(b"", s, e);
    gzip_compress(&options, b"", &mut out, &optimal).unwrap();

    // Header (10 bytes), the deflate body 3, 0, CRC32 0 and ISIZE 0.
    let expected = vec![
        31, 139, 8, 0, 0, 0, 0, 0, 2, 3, // Header
        3, 0, // Deflate body
        0, 0, 0, 0, // CRC32
        0, 0, 0, 0, // ISIZE
    ];
    assert_eq!(out, expected);
}

#[test]
fn test_gzip_container_headers_simple() {
    let options = SafeOptions::default();
    let mut out = Vec::new();
    let optimal = |s: usize, e: usize| greedy_parse(b"abc", s, e);
    gzip_compress(&options, b"abc", &mut out, &optimal).unwrap();

    assert_eq!(&out[0..10], &[31, 139, 8, 0, 0, 0, 0, 0, 2, 3]);

    let len = out.len();
    assert!(len >= 18);
    // CRC32 of "abc" is 0x352441c2, little endian.
    assert_eq!(&out[len - 8..len - 4], &[0xc2, 0x41, 0x24, 0x35]);
    // ISIZE of "abc" is 3.
    assert_eq!(&out[len - 4..len], &[3, 0, 0, 0]);
}

#[test]
fn test_zlib_container_headers_empty() {
    let options = SafeOptions::default();
    let mut out = Vec::new();
    let optimal = |s: usize, e: usize| greedy_parse(b"", s, e);
    zlib_compress(&options, b"", &mut out, &optimal).unwrap();

    // Header 0x78 0xDA, the deflate body 3, 0 and Adler32 1, big endian.
    let expected = vec![
        120, 218, // Header
        3, 0, // Deflate body
        0, 0, 0, 1, // Adler32
    ];
    assert_eq!(out, expected);
}

#[test]
fn test_zlib_container_headers_simple() {
    let options = SafeOptions::default();
    let mut out = Vec::new();
    let optimal = |s: usize, e: usize| greedy_parse(b"abc", s, e);
    zlib_compress(&options, b"abc", &mut out, &optimal).unwrap();

    assert_eq!(&out[0..2], &[120, 218]);

    let len = out.len();
    assert!(len >= 6);
    // Adler32 of "abc" is 0x024d0127, big endian.
    assert_eq!(&out[len - 4..len], &[0x02, 0x4d, 0x01, 0x27]);
}

#[test]
fn test_gzip_verbose_underflow_prevention() {
    let options = SafeOptions { verbose: true, ..Default::default() };
    let mut out = Vec::new();
    let optimal = |s: usize, e: usize| greedy_parse(b"a", s, e);
    gzip_compress(&options, b"a", &mut out, &optimal).unwrap();
    assert!(out.len() > 1);
}

#[test]
fn test_zlib_verbose_underflow_prevention() {
    let options = SafeOptions { verbose: true, ..Default::default() };
    let mut out = Vec::new();
    let optimal = |s: usize, e: usize| greedy_parse(b"a", s, e);
    zlib_compress(&options, b"a", &mut out, &optimal).unwrap();
    assert!(out.len() > 1);
}

#[test]
fn gzip_appends_to_what_is_there() {
    let options = SafeOptions::default();
    let mut out = vec![9u8, 9];
    let optimal = |s: usize, e: usize| greedy_parse(b"", s, e);
    gzip_compress(&options, b"", &mut out, &optimal).unwrap();
    assert_eq!(&out[0..4], &[9, 9, 31, 139]);
    assert_eq!(out.len(), 22);
}
