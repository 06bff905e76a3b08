//! Compressed output read back by an independent DEFLATE decoder.

use miniz_oxide::inflate::{decompress_to_vec, decompress_to_vec_zlib};
use zopfli_rs::deflate::deflate;
use zopfli_rs::gzip_container::gzip_compress;
use zopfli_rs::lz77::{lz77_greedy, UninitializedLz77Store, ZopfliBlockState};
use zopfli_rs::util::{BlockType, SafeOptions};
use zopfli_rs::zlib_container::zlib_compress;

/// A greedy LZ77 parse of `data[start..end]`, standing in for the optimal parser.
fn greedy_parse(data: &[u8], start: usize, end: usize) -> (Vec<u16>, Vec<u16>) {
    let options = SafeOptions::default();
    let mut s = ZopfliBlockState { options: &options, lmc: None, blockstart: start, blockend: end };
    let mut store = UninitializedLz77Store::new().initialize(data);
    lz77_greedy(&mut s, data, start, end, &mut store);
    (store.litlens, store.dists)
}

fn text_sample(n: usize) -> Vec<u8> {
    let words: [&[u8]; 6] = [b"deflate ", b"block ", b"huffman ", b"tree ", b"length ", b"distance "];
    let mut v = Vec::new();
    let mut i = 0usize;
    while v.len() < n {
        v.extend_from_slice(words[(i * 7 + i / 3) % 6]);
        i += 1;
    }
    v.truncate(n);
    v
}

fn noise_sample(n: usize) -> Vec<u8> {
    let mut x: u32 = 12345;
    (0..n)
        .map(|_| {
            x = x.wrapping_mul(1103515245).wrapping_add(12345);
            (x >> 16) as u8
        })
        .collect()
}

fn deflate_with(btype: BlockType, input: &[u8]) -> Vec<u8> {
    let options = SafeOptions::default();
    let mut out = Vec::new();
    let mut bp = 0u8;
    let optimal = |s: usize, e: usize| greedy_parse(input, s, e);
    deflate(&options, btype, true, input, &mut bp, &mut out, &optimal).unwrap();
    out
}

#[test]
fn stored_blocks_read_back() {
    for input in [Vec::new(), b"a".to_vec(), text_sample(1000), noise_sample(70000)] {
        let out = deflate_with(BlockType::Uncompressed, &input);
        assert_eq!(decompress_to_vec(&out).unwrap(), input);
    }
}

#[test]
fn fixed_blocks_read_back() {
    for input in [Vec::new(), b"a".to_vec(), text_sample(5000), noise_sample(3000), vec![7u8; 20000]] {
        let out = deflate_with(BlockType::FixedTree, &input);
        assert_eq!(decompress_to_vec(&out).unwrap(), input);
    }
}

#[test]
fn fixed_blocks_of_several_macro_blocks_read_back() {
    let input = text_sample(270000);
    let out = deflate_with(BlockType::FixedTree, &input);
    assert_eq!(decompress_to_vec(&out).unwrap(), input);
}

#[test]
fn dynamic_blocks_read_back() {
    for input in [Vec::new(), b"ab".to_vec(), text_sample(20000), noise_sample(5000), vec![0u8; 4000]] {
        let out = deflate_with(BlockType::DynamicTree, &input);
        assert_eq!(decompress_to_vec(&out).unwrap(), input);
    }
}

#[test]
fn gzip_body_reads_back() {
    let input = text_sample(12000);
    let options = SafeOptions::default();
    let mut out = Vec::new();
    let optimal = |s: usize, e: usize| greedy_parse(&input, s, e);
    gzip_compress(&options, &input, &mut out, &optimal).unwrap();
    let body = &out[10..out.len() - 8];
    assert_eq!(decompress_to_vec(body).unwrap(), input);
    let size = u32::from_le_bytes([out[out.len() - 4], out[out.len() - 3], out[out.len() - 2], out[out.len() - 1]]);
    assert_eq!(size as usize, input.len());
}

#[test]
fn zlib_stream_reads_back() {
    let input = noise_sample(2000);
    let options = SafeOptions::default();
    let mut out = Vec::new();
    let optimal = |s: usize, e: usize| greedy_parse(&input, s, e);
    zlib_compress(&options, &input, &mut out, &optimal).unwrap();
    assert_eq!(decompress_to_vec_zlib(&out).unwrap(), input);
}

#[test]
fn mixed_dynamic_stream_reads_back() {
    let mut input = text_sample(15000);
    input.extend(noise_sample(70000));
    input.extend(text_sample(15000));
    let out = deflate_with(BlockType::DynamicTree, &input);
    assert_eq!(decompress_to_vec(&out).unwrap(), input);
}

#[test]
fn dynamic_stream_of_several_macro_blocks_reads_back() {
    let mut input = text_sample(200000);
    input.extend(noise_sample(70000));
    let out = deflate_with(BlockType::DynamicTree, &input);
    assert_eq!(decompress_to_vec(&out).unwrap(), input);
}
