//! Tests of the DEFLATE stream writer.

use zopfli_rs::deflate::{add_lz77_block, add_non_compressed_block, deflate, deflate_part};
use zopfli_rs::error::Error;
use zopfli_rs::lz77::{lz77_greedy, UninitializedLz77Store, ZopfliBlockState};
use zopfli_rs::squeeze::{get_best_lengths_fixed, lz77_optimal_fixed};
use zopfli_rs::util::{BlockType, SafeOptions};

/// A greedy LZ77 parse of `data[start..end]`, standing in for the optimal parser.
fn greedy_parse(data: &[u8], start: usize, end: usize) -> (Vec<u16>, Vec<u16>) {
    let options = SafeOptions::default();
    let mut s = ZopfliBlockState { options: &options, lmc: None, blockstart: start, blockend: end };
    let mut store = UninitializedLz77Store::new().initialize(data);
    lz77_greedy(&mut s, data, start, end, &mut store);
    (store.litlens, store.dists)
}

#[test]
fn test_deflate_empty_input() {
    let options = SafeOptions::default();
    let mut out = Vec::new();
    let mut bp = 0u8;
    let optimal = |s: usize, e: usize| greedy_parse(b"", s, e);

    let res = deflate(&options, BlockType::DynamicTree, true, b"", &mut bp, &mut out, &optimal);
    assert!(res.is_ok());
    // At least the empty final block is written.
    assert!(!out.is_empty());
}

#[test]
fn test_deflate_uncompressed_basic() {
    let options = SafeOptions::default();
    let mut out = Vec::new();
    let mut bp = 0u8;

    let input = b"Hello DEFLATE uncompressed!";
    let optimal = |s: usize, e: usize| greedy_parse(input, s, e);
    let res = deflate(&options, BlockType::Uncompressed, true, input, &mut bp, &mut out, &optimal);
    assert!(res.is_ok());
    assert!(out.len() > input.len());
}

#[test]
fn test_deflate_fixed_tree_basic() {
    let options = SafeOptions::default();
    let mut out = Vec::new();
    let mut bp = 0u8;

    let input = b"Hello DEFLATE fixed tree! Hello DEFLATE fixed tree! Hello DEFLATE fixed tree!";
    let optimal = |s: usize, e: usize| greedy_parse(input, s, e);
    let res = deflate(&options, BlockType::FixedTree, true, input, &mut bp, &mut out, &optimal);
    assert!(res.is_ok());
    assert!(!out.is_empty());
}

#[test]
fn test_deflate_dynamic_tree_basic() {
    let options = SafeOptions::default();
    let mut out = Vec::new();
    let mut bp = 0u8;

    let input = b"Hello DEFLATE dynamic tree! Repeat Hello DEFLATE dynamic tree! Again and again!";
    let optimal = |s: usize, e: usize| greedy_parse(input, s, e);
    let res = deflate(&options, BlockType::DynamicTree, true, input, &mut bp, &mut out, &optimal);
    assert!(res.is_ok());
    assert!(!out.is_empty());
}

#[test]
fn stored_block_bytes() {
    let mut out = Vec::new();
    let mut bp = 0u8;
    add_non_compressed_block(true, b"abc", 0, 3, &mut bp, &mut out);
    // Header bits 1, 00 in the first byte, then LEN = 3, NLEN = !3 and the bytes.
    assert_eq!(out, vec![1, 3, 0, 0xfc, 0xff, b'a', b'b', b'c']);
    assert_eq!(bp, 0);
}

#[test]
fn stored_blocks_hold_at_most_65535_bytes() {
    let data = vec![0x5au8; 70000];
    let mut out = Vec::new();
    let mut bp = 0u8;
    add_non_compressed_block(false, &data, 0, data.len(), &mut bp, &mut out);
    assert_eq!(out.len(), 5 + 65535 + 5 + (70000 - 65535));
    assert_eq!(&out[0..5], &[0, 0xff, 0xff, 0, 0]);
    let second = 5 + 65535;
    assert_eq!(out[second], 0);
    assert_eq!(out[second + 1] as usize + 256 * out[second + 2] as usize, 70000 - 65535);
}

#[test]
fn deflate_uncompressed_empty_is_one_empty_stored_block() {
    let options = SafeOptions::default();
    let mut out = Vec::new();
    let mut bp = 0u8;
    let optimal = |s: usize, e: usize| greedy_parse(b"", s, e);
    let res = deflate(&options, BlockType::Uncompressed, true, b"", &mut bp, &mut out, &optimal);
    assert_eq!(res, Ok(()));
    assert_eq!(out, vec![1, 0, 0, 0xff, 0xff]);
}

#[test]
fn deflate_dynamic_empty_is_the_empty_fixed_block() {
    let options = SafeOptions::default();
    let mut out = Vec::new();
    let mut bp = 0u8;
    let optimal = |s: usize, e: usize| greedy_parse(b"", s, e);
    let res = deflate(&options, BlockType::DynamicTree, true, b"", &mut bp, &mut out, &optimal);
    assert_eq!(res, Ok(()));
    assert_eq!(out, vec![3, 0]);
}

#[test]
fn a_wrong_parse_is_refused() {
    let options = SafeOptions::default();
    let mut out = Vec::new();
    let mut bp = 0u8;
    let input = b"abcdefgh";
    // A literal that is not the byte at its position.
    let optimal = |_s: usize, _e: usize| (vec![b'x' as u16; 8], vec![0u16; 8]);
    let res = deflate_part(&options, BlockType::DynamicTree, true, input, 0, input.len(), &mut bp, &mut out, &optimal);
    assert_eq!(res, Err(Error::CompressionFailed));
}

#[test]
fn a_parse_of_the_wrong_length_is_refused() {
    let options = SafeOptions::default();
    let mut out = Vec::new();
    let mut bp = 0u8;
    let input = b"abcdefgh";
    let optimal = |_s: usize, _e: usize| (vec![b'a' as u16], vec![0u16]);
    let res = deflate_part(&options, BlockType::DynamicTree, true, input, 0, input.len(), &mut bp, &mut out, &optimal);
    assert_eq!(res, Err(Error::CompressionFailed));
}

#[test]
fn fixed_block_of_one_literal() {
    let data = b"a";
    let options = SafeOptions::default();
    let mut store = UninitializedLz77Store::new().initialize(data);
    store.store_lit_len_dist(b'a' as u16, 0, 0);
    let mut out = Vec::new();
    let mut bp = 0u8;
    let res = add_lz77_block(&options, BlockType::FixedTree, true, &store, 0, 1, &mut bp, &mut out);
    assert_eq!(res, Ok(()));
    // Bits: 1, 10, then 'a' = 0x91 as 8 bits MSB first (10010001), then 0000000.
    assert_eq!(out, vec![0x4b, 0x04, 0x00]);
    assert_eq!(bp, 2);
}

#[test]
fn fixed_optimal_parse_reproduces_its_input() {
    let data = b"abababababababababababab-xyz-xyz-xyz-abababab".to_vec();
    let options = SafeOptions::default();
    let mut s = ZopfliBlockState { options: &options, lmc: None, blockstart: 0, blockend: data.len() };
    let mut store = UninitializedLz77Store::new().initialize(&data);
    lz77_optimal_fixed(&mut s, &data, 0, data.len(), &mut store);
    let mut out: Vec<u8> = Vec::new();
    for i in 0..store.litlens.len() {
        if store.dists[i] == 0 {
            out.push(store.litlens[i] as u8);
        } else {
            for _ in 0..store.litlens[i] {
                let b = out[out.len() - store.dists[i] as usize];
                out.push(b);
            }
        }
    }
    assert_eq!(out, data);
    assert!(store.litlens.len() < data.len());
}

#[test]
fn fixed_cost_search_of_distinct_bytes_is_all_literals() {
    let data: Vec<u8> = (0..=255u8).collect();
    let options = SafeOptions::default();
    let mut s = ZopfliBlockState { options: &options, lmc: None, blockstart: 0, blockend: data.len() };
    let mut length_array = vec![0u16; data.len() + 1];
    let cost = get_best_lengths_fixed(&mut s, &data, 0, data.len(), &mut length_array);
    assert_eq!(cost, 144 * 8 + 112 * 9);
    assert!(length_array[1..].iter().all(|&l| l == 1));
}

#[test]
fn fixed_cost_search_of_a_run_uses_matches() {
    let data = vec![b'z'; 600];
    let options = SafeOptions::default();
    let mut s = ZopfliBlockState { options: &options, lmc: None, blockstart: 0, blockend: data.len() };
    let mut length_array = vec![0u16; data.len() + 1];
    let cost = get_best_lengths_fixed(&mut s, &data, 0, data.len(), &mut length_array);
    assert!(cost < 600 * 8);
    let mut j = data.len();
    let mut steps = 0;
    while j > 0 {
        let l = length_array[j] as usize;
        assert!(l == 1 || (3..=258).contains(&l));
        j -= l;
        steps += 1;
    }
    assert!(steps < 10);
}
