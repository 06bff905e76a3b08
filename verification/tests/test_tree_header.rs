//! Tests of the dynamic tree header, the run-length smoothing of counts and the
//! read-back of a parse path.

use zopfli_rs::deflate::{add_dynamic_tree, encode_tree};
use zopfli_rs::squeeze::{calculate_tree_size, optimize_huffman_for_rle, trace_backwards};

fn bit_position(out: &[u8], bp: u8) -> usize {
    if bp == 0 {
        8 * out.len()
    } else {
        8 * (out.len() - 1) + bp as usize
    }
}

fn small_tree() -> (Vec<u32>, Vec<u32>) {
    let mut ll = vec![0u32; 288];
    ll[0] = 1;
    ll[256] = 1;
    let mut d = vec![0u32; 32];
    d[0] = 1;
    d[1] = 1;
    (ll, d)
}

#[test]
fn test_encode_tree_size_with_copy_code() {
    let (ll, d) = small_tree();
    let mut bp = 0u8;
    let size = encode_tree(&ll, &d, true, false, false, &mut bp, None);
    assert_eq!(size, 208);
    assert_eq!(bp, 0);
}

#[test]
fn test_encode_tree_modes_agree() {
    let (ll, d) = small_tree();
    for variant in 0..8u32 {
        let (u16f, u17f, u18f) = (variant & 1 != 0, variant & 2 != 0, variant & 4 != 0);
        let mut bp = 0u8;
        let size = encode_tree(&ll, &d, u16f, u17f, u18f, &mut bp, None);
        let mut out = vec![0b101u8];
        let mut bp = 3u8;
        let written = encode_tree(&ll, &d, u16f, u17f, u18f, &mut bp, Some(&mut out));
        assert_eq!(written, size);
        assert_eq!(bit_position(&out, bp), 3 + size);
        assert_eq!(out[0] & 0b111, 0b101);
    }
}

#[test]
fn test_calculate_tree_size_is_shortest_variant() {
    let (ll, d) = small_tree();
    let mut best = usize::MAX;
    for variant in 0..8u32 {
        let mut bp = 0u8;
        let size = encode_tree(&ll, &d, variant & 1 != 0, variant & 2 != 0, variant & 4 != 0, &mut bp, None);
        best = best.min(size);
    }
    assert_eq!(calculate_tree_size(&ll, &d), best);
    assert!(best < 208);
}

#[test]
fn test_add_dynamic_tree_writes_shortest() {
    let (ll, d) = small_tree();
    let mut out = Vec::new();
    let mut bp = 0u8;
    add_dynamic_tree(&ll, &d, &mut bp, &mut out);
    assert_eq!(bit_position(&out, bp), calculate_tree_size(&ll, &d));
    // HLIT = 0 and HDIST = 1 open the header.
    assert_eq!(out[0] & 0x1f, 0);
    assert_eq!((out[0] >> 5) | ((out[1] & 0x03) << 3), 1);
}

#[test]
fn test_trace_backwards_two_byte_step() {
    let length_array = [0u16, 1, 2, 2];
    assert_eq!(trace_backwards(3, &length_array), vec![1, 2]);
    let length_array = [0u16, 1, 1, 3, 0, 4];
    assert_eq!(trace_backwards(5, &length_array), vec![1, 4]);
}

#[test]
fn test_optimize_huffman_for_rle_large_counts() {
    let big = 5_000_000_000usize;
    let mut counts = vec![big, big + 1, big, big + 1, big, big + 1, big, big + 1, 0, 0];
    optimize_huffman_for_rle(&mut counts);
    // Neighbouring counts that differ by less than 4 become their rounded mean.
    for &c in &counts[..8] {
        assert_eq!(c, big + 1);
    }
    assert_eq!(&counts[8..], &[0, 0]);
}
