//! Tests of block splitting.

use zopfli_rs::blocksplitter::{find_minimum, split, split_lz77, split_simple};
use zopfli_rs::lz77::UninitializedLz77Store;
use zopfli_rs::util::SafeOptions;

#[test]
fn test_split_simple() {
    let in_data = vec![0u8; 1000];
    let splitpoints = split_simple(&in_data, 0, 1000, 256);
    assert_eq!(splitpoints, vec![0, 256, 512, 768]);
}

#[test]
fn test_split_lz77_basic() {
    // Construct a small synthetic Lz77Store.
    let data = vec![0u8; 100];
    let mut lz77 = UninitializedLz77Store::new().initialize(&data);
    // Fill litlens with some values to make sure size > 10.
    for i in 0..20 {
        lz77.store_lit_len_dist(1, 0, i);
    }
    let options = SafeOptions::default();
    let splitpoints = split_lz77(&options, &lz77, 2);
    // It shouldn't crash and should return some split points.
    println!("Synthetic split points: {:?}", splitpoints);
}

#[test]
fn test_split_simple_zero_block_size() {
    let in_data = vec![0u8; 1000];
    let splitpoints = split_simple(&in_data, 0, 1000, 0);
    assert!(splitpoints.is_empty());
}

#[test]
fn test_find_minimum() {
    // f(x) = (x - 5000)^2 on the range 0..10000: the minimum is at 5000.
    let f = |x: usize| {
        let diff = if x > 5000 { x - 5000 } else { 5000 - x };
        diff * diff
    };
    let (best_index, min_cost) = find_minimum(f, 0, 10000);
    assert_eq!(best_index, 5000);
    assert!((min_cost as f64) < 1e-9);
}

#[test]
fn find_minimum_locates_the_lowest_value() {
    let f = |x: usize| if x > 5000 { x - 5000 } else { 5000 - x };
    let (best_index, min_cost) = find_minimum(f, 0, 10000);
    assert_eq!(best_index, 5000);
    assert_eq!(min_cost, 0);
}

#[test]
fn find_minimum_searches_small_ranges_point_by_point() {
    let f = |x: usize| ((x * 37) % 101) + 3;
    let (best_index, min_cost) = find_minimum(f, 10, 60);
    let mut expected = (10usize, usize::MAX);
    for x in 10..60 {
        if f(x) < expected.1 {
            expected = (x, f(x));
        }
    }
    assert_eq!((best_index, min_cost), expected);
}

#[test]
fn find_minimum_on_an_empty_range() {
    let f = |x: usize| x;
    let (best_index, min_cost) = find_minimum(f, 7, 7);
    assert_eq!(best_index, 7);
    assert_eq!(min_cost, usize::MAX);
}

#[test]
fn split_points_lie_inside_the_range() {
    let mut data = Vec::new();
    for i in 0..3000u32 {
        data.push((i % 7) as u8);
    }
    for i in 0..3000u32 {
        data.push(((i * 7919) % 251) as u8);
    }
    let options = SafeOptions::default();
    let points = split(&options, &data, 0, data.len(), 15);
    assert!(points.len() < 15);
    for w in points.windows(2) {
        assert!(w[0] < w[1]);
    }
    for &p in &points {
        assert!(p > 0 && p < data.len());
    }
}

#[test]
fn split_of_an_empty_range_is_empty() {
    let data = vec![1u8; 10];
    let options = SafeOptions::default();
    assert!(split(&options, &data, 5, 5, 0).is_empty());
    assert!(split(&options, &[], 0, 0, 0).is_empty());
}
