//! Tests of the LZ77 store and greedy matching.

use zopfli_rs::lz77::{find_longest_match, lz77_greedy, Lz77StoreView, UninitializedLz77Store, ZopfliBlockState};
use zopfli_rs::hash::ZopfliHash;
use zopfli_rs::squeeze::calculate_block_symbol_size_small;
use zopfli_rs::util::SafeOptions;

#[test]
fn test_lz77_store_new() {
    let data = b"hello world";
    let uninit = UninitializedLz77Store::new();
    let store = uninit.initialize(data);
    assert_eq!(store.litlens.len(), 0);
    assert_eq!(store.dists.len(), 0);
    assert_eq!(store.pos.len(), 0);
    assert_eq!(store.ll_counts.len(), 0);
    assert_eq!(store.d_counts.len(), 0);
    assert_eq!(store.data, data);
}

#[test]
fn test_lz77_store_append_and_histogram_small() {
    let data = b"abcabcabc";
    let mut store = UninitializedLz77Store::new().initialize(data);

    store.store_lit_len_dist(97, 0, 0);
    store.store_lit_len_dist(98, 0, 1);
    store.store_lit_len_dist(99, 0, 2);
    // Match "abc" (length 3, dist 3) at 3.
    store.store_lit_len_dist(3, 3, 3);

    assert_eq!(store.litlens.len(), 4);
    assert_eq!(store.dists.len(), 4);
    assert_eq!(store.pos.len(), 4);

    let mut ll_counts = [0; 288];
    let mut d_counts = [0; 32];
    store.get_histogram(0, 4, &mut ll_counts, &mut d_counts);

    assert_eq!(ll_counts[97], 1);
    assert_eq!(ll_counts[98], 1);
    assert_eq!(ll_counts[99], 1);
    // The length symbol of 3 is 257.
    assert_eq!(ll_counts[257], 1);
    // The distance symbol of 3 is 2.
    assert_eq!(d_counts[2], 1);
}

#[test]
fn test_lz77_store_large_histogram() {
    let data = vec![0u8; 1000];
    let mut store = UninitializedLz77Store::new().initialize(&data);

    // More than 300 items wrap around both the 288 and the 32 chunk sizes.
    let mut count = 0;
    while count < 350 {
        if count % 2 == 0 {
            store.store_lit_len_dist(65, 0, count);
        } else {
            store.store_lit_len_dist(3, 4, count);
        }
        count += 1;
    }

    assert_eq!(store.litlens.len(), 350);

    let mut ll_counts = [0; 288];
    let mut d_counts = [0; 32];

    // A small range is counted directly.
    store.get_histogram(10, 20, &mut ll_counts, &mut d_counts);
    assert_eq!(ll_counts[65], 5);
    assert_eq!(ll_counts[257], 5);
    assert_eq!(d_counts[3], 5);

    // A large range uses the cumulative counts.
    let mut ll_counts_large = [0; 288];
    let mut d_counts_large = [0; 32];
    store.get_histogram(5, 345, &mut ll_counts_large, &mut d_counts_large);

    // 340 items: 170 literals 65 and 170 matches (symbol 257, distance symbol 3).
    assert_eq!(ll_counts_large[65], 170);
    assert_eq!(ll_counts_large[257], 170);
    assert_eq!(d_counts_large[3], 170);
}

#[test]
fn test_block_state() {
    let options = SafeOptions::default();
    let state = ZopfliBlockState { options: &options, lmc: None, blockstart: 10, blockend: 100 };
    assert_eq!(state.blockstart, 10);
    assert_eq!(state.blockend, 100);
}

#[test]
fn test_lz77_store_invalid_literal_symbols_do_not_panic() {
    let litlens = [500u16, 1000u16];
    let dists = [0u16, 0u16];
    let pos = [0u32, 1u32];
    let data = b"";
    let view = Lz77StoreView { litlens: &litlens, dists: &dists, pos: &pos, data, ll_counts: &[], d_counts: &[] };

    let mut ll_counts = [0; 288];
    let mut d_counts = [0; 32];
    view.get_histogram(0, 2, &mut ll_counts, &mut d_counts);
    assert_eq!(ll_counts[0], 0);
}

#[test]
fn test_calculate_block_symbol_size_small_invalid_literal_do_not_panic() {
    let litlens = [500u16, 1000u16];
    let dists = [0u16, 0u16];
    let pos = [0u32, 1u32];
    let data = b"";
    let view = Lz77StoreView { litlens: &litlens, dists: &dists, pos: &pos, data, ll_counts: &[], d_counts: &[] };

    let ll_lengths = [1u32; 288];
    let d_lengths = [1u32; 32];
    let size = calculate_block_symbol_size_small(&ll_lengths, &d_lengths, &view, 0, 2);
    assert_eq!(size, 1);
}

fn decode(litlens: &[u16], dists: &[u16]) -> Vec<u8> {
    let mut out: Vec<u8> = Vec::new();
    for i in 0..litlens.len() {
        if dists[i] == 0 {
            out.push(litlens[i] as u8);
        } else {
            for _ in 0..litlens[i] {
                let b = out[out.len() - dists[i] as usize];
                out.push(b);
            }
        }
    }
    out
}

#[test]
fn greedy_parse_decodes_to_its_input() {
    let data = b"abcabcabcabcXYZabcabcabc-the end of the end of the end.".to_vec();
    let options = SafeOptions::default();
    let mut s = ZopfliBlockState { options: &options, lmc: None, blockstart: 0, blockend: data.len() };
    let mut store = UninitializedLz77Store::new().initialize(&data);
    lz77_greedy(&mut s, &data, 0, data.len(), &mut store);
    assert!(store.litlens.len() < data.len());
    assert_eq!(decode(&store.litlens, &store.dists), data);
    let mut expected_pos = 0u32;
    for i in 0..store.litlens.len() {
        assert_eq!(store.pos[i], expected_pos);
        expected_pos += if store.dists[i] == 0 { 1 } else { store.litlens[i] as u32 };
    }
}

#[test]
fn greedy_parse_of_an_empty_range_adds_nothing() {
    let data = b"xyz";
    let options = SafeOptions::default();
    let mut s = ZopfliBlockState { options: &options, lmc: None, blockstart: 1, blockend: 1 };
    let mut store = UninitializedLz77Store::new().initialize(data);
    lz77_greedy(&mut s, data, 1, 1, &mut store);
    assert_eq!(store.litlens.len(), 0);
}

#[test]
fn longest_match_finds_the_repetition() {
    let data = b"0123456789-0123456789";
    let options = SafeOptions::default();
    let mut s = ZopfliBlockState { options: &options, lmc: None, blockstart: 0, blockend: data.len() };
    let mut hash = ZopfliHash::new(32768);
    hash.warmup(data, 0, data.len());
    for i in 0..=11 {
        hash.update(data, i, data.len());
    }
    let mut sublen = [0u16; 259];
    let (dist, len) = find_longest_match(&mut s, &hash, data, 11, 258, Some(&mut sublen));
    assert_eq!(dist, 11);
    assert_eq!(len, 10);
    assert_eq!(sublen[3], 11);
    assert_eq!(sublen[10], 11);
}
