//! The integer part of the statistical cost model: symbol counts, their randomization,
//! and the decisions between iterations.

use zopfli_rs::lz77::UninitializedLz77Store;
use zopfli_rs::squeeze::{add_symbol_counts, randomize_freqs, IterationState, RanState};

#[test]
fn symbol_counts_of_a_store() {
    let data = b"abcabcabcabc";
    let mut store = UninitializedLz77Store::new().initialize(data);
    store.store_lit_len_dist(b'a' as u16, 0, 0);
    store.store_lit_len_dist(b'b' as u16, 0, 1);
    store.store_lit_len_dist(b'c' as u16, 0, 2);
    store.store_lit_len_dist(9, 3, 3);
    let mut litlens = [0usize; 288];
    let mut dists = [0usize; 32];
    litlens[b'a' as usize] = 4;
    add_symbol_counts(&store.as_view(), &mut litlens, &mut dists);
    assert_eq!(litlens[b'a' as usize], 5);
    assert_eq!(litlens[b'b' as usize], 1);
    assert_eq!(litlens[b'c' as usize], 1);
    // Length 9 is symbol 263, distance 3 is symbol 2.
    assert_eq!(litlens[263], 1);
    assert_eq!(dists[2], 1);
    assert_eq!(litlens[256], 1);
    assert_eq!(litlens.iter().sum::<usize>(), 5 + 1 + 1 + 1 + 1);
    assert_eq!(dists.iter().sum::<usize>(), 1);
}

#[test]
fn randomized_counts_come_from_the_counts() {
    let mut litlens = [0usize; 288];
    let mut dists = [0usize; 32];
    for (i, c) in litlens.iter_mut().enumerate() {
        *c = i % 5 + 10;
    }
    for (i, c) in dists.iter_mut().enumerate() {
        *c = i % 3 + 100;
    }
    let mut state = RanState::new();
    randomize_freqs(&mut litlens, &mut dists, &mut state);
    assert_eq!(litlens[256], 1);
    for (i, &c) in litlens.iter().enumerate() {
        assert!(i == 256 || (10..15).contains(&c));
    }
    for &c in dists.iter() {
        assert!((100..103).contains(&c));
    }
    assert!(state.m_w != 1 || state.m_z != 2);
}

#[test]
fn randomizing_is_deterministic() {
    let base: Vec<usize> = (0..288).map(|i| i * 7 % 31).collect();
    let mut a = [0usize; 288];
    a.copy_from_slice(&base);
    let mut b = a;
    let mut da = [3usize; 32];
    let mut db = [3usize; 32];
    let mut sa = RanState::new();
    let mut sb = RanState::new();
    randomize_freqs(&mut a, &mut da, &mut sa);
    randomize_freqs(&mut b, &mut db, &mut sb);
    assert_eq!(a, b);
    assert_eq!((sa.m_w, sa.m_z), (sb.m_w, sb.m_z));
    assert!(a.iter().zip(base.iter()).enumerate().any(|(i, (x, y))| i != 256 && x != y));
}

#[test]
fn iteration_decisions() {
    let st = IterationState::new();
    let (st, step) = st.next(0, 1000);
    assert!(step.keep_as_best && !step.weigh_with_last && !step.randomize);
    let (st, step) = st.next(1, 1200);
    assert!(!step.keep_as_best && !step.randomize);
    assert_eq!(st.bestcost, Some(1000));
    // A repeated cost before the sixth iteration does not randomize.
    let (st, step) = st.next(2, 1200);
    assert!(!step.randomize);
    let (st, step) = st.next(6, 1200);
    assert!(step.randomize && !step.weigh_with_last && !step.keep_as_best);
    assert!(st.randomized);
    let (st, step) = st.next(7, 900);
    assert!(step.keep_as_best && step.weigh_with_last && !step.randomize);
    assert_eq!(st.bestcost, Some(900));
    assert_eq!(st.lastcost, 900);
}
