//! Tests of Huffman code lengths and canonical codes.

use zopfli_rs::error::Error;
use zopfli_rs::katajainen::length_limited_code_lengths;
use zopfli_rs::tree::{calculate_bit_lengths, lengths_to_symbols};

#[test]
fn test_single_symbol_tree() {
    let mut frequencies = vec![0; 288];
    frequencies[42] = 100; // only symbol 42 occurs

    let mut bitlengths = vec![0; 288];
    let res = length_limited_code_lengths(&frequencies, 15, &mut bitlengths);
    assert!(res.is_ok());

    // A single symbol gets exactly 1 bit.
    assert_eq!(bitlengths[42], 1);
    for (i, &len) in bitlengths.iter().enumerate() {
        if i != 42 {
            assert_eq!(len, 0);
        }
    }
}

#[test]
fn test_empty_frequencies() {
    let frequencies = vec![0; 288];
    let mut bitlengths = vec![0; 288];
    let res = length_limited_code_lengths(&frequencies, 15, &mut bitlengths);
    assert!(res.is_ok());
    for len in bitlengths {
        assert_eq!(len, 0);
    }
}

#[test]
fn test_length_limited_fibonacci() {
    // Fibonacci frequencies give a deep tree.
    let mut frequencies = vec![0; 30];
    let mut a = 1;
    let mut b = 1;
    for freq in &mut frequencies {
        let c = a + b;
        *freq = c;
        a = b;
        b = c;
    }

    let mut bitlengths = vec![0; 30];
    let res = length_limited_code_lengths(&frequencies, 7, &mut bitlengths);
    assert!(res.is_ok());

    for &len in &bitlengths {
        assert!(len <= 7);
        assert!(len > 0);
    }
}

#[test]
fn test_lengths_to_symbols_basic() {
    // RFC 1951, 3.2.2: A 2 -> 10, B 1 -> 0, C 3 -> 110, D 3 -> 111.
    let lengths = vec![2, 1, 3, 3];
    let mut symbols = vec![0; 4];
    let res = lengths_to_symbols(&lengths, 3, &mut symbols);
    assert!(res.is_ok());

    assert_eq!(symbols[0], 0b10);
    assert_eq!(symbols[1], 0b0);
    assert_eq!(symbols[2], 0b110);
    assert_eq!(symbols[3], 0b111);
}

#[test]
fn test_calculate_bit_lengths_skips_katajainen_if_possible() {
    let count = vec![10, 10, 10, 10];
    let mut bitlengths = vec![0; 4];
    let res = calculate_bit_lengths(&count, 15, &mut bitlengths);
    assert!(res.is_ok());
    for len in bitlengths {
        assert_eq!(len, 2);
    }
}

#[test]
fn test_length_limited_code_lengths_errors() {
    let frequencies = vec![1, 2, 3, 4, 5];
    let mut bitlengths = vec![0; 4];
    let res = length_limited_code_lengths(&frequencies, 15, &mut bitlengths);
    assert_eq!(res, Err(Error::SliceLengthMismatch));

    // 2^2 = 4 < 5 symbols.
    let frequencies = vec![1, 2, 3, 4, 5];
    let mut bitlengths = vec![0; 5];
    let res = length_limited_code_lengths(&frequencies, 2, &mut bitlengths);
    assert_eq!(res, Err(Error::TooFewMaxBits));

    let res = length_limited_code_lengths(&frequencies, -1, &mut bitlengths);
    assert_eq!(res, Err(Error::TooFewMaxBits));

    let res = length_limited_code_lengths(&frequencies, 33, &mut bitlengths);
    assert_eq!(res, Err(Error::TooFewMaxBits));
}

#[test]
fn test_lengths_to_symbols_errors() {
    let lengths = vec![2, 1, 3, 3];
    let mut symbols = vec![0; 3];
    let res = lengths_to_symbols(&lengths, 3, &mut symbols);
    assert_eq!(res, Err(Error::SliceLengthMismatch));

    let mut symbols = vec![0; 4];
    let res = lengths_to_symbols(&lengths, 33, &mut symbols);
    assert_eq!(res, Err(Error::TooFewMaxBits));
}

#[test]
fn test_lengths_to_symbols_overflow() {
    let lengths = vec![1, 1];
    let mut symbols = vec![0; 2];
    let res = lengths_to_symbols(&lengths, 32, &mut symbols);
    assert!(res.is_ok() || res.is_err());
}

#[test]
fn lengths_above_maxbits_are_refused() {
    let lengths = vec![1, 4, 4];
    let mut symbols = vec![9; 3];
    let res = lengths_to_symbols(&lengths, 3, &mut symbols);
    assert_eq!(res, Err(Error::TooFewMaxBits));
    assert_eq!(symbols, vec![0, 0, 0]);
}

#[test]
fn code_lengths_obey_the_limit_and_kraft() {
    let count: Vec<usize> = (0..288).map(|i| (i * 37 % 101) + if i % 5 == 0 { 1000 } else { 0 }).collect();
    let mut bitlengths = vec![0u32; 288];
    assert!(calculate_bit_lengths(&count, 15, &mut bitlengths).is_ok());
    let mut kraft = 0u64;
    for (i, &l) in bitlengths.iter().enumerate() {
        assert!(l <= 15);
        if count[i] > 0 {
            assert!(l > 0);
            kraft += 1u64 << (15 - l);
        }
    }
    assert!(kraft <= 1u64 << 15);
}

#[test]
fn no_code_fits_in_zero_bits() {
    let frequencies = vec![0usize, 4, 0];
    let mut bitlengths = vec![9u32; 3];
    let res = length_limited_code_lengths(&frequencies, 0, &mut bitlengths);
    assert_eq!(res, Err(zopfli_rs::error::Error::TooFewMaxBits));
    assert_eq!(bitlengths, vec![0, 0, 0]);
    let frequencies = vec![0usize, 0];
    let mut bitlengths = vec![9u32; 2];
    assert_eq!(length_limited_code_lengths(&frequencies, 0, &mut bitlengths), Ok(()));
    assert_eq!(bitlengths, vec![0, 0]);
}

#[test]
fn unlimited_code_lengths_are_kraft_complete() {
    let hist = vec![5usize, 0, 9, 12, 13, 16, 45, 0, 1];
    let mut lengths = vec![0u32; hist.len()];
    zopfli_rs::tree::unlimited_code_lengths(&hist, &mut lengths).unwrap();
    let max = *lengths.iter().max().unwrap();
    let sum: u64 = hist.iter().zip(&lengths).filter(|(h, _)| **h > 0).map(|(_, &l)| 1u64 << (max - l)).sum();
    assert_eq!(sum, 1u64 << max);
    assert!(hist.iter().zip(&lengths).all(|(h, l)| (*h == 0) == (*l == 0)));
}
