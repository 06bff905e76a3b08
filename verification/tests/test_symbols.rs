//! Tests of the DEFLATE length and distance symbols.

use zopfli_rs::symbols::{
    get_dist_extra_bits, get_dist_extra_bits_value, get_dist_symbol, get_dist_symbol_extra_bits,
    get_length_extra_bits, get_length_extra_bits_value, get_length_symbol, get_length_symbol_extra_bits,
};

#[test]
fn test_dist_lookups_small() {
    assert_eq!(get_dist_symbol(1), 0);
    assert_eq!(get_dist_symbol(2), 1);
    assert_eq!(get_dist_symbol(3), 2);
    assert_eq!(get_dist_symbol(4), 3);
    assert_eq!(get_dist_symbol(5), 4);

    assert_eq!(get_dist_extra_bits(1), 0);
    assert_eq!(get_dist_extra_bits(2), 0);
    assert_eq!(get_dist_extra_bits(3), 0);
    assert_eq!(get_dist_extra_bits(4), 0);
    assert_eq!(get_dist_extra_bits(5), 1);

    assert_eq!(get_dist_extra_bits_value(1), 0);
    assert_eq!(get_dist_extra_bits_value(2), 0);
    assert_eq!(get_dist_extra_bits_value(3), 0);
    assert_eq!(get_dist_extra_bits_value(4), 0);
    assert_eq!(get_dist_extra_bits_value(5), 0);
    assert_eq!(get_dist_extra_bits_value(6), 1);
}

#[test]
fn test_dist_lookups_boundaries() {
    assert_eq!(get_dist_symbol(192), 14);
    assert_eq!(get_dist_symbol(193), 15);

    assert_eq!(get_dist_symbol(2048), 21);
    assert_eq!(get_dist_symbol(2049), 22);

    assert_eq!(get_dist_extra_bits(192), 6);
    assert_eq!(get_dist_extra_bits(193), 6);
    assert_eq!(get_dist_extra_bits(257), 7);
    assert_eq!(get_dist_extra_bits(2048), 9);
    assert_eq!(get_dist_extra_bits(2049), 10);
    assert_eq!(get_dist_extra_bits(32768), 13);

    assert_eq!(get_dist_extra_bits_value(192), 63);
    assert_eq!(get_dist_extra_bits_value(193), 0);
}

#[test]
fn test_length_lookups() {
    assert_eq!(get_length_symbol(3), 257);
    assert_eq!(get_length_symbol(4), 258);
    assert_eq!(get_length_symbol(257), 284);
    assert_eq!(get_length_symbol(258), 285);

    assert_eq!(get_length_extra_bits(3), 0);
    assert_eq!(get_length_extra_bits(4), 0);
    assert_eq!(get_length_extra_bits(11), 1);
    assert_eq!(get_length_extra_bits(12), 1);
    assert_eq!(get_length_extra_bits(258), 0);

    assert_eq!(get_length_extra_bits_value(3), 0);
    assert_eq!(get_length_extra_bits_value(11), 0);
    assert_eq!(get_length_extra_bits_value(12), 1);
    assert_eq!(get_length_extra_bits_value(258), 0);
}

#[test]
fn test_symbol_extra_bits() {
    assert_eq!(get_length_symbol_extra_bits(257), 0);
    assert_eq!(get_length_symbol_extra_bits(265), 1);
    assert_eq!(get_length_symbol_extra_bits(285), 0);

    assert_eq!(get_dist_symbol_extra_bits(0), 0);
    assert_eq!(get_dist_symbol_extra_bits(4), 1);
    assert_eq!(get_dist_symbol_extra_bits(29), 13);
}

const LENGTH_BASE: [usize; 29] = [
    3, 4, 5, 6, 7, 8, 9, 10, 11, 13, 15, 17, 19, 23, 27, 31, 35, 43, 51, 59, 67, 83, 99, 115, 131, 163, 195, 227, 258,
];
const DIST_BASE: [usize; 30] = [
    1, 2, 3, 4, 5, 7, 9, 13, 17, 25, 33, 49, 65, 97, 129, 193, 257, 385, 513, 769, 1025, 1537, 2049, 3073, 4097,
    6145, 8193, 12289, 16385, 24577,
];

#[test]
fn every_length_is_its_symbol_base_plus_extra_value() {
    for l in 3..=258usize {
        let s = get_length_symbol(l) as usize;
        assert!((257..=285).contains(&s));
        assert_eq!(get_length_symbol_extra_bits(s), get_length_extra_bits(l));
        assert_eq!(LENGTH_BASE[s - 257] + get_length_extra_bits_value(l) as usize, l);
        assert!((get_length_extra_bits_value(l) as u64) < (1u64 << get_length_extra_bits(l)));
    }
}

#[test]
fn every_distance_is_its_symbol_base_plus_extra_value() {
    for d in 1..=32768usize {
        let s = get_dist_symbol(d) as usize;
        assert!(s < 30);
        assert_eq!(get_dist_symbol_extra_bits(s), get_dist_extra_bits(d));
        assert_eq!(DIST_BASE[s] + get_dist_extra_bits_value(d) as usize, d);
        assert!((get_dist_extra_bits_value(d) as u64) < (1u64 << get_dist_extra_bits(d)));
    }
}
