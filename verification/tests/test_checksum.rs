//! Tests of the Adler-32 and CRC-32 checksums.

use zopfli_rs::checksum::{adler32, crc32};

#[test]
fn test_crc32_standard() {
    assert_eq!(crc32(b""), 0);
    assert_eq!(crc32(b"a"), 0xe8b7be43);
    assert_eq!(crc32(b"abc"), 0x352441c2);
    assert_eq!(crc32(b"message digest"), 0x20159d7f);
    assert_eq!(crc32(b"abcdefghijklmnopqrstuvwxyz"), 0x4c2750bd);
}

#[test]
fn test_adler32_standard() {
    assert_eq!(adler32(b""), 1);
    assert_eq!(adler32(b"a"), 0x00620062);
    assert_eq!(adler32(b"abc"), 0x024d0127);
    assert_eq!(adler32(b"message digest"), 0x29750586);
    assert_eq!(adler32(b"abcdefghijklmnopqrstuvwxyz"), 0x90860b20);
}

#[test]
fn adler32_wraps_its_sums() {
    let data = vec![255u8; 6000];
    // Both sums are taken modulo 65521.
    let a = (1 + 255u64 * 6000) % 65521;
    let mut b = 0u64;
    let mut s = 1u64;
    for _ in 0..6000 {
        s = (s + 255) % 65521;
        b = (b + s) % 65521;
    }
    assert_eq!(adler32(&data) as u64, b * 65536 + a);
}
