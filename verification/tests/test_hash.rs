//! Tests of the rolling hashes.

use zopfli_rs::hash::ZopfliHash;

#[test]
fn test_hash_init() {
    let window_size = 32768;
    let hash = ZopfliHash::new(window_size);
    assert_eq!(hash.head.len(), 65536);
    assert_eq!(hash.prev.len(), window_size);
    assert_eq!(hash.hashval.len(), window_size);
    assert_eq!(hash.val, 0);

    assert_eq!(hash.head2.len(), 65536);
    assert_eq!(hash.prev2.len(), window_size);
    assert_eq!(hash.hashval2.len(), window_size);
    assert_eq!(hash.val2, 0);

    assert_eq!(hash.same.len(), window_size);
}

#[test]
fn test_hash_warmup_and_update() {
    let window_size = 32768;
    let mut hash = ZopfliHash::new(window_size);

    let array = b"abcdefgabc";
    let end = array.len();

    // 'a' (97) then 'b' (98): ((97 << 5) ^ 98) & 32767 = 3138.
    hash.warmup(array, 0, end);
    assert_eq!(hash.val, 3138);

    // The update at 0 shifts in the third byte 'c' (99): ((3138 << 5) ^ 99) & 32767 = 2083.
    hash.update(array, 0, end);
    assert_eq!(hash.val, 2083);
    assert_eq!(hash.hashval[0], 2083);
    assert_eq!(hash.head[2083], 0);
    assert_eq!(hash.prev[0], 0);
}

#[test]
fn same_counts_repeated_bytes() {
    let mut hash = ZopfliHash::new(32768);
    let array = [7u8; 10];
    hash.warmup(&array, 0, 10);
    hash.update(&array, 0, 10);
    // Nine more copies of byte 7 follow position 0.
    assert_eq!(hash.same[0], 9);
    hash.update(&array, 1, 10);
    assert_eq!(hash.same[1], 8);
}
