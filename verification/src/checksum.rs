//! CRC32 (gzip, RFC 1952) and Adler32 (zlib, RFC 1950) checksums.
use vstd::prelude::*;

verus! {

/// The reversed CRC-32 polynomial.
pub const CRC32_POLY: u32 = 0xEDB8_8320;

/// Modulus of the Adler-32 sums.
pub const ADLER_MOD: u32 = 65521;

/// One shift of the reflected CRC-32 register.
pub open spec fn crc_shift(c: u32) -> u32 {
    if c & 1 == 1 {
        (c >> 1) ^ CRC32_POLY
    } else {
        c >> 1
    }
}

/// `k` shifts of the reflected CRC-32 register.
pub open spec fn crc_shifts(c: u32, k: nat) -> u32
    decreases k,
{
    if k == 0 {
        c
    } else {
        crc_shifts(crc_shift(c), (k - 1) as nat)
    }
}

/// The CRC-32 register after the bytes of `data`, starting from all ones.
pub open spec fn crc_register(data: Seq<u8>) -> u32
    decreases data.len(),
{
    if data.len() == 0 {
        0xFFFF_FFFFu32
    } else {
        crc_shifts(crc_register(data.drop_last()) ^ (data.last() as u32), 8)
    }
}

/// The CRC-32 checksum of `data`.
pub open spec fn spec_crc32(data: Seq<u8>) -> u32 {
    crc_register(data) ^ 0xFFFF_FFFFu32
}

/// The two Adler-32 sums after the bytes of `data`.
pub open spec fn adler_sums(data: Seq<u8>) -> (int, int)
    decreases data.len(),
{
    if data.len() == 0 {
        (1, 0)
    } else {
        let (a, b) = adler_sums(data.drop_last());
        let a2 = (a + data.last()) % (ADLER_MOD as int);
        (a2, (b + a2) % (ADLER_MOD as int))
    }
}

/// The Adler-32 checksum of `data`.
pub open spec fn spec_adler32(data: Seq<u8>) -> int {
    adler_sums(data).1 * 65536 + adler_sums(data).0
}

/// Calculates the CRC32 checksum of the data.
pub fn crc32(data: &[u8]) -> (r: u32)
    ensures
        r == spec_crc32(data@),
{
    let mut c: u32 = 0xFFFF_FFFF;
    let mut i: usize = 0;
    while i < data.len()
        invariant
            i <= data@.len(),
            c == crc_register(data@.subrange(0, i as int)),
        decreases data@.len() - i,
    {
        let mut x: u32 = c ^ (data[i] as u32);
        let ghost x0 = x;
        let mut k: u32 = 0;
        while k < 8
            invariant
                k <= 8,
                crc_shifts(x0, 8) == crc_shifts(x, (8 - k) as nat),
            decreases 8 - k,
        {
            x = if x & 1 == 1 {
                (x >> 1) ^ CRC32_POLY
            } else {
                x >> 1
            };
            k = k + 1;
        }
        proof {
            assert(data@.subrange(0, i + 1).drop_last() == data@.subrange(0, i as int));
        }
        c = x;
        i = i + 1;
    }
    proof {
        assert(data@.subrange(0, data@.len() as int) == data@);
    }
    c ^ 0xFFFF_FFFF
}

/// Calculates the Adler32 checksum of the data.
pub fn adler32(data: &[u8]) -> (r: u32)
    ensures
        r == spec_adler32(data@),
{
    let mut a: u32 = 1;
    let mut b: u32 = 0;
    let mut i: usize = 0;
    while i < data.len()
        invariant
            i <= data@.len(),
            adler_sums(data@.subrange(0, i as int)) == (a as int, b as int),
            a < ADLER_MOD,
            b < ADLER_MOD,
        decreases data@.len() - i,
    {
        proof {
            assert(data@.subrange(0, i + 1).drop_last() == data@.subrange(0, i as int));
        }
        a = (a + data[i] as u32) % ADLER_MOD;
        b = (b + a) % ADLER_MOD;
        i = i + 1;
    }
    proof {
        assert(data@.subrange(0, data@.len() as int) == data@);
    }
    b * 65536 + a
}

} // verus!
