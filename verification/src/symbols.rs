//! DEFLATE symbol helper functions: length and distance codes (RFC 1951, 3.2.5).
use crate::math::{
    floor_log2, lemma_log2_bounds, lemma_log2_range, lemma_pow2_32_64, lemma_pow2_increases, lemma_pow2_small, log2, pow2,
};
use vstd::arithmetic::div_mod::*;
use vstd::prelude::*;

verus! {

/// Amount of extra bits of a distance.
pub open spec fn spec_dist_extra_bits(dist: int) -> int {
    if dist < 5 {
        0
    } else {
        log2((dist - 1) as nat) - 1
    }
}

/// Value of the extra bits of a distance.
pub open spec fn spec_dist_extra_bits_value(dist: int) -> int {
    if dist < 5 {
        0
    } else {
        let x = dist - 1;
        let l = log2(x as nat);
        (x - pow2(l)) % (pow2((l - 1) as nat) as int)
    }
}

/// Distance symbol of a distance.
pub open spec fn spec_dist_symbol(dist: int) -> int {
    if dist < 5 {
        if dist <= 0 {
            0
        } else {
            dist - 1
        }
    } else {
        let x = dist - 1;
        let l = log2(x as nat);
        2 * l + (x / (pow2((l - 1) as nat) as int)) % 2
    }
}

/// Length symbol (257..=285) of a match length in `3..=258`, 0 elsewhere.
pub open spec fn spec_length_symbol(l: int) -> int {
    if l < 3 || l > 258 {
        0
    } else if l == 258 {
        285
    } else if l <= 10 {
        254 + l
    } else {
        let x = l - 3;
        let e = (log2(x as nat) - 2) as nat;
        257 + 4 * e + x / (pow2(e) as int)
    }
}

/// Amount of extra bits of a match length.
pub open spec fn spec_length_extra_bits(l: int) -> int {
    if l < 11 || l >= 258 {
        0
    } else {
        log2((l - 3) as nat) - 2
    }
}

/// Value of the extra bits of a match length.
pub open spec fn spec_length_extra_bits_value(l: int) -> int {
    if l < 11 || l >= 258 {
        0
    } else {
        let x = l - 3;
        x % (pow2((log2(x as nat) - 2) as nat) as int)
    }
}

/// Amount of extra bits of a length symbol.
pub open spec fn spec_length_symbol_extra_bits(s: int) -> int {
    if s < 265 || s >= 285 {
        0
    } else {
        (s - 257) / 4 - 1
    }
}

/// Amount of extra bits of a distance symbol.
pub open spec fn spec_dist_symbol_extra_bits(s: int) -> int {
    if s < 4 || s >= 30 {
        0
    } else {
        s / 2 - 1
    }
}

/// Base lengths of the length symbols 257..=285 (RFC 1951, 3.2.5).
pub open spec fn length_base_table() -> Seq<int> {
    seq![3, 4, 5, 6, 7, 8, 9, 10, 11, 13, 15, 17, 19, 23, 27, 31, 35, 43, 51, 59, 67, 83, 99, 115,
        131, 163, 195, 227, 258]
}

/// Base distances of the distance symbols 0..=29 (RFC 1951, 3.2.5).
pub open spec fn dist_base_table() -> Seq<int> {
    seq![1, 2, 3, 4, 5, 7, 9, 13, 17, 25, 33, 49, 65, 97, 129, 193, 257, 385, 513, 769, 1025,
        1537, 2049, 3073, 4097, 6145, 8193, 12289, 16385, 24577]
}

/// Gets the amount of extra bits for the given distance, according to the DEFLATE spec.
pub fn get_dist_extra_bits(dist: usize) -> (r: u32)
    requires
        dist <= 0x1_0000_0000,
    ensures
        r == spec_dist_extra_bits(dist as int),
{
    if dist < 5 {
        0
    } else {
        let (l, _) = floor_log2(dist - 1);
        proof {
            lemma_pow2_small();
            lemma_pow2_32_64();
            lemma_log2_range((dist - 1) as nat, 2, 32);
        }
        l - 1
    }
}

/// Gets value of the extra bits for the given distance, according to the DEFLATE spec.
pub fn get_dist_extra_bits_value(dist: usize) -> (r: u32)
    requires
        dist < 0x8000_0000,
    ensures
        r == spec_dist_extra_bits_value(dist as int),
{
    if dist < 5 {
        0
    } else {
        let (l, p) = floor_log2(dist - 1);
        proof {
            lemma_pow2_small();
            lemma_pow2_32_64();
            lemma_log2_range((dist - 1) as nat, 2, 32);
            assert(pow2(l as nat) == 2 * pow2((l - 1) as nat));
            lemma_pow2_increases(2, l as nat);
        }
        let half = p / 2;
        proof {
            assert(half == pow2((l - 1) as nat));
            assert(l == log2((dist - 1) as nat));
            assert(p == pow2(log2((dist - 1) as nat)));
        }
        let v = (dist - 1 - p) % half;
        proof {
            lemma_mod_bound((dist - 1 - p) as int, half as int);
            assert(v == ((dist - 1) - pow2(log2((dist - 1) as nat))) % (pow2((log2((dist - 1) as nat) - 1) as nat) as int));
        }
        v as u32
    }
}

/// Gets the symbol for the given distance, according to the DEFLATE spec.
pub fn get_dist_symbol(dist: usize) -> (r: u32)
    requires
        dist <= 0x1_0000_0000,
    ensures
        r == spec_dist_symbol(dist as int),
{
    if dist < 5 {
        if dist == 0 {
            0
        } else {
            (dist - 1) as u32
        }
    } else {
        let (l, p) = floor_log2(dist - 1);
        proof {
            lemma_pow2_small();
            lemma_pow2_32_64();
            lemma_log2_range((dist - 1) as nat, 2, 32);
            assert(pow2(l as nat) == 2 * pow2((l - 1) as nat));
            lemma_pow2_increases(2, l as nat);
        }
        let half = p / 2;
        let r = ((dist - 1) / half) % 2;
        (l * 2) + (r as u32)
    }
}

/// Gets the amount of extra bits for the given length, according to the DEFLATE spec.
pub fn get_length_extra_bits(l: usize) -> (r: u32)
    ensures
        r == spec_length_extra_bits(l as int),
{
    if l < 11 || l >= 258 {
        0
    } else {
        let (e, _) = floor_log2(l - 3);
        proof {
            lemma_pow2_small();
            lemma_log2_range((l - 3) as nat, 3, 8);
        }
        e - 2
    }
}

/// Gets value of the extra bits for the given length, according to the DEFLATE spec.
pub fn get_length_extra_bits_value(l: usize) -> (r: u32)
    ensures
        r == spec_length_extra_bits_value(l as int),
{
    if l < 11 || l >= 258 {
        0
    } else {
        let (e, p) = floor_log2(l - 3);
        proof {
            lemma_pow2_small();
            lemma_log2_range((l - 3) as nat, 3, 8);
            assert(pow2(e as nat) == 2 * pow2((e - 1) as nat));
            assert(pow2((e - 1) as nat) == 2 * pow2((e - 2) as nat));
        }
        let q = p / 4;
        proof {
            assert(q == pow2((e - 2) as nat));
            assert(e == log2((l - 3) as nat));
        }
        let v = (l - 3) % q;
        proof {
            lemma_mod_bound((l - 3) as int, q as int);
            assert(v == ((l - 3) as int) % (pow2((log2((l - 3) as nat) - 2) as nat) as int));
        }
        v as u32
    }
}

/// Gets the symbol for the given length, according to the DEFLATE spec.
/// Returns the symbol in the range [257-285] (inclusive).
pub fn get_length_symbol(l: usize) -> (r: u32)
    ensures
        r == spec_length_symbol(l as int),
{
    if l < 3 || l > 258 {
        0
    } else if l == 258 {
        285
    } else if l <= 10 {
        (254 + l) as u32
    } else {
        let (lg, p) = floor_log2(l - 3);
        proof {
            lemma_pow2_small();
            lemma_log2_range((l - 3) as nat, 3, 8);
            assert(pow2(lg as nat) == 2 * pow2((lg - 1) as nat));
            assert(pow2((lg - 1) as nat) == 2 * pow2((lg - 2) as nat));
            lemma_log2_bounds((l - 3) as nat);
        }
        let e = lg - 2;
        let q = p / 4;
        let t = (l - 3) / q;
        proof {
            assert(t < 8) by {
                lemma_div_is_ordered((l - 3) as int, (8 * q - 1) as int, q as int);
                lemma_fundamental_div_mod_converse((8 * q - 1) as int, q as int, 7, (q - 1) as int);
            }
        }
        (257 + 4 * e + t as u32)
    }
}

/// Gets the amount of extra bits for the given length symbol.
pub fn get_length_symbol_extra_bits(s: usize) -> (r: u32)
    ensures
        r == spec_length_symbol_extra_bits(s as int),
{
    if s < 265 || s >= 285 {
        0
    } else {
        ((s - 257) / 4 - 1) as u32
    }
}

/// Gets the amount of extra bits for the given distance symbol.
pub fn get_dist_symbol_extra_bits(s: usize) -> (r: u32)
    ensures
        r == spec_dist_symbol_extra_bits(s as int),
{
    if s < 4 || s >= 30 {
        0
    } else {
        (s / 2 - 1) as u32
    }
}

/// Every match length 3..=258 is coded by one length symbol 257..=285: the symbol's
/// extra-bit count is that of the length, the length is the symbol's base length plus
/// the extra-bit value, and the value fits in the extra bits.
pub proof fn length_code_law(l: int)
    requires
        3 <= l <= 258,
    ensures
        257 <= spec_length_symbol(l) <= 285,
        spec_length_symbol_extra_bits(spec_length_symbol(l)) == spec_length_extra_bits(l),
        length_base_table()[spec_length_symbol(l) - 257] + spec_length_extra_bits_value(l) == l,
        0 <= spec_length_extra_bits_value(l) < pow2(spec_length_extra_bits(l) as nat),
{
    lemma_pow2_small();
    if l <= 10 {
        if l == 3 {
            assert(length_base_table()[0] == 3);
        } else if l == 4 {
            assert(length_base_table()[1] == 4);
        } else if l == 5 {
            assert(length_base_table()[2] == 5);
        } else if l == 6 {
            assert(length_base_table()[3] == 6);
        } else if l == 7 {
            assert(length_base_table()[4] == 7);
        } else if l == 8 {
            assert(length_base_table()[5] == 8);
        } else if l == 9 {
            assert(length_base_table()[6] == 9);
        } else if l == 10 {
            assert(length_base_table()[7] == 10);
        }
    } else if l == 258 {
        assert(length_base_table()[28] == 258);
    } else {
        let x = l - 3;
        let lg = log2(x as nat);
        lemma_log2_range(x as nat, 3, 8);
        lemma_log2_bounds(x as nat);
        assert(x / (pow2((lg - 2) as nat) as int) == spec_length_symbol(l) - 257 - 4 * (lg - 2));
        assert(x % (pow2((lg - 2) as nat) as int) == spec_length_extra_bits_value(l));
        {
            if lg == 3 {
                assert(pow2(1) == 2);
                if x / 2 == 4 {
                    assert(length_base_table()[8] == 11);
                } else if x / 2 == 5 {
                    assert(length_base_table()[9] == 13);
                } else if x / 2 == 6 {
                    assert(length_base_table()[10] == 15);
                } else if x / 2 == 7 {
                    assert(length_base_table()[11] == 17);
                }
            } else if lg == 4 {
                assert(pow2(2) == 4);
                if x / 4 == 4 {
                    assert(length_base_table()[12] == 19);
                } else if x / 4 == 5 {
                    assert(length_base_table()[13] == 23);
                } else if x / 4 == 6 {
                    assert(length_base_table()[14] == 27);
                } else if x / 4 == 7 {
                    assert(length_base_table()[15] == 31);
                }
            } else if lg == 5 {
                assert(pow2(3) == 8);
                if x / 8 == 4 {
                    assert(length_base_table()[16] == 35);
                } else if x / 8 == 5 {
                    assert(length_base_table()[17] == 43);
                } else if x / 8 == 6 {
                    assert(length_base_table()[18] == 51);
                } else if x / 8 == 7 {
                    assert(length_base_table()[19] == 59);
                }
            } else if lg == 6 {
                assert(pow2(4) == 16);
                if x / 16 == 4 {
                    assert(length_base_table()[20] == 67);
                } else if x / 16 == 5 {
                    assert(length_base_table()[21] == 83);
                } else if x / 16 == 6 {
                    assert(length_base_table()[22] == 99);
                } else if x / 16 == 7 {
                    assert(length_base_table()[23] == 115);
                }
            } else if lg == 7 {
                assert(pow2(5) == 32);
                if x / 32 == 4 {
                    assert(length_base_table()[24] == 131);
                } else if x / 32 == 5 {
                    assert(length_base_table()[25] == 163);
                } else if x / 32 == 6 {
                    assert(length_base_table()[26] == 195);
                } else if x / 32 == 7 {
                    assert(length_base_table()[27] == 227);
                }
            }
        }
    }
}

/// Every distance 1..=32768 is coded by one distance symbol 0..=29: the symbol's
/// extra-bit count is that of the distance, the distance is the symbol's base distance
/// plus the extra-bit value, and the value fits in the extra bits.
pub proof fn dist_code_law(dist: int)
    requires
        1 <= dist <= 32768,
    ensures
        0 <= spec_dist_symbol(dist) < 30,
        spec_dist_symbol_extra_bits(spec_dist_symbol(dist)) == spec_dist_extra_bits(dist),
        dist_base_table()[spec_dist_symbol(dist)] + spec_dist_extra_bits_value(dist) == dist,
        0 <= spec_dist_extra_bits_value(dist) < pow2(spec_dist_extra_bits(dist) as nat),
{
    lemma_pow2_small();
    if dist <= 4 {
        if dist == 1 {
            assert(dist_base_table()[0] == 1);
        } else if dist == 2 {
            assert(dist_base_table()[1] == 2);
        } else if dist == 3 {
            assert(dist_base_table()[2] == 3);
        } else if dist == 4 {
            assert(dist_base_table()[3] == 4);
        }
    } else {
        let x = dist - 1;
        let lg = log2(x as nat);
        lemma_log2_range(x as nat, 2, 15);
        lemma_log2_bounds(x as nat);
        {
            if lg == 2 {
                assert(pow2(2) == 4 && pow2(1) == 2);
                assert(2 <= x / 2 <= 3);
                assert((x - 4) % 2 == x % 2);
                assert(x == 2 * (x / 2) + x % 2);
                if (x / 2) % 2 == 0 {
                    assert(dist_base_table()[4] == 5);
                } else {
                    assert(dist_base_table()[5] == 7);
                }
            } else if lg == 3 {
                assert(pow2(3) == 8 && pow2(2) == 4);
                assert(2 <= x / 4 <= 3);
                assert((x - 8) % 4 == x % 4);
                assert(x == 4 * (x / 4) + x % 4);
                if (x / 4) % 2 == 0 {
                    assert(dist_base_table()[6] == 9);
                } else {
                    assert(dist_base_table()[7] == 13);
                }
            } else if lg == 4 {
                assert(pow2(4) == 16 && pow2(3) == 8);
                assert(2 <= x / 8 <= 3);
                assert((x - 16) % 8 == x % 8);
                assert(x == 8 * (x / 8) + x % 8);
                if (x / 8) % 2 == 0 {
                    assert(dist_base_table()[8] == 17);
                } else {
                    assert(dist_base_table()[9] == 25);
                }
            } else if lg == 5 {
                assert(pow2(5) == 32 && pow2(4) == 16);
                assert(2 <= x / 16 <= 3);
                assert((x - 32) % 16 == x % 16);
                assert(x == 16 * (x / 16) + x % 16);
                if (x / 16) % 2 == 0 {
                    assert(dist_base_table()[10] == 33);
                } else {
                    assert(dist_base_table()[11] == 49);
                }
            } else if lg == 6 {
                assert(pow2(6) == 64 && pow2(5) == 32);
                assert(2 <= x / 32 <= 3);
                assert((x - 64) % 32 == x % 32);
                assert(x == 32 * (x / 32) + x % 32);
                if (x / 32) % 2 == 0 {
                    assert(dist_base_table()[12] == 65);
                } else {
                    assert(dist_base_table()[13] == 97);
                }
            } else if lg == 7 {
                assert(pow2(7) == 128 && pow2(6) == 64);
                assert(2 <= x / 64 <= 3);
                assert((x - 128) % 64 == x % 64);
                assert(x == 64 * (x / 64) + x % 64);
                if (x / 64) % 2 == 0 {
                    assert(dist_base_table()[14] == 129);
                } else {
                    assert(dist_base_table()[15] == 193);
                }
            } else if lg == 8 {
                assert(pow2(8) == 256 && pow2(7) == 128);
                assert(2 <= x / 128 <= 3);
                assert((x - 256) % 128 == x % 128);
                assert(x == 128 * (x / 128) + x % 128);
                if (x / 128) % 2 == 0 {
                    assert(dist_base_table()[16] == 257);
                } else {
                    assert(dist_base_table()[17] == 385);
                }
            } else if lg == 9 {
                assert(pow2(9) == 512 && pow2(8) == 256);
                assert(2 <= x / 256 <= 3);
                assert((x - 512) % 256 == x % 256);
                assert(x == 256 * (x / 256) + x % 256);
                if (x / 256) % 2 == 0 {
                    assert(dist_base_table()[18] == 513);
                } else {
                    assert(dist_base_table()[19] == 769);
                }
            } else if lg == 10 {
                assert(pow2(10) == 1024 && pow2(9) == 512);
                assert(2 <= x / 512 <= 3);
                assert((x - 1024) % 512 == x % 512);
                assert(x == 512 * (x / 512) + x % 512);
                if (x / 512) % 2 == 0 {
                    assert(dist_base_table()[20] == 1025);
                } else {
                    assert(dist_base_table()[21] == 1537);
                }
            } else if lg == 11 {
                assert(pow2(11) == 2048 && pow2(10) == 1024);
                assert(2 <= x / 1024 <= 3);
                assert((x - 2048) % 1024 == x % 1024);
                assert(x == 1024 * (x / 1024) + x % 1024);
                if (x / 1024) % 2 == 0 {
                    assert(dist_base_table()[22] == 2049);
                } else {
                    assert(dist_base_table()[23] == 3073);
                }
            } else if lg == 12 {
                assert(pow2(12) == 4096 && pow2(11) == 2048);
                assert(2 <= x / 2048 <= 3);
                assert((x - 4096) % 2048 == x % 2048);
                assert(x == 2048 * (x / 2048) + x % 2048);
                if (x / 2048) % 2 == 0 {
                    assert(dist_base_table()[24] == 4097);
                } else {
                    assert(dist_base_table()[25] == 6145);
                }
            } else if lg == 13 {
                assert(pow2(13) == 8192 && pow2(12) == 4096);
                assert(2 <= x / 4096 <= 3);
                assert((x - 8192) % 4096 == x % 4096);
                assert(x == 4096 * (x / 4096) + x % 4096);
                if (x / 4096) % 2 == 0 {
                    assert(dist_base_table()[26] == 8193);
                } else {
                    assert(dist_base_table()[27] == 12289);
                }
            } else if lg == 14 {
                assert(pow2(14) == 16384 && pow2(13) == 8192);
                assert(2 <= x / 8192 <= 3);
                assert((x - 16384) % 8192 == x % 8192);
                assert(x == 8192 * (x / 8192) + x % 8192);
                if (x / 8192) % 2 == 0 {
                    assert(dist_base_table()[28] == 16385);
                } else {
                    assert(dist_base_table()[29] == 24577);
                }
            }
        }
    }
}

} // verus!
