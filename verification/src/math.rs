//! Integer logarithms and powers of two.
use vstd::arithmetic::div_mod::*;
use vstd::prelude::*;

verus! {

/// Two to the power `e`.
pub open spec fn pow2(e: nat) -> nat
    decreases e,
{
    if e == 0 {
        1
    } else {
        2 * pow2((e - 1) as nat)
    }
}

/// Powers of two are positive.
pub proof fn lemma_pow2_pos(e: nat)
    ensures
        pow2(e) > 0,
    decreases e,
{
    if e > 0 {
        lemma_pow2_pos((e - 1) as nat);
    }
}

/// Powers of two are positive and strictly increasing.
pub proof fn lemma_pow2_increases(e1: nat, e2: nat)
    requires
        e1 <= e2,
    ensures
        0 < pow2(e1) <= pow2(e2),
        e1 < e2 ==> pow2(e1) < pow2(e2),
    decreases e2,
{
    lemma_pow2_pos(e1);
    if e2 > e1 {
        lemma_pow2_increases(e1, (e2 - 1) as nat);
    }
}

/// The powers of two up to 2^16.
pub proof fn lemma_pow2_small()
    ensures
        pow2(0) == 1, pow2(1) == 2, pow2(2) == 4, pow2(3) == 8, pow2(4) == 16, pow2(5) == 32,
        pow2(6) == 64, pow2(7) == 128, pow2(8) == 256, pow2(9) == 512, pow2(10) == 1024,
        pow2(11) == 2048, pow2(12) == 4096, pow2(13) == 8192, pow2(14) == 16384,
        pow2(15) == 32768, pow2(16) == 65536,
{
    reveal_with_fuel(pow2, 17);
}

/// 2^32 and 2^64.
pub proof fn lemma_pow2_32_64()
    ensures
        pow2(32) == 0x1_0000_0000,
        pow2(64) == 0x1_0000_0000_0000_0000,
{
    reveal_with_fuel(pow2, 33);
    lemma_pow2_adds(32, 32);
}

/// 2^(a+b) == 2^a * 2^b.
pub proof fn lemma_pow2_adds(a: nat, b: nat)
    ensures
        pow2(a + b) == pow2(a) * pow2(b),
    decreases b,
{
    if b > 0 {
        let b1 = (b - 1) as nat;
        lemma_pow2_adds(a, b1);
        assert(pow2(a + b) == 2 * pow2(a + b1));
        assert(pow2(b) == 2 * pow2(b1));
        assert(pow2(a) * (2 * pow2(b1)) == 2 * (pow2(a) * pow2(b1))) by (nonlinear_arith);
        assert(pow2(a) * pow2(b) == pow2(a) * (2 * pow2(b1)));
    } else {
        assert(a + b == a);
        assert(pow2(b) == 1);
    }
}

/// Floor of the base-2 logarithm (0 for 0 and 1).
pub open spec fn log2(x: nat) -> nat
    decreases x,
{
    if x < 2 {
        0
    } else {
        1 + log2(x / 2)
    }
}

/// `2^log2(x) <= x < 2^(log2(x) + 1)` for every positive `x`.
pub proof fn lemma_log2_bounds(x: nat)
    requires
        x >= 1,
    ensures
        pow2(log2(x)) <= x < pow2(log2(x) + 1),
    decreases x,
{
    if x >= 2 {
        lemma_log2_bounds(x / 2);
        assert(pow2(log2(x / 2) + 1) == 2 * pow2(log2(x / 2)));
        assert(pow2(log2(x / 2) + 2) == 2 * pow2(log2(x / 2) + 1));
    } else {
        assert(pow2(1) == 2 * pow2(0));
    }
}

/// `log2(x) == e` whenever `2^e <= x < 2^(e+1)`.
pub proof fn lemma_log2_unique(x: nat, e: nat)
    requires
        pow2(e) <= x < pow2(e + 1),
    ensures
        log2(x) == e,
    decreases e,
{
    assert(pow2(e + 1) == 2 * pow2(e));
    if e > 0 {
        assert(pow2(e) == 2 * pow2((e - 1) as nat));
        lemma_log2_unique(x / 2, (e - 1) as nat);
    }
}

/// `lo <= log2(x) < hi` whenever `2^lo <= x < 2^hi`.
pub proof fn lemma_log2_range(x: nat, lo: nat, hi: nat)
    requires
        pow2(lo) <= x < pow2(hi),
    ensures
        lo <= log2(x) < hi,
{
    lemma_pow2_pos(lo);
    lemma_log2_bounds(x);
    if log2(x) < lo {
        lemma_pow2_increases(log2(x) + 1, lo);
    }
    if log2(x) >= hi {
        lemma_pow2_increases(hi, log2(x));
    }
}

/// Floor of the base-2 logarithm of a positive value, with the matching power of two.
pub fn floor_log2(x: usize) -> (r: (u32, usize))
    requires
        x >= 1,
    ensures
        r.0 == log2(x as nat),
        r.1 == pow2(r.0 as nat),
        r.1 <= x,
        r.0 < 64,
{
    let mut y = x;
    let mut l: u32 = 0;
    let mut p: usize = 1;
    while y >= 2
        invariant
            1 <= y,
            1 <= p <= x,
            y == x / p,
            p == pow2(l as nat),
            log2(x as nat) == l + log2(y as nat),
            l < 64,
        decreases y,
    {
        proof {
            lemma_div_denominator(x as int, p as int, 2);
            lemma_fundamental_div_mod(x as int, p as int);
            lemma_log2_bounds(x as nat);
            assert(pow2((l + 1) as nat) == 2 * pow2(l as nat));
            if l + 1 >= 64 {
                lemma_pow2_increases(64, (l + 1) as nat);
                lemma_pow2_32_64();
            }
            assert(p * 2 <= x) by (nonlinear_arith)
                requires
                    y >= 2,
                    y == x / p,
                    p >= 1,
                    x == p * (x / p) + x % p,
                    x % p >= 0,
            ;
        }
        y = y / 2;
        l = l + 1;
        p = p * 2;
    }
    (l, p)
}


} // verus!
