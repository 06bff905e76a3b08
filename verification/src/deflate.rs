//! DEFLATE block writing (RFC 1951): stored blocks, Huffman-coded LZ77 data and the
//! run-length coded header of a dynamic tree.
use crate::bitstream::{add_bit, add_bits, add_huffman_bits, byte_bits, bytes_bits, lsb_bits, msb_bits, stream_bits, stream_wf};
use crate::bitstream::add_bits as put_bits;
use crate::error::Error;
use crate::lz77::{cmd_len, cmd_ok, lemma_parse_decodes, parse_ok, parsed_len, valid_match, Lz77Store, Lz77StoreView};
use crate::blocksplitter::{lemma_parse_splittable, split, split_lz77, strictly_sorted};
use crate::lz77::{lemma_parse_push, UninitializedLz77Store, ZopfliBlockState};
use crate::squeeze::{auto_block_size, calculate_block_size_auto_type, is_dynamic_block_size, stored_bits, symbols_bits};
use crate::squeeze::{
    block_size_ready, byte_range, calculate_block_size, cmds_codable, fixed_d_lengths, fixed_ll_lengths,
    get_dynamic_lengths, get_fixed_tree, lz77_get_byte_range, lz77_optimal_fixed,
};
use crate::tree::canonical_code;
use crate::inflate_dynamic::codes_fit;
use crate::util::{wide_usize, BlockType, SafeOptions, MACRO_BLOCK_SIZE, NUM_D, NUM_LL};
use crate::symbols::{
    get_dist_extra_bits, get_dist_extra_bits_value, get_dist_symbol, get_length_extra_bits,
    get_length_extra_bits_value, get_length_symbol, spec_dist_extra_bits, spec_dist_extra_bits_value,
    spec_dist_symbol, spec_length_extra_bits, spec_length_extra_bits_value, spec_length_symbol,
};
use crate::tree::{calculate_bit_lengths, lengths_to_symbols};
use crate::inflate_stream::{inflate_blocks, lemma_deflate_inflates};
use vstd::prelude::*;

verus! {

/// A run of `n` copies of `v`.
pub open spec fn repeat(v: u32, n: nat) -> Seq<u32> {
    Seq::new(n, |k: int| v)
}

/// What one run-length code adds to the code lengths decoded so far: a length 0..=15
/// itself, 16 repeats the previous length 3..=6 times, 17 gives 3..=10 zeros and 18
/// gives 11..=138 zeros.
pub open spec fn rle_expand(out: Seq<u32>, sym: u32, extra: u32) -> Seq<u32> {
    if sym < 16 {
        out.push(sym)
    } else if sym == 16 {
        out + repeat(out.last(), (extra + 3) as nat)
    } else if sym == 17 {
        out + repeat(0, (extra + 3) as nat)
    } else {
        out + repeat(0, (extra + 11) as nat)
    }
}

/// The code lengths that a run-length coded sequence stands for.
pub open spec fn rle_decode(rle: Seq<u32>, bits: Seq<u32>) -> Seq<u32>
    decreases rle.len(),
{
    if rle.len() == 0 {
        Seq::empty()
    } else {
        rle_expand(rle_decode(rle.drop_last(), bits.drop_last()), rle.last(), bits.last())
    }
}

/// A run-length code with its extra bits as the header can hold them.
pub open spec fn rle_item_ok(sym: u32, extra: u32) -> bool {
    ||| sym <= 15 && extra == 0
    ||| sym == 16 && extra <= 3
    ||| sym == 17 && extra <= 7
    ||| sym == 18 && extra <= 127
}

/// Number of extra bits that follow a run-length code.
pub open spec fn rle_extra_len(sym: u32) -> int {
    if sym == 16 {
        2
    } else if sym == 17 {
        3
    } else if sym == 18 {
        7
    } else {
        0
    }
}

/// Number of times `c` occurs in `s`.
pub open spec fn occ(s: Seq<u32>, c: int) -> nat
    decreases s.len(),
{
    if s.len() == 0 {
        0
    } else {
        occ(s.drop_last(), c) + if s.last() == c {
            1nat
        } else {
            0nat
        }
    }
}

/// Bits that the run-length codes take with the code length code `clcl`.
pub open spec fn items_bits(rle: Seq<u32>, clcl: Seq<u32>) -> int
    decreases rle.len(),
{
    if rle.len() == 0 {
        0
    } else {
        items_bits(rle.drop_last(), clcl) + clcl[rle.last() as int] + rle_extra_len(rle.last())
    }
}

/// Bits of the code length codes `a..b`, weighted by their counts.
pub open spec fn weighted_occ(clcl: Seq<u32>, rle: Seq<u32>, a: int, b: int) -> int
    decreases b - a,
{
    if b <= a {
        0
    } else {
        weighted_occ(clcl, rle, a, b - 1) + clcl[b - 1] * occ(rle, b - 1)
    }
}

/// The code lengths that the header of a dynamic tree sends: `hlit2` literal/length
/// lengths, then `hdist + 1` distance lengths.
pub open spec fn header_lengths(ll: Seq<u32>, d: Seq<u32>, hlit2: int, hdist: int) -> Seq<u32> {
    Seq::new(
        (hlit2 + hdist + 1) as nat,
        |j: int|
            if j < hlit2 {
                ll[j]
            } else {
                d[j - hlit2]
            },
    )
}

/// Number of literal/length codes after 257 that the header sends: the last used one
/// among 257..=285 decides.
pub open spec fn spec_hlit(ll: Seq<u32>, h: int) -> int
    decreases h,
{
    if h <= 0 {
        0
    } else if ll[257 + h - 1] != 0 {
        h
    } else {
        spec_hlit(ll, h - 1)
    }
}

/// Number of distance codes after the first that the header sends.
pub open spec fn spec_hdist(d: Seq<u32>, h: int) -> int
    decreases h,
{
    if h <= 0 {
        0
    } else if d[1 + h - 1] != 0 {
        h
    } else {
        spec_hdist(d, h - 1)
    }
}

/// Every length in `s` is a DEFLATE code length (at most 15).
pub open spec fn code_lengths_ok(s: Seq<u32>) -> bool {
    forall|i: int| 0 <= i < s.len() ==> #[trigger] s[i] <= 15
}

proof fn lemma_rle_decode_push(rle: Seq<u32>, bits: Seq<u32>, x: u32, y: u32)
    requires
        rle.len() == bits.len(),
    ensures
        rle_decode(rle.push(x), bits.push(y)) == rle_expand(rle_decode(rle, bits), x, y),
{
    assert(rle.push(x).drop_last() == rle);
    assert(bits.push(y).drop_last() == bits);
}

proof fn lemma_occ_push(s: Seq<u32>, x: u32, c: int)
    ensures
        occ(s.push(x), c) == occ(s, c) + if x == c {
            1nat
        } else {
            0nat
        },
{
    assert(s.push(x).drop_last() == s);
}

proof fn lemma_flags_push(g: Seq<u32>, x: u32, use_16: bool, use_17: bool, use_18: bool)
    requires
        flags_respected(g, use_16, use_17, use_18),
        x < 16 || (x == 16 && use_16) || (x == 17 && use_17) || (x == 18 && use_18),
    ensures
        flags_respected(g.push(x), use_16, use_17, use_18),
{
    reveal(flags_respected);
    lemma_occ_push(g, x, 16);
    lemma_occ_push(g, x, 17);
    lemma_occ_push(g, x, 18);
}

/// An element of a sequence occurs in it.
proof fn lemma_occ_pos(s: Seq<u32>, k: int)
    requires
        0 <= k < s.len(),
    ensures
        occ(s, s[k] as int) >= 1,
    decreases s.len(),
{
    if k < s.len() - 1 {
        lemma_occ_pos(s.drop_last(), k);
        assert(s.drop_last()[k] == s[k]);
    }
}

pub(crate) proof fn lemma_occ_bound(s: Seq<u32>, c: int)
    ensures
        occ(s, c) <= s.len(),
    decreases s.len(),
{
    if s.len() > 0 {
        lemma_occ_bound(s.drop_last(), c);
    }
}

proof fn lemma_items_bits_push(rle: Seq<u32>, clcl: Seq<u32>, x: u32)
    ensures
        items_bits(rle.push(x), clcl) == items_bits(rle, clcl) + clcl[x as int] + rle_extra_len(x),
{
    assert(rle.push(x).drop_last() == rle);
}

proof fn lemma_weighted_occ_push(clcl: Seq<u32>, rle: Seq<u32>, x: u32, a: int, b: int)
    requires
        a <= b,
    ensures
        weighted_occ(clcl, rle.push(x), a, b) == weighted_occ(clcl, rle, a, b) + if a <= x < b {
            clcl[x as int] as int
        } else {
            0
        },
    decreases b - a,
{
    if b > a {
        lemma_weighted_occ_push(clcl, rle, x, a, b - 1);
        lemma_occ_push(rle, x, b - 1);
        let w = clcl[b - 1] as int;
        let o = occ(rle, b - 1) as int;
        assert(w * (o + 1) == w * o + w) by (nonlinear_arith);
    }
}

/// The bits that the run-length codes take are those that their counts give.
proof fn lemma_items_bits_by_counts(rle: Seq<u32>, clcl: Seq<u32>)
    requires
        forall|k: int| 0 <= k < rle.len() ==> #[trigger] rle[k] <= 18,
    ensures
        items_bits(rle, clcl) == weighted_occ(clcl, rle, 0, 19) + 2 * occ(rle, 16) + 3 * occ(rle, 17) + 7 * occ(
            rle,
            18,
        ),
    decreases rle.len(),
{
    if rle.len() == 0 {
        lemma_weighted_occ_zero(clcl, rle, 0, 19);
    } else {
        let r0 = rle.drop_last();
        let x = rle.last();
        assert(r0.push(x) == rle);
        assert forall|k: int| 0 <= k < r0.len() implies #[trigger] r0[k] <= 18 by {
            assert(r0[k] == rle[k]);
        }
        lemma_items_bits_by_counts(r0, clcl);
        lemma_items_bits_push(r0, clcl, x);
        lemma_weighted_occ_push(clcl, r0, x, 0, 19);
        lemma_occ_push(r0, x, 16);
        lemma_occ_push(r0, x, 17);
        lemma_occ_push(r0, x, 18);
    }
}

proof fn lemma_weighted_occ_zero(clcl: Seq<u32>, rle: Seq<u32>, a: int, b: int)
    requires
        rle.len() == 0,
    ensures
        weighted_occ(clcl, rle, a, b) == 0,
    decreases b - a,
{
    if b > a {
        lemma_weighted_occ_zero(clcl, rle, a, b - 1);
        assert(occ(rle, b - 1) == 0);
        assert(clcl[b - 1] * 0 == 0) by (nonlinear_arith);
    }
}


/// The run-length codes 16, 17 and 18 occur only where their flag allows them.
#[verifier::opaque]
pub open spec fn flags_respected(rle: Seq<u32>, use_16: bool, use_17: bool, use_18: bool) -> bool {
    &&& !use_16 ==> occ(rle, 16) == 0
    &&& !use_17 ==> occ(rle, 17) == 0
    &&& !use_18 ==> occ(rle, 18) == 0
}

/// The run-length codes do not start with a copy of the previous length.
#[verifier::opaque]
pub open spec fn copy_not_first(rle: Seq<u32>) -> bool {
    rle.len() > 0 ==> rle[0] != 16
}

proof fn lemma_copy_not_first_empty()
    ensures
        copy_not_first(Seq::empty()),
{
    reveal(copy_not_first);
}

proof fn lemma_copy_not_first_push(g: Seq<u32>, x: u32)
    requires
        copy_not_first(g),
        g.len() > 0 || x != 16,
    ensures
        copy_not_first(g.push(x)),
{
    reveal(copy_not_first);
}

/// Run-length codes one run of `count` equal code lengths `symbol`, appending to the
/// codes `g` (extra bits `gb`) that already stand for `pre`.
#[verifier::loop_isolation(false)]
#[verifier::spinoff_prover]
#[verifier::rlimit(100)]
fn rle_run(
    symbol: u8,
    count: usize,
    use_16: bool,
    use_17: bool,
    use_18: bool,
    size_only: bool,
    rle: &mut Vec<u32>,
    rle_bits: &mut Vec<u32>,
    clcounts: &mut [usize; 19],
    Ghost(g0): Ghost<Seq<u32>>,
    Ghost(gb0): Ghost<Seq<u32>>,
    Ghost(pre): Ghost<Seq<u32>>,
) -> (codes: Ghost<(Seq<u32>, Seq<u32>)>)
    requires
        symbol < 16,
        count >= 1,
        pre.len() + count <= 400,
        g0.len() == gb0.len(),
        g0.len() <= pre.len(),
        forall|k: int| 0 <= k < g0.len() ==> #[trigger] rle_item_ok(g0[k], gb0[k]),
        copy_not_first(g0),
        flags_respected(g0, use_16, use_17, use_18),
        rle_decode(g0, gb0) == pre,
        forall|c: int| 0 <= c < 19 ==> #[trigger] old(clcounts)@[c] == occ(g0, c),
        !size_only ==> old(rle)@ == g0 && old(rle_bits)@ == gb0,
        size_only ==> old(rle)@.len() == 0 && old(rle_bits)@.len() == 0,
    ensures
        ({
            let (g, gb) = codes@;
            &&& g.len() == gb.len()
            &&& g.len() <= pre.len() + count
            &&& forall|k: int| 0 <= k < g.len() ==> #[trigger] rle_item_ok(g[k], gb[k])
            &&& copy_not_first(g)
            &&& flags_respected(g, use_16, use_17, use_18)
            &&& rle_decode(g, gb) == pre + repeat(symbol as u32, count as nat)
            &&& forall|c: int| 0 <= c < 19 ==> #[trigger] final(clcounts)@[c] == occ(g, c)
            &&& !size_only ==> final(rle)@ == g && final(rle_bits)@ == gb
            &&& size_only ==> final(rle)@.len() == 0 && final(rle_bits)@.len() == 0
        }),
{
    let ghost mut g = g0;
    let ghost mut gb = gb0;
    let mut count = count;
    let ghost run = count;
    let ghost mut emitted: nat = 0;
    proof {
        assert(pre + repeat(symbol as u32, 0) == pre);
    }
    if symbol == 0 && count >= 3 {
        if use_18 {
            while count >= 11
                invariant
                    emitted + count == run,
                    g.len() == gb.len(),
                    g.len() <= pre.len() + emitted,
                    forall|k: int| 0 <= k < g.len() ==> #[trigger] rle_item_ok(g[k], gb[k]),
                    copy_not_first(g),
                    flags_respected(g, use_16, use_17, use_18),
                    rle_decode(g, gb) == pre + repeat(0, emitted),
                    forall|c: int| 0 <= c < 19 ==> #[trigger] clcounts@[c] == occ(g, c),
                    !size_only ==> rle@ == g && rle_bits@ == gb,
                    size_only ==> rle@.len() == 0 && rle_bits@.len() == 0,
                decreases count,
            {
                let count2 = if 138 < count {
                    138
                } else {
                    count
                };
                if !size_only {
                    rle.push(18);
                    rle_bits.push((count2 - 11) as u32);
                }
                proof {
                    lemma_rle_decode_push(g, gb, 18, (count2 - 11) as u32);
                    assert forall|c: int| 0 <= c < 19 implies occ(g.push(18), c) == occ(g, c) + if c == 18 {
                        1nat
                    } else {
                        0nat
                    } by {
                        lemma_occ_push(g, 18, c);
                    }
                    lemma_occ_bound(g, 18);
                    assert(pre + repeat(0, emitted) + repeat(0, count2 as nat) =~= pre + repeat(0, emitted + count2 as nat));
                    lemma_flags_push(g, 18, use_16, use_17, use_18);
                    lemma_copy_not_first_push(g, 18);
                    g = g.push(18);
                    gb = gb.push((count2 - 11) as u32);
                    emitted = emitted + count2 as nat;
                }
                clcounts[18] = clcounts[18] + 1;
                count = count - count2;
            }
        }
        if use_17 {
            while count >= 3
                invariant
                    emitted + count == run,
                    g.len() == gb.len(),
                    g.len() <= pre.len() + emitted,
                    forall|k: int| 0 <= k < g.len() ==> #[trigger] rle_item_ok(g[k], gb[k]),
                    copy_not_first(g),
                    flags_respected(g, use_16, use_17, use_18),
                    rle_decode(g, gb) == pre + repeat(0, emitted),
                    forall|c: int| 0 <= c < 19 ==> #[trigger] clcounts@[c] == occ(g, c),
                    !size_only ==> rle@ == g && rle_bits@ == gb,
                    size_only ==> rle@.len() == 0 && rle_bits@.len() == 0,
                decreases count,
            {
                let count2 = if 10 < count {
                    10
                } else {
                    count
                };
                if !size_only {
                    rle.push(17);
                    rle_bits.push((count2 - 3) as u32);
                }
                proof {
                    lemma_rle_decode_push(g, gb, 17, (count2 - 3) as u32);
                    assert forall|c: int| 0 <= c < 19 implies occ(g.push(17), c) == occ(g, c) + if c == 17 {
                        1nat
                    } else {
                        0nat
                    } by {
                        lemma_occ_push(g, 17, c);
                    }
                    lemma_occ_bound(g, 17);
                    assert(pre + repeat(0, emitted) + repeat(0, count2 as nat) =~= pre + repeat(0, emitted + count2 as nat));
                    lemma_flags_push(g, 17, use_16, use_17, use_18);
                    lemma_copy_not_first_push(g, 17);
                    g = g.push(17);
                    gb = gb.push((count2 - 3) as u32);
                    emitted = emitted + count2 as nat;
                }
                clcounts[17] = clcounts[17] + 1;
                count = count - count2;
            }
        }
    }
    if use_16 && count >= 4 {
        count = count - 1;
        proof {
            lemma_occ_bound(g, symbol as int);
        }
        clcounts[symbol as usize] = clcounts[symbol as usize] + 1;
        if !size_only {
            rle.push(symbol as u32);
            rle_bits.push(0);
        }
        proof {
            lemma_rle_decode_push(g, gb, symbol as u32, 0);
            assert forall|c: int| 0 <= c < 19 implies occ(g.push(symbol as u32), c) == occ(g, c) + if c
                == symbol {
                1nat
            } else {
                0nat
            } by {
                lemma_occ_push(g, symbol as u32, c);
            }
            assert((pre + repeat(symbol as u32, emitted)).push(symbol as u32) =~= pre + repeat(symbol as u32, emitted + 1));
            lemma_flags_push(g, symbol as u32, use_16, use_17, use_18);
            lemma_copy_not_first_push(g, symbol as u32);
            g = g.push(symbol as u32);
            gb = gb.push(0);
            emitted = emitted + 1;
        }
        while count >= 3
            invariant
                emitted + count == run,
                emitted >= 1,
                g.len() > 0,
                g.len() == gb.len(),
                g.len() <= pre.len() + emitted,
                forall|k: int| 0 <= k < g.len() ==> #[trigger] rle_item_ok(g[k], gb[k]),
                copy_not_first(g),
                flags_respected(g, use_16, use_17, use_18),
                rle_decode(g, gb) == pre + repeat(symbol as u32, emitted),
                forall|c: int| 0 <= c < 19 ==> #[trigger] clcounts@[c] == occ(g, c),
                !size_only ==> rle@ == g && rle_bits@ == gb,
                size_only ==> rle@.len() == 0 && rle_bits@.len() == 0,
            decreases count,
        {
            let count2 = if 6 < count {
                6
            } else {
                count
            };
            if !size_only {
                rle.push(16);
                rle_bits.push((count2 - 3) as u32);
            }
            proof {
                lemma_rle_decode_push(g, gb, 16, (count2 - 3) as u32);
                let out = pre + repeat(symbol as u32, emitted);
                assert(out.last() == symbol);
                assert forall|c: int| 0 <= c < 19 implies occ(g.push(16), c) == occ(g, c) + if c == 16 {
                    1nat
                } else {
                    0nat
                } by {
                    lemma_occ_push(g, 16, c);
                }
                lemma_occ_bound(g, 16);
                assert(out + repeat(symbol as u32, count2 as nat) =~= pre + repeat(
                    symbol as u32,
                    emitted + count2 as nat,
                ));
                lemma_flags_push(g, 16, use_16, use_17, use_18);
                lemma_copy_not_first_push(g, 16);
                g = g.push(16);
                gb = gb.push((count2 - 3) as u32);
                emitted = emitted + count2 as nat;
            }
            clcounts[16] = clcounts[16] + 1;
            count = count - count2;
        }
    }
    proof {
        lemma_occ_bound(g, symbol as int);
    }
    clcounts[symbol as usize] = clcounts[symbol as usize] + count;
    let ghost pending = count;
    while count > 0
        invariant
            symbol < 16,
            emitted + count == run,
            g.len() == gb.len(),
            g.len() + count <= pre.len() + run,
            forall|k: int| 0 <= k < g.len() ==> #[trigger] rle_item_ok(g[k], gb[k]),
            copy_not_first(g),
            flags_respected(g, use_16, use_17, use_18),
            rle_decode(g, gb) == pre + repeat(symbol as u32, emitted),
            forall|c: int|
                0 <= c < 19 ==> #[trigger] clcounts@[c] == occ(g, c) + if c == symbol {
                    count as nat
                } else {
                    0nat
                },
            !size_only ==> rle@ == g && rle_bits@ == gb,
            size_only ==> rle@.len() == 0 && rle_bits@.len() == 0,
        decreases count,
    {
        if !size_only {
            rle.push(symbol as u32);
            rle_bits.push(0);
        }
        proof {
            lemma_rle_decode_push(g, gb, symbol as u32, 0);
            assert forall|c: int| 0 <= c < 19 implies occ(g.push(symbol as u32), c) == occ(g, c) + if c
                == symbol {
                1nat
            } else {
                0nat
            } by {
                lemma_occ_push(g, symbol as u32, c);
            }
            assert((pre + repeat(symbol as u32, emitted)).push(symbol as u32) =~= pre + repeat(symbol as u32, emitted + 1));
            lemma_flags_push(g, symbol as u32, use_16, use_17, use_18);
            lemma_copy_not_first_push(g, symbol as u32);
            g = g.push(symbol as u32);
            gb = gb.push(0);
            emitted = emitted + 1;
        }
        count = count - 1;
    }
    Ghost((g, gb))
}

/// Run-length codes the code lengths that the header of a dynamic tree sends, counting
/// each code in `clcounts`. The codes and their extra bits go to `rle` and `rle_bits`
/// unless `size_only`; they are also handed back as ghost sequences.
#[verifier::loop_isolation(false)]
#[verifier::spinoff_prover]
#[verifier::rlimit(100)]
fn rle_code_lengths(
    ll_lengths: &[u32],
    d_lengths: &[u32],
    hlit2: usize,
    hdist: usize,
    use_16: bool,
    use_17: bool,
    use_18: bool,
    size_only: bool,
    rle: &mut Vec<u32>,
    rle_bits: &mut Vec<u32>,
    clcounts: &mut [usize; 19],
) -> (codes: Ghost<(Seq<u32>, Seq<u32>)>)
    requires
        257 <= hlit2 <= ll_lengths@.len(),
        hlit2 <= 286,
        hdist < 30,
        hdist + 1 <= d_lengths@.len(),
        code_lengths_ok(header_lengths(ll_lengths@, d_lengths@, hlit2 as int, hdist as int)),
        old(rle)@.len() == 0,
        old(rle_bits)@.len() == 0,
        forall|c: int| 0 <= c < 19 ==> #[trigger] old(clcounts)@[c] == 0,
    ensures
        ({
            let (g, gb) = codes@;
            &&& g.len() == gb.len()
            &&& g.len() <= hlit2 + hdist + 1
            &&& forall|k: int| 0 <= k < g.len() ==> #[trigger] rle_item_ok(g[k], gb[k])
            &&& copy_not_first(g)
            &&& flags_respected(g, use_16, use_17, use_18)
            &&& rle_decode(g, gb) == header_lengths(ll_lengths@, d_lengths@, hlit2 as int, hdist as int)
            &&& forall|c: int| 0 <= c < 19 ==> #[trigger] final(clcounts)@[c] == occ(g, c)
            &&& !size_only ==> final(rle)@ == g && final(rle_bits)@ == gb
            &&& size_only ==> final(rle)@.len() == 0 && final(rle_bits)@.len() == 0
        }),
{
    let ghost lld = header_lengths(ll_lengths@, d_lengths@, hlit2 as int, hdist as int);
    let lld_total = hlit2 + hdist + 1;
    let ghost mut g: Seq<u32> = Seq::empty();
    let ghost mut gb: Seq<u32> = Seq::empty();
    proof {
        lemma_copy_not_first_empty();
        assert(occ(g, 16) == 0 && occ(g, 17) == 0 && occ(g, 18) == 0);
        reveal(flags_respected);
    }
    let mut i: usize = 0;
    while i < lld_total
        invariant
            i <= lld_total,
            lld.len() == lld_total,
            g.len() == gb.len(),
            g.len() <= i,
            forall|k: int| 0 <= k < g.len() ==> #[trigger] rle_item_ok(g[k], gb[k]),
            copy_not_first(g),
            flags_respected(g, use_16, use_17, use_18),
            rle_decode(g, gb) == lld.take(i as int),
            forall|c: int| 0 <= c < 19 ==> #[trigger] clcounts@[c] == occ(g, c),
            !size_only ==> rle@ == g && rle_bits@ == gb,
            size_only ==> rle@.len() == 0 && rle_bits@.len() == 0,
        decreases lld_total - i,
    {
        let symbol: u8 = if i < hlit2 {
            ll_lengths[i] as u8
        } else {
            d_lengths[i - hlit2] as u8
        };
        proof {
            assert(lld[i as int] <= 15);
            assert(symbol == lld[i as int]);
        }
        let mut count: usize = 1;
        if use_16 || (symbol == 0 && (use_17 || use_18)) {
            let mut j = i + 1;
            while j < lld_total
                invariant
                    i < j <= lld_total,
                    count == j - i,
                    forall|t: int| i <= t < j ==> #[trigger] lld[t] == symbol,
                decreases lld_total - j,
            {
                let next_symbol: u8 = if j < hlit2 {
                    ll_lengths[j] as u8
                } else {
                    d_lengths[j - hlit2] as u8
                };
                proof {
                    assert(lld[j as int] <= 15);
                }
                if symbol == next_symbol {
                    count = count + 1;
                    j = j + 1;
                } else {
                    break;
                }
            }
        }
        let ghost i0 = i;
        proof {
            assert(lld.take(i0 as int).len() == i0);
        }
        let codes = rle_run(
            symbol,
            count,
            use_16,
            use_17,
            use_18,
            size_only,
            rle,
            rle_bits,
            clcounts,
            Ghost(g),
            Ghost(gb),
            Ghost(lld.take(i0 as int)),
        );
        proof {
            g = codes@.0;
            gb = codes@.1;
            assert(forall|t: int| i0 <= t < i0 + count ==> #[trigger] lld[t] == symbol);
            assert(lld.take(i0 as int) + repeat(symbol as u32, count as nat) =~= lld.take(i0 + count));
        }
        i = i + count;
    }
    proof {
        assert(lld.take(lld_total as int) == lld);
    }
    Ghost((g, gb))
}

/// The order in which the header sends the code length code lengths (RFC 1951, 3.2.7).
pub open spec fn cl_order() -> Seq<int> {
    seq![16, 17, 18, 0, 8, 7, 9, 6, 10, 5, 11, 4, 12, 3, 13, 2, 14, 1, 15]
}

fn code_length_order(k: usize) -> (r: usize)
    requires
        k < 19,
    ensures
        r == cl_order()[k as int],
        r < 19,
{
    let order: [usize; 19] = [16, 17, 18, 0, 8, 7, 9, 6, 10, 5, 11, 4, 12, 3, 13, 2, 14, 1, 15];
    proof {
        assert(forall|j: int| 0 <= j < 19 ==> order@[j] as int == #[trigger] cl_order()[j]);
    }
    order[k]
}

/// Number of code length code lengths after the first four that the header sends:
/// the last used code in the sending order decides.
pub open spec fn spec_hclen(clcounts: Seq<usize>, h: int) -> int
    decreases h,
{
    if h <= 0 {
        0
    } else if clcounts[cl_order()[h + 4 - 1]] != 0 {
        h
    } else {
        spec_hclen(clcounts, h - 1)
    }
}

/// How often each of the 19 run-length codes occurs in `rle`.
pub open spec fn rle_counts(rle: Seq<u32>) -> Seq<usize> {
    Seq::new(19, |c: int| occ(rle, c) as usize)
}

/// The 3-bit code length code lengths of the first `n` codes in the sending order.
pub open spec fn cl_lengths_bits(clcl: Seq<u32>, n: int) -> Seq<bool>
    decreases n,
{
    if n <= 0 {
        Seq::empty()
    } else {
        cl_lengths_bits(clcl, n - 1) + lsb_bits(clcl[cl_order()[n - 1]], 3)
    }
}

/// The run-length codes `rle`, each coded with the canonical code of `clcl` and followed by
/// its extra bits.
pub open spec fn items_stream(rle: Seq<u32>, extra: Seq<u32>, clcl: Seq<u32>) -> Seq<bool>
    decreases rle.len(),
{
    if rle.len() == 0 {
        Seq::empty()
    } else {
        items_stream(rle.drop_last(), extra.drop_last(), clcl) + msb_bits(
            canonical_code(clcl, rle.last() as int) as u32,
            clcl[rle.last() as int] as nat,
        ) + lsb_bits(extra.last(), rle_extra_len(rle.last()) as nat)
    }
}

/// A dynamic tree header's content: run-length codes `rle` with extra bits `extra` that
/// stand for the code lengths of `ll` and `d` up to the last used ones and do not start
/// with a copy code, and code length code lengths `clcl` of at most 7 that form a prefix
/// code, give a length to every run-length code used and to no other.
pub open spec fn tree_header_ok(ll: Seq<u32>, d: Seq<u32>, rle: Seq<u32>, extra: Seq<u32>, clcl: Seq<u32>) -> bool {
    &&& rle.len() == extra.len()
    &&& forall|k: int| 0 <= k < rle.len() ==> #[trigger] rle_item_ok(rle[k], extra[k])
    &&& rle_decode(rle, extra) == header_lengths(ll, d, spec_hlit(ll, 29) + 257, spec_hdist(d, 29))
    &&& rle.len() > 0 ==> rle[0] != 16
    &&& clcl.len() == 19
    &&& forall|c: int| 0 <= c < 19 ==> #[trigger] clcl[c] <= 7 && (occ(rle, c) == 0 ==> clcl[c] == 0)
    &&& codes_fit(clcl)
    &&& forall|k: int| 0 <= k < rle.len() ==> clcl[#[trigger] rle[k] as int] > 0
}

/// The literal/length codes 286 and 287 and the distance codes 30 and 31, which no
/// command uses, have no code.
pub open spec fn unused_codes_empty(ll: Seq<u32>, d: Seq<u32>) -> bool {
    &&& ll[286] == 0
    &&& ll[287] == 0
    &&& d[30] == 0
    &&& d[31] == 0
}

/// The bits of a dynamic tree header (RFC 1951, 3.2.7): HLIT, HDIST, HCLEN, the code length
/// code lengths in the sending order, then the coded run-length codes.
pub open spec fn tree_header_bits(ll: Seq<u32>, d: Seq<u32>, rle: Seq<u32>, extra: Seq<u32>, clcl: Seq<u32>) -> Seq<
    bool,
> {
    let hclen = spec_hclen(rle_counts(rle), 15);
    lsb_bits(spec_hlit(ll, 29) as u32, 5) + lsb_bits(spec_hdist(d, 29) as u32, 5) + lsb_bits(hclen as u32, 4)
        + cl_lengths_bits(clcl, hclen + 4) + items_stream(rle, extra, clcl)
}

/// `tree` is a dynamic tree header for `ll` and `d` whose run-length codes use 16, 17 and
/// 18 only where bits 0, 1 and 2 of `variant` allow them.
pub open spec fn variant_header(ll: Seq<u32>, d: Seq<u32>, variant: u32, tree: Seq<bool>) -> bool {
    exists|g: Seq<u32>, gb: Seq<u32>, clcl: Seq<u32>|
        #[trigger] tree_header_ok(ll, d, g, gb, clcl) && flags_respected(
            g,
            variant & 1 != 0,
            variant & 2 != 0,
            variant & 4 != 0,
        ) && tree == tree_header_bits(ll, d, g, gb, clcl)
}

pub proof fn lemma_variant_is_header(ll: Seq<u32>, d: Seq<u32>, variant: u32, tree: Seq<bool>)
    requires
        variant_header(ll, d, variant, tree),
    ensures
        is_tree_header(ll, d, tree),
{
    let (g, gb, clcl) = choose|g: Seq<u32>, gb: Seq<u32>, clcl: Seq<u32>|
        #[trigger] tree_header_ok(ll, d, g, gb, clcl) && flags_respected(
            g,
            variant & 1 != 0,
            variant & 2 != 0,
            variant & 4 != 0,
        ) && tree == tree_header_bits(ll, d, g, gb, clcl);
    assert(tree_header_ok(ll, d, g, gb, clcl));
}

/// `trees` holds a header of each of the eight variants, and the one at `w` is the
/// first of the shortest.
pub open spec fn shortest_variant(ll: Seq<u32>, d: Seq<u32>, trees: Seq<Seq<bool>>, w: int) -> bool {
    &&& trees.len() == 8
    &&& 0 <= w < 8
    &&& forall|v: int| 0 <= v < 8 ==> #[trigger] variant_header(ll, d, v as u32, trees[v])
    &&& forall|v: int| 0 <= v < 8 ==> trees[w].len() <= #[trigger] trees[v].len()
    &&& forall|v: int| 0 <= v < w ==> trees[w].len() < #[trigger] trees[v].len()
}

/// `tree` is a dynamic tree header for the code lengths `ll` and `d`.
pub open spec fn is_tree_header(ll: Seq<u32>, d: Seq<u32>, tree: Seq<bool>) -> bool {
    exists|rle: Seq<u32>, extra: Seq<u32>, clcl: Seq<u32>|
        #[trigger] tree_header_ok(ll, d, rle, extra, clcl) && tree == tree_header_bits(ll, d, rle, extra, clcl)
}

pub(crate) proof fn lemma_cl_lengths_bits_len(clcl: Seq<u32>, n: int)
    requires
        0 <= n,
    ensures
        cl_lengths_bits(clcl, n).len() == 3 * n,
    decreases n,
{
    if n > 0 {
        lemma_cl_lengths_bits_len(clcl, n - 1);
    }
}

pub(crate) proof fn lemma_items_stream_len(rle: Seq<u32>, extra: Seq<u32>, clcl: Seq<u32>)
    requires
        rle.len() == extra.len(),
    ensures
        items_stream(rle, extra, clcl).len() == items_bits(rle, clcl),
    decreases rle.len(),
{
    if rle.len() > 0 {
        lemma_items_stream_len(rle.drop_last(), extra.drop_last(), clcl);
    }
}

proof fn lemma_items_bits_bound(rle: Seq<u32>, clcl: Seq<u32>)
    requires
        forall|k: int| 0 <= k < rle.len() ==> #[trigger] rle[k] <= 18,
        clcl.len() == 19,
        forall|c: int| 0 <= c < 19 ==> #[trigger] clcl[c] <= 7,
    ensures
        0 <= items_bits(rle, clcl) <= 14 * rle.len(),
    decreases rle.len(),
{
    if rle.len() > 0 {
        let r0 = rle.drop_last();
        assert forall|k: int| 0 <= k < r0.len() implies #[trigger] r0[k] <= 18 by {
            assert(r0[k] == rle[k]);
        }
        lemma_items_bits_bound(r0, clcl);
        assert(rle.last() <= 18);
        assert(clcl[rle.last() as int] <= 7);
    }
}

proof fn lemma_weighted_occ_nonneg(clcl: Seq<u32>, rle: Seq<u32>, a: int, b: int)
    ensures
        weighted_occ(clcl, rle, a, b) >= 0,
    decreases b - a,
{
    if b > a {
        lemma_weighted_occ_nonneg(clcl, rle, a, b - 1);
        assert(clcl[b - 1] * occ(rle, b - 1) >= 0) by (nonlinear_arith);
    }
}

proof fn lemma_weighted_occ_mono(clcl: Seq<u32>, rle: Seq<u32>, k: int, b: int)
    requires
        0 <= k <= b,
    ensures
        weighted_occ(clcl, rle, 0, k) <= weighted_occ(clcl, rle, 0, b),
    decreases b - k,
{
    if b > k {
        lemma_weighted_occ_mono(clcl, rle, k, b - 1);
        assert(clcl[b - 1] * occ(rle, b - 1) >= 0) by (nonlinear_arith);
    }
}

/// Writes the 3-bit code length code lengths in the sending order.
fn write_code_length_lengths(clcl: &[u32; 19], hclen: usize, bp: &mut u8, out: &mut Vec<u8>)
    requires
        hclen <= 15,
        *old(bp) < 8,
    ensures
        *final(bp) < 8,
        stream_wf(old(out)@, *old(bp)) ==> stream_wf(final(out)@, *final(bp)) && stream_bits(final(out)@, *final(bp))
            == stream_bits(old(out)@, *old(bp)) + cl_lengths_bits(clcl@, hclen + 4),
{
    let ghost s0 = stream_bits(out@, *bp);
    let ghost wf0 = stream_wf(out@, *bp);
    let mut k: usize = 0;
    while k < hclen + 4
        invariant
            k <= hclen + 4,
            hclen <= 15,
            *bp < 8,
            wf0 ==> stream_wf(out@, *bp),
            wf0 ==> stream_bits(out@, *bp) == s0 + cl_lengths_bits(clcl@, k as int),
        decreases hclen + 4 - k,
    {
        let ghost sb = stream_bits(out@, *bp);
        let c = code_length_order(k);
        add_bits(clcl[c], 3, bp, out);
        proof {
            if wf0 {
                assert(cl_lengths_bits(clcl@, k + 1) == cl_lengths_bits(clcl@, k as int) + lsb_bits(clcl@[c as int], 3));
                assert(sb + lsb_bits(clcl@[c as int], 3) =~= s0 + cl_lengths_bits(clcl@, k + 1));
            }
        }
        k = k + 1;
    }
}

/// Writes the run-length codes of the tree header with the code length code, each
/// followed by its extra bits.
fn write_rle_codes(
    rle: &Vec<u32>,
    rle_bits: &Vec<u32>,
    clsymbols: &[u32; 19],
    clcl: &[u32; 19],
    bp: &mut u8,
    out: &mut Vec<u8>,
)
    requires
        rle@.len() == rle_bits@.len(),
        forall|j: int| 0 <= j < rle@.len() ==> #[trigger] rle_item_ok(rle@[j], rle_bits@[j]),
        forall|c: int| 0 <= c < 19 ==> #[trigger] clcl@[c] <= 7,
        forall|c: int| 0 <= c < 19 ==> #[trigger] clsymbols@[c] == canonical_code(clcl@, c),
        *old(bp) < 8,
    ensures
        *final(bp) < 8,
        stream_wf(old(out)@, *old(bp)) ==> stream_wf(final(out)@, *final(bp)) && stream_bits(final(out)@, *final(bp))
            == stream_bits(old(out)@, *old(bp)) + items_stream(rle@, rle_bits@, clcl@),
{
    let ghost s0 = stream_bits(out@, *bp);
    let ghost wf0 = stream_wf(out@, *bp);
    let ghost g = rle@;
    let ghost gb = rle_bits@;
    let mut k: usize = 0;
    while k < rle.len()
        invariant
            k <= g.len(),
            g == rle@,
            gb == rle_bits@,
            g.len() == gb.len(),
            *bp < 8,
            forall|c: int| 0 <= c < 19 ==> #[trigger] clcl@[c] <= 7,
            forall|c: int| 0 <= c < 19 ==> #[trigger] clsymbols@[c] == canonical_code(clcl@, c),
            forall|j: int| 0 <= j < g.len() ==> #[trigger] rle_item_ok(g[j], gb[j]),
            wf0 ==> stream_wf(out@, *bp),
            wf0 ==> stream_bits(out@, *bp) == s0 + items_stream(g.take(k as int), gb.take(k as int), clcl@),
        decreases g.len() - k,
    {
        let rle_val = rle[k] as usize;
        proof {
            assert(rle_item_ok(g[k as int], gb[k as int]));
            assert(g.take(k + 1).drop_last() =~= g.take(k as int));
            assert(gb.take(k + 1).drop_last() =~= gb.take(k as int));
        }
        let ghost sb = stream_bits(out@, *bp);
        let symbol = clsymbols[rle_val];
        add_huffman_bits(symbol, clcl[rle_val], bp, out);
        let ghost sc = stream_bits(out@, *bp);
        let ghost hb = msb_bits(symbol, clcl@[rle_val as int] as nat);
        proof {
            assert(symbol == canonical_code(clcl@, rle_val as int) as u32);
        }
        if rle_val == 16 {
            add_bits(rle_bits[k], 2, bp, out);
        } else if rle_val == 17 {
            add_bits(rle_bits[k], 3, bp, out);
        } else if rle_val == 18 {
            add_bits(rle_bits[k], 7, bp, out);
        }
        proof {
            if wf0 {
                let eb = lsb_bits(gb[k as int], rle_extra_len(g[k as int]) as nat);
                if rle_val <= 15 {
                    assert(eb =~= Seq::<bool>::empty());
                    assert(stream_bits(out@, *bp) == sc);
                }
                assert(stream_bits(out@, *bp) == sb + hb + eb);
                assert(items_stream(g.take(k + 1), gb.take(k + 1), clcl@) == items_stream(
                    g.take(k as int),
                    gb.take(k as int),
                    clcl@,
                ) + hb + eb);
                assert(sb + hb + eb =~= s0 + items_stream(g.take(k + 1), gb.take(k + 1), clcl@));
            }
        }
        k = k + 1;
    }
    proof {
        assert(g.take(g.len() as int) == g);
        assert(gb.take(gb.len() as int) == gb);
    }
}

proof fn lemma_encode_tree_facts(
    ll: Seq<u32>,
    d: Seq<u32>,
    g: Seq<u32>,
    gb: Seq<u32>,
    counts: Seq<usize>,
    clcl: Seq<u32>,
    hlit: int,
    hdist: int,
    hclen: int,
)
    requires
        hlit == spec_hlit(ll, 29),
        hdist == spec_hdist(d, 29),
        g.len() == gb.len(),
        forall|k: int| 0 <= k < g.len() ==> #[trigger] rle_item_ok(g[k], gb[k]),
        rle_decode(g, gb) == header_lengths(ll, d, hlit + 257, hdist),
        counts.len() == 19,
        clcl.len() == 19,
        forall|c: int| 0 <= c < 19 ==> #[trigger] counts[c] == occ(g, c),
        forall|c: int| 0 <= c < 19 ==> #[trigger] clcl[c] <= 7,
        forall|c: int| 0 <= c < 19 && #[trigger] counts[c] == 0 ==> clcl[c] == 0,
        forall|c: int| 0 <= c < 19 && #[trigger] counts[c] > 0 ==> clcl[c] > 0,
        codes_fit(clcl),
        0 <= hclen <= 15,
        hclen == spec_hclen(counts, 15),
        copy_not_first(g),
    ensures
        tree_header_ok(ll, d, g, gb, clcl),
        tree_header_bits(ll, d, g, gb, clcl) == lsb_bits(hlit as u32, 5) + lsb_bits(hdist as u32, 5) + lsb_bits(
            hclen as u32,
            4,
        ) + cl_lengths_bits(clcl, hclen + 4) + items_stream(g, gb, clcl),
        tree_header_bits(ll, d, g, gb, clcl).len() == 14 + (hclen + 4) * 3 + items_bits(g, clcl),
{
    assert(counts =~= rle_counts(g)) by {
        assert forall|c: int| 0 <= c < 19 implies counts[c] == #[trigger] rle_counts(g)[c] by {
            lemma_occ_bound(g, c);
        }
    }
    assert forall|c: int| 0 <= c < 19 implies #[trigger] clcl[c] <= 7 && (occ(g, c) == 0 ==> clcl[c] == 0) by {
        assert(counts[c] == occ(g, c));
    }
    assert forall|k: int| 0 <= k < g.len() implies clcl[#[trigger] g[k] as int] > 0 by {
        assert(rle_item_ok(g[k], gb[k]));
        lemma_occ_pos(g, k);
        assert(counts[g[k] as int] == occ(g, g[k] as int));
    }
    lemma_cl_lengths_bits_len(clcl, hclen + 4);
    lemma_items_stream_len(g, gb, clcl);
    reveal(copy_not_first);
}

/// Writes the header of a dynamic tree: HLIT, HDIST, HCLEN, the code length code lengths
/// and the coded run-length codes.
fn write_tree_header(
    hlit: usize,
    hdist: usize,
    hclen: usize,
    clcl: &[u32; 19],
    clsymbols: &[u32; 19],
    rle: &Vec<u32>,
    rle_bits: &Vec<u32>,
    bp: &mut u8,
    out: &mut Vec<u8>,
)
    requires
        hlit < 32,
        hdist < 32,
        hclen <= 15,
        rle@.len() == rle_bits@.len(),
        forall|j: int| 0 <= j < rle@.len() ==> #[trigger] rle_item_ok(rle@[j], rle_bits@[j]),
        forall|c: int| 0 <= c < 19 ==> #[trigger] clcl@[c] <= 7,
        forall|c: int| 0 <= c < 19 ==> #[trigger] clsymbols@[c] == canonical_code(clcl@, c),
        *old(bp) < 8,
    ensures
        *final(bp) < 8,
        stream_wf(old(out)@, *old(bp)) ==> stream_wf(final(out)@, *final(bp)) && stream_bits(final(out)@, *final(bp))
            == stream_bits(old(out)@, *old(bp)) + (lsb_bits(hlit as u32, 5) + lsb_bits(hdist as u32, 5) + lsb_bits(
            hclen as u32,
            4,
        ) + cl_lengths_bits(clcl@, hclen + 4) + items_stream(rle@, rle_bits@, clcl@)),
{
    let ghost s0 = stream_bits(out@, *bp);
    add_bits(hlit as u32, 5, bp, out);
    add_bits(hdist as u32, 5, bp, out);
    add_bits(hclen as u32, 4, bp, out);
    write_code_length_lengths(clcl, hclen, bp, out);
    write_rle_codes(rle, rle_bits, clsymbols, clcl, bp, out);
    proof {
        if stream_wf(old(out)@, *old(bp)) {
            assert(stream_bits(out@, *bp) =~= s0 + (lsb_bits(hlit as u32, 5) + lsb_bits(hdist as u32, 5) + lsb_bits(
                hclen as u32,
                4,
            ) + cl_lengths_bits(clcl@, hclen + 4) + items_stream(rle@, rle_bits@, clcl@)));
        }
    }
}

/// Encodes the Huffman tree and returns how many bits its encoding takes.
/// If `out` is `None` (size-only mode), we only compute and return the bit length.
#[verifier::spinoff_prover]
#[verifier::rlimit(60)]
pub fn encode_tree(
    ll_lengths: &[u32],
    d_lengths: &[u32],
    use_16: bool,
    use_17: bool,
    use_18: bool,
    bp: &mut u8,
    out: Option<&mut Vec<u8>>,
) -> (r: usize)
    requires
        ll_lengths@.len() >= 286,
        d_lengths@.len() >= 30,
        code_lengths_ok(ll_lengths@),
        code_lengths_ok(d_lengths@),
        *old(bp) < 8,
    ensures
        14 <= r <= 5000,
        *final(bp) < 8,
        out is None ==> *final(bp) == *old(bp),
        exists|g: Seq<u32>, gb: Seq<u32>, clcl: Seq<u32>|
            #[trigger] tree_header_ok(ll_lengths@, d_lengths@, g, gb, clcl) && flags_respected(g, use_16, use_17, use_18)
                && r == tree_header_bits(
                ll_lengths@,
                d_lengths@,
                g,
                gb,
                clcl,
            ).len() && (out matches Some(o) ==> (stream_wf(o@, *old(bp)) ==> stream_wf(final(o)@, *final(bp))
                && stream_bits(final(o)@, *final(bp)) == stream_bits(o@, *old(bp)) + tree_header_bits(
                ll_lengths@,
                d_lengths@,
                g,
                gb,
                clcl,
            ))),
{
    let mut hlit: usize = 29;
    let mut hdist: usize = 29;
    while hlit > 0 && ll_lengths[257 + hlit - 1] == 0
        invariant
            hlit <= 29,
            ll_lengths@.len() >= 286,
            spec_hlit(ll_lengths@, 29) == spec_hlit(ll_lengths@, hlit as int),
        decreases hlit,
    {
        hlit = hlit - 1;
    }
    while hdist > 0 && d_lengths[1 + hdist - 1] == 0
        invariant
            hdist <= 29,
            d_lengths@.len() >= 30,
            spec_hdist(d_lengths@, 29) == spec_hdist(d_lengths@, hdist as int),
        decreases hdist,
    {
        hdist = hdist - 1;
    }
    let hlit2 = hlit + 257;
    let size_only = out.is_none();
    let mut rle: Vec<u32> = Vec::new();
    let mut rle_bits: Vec<u32> = Vec::new();
    let mut clcounts = [0usize; 19];
    proof {
        assert forall|j: int| 0 <= j < hlit2 + hdist + 1 implies #[trigger] header_lengths(
            ll_lengths@,
            d_lengths@,
            hlit2 as int,
            hdist as int,
        )[j] <= 15 by {
            if j < hlit2 {
                assert(ll_lengths@[j] <= 15);
            } else {
                assert(d_lengths@[j - hlit2] <= 15);
            }
        }
    }
    let codes = rle_code_lengths(
        ll_lengths,
        d_lengths,
        hlit2,
        hdist,
        use_16,
        use_17,
        use_18,
        size_only,
        &mut rle,
        &mut rle_bits,
        &mut clcounts,
    );
    let ghost g = codes@.0;
    let ghost gb = codes@.1;
    let mut clcl = [0u32; 19];
    let mut clsymbols = [0u32; 19];
    proof {
        assert forall|c: int| 0 <= c < 19 implies #[trigger] clcounts@[c] < crate::katajainen::count_limit() by {
            lemma_occ_bound(g, c);
            crate::katajainen::lemma_count_limit_large();
        }
        crate::katajainen::lemma_capacity_pow2(7);
        crate::math::lemma_pow2_small();
        crate::tree::lemma_nonzero_count_nonneg(clcounts@);
    }
    let _ = calculate_bit_lengths(&clcounts, 7, &mut clcl);
    proof {
        assert forall|k: int| 0 <= k < 19 implies #[trigger] clcl@[k] <= 7 by {
            assert(clcl@[k] <= 1 || clcl@[k] <= 7);
        }
        assert forall|c: int| 0 <= c < 19 implies (#[trigger] clcounts@[c] > 0 ==> clcl@[c] > 0) && (clcounts@[c] == 0
            ==> clcl@[c] == 0) by {
            assert(clcl@[c] > 0 <==> clcounts@[c] > 0);
        }
    }
    if !size_only {
        let _ = lengths_to_symbols(&clcl, 7, &mut clsymbols);
    }
    let mut hclen: usize = 15;
    while hclen > 0 && clcounts[code_length_order(hclen + 4 - 1)] == 0
        invariant
            hclen <= 15,
            spec_hclen(clcounts@, 15) == spec_hclen(clcounts@, hclen as int),
        decreases hclen,
    {
        hclen = hclen - 1;
    }
    proof {
        assert forall|k: int| 0 <= k < g.len() implies #[trigger] g[k] <= 18 by {
            assert(rle_item_ok(g[k], gb[k]));
        }
        lemma_items_bits_by_counts(g, clcl@);
        lemma_items_bits_bound(g, clcl@);
        lemma_weighted_occ_nonneg(clcl@, g, 0, 19);
    }
    let ghost total = items_bits(g, clcl@);
    let mut result_size: usize = 14;
    result_size = result_size + (hclen + 4) * 3;
    let mut k: usize = 0;
    while k < 19
        invariant
            k <= 19,
            hclen <= 15,
            forall|c: int| 0 <= c < 19 ==> #[trigger] clcl@[c] <= 7,
            forall|c: int| 0 <= c < 19 ==> #[trigger] clcounts@[c] == occ(g, c),
            g.len() <= 316,
            total <= 14 * 316,
            weighted_occ(clcl@, g, 0, 19) <= total,
            result_size == 14 + (hclen + 4) * 3 + weighted_occ(clcl@, g, 0, k as int),
        decreases 19 - k,
    {
        proof {
            lemma_occ_bound(g, k as int);
            lemma_weighted_occ_mono(clcl@, g, k + 1, 19);
            assert(clcl@[k as int] * clcounts@[k as int] <= 7 * 316) by (nonlinear_arith)
                requires
                    clcl@[k as int] <= 7,
                    clcounts@[k as int] <= 316,
            ;
        }
        result_size = result_size + (clcl[k] as usize) * clcounts[k];
        k = k + 1;
    }
    result_size = result_size + clcounts[16] * 2;
    result_size = result_size + clcounts[17] * 3;
    result_size = result_size + clcounts[18] * 7;
    proof {
        assert(result_size == 14 + (hclen + 4) * 3 + total);
    }
    proof {
        lemma_encode_tree_facts(ll_lengths@, d_lengths@, g, gb, clcounts@, clcl@, hlit as int, hdist as int, hclen as int);
    }
    if let Some(out_vec) = out {
        write_tree_header(hlit, hdist, hclen, &clcl, &clsymbols, &rle, &rle_bits, bp, out_vec);
    }
    result_size
}

/// The bytes after bit `bit` is written at bit position `bp` of the last byte.
pub open spec fn put_bit(out: Seq<u8>, bp: u8, bit: u8) -> Seq<u8> {
    if bp == 0 || out.len() == 0 {
        out.push(bit << bp)
    } else {
        out.update(out.len() - 1, out.last() | (bit << bp))
    }
}

/// A header byte that holds nothing but the final flag.
proof fn lemma_flag_byte(f: u8)
    by (bit_vector)
    requires
        f <= 1,
    ensures
        f << 0u8 == f,
        f | (0u8 << 1u8) == f,
        f | (0u8 << 2u8) == f,
        (f >> 1u8) & 3u8 == 0,
        (f & 1u8 == 1) <==> f == 1,
        ((f >> 0u8) & 1u8 == 1u8) <==> f == 1,
        f >> 1u8 == 0u8,
{
}

/// Adding one bit with `put_bit` appends it to the stream.
pub(crate) proof fn lemma_put_bit(o: Seq<u8>, b: u8, bit: u8)
    requires
        stream_wf(o, b),
        bit <= 1,
    ensures
        stream_wf(put_bit(o, b, bit), ((b + 1) % 8) as u8),
        stream_bits(put_bit(o, b, bit), ((b + 1) % 8) as u8) == stream_bits(o, b).push(bit == 1),
{
    let n = put_bit(o, b, bit);
    if b == 0 || o.len() == 0 {
        assert(b == 0);
        lemma_flag_byte(bit);
        assert(n == o.push(bit));
        crate::bitstream::lemma_bytes_bits_push(o, bit);
        assert(n.drop_last() == o);
        assert(byte_bits(bit).take(1) =~= seq![bit == 1]);
        assert(stream_bits(n, 1) =~= stream_bits(o, 0).push(bit == 1));
    } else {
        crate::bitstream::lemma_or_bit(o.last(), bit, b);
        assert(n.drop_last() == o.drop_last());
        if b == 7 {
            assert(byte_bits(n.last()).take(8) == byte_bits(n.last()));
            assert(stream_bits(n, 0) =~= stream_bits(o, b).push(bit == 1));
        } else {
            assert(stream_bits(n, (b + 1) as u8) =~= stream_bits(o, b).push(bit == 1));
        }
    }
}

/// The three header bits of a stored block: the final flag, then block type 00.
pub(crate) proof fn lemma_stored_header_bits(o: Seq<u8>, b: u8, f: u8)
    requires
        stream_wf(o, b),
        f <= 1,
    ensures
        stream_wf(stored_header(o, b, f), ((b + 3) % 8) as u8),
        stream_bits(stored_header(o, b, f), ((b + 3) % 8) as u8) == stream_bits(o, b) + seq![f == 1, false, false],
        stored_header(o, b, f).len() >= 1,
{
    let b1 = ((b + 1) % 8) as u8;
    let b2 = ((b + 2) % 8) as u8;
    let b3 = ((b + 3) % 8) as u8;
    let h1 = put_bit(o, b, f);
    let h2 = put_bit(h1, b1, 0);
    let h3 = put_bit(h2, b2, 0);
    lemma_put_bit(o, b, f);
    lemma_put_bit(h1, b1, 0);
    assert(((b1 + 1) % 8) as u8 == b2);
    lemma_put_bit(h2, b2, 0);
    assert(((b2 + 1) % 8) as u8 == b3);
    assert(h3 == stored_header(o, b, f));
    assert(stream_bits(h3, b3) =~= stream_bits(o, b) + seq![f == 1, false, false]);
    if h3.len() == 0 {
        assert(b3 == 0);
        assert(stream_bits(h3, b3).len() == 0);
    }
}

/// The length bytes of a stored block and of its one's complement.
proof fn lemma_stored_len_bytes(bs: usize, nlen: u16)
    by (bit_vector)
    requires
        bs <= 65535,
        nlen == !(bs as u16),
    ensures
        (bs & 0xFFusize) as u8 == (bs % 256) as u8,
        ((bs >> 8usize) & 0xFFusize) as u8 == (bs / 256) as u8,
        nlen == 65535 - bs,
        (nlen & 0xFFu16) as u8 == (nlen % 256) as u8,
        ((nlen >> 8u16) & 0xFFu16) as u8 == (nlen / 256) as u8,
{
}

/// The bytes after the three header bits of a stored block: `bfinal`, then the block
/// type 00.
pub open spec fn stored_header(out: Seq<u8>, bp: u8, bfinal: u8) -> Seq<u8> {
    let b1 = ((bp + 1) % 8) as u8;
    let b2 = ((bp + 2) % 8) as u8;
    put_bit(put_bit(put_bit(out, bp, bfinal), b1, 0), b2, 0)
}

/// Size of the stored block that starts at `pos`: the bytes left, at most 65535.
pub open spec fn stored_size(pos: int, end: int) -> int {
    if end - pos > 65535 {
        65535
    } else {
        end - pos
    }
}

/// The bytes of `data[pos..end]` written as stored blocks of at most 65535 bytes after
/// `out` (whose last byte holds `bp` bits): each block has its header bits, is aligned
/// to a byte, and holds its length, the length's complement and the bytes. Only the last
/// block is marked final, and only when `final_block` is set. At least one block is
/// written.
pub open spec fn stored_blocks(out: Seq<u8>, bp: u8, final_block: bool, data: Seq<u8>, pos: int, end: int) -> Seq<u8>
    decreases end - pos,
{
    let bs = stored_size(pos, end);
    let cf = pos + bs >= end;
    let nlen = 65535 - bs;
    let o = stored_header(
        out,
        bp,
        if final_block && cf {
            1u8
        } else {
            0u8
        },
    ) + seq![(bs % 256) as u8, (bs / 256) as u8, (nlen % 256) as u8, (nlen / 256) as u8] + data.subrange(
        pos,
        pos + bs,
    );
    if cf || bs <= 0 {
        o
    } else {
        stored_blocks(o, 0, final_block, data, pos + bs, end)
    }
}

/// What a DEFLATE reader gets from stored blocks that start at byte `i` of `bytes`,
/// each block starting on a byte: the header byte (BFINAL in bit 0, block type 00 in
/// bits 1 and 2), LEN and NLEN (least significant byte first, NLEN the complement of
/// LEN) and LEN bytes; reading stops after the final block. `None` where the bytes do
/// not hold such blocks.
pub open spec fn inflate_stored(bytes: Seq<u8>, i: int) -> Option<Seq<u8>>
    decreases bytes.len() - i,
{
    if i < 0 || i + 5 > bytes.len() {
        None
    } else {
        let h = bytes[i];
        let len = bytes[i + 1] + 256 * bytes[i + 2];
        let nlen = bytes[i + 3] + 256 * bytes[i + 4];
        if (h >> 1u8) & 3u8 != 0 || len + nlen != 65535 || i + 5 + len > bytes.len() {
            None
        } else {
            let d = bytes.subrange(i + 5, i + 5 + len);
            if h & 1u8 == 1 {
                Some(d)
            } else {
                match inflate_stored(bytes, i + 5 + len) {
                    Some(rest) => Some(d + rest),
                    None => None,
                }
            }
        }
    }
}

/// Stored blocks written from a byte boundary read back as the bytes they hold: a
/// reader that starts where the blocks start gets `data[pos..end]` when the last block
/// is final, and reads on past them otherwise.
pub proof fn lemma_stored_blocks_inflate(out: Seq<u8>, final_block: bool, data: Seq<u8>, pos: int, end: int, tail: Seq<u8>)
    requires
        0 <= pos <= end <= data.len(),
    ensures
        final_block ==> inflate_stored(stored_blocks(out, 0, final_block, data, pos, end) + tail, out.len() as int)
            == Some(data.subrange(pos, end)),
        !final_block ==> inflate_stored(stored_blocks(out, 0, final_block, data, pos, end) + tail, out.len() as int)
            == match inflate_stored(stored_blocks(out, 0, final_block, data, pos, end) + tail, stored_blocks(out, 0, final_block, data, pos, end).len() as int) {
                Some(rest) => Some(data.subrange(pos, end) + rest),
                None => None,
            },
    decreases end - pos,
{
    let bs = stored_size(pos, end);
    let cf = pos + bs >= end;
    let nlen = 65535 - bs;
    let f: u8 = if final_block && cf {
        1u8
    } else {
        0u8
    };
    let hdr = stored_header(out, 0, f);
    assert(hdr == out.push(f)) by {
        lemma_flag_byte(f);
        assert(put_bit(out, 0, f) == out.push(f << 0u8));
    }
    let o = hdr + seq![(bs % 256) as u8, (bs / 256) as u8, (nlen % 256) as u8, (nlen / 256) as u8] + data.subrange(
        pos,
        pos + bs,
    );
    let full = stored_blocks(out, 0, final_block, data, pos, end);
    let bytes = full + tail;
    let i = out.len() as int;
    assert(o.len() == out.len() + 5 + bs);
    lemma_flag_byte(f);
    if !(cf || bs <= 0) {
        lemma_stored_blocks_prefix(o, final_block, data, pos + bs, end);
    } else {
        assert(full == o);
    }
    assert(full.len() >= o.len() && full.subrange(0, o.len() as int) == o);
    assert(bytes.subrange(0, o.len() as int) =~= o);
    assert forall|j: int| 0 <= j < o.len() implies #[trigger] bytes[j] == o[j] by {
        assert(bytes.subrange(0, o.len() as int)[j] == bytes[j]);
    }
    assert(o[i] == f);
    assert(o[i + 1] == (bs % 256) as u8);
    assert(o[i + 2] == (bs / 256) as u8);
    assert(o[i + 3] == (nlen % 256) as u8);
    assert(o[i + 4] == (nlen / 256) as u8);
    assert(bytes[i] == f);
    assert(bytes[i + 1] == (bs % 256) as u8 && bytes[i + 2] == (bs / 256) as u8);
    assert(bytes[i + 3] == (nlen % 256) as u8 && bytes[i + 4] == (nlen / 256) as u8);
    assert((bs % 256) as u8 + 256 * ((bs / 256) as u8) == bs);
    assert((nlen % 256) as u8 + 256 * ((nlen / 256) as u8) == nlen);
    assert(bytes.subrange(i + 5, i + 5 + bs) =~= data.subrange(pos, pos + bs));
    if cf || bs <= 0 {
        assert(full == o);
        if !final_block {
            assert(f == 0);
        }
    } else {
        lemma_stored_blocks_inflate(o, final_block, data, pos + bs, end, tail);
        assert(f == 0);
        assert(data.subrange(pos, pos + bs) + data.subrange(pos + bs, end) =~= data.subrange(pos, end));
        if !final_block {
            let rest = inflate_stored(bytes, full.len() as int);
            if rest is Some {
                assert(data.subrange(pos, pos + bs) + (data.subrange(pos + bs, end) + rest->0) =~= data.subrange(pos, end) + rest->0);
            }
        }
    }
}

/// Stored blocks keep the bytes they were written after.
pub(crate) proof fn lemma_stored_blocks_prefix(out: Seq<u8>, final_block: bool, data: Seq<u8>, pos: int, end: int)
    requires
        0 <= pos <= end <= data.len(),
    ensures
        stored_blocks(out, 0, final_block, data, pos, end).len() >= out.len(),
        stored_blocks(out, 0, final_block, data, pos, end).subrange(0, out.len() as int) == out,
    decreases end - pos,
{
    let bs = stored_size(pos, end);
    let cf = pos + bs >= end;
    let f: u8 = if final_block && cf {
        1u8
    } else {
        0u8
    };
    assert(stored_header(out, 0, f) == out.push(f)) by {
        lemma_flag_byte(f);
    }
    let nlen = 65535 - bs;
    let o = stored_header(out, 0, f) + seq![(bs % 256) as u8, (bs / 256) as u8, (nlen % 256) as u8, (nlen / 256) as u8]
        + data.subrange(pos, pos + bs);
    assert(o.subrange(0, out.len() as int) =~= out);
    if !(cf || bs <= 0) {
        lemma_stored_blocks_prefix(o, final_block, data, pos + bs, end);
        let full = stored_blocks(o, 0, final_block, data, pos + bs, end);
        assert(full.subrange(0, out.len() as int) =~= full.subrange(0, o.len() as int).subrange(0, out.len() as int));
    }
}

/// Appends a non-compressed block (BTYPE=00) to the output bitstream.
pub fn add_non_compressed_block(
    final_block: bool,
    in_data: &[u8],
    instart: usize,
    inend: usize,
    bp: &mut u8,
    out: &mut Vec<u8>,
)
    requires
        instart <= inend <= in_data@.len(),
        *old(bp) < 8,
    ensures
        *final(bp) == 0,
        final(out)@ == stored_blocks(old(out)@, *old(bp), final_block, in_data@, instart as int, inend as int),
{
    let ghost total = stored_blocks(out@, *bp, final_block, in_data@, instart as int, inend as int);
    let mut pos = instart;
    loop
        invariant_except_break
            instart <= pos <= inend <= in_data@.len(),
            *bp < 8,
            total == stored_blocks(out@, *bp, final_block, in_data@, pos as int, inend as int),
        ensures
            *bp == 0,
            out@ == total,
        decreases inend - pos,
    {
        let ghost out0 = out@;
        let ghost bp0 = *bp;
        let mut blocksize: usize = 65535;
        if blocksize > inend - pos {
            blocksize = inend - pos;
        }
        let currentfinal = pos + blocksize >= inend;
        let nlen: u16 = !(blocksize as u16);
        let bfinal: u8 = if final_block && currentfinal {
            1
        } else {
            0
        };
        add_bit(bfinal, bp, out);
        add_bit(0, bp, out);
        add_bit(0, bp, out);
        proof {
            assert((((bp0 + 1) % 8) as u8 + 1) % 8 == ((bp0 + 2) % 8) as u8);
            assert(out@ == stored_header(out0, bp0, bfinal));
        }
        *bp = 0;
        let ghost h = out@;
        out.push((blocksize & 0xFF) as u8);
        out.push(((blocksize >> 8) & 0xFF) as u8);
        out.push((nlen & 0xFF) as u8);
        out.push(((nlen >> 8) & 0xFF) as u8);
        proof {
            lemma_stored_len_bytes(blocksize, nlen);
        }
        let ghost h4 = out@;
        let mut i: usize = 0;
        while i < blocksize
            invariant
                i <= blocksize,
                pos + blocksize <= inend <= in_data@.len(),
                out@ == h4 + in_data@.subrange(pos as int, pos + i),
            decreases blocksize - i,
        {
            out.push(in_data[pos + i]);
            proof {
                assert(out@ =~= h4 + in_data@.subrange(pos as int, pos + i + 1));
            }
            i = i + 1;
        }
        proof {
            assert(h4 =~= stored_header(out0, bp0, bfinal) + seq![
                (blocksize % 256) as u8,
                (blocksize / 256) as u8,
                ((65535 - blocksize) % 256) as u8,
                ((65535 - blocksize) / 256) as u8,
            ]);
        }
        if currentfinal {
            break;
        }
        pos = pos + blocksize;
    }
}

/// The bits of one command: the Huffman code of its literal, or of its length symbol
/// followed by the length's extra bits, the code of its distance symbol and the
/// distance's extra bits.
pub open spec fn cmd_code_bits(
    ll_symbols: Seq<u32>,
    ll_lengths: Seq<u32>,
    d_symbols: Seq<u32>,
    d_lengths: Seq<u32>,
    litlen: u16,
    dist: u16,
) -> Seq<bool> {
    if dist == 0 {
        msb_bits(ll_symbols[litlen as int], ll_lengths[litlen as int] as nat)
    } else {
        let ls = spec_length_symbol(litlen as int);
        let ds = spec_dist_symbol(dist as int);
        msb_bits(ll_symbols[ls], ll_lengths[ls] as nat) + lsb_bits(
            spec_length_extra_bits_value(litlen as int) as u32,
            spec_length_extra_bits(litlen as int) as nat,
        ) + msb_bits(d_symbols[ds], d_lengths[ds] as nat) + lsb_bits(
            spec_dist_extra_bits_value(dist as int) as u32,
            spec_dist_extra_bits(dist as int) as nat,
        )
    }
}

/// The bits of the commands `lo..hi`, one after the other.
pub open spec fn lz77_data_bits(
    ll_symbols: Seq<u32>,
    ll_lengths: Seq<u32>,
    d_symbols: Seq<u32>,
    d_lengths: Seq<u32>,
    litlens: Seq<u16>,
    dists: Seq<u16>,
    lo: int,
    hi: int,
) -> Seq<bool>
    decreases hi - lo,
{
    if hi <= lo {
        Seq::empty()
    } else {
        lz77_data_bits(ll_symbols, ll_lengths, d_symbols, d_lengths, litlens, dists, lo, hi - 1) + cmd_code_bits(
            ll_symbols,
            ll_lengths,
            d_symbols,
            d_lengths,
            litlens[hi - 1],
            dists[hi - 1],
        )
    }
}

/// Writes the codes of one literal or match.
#[verifier::spinoff_prover]
fn add_cmd_bits(
    litlen: usize,
    dist: usize,
    ll_symbols: &[u32],
    ll_lengths: &[u32],
    d_symbols: &[u32],
    d_lengths: &[u32],
    bp: &mut u8,
    out: &mut Vec<u8>,
)
    requires
        if dist == 0 {
            litlen < 256
        } else {
            3 <= litlen <= 258 && dist <= 32768
        },
        ll_symbols@.len() == 288,
        ll_lengths@.len() == 288,
        d_symbols@.len() == 32,
        d_lengths@.len() == 32,
        code_lengths_ok(ll_lengths@),
        code_lengths_ok(d_lengths@),
        *old(bp) < 8,
    ensures
        *final(bp) < 8,
        stream_wf(old(out)@, *old(bp)) ==> stream_wf(final(out)@, *final(bp)) && stream_bits(final(out)@, *final(bp))
            == stream_bits(old(out)@, *old(bp)) + cmd_code_bits(
            ll_symbols@,
            ll_lengths@,
            d_symbols@,
            d_lengths@,
            litlen as u16,
            dist as u16,
        ),
{
    let ghost si = stream_bits(out@, *bp);
    if dist == 0 {
        add_huffman_bits(ll_symbols[litlen], ll_lengths[litlen], bp, out);
    } else {
        let lls = get_length_symbol(litlen) as usize;
        let ds = get_dist_symbol(dist) as usize;
        proof {
            crate::symbols::length_code_law(litlen as int);
            crate::symbols::dist_code_law(dist as int);
        }
        add_huffman_bits(ll_symbols[lls], ll_lengths[lls], bp, out);
        let lev = get_length_extra_bits_value(litlen);
        let leb = get_length_extra_bits(litlen);
        add_bits(lev, leb, bp, out);
        add_huffman_bits(d_symbols[ds], d_lengths[ds], bp, out);
        let dev = get_dist_extra_bits_value(dist);
        let deb = get_dist_extra_bits(dist);
        add_bits(dev, deb, bp, out);
        proof {
            if stream_wf(old(out)@, *old(bp)) {
                let s4 = stream_bits(out@, *bp);
                let c = cmd_code_bits(ll_symbols@, ll_lengths@, d_symbols@, d_lengths@, litlen as u16, dist as u16);
                assert(s4 =~= si + c);
            }
        }
    }
}

/// Writes Huffman-encoded LZ77 codes.
pub fn add_lz77_data(
    lz77: &Lz77Store,
    lstart: usize,
    lend: usize,
    ll_symbols: &[u32],
    ll_lengths: &[u32],
    d_symbols: &[u32],
    d_lengths: &[u32],
    bp: &mut u8,
    out: &mut Vec<u8>,
)
    requires
        lstart <= lend <= lz77.litlens@.len(),
        lz77.dists@.len() == lz77.litlens@.len(),
        cmds_codable(lz77.litlens@, lz77.dists@, lstart as int, lend as int),
        ll_symbols@.len() == 288,
        ll_lengths@.len() == 288,
        d_symbols@.len() == 32,
        d_lengths@.len() == 32,
        code_lengths_ok(ll_lengths@),
        code_lengths_ok(d_lengths@),
        *old(bp) < 8,
    ensures
        *final(bp) < 8,
        stream_wf(old(out)@, *old(bp)) ==> stream_wf(final(out)@, *final(bp)) && stream_bits(final(out)@, *final(bp))
            == stream_bits(old(out)@, *old(bp)) + lz77_data_bits(
            ll_symbols@,
            ll_lengths@,
            d_symbols@,
            d_lengths@,
            lz77.litlens@,
            lz77.dists@,
            lstart as int,
            lend as int,
        ),
{
    let ghost s0 = stream_bits(out@, *bp);
    let ghost wf0 = stream_wf(out@, *bp);
    let mut i = lstart;
    while i < lend
        invariant
            lstart <= i <= lend <= lz77.litlens@.len(),
            lz77.dists@.len() == lz77.litlens@.len(),
            cmds_codable(lz77.litlens@, lz77.dists@, lstart as int, lend as int),
            ll_symbols@.len() == 288,
            ll_lengths@.len() == 288,
            d_symbols@.len() == 32,
            d_lengths@.len() == 32,
            code_lengths_ok(ll_lengths@),
            code_lengths_ok(d_lengths@),
            *bp < 8,
            wf0 ==> stream_wf(out@, *bp) && stream_bits(out@, *bp) == s0 + lz77_data_bits(
                ll_symbols@,
                ll_lengths@,
                d_symbols@,
                d_lengths@,
                lz77.litlens@,
                lz77.dists@,
                lstart as int,
                i as int,
            ),
        decreases lend - i,
    {
        let dist = lz77.dists[i] as usize;
        let litlen = lz77.litlens[i] as usize;
        proof {
            assert(if lz77.dists@[i as int] == 0 {
                lz77.litlens@[i as int] < 256
            } else {
                3 <= lz77.litlens@[i as int] <= 258 && lz77.dists@[i as int] <= 32768
            });
        }
        let ghost si = stream_bits(out@, *bp);
        add_cmd_bits(litlen, dist, ll_symbols, ll_lengths, d_symbols, d_lengths, bp, out);
        proof {
            if wf0 {
                assert(stream_bits(out@, *bp) =~= s0 + lz77_data_bits(
                    ll_symbols@,
                    ll_lengths@,
                    d_symbols@,
                    d_lengths@,
                    lz77.litlens@,
                    lz77.dists@,
                    lstart as int,
                    i + 1,
                ));
            }
        }
        i = i + 1;
    }
}

/// Finds the best permutation of the run-length options and writes the tree with it.
pub fn add_dynamic_tree(ll_lengths: &[u32], d_lengths: &[u32], bp: &mut u8, out: &mut Vec<u8>)
    requires
        ll_lengths@.len() >= 286,
        d_lengths@.len() >= 30,
        code_lengths_ok(ll_lengths@),
        code_lengths_ok(d_lengths@),
        *old(bp) < 8,
    ensures
        *final(bp) < 8,
        ({
            let s0 = stream_bits(old(out)@, *old(bp));
            let s1 = stream_bits(final(out)@, *final(bp));
            stream_wf(old(out)@, *old(bp)) ==> {
                &&& stream_wf(final(out)@, *final(bp))
                &&& s0.len() + 14 <= s1.len() <= s0.len() + 5000
                &&& s1.take(s0.len() as int) == s0
                &&& s1.subrange(s0.len() as int, s0.len() + 10int) == lsb_bits(spec_hlit(ll_lengths@, 29) as u32, 5)
                    + lsb_bits(spec_hdist(d_lengths@, 29) as u32, 5)
                &&& exists|tree: Seq<bool>| #[trigger] is_tree_header(ll_lengths@, d_lengths@, tree) && s1 == s0 + tree
                &&& exists|trees: Seq<Seq<bool>>, w: int, tree: Seq<bool>|
                    #![trigger shortest_variant(ll_lengths@, d_lengths@, trees, w), variant_header(ll_lengths@, d_lengths@, w as u32, tree)]
                    shortest_variant(ll_lengths@, d_lengths@, trees, w) && variant_header(
                        ll_lengths@,
                        d_lengths@,
                        w as u32,
                        tree,
                    ) && s1 == s0 + tree
            }
        }),
{
    let mut best: u32 = 0;
    let mut bestsize: usize = 0;
    let ghost mut trees: Seq<Seq<bool>> = Seq::empty();
    let mut i: u32 = 0;
    while i < 8
        invariant
            i <= 8,
            best < 8,
            ll_lengths@.len() >= 286,
            d_lengths@.len() >= 30,
            code_lengths_ok(ll_lengths@),
            code_lengths_ok(d_lengths@),
            trees.len() == i,
            forall|v: int| 0 <= v < i ==> #[trigger] variant_header(ll_lengths@, d_lengths@, v as u32, trees[v]),
            i == 0 ==> bestsize == 0,
            i > 0 ==> best < i && bestsize == trees[best as int].len() && bestsize >= 14,
            forall|v: int| 0 <= v < i ==> bestsize <= #[trigger] trees[v].len(),
            forall|v: int| 0 <= v < best ==> bestsize < #[trigger] trees[v].len(),
        decreases 8 - i,
    {
        let mut scratch_bp: u8 = 0;
        let size = encode_tree(ll_lengths, d_lengths, (i & 1) != 0, (i & 2) != 0, (i & 4) != 0, &mut scratch_bp, None);
        proof {
            let (g, gb, clcl) = choose|g: Seq<u32>, gb: Seq<u32>, clcl: Seq<u32>|
                #[trigger] tree_header_ok(ll_lengths@, d_lengths@, g, gb, clcl) && flags_respected(
                    g,
                    (i & 1) != 0,
                    (i & 2) != 0,
                    (i & 4) != 0,
                ) && size == tree_header_bits(ll_lengths@, d_lengths@, g, gb, clcl).len();
            let tree = tree_header_bits(ll_lengths@, d_lengths@, g, gb, clcl);
            assert(variant_header(ll_lengths@, d_lengths@, i, tree));
            trees = trees.push(tree);
            assert(trees[i as int] == tree);
            assert(forall|v: int| 0 <= v < i ==> trees[v] == trees.drop_last()[v]);
        }
        if bestsize == 0 || size < bestsize {
            bestsize = size;
            best = i;
        }
        i = i + 1;
    }
    let ghost o0 = out@;
    let ghost bp0 = *bp;
    let _ = encode_tree(ll_lengths, d_lengths, (best & 1) != 0, (best & 2) != 0, (best & 4) != 0, bp, Some(out));
    proof {
        let (g, gb, clcl) = choose|g: Seq<u32>, gb: Seq<u32>, clcl: Seq<u32>|
            #[trigger] tree_header_ok(ll_lengths@, d_lengths@, g, gb, clcl) && flags_respected(
                g,
                (best & 1) != 0,
                (best & 2) != 0,
                (best & 4) != 0,
            ) && (stream_wf(o0, bp0) ==> stream_wf(out@, *bp) && stream_bits(out@, *bp) == stream_bits(o0, bp0)
                + tree_header_bits(ll_lengths@, d_lengths@, g, gb, clcl));
        let tree = tree_header_bits(ll_lengths@, d_lengths@, g, gb, clcl);
        assert(is_tree_header(ll_lengths@, d_lengths@, tree));
        assert(variant_header(ll_lengths@, d_lengths@, best, tree));
        assert(shortest_variant(ll_lengths@, d_lengths@, trees, best as int));
        assert(variant_header(ll_lengths@, d_lengths@, (best as int) as u32, tree));
    }
}

/// The commands `lstart..lend` of the store are a correct parse of its data from the
/// position of the first one, and its counts agree with its commands.
pub open spec fn block_ready(lz77: Lz77Store, lstart: int, lend: int) -> bool {
    &&& lz77.wf()
    &&& 0 <= lstart <= lend <= lz77.litlens@.len()
    &&& lz77.data@.len() < 0xffff_fffe
    &&& lstart < lend ==> parse_ok(lz77.data@, lz77.litlens@, lz77.dists@, lz77.pos@, lstart, lend, lz77.pos@[lstart] as int)
}

/// First byte of the data that the commands `lstart..lend` stand for.
pub open spec fn block_start(lz77: Lz77Store, lstart: int, lend: int) -> int {
    if lstart < lend {
        lz77.pos@[lstart] as int
    } else {
        0
    }
}

/// What a correct parse of a block gives: codable commands, at least one byte per
/// command, bytes inside the data, and a byte range equal to the parsed length.
pub proof fn lemma_block_ready(lz77: Lz77Store, view: Lz77StoreView, lstart: int, lend: int)
    requires
        block_ready(lz77, lstart, lend),
        view.litlens@ == lz77.litlens@,
        view.dists@ == lz77.dists@,
        view.pos@ == lz77.pos@,
        view.ll_counts@ == lz77.ll_counts@,
        view.d_counts@ == lz77.d_counts@,
    ensures
        cmds_codable(lz77.litlens@, lz77.dists@, lstart, lend),
        lend - lstart <= parsed_len(lz77.litlens@, lz77.dists@, lstart, lend),
        block_start(lz77, lstart, lend) + parsed_len(lz77.litlens@, lz77.dists@, lstart, lend) <= lz77.data@.len(),
        byte_range(view, lstart, lend) == parsed_len(lz77.litlens@, lz77.dists@, lstart, lend),
        block_size_ready(view, lstart, lend),
{
    let l = lz77.litlens@;
    let d = lz77.dists@;
    let p = lz77.pos@;
    let data = lz77.data@;
    if lstart < lend {
        let start = p[lstart] as int;
        assert(cmd_ok(data, l, d, p, lstart, start + parsed_len(l, d, lstart, lstart)));
        assert(start <= data.len());
        lemma_parse_decodes(data, l, d, p, lstart, lend, start);
        assert forall|i: int| lstart <= i < lend implies if #[trigger] d[i] == 0 {
            l[i] < 256
        } else {
            3 <= l[i] <= 258 && d[i] <= 32768
        } by {
            assert(cmd_ok(data, l, d, p, i, start + parsed_len(l, d, lstart, i)));
        }
        crate::blocksplitter::lemma_parsed_len_grows(data, l, d, p, lstart, lend, start, lstart, lend);
        crate::blocksplitter::lemma_parsed_len_grows(data, l, d, p, lstart, lend, start, lend - 1, lend);
        crate::blocksplitter::lemma_parsed_len_grows(data, l, d, p, lstart, lend, start, lstart, lend - 1);
        assert(cmd_ok(data, l, d, p, lend - 1, start + parsed_len(l, d, lstart, lend - 1)));
        assert(parsed_len(l, d, lstart, lstart) == 0);
    }
}

/// The canonical codes of the code lengths `lengths`.
pub open spec fn codes_of(lengths: Seq<u32>) -> Seq<u32> {
    Seq::new(lengths.len(), |i: int| canonical_code(lengths, i) as u32)
}

/// Writes the commands `lstart..lend` and the end-of-block symbol with the canonical
/// codes of the given code lengths.
fn write_block_data(
    lz77: &Lz77Store,
    lstart: usize,
    lend: usize,
    ll_lengths: &[u32; NUM_LL],
    d_lengths: &[u32; NUM_D],
    bp: &mut u8,
    out: &mut Vec<u8>,
)
    requires
        lstart <= lend <= lz77.litlens@.len(),
        lz77.dists@.len() == lz77.litlens@.len(),
        cmds_codable(lz77.litlens@, lz77.dists@, lstart as int, lend as int),
        code_lengths_ok(ll_lengths@),
        code_lengths_ok(d_lengths@),
        *old(bp) < 8,
    ensures
        *final(bp) < 8,
        stream_wf(old(out)@, *old(bp)) ==> stream_wf(final(out)@, *final(bp)) && stream_bits(final(out)@, *final(bp))
            == stream_bits(old(out)@, *old(bp)) + lz77_data_bits(
            codes_of(ll_lengths@),
            ll_lengths@,
            codes_of(d_lengths@),
            d_lengths@,
            lz77.litlens@,
            lz77.dists@,
            lstart as int,
            lend as int,
        ) + msb_bits(canonical_code(ll_lengths@, 256) as u32, ll_lengths@[256] as nat),
{
    let mut ll_symbols = [0u32; NUM_LL];
    let mut d_symbols = [0u32; NUM_D];
    let r1 = lengths_to_symbols(ll_lengths, 15, &mut ll_symbols);
    let r2 = lengths_to_symbols(d_lengths, 15, &mut d_symbols);
    proof {
        assert(r1 is Ok && r2 is Ok);
        assert(ll_symbols@ =~= codes_of(ll_lengths@));
        assert(d_symbols@ =~= codes_of(d_lengths@));
    }
    let ghost s0 = stream_bits(out@, *bp);
    add_lz77_data(lz77, lstart, lend, &ll_symbols, ll_lengths, &d_symbols, d_lengths, bp, out);
    add_huffman_bits(ll_symbols[256], ll_lengths[256], bp, out);
    proof {
        assert(ll_symbols@[256] == canonical_code(ll_lengths@, 256) as u32);
    }
}

/// The fixed literal/length codes.
pub open spec fn fixed_ll_codes() -> Seq<u32> {
    codes_of(fixed_ll_lengths())
}

/// The fixed distance codes.
pub open spec fn fixed_d_codes() -> Seq<u32> {
    codes_of(fixed_d_lengths())
}

/// Writes the three header bits of a Huffman-coded block: `final_block`, then the
/// block type (01 fixed, 10 dynamic) least significant bit first.
#[verifier::spinoff_prover]
#[verifier::rlimit(30)]
fn add_block_header(final_block: bool, fixed: bool, bp: &mut u8, out: &mut Vec<u8>)
    requires
        *old(bp) < 8,
    ensures
        *final(bp) < 8,
        stream_wf(old(out)@, *old(bp)) ==> stream_wf(final(out)@, *final(bp)) && stream_bits(final(out)@, *final(bp))
            == stream_bits(old(out)@, *old(bp)) + seq![final_block, fixed, !fixed],
{
    let ghost s0 = stream_bits(out@, *bp);
    let ghost wf0 = stream_wf(out@, *bp);
    let b0: u8 = if final_block {
        1
    } else {
        0
    };
    add_bit(b0, bp, out);
    let ghost s1 = stream_bits(out@, *bp);
    let b1: u8 = if fixed {
        1
    } else {
        0
    };
    add_bit(b1, bp, out);
    let ghost s2 = stream_bits(out@, *bp);
    let b2: u8 = if fixed {
        0
    } else {
        1
    };
    add_bit(b2, bp, out);
    proof {
        if wf0 {
            assert(s1 == s0.push(final_block));
            assert(s2 == s1.push(fixed));
            assert(stream_bits(out@, *bp) == s2.push(!fixed));
            assert(stream_bits(out@, *bp) =~= s0 + seq![final_block, fixed, !fixed]);
        }
    }
}

/// Writes the commands `lstart..lend` as a block with the fixed Huffman tree.
fn add_fixed_block(final_block: bool, lz77: &Lz77Store, lstart: usize, lend: usize, bp: &mut u8, out: &mut Vec<u8>)
    requires
        lstart <= lend <= lz77.litlens@.len(),
        lz77.dists@.len() == lz77.litlens@.len(),
        cmds_codable(lz77.litlens@, lz77.dists@, lstart as int, lend as int),
        *old(bp) < 8,
    ensures
        *final(bp) < 8,
        stream_wf(old(out)@, *old(bp)) ==> stream_wf(final(out)@, *final(bp)) && stream_bits(final(out)@, *final(bp))
            == stream_bits(old(out)@, *old(bp)) + seq![final_block, true, false] + lz77_data_bits(
            fixed_ll_codes(),
            fixed_ll_lengths(),
            fixed_d_codes(),
            fixed_d_lengths(),
            lz77.litlens@,
            lz77.dists@,
            lstart as int,
            lend as int,
        ) + msb_bits(canonical_code(fixed_ll_lengths(), 256) as u32, 7),
{
    add_block_header(final_block, true, bp, out);
    let mut ll_lengths = [0u32; NUM_LL];
    let mut d_lengths = [0u32; NUM_D];
    get_fixed_tree(&mut ll_lengths, &mut d_lengths);
    proof {
        assert(ll_lengths@ =~= fixed_ll_lengths());
        assert(d_lengths@ =~= fixed_d_lengths());
    }
    write_block_data(lz77, lstart, lend, &ll_lengths, &d_lengths, bp, out);
}

/// The stream bits `s1` are `s0` followed by a block with a dynamic Huffman tree,
/// flagged `final_block`, of the commands `lo..hi`: the header bits, a tree header of 14
/// to 5000 bits that describes the code lengths `ll` and `dl` (no code for the symbols no
/// command uses), then the commands and the end-of-block symbol coded with the canonical
/// codes of those code lengths. Both are prefix codes, and the end symbol and the symbols
/// of every command have a code.
pub open spec fn dynamic_block_written(
    l: Seq<u16>,
    d: Seq<u16>,
    lo: int,
    hi: int,
    final_block: bool,
    s0: Seq<bool>,
    s1: Seq<bool>,
) -> bool {
    exists|ll: Seq<u32>, dl: Seq<u32>, tree: Seq<bool>|
        #[trigger] dynamic_block_bits(ll, dl, tree, l, d, lo, hi, final_block, s0) == s1 && ll.len() == 288 && dl.len()
            == 32 && code_lengths_ok(ll) && code_lengths_ok(dl) && unused_codes_empty(ll, dl) && 14 <= tree.len() <= 5000
            && is_tree_header(ll, dl, tree) && codes_fit(ll) && codes_fit(dl) && ll[256] > 0
            && crate::inflate_dynamic::cmds_have_codes(ll, dl, l, d, lo, hi)
}

/// A dynamic block as the writer produces it reads back, after the history
/// `data[..start]`, as the bytes its commands stand for, whatever bits follow it.
pub proof fn lemma_dynamic_written_inflates(
    data: Seq<u8>,
    start: int,
    l: Seq<u16>,
    d: Seq<u16>,
    p: Seq<u32>,
    lo: int,
    hi: int,
    final_block: bool,
    s0: Seq<bool>,
    s1: Seq<bool>,
    z: Seq<bool>,
)
    requires
        dynamic_block_written(l, d, lo, hi, final_block, s0, s1),
        parse_ok(data, l, d, p, lo, hi, start),
        0 <= lo <= hi <= l.len(),
        l.len() == d.len(),
        d.len() == p.len(),
        0 <= start <= data.len(),
    ensures
        crate::inflate_dynamic::inflate_dynamic_block(s1 + z, s0.len() as int, data.subrange(0, start)) == Some(
            (data.subrange(0, start + parsed_len(l, d, lo, hi)), final_block, s1.len() as int),
        ),
        s0.len() < s1.len(),
        s1.take(s0.len() as int) == s0,
{
    let (ll, dl, tree) = choose|ll: Seq<u32>, dl: Seq<u32>, tree: Seq<bool>|
        #[trigger] dynamic_block_bits(ll, dl, tree, l, d, lo, hi, final_block, s0) == s1 && ll.len() == 288 && dl.len()
            == 32 && code_lengths_ok(ll) && code_lengths_ok(dl) && unused_codes_empty(ll, dl) && 14 <= tree.len() <= 5000
            && is_tree_header(ll, dl, tree) && codes_fit(ll) && codes_fit(dl) && ll[256] > 0
            && crate::inflate_dynamic::cmds_have_codes(ll, dl, l, d, lo, hi);
    let (rle, extra, clcl) = choose|rle: Seq<u32>, extra: Seq<u32>, clcl: Seq<u32>|
        #[trigger] tree_header_ok(ll, dl, rle, extra, clcl) && tree == tree_header_bits(ll, dl, rle, extra, clcl);
    crate::inflate_dynamic::lemma_dynamic_block_inflate(
        data,
        start,
        final_block,
        s0,
        l,
        d,
        p,
        lo,
        hi,
        ll,
        dl,
        rle,
        extra,
        clcl,
        z,
    );
    assert(s1.take(s0.len() as int) =~= s0);
}

/// The bits of a dynamic-tree block with code lengths `ll` and `dl` and tree header
/// `tree`, after `s0`.
pub open spec fn dynamic_block_bits(
    ll: Seq<u32>,
    dl: Seq<u32>,
    tree: Seq<bool>,
    l: Seq<u16>,
    d: Seq<u16>,
    lo: int,
    hi: int,
    final_block: bool,
    s0: Seq<bool>,
) -> Seq<bool> {
    s0 + seq![final_block, false, true] + tree + lz77_data_bits(codes_of(ll), ll, codes_of(dl), dl, l, d, lo, hi)
        + msb_bits(canonical_code(ll, 256) as u32, ll[256] as nat)
}

/// Writes the commands `lstart..lend` as a block with a dynamic Huffman tree.
fn add_dynamic_block(
    final_block: bool,
    lz77: &Lz77Store,
    view: &Lz77StoreView,
    lstart: usize,
    lend: usize,
    bp: &mut u8,
    out: &mut Vec<u8>,
)
    requires
        wide_usize(),
        lstart <= lend <= lz77.litlens@.len(),
        lz77.dists@.len() == lz77.litlens@.len(),
        cmds_codable(lz77.litlens@, lz77.dists@, lstart as int, lend as int),
        view.litlens@ == lz77.litlens@,
        view.dists@ == lz77.dists@,
        lend - lstart < 0x1_0000_0000,
        lend - lstart >= 864 && view.ll_counts@.len() > 0 && view.d_counts@.len() > 0 ==> view.wf(),
        *old(bp) < 8,
    ensures
        *final(bp) < 8,
        stream_wf(old(out)@, *old(bp)) ==> stream_wf(final(out)@, *final(bp)) && dynamic_block_written(
            lz77.litlens@,
            lz77.dists@,
            lstart as int,
            lend as int,
            final_block,
            stream_bits(old(out)@, *old(bp)),
            stream_bits(final(out)@, *final(bp)),
        ),
{
    let ghost s0 = stream_bits(out@, *bp);
    let ghost wf0 = stream_wf(out@, *bp);
    add_block_header(final_block, false, bp, out);
    let ghost s3 = stream_bits(out@, *bp);
    let mut ll_lengths = [0u32; NUM_LL];
    let mut d_lengths = [0u32; NUM_D];
    let _ = get_dynamic_lengths(view, lstart, lend, &mut ll_lengths, &mut d_lengths);
    add_dynamic_tree(&ll_lengths, &d_lengths, bp, out);
    let ghost s4 = stream_bits(out@, *bp);
    write_block_data(lz77, lstart, lend, &ll_lengths, &d_lengths, bp, out);
    proof {
        if wf0 {
            let s6 = stream_bits(out@, *bp);
            let tree = s4.subrange(s3.len() as int, s4.len() as int);
            assert(s4 =~= s3 + tree);
            let t = choose|t: Seq<bool>| #[trigger] is_tree_header(ll_lengths@, d_lengths@, t) && s4 == s3 + t;
            assert(tree =~= t);
            crate::squeeze::lemma_cmds_have_codes(*view, lstart as int, lend as int, ll_lengths@, d_lengths@);
            assert(dynamic_block_bits(
                ll_lengths@,
                d_lengths@,
                tree,
                lz77.litlens@,
                lz77.dists@,
                lstart as int,
                lend as int,
                final_block,
                s0,
            ) =~= s6);
        }
    }
}

/// Compresses a single block.
pub fn add_lz77_block(
    _options: &SafeOptions,
    btype: BlockType,
    final_block: bool,
    lz77: &Lz77Store,
    lstart: usize,
    lend: usize,
    bp: &mut u8,
    out: &mut Vec<u8>,
) -> (r: Result<(), Error>)
    requires
        wide_usize(),
        block_ready(*lz77, lstart as int, lend as int),
        *old(bp) < 8,
    ensures
        r is Ok,
        *final(bp) < 8,
        btype == BlockType::Uncompressed ==> *final(bp) == 0 && final(out)@ == stored_blocks(
            old(out)@,
            *old(bp),
            final_block,
            lz77.data@,
            block_start(*lz77, lstart as int, lend as int),
            block_start(*lz77, lstart as int, lend as int) + parsed_len(
                lz77.litlens@,
                lz77.dists@,
                lstart as int,
                lend as int,
            ),
        ),
        btype == BlockType::FixedTree && stream_wf(old(out)@, *old(bp)) ==> stream_wf(final(out)@, *final(bp))
            && stream_bits(final(out)@, *final(bp)) == stream_bits(old(out)@, *old(bp)) + seq![final_block, true, false]
            + lz77_data_bits(
            fixed_ll_codes(),
            fixed_ll_lengths(),
            fixed_d_codes(),
            fixed_d_lengths(),
            lz77.litlens@,
            lz77.dists@,
            lstart as int,
            lend as int,
        ) + msb_bits(canonical_code(fixed_ll_lengths(), 256) as u32, 7),
        btype == BlockType::DynamicTree && stream_wf(old(out)@, *old(bp)) ==> stream_wf(final(out)@, *final(bp))
            && dynamic_block_written(
            lz77.litlens@,
            lz77.dists@,
            lstart as int,
            lend as int,
            final_block,
            stream_bits(old(out)@, *old(bp)),
            stream_bits(final(out)@, *final(bp)),
        ),
{
    let view = lz77.as_view();
    proof {
        lemma_block_ready(*lz77, view, lstart as int, lend as int);
    }
    if btype == BlockType::Uncompressed {
        proof {
            if lstart < lend {
                assert(lz77.pos@[lend - 1] + cmd_len(lz77.litlens@, lz77.dists@, lend - 1) <= 0x1_0000_0000);
            }
        }
        let length = lz77_get_byte_range(&view, lstart, lend);
        let pos = if lstart == lend {
            0
        } else {
            lz77.pos[lstart] as usize
        };
        add_non_compressed_block(final_block, lz77.data, pos, pos + length, bp, out);
        return Ok(());
    }
    if btype == BlockType::FixedTree {
        add_fixed_block(final_block, lz77, lstart, lend, bp, out);
    } else {
        add_dynamic_block(final_block, lz77, &view, lstart, lend, bp, out);
    }
    Ok(())
}

/// The stream bits `s1` are `s0` followed by a block with the fixed tree, flagged
/// `final_block`, of some correct parse of `data[start..start + len]`.
pub open spec fn fixed_block_written(data: Seq<u8>, start: int, len: int, final_block: bool, s0: Seq<bool>, s1: Seq<bool>) -> bool {
    exists|l: Seq<u16>, d: Seq<u16>, p: Seq<u32>, lo: int, hi: int|
        #[trigger] parse_ok(data, l, d, p, lo, hi, start) && 0 <= lo <= hi <= l.len() && l.len() == d.len() && d.len()
            == p.len() && start
            + parsed_len(l, d, lo, hi) == start + len && s1 == s0 + seq![final_block, true, false] + lz77_data_bits(
            fixed_ll_codes(),
            fixed_ll_lengths(),
            fixed_d_codes(),
            fixed_d_lengths(),
            l,
            d,
            lo,
            hi,
        ) + msb_bits(canonical_code(fixed_ll_lengths(), 256) as u32, 7)
}

/// The bytes `o1` (last byte holding `b1` bits) are `o0` (last byte holding `b0` bits)
/// followed by one block, flagged `final_block`, of the `len` bytes of `data` from
/// `start` on, which the commands `lo..hi` parse: stored blocks of those bytes, a
/// fixed-tree block of a correct parse of them, or a dynamic-tree block of the
/// commands.
pub open spec fn block_written(
    data: Seq<u8>,
    start: int,
    len: int,
    l: Seq<u16>,
    d: Seq<u16>,
    lo: int,
    hi: int,
    final_block: bool,
    o0: Seq<u8>,
    b0: u8,
    o1: Seq<u8>,
    b1: u8,
) -> bool {
    ||| b1 == 0 && o1 == stored_blocks(o0, b0, final_block, data, start, start + len)
    ||| stream_wf(o1, b1) && fixed_block_written(data, start, len, final_block, stream_bits(o0, b0), stream_bits(o1, b1))
    ||| stream_wf(o1, b1) && dynamic_block_written(l, d, lo, hi, final_block, stream_bits(o0, b0), stream_bits(o1, b1))
}

/// `f` is a fixed-tree size that the block of the commands `lstart..lend` is weighed
/// with: that of the commands themselves, or that of some correct parse of the same bytes.
pub open spec fn fixed_weighed(lz77: Lz77Store, lstart: int, lend: int, f: int) -> bool {
    ||| f == 3 + symbols_bits(fixed_ll_lengths(), fixed_d_lengths(), lz77.litlens@, lz77.dists@, lstart, lend) + 7
    ||| exists|l: Seq<u16>, d: Seq<u16>, p: Seq<u32>|
        #[trigger] parse_ok(lz77.data@, l, d, p, 0, l.len() as int, block_start(lz77, lstart, lend)) && l.len() == d.len()
            && parsed_len(l, d, 0, l.len() as int) == parsed_len(lz77.litlens@, lz77.dists@, lstart, lend) && f == 3
            + symbols_bits(fixed_ll_lengths(), fixed_d_lengths(), l, d, 0, l.len() as int) + 7
}

/// Some dynamic-tree encoding of the commands `lstart..lend` is no larger than the stored
/// encoding of their bytes and than a fixed-tree encoding they are weighed with.
pub open spec fn dynamic_pays(lz77: Lz77Store, lstart: int, lend: int) -> bool {
    exists|v: Lz77StoreView, d: int, f: int|
        #![trigger is_dynamic_block_size(v, lstart, lend, d), fixed_weighed(lz77, lstart, lend, f)]
        store_viewed(lz77, v) && is_dynamic_block_size(v, lstart, lend, d) && fixed_weighed(lz77, lstart, lend, f) && d
            <= f && d <= stored_bits(byte_range(v, lstart, lend))
}

/// A block that starts with a fixed-tree header is not a dynamic-tree block.
proof fn lemma_fixed_not_dynamic(
    l: Seq<u16>,
    d: Seq<u16>,
    lo: int,
    hi: int,
    f: bool,
    s0: Seq<bool>,
    s1: Seq<bool>,
    rest: Seq<bool>,
)
    requires
        s1 == s0 + seq![f, true, false] + rest,
    ensures
        !dynamic_block_written(l, d, lo, hi, f, s0, s1),
{
    if dynamic_block_written(l, d, lo, hi, f, s0, s1) {
        let (ll, dl, tree) = choose|ll: Seq<u32>, dl: Seq<u32>, tree: Seq<bool>|
            #[trigger] dynamic_block_bits(ll, dl, tree, l, d, lo, hi, f, s0) == s1 && ll.len() == 288 && dl.len()
                == 32 && code_lengths_ok(ll) && code_lengths_ok(dl) && unused_codes_empty(ll, dl) && 14 <= tree.len() <= 5000
                && is_tree_header(ll, dl, tree) && codes_fit(ll) && codes_fit(dl) && ll[256] > 0
                && crate::inflate_dynamic::cmds_have_codes(ll, dl, l, d, lo, hi);
        assert(s1[s0.len() + 1int] == (s0 + seq![f, true, false] + rest)[s0.len() + 1int]);
        assert(s1[s0.len() + 1int] == dynamic_block_bits(ll, dl, tree, l, d, lo, hi, f, s0)[s0.len() + 1int]);
    }
}

/// Chooses the cheapest block type, and calls add_lz77_block. A fixed-tree block is
/// parsed again for the fixed tree when the store is small or the fixed tree costs at
/// most a tenth more than a dynamic one.
pub fn add_lz77_block_auto_type(
    options: &SafeOptions,
    final_block: bool,
    lz77: &Lz77Store,
    lstart: usize,
    lend: usize,
    bp: &mut u8,
    out: &mut Vec<u8>,
) -> (r: Result<(), Error>)
    requires
        wide_usize(),
        block_ready(*lz77, lstart as int, lend as int),
        *old(bp) < 8,
    ensures
        *final(bp) < 8,
        r is Ok,
        lstart == lend && stream_wf(old(out)@, *old(bp)) ==> stream_wf(final(out)@, *final(bp)) && stream_bits(
            final(out)@,
            *final(bp),
        ) == stream_bits(old(out)@, *old(bp)) + lsb_bits(
            if final_block {
                1u32
            } else {
                0u32
            },
            1,
        ) + lsb_bits(1, 2) + lsb_bits(0, 7),
        r is Ok && stream_wf(old(out)@, *old(bp)) ==> block_written(
            lz77.data@,
            block_start(*lz77, lstart as int, lend as int),
            parsed_len(lz77.litlens@, lz77.dists@, lstart as int, lend as int),
            lz77.litlens@,
            lz77.dists@,
            lstart as int,
            lend as int,
            final_block,
            old(out)@,
            *old(bp),
            final(out)@,
            *final(bp),
        ),
        r is Ok && stream_wf(old(out)@, *old(bp)) && dynamic_block_written(
            lz77.litlens@,
            lz77.dists@,
            lstart as int,
            lend as int,
            final_block,
            stream_bits(old(out)@, *old(bp)),
            stream_bits(final(out)@, *final(bp)),
        ) && !(*final(bp) == 0 && final(out)@ == stored_blocks(
            old(out)@,
            *old(bp),
            final_block,
            lz77.data@,
            block_start(*lz77, lstart as int, lend as int),
            block_start(*lz77, lstart as int, lend as int) + parsed_len(
                lz77.litlens@,
                lz77.dists@,
                lstart as int,
                lend as int,
            ),
        )) ==> dynamic_pays(*lz77, lstart as int, lend as int),
{
    let view = lz77.as_view();
    proof {
        lemma_block_ready(*lz77, view, lstart as int, lend as int);
    }
    let uncompressedcost = calculate_block_size(&view, lstart, lend, 0);
    let mut fixedcost = calculate_block_size(&view, lstart, lend, 1);
    let dyncost = calculate_block_size(&view, lstart, lend, 2);
    let expensivefixed = lz77.litlens.len() < 1000 || fixedcost * 10 <= dyncost * 11;
    if lstart == lend {
        let ghost s0 = stream_bits(out@, *bp);
        put_bits(
            if final_block {
                1
            } else {
                0
            },
            1,
            bp,
            out,
        );
        put_bits(1, 2, bp, out);
        put_bits(0, 7, bp, out);
        proof {
            if stream_wf(old(out)@, *old(bp)) {
                let fb: u32 = if final_block {
                    1u32
                } else {
                    0u32
                };
                assert(stream_bits(out@, *bp) =~= s0 + lsb_bits(fb, 1) + lsb_bits(1, 2) + lsb_bits(0, 7));
                crate::inflate::lemma_fixed_ll_codes(256);
                assert(((fb >> 0u32) & 1u32 == 1u32 <==> fb == 1u32) && (1u32 >> 0u32) & 1u32 == 1u32 && (1u32
                    >> 1u32) & 1u32 != 1u32 && (forall|t: u32| t < 32 ==> (0u32 >> t) & 1u32 != 1u32)) by (bit_vector)
                    requires
                        fb <= 1,
                ;
                assert(lsb_bits(fb, 1) + lsb_bits(1, 2) + lsb_bits(0, 7) =~= seq![final_block, true, false] + msb_bits(
                    0,
                    7,
                ));
                let l = lz77.litlens@;
                let d = lz77.dists@;
                assert(parse_ok(lz77.data@, l, d, lz77.pos@, lstart as int, lstart as int, 0));
                assert(lz77_data_bits(
                    fixed_ll_codes(),
                    fixed_ll_lengths(),
                    fixed_d_codes(),
                    fixed_d_lengths(),
                    l,
                    d,
                    lstart as int,
                    lstart as int,
                ) =~= Seq::<bool>::empty());
                assert(stream_bits(out@, *bp) =~= s0 + seq![final_block, true, false] + lz77_data_bits(
                    fixed_ll_codes(),
                    fixed_ll_lengths(),
                    fixed_d_codes(),
                    fixed_d_lengths(),
                    l,
                    d,
                    lstart as int,
                    lstart as int,
                ) + msb_bits(canonical_code(fixed_ll_lengths(), 256) as u32, 7));
            }
        }
        return Ok(());
    }
    let ghost start = block_start(*lz77, lstart as int, lend as int);
    let ghost len = parsed_len(lz77.litlens@, lz77.dists@, lstart as int, lend as int);
    let mut fixedstore = UninitializedLz77Store::new().initialize(lz77.data);
    if expensivefixed {
        proof {
            assert(lz77.pos@[lend - 1] + cmd_len(lz77.litlens@, lz77.dists@, lend - 1) <= 0x1_0000_0000);
        }
        let instart = lz77.pos[lstart] as usize;
        let inend = instart + lz77_get_byte_range(&view, lstart, lend);
        let mut s = ZopfliBlockState { options, lmc: None, blockstart: instart, blockend: inend };
        lz77_optimal_fixed(&mut s, lz77.data, instart, inend, &mut fixedstore);
        let fixed_len = fixedstore.litlens.len();
        let fview = fixedstore.as_view();
        proof {
            assert(fixedstore.litlens@.subrange(0, 0) =~= fixedstore.litlens@.subrange(0, 0));
            if fixed_len > 0 {
                assert(crate::lz77::cmd_ok(
                    lz77.data@,
                    fixedstore.litlens@,
                    fixedstore.dists@,
                    fixedstore.pos@,
                    0,
                    instart + parsed_len(fixedstore.litlens@, fixedstore.dists@, 0, 0),
                ));
            }
            assert(block_ready(fixedstore, 0, fixed_len as int));
            lemma_block_ready(fixedstore, fview, 0, fixed_len as int);
        }
        fixedcost = calculate_block_size(&fview, 0, fixed_len, 1);
        proof {
            let st = block_start(*lz77, lstart as int, lend as int);
            assert(st == instart);
            assert(parse_ok(lz77.data@, fixedstore.litlens@, fixedstore.dists@, fixedstore.pos@, 0, fixed_len as int, st));
            assert(parsed_len(fixedstore.litlens@, fixedstore.dists@, 0, fixed_len as int) == parsed_len(
                lz77.litlens@,
                lz77.dists@,
                lstart as int,
                lend as int,
            ));
            assert(fixed_weighed(*lz77, lstart as int, lend as int, fixedcost as int));
        }
    }
    proof {
        assert(fixed_weighed(*lz77, lstart as int, lend as int, fixedcost as int));
    }
    let ghost s0 = stream_bits(out@, *bp);
    if uncompressedcost < fixedcost && uncompressedcost < dyncost {
        add_lz77_block(options, BlockType::Uncompressed, final_block, lz77, lstart, lend, bp, out)
    } else if fixedcost < dyncost {
        if expensivefixed {
            let fixed_len = fixedstore.litlens.len();
            proof {
                if fixed_len > 0 {
                    assert(crate::lz77::cmd_ok(
                        lz77.data@,
                        fixedstore.litlens@,
                        fixedstore.dists@,
                        fixedstore.pos@,
                        0,
                        lz77.pos@[lstart as int] + parsed_len(fixedstore.litlens@, fixedstore.dists@, 0, 0),
                    ));
                }
            }
            let r = add_lz77_block(options, BlockType::FixedTree, final_block, &fixedstore, 0, fixed_len, bp, out);
            proof {
                if stream_wf(old(out)@, *old(bp)) {
                    let rest = lz77_data_bits(
                        fixed_ll_codes(),
                        fixed_ll_lengths(),
                        fixed_d_codes(),
                        fixed_d_lengths(),
                        fixedstore.litlens@,
                        fixedstore.dists@,
                        0,
                        fixed_len as int,
                    ) + msb_bits(canonical_code(fixed_ll_lengths(), 256) as u32, 7);
                    assert(stream_bits(out@, *bp) =~= s0 + seq![final_block, true, false] + rest);
                    lemma_fixed_not_dynamic(
                        lz77.litlens@,
                        lz77.dists@,
                        lstart as int,
                        lend as int,
                        final_block,
                        s0,
                        stream_bits(out@, *bp),
                        rest,
                    );
                    let s1 = stream_bits(out@, *bp);
                    assert(parse_ok(
                        lz77.data@,
                        fixedstore.litlens@,
                        fixedstore.dists@,
                        fixedstore.pos@,
                        0,
                        fixed_len as int,
                        start,
                    ));
                }
            }
            r
        } else {
            let r = add_lz77_block(options, BlockType::FixedTree, final_block, lz77, lstart, lend, bp, out);
            proof {
                if stream_wf(old(out)@, *old(bp)) {
                    let rest = lz77_data_bits(
                        fixed_ll_codes(),
                        fixed_ll_lengths(),
                        fixed_d_codes(),
                        fixed_d_lengths(),
                        lz77.litlens@,
                        lz77.dists@,
                        lstart as int,
                        lend as int,
                    ) + msb_bits(canonical_code(fixed_ll_lengths(), 256) as u32, 7);
                    assert(stream_bits(out@, *bp) =~= s0 + seq![final_block, true, false] + rest);
                    lemma_fixed_not_dynamic(
                        lz77.litlens@,
                        lz77.dists@,
                        lstart as int,
                        lend as int,
                        final_block,
                        s0,
                        stream_bits(out@, *bp),
                        rest,
                    );
                    assert(parse_ok(lz77.data@, lz77.litlens@, lz77.dists@, lz77.pos@, lstart as int, lend as int, start));
                }
            }
            r
        }
    } else {
        let r = add_lz77_block(options, BlockType::DynamicTree, final_block, lz77, lstart, lend, bp, out);
        proof {
            assert(store_viewed(*lz77, view));
            assert(is_dynamic_block_size(view, lstart as int, lend as int, dyncost as int));
            assert(dynamic_pays(*lz77, lstart as int, lend as int));
        }
        r
    }
}

/// The lengths of the commands `lo..b` are those of `lo..a` and of `a..b`.
pub proof fn lemma_parsed_len_split(l: Seq<u16>, d: Seq<u16>, lo: int, a: int, b: int)
    requires
        lo <= a <= b,
    ensures
        parsed_len(l, d, lo, b) == parsed_len(l, d, lo, a) + parsed_len(l, d, a, b),
    decreases b - a,
{
    if b > a {
        lemma_parsed_len_split(l, d, lo, a, b - 1);
    }
}

/// A part `a..b` of a correct parse is a correct parse from where its first command
/// starts.
pub proof fn lemma_parse_sub(data: Seq<u8>, l: Seq<u16>, d: Seq<u16>, p: Seq<u32>, lo: int, hi: int, start: int, a: int, b: int)
    requires
        parse_ok(data, l, d, p, lo, hi, start),
        lo <= a <= b <= hi,
    ensures
        parse_ok(data, l, d, p, a, b, start + parsed_len(l, d, lo, a)),
        parsed_len(l, d, lo, b) == parsed_len(l, d, lo, a) + parsed_len(l, d, a, b),
{
    lemma_parsed_len_split(l, d, lo, a, b);
    assert forall|i: int| a <= i < b implies #[trigger] cmd_ok(
        data,
        l,
        d,
        p,
        i,
        start + parsed_len(l, d, lo, a) + parsed_len(l, d, a, i),
    ) by {
        lemma_parsed_len_split(l, d, lo, a, i);
        assert(cmd_ok(data, l, d, p, i, start + parsed_len(l, d, lo, i)));
    }
}

/// The positions of the commands of a parse that starts at `start`.
pub open spec fn parse_positions(l: Seq<u16>, d: Seq<u16>, start: int) -> Seq<u32> {
    Seq::new(l.len(), |k: int| (start + parsed_len(l, d, 0, k)) as u32)
}

/// `litlens` and `dists` are a correct parse of exactly `data[start..end]`.
pub open spec fn is_parse_of(data: Seq<u8>, start: int, end: int, l: Seq<u16>, d: Seq<u16>) -> bool {
    &&& l.len() == d.len()
    &&& parse_ok(data, l, d, parse_positions(l, d, start), 0, l.len() as int, start)
    &&& start + parsed_len(l, d, 0, l.len() as int) == end
}

/// Checks that a command is correct at `pos`.
#[verifier::loop_isolation(false)]
fn check_cmd(in_data: &[u8], pos: usize, litlen: u16, dist: u16) -> (r: bool)
    ensures
        r == if dist == 0 {
            pos < in_data@.len() && litlen == in_data@[pos as int] as u16
        } else {
            3 <= litlen <= 258 && valid_match(in_data@, pos as int, dist as int, litlen as int)
        },
{
    if dist == 0 {
        return pos < in_data.len() && litlen == in_data[pos] as u16;
    }
    if litlen < 3 || litlen > 258 || dist >= 32768 || (dist as usize) > pos {
        return false;
    }
    let len = litlen as usize;
    if pos > in_data.len() || len > in_data.len() - pos {
        return false;
    }
    let back = pos - dist as usize;
    let mut t: usize = 0;
    while t < len
        invariant
            t <= len,
            pos + len <= in_data@.len(),
            back == pos - dist,
            back + len <= in_data@.len(),
            1 <= dist <= pos,
            forall|u: int| 0 <= u < t ==> #[trigger] crate::lz77::match_byte_ok(in_data@, pos as int, dist as int, u),
        decreases len - t,
    {
        if in_data[back + t] != in_data[pos + t] {
            proof {
                assert(!crate::lz77::match_byte_ok(in_data@, pos as int, dist as int, t as int));
            }
            return false;
        }
        t = t + 1;
    }
    true
}

/// Appends `litlens`/`dists` to the store, at the positions they stand for, when they
/// are a correct parse of exactly `in_data[start..end]`; otherwise leaves the store as
/// it is and returns false.
#[verifier::loop_isolation(false)]
pub fn store_parse(
    store: &mut Lz77Store,
    in_data: &[u8],
    start: usize,
    end: usize,
    litlens: &Vec<u16>,
    dists: &Vec<u16>,
) -> (r: bool)
    requires
        old(store).wf(),
        start <= end <= in_data@.len(),
        old(store).litlens@.len() + (end - start) < 0xffff_fffe,
    ensures
        r == is_parse_of(in_data@, start as int, end as int, litlens@, dists@),
        final(store).wf(),
        final(store).data == old(store).data,
        !r ==> *final(store) == *old(store),
        r ==> final(store).litlens@ == old(store).litlens@ + litlens@ && final(store).dists@ == old(store).dists@
            + dists@ && final(store).pos@ == old(store).pos@ + parse_positions(litlens@, dists@, start as int),
{
    let n = litlens.len();
    if dists.len() != n {
        return false;
    }
    let ghost l = litlens@;
    let ghost d = dists@;
    let ghost ps = parse_positions(l, d, start as int);
    let mut pos = start;
    let mut k: usize = 0;
    while k < n
        invariant
            n == l.len() == d.len(),
            litlens@ == l,
            dists@ == d,
            k <= n,
            start <= pos <= end <= in_data@.len(),
            pos == start + parsed_len(l, d, 0, k as int),
            parse_ok(in_data@, l, d, ps, 0, k as int, start as int),
        decreases n - k,
    {
        let lit = litlens[k];
        let dist = dists[k];
        let ok = check_cmd(in_data, pos, lit, dist);
        let step: usize = if dist == 0 {
            1
        } else {
            lit as usize
        };
        proof {
            assert(ps[k as int] == (start + parsed_len(l, d, 0, k as int)) as u32);
        }
        if !ok || step > end - pos {
            proof {
                if is_parse_of(in_data@, start as int, end as int, l, d) {
                    assert(cmd_ok(in_data@, l, d, ps, k as int, start + parsed_len(l, d, 0, k as int)));
                    crate::blocksplitter::lemma_parsed_len_grows(in_data@, l, d, ps, 0, n as int, start as int, k + 1, n as int);
                }
            }
            return false;
        }
        proof {
            assert(cmd_ok(in_data@, l, d, ps, k as int, start + parsed_len(l, d, 0, k as int)));
            assert forall|i: int| 0 <= i < k + 1 implies #[trigger] cmd_ok(in_data@, l, d, ps, i, start + parsed_len(l, d, 0, i)) by {
                if i < k {
                    assert(cmd_ok(in_data@, l, d, ps, i, start + parsed_len(l, d, 0, i)));
                }
            }
        }
        pos = pos + step;
        k = k + 1;
    }
    if pos != end {
        return false;
    }
    let ghost s0 = *store;
    let mut pos2 = start;
    let mut j: usize = 0;
    while j < n
        invariant
            n == l.len() == d.len(),
            j <= n,
            litlens@ == l,
            dists@ == d,
            pos2 == start + parsed_len(l, d, 0, j as int),
            is_parse_of(in_data@, start as int, end as int, l, d),
            s0.litlens@.len() + (end - start) < 0xffff_fffe,
            store.wf(),
            store.data == s0.data,
            store.litlens@ == s0.litlens@ + l.subrange(0, j as int),
            store.dists@ == s0.dists@ + d.subrange(0, j as int),
            store.pos@ == s0.pos@ + ps.subrange(0, j as int),
        decreases n - j,
    {
        proof {
            assert(cmd_ok(in_data@, l, d, ps, j as int, start + parsed_len(l, d, 0, j as int)));
            crate::blocksplitter::lemma_parsed_len_grows(in_data@, l, d, ps, 0, n as int, start as int, 0, n as int);
            crate::blocksplitter::lemma_parsed_len_grows(in_data@, l, d, ps, 0, n as int, start as int, j as int, n as int);
            crate::blocksplitter::lemma_parsed_len_grows(in_data@, l, d, ps, 0, n as int, start as int, j + 1, n as int);
            assert(parsed_len(l, d, 0, 0) == 0);
            assert(parsed_len(l, d, 0, j + 1) == parsed_len(l, d, 0, j as int) + cmd_len(l, d, j as int));
        }
        let lit = litlens[j];
        let dist = dists[j];
        store.store_lit_len_dist(lit, dist, pos2);
        proof {
            assert(store.litlens@ =~= s0.litlens@ + l.subrange(0, j + 1));
            assert(store.dists@ =~= s0.dists@ + d.subrange(0, j + 1));
            assert(store.pos@ =~= s0.pos@ + ps.subrange(0, j + 1));
        }
        let step: usize = if dist == 0 {
            1
        } else {
            lit as usize
        };
        pos2 = pos2 + step;
        j = j + 1;
    }
    proof {
        assert(l.subrange(0, n as int) == l);
        assert(d.subrange(0, n as int) == d);
        assert(ps.subrange(0, n as int) == ps);
    }
    true
}

/// Strictly growing points between `lo` and `hi` are fewer than the numbers between.
proof fn lemma_sorted_points_len(sp: Seq<usize>, lo: int, hi: int)
    requires
        lo <= hi,
        strictly_sorted(sp),
        forall|k: int| 0 <= k < sp.len() ==> lo < #[trigger] sp[k] < hi,
    ensures
        sp.len() <= hi - lo,
{
    if sp.len() > 0 {
        assert forall|k: int| 0 <= k < sp.len() implies #[trigger] sp[k] >= lo + 1 + k by {
            lemma_sorted_points_lower(sp, lo, k);
        }
        assert(sp[sp.len() - 1] >= lo + sp.len());
    }
}

proof fn lemma_sorted_points_lower(sp: Seq<usize>, lo: int, k: int)
    requires
        strictly_sorted(sp),
        forall|j: int| 0 <= j < sp.len() ==> lo < #[trigger] sp[j],
        0 <= k < sp.len(),
    ensures
        sp[k] >= lo + 1 + k,
    decreases k,
{
    if k > 0 {
        lemma_sorted_points_lower(sp, lo, k - 1);
        assert(sp[k - 1] < sp[k]);
    }
}

/// The commands of a store that parse its data from `instart` on: every range of them
/// is ready to be written as a block, starting where the earlier commands end.
pub proof fn lemma_range_ready(lz77: Lz77Store, instart: int, a: int, b: int)
    requires
        lz77.wf(),
        lz77.data@.len() < 0xffff_fffe,
        0 <= instart <= lz77.data@.len(),
        parse_ok(lz77.data@, lz77.litlens@, lz77.dists@, lz77.pos@, 0, lz77.litlens@.len() as int, instart),
        0 <= a <= b <= lz77.litlens@.len(),
    ensures
        block_ready(lz77, a, b),
        a < b ==> block_start(lz77, a, b) == instart + parsed_len(lz77.litlens@, lz77.dists@, 0, a),
{
    let l = lz77.litlens@;
    let d = lz77.dists@;
    let p = lz77.pos@;
    let n = l.len() as int;
    lemma_parse_decodes(lz77.data@, l, d, p, 0, n, instart);
    if a < b {
        lemma_parse_sub(lz77.data@, l, d, p, 0, n, instart, a, b);
        lemma_parse_sub(lz77.data@, l, d, p, 0, n, instart, a, n);
        assert(cmd_ok(lz77.data@, l, d, p, a, instart + parsed_len(l, d, 0, a)));
        crate::blocksplitter::lemma_parsed_len_grows(lz77.data@, l, d, p, 0, n, instart, a, n);
    }
}

/// Appends the commands of `block`, a correct parse from `start` on, to `master`, a
/// correct parse from `instart` on whose commands end at `start`.
fn append_store(master: &mut Lz77Store, block: &Lz77Store, Ghost(instart): Ghost<int>, Ghost(start): Ghost<int>)
    requires
        old(master).wf(),
        block.wf(),
        old(master).data@ == block.data@,
        0 <= instart <= start,
        parse_ok(
            block.data@,
            old(master).litlens@,
            old(master).dists@,
            old(master).pos@,
            0,
            old(master).litlens@.len() as int,
            instart,
        ),
        instart + parsed_len(old(master).litlens@, old(master).dists@, 0, old(master).litlens@.len() as int) == start,
        parse_ok(block.data@, block.litlens@, block.dists@, block.pos@, 0, block.litlens@.len() as int, start),
        old(master).litlens@.len() + block.litlens@.len() < 0xffff_fffe,
    ensures
        final(master).wf(),
        final(master).data == old(master).data,
        final(master).litlens@.len() == old(master).litlens@.len() + block.litlens@.len(),
        parse_ok(
            block.data@,
            final(master).litlens@,
            final(master).dists@,
            final(master).pos@,
            0,
            final(master).litlens@.len() as int,
            instart,
        ),
        instart + parsed_len(final(master).litlens@, final(master).dists@, 0, final(master).litlens@.len() as int)
            == start + parsed_len(block.litlens@, block.dists@, 0, block.litlens@.len() as int),
{
    let ghost data = block.data@;
    let ghost bl = block.litlens@;
    let ghost bd = block.dists@;
    let ghost bpos = block.pos@;
    let ghost m0 = master.litlens@.len() as int;
    let n = block.litlens.len();
    let mut k: usize = 0;
    while k < n
        invariant
            k <= n == bl.len(),
            block.litlens@ == bl,
            block.dists@ == bd,
            block.pos@ == bpos,
            block.wf(),
            parse_ok(data, bl, bd, bpos, 0, n as int, start),
            master.wf(),
            master.data == old(master).data,
            master.litlens@.len() == m0 + k,
            m0 + n < 0xffff_fffe,
            parse_ok(data, master.litlens@, master.dists@, master.pos@, 0, master.litlens@.len() as int, instart),
            instart + parsed_len(master.litlens@, master.dists@, 0, master.litlens@.len() as int) == start + parsed_len(
                bl,
                bd,
                0,
                k as int,
            ),
        decreases n - k,
    {
        let ghost ml = master.litlens@;
        let ghost md = master.dists@;
        let ghost mp = master.pos@;
        let lit = block.litlens[k];
        let dist = block.dists[k];
        let pos = block.pos[k];
        proof {
            assert(cmd_ok(data, bl, bd, bpos, k as int, start + parsed_len(bl, bd, 0, k as int)));
            assert(dist == 0 ==> lit < 288);
            assert(cmd_ok(
                data,
                ml.push(lit),
                md.push(dist),
                mp.push(pos as usize as u32),
                ml.len() as int,
                instart + parsed_len(ml, md, 0, ml.len() as int),
            ));
        }
        master.store_lit_len_dist(lit, dist, pos as usize);
        proof {
            lemma_parse_push(data, ml, md, mp, 0, instart, lit, dist, pos as usize as u32);
        }
        k = k + 1;
    }
}

/// Split points that go up (not strictly) and stay within `n` commands.
pub open spec fn points_ok(sp: Seq<usize>, n: int) -> bool {
    &&& forall|a: int, b: int| 0 <= a <= b < sp.len() ==> sp[a] <= sp[b]
    &&& forall|k: int| 0 <= k < sp.len() ==> #[trigger] sp[k] <= n
}

/// Every parse that `optimal` can hand back for a non-empty range of `data` is a correct
/// parse of that range.
pub open spec fn parses_valid<F: Fn(usize, usize) -> (Vec<u16>, Vec<u16>)>(optimal: &F, data: Seq<u8>) -> bool {
    forall|a: usize, b: usize, p: (Vec<u16>, Vec<u16>)|
        a < b <= data.len() && #[trigger] optimal.ensures((a, b), p) ==> is_parse_of(
            data,
            a as int,
            b as int,
            p.0@,
            p.1@,
        )
}

/// Parses each block between the split points with `optimal`, checks each parse, and
/// joins them into one store. Returns the store, the index of the first command of
/// each later block, and the summed cost of the blocks.
#[verifier::loop_isolation(false)]
#[verifier::rlimit(40)]
fn parse_blocks<'a, F: Fn(usize, usize) -> (Vec<u16>, Vec<u16>)>(
    in_data: &'a [u8],
    instart: usize,
    inend: usize,
    splitpoints_uncompressed: &Vec<usize>,
    optimal: &F,
) -> (r: Result<(Lz77Store<'a>, Vec<usize>, usize), Error>)
    requires
        wide_usize(),
        instart <= inend <= in_data@.len(),
        in_data@.len() < 0xffff_fffe,
        strictly_sorted(splitpoints_uncompressed@),
        forall|k: int|
            0 <= k < splitpoints_uncompressed@.len() ==> instart < #[trigger] splitpoints_uncompressed@[k] < inend,
        forall|a: usize, b: usize| optimal.requires((a, b)),
    ensures
        r is Err ==> r == Err::<(Lz77Store<'a>, Vec<usize>, usize), Error>(Error::CompressionFailed),
        instart == inend ==> (r matches Ok((master, sp, _)) && master.litlens@.len() == 0 && sp@.len() == 0),
        parses_valid(optimal, in_data@) ==> r is Ok,
        r matches Ok((master, sp, _)) ==> {
            &&& master.wf()
            &&& master.data@ == in_data@
            &&& parse_ok(in_data@, master.litlens@, master.dists@, master.pos@, 0, master.litlens@.len() as int, instart as int)
            &&& instart + parsed_len(master.litlens@, master.dists@, 0, master.litlens@.len() as int) == inend
            &&& points_ok(sp@, master.litlens@.len() as int)
            &&& sp@.len() == splitpoints_uncompressed@.len()
        },
{
    let npoints = splitpoints_uncompressed.len();
    proof {
        lemma_sorted_points_len(splitpoints_uncompressed@, instart as int, inend as int);
    }
    let mut splitpoints: Vec<usize> = vec![0usize; npoints];
    let mut totalcost: usize = 0;
    let mut master = UninitializedLz77Store::new().initialize(in_data);
    let mut i: usize = 0;
    while i <= npoints
        invariant
            npoints == splitpoints_uncompressed@.len(),
            npoints <= inend - instart,
            i <= npoints + 1,
            master.wf(),
            master.data@ == in_data@,
            parse_ok(in_data@, master.litlens@, master.dists@, master.pos@, 0, master.litlens@.len() as int, instart as int),
            instart + parsed_len(master.litlens@, master.dists@, 0, master.litlens@.len() as int) == (if i == 0 {
                instart as int
            } else if i <= npoints {
                splitpoints_uncompressed@[i - 1] as int
            } else {
                inend as int
            }),
            master.litlens@.len() <= parsed_len(master.litlens@, master.dists@, 0, master.litlens@.len() as int),
            splitpoints@.len() == npoints,
            forall|a: int, b: int| 0 <= a <= b < npoints && b < i ==> splitpoints@[a] <= splitpoints@[b],
            forall|k: int| 0 <= k < npoints && k < i ==> #[trigger] splitpoints@[k] <= master.litlens@.len(),
        decreases npoints + 1 - i,
    {
        let start = if i == 0 {
            instart
        } else {
            splitpoints_uncompressed[i - 1]
        };
        let end = if i == npoints {
            inend
        } else {
            splitpoints_uncompressed[i]
        };
        proof {
            if 0 < i && i < npoints {
                assert(splitpoints_uncompressed@[i - 1] < splitpoints_uncompressed@[i as int]);
            }
        }
        let parse = if start == end {
            (Vec::new(), Vec::new())
        } else {
            optimal(start, end)
        };
        let litlens = parse.0;
        let dists = parse.1;
        let mut store = UninitializedLz77Store::new().initialize(in_data);
        if !store_parse(&mut store, in_data, start, end, &litlens, &dists) {
            return Err(Error::CompressionFailed);
        }
        let block_len = store.litlens.len();
        let view = store.as_view();
        proof {
            let bl = store.litlens@;
            let bd = store.dists@;
            assert(bl == litlens@ && bd == dists@);
            assert(store.pos@ == parse_positions(litlens@, dists@, start as int));
            crate::blocksplitter::lemma_parsed_len_grows(
                in_data@,
                bl,
                bd,
                store.pos@,
                0,
                block_len as int,
                start as int,
                0,
                block_len as int,
            );
            assert(parsed_len(bl, bd, 0, 0) == 0);
            lemma_range_ready(store, start as int, 0, block_len as int);
            lemma_block_ready(store, view, 0, block_len as int);
        }
        let cost = calculate_block_size_auto_type(&view, 0, block_len);
        totalcost = totalcost.saturating_add(cost);
        append_store(&mut master, &store, Ghost(instart as int), Ghost(start as int));
        if i < npoints {
            splitpoints.set(i, master.litlens.len());
        }
        i = i + 1;
    }
    Ok((master, splitpoints, totalcost))
}

/// The bits of an empty fixed block: the final flag, block type 01 and the end code.
pub open spec fn empty_block_bits(final_block: bool) -> Seq<bool> {
    lsb_bits(
        if final_block {
            1u32
        } else {
            0u32
        },
        1,
    ) + lsb_bits(1, 2) + lsb_bits(0, 7)
}

proof fn lemma_bytes_bits_len(s: Seq<u8>)
    ensures
        bytes_bits(s).len() == 8 * s.len(),
    decreases s.len(),
{
    if s.len() > 0 {
        lemma_bytes_bits_len(s.drop_last());
    }
}

/// An empty final fixed block that starts a stream takes the bytes 3 and 0, with two bits
/// used in the last one.
pub proof fn lemma_empty_final_block_bytes(out: Seq<u8>, bp: u8)
    requires
        stream_wf(out, bp),
        stream_bits(out, bp) == empty_block_bits(true),
    ensures
        out == seq![3u8, 0u8],
        bp == 2,
{
    let e = empty_block_bits(true);
    assert(e.len() == 10);
    lemma_bytes_bits_len(out);
    if bp == 0 || out.len() == 0 {
        assert(false);
    }
    lemma_bytes_bits_len(out.drop_last());
    assert(out.len() == 2 && bp == 2);
    let x = out[0];
    let y = out[1];
    assert(out.drop_last() =~= seq![x]);
    assert(seq![x].drop_last() =~= Seq::<u8>::empty());
    assert(bytes_bits(seq![x]) =~= byte_bits(x));
    let bits = stream_bits(out, bp);
    assert(bits =~= byte_bits(x) + byte_bits(y).take(2));
    assert(((1u32 >> 0u32) & 1u32 == 1u32) && ((1u32 >> 1u32) & 1u32 == 0u32) && ((0u32 >> 0u32) & 1u32 == 0u32)
        && ((0u32 >> 1u32) & 1u32 == 0u32) && ((0u32 >> 2u32) & 1u32 == 0u32) && ((0u32 >> 3u32) & 1u32 == 0u32)
        && ((0u32 >> 4u32) & 1u32 == 0u32) && ((0u32 >> 5u32) & 1u32 == 0u32) && ((0u32 >> 6u32) & 1u32 == 0u32))
        by (bit_vector);
    assert(e[0] && e[1] && !e[2] && !e[3] && !e[4] && !e[5] && !e[6] && !e[7] && !e[8] && !e[9]);
    assert(bits[0] == ((x >> 0u8) & 1u8 == 1u8));
    assert(bits[1] == ((x >> 1u8) & 1u8 == 1u8));
    assert(bits[2] == ((x >> 2u8) & 1u8 == 1u8));
    assert(bits[3] == ((x >> 3u8) & 1u8 == 1u8));
    assert(bits[4] == ((x >> 4u8) & 1u8 == 1u8));
    assert(bits[5] == ((x >> 5u8) & 1u8 == 1u8));
    assert(bits[6] == ((x >> 6u8) & 1u8 == 1u8));
    assert(bits[7] == ((x >> 7u8) & 1u8 == 1u8));
    assert(bits[8] == ((y >> 0u8) & 1u8 == 1u8));
    assert(bits[9] == ((y >> 1u8) & 1u8 == 1u8));
    assert(y >> 2u8 == 0u8);
    assert(x == 3u8 && y == 0u8) by (bit_vector)
        requires
            (x >> 0u8) & 1u8 == 1u8,
            (x >> 1u8) & 1u8 == 1u8,
            (x >> 2u8) & 1u8 != 1u8,
            (x >> 3u8) & 1u8 != 1u8,
            (x >> 4u8) & 1u8 != 1u8,
            (x >> 5u8) & 1u8 != 1u8,
            (x >> 6u8) & 1u8 != 1u8,
            (x >> 7u8) & 1u8 != 1u8,
            (y >> 0u8) & 1u8 != 1u8,
            (y >> 1u8) & 1u8 != 1u8,
            y >> 2u8 == 0u8,
    ;
    assert(out =~= seq![3u8, 0u8]);
}

/// First command of block `j` between the cut points.
pub open spec fn cut_lo(cuts: Seq<usize>, j: int) -> int {
    if j == 0 {
        0
    } else {
        cuts[j - 1] as int
    }
}

/// End of the commands of block `j` between the cut points, of `n` commands in all.
pub open spec fn cut_hi(cuts: Seq<usize>, n: int, j: int) -> int {
    if j == cuts.len() {
        n
    } else {
        cuts[j] as int
    }
}

/// `states[j + 1]` is `states[j]` followed by block `j` of the commands `l`/`d`, a parse
/// of `data` from `instart` on, cut at `cuts`: the block holds the bytes its commands
/// stand for, and is final when it is the last and `final_block` is set.
pub open spec fn block_between(
    data: Seq<u8>,
    instart: int,
    l: Seq<u16>,
    d: Seq<u16>,
    n: int,
    cuts: Seq<usize>,
    final_block: bool,
    states: Seq<(Seq<u8>, u8)>,
    j: int,
) -> bool {
    let lo = cut_lo(cuts, j);
    let hi = cut_hi(cuts, n, j);
    block_written(
        data,
        instart + parsed_len(l, d, 0, lo),
        parsed_len(l, d, lo, hi),
        l,
        d,
        lo,
        hi,
        final_block && j == cuts.len(),
        states[j].0,
        states[j].1,
        states[j + 1].0,
        states[j + 1].1,
    )
}

/// The outputs `states` go from the first to the last through one block per range of
/// commands between the cut points.
pub open spec fn blocks_written(
    data: Seq<u8>,
    instart: int,
    l: Seq<u16>,
    d: Seq<u16>,
    n: int,
    cuts: Seq<usize>,
    final_block: bool,
    states: Seq<(Seq<u8>, u8)>,
) -> bool {
    &&& states.len() == cuts.len() + 2
    &&& forall|j: int| 0 <= j <= cuts.len() ==> #[trigger] block_between(data, instart, l, d, n, cuts, final_block, states, j)
}

/// A block of no commands may be taken to start anywhere.
proof fn lemma_empty_block_anywhere(
    data: Seq<u8>,
    s: int,
    l: Seq<u16>,
    d: Seq<u16>,
    lo: int,
    f: bool,
    o0: Seq<u8>,
    b0: u8,
    o1: Seq<u8>,
    b1: u8,
)
    requires
        0 <= s <= data.len(),
        block_written(data, 0, 0, l, d, lo, lo, f, o0, b0, o1, b1),
    ensures
        block_written(data, s, 0, l, d, lo, lo, f, o0, b0, o1, b1),
{
    assert(stored_blocks(o0, b0, f, data, 0, 0) =~= stored_blocks(o0, b0, f, data, s, s)) by {
        assert(data.subrange(0, 0) =~= data.subrange(s, s));
    }
    let s0 = stream_bits(o0, b0);
    let s1 = stream_bits(o1, b1);
    if fixed_block_written(data, 0, 0, f, s0, s1) {
        let (l2, d2, p2, lo2, hi2) = choose|l2: Seq<u16>, d2: Seq<u16>, p2: Seq<u32>, lo2: int, hi2: int|
            #[trigger] parse_ok(data, l2, d2, p2, lo2, hi2, 0) && 0 <= lo2 <= hi2 <= l2.len() && l2.len() == d2.len()
                && d2.len() == p2.len() && 0 + parsed_len(l2, d2, lo2, hi2) == 0 + 0 && s1 == s0 + seq![f, true, false]
                + lz77_data_bits(fixed_ll_codes(), fixed_ll_lengths(), fixed_d_codes(), fixed_d_lengths(), l2, d2, lo2, hi2)
                + msb_bits(canonical_code(fixed_ll_lengths(), 256) as u32, 7);
        assert forall|i: int| lo2 <= i < hi2 implies #[trigger] cmd_ok(data, l2, d2, p2, i, s + parsed_len(l2, d2, lo2, i)) by {
            assert(cmd_ok(data, l2, d2, p2, i, 0 + parsed_len(l2, d2, lo2, i)));
            crate::blocksplitter::lemma_parsed_len_grows(data, l2, d2, p2, lo2, hi2, 0, i, hi2);
            crate::blocksplitter::lemma_parsed_len_grows(data, l2, d2, p2, lo2, hi2, 0, lo2, i);
            assert(parsed_len(l2, d2, lo2, lo2) == 0);
        }
        assert(parse_ok(data, l2, d2, p2, lo2, hi2, s));
    }
}

/// Writes the commands of `master` as blocks between the split points, each of the
/// cheapest type; only the last block may be final.
#[verifier::loop_isolation(false)]
fn write_blocks(
    options: &SafeOptions,
    final_block: bool,
    master: &Lz77Store,
    Ghost(instart): Ghost<int>,
    splitpoints: &Vec<usize>,
    bp: &mut u8,
    out: &mut Vec<u8>,
) -> (r: Result<(), Error>)
    requires
        wide_usize(),
        master.wf(),
        master.data@.len() < 0xffff_fffe,
        0 <= instart <= master.data@.len(),
        parse_ok(master.data@, master.litlens@, master.dists@, master.pos@, 0, master.litlens@.len() as int, instart),
        points_ok(splitpoints@, master.litlens@.len() as int),
        splitpoints@.len() < 0xffff_ffff,
        *old(bp) < 8,
    ensures
        *final(bp) < 8,
        r is Ok,
        r is Ok && stream_wf(old(out)@, *old(bp)) ==> exists|states: Seq<(Seq<u8>, u8)>|
            #[trigger] blocks_written(
                master.data@,
                instart,
                master.litlens@,
                master.dists@,
                master.litlens@.len() as int,
                splitpoints@,
                final_block,
                states,
            ) && states[0] == (old(out)@, *old(bp)) && states[states.len() - 1] == (final(out)@, *final(bp)),
        r is Ok && stream_wf(old(out)@, *old(bp)) ==> stream_wf(final(out)@, *final(bp)),
        master.litlens@.len() == 0 && splitpoints@.len() == 0 ==> r is Ok && (stream_wf(old(out)@, *old(bp))
            ==> stream_bits(final(out)@, *final(bp)) == stream_bits(old(out)@, *old(bp)) + empty_block_bits(
            final_block,
        )),
{
    let n = master.litlens.len();
    let final_npoints = splitpoints.len();
    let ghost data = master.data@;
    let ghost l = master.litlens@;
    let ghost d = master.dists@;
    let ghost cuts = splitpoints@;
    let ghost wf0 = stream_wf(out@, *bp);
    let ghost mut states: Seq<(Seq<u8>, u8)> = seq![(out@, *bp)];
    let mut i: usize = 0;
    while i <= final_npoints
        invariant
            i <= final_npoints + 1,
            *bp < 8,
            states.len() == i + 1,
            states[0] == (old(out)@, *old(bp)),
            states[i as int] == (out@, *bp),
            wf0 ==> stream_wf(out@, *bp),
            n == 0 && final_npoints == 0 && i == 1 && wf0 ==> stream_bits(out@, *bp) == stream_bits(
                old(out)@,
                *old(bp),
            ) + empty_block_bits(final_block),
            wf0 ==> forall|j: int| 0 <= j < i ==> #[trigger] block_between(data, instart, l, d, n as int, cuts, final_block, states, j),
        decreases final_npoints + 1 - i,
    {
        let start = if i == 0 {
            0
        } else {
            splitpoints[i - 1]
        };
        let end = if i == final_npoints {
            n
        } else {
            splitpoints[i]
        };
        let is_final = i == final_npoints && final_block;
        proof {
            lemma_range_ready(*master, instart, start as int, end as int);
            crate::blocksplitter::lemma_parsed_len_grows(data, l, d, master.pos@, 0, n as int, instart, 0, start as int);
            crate::blocksplitter::lemma_parsed_len_grows(data, l, d, master.pos@, 0, n as int, instart, start as int, n as int);
            lemma_parse_decodes(data, l, d, master.pos@, 0, n as int, instart);
            assert(parsed_len(l, d, 0, 0) == 0);
        }
        let ghost o0 = out@;
        let ghost b0 = *bp;
        match add_lz77_block_auto_type(options, is_final, master, start, end, bp, out) {
            Ok(()) => {},
            Err(e) => {
                return Err(e);
            },
        }
        proof {
            let st = states.push((out@, *bp));
            if wf0 {
                assert(cut_lo(cuts, i as int) == start && cut_hi(cuts, n as int, i as int) == end);
                if start == end {
                    lemma_empty_block_anywhere(
                        data,
                        instart + parsed_len(l, d, 0, start as int),
                        l,
                        d,
                        start as int,
                        is_final,
                        o0,
                        b0,
                        out@,
                        *bp,
                    );
                }
                assert(block_between(data, instart, l, d, n as int, cuts, final_block, st, i as int));
                assert forall|j: int| 0 <= j < i + 1 implies #[trigger] block_between(data, instart, l, d, n as int, cuts, final_block, st, j) by {
                    if j < i {
                        assert(block_between(data, instart, l, d, n as int, cuts, final_block, states, j));
                        assert(st[j] == states[j] && st[j + 1] == states[j + 1]);
                    }
                }
                lemma_block_written_wf(data, l, d, is_final, o0, b0, out@, *bp, start as int, end as int, instart + parsed_len(l, d, 0, start as int), parsed_len(l, d, start as int, end as int));
            }
            states = st;
        }
        i = i + 1;
    }
    proof {
        if wf0 {
            assert(blocks_written(data, instart, l, d, n as int, cuts, final_block, states));
        }
    }
    Ok(())
}

/// The output after a block is well formed.
proof fn lemma_block_written_wf(
    data: Seq<u8>,
    l: Seq<u16>,
    d: Seq<u16>,
    f: bool,
    o0: Seq<u8>,
    b0: u8,
    o1: Seq<u8>,
    b1: u8,
    lo: int,
    hi: int,
    start: int,
    len: int,
)
    requires
        b1 < 8,
        block_written(data, start, len, l, d, lo, hi, f, o0, b0, o1, b1),
    ensures
        stream_wf(o1, b1),
{
}

/// Sums the costs of the blocks of `master` between the split points.
#[verifier::loop_isolation(false)]
fn blocks_cost(master: &Lz77Store, Ghost(instart): Ghost<int>, splitpoints: &Vec<usize>) -> (r: usize)
    requires
        wide_usize(),
        master.wf(),
        master.data@.len() < 0xffff_fffe,
        0 <= instart <= master.data@.len(),
        parse_ok(master.data@, master.litlens@, master.dists@, master.pos@, 0, master.litlens@.len() as int, instart),
        points_ok(splitpoints@, master.litlens@.len() as int),
        splitpoints@.len() < 0xffff_ffff,
    ensures
        exists|view: Lz77StoreView, costs: Seq<int>|
            #![trigger store_viewed(*master, view), saturating_total(costs)]
            store_viewed(*master, view) && costs.len() == splitpoints@.len() + 1 && r == saturating_total(costs)
                && forall|j: int|
                0 <= j < costs.len() ==> auto_block_size(
                    view,
                    cut_lo(splitpoints@, j),
                    cut_hi(splitpoints@, master.litlens@.len() as int, j),
                    #[trigger] costs[j],
                ),
{
    let n = master.litlens.len();
    let npoints = splitpoints.len();
    let view = master.as_view();
    let mut total: usize = 0;
    let ghost mut costs: Seq<int> = Seq::empty();
    let mut i: usize = 0;
    proof {
        assert(store_viewed(*master, view));
    }
    while i <= npoints
        invariant
            i <= npoints + 1,
            costs.len() == i,
            total == saturating_total(costs),
            forall|j: int|
                0 <= j < costs.len() ==> auto_block_size(
                    view,
                    cut_lo(splitpoints@, j),
                    cut_hi(splitpoints@, n as int, j),
                    #[trigger] costs[j],
                ),
        decreases npoints + 1 - i,
    {
        let start = if i == 0 {
            0
        } else {
            splitpoints[i - 1]
        };
        let end = if i == npoints {
            n
        } else {
            splitpoints[i]
        };
        proof {
            lemma_range_ready(*master, instart, start as int, end as int);
            lemma_block_ready(*master, view, start as int, end as int);
        }
        let c = calculate_block_size_auto_type(&view, start, end);
        proof {
            assert(costs.push(c as int).drop_last() =~= costs);
            costs = costs.push(c as int);
        }
        total = total.saturating_add(c);
        i = i + 1;
    }
    total
}

/// `view` shows the commands, positions, data and counts of `store`.
pub open spec fn store_viewed(store: Lz77Store, view: Lz77StoreView) -> bool {
    &&& view.litlens@ == store.litlens@
    &&& view.dists@ == store.dists@
    &&& view.pos@ == store.pos@
    &&& view.data@ == store.data@
    &&& view.ll_counts@ == store.ll_counts@
    &&& view.d_counts@ == store.d_counts@
}

/// The sum of `costs`, added up one by one and held at `usize::MAX` once it gets there.
pub open spec fn saturating_total(costs: Seq<int>) -> int
    decreases costs.len(),
{
    if costs.len() == 0 {
        0
    } else {
        let t = saturating_total(costs.drop_last()) + costs.last();
        if t > usize::MAX {
            usize::MAX as int
        } else {
            t
        }
    }
}

/// The bytes `o1` (last byte holding `b1` bits) are `o0` followed by what compressing
/// `data[instart..inend]` with block type `btype` writes: stored blocks of those bytes;
/// one fixed-tree block of a correct parse of them; or, for dynamic trees, blocks of a
/// correct parse of them cut into ranges of commands, each block holding the bytes of
/// its commands. Only the last block may be final, and only when `final_block` is set.
pub open spec fn part_written(
    btype: BlockType,
    data: Seq<u8>,
    instart: int,
    inend: int,
    final_block: bool,
    o0: Seq<u8>,
    b0: u8,
    o1: Seq<u8>,
    b1: u8,
) -> bool {
    match btype {
        BlockType::Uncompressed => b1 == 0 && o1 == stored_blocks(o0, b0, final_block, data, instart, inend),
        BlockType::FixedTree => stream_wf(o1, b1) && fixed_block_written(
            data,
            instart,
            inend - instart,
            final_block,
            stream_bits(o0, b0),
            stream_bits(o1, b1),
        ),
        BlockType::DynamicTree => stream_wf(o1, b1) && exists|
            l: Seq<u16>,
            d: Seq<u16>,
            p: Seq<u32>,
            cuts: Seq<usize>,
            states: Seq<(Seq<u8>, u8)>,
        |
            #![trigger blocks_written(data, instart, l, d, l.len() as int, cuts, final_block, states), parse_ok(data, l, d, p, 0, l.len() as int, instart)]
            blocks_written(data, instart, l, d, l.len() as int, cuts, final_block, states) && parse_ok(
                data,
                l,
                d,
                p,
                0,
                l.len() as int,
                instart,
            ) && l.len() == d.len() && d.len() == p.len() && instart + parsed_len(l, d, 0, l.len() as int) == inend
                && points_ok(cuts, l.len() as int) && states[0] == (o0, b0) && states[states.len() - 1] == (o1, b1),
    }
}

/// Compresses `in_data[instart..inend]` as blocks of the given type. Stored and fixed
/// blocks are written directly (a fixed block with the optimal fixed-cost parse); for
/// dynamic blocks the data is split, `optimal` gives a
/// parse of each part (which is checked: a parse that does not reproduce its part
/// fails with `CompressionFailed`), the parts are split again as LZ77 data when that
/// is cheaper, and each block gets the cheapest type.
pub fn deflate_part<F: Fn(usize, usize) -> (Vec<u16>, Vec<u16>)>(
    options: &SafeOptions,
    btype: BlockType,
    final_block: bool,
    in_data: &[u8],
    instart: usize,
    inend: usize,
    bp: &mut u8,
    out: &mut Vec<u8>,
    optimal: &F,
) -> (r: Result<(), Error>)
    requires
        instart <= inend <= in_data@.len(),
        in_data@.len() < 0xffff_fffe,
        *old(bp) < 8,
        forall|a: usize, b: usize| optimal.requires((a, b)),
    ensures
        *final(bp) < 8,
        r is Err ==> r == Err::<(), Error>(Error::CompressionFailed),
        !wide_usize() && btype != BlockType::Uncompressed ==> r is Err && final(out)@ == old(out)@ && *final(bp) == *old(
            bp,
        ),
        wide_usize() && (btype != BlockType::DynamicTree || instart == inend) ==> r is Ok,
        wide_usize() && btype == BlockType::DynamicTree && parses_valid(optimal, in_data@) ==> r is Ok,
        wide_usize() && instart == inend && btype == BlockType::DynamicTree && stream_wf(old(out)@, *old(bp)) ==> stream_bits(
            final(out)@,
            *final(bp),
        ) == stream_bits(old(out)@, *old(bp)) + empty_block_bits(final_block),
        btype == BlockType::Uncompressed ==> r is Ok && *final(bp) == 0 && final(out)@ == stored_blocks(
            old(out)@,
            *old(bp),
            final_block,
            in_data@,
            instart as int,
            inend as int,
        ),
        btype == BlockType::FixedTree && r is Ok && stream_wf(old(out)@, *old(bp)) ==> stream_wf(
            final(out)@,
            *final(bp),
        ) && fixed_block_written(
            in_data@,
            instart as int,
            inend - instart,
            final_block,
            stream_bits(old(out)@, *old(bp)),
            stream_bits(final(out)@, *final(bp)),
        ),
        r is Ok && stream_wf(old(out)@, *old(bp)) ==> part_written(
            btype,
            in_data@,
            instart as int,
            inend as int,
            final_block,
            old(out)@,
            *old(bp),
            final(out)@,
            *final(bp),
        ),
{
    if btype == BlockType::Uncompressed {
        add_non_compressed_block(final_block, in_data, instart, inend, bp, out);
        return Ok(());
    }
    if usize::BITS != 64 {
        return Err(Error::CompressionFailed);
    }
    if btype == BlockType::FixedTree {
        let mut store = UninitializedLz77Store::new().initialize(in_data);
        let mut s = ZopfliBlockState { options, lmc: None, blockstart: instart, blockend: inend };
        lz77_optimal_fixed(&mut s, in_data, instart, inend, &mut store);
        let n = store.litlens.len();
        proof {
            assert(store.litlens@.subrange(0, 0) =~= store.litlens@.subrange(0, 0));
            lemma_range_ready(store, instart as int, 0, n as int);
            assert(parsed_len(store.litlens@, store.dists@, 0, 0) == 0);
        }
        let r = add_lz77_block(options, btype, final_block, &store, 0, n, bp, out);
        proof {
            if stream_wf(old(out)@, *old(bp)) {
                assert(parse_ok(in_data@, store.litlens@, store.dists@, store.pos@, 0, n as int, instart as int));
            }
        }
        return r;
    }
    let mut splitpoints_uncompressed: Vec<usize> = Vec::new();
    if options.blocksplitting {
        splitpoints_uncompressed = split(options, in_data, instart, inend, options.blocksplittingmax as usize);
    }
    let npoints = splitpoints_uncompressed.len();
    proof {
        lemma_sorted_points_len(splitpoints_uncompressed@, instart as int, inend as int);
    }
    let (master_lz77, mut splitpoints, totalcost) = match parse_blocks(
        in_data,
        instart,
        inend,
        &splitpoints_uncompressed,
        optimal,
    ) {
        Ok(t) => t,
        Err(e) => {
            return Err(e);
        },
    };
    proof {
        crate::blocksplitter::lemma_parsed_len_grows(
            in_data@,
            master_lz77.litlens@,
            master_lz77.dists@,
            master_lz77.pos@,
            0,
            master_lz77.litlens@.len() as int,
            instart as int,
            0,
            master_lz77.litlens@.len() as int,
        );
        assert(parsed_len(master_lz77.litlens@, master_lz77.dists@, 0, 0) == 0);
    }
    if options.blocksplitting && npoints > 1 {
        proof {
            lemma_parse_splittable(&master_lz77, in_data@, instart as int);
        }
        let splitpoints2 = split_lz77(options, &master_lz77, options.blocksplittingmax as usize);
        proof {
            lemma_sorted_points_len(splitpoints2@, 0, master_lz77.litlens@.len() as int);
            assert forall|a: int, b: int| 0 <= a <= b < splitpoints2@.len() implies splitpoints2@[a] <= splitpoints2@[b] by {
                if a < b {
                    assert(splitpoints2@[a] < splitpoints2@[b]);
                }
            }
        }
        let totalcost2 = blocks_cost(&master_lz77, Ghost(instart as int), &splitpoints2);
        if totalcost2 < totalcost {
            splitpoints = splitpoints2;
        }
    }
    let r = write_blocks(options, final_block, &master_lz77, Ghost(instart as int), &splitpoints, bp, out);
    proof {
        if r is Ok && stream_wf(old(out)@, *old(bp)) {
            let states = choose|states: Seq<(Seq<u8>, u8)>|
                #[trigger] blocks_written(
                    in_data@,
                    instart as int,
                    master_lz77.litlens@,
                    master_lz77.dists@,
                    master_lz77.litlens@.len() as int,
                    splitpoints@,
                    final_block,
                    states,
                ) && states[0] == (old(out)@, *old(bp)) && states[states.len() - 1] == (out@, *bp);
            assert(parse_ok(
                in_data@,
                master_lz77.litlens@,
                master_lz77.dists@,
                master_lz77.pos@,
                0,
                master_lz77.litlens@.len() as int,
                instart as int,
            ));
        }
    }
    r
}

/// The stored blocks of the macro blocks of `data` from `i` on: 262144 bytes each, the
/// last one taking the rest; only the last may be final.
pub open spec fn stored_macro_blocks(out: Seq<u8>, bp: u8, final_block: bool, data: Seq<u8>, i: int) -> Seq<u8>
    decreases data.len() - i,
{
    let macrofinal = i + 262144 >= data.len();
    let size = if macrofinal {
        data.len() - i
    } else {
        262144
    };
    let o = stored_blocks(out, bp, final_block && macrofinal, data, i, i + size);
    if macrofinal {
        o
    } else {
        stored_macro_blocks(o, 0, final_block, data, i + size)
    }
}

/// The stored macro blocks keep the bytes they were written after.
proof fn lemma_stored_macro_prefix(out: Seq<u8>, final_block: bool, data: Seq<u8>, i: int)
    requires
        0 <= i <= data.len(),
    ensures
        stored_macro_blocks(out, 0, final_block, data, i).len() >= out.len(),
        stored_macro_blocks(out, 0, final_block, data, i).subrange(0, out.len() as int) == out,
    decreases data.len() - i,
{
    let macrofinal = i + 262144 >= data.len();
    let size = if macrofinal {
        data.len() - i
    } else {
        262144
    };
    lemma_stored_blocks_prefix(out, final_block && macrofinal, data, i, i + size);
    let o = stored_blocks(out, 0, final_block && macrofinal, data, i, i + size);
    if !macrofinal {
        lemma_stored_macro_prefix(o, final_block, data, i + size);
        let full = stored_macro_blocks(o, 0, final_block, data, i + size);
        assert(full.subrange(0, out.len() as int) =~= full.subrange(0, o.len() as int).subrange(0, out.len() as int));
    }
}

/// The final stored macro blocks from `i` on read back as the input from `i` on.
proof fn lemma_stored_macro_inflate(out: Seq<u8>, data: Seq<u8>, i: int, tail: Seq<u8>)
    requires
        0 <= i < data.len(),
    ensures
        inflate_stored(stored_macro_blocks(out, 0, true, data, i) + tail, out.len() as int) == Some(
            data.subrange(i, data.len() as int),
        ),
    decreases data.len() - i,
{
    let macrofinal = i + 262144 >= data.len();
    let size = if macrofinal {
        data.len() - i
    } else {
        262144
    };
    let o = stored_blocks(out, 0, macrofinal, data, i, i + size);
    if macrofinal {
        lemma_stored_blocks_inflate(out, true, data, i, i + size, tail);
    } else {
        lemma_stored_macro_prefix(o, true, data, i + size);
        let full = stored_macro_blocks(o, 0, true, data, i + size);
        let x = full.subrange(o.len() as int, full.len() as int);
        assert(full =~= o + x);
        lemma_stored_blocks_inflate(out, false, data, i, i + size, x + tail);
        lemma_stored_macro_inflate(o, data, i + size, tail);
        assert(o + (x + tail) =~= full + tail);
        assert(data.subrange(i, i + size) + data.subrange(i + size, data.len() as int) =~= data.subrange(
            i,
            data.len() as int,
        ));
    }
}

/// Deflating with stored blocks from a byte boundary, as the final part of the stream,
/// reads back as the input: what `deflate` writes for `BlockType::Uncompressed` when
/// its bit position is 0.
pub proof fn lemma_deflate_stored_inflate(out: Seq<u8>, data: Seq<u8>)
    ensures
        inflate_stored(
            if data.len() == 0 {
                stored_blocks(out, 0, true, data, 0, 0)
            } else {
                stored_macro_blocks(out, 0, true, data, 0)
            },
            out.len() as int,
        ) == Some(data),
{
    let empty = Seq::<u8>::empty();
    if data.len() == 0 {
        lemma_stored_blocks_inflate(out, true, data, 0, 0, empty);
        assert(stored_blocks(out, 0, true, data, 0, 0) + empty =~= stored_blocks(out, 0, true, data, 0, 0));
        assert(data.subrange(0, 0) =~= data);
    } else {
        lemma_stored_macro_inflate(out, data, 0, empty);
        assert(stored_macro_blocks(out, 0, true, data, 0) + empty =~= stored_macro_blocks(out, 0, true, data, 0));
        assert(data.subrange(0, data.len() as int) =~= data);
    }
}

/// End of macro block `j` of `n` bytes: the next multiple of 262144, or `n`.
pub open spec fn macro_end(n: int, j: int) -> int {
    if 262144 * (j + 1) >= n {
        n
    } else {
        262144 * (j + 1)
    }
}

/// `states[j + 1]` is `states[j]` followed by what `deflate_part` writes for macro block
/// `j`, final when it is the last block of the data and `final_block` is set.
pub open spec fn macro_part_ok(
    btype: BlockType,
    data: Seq<u8>,
    final_block: bool,
    states: Seq<(Seq<u8>, u8)>,
    j: int,
) -> bool {
    part_written(
        btype,
        data,
        262144 * j,
        macro_end(data.len() as int, j),
        final_block && 262144 * (j + 1) >= data.len(),
        states[j].0,
        states[j].1,
        states[j + 1].0,
        states[j + 1].1,
    )
}

/// The outputs `states` go from the first to the last through one part per macro block
/// of `data`.
pub open spec fn macro_parts_written(btype: BlockType, data: Seq<u8>, final_block: bool, states: Seq<(Seq<u8>, u8)>) -> bool {
    &&& states.len() >= 2
    &&& 262144 * (states.len() - 2) < data.len() <= 262144 * (states.len() - 1)
    &&& forall|j: int| 0 <= j < states.len() - 1 ==> #[trigger] macro_part_ok(btype, data, final_block, states, j)
}

/// The bytes `o1` (last byte holding `b1` bits) are `o0` followed by what `deflate`
/// writes for `data` with block type `btype`: one part per macro block of the data (one
/// part when the data is empty), only the last one final when `final_block` is set.
pub open spec fn deflate_written(
    btype: BlockType,
    data: Seq<u8>,
    final_block: bool,
    o0: Seq<u8>,
    b0: u8,
    o1: Seq<u8>,
    b1: u8,
) -> bool {
    if data.len() == 0 {
        part_written(btype, data, 0, 0, final_block, o0, b0, o1, b1)
    } else {
        exists|states: Seq<(Seq<u8>, u8)>|
            #[trigger] macro_parts_written(btype, data, final_block, states) && states[0] == (o0, b0) && states[states.len()
                - 1] == (o1, b1)
    }
}

/// The output after a part is well formed.
proof fn lemma_part_written_wf(
    btype: BlockType,
    data: Seq<u8>,
    instart: int,
    inend: int,
    f: bool,
    o0: Seq<u8>,
    b0: u8,
    o1: Seq<u8>,
    b1: u8,
)
    requires
        b1 < 8,
        part_written(btype, data, instart, inend, f, o0, b0, o1, b1),
    ensures
        stream_wf(o1, b1),
{
}

/// Splits the input into macroblocks of size 256KB and compresses each block using
/// deflate_part.
#[verifier::loop_isolation(false)]
pub fn deflate<F: Fn(usize, usize) -> (Vec<u16>, Vec<u16>)>(
    options: &SafeOptions,
    btype: BlockType,
    final_block: bool,
    in_data: &[u8],
    bp: &mut u8,
    out: &mut Vec<u8>,
    optimal: &F,
) -> (r: Result<(), Error>)
    requires
        in_data@.len() < 0xffff_fffe,
        *old(bp) < 8,
        forall|a: usize, b: usize| optimal.requires((a, b)),
    ensures
        *final(bp) < 8,
        r is Err ==> r == Err::<(), Error>(Error::CompressionFailed),
        !wide_usize() && btype != BlockType::Uncompressed ==> r is Err && final(out)@ == old(out)@ && *final(bp)
            == *old(bp),
        btype == BlockType::Uncompressed || (wide_usize() && (btype != BlockType::DynamicTree || in_data@.len() == 0))
            ==> r is Ok,
        wide_usize() && btype == BlockType::DynamicTree && parses_valid(optimal, in_data@) ==> r is Ok,
        wide_usize() && in_data@.len() == 0 && btype == BlockType::DynamicTree && stream_wf(old(out)@, *old(bp))
            ==> stream_wf(final(out)@, *final(bp)) && stream_bits(final(out)@, *final(bp)) == stream_bits(
            old(out)@,
            *old(bp),
        ) + empty_block_bits(final_block),
        wide_usize() && in_data@.len() == 0 && btype == BlockType::DynamicTree && final_block && old(out)@.len() == 0
            && *old(bp) == 0 ==> final(out)@ == seq![3u8, 0u8] && *final(bp) == 2,
        btype == BlockType::Uncompressed ==> r is Ok && *final(bp) == 0 && final(out)@ == if in_data@.len() == 0 {
            stored_blocks(old(out)@, *old(bp), final_block, in_data@, 0, 0)
        } else {
            stored_macro_blocks(old(out)@, *old(bp), final_block, in_data@, 0)
        },
        r is Ok && stream_wf(old(out)@, *old(bp)) ==> deflate_written(
            btype,
            in_data@,
            final_block,
            old(out)@,
            *old(bp),
            final(out)@,
            *final(bp),
        ),
        r is Ok && final_block && *old(bp) == 0 ==> inflate_blocks(
            final(out)@,
            (8 * old(out)@.len()) as int,
            Seq::empty(),
        ) == Some(in_data@),
{
    if usize::BITS != 64 && btype != BlockType::Uncompressed {
        return Err(Error::CompressionFailed);
    }
    if in_data.len() == 0 {
        let r = deflate_part(options, btype, final_block, in_data, 0, 0, bp, out, optimal);
        proof {
            if btype == BlockType::DynamicTree && final_block && old(out)@.len() == 0 && *old(bp) == 0 {
                assert(stream_wf(old(out)@, *old(bp)));
                assert(stream_bits(old(out)@, *old(bp)) =~= Seq::<bool>::empty());
                assert(Seq::<bool>::empty() + empty_block_bits(true) =~= empty_block_bits(true));
                lemma_empty_final_block_bytes(out@, *bp);
            }
            if r is Ok && final_block && *old(bp) == 0 {
                assert(stream_wf(old(out)@, *old(bp)));
                lemma_deflate_inflates(btype, in_data@, old(out)@, out@, *bp);
            }
        }
        return r;
    }
    let ghost total = stored_macro_blocks(out@, *bp, final_block, in_data@, 0);
    let ghost wf0 = stream_wf(out@, *bp);
    let ghost mut states: Seq<(Seq<u8>, u8)> = seq![(out@, *bp)];
    let ghost n = in_data@.len() as int;
    let mut i: usize = 0;
    while i < in_data.len()
        invariant
            i <= in_data@.len() < 0xffff_fffe,
            *bp < 8,
            btype == BlockType::Uncompressed ==> i < in_data@.len() ==> total == stored_macro_blocks(
                out@,
                *bp,
                final_block,
                in_data@,
                i as int,
            ),
            btype == BlockType::Uncompressed && i == in_data@.len() ==> out@ == total && *bp == 0,
            states.len() >= 1,
            i == 262144 * (states.len() - 1) || (i == n && 262144 * (states.len() - 2) < n <= 262144 * (states.len() - 1)),
            i < n ==> i == 262144 * (states.len() - 1),
            states[0] == (old(out)@, *old(bp)),
            states[states.len() - 1] == (out@, *bp),
            wf0 ==> stream_wf(out@, *bp),
            wf0 ==> forall|j: int| 0 <= j < states.len() - 1 ==> #[trigger] macro_part_ok(btype, in_data@, final_block, states, j),
        decreases in_data@.len() - i,
    {
        let macrofinal = MACRO_BLOCK_SIZE >= in_data.len() - i;
        let chunk_final = final_block && macrofinal;
        let size = if macrofinal {
            in_data.len() - i
        } else {
            MACRO_BLOCK_SIZE
        };
        let ghost o0 = out@;
        let ghost b0 = *bp;
        let ghost j = states.len() - 1;
        match deflate_part(options, btype, chunk_final, in_data, i, i + size, bp, out, optimal) {
            Ok(()) => {},
            Err(e) => {
                return Err(e);
            },
        }
        proof {
            let st = states.push((out@, *bp));
            if wf0 {
                assert(macro_end(n, j) == i + size);
                assert(macro_part_ok(btype, in_data@, final_block, st, j));
                assert forall|k: int| 0 <= k < st.len() - 1 implies #[trigger] macro_part_ok(btype, in_data@, final_block, st, k) by {
                    if k < j {
                        assert(macro_part_ok(btype, in_data@, final_block, states, k));
                        assert(st[k] == states[k] && st[k + 1] == states[k + 1]);
                    }
                }
                lemma_part_written_wf(btype, in_data@, i as int, i + size, chunk_final, o0, b0, out@, *bp);
            }
            states = st;
        }
        i = i + size;
    }
    proof {
        if wf0 {
            assert(macro_parts_written(btype, in_data@, final_block, states));
        }
        if final_block && *old(bp) == 0 {
            assert(stream_wf(old(out)@, *old(bp)));
            assert(deflate_written(btype, in_data@, final_block, old(out)@, *old(bp), out@, *bp));
            lemma_deflate_inflates(btype, in_data@, old(out)@, out@, *bp);
        }
    }
    Ok(())
}
} // verus!
