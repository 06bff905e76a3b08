//! Block size estimates, Huffman length tuning and the fixed-cost optimal LZ77 parse.
//!
//! Sizes are counted in bits. A command costs the code length of its literal/length
//! symbol, plus, for a back-reference, the code length of its distance symbol and the
//! extra bits of both symbols.
use crate::deflate::{
    code_lengths_ok, encode_tree, flags_respected, is_tree_header, lemma_variant_is_header, shortest_variant, tree_header_bits, tree_header_ok,
    unused_codes_empty, variant_header,
};
use crate::hash::{lemma_fresh_hash_inv, lemma_update_preserves_inv, ZopfliHash};
use crate::error::Error;
use crate::lz77::{
    cmd_len, cmd_ok, count_d, count_ll, find_longest_match, lemma_parse_push, parse_ok, parsed_len, skip_positions,
    sub_ok_at, valid_match, Lz77Store, Lz77StoreView, ZopfliBlockState,
};
use crate::tree::{calculate_bit_lengths, nonzero_count};
use crate::symbols::{
    dist_code_law, get_dist_extra_bits, get_dist_symbol, get_dist_symbol_extra_bits, get_length_extra_bits,
    get_length_symbol, get_length_symbol_extra_bits, length_code_law, spec_dist_extra_bits, spec_dist_symbol,
    spec_dist_symbol_extra_bits, spec_length_extra_bits, spec_length_symbol, spec_length_symbol_extra_bits,
};
use crate::util::{wide_usize, MAX_MATCH, NUM_D, NUM_LL, WINDOW_MASK, WINDOW_SIZE};
use vstd::prelude::*;

verus! {

/// Code length of literal/length symbol `i` in the fixed Huffman tree (RFC 1951, 3.2.6).
pub open spec fn fixed_ll_length(i: int) -> u32 {
    if i < 144 {
        8
    } else if i < 256 {
        9
    } else if i < 280 {
        7
    } else {
        8
    }
}

/// Every code length in `s` is below 65536.
pub open spec fn lengths_bounded(s: Seq<u32>) -> bool {
    forall|i: int| 0 <= i < s.len() ==> #[trigger] s[i] < 65536
}

/// Bits that one command costs with the given code lengths. Literals outside the
/// alphabet cost nothing.
pub open spec fn cmd_bits(ll_lengths: Seq<u32>, d_lengths: Seq<u32>, litlen: u16, dist: u16) -> int {
    if dist == 0 {
        if litlen < 288 {
            ll_lengths[litlen as int] as int
        } else {
            0
        }
    } else {
        let ls = spec_length_symbol(litlen as int);
        let ds = spec_dist_symbol(dist as int);
        ll_lengths[ls] + d_lengths[ds] + spec_length_symbol_extra_bits(ls) + spec_dist_symbol_extra_bits(ds)
    }
}

/// Bits that the commands `lo..hi` cost.
pub open spec fn symbols_bits(
    ll_lengths: Seq<u32>,
    d_lengths: Seq<u32>,
    litlens: Seq<u16>,
    dists: Seq<u16>,
    lo: int,
    hi: int,
) -> int
    decreases hi - lo,
{
    if hi <= lo {
        0
    } else {
        symbols_bits(ll_lengths, d_lengths, litlens, dists, lo, hi - 1) + cmd_bits(
            ll_lengths,
            d_lengths,
            litlens[hi - 1],
            dists[hi - 1],
        )
    }
}

/// Populates the bit length arrays for a fixed Huffman tree.
pub fn get_fixed_tree(ll_lengths: &mut [u32], d_lengths: &mut [u32])
    requires
        old(ll_lengths)@.len() >= 288,
        old(d_lengths)@.len() >= 32,
    ensures
        final(ll_lengths)@.len() == old(ll_lengths)@.len(),
        final(d_lengths)@.len() == old(d_lengths)@.len(),
        forall|i: int|
            0 <= i < old(ll_lengths)@.len() ==> #[trigger] final(ll_lengths)@[i] == if i < 288 {
                fixed_ll_length(i)
            } else {
                old(ll_lengths)@[i]
            },
        forall|i: int|
            0 <= i < old(d_lengths)@.len() ==> #[trigger] final(d_lengths)@[i] == if i < 32 {
                5
            } else {
                old(d_lengths)@[i]
            },
{
    let mut i: usize = 0;
    while i < 288
        invariant
            i <= 288,
            old(ll_lengths)@.len() >= 288,
            ll_lengths@.len() == old(ll_lengths)@.len(),
            forall|j: int|
                0 <= j < ll_lengths@.len() ==> #[trigger] ll_lengths@[j] == if j < i {
                    fixed_ll_length(j)
                } else {
                    old(ll_lengths)@[j]
                },
        decreases 288 - i,
    {
        ll_lengths[i] = if i < 144 {
            8
        } else if i < 256 {
            9
        } else if i < 280 {
            7
        } else {
            8
        };
        i = i + 1;
    }
    let mut i: usize = 0;
    while i < 32
        invariant
            i <= 32,
            old(d_lengths)@.len() >= 32,
            d_lengths@.len() == old(d_lengths)@.len(),
            forall|j: int|
                0 <= j < d_lengths@.len() ==> #[trigger] d_lengths@[j] == if j < i {
                    5
                } else {
                    old(d_lengths)@[j]
                },
        decreases 32 - i,
    {
        d_lengths[i] = 5;
        i = i + 1;
    }
}

/// Number of input bytes that the commands `lstart..lend` span, from the start of the
/// first to the end of the last.
pub open spec fn byte_range(view: Lz77StoreView, lstart: int, lend: int) -> int {
    if lstart == lend {
        0
    } else {
        let l = lend - 1;
        view.pos@[l] + crate::lz77::cmd_len(view.litlens@, view.dists@, l) - view.pos@[lstart]
    }
}

/// Calculates the byte range spanned by the LZ77 commands in the store.
pub fn lz77_get_byte_range(store: &Lz77StoreView<'_>, lstart: usize, lend: usize) -> (r: usize)
    requires
        lstart <= lend <= store.litlens@.len(),
        store.dists@.len() == store.litlens@.len(),
        store.pos@.len() == store.litlens@.len(),
        lstart < lend ==> byte_range(*store, lstart as int, lend as int) >= 0,
        lstart < lend ==> store.pos@[lend - 1] + crate::lz77::cmd_len(store.litlens@, store.dists@, lend - 1)
            <= usize::MAX,
    ensures
        r == byte_range(*store, lstart as int, lend as int),
{
    if lstart == lend {
        return 0;
    }
    let l = lend - 1;
    let elem_len: usize = if store.dists[l] == 0 {
        1
    } else {
        store.litlens[l] as usize
    };
    (store.pos[l] as usize + elem_len) - store.pos[lstart] as usize
}

/// Number of nonzero lengths among the first `k` of `s`.
pub open spec fn count_used(s: Seq<u32>, k: int) -> int
    decreases k,
{
    if k <= 0 {
        0
    } else {
        count_used(s, k - 1) + if s[k - 1] > 0 {
            1int
        } else {
            0int
        }
    }
}

/// Adjusts the distance code lengths to satisfy the requirements of some older or buggy deflate
/// decoders that require at least two distance codes to be defined (even if only one distance
/// code is used).
pub fn patch_distance_codes_for_buggy_decoders(d_lengths: &mut [u32])
    requires
        old(d_lengths)@.len() >= 30,
    ensures
        final(d_lengths)@ == if count_used(old(d_lengths)@, 30) >= 2 {
            old(d_lengths)@
        } else if count_used(old(d_lengths)@, 30) == 0 {
            old(d_lengths)@.update(0, 1).update(1, 1)
        } else if old(d_lengths)@[0] > 0 {
            old(d_lengths)@.update(1, 1)
        } else {
            old(d_lengths)@.update(0, 1)
        },
{
    let ghost d0 = d_lengths@;
    let mut num_dist_codes: usize = 0;
    let mut i: usize = 0;
    while i < 30
        invariant
            i <= 30,
            d_lengths@ == d0,
            d0.len() >= 30,
            num_dist_codes == count_used(d0, i as int),
            num_dist_codes < 2,
        decreases 30 - i,
    {
        if d_lengths[i] > 0 {
            num_dist_codes = num_dist_codes + 1;
        }
        if num_dist_codes >= 2 {
            proof {
                lemma_count_used_mono(d0, i + 1, 30);
            }
            return;
        }
        i = i + 1;
    }
    if num_dist_codes == 0 {
        d_lengths[0] = 1;
        d_lengths[1] = 1;
    } else if num_dist_codes == 1 {
        let idx: usize = if d_lengths[0] > 0 {
            1
        } else {
            0
        };
        d_lengths[idx] = 1;
    }
}

/// For lengths of 0 or 1, the codes of length 1 are the used ones.
proof fn lemma_ones_used(s: Seq<u32>, k: int)
    requires
        0 <= k <= s.len(),
        forall|i: int| 0 <= i < s.len() ==> #[trigger] s[i] <= 1,
    ensures
        crate::tree::count_eq(s.take(k), 1) == count_used(s, k),
    decreases k,
{
    if k > 0 {
        lemma_ones_used(s, k - 1);
        assert(s.take(k).drop_last() =~= s.take(k - 1));
        assert(s.take(k).last() == s[k - 1]);
    }
}

/// Setting one length to 1 adds at most one used code.
proof fn lemma_used_update(s: Seq<u32>, j: int, k: int)
    requires
        0 <= j < s.len(),
        0 <= k <= s.len(),
    ensures
        count_used(s.update(j, 1), k) <= count_used(s, k) + 1,
        count_used(s, k) <= count_used(s.update(j, 1), k),
    decreases k,
{
    if k > 0 {
        if k - 1 == j {
            lemma_used_before_j(s, j, k - 1);
        } else {
            lemma_used_update(s, j, k - 1);
            assert(s.update(j, 1)[k - 1] == s[k - 1]);
        }
    }
}

/// Before position `j`, an update at `j` changes no used code.
proof fn lemma_used_before_j(s: Seq<u32>, j: int, k: int)
    requires
        0 <= j < s.len(),
        0 <= k <= j,
    ensures
        count_used(s.update(j, 1), k) == count_used(s, k),
    decreases k,
{
    if k > 0 {
        lemma_used_before_j(s, j, k - 1);
        assert(s.update(j, 1)[k - 1] == s[k - 1]);
    }
}

/// The used code lengths of a code for exactly the symbols that `counts` uses are as many
/// as the used symbols.
proof fn lemma_used_covers(d: Seq<u32>, counts: Seq<usize>, k: int)
    requires
        crate::tree::covers(d, counts),
        0 <= k <= d.len(),
    ensures
        count_used(d, k) == nonzero_count(counts.take(k)),
    decreases k,
{
    if k > 0 {
        lemma_used_covers(d, counts, k - 1);
        assert(counts.take(k).drop_last() =~= counts.take(k - 1));
        assert(counts.take(k).last() == counts[k - 1]);
        assert(d[k - 1] > 0 <==> counts[k - 1] > 0);
    }
}

/// Patching the distance code lengths of a prefix code for the used distance symbols (with
/// none for 30 and 31) keeps a prefix code and keeps every code.
proof fn lemma_patch_fits(counts: Seq<usize>, d0: Seq<u32>, d1: Seq<u32>)
    requires
        d0.len() == 32,
        counts.len() == 32,
        crate::tree::prefix_code_for(d0, counts, 15),
        counts[30] == 0,
        counts[31] == 0,
        nonzero_count(counts) <= 1 ==> forall|i: int| 0 <= i < 32 ==> #[trigger] d0[i] == if counts[i] > 0 {
            1u32
        } else {
            0u32
        },
        d1 == if count_used(d0, 30) >= 2 {
            d0
        } else if count_used(d0, 30) == 0 {
            d0.update(0, 1).update(1, 1)
        } else if d0[0] > 0 {
            d0.update(1, 1)
        } else {
            d0.update(0, 1)
        },
    ensures
        crate::inflate_dynamic::codes_fit(d1),
        forall|i: int| 0 <= i < 32 && #[trigger] d0[i] > 0 ==> d1[i] > 0,
{
    lemma_used_covers(d0, counts, 32);
    lemma_used_covers(d0, counts, 30);
    assert(counts.take(32) =~= counts);
    assert(counts.take(31).drop_last() =~= counts.take(30));
    assert(counts.take(32).drop_last() =~= counts.take(31));
    assert(counts.take(31).last() == counts[30]);
    assert(counts.take(32).last() == counts[31]);
    assert(nonzero_count(counts.take(31)) == nonzero_count(counts.take(30)) + if counts[30] > 0 { 1int } else { 0int });
    assert(nonzero_count(counts.take(32)) == nonzero_count(counts.take(31)) + if counts[31] > 0 { 1int } else { 0int });
    let m = count_used(d0, 30);
    if m < 2 {
        assert(nonzero_count(counts) <= 1);
        assert forall|i: int| 0 <= i < 32 implies #[trigger] d1[i] <= 1 by {
            assert(d0[i] == if counts[i] > 0 { 1u32 } else { 0u32 });
        }
        if m == 0 {
            let a = d0.update(0, 1);
            lemma_used_update(d0, 0, 32);
            lemma_used_update(a, 1, 32);
        } else {
            let j = if d0[0] > 0 { 1int } else { 0int };
            lemma_used_update(d0, j, 32);
        }
        lemma_ones_used(d1, 32);
        assert(d1.take(32) =~= d1);
        crate::math::lemma_pow2_small();
        assert forall|i: int| 0 <= i < d1.len() implies #[trigger] d1[i] == 0 || d1[i] == 1 by {
            assert(d1[i] <= 1);
        }
        crate::tree::lemma_single_length_fits(d1, 1);
    }
}

proof fn lemma_count_used_mono(s: Seq<u32>, a: int, b: int)
    requires
        0 <= a <= b,
    ensures
        count_used(s, a) <= count_used(s, b),
    decreases b - a,
{
    if b > a {
        lemma_count_used_mono(s, a, b - 1);
    }
}

/// After the patch at least two of the first 30 distance codes are in use.
pub proof fn lemma_patch_uses_two_codes(d: Seq<u32>)
    requires
        d.len() >= 30,
    ensures
        count_used(
            if count_used(d, 30) >= 2 {
                d
            } else if count_used(d, 30) == 0 {
                d.update(0, 1).update(1, 1)
            } else if d[0] > 0 {
                d.update(1, 1)
            } else {
                d.update(0, 1)
            },
            30,
        ) >= 2,
{
    let d2 = if count_used(d, 30) >= 2 {
        d
    } else if count_used(d, 30) == 0 {
        d.update(0, 1).update(1, 1)
    } else if d[0] > 0 {
        d.update(1, 1)
    } else {
        d.update(0, 1)
    };
    lemma_count_used_mono(d, 0, 30);
    assert(count_used(d, 0) == 0);
    if count_used(d, 30) == 0 {
        if d[0] > 0 {
            lemma_count_used_pos(d, 0, 30);
        }
        if d[1] > 0 {
            lemma_count_used_pos(d, 1, 30);
        }
        let d1 = d.update(0, 1);
        lemma_count_used_set(d, 0, 1, 30);
        lemma_count_used_set(d1, 1, 1, 30);
    } else if count_used(d, 30) == 1 {
        if d[0] > 0 {
            if d[1] == 0 {
                lemma_count_used_set(d, 1, 1, 30);
            } else {
                lemma_count_used_two(d, 30);
            }
        } else {
            lemma_count_used_set(d, 0, 1, 30);
        }
    }
}

/// Setting an unused length to a used one adds one to the count.
proof fn lemma_count_used_set(d: Seq<u32>, j: int, v: u32, k: int)
    requires
        0 <= j < k <= d.len(),
        d[j] == 0,
        v > 0,
    ensures
        count_used(d.update(j, v), k) == count_used(d, k) + 1,
    decreases k,
{
    if k - 1 > j {
        lemma_count_used_set(d, j, v, k - 1);
    } else {
        lemma_count_used_same(d, d.update(j, v), j);
    }
}

/// Counts agree where the lengths agree.
proof fn lemma_count_used_same(d: Seq<u32>, d2: Seq<u32>, k: int)
    requires
        0 <= k <= d.len(),
        k <= d2.len(),
        forall|i: int| 0 <= i < k ==> d2[i] == d[i],
    ensures
        count_used(d2, k) == count_used(d, k),
    decreases k,
{
    if k > 0 {
        lemma_count_used_same(d, d2, k - 1);
    }
}

/// Two used lengths among the first two give a count of at least two.
proof fn lemma_count_used_two(d: Seq<u32>, k: int)
    requires
        2 <= k <= d.len(),
        d[0] > 0,
        d[1] > 0,
    ensures
        count_used(d, k) >= 2,
    decreases k,
{
    if k > 2 {
        lemma_count_used_two(d, k - 1);
    } else {
        assert(count_used(d, 0) == 0);
        assert(count_used(d, 1) == 1);
    }
}

/// A used length among the first `k` makes the count positive.
proof fn lemma_count_used_pos(d: Seq<u32>, j: int, k: int)
    requires
        0 <= j < k <= d.len(),
        d[j] > 0,
    ensures
        count_used(d, k) >= 1,
    decreases k,
{
    if k - 1 > j {
        lemma_count_used_pos(d, j, k - 1);
    } else {
        lemma_count_used_mono(d, 0, k - 1);
        assert(count_used(d, 0) == 0);
    }
}


/// A command costs fewer than 2^18 bits when the code lengths are bounded.
proof fn lemma_cmd_bits_bound(ll_lengths: Seq<u32>, d_lengths: Seq<u32>, litlen: u16, dist: u16)
    requires
        ll_lengths.len() >= 288,
        d_lengths.len() >= 32,
        lengths_bounded(ll_lengths),
        lengths_bounded(d_lengths),
    ensures
        0 <= cmd_bits(ll_lengths, d_lengths, litlen, dist) < 262144,
{
    if dist != 0 {
        crate::lz77::lemma_length_symbol_bound(litlen as int);
        crate::lz77::lemma_dist_symbol_bound(dist as int);
        let ls = spec_length_symbol(litlen as int);
        let ds = spec_dist_symbol(dist as int);
        assert(ll_lengths[ls] < 65536);
        assert(d_lengths[ds] < 65536);
    }
}

/// Helper to calculate the bit size of literal/length/distance symbols in a range
/// using a simple loop. Used for small inputs or as a fallback.
pub fn calculate_block_symbol_size_small(
    ll_lengths: &[u32],
    d_lengths: &[u32],
    store: &Lz77StoreView<'_>,
    lstart: usize,
    lend: usize,
) -> (r: usize)
    requires
        wide_usize(),
        ll_lengths@.len() >= 288,
        d_lengths@.len() >= 32,
        lengths_bounded(ll_lengths@),
        lengths_bounded(d_lengths@),
        lstart <= lend <= store.litlens@.len(),
        store.dists@.len() == store.litlens@.len(),
        lend - lstart < 0x1_0000_0000,
    ensures
        r == symbols_bits(ll_lengths@, d_lengths@, store.litlens@, store.dists@, lstart as int, lend as int)
            + ll_lengths@[256],
        r < 0x0400_0000_0000_0000,
{
    let ghost ll = ll_lengths@;
    let ghost dl = d_lengths@;
    let mut result: usize = 0;
    let mut i = lstart;
    while i < lend
        invariant
            wide_usize(),
            lstart <= i <= lend <= store.litlens@.len(),
            store.dists@.len() == store.litlens@.len(),
            lend - lstart < 0x1_0000_0000,
            ll == ll_lengths@,
            dl == d_lengths@,
            ll.len() >= 288,
            dl.len() >= 32,
            lengths_bounded(ll),
            lengths_bounded(dl),
            result == symbols_bits(ll, dl, store.litlens@, store.dists@, lstart as int, i as int),
            result <= (i - lstart) * 262144,
        decreases lend - i,
    {
        let dist = store.dists[i];
        let litlen = store.litlens[i];
        proof {
            lemma_cmd_bits_bound(ll, dl, litlen, dist);
        }
        if dist == 0 {
            let idx = litlen as usize;
            if idx < NUM_LL {
                result = result + ll_lengths[idx] as usize;
            }
        } else {
            let ll_symbol = get_length_symbol(litlen as usize) as usize;
            let d_symbol = get_dist_symbol(dist as usize) as usize;
            proof {
                crate::lz77::lemma_length_symbol_bound(litlen as int);
                crate::lz77::lemma_dist_symbol_bound(dist as int);
            }
            result = result + ll_lengths[ll_symbol] as usize;
            result = result + d_lengths[d_symbol] as usize;
            result = result + get_length_symbol_extra_bits(ll_symbol) as usize;
            result = result + get_dist_symbol_extra_bits(d_symbol) as usize;
        }
        i = i + 1;
    }
    result = result + ll_lengths[256] as usize;
    result
}

/// Weighted literal/length costs of the symbols `lo..hi`: code length plus extra bits,
/// times the count.
pub open spec fn ll_weighted(ll_lengths: Seq<u32>, ll_counts: Seq<usize>, lo: int, hi: int) -> int
    decreases hi - lo,
{
    if hi <= lo {
        0
    } else {
        ll_weighted(ll_lengths, ll_counts, lo, hi - 1) + (ll_lengths[hi - 1] + spec_length_symbol_extra_bits(
            hi - 1,
        )) * ll_counts[hi - 1]
    }
}

/// Weighted distance costs of the symbols `lo..hi`.
pub open spec fn d_weighted(d_lengths: Seq<u32>, d_counts: Seq<usize>, lo: int, hi: int) -> int
    decreases hi - lo,
{
    if hi <= lo {
        0
    } else {
        d_weighted(d_lengths, d_counts, lo, hi - 1) + (d_lengths[hi - 1] + spec_dist_symbol_extra_bits(hi - 1))
            * d_counts[hi - 1]
    }
}

/// Bits of a block from its symbol counts: literals, lengths, distances and the end
/// symbol.
pub open spec fn counts_bits(
    ll_lengths: Seq<u32>,
    d_lengths: Seq<u32>,
    ll_counts: Seq<usize>,
    d_counts: Seq<usize>,
) -> int {
    ll_weighted(ll_lengths, ll_counts, 0, 256) + ll_weighted(ll_lengths, ll_counts, 257, 286) + d_weighted(
        d_lengths,
        d_counts,
        0,
        30,
    ) + ll_lengths[256]
}

/// Every count in `s` is at most 2^32.
pub open spec fn counts_bounded(s: Seq<usize>) -> bool {
    forall|i: int| 0 <= i < s.len() ==> #[trigger] s[i] <= 0x1_0000_0000
}

/// Calculates the bit size of literal/length/distance symbols in a range,
/// using precalculated histogram counts when the size of the range is large.
pub fn calculate_block_symbol_size_given_counts(
    ll_counts: &[usize],
    d_counts: &[usize],
    ll_lengths: &[u32],
    d_lengths: &[u32],
    store: &Lz77StoreView<'_>,
    lstart: usize,
    lend: usize,
) -> (r: usize)
    requires
        wide_usize(),
        ll_counts@.len() >= 286,
        d_counts@.len() >= 30,
        counts_bounded(ll_counts@),
        counts_bounded(d_counts@),
        ll_lengths@.len() >= 288,
        d_lengths@.len() >= 32,
        lengths_bounded(ll_lengths@),
        lengths_bounded(d_lengths@),
        lstart <= lend <= store.litlens@.len(),
        store.dists@.len() == store.litlens@.len(),
        lend - lstart < 0x1_0000_0000,
    ensures
        lend - lstart < 864 ==> r == symbols_bits(
            ll_lengths@,
            d_lengths@,
            store.litlens@,
            store.dists@,
            lstart as int,
            lend as int,
        ) + ll_lengths@[256],
        lend - lstart >= 864 ==> r == counts_bits(ll_lengths@, d_lengths@, ll_counts@, d_counts@),
        r < 0x0400_0000_0000_0000,
{
    if lend - lstart < NUM_LL * 3 {
        calculate_block_symbol_size_small(ll_lengths, d_lengths, store, lstart, lend)
    } else {
        let ghost ll = ll_lengths@;
        let ghost lc = ll_counts@;
        let ghost dl = d_lengths@;
        let ghost dc = d_counts@;
        let mut result: usize = 0;
        let mut i: usize = 0;
        while i < 256
            invariant
                wide_usize(),
                i <= 256,
                ll == ll_lengths@,
                lc == ll_counts@,
                ll.len() >= 288,
                lc.len() >= 286,
                lengths_bounded(ll),
                counts_bounded(lc),
                result == ll_weighted(ll, lc, 0, i as int),
                result <= i * 0x1_0000_0000_0000,
            decreases 256 - i,
        {
            let a = ll_lengths[i] as usize;
            let b = ll_counts[i];
            proof {
                assert(a < 65536 && b <= 0x1_0000_0000);
                assert(a * b <= 0x1_0000_0000_0000) by (nonlinear_arith)
                    requires
                        a < 65536,
                        b <= 0x1_0000_0000,
                ;
            }
            result = result + a * b;
            i = i + 1;
        }
        let mut i: usize = 257;
        let ghost base = result as int;
        while i < 286
            invariant
                wide_usize(),
                257 <= i <= 286,
                ll == ll_lengths@,
                lc == ll_counts@,
                ll.len() >= 288,
                lc.len() >= 286,
                lengths_bounded(ll),
                counts_bounded(lc),
                base == ll_weighted(ll, lc, 0, 256),
                base <= 256 * 0x1_0000_0000_0000,
                result == base + ll_weighted(ll, lc, 257, i as int),
                result <= base + (i - 257) * 0x2_0000_0000_0000,
            decreases 286 - i,
        {
            let a = ll_lengths[i] as usize;
            let b = ll_counts[i];
            let e = get_length_symbol_extra_bits(i) as usize;
            proof {
                assert(e <= 5);
                assert(a * b <= 0x1_0000_0000_0000) by (nonlinear_arith)
                    requires
                        a < 65536,
                        b <= 0x1_0000_0000,
                ;
                assert(e * b <= 0x10_0000_0000) by (nonlinear_arith)
                    requires
                        e <= 5,
                        b <= 0x1_0000_0000,
                ;
                assert((a + e) * b == a * b + e * b) by (nonlinear_arith);
            }
            result = result + a * b;
            result = result + e * b;
            i = i + 1;
        }
        let mut i: usize = 0;
        let ghost base2 = result as int;
        while i < 30
            invariant
                wide_usize(),
                i <= 30,
                dl == d_lengths@,
                dc == d_counts@,
                dl.len() >= 32,
                dc.len() >= 30,
                lengths_bounded(dl),
                counts_bounded(dc),
                base2 <= 256 * 0x1_0000_0000_0000 + 29 * 0x2_0000_0000_0000,
                result == base2 + d_weighted(dl, dc, 0, i as int),
                result <= base2 + i * 0x2_0000_0000_0000,
            decreases 30 - i,
        {
            let a = d_lengths[i] as usize;
            let b = d_counts[i];
            let e = get_dist_symbol_extra_bits(i) as usize;
            proof {
                assert(e <= 13);
                assert(a * b <= 0x1_0000_0000_0000) by (nonlinear_arith)
                    requires
                        a < 65536,
                        b <= 0x1_0000_0000,
                ;
                assert(e * b <= 0x100_0000_0000) by (nonlinear_arith)
                    requires
                        e <= 13,
                        b <= 0x1_0000_0000,
                ;
                assert((a + e) * b == a * b + e * b) by (nonlinear_arith);
            }
            result = result + a * b;
            result = result + e * b;
            i = i + 1;
        }
        result = result + ll_lengths[256] as usize;
        result
    }
}

/// The commands `lo..hi` are byte literals or back-references that DEFLATE can code.
pub open spec fn cmds_codable(litlens: Seq<u16>, dists: Seq<u16>, lo: int, hi: int) -> bool {
    forall|i: int|
        lo <= i < hi ==> if #[trigger] dists[i] == 0 {
            litlens[i] < 256
        } else {
            3 <= litlens[i] <= 258 && dists[i] <= 32768
        }
}

/// Weighted literal/length costs of the symbols `a..b`, with the counts of the
/// commands `lo..hi`.
pub open spec fn ll_weighted_cmds(
    ll_lengths: Seq<u32>,
    litlens: Seq<u16>,
    dists: Seq<u16>,
    lo: int,
    hi: int,
    a: int,
    b: int,
) -> int
    decreases b - a,
{
    if b <= a {
        0
    } else {
        ll_weighted_cmds(ll_lengths, litlens, dists, lo, hi, a, b - 1) + (ll_lengths[b - 1]
            + spec_length_symbol_extra_bits(b - 1)) * count_ll(litlens, dists, lo, hi, b - 1)
    }
}

/// Weighted distance costs of the symbols `a..b`, with the counts of the commands
/// `lo..hi`.
pub open spec fn d_weighted_cmds(d_lengths: Seq<u32>, dists: Seq<u16>, lo: int, hi: int, a: int, b: int) -> int
    decreases b - a,
{
    if b <= a {
        0
    } else {
        d_weighted_cmds(d_lengths, dists, lo, hi, a, b - 1) + (d_lengths[b - 1] + spec_dist_symbol_extra_bits(
            b - 1,
        )) * count_d(dists, lo, hi, b - 1)
    }
}

proof fn lemma_ll_weighted_step(
    ll_lengths: Seq<u32>,
    litlens: Seq<u16>,
    dists: Seq<u16>,
    lo: int,
    hi: int,
    a: int,
    b: int,
)
    requires
        lo <= hi,
        a <= b,
    ensures
        ({
            let sym = crate::lz77::ll_symbol(litlens[hi], dists[hi]);
            ll_weighted_cmds(ll_lengths, litlens, dists, lo, hi + 1, a, b) == ll_weighted_cmds(
                ll_lengths,
                litlens,
                dists,
                lo,
                hi,
                a,
                b,
            ) + if a <= sym < b {
                ll_lengths[sym] + spec_length_symbol_extra_bits(sym)
            } else {
                0
            }
        }),
    decreases b - a,
{
    if b > a {
        lemma_ll_weighted_step(ll_lengths, litlens, dists, lo, hi, a, b - 1);
        let w = ll_lengths[b - 1] + spec_length_symbol_extra_bits(b - 1);
        let c = count_ll(litlens, dists, lo, hi, b - 1) as int;
        assert(w * (c + 1) == w * c + w) by (nonlinear_arith);
    }
}

proof fn lemma_d_weighted_step(d_lengths: Seq<u32>, dists: Seq<u16>, lo: int, hi: int, a: int, b: int)
    requires
        lo <= hi,
        a <= b,
    ensures
        ({
            let sym = spec_dist_symbol(dists[hi] as int);
            d_weighted_cmds(d_lengths, dists, lo, hi + 1, a, b) == d_weighted_cmds(d_lengths, dists, lo, hi, a, b)
                + if dists[hi] != 0 && a <= sym < b {
                d_lengths[sym] + spec_dist_symbol_extra_bits(sym)
            } else {
                0
            }
        }),
    decreases b - a,
{
    if b > a {
        lemma_d_weighted_step(d_lengths, dists, lo, hi, a, b - 1);
        let w = d_lengths[b - 1] + spec_dist_symbol_extra_bits(b - 1);
        let c = count_d(dists, lo, hi, b - 1) as int;
        assert(w * (c + 1) == w * c + w) by (nonlinear_arith);
    }
}

proof fn lemma_weighted_empty(ll_lengths: Seq<u32>, d_lengths: Seq<u32>, litlens: Seq<u16>, dists: Seq<u16>, lo: int, a: int, b: int)
    requires
        a <= b,
    ensures
        ll_weighted_cmds(ll_lengths, litlens, dists, lo, lo, a, b) == 0,
        d_weighted_cmds(d_lengths, dists, lo, lo, a, b) == 0,
    decreases b - a,
{
    if b > a {
        lemma_weighted_empty(ll_lengths, d_lengths, litlens, dists, lo, a, b - 1);
        assert(count_ll(litlens, dists, lo, lo, b - 1) == 0);
        assert(count_d(dists, lo, lo, b - 1) == 0);
        let w1 = ll_lengths[b - 1] + spec_length_symbol_extra_bits(b - 1);
        let w2 = d_lengths[b - 1] + spec_dist_symbol_extra_bits(b - 1);
        assert(w1 * 0 == 0 && w2 * 0 == 0) by (nonlinear_arith);
    }
}

/// Costing a block symbol by symbol, from its histogram, gives the same bits as costing
/// it command by command.
pub proof fn lemma_counts_bits_by_commands(
    ll_lengths: Seq<u32>,
    d_lengths: Seq<u32>,
    litlens: Seq<u16>,
    dists: Seq<u16>,
    lo: int,
    hi: int,
)
    requires
        0 <= lo <= hi <= litlens.len(),
        litlens.len() == dists.len(),
        ll_lengths.len() >= 288,
        d_lengths.len() >= 32,
        cmds_codable(litlens, dists, lo, hi),
    ensures
        ll_weighted_cmds(ll_lengths, litlens, dists, lo, hi, 0, 256) + ll_weighted_cmds(
            ll_lengths,
            litlens,
            dists,
            lo,
            hi,
            257,
            286,
        ) + d_weighted_cmds(d_lengths, dists, lo, hi, 0, 30) == symbols_bits(
            ll_lengths,
            d_lengths,
            litlens,
            dists,
            lo,
            hi,
        ),
    decreases hi - lo,
{
    if hi == lo {
        lemma_weighted_empty(ll_lengths, d_lengths, litlens, dists, lo, 0, 256);
        lemma_weighted_empty(ll_lengths, d_lengths, litlens, dists, lo, 257, 286);
        lemma_weighted_empty(ll_lengths, d_lengths, litlens, dists, lo, 0, 30);
    } else {
        lemma_counts_bits_by_commands(ll_lengths, d_lengths, litlens, dists, lo, hi - 1);
        lemma_ll_weighted_step(ll_lengths, litlens, dists, lo, hi - 1, 0, 256);
        lemma_ll_weighted_step(ll_lengths, litlens, dists, lo, hi - 1, 257, 286);
        lemma_d_weighted_step(d_lengths, dists, lo, hi - 1, 0, 30);
        let i = hi - 1;
        assert(dists[i] == 0 ==> litlens[i] < 256);
        if dists[i] != 0 {
            crate::symbols::length_code_law(litlens[i] as int);
            crate::symbols::dist_code_law(dists[i] as int);
        }
    }
}

/// Weighting given counts agrees with weighting the counts of the commands they count.
proof fn lemma_ll_weighted_counts(
    ll_lengths: Seq<u32>,
    ll_counts: Seq<usize>,
    litlens: Seq<u16>,
    dists: Seq<u16>,
    lo: int,
    hi: int,
    a: int,
    b: int,
)
    requires
        a <= b,
        forall|sym: int| a <= sym < b ==> #[trigger] ll_counts[sym] == count_ll(litlens, dists, lo, hi, sym),
    ensures
        ll_weighted(ll_lengths, ll_counts, a, b) == ll_weighted_cmds(ll_lengths, litlens, dists, lo, hi, a, b),
    decreases b - a,
{
    if b > a {
        lemma_ll_weighted_counts(ll_lengths, ll_counts, litlens, dists, lo, hi, a, b - 1);
        assert(ll_counts[b - 1] == count_ll(litlens, dists, lo, hi, b - 1));
    }
}

proof fn lemma_d_weighted_counts(
    d_lengths: Seq<u32>,
    d_counts: Seq<usize>,
    dists: Seq<u16>,
    lo: int,
    hi: int,
    a: int,
    b: int,
)
    requires
        a <= b,
        forall|sym: int| a <= sym < b ==> #[trigger] d_counts[sym] == count_d(dists, lo, hi, sym),
    ensures
        d_weighted(d_lengths, d_counts, a, b) == d_weighted_cmds(d_lengths, dists, lo, hi, a, b),
    decreases b - a,
{
    if b > a {
        lemma_d_weighted_counts(d_lengths, d_counts, dists, lo, hi, a, b - 1);
        assert(d_counts[b - 1] == count_d(dists, lo, hi, b - 1));
    }
}

/// Calculates the bit size of literal/length/distance symbols in a range,
/// dynamically computing a histogram if the range is large.
pub fn calculate_block_symbol_size(
    ll_lengths: &[u32],
    d_lengths: &[u32],
    store: &Lz77StoreView<'_>,
    lstart: usize,
    lend: usize,
) -> (r: usize)
    requires
        wide_usize(),
        ll_lengths@.len() >= 288,
        d_lengths@.len() >= 32,
        lengths_bounded(ll_lengths@),
        lengths_bounded(d_lengths@),
        lstart <= lend <= store.litlens@.len(),
        store.dists@.len() == store.litlens@.len(),
        lend - lstart < 0x1_0000_0000,
        lend - lstart >= 864 ==> (store.ll_counts@.len() > 0 && store.d_counts@.len() > 0 ==> store.wf()) && cmds_codable(store.litlens@, store.dists@, lstart as int, lend as int),
    ensures
        r == symbols_bits(ll_lengths@, d_lengths@, store.litlens@, store.dists@, lstart as int, lend as int)
            + ll_lengths@[256],
        r < 0x0400_0000_0000_0000,
{
    if lend - lstart < NUM_LL * 3 {
        calculate_block_symbol_size_small(ll_lengths, d_lengths, store, lstart, lend)
    } else {
        let mut ll_counts = [0usize; NUM_LL];
        let mut d_counts = [0usize; NUM_D];
        store.get_histogram(lstart, lend, &mut ll_counts, &mut d_counts);
        proof {
            let l = store.litlens@;
            let d = store.dists@;
            assert forall|i: int| 0 <= i < 288 implies #[trigger] ll_counts@[i] <= 0x1_0000_0000 by {
                crate::lz77::lemma_count_bound(l, d, lstart as int, lend as int, i);
            }
            assert forall|i: int| 0 <= i < 32 implies #[trigger] d_counts@[i] <= 0x1_0000_0000 by {
                crate::lz77::lemma_count_bound(l, d, lstart as int, lend as int, i);
            }
            lemma_ll_weighted_counts(ll_lengths@, ll_counts@, l, d, lstart as int, lend as int, 0, 256);
            lemma_ll_weighted_counts(ll_lengths@, ll_counts@, l, d, lstart as int, lend as int, 257, 286);
            lemma_d_weighted_counts(d_lengths@, d_counts@, d, lstart as int, lend as int, 0, 30);
            lemma_counts_bits_by_commands(ll_lengths@, d_lengths@, l, d, lstart as int, lend as int);
        }
        calculate_block_symbol_size_given_counts(
            &ll_counts,
            &d_counts,
            ll_lengths,
            d_lengths,
            store,
            lstart,
            lend,
        )
    }
}

/// Number of counts up to the last nonzero one among the first `n`.
pub open spec fn nonzero_len(counts: Seq<usize>, n: int) -> int
    decreases n,
{
    if n <= 0 {
        0
    } else if counts[n - 1] != 0 {
        n
    } else {
        nonzero_len(counts, n - 1)
    }
}

/// The counts `s..e` all equal `v`.
pub open spec fn same_from(counts: Seq<usize>, s: int, e: int, v: usize) -> bool {
    forall|t: int| s <= t < e ==> #[trigger] counts[t] == v
}

/// Count `j` lies, within the first `len` counts, in a stretch of at least 5 equal zeros
/// or 7 equal nonzero counts: run-length coding handles it well as it is.
pub open spec fn in_long_run(counts: Seq<usize>, len: int, j: int) -> bool {
    exists|s: int, e: int|
        0 <= s <= j < e <= len && e - s >= (if counts[j] == 0 {
            5int
        } else {
            7int
        }) && #[trigger] same_from(counts, s, e, counts[j])
}

/// The distance between two counts.
pub open spec fn count_diff(a: int, b: int) -> int {
    if a > b {
        a - b
    } else {
        b - a
    }
}

/// What a stretch of `stride` counts summing to `sum` becomes: their rounded mean, at
/// least 1 unless they are all zero.
pub open spec fn stretch_value(sum: int, stride: int) -> int {
    if sum == 0 {
        0
    } else if (sum + stride / 2) / stride < 1 {
        1
    } else {
        (sum + stride / 2) / stride
    }
}

/// The reference value after a stretch ends at `i`: the rounded mean of the next four
/// counts, the count at `i` near the end, 0 at the end.
pub open spec fn next_limit(counts: Seq<usize>, len: int, i: int) -> int {
    if i + 3 < len {
        (counts[i] + counts[i + 1] + counts[i + 2] + counts[i + 3] + 2) / 4
    } else if i < len {
        counts[i] as int
    } else {
        0
    }
}

/// `out` with the entries `a..b` set to `v`.
pub open spec fn fill_range(out: Seq<usize>, a: int, b: int, v: usize) -> Seq<usize> {
    Seq::new(
        out.len(),
        |t: int|
            if a <= t < b {
                v
            } else {
                out[t]
            },
    )
}

/// The smoothing pass over the first `len` counts `c`, from position `i` on, with `stride`
/// counts gathered since the last stretch ended, summing to `sum`, and the reference value
/// `limit`. A stretch ends at the end, at a count in a long run, or at a count 4 or more
/// away from the reference; a stretch of 4 or more counts (3 or more if they are all 0)
/// is replaced in `out` by its `stretch_value`.
pub open spec fn smoothed(
    c: Seq<usize>,
    len: int,
    i: int,
    stride: int,
    sum: int,
    limit: int,
    out: Seq<usize>,
) -> Seq<usize>
    decreases len + 1 - i,
{
    if i < 0 || i > len {
        out
    } else {
        let ends = i == len || in_long_run(c, len, i) || count_diff(c[i] as int, limit) >= 4;
        let out1 = if ends && (stride >= 4 || (stride >= 3 && sum == 0)) {
            fill_range(out, i - stride, i, stretch_value(sum, stride) as usize)
        } else {
            out
        };
        let sum1 = if ends {
            0
        } else {
            sum
        };
        smoothed(
            c,
            len,
            i + 1,
            if ends {
                1
            } else {
                stride + 1
            },
            if i != len {
                sum1 + c[i]
            } else {
                sum1
            },
            if ends {
                next_limit(c, len, i)
            } else {
                limit
            },
            out1,
        )
    }
}

/// What smoothing the counts for run-length coding gives.
pub open spec fn rle_smoothed(c: Seq<usize>) -> Seq<usize> {
    let len = nonzero_len(c, c.len() as int);
    if len == 0 {
        c
    } else {
        smoothed(c, len, 0, 0, 0, c[0] as int, c)
    }
}

/// Sum of the counts `a..b`.
pub open spec fn seg_sum(c: Seq<usize>, a: int, b: int) -> int
    decreases b - a,
{
    if b <= a {
        0
    } else {
        seg_sum(c, a, b - 1) + c[b - 1]
    }
}

proof fn lemma_seg_sum_split(c: Seq<usize>, a: int, m: int, b: int)
    requires
        a <= m <= b,
    ensures
        seg_sum(c, a, b) == seg_sum(c, a, m) + seg_sum(c, m, b),
    decreases b - m,
{
    if b > m {
        lemma_seg_sum_split(c, a, m, b - 1);
    }
}

proof fn lemma_seg_sum_nonneg(c: Seq<usize>, a: int, b: int)
    ensures
        seg_sum(c, a, b) >= 0,
    decreases b - a,
{
    if b > a {
        lemma_seg_sum_nonneg(c, a, b - 1);
    }
}

/// A part of a range sums to no more than the range.
proof fn lemma_seg_sum_within(c: Seq<usize>, a: int, b: int, a2: int, b2: int)
    requires
        a <= a2 <= b2 <= b,
    ensures
        seg_sum(c, a2, b2) <= seg_sum(c, a, b),
{
    lemma_seg_sum_split(c, a, a2, b);
    lemma_seg_sum_split(c, a2, b2, b);
    lemma_seg_sum_nonneg(c, a, a2);
    lemma_seg_sum_nonneg(c, b2, b);
}

/// Counts of at most `m` each sum to at most `m` times their number.
proof fn lemma_seg_sum_bound(c: Seq<usize>, a: int, b: int, m: int)
    requires
        a <= b,
        forall|j: int| a <= j < b ==> #[trigger] c[j] <= m,
    ensures
        seg_sum(c, a, b) <= (b - a) * m,
    decreases b - a,
{
    if b > a {
        lemma_seg_sum_bound(c, a, b - 1, m);
        assert(seg_sum(c, a, b) == seg_sum(c, a, b - 1) + c[b - 1]);
        assert(c[b - 1] <= m);
        assert((b - 1 - a) * m + m == (b - a) * m) by (nonlinear_arith);
    } else {
        assert((b - a) * m == 0) by (nonlinear_arith)
            requires
                b == a,
        ;
    }
}

/// The reference value after a stretch ends at `i` (see `next_limit`), read from `counts`,
/// which from `i` on still holds the counts `c0`.
fn stretch_limit(counts: &[usize], i: usize, length: usize, Ghost(c0): Ghost<Seq<usize>>) -> (r: usize)
    requires
        i <= length <= c0.len(),
        counts@.len() == c0.len(),
        forall|j: int| i <= j < c0.len() ==> #[trigger] counts@[j] == c0[j],
        seg_sum(c0, 0, c0.len() as int) + 2 <= usize::MAX,
    ensures
        r == next_limit(c0, length as int, i as int),
{
    if length > 3 && i < length - 3 {
        proof {
            lemma_seg_sum_within(c0, 0, c0.len() as int, i as int, i + 4);
            reveal_with_fuel(seg_sum, 5);
            lemma_seg_sum_nonneg(c0, 0, c0.len() as int);
        }
        (counts[i] + counts[i + 1] + counts[i + 2] + counts[i + 3] + 2) / 4
    } else if i < length {
        counts[i]
    } else {
        0
    }
}

/// Smooths out symbol counts/frequencies to make them more suitable for RLE encoding.
#[verifier::loop_isolation(false)]
#[verifier::spinoff_prover]
#[verifier::rlimit(80)]
pub fn optimize_huffman_for_rle(counts: &mut [usize])
    requires
        seg_sum(old(counts)@, 0, old(counts)@.len() as int) + old(counts)@.len() + 2 <= usize::MAX,
    ensures
        final(counts)@.len() == old(counts)@.len(),
        counts_bounded(old(counts)@) ==> counts_bounded(final(counts)@),
        forall|i: int| 0 <= i < old(counts)@.len() && #[trigger] old(counts)@[i] > 0 ==> final(counts)@[i] > 0,
        forall|i: int| 0 <= i <= old(counts)@.len() && #[trigger] zero_from(old(counts)@, i) ==> zero_from(final(counts)@, i),
        final(counts)@ == rle_smoothed(old(counts)@),
{
    let ghost c0 = counts@;
    let mut length = counts.len();
    while length > 0
        invariant
            length <= c0.len(),
            counts@ == c0,
            forall|j: int| length <= j < c0.len() ==> #[trigger] c0[j] == 0,
            nonzero_len(c0, c0.len() as int) == nonzero_len(c0, length as int),
        decreases length,
    {
        if counts[length - 1] != 0 {
            break;
        }
        length = length - 1;
    }
    if length == 0 {
        return;
    }
    proof {
        assert(c0[length - 1] != 0);
        assert(nonzero_len(c0, length as int) == length);
    }
    let ghost len = length as int;
    let ghost total = seg_sum(c0, 0, c0.len() as int);
    proof {
        lemma_seg_sum_nonneg(c0, 0, c0.len() as int);
    }
    let mut good_for_rle = vec![false; length];
    let mut symbol = counts[0];
    let mut stride: usize = 0;
    let mut i: usize = 0;
    while i < length + 1
        invariant
            i <= length + 1,
            length <= c0.len(),
            total + c0.len() + 2 <= usize::MAX,
            len == length,
            counts@ == c0,
            good_for_rle@.len() == length,
            stride <= i,
            i == 0 ==> stride == 0 && symbol == c0[0],
            0 < i <= length ==> stride >= 1 && symbol == c0[i - 1] && same_from(c0, i - stride, i as int, symbol),
            0 < i <= length && i - stride > 0 ==> c0[i - stride - 1] != symbol,
            i == length + 1 ==> stride == 1,
            forall|t: int| 0 <= t < i - stride && t < length ==> #[trigger] good_for_rle@[t] == in_long_run(c0, len, t),
            forall|t: int| i - stride <= t < length ==> !#[trigger] good_for_rle@[t],
        decreases length + 1 - i,
    {
        if i == length || counts[i] != symbol {
            let ghost g0 = good_for_rle@;
            let long = (symbol == 0 && stride >= 5) || (symbol != 0 && stride >= 7);
            proof {
                assert forall|t: int| i - stride <= t < i implies in_long_run(c0, len, t) == long by {
                    assert(c0[t] == symbol);
                    if long {
                        assert(same_from(c0, i - stride, i as int, c0[t]));
                    }
                    if in_long_run(c0, len, t) {
                        let (a, b) = choose|a: int, b: int|
                            0 <= a <= t < b <= len && b - a >= (if c0[t] == 0 {
                                5int
                            } else {
                                7int
                            }) && #[trigger] same_from(c0, a, b, c0[t]);
                        if a < i - stride {
                            assert(c0[i - stride - 1] == c0[t]);
                        }
                        if b > i {
                            assert(c0[i as int] == c0[t]);
                        }
                    }
                }
            }
            if long {
                let mut k: usize = 0;
                while k < stride
                    invariant
                        k <= stride,
                        stride <= i,
                        i <= length,
                        good_for_rle@.len() == length,
                        forall|t: int| 0 <= t < length ==> #[trigger] good_for_rle@[t] == if i - k <= t < i {
                            true
                        } else {
                            g0[t]
                        },
                    decreases stride - k,
                {
                    good_for_rle[i - k - 1] = true;
                    k = k + 1;
                }
            }
            stride = 1;
            if i != length {
                symbol = counts[i];
            }
        } else {
            proof {
                assert forall|t: int| i + 1 - (stride + 1) <= t < i + 1 implies #[trigger] c0[t] == symbol by {
                    if t < i {
                        assert(same_from(c0, i - stride, i as int, symbol));
                    }
                }
            }
            stride = stride + 1;
        }
        i = i + 1;
    }
    let ghost target = smoothed(c0, len, 0, 0, 0, c0[0] as int, c0);
    stride = 0;
    let mut limit = counts[0];
    let mut sum: usize = 0;
    let mut i: usize = 0;
    while i < length + 1
        invariant
            i <= length + 1,
            length <= c0.len(),
            total + c0.len() + 2 <= usize::MAX,
            len == length,
            good_for_rle@.len() == length,
            forall|t: int| 0 <= t < length ==> #[trigger] good_for_rle@[t] == in_long_run(c0, len, t),
            counts@.len() == c0.len(),
            stride <= i,
            i <= length ==> i - stride >= 0,
            forall|j: int| i <= j < c0.len() ==> #[trigger] counts@[j] == c0[j],
            forall|j: int| length <= j < c0.len() ==> #[trigger] counts@[j] == c0[j],
            forall|j: int| i - stride <= j < i && j < length ==> #[trigger] counts@[j] == c0[j],
            forall|j: int| i - stride <= j < i && j < length ==> #[trigger] c0[j] <= sum,
            i <= length ==> sum == seg_sum(c0, i - stride, i as int),
            i > length ==> sum == 0,
            counts_bounded(c0) ==> sum <= stride * 0x1_0000_0000,
            counts_bounded(c0) ==> counts_bounded(counts@),
            forall|j: int|
                0 <= j < i - stride && j < length ==> (c0[j] > 0 ==> #[trigger] counts@[j] > 0),
            smoothed(c0, len, i as int, stride as int, sum as int, limit as int, counts@) == target,
        decreases length + 1 - i,
    {
        let abs_diff: usize = if i == length {
            0
        } else if counts[i] > limit {
            counts[i] - limit
        } else {
            limit - counts[i]
        };
        let ghost before = counts@;
        let ghost ends = i == length || in_long_run(c0, len, i as int) || count_diff(c0[i as int] as int, limit as int) >= 4;
        proof {
            if i < length {
                assert(abs_diff == count_diff(c0[i as int] as int, limit as int));
            }
        }
        if i == length || good_for_rle[i] || abs_diff >= 4 {
            let ghost filled = stride >= 4 || (stride >= 3 && sum == 0);
            if stride >= 4 || (stride >= 3 && sum == 0) {
                proof {
                    lemma_seg_sum_within(c0, 0, c0.len() as int, i - stride, i as int);
                }
                let q = (sum + stride / 2) / stride;
                proof {
                    if counts_bounded(c0) {
                        let h = stride / 2;
                        let top = stride * 0x1_0000_0000 + (stride - 1);
                        vstd::arithmetic::div_mod::lemma_div_is_ordered((sum + h) as int, top, stride as int);
                        vstd::arithmetic::div_mod::lemma_fundamental_div_mod_converse(
                            top,
                            stride as int,
                            0x1_0000_0000,
                            stride - 1,
                        );
                    }
                }
                let mut count = q;
                if count < 1 {
                    count = 1;
                }
                if sum == 0 {
                    count = 0;
                }
                proof {
                    assert(count as int == stretch_value(sum as int, stride as int));
                }
                let mut k: usize = 0;
                while k < stride
                    invariant
                        k <= stride,
                        stride <= i,
                        i <= length + 1,
                        counts@.len() == c0.len(),
                        counts_bounded(c0) ==> count <= 0x1_0000_0000,
                        sum > 0 ==> count > 0,
                        forall|j: int| i <= j < c0.len() ==> #[trigger] counts@[j] == c0[j],
                        forall|j: int| length <= j < c0.len() ==> #[trigger] counts@[j] == c0[j],
                        forall|j: int| i - stride <= j < i - k && j < length ==> #[trigger] counts@[j] == c0[j],
                        forall|j: int| i - k <= j < i ==> #[trigger] counts@[j] == count,
                        counts_bounded(c0) ==> counts_bounded(counts@),
                        forall|j: int|
                            0 <= j < i - stride && j < length ==> (c0[j] > 0 ==> #[trigger] counts@[j] > 0),
                        counts@ == fill_range(before, i - k, i as int, count),
                    decreases stride - k,
                {
                    counts[i - k - 1] = count;
                    k = k + 1;
                    proof {
                        assert(counts@ =~= fill_range(before, i - k, i as int, count));
                    }
                }
            }
            proof {
                assert forall|j: int| 0 <= j < i && j < length implies (c0[j] > 0 ==> #[trigger] counts@[j] > 0) by {
                    if j >= i - stride && c0[j] > 0 {
                        assert(c0[j] <= sum);
                    }
                }
                if !filled {
                    assert(counts@ == before);
                }
            }
            stride = 0;
            sum = 0;
            limit = stretch_limit(counts, i, length, Ghost(c0));
            proof {
                assert(limit as int == next_limit(c0, len, i as int));
            }
        }
        proof {
            if i < length {
                lemma_seg_sum_within(c0, 0, c0.len() as int, i - stride, i + 1);
                assert(seg_sum(c0, i as int, i as int) == 0);
                assert(seg_sum(c0, i - stride, i + 1) == seg_sum(c0, i - stride, i as int) + c0[i as int]);
            }
        }
        stride = stride + 1;
        if i != length {
            sum = sum + counts[i];
        }
        i = i + 1;
    }
    proof {
        assert forall|k: int| 0 <= k <= c0.len() && #[trigger] zero_from(c0, k) implies zero_from(counts@, k) by {
            if k < length {
                assert(c0[length - 1] == 0);
            }
        }
    }
}

/// The counts from `i` on are all zero.
pub open spec fn zero_from(counts: Seq<usize>, i: int) -> bool {
    forall|j: int| i <= j < counts.len() ==> #[trigger] counts[j] == 0
}

/// Calculates the size of the dynamic Huffman tree in bits.
pub fn calculate_tree_size(ll_lengths: &[u32], d_lengths: &[u32]) -> (r: usize)
    requires
        ll_lengths@.len() >= 286,
        d_lengths@.len() >= 30,
        code_lengths_ok(ll_lengths@),
        code_lengths_ok(d_lengths@),
    ensures
        14 <= r <= 5000,
        exists|tree: Seq<bool>| #[trigger] is_tree_header(ll_lengths@, d_lengths@, tree) && tree.len() == r,
        exists|trees: Seq<Seq<bool>>, w: int|
            #[trigger] shortest_variant(ll_lengths@, d_lengths@, trees, w) && r == trees[w].len(),
{
    let mut result: usize = 0;
    let mut best: u32 = 0;
    let ghost mut trees: Seq<Seq<bool>> = Seq::empty();
    let mut i: u32 = 0;
    while i < 8
        invariant
            i <= 8,
            best < 8,
            i == 0 ==> result == 0,
            i > 0 ==> 14 <= result <= 5000,
            ll_lengths@.len() >= 286,
            d_lengths@.len() >= 30,
            code_lengths_ok(ll_lengths@),
            code_lengths_ok(d_lengths@),
            trees.len() == i,
            forall|v: int| 0 <= v < i ==> #[trigger] variant_header(ll_lengths@, d_lengths@, v as u32, trees[v]),
            i > 0 ==> best < i && result == trees[best as int].len(),
            forall|v: int| 0 <= v < i ==> result <= #[trigger] trees[v].len(),
            forall|v: int| 0 <= v < best ==> result < #[trigger] trees[v].len(),
        decreases 8 - i,
    {
        let mut dummy_bp: u8 = 0;
        let size = encode_tree(
            ll_lengths,
            d_lengths,
            (i & 1) != 0,
            (i & 2) != 0,
            (i & 4) != 0,
            &mut dummy_bp,
            None,
        );
        proof {
            let (g, gb, clcl) = choose|g: Seq<u32>, gb: Seq<u32>, clcl: Seq<u32>|
                #[trigger] tree_header_ok(ll_lengths@, d_lengths@, g, gb, clcl) && flags_respected(
                    g,
                    (i & 1) != 0,
                    (i & 2) != 0,
                    (i & 4) != 0,
                ) && size == tree_header_bits(ll_lengths@, d_lengths@, g, gb, clcl).len();
            let tree = tree_header_bits(ll_lengths@, d_lengths@, g, gb, clcl);
            assert(variant_header(ll_lengths@, d_lengths@, i, tree));
            trees = trees.push(tree);
            assert(trees[i as int] == tree);
            assert(forall|v: int| 0 <= v < i ==> trees[v] == trees.drop_last()[v]);
        }
        if result == 0 || size < result {
            result = size;
            best = i;
        }
        i = i + 1;
    }
    proof {
        assert(shortest_variant(ll_lengths@, d_lengths@, trees, best as int));
        lemma_variant_is_header(ll_lengths@, d_lengths@, (best as int) as u32, trees[best as int]);
        assert(is_tree_header(ll_lengths@, d_lengths@, trees[best as int]));
    }
    result
}

/// Bits of the symbols of the commands `lstart..lend` with the given code lengths, as
/// the given counts (for large ranges) or the commands themselves (for small ones) say.
pub open spec fn data_bits(
    ll_lengths: Seq<u32>,
    d_lengths: Seq<u32>,
    ll_counts: Seq<usize>,
    d_counts: Seq<usize>,
    store: Lz77StoreView,
    lstart: int,
    lend: int,
) -> int {
    if lend - lstart < 864 {
        symbols_bits(ll_lengths, d_lengths, store.litlens@, store.dists@, lstart, lend) + ll_lengths[256]
    } else {
        counts_bits(ll_lengths, d_lengths, ll_counts, d_counts)
    }
}

/// Attempts to optimize the Huffman trees for RLE encoding and returns the new size.
///
/// If the optimized tree yields a smaller total size (data + tree representation),
/// the `ll_lengths` and `d_lengths` arrays are updated with the new lengths.
pub fn try_optimize_huffman_for_rle(
    store: &Lz77StoreView<'_>,
    lstart: usize,
    lend: usize,
    ll_counts: &[usize],
    d_counts: &[usize],
    ll_lengths: &mut [u32],
    d_lengths: &mut [u32],
) -> (r: usize)
    requires
        wide_usize(),
        ll_counts@.len() == 288,
        d_counts@.len() == 32,
        counts_bounded(ll_counts@),
        counts_bounded(d_counts@),
        old(ll_lengths)@.len() == 288,
        old(d_lengths)@.len() == 32,
        code_lengths_ok(old(ll_lengths)@),
        code_lengths_ok(old(d_lengths)@),
        lstart <= lend <= store.litlens@.len(),
        store.dists@.len() == store.litlens@.len(),
        lend - lstart < 0x1_0000_0000,
    ensures
        final(ll_lengths)@.len() == 288,
        final(d_lengths)@.len() == 32,
        code_lengths_ok(final(ll_lengths)@),
        code_lengths_ok(final(d_lengths)@),
        14 <= r - data_bits(
            final(ll_lengths)@,
            final(d_lengths)@,
            ll_counts@,
            d_counts@,
            *store,
            lstart as int,
            lend as int,
        ) <= 5000,
        exists|tree: Seq<bool>|
            #[trigger] is_tree_header(final(ll_lengths)@, final(d_lengths)@, tree) && r == data_bits(
                final(ll_lengths)@,
                final(d_lengths)@,
                ll_counts@,
                d_counts@,
                *store,
                lstart as int,
                lend as int,
            ) + tree.len(),
        14 <= r < 0x0400_0000_0000_0000 + 5000,
        unused_codes_empty(old(ll_lengths)@, old(d_lengths)@) && zero_from(ll_counts@, 286) && zero_from(d_counts@, 30)
            ==> unused_codes_empty(final(ll_lengths)@, final(d_lengths)@),
        lengths_decodable(old(ll_lengths)@, old(d_lengths)@, ll_counts@, d_counts@) && zero_from(d_counts@, 30)
            && ll_counts@[256] > 0 ==> lengths_decodable(final(ll_lengths)@, final(d_lengths)@, ll_counts@, d_counts@),
{
    let mut ll_counts2 = [0usize; NUM_LL];
    let mut d_counts2 = [0usize; NUM_D];
    let mut ll_lengths2 = [0u32; NUM_LL];
    let mut d_lengths2 = [0u32; NUM_D];
    proof {
        assert forall|i: int| 0 <= i < ll_lengths@.len() implies #[trigger] ll_lengths@[i] < 65536 by {
            assert(ll_lengths@[i] <= 15);
        }
        assert forall|i: int| 0 <= i < d_lengths@.len() implies #[trigger] d_lengths@[i] < 65536 by {
            assert(d_lengths@[i] <= 15);
        }
    }
    let treesize = calculate_tree_size(ll_lengths, d_lengths);
    let ghost tree1 = choose|tree: Seq<bool>| #[trigger] is_tree_header(ll_lengths@, d_lengths@, tree) && tree.len() == treesize;
    let datasize = calculate_block_symbol_size_given_counts(
        ll_counts,
        d_counts,
        ll_lengths,
        d_lengths,
        store,
        lstart,
        lend,
    );
    let mut i: usize = 0;
    while i < NUM_LL
        invariant
            i <= 288,
            ll_counts@.len() == 288,
            forall|j: int| 0 <= j < i ==> #[trigger] ll_counts2@[j] == ll_counts@[j],
        decreases 288 - i,
    {
        ll_counts2[i] = ll_counts[i];
        i = i + 1;
    }
    let mut i: usize = 0;
    while i < NUM_D
        invariant
            i <= 32,
            d_counts@.len() == 32,
            forall|j: int| 0 <= j < i ==> #[trigger] d_counts2@[j] == d_counts@[j],
        decreases 32 - i,
    {
        d_counts2[i] = d_counts[i];
        i = i + 1;
    }
    proof {
        assert(ll_counts2@ == ll_counts@);
        assert(d_counts2@ == d_counts@);
    }
    let ghost tails = zero_from(ll_counts@, 286) && zero_from(d_counts@, 30);
    proof {
        if tails {
            assert(zero_from(ll_counts2@, 286));
            assert(zero_from(d_counts2@, 30));
        }
    }
    proof {
        lemma_seg_sum_bound(ll_counts2@, 0, 288, 0x1_0000_0000);
        lemma_seg_sum_bound(d_counts2@, 0, 32, 0x1_0000_0000);
    }
    optimize_huffman_for_rle(&mut ll_counts2);
    optimize_huffman_for_rle(&mut d_counts2);
    proof {
        if tails {
            assert(ll_counts2@[286] == 0 && ll_counts2@[287] == 0);
            assert(d_counts2@[30] == 0 && d_counts2@[31] == 0);
        }
    }
    proof {
        crate::katajainen::lemma_count_limit_large();
        crate::katajainen::lemma_capacity_pow2(15);
        crate::math::lemma_pow2_small();
        crate::tree::lemma_nonzero_count_nonneg(ll_counts2@);
        crate::tree::lemma_nonzero_count_nonneg(d_counts2@);
    }
    let _ = calculate_bit_lengths(&ll_counts2, 15, &mut ll_lengths2);
    let _ = calculate_bit_lengths(&d_counts2, 15, &mut d_lengths2);
    let ghost d_before = d_lengths2@;
    proof {
        if tails {
            assert(unused_codes_empty(ll_lengths2@, d_lengths2@));
        }
    }
    proof {
        assert forall|i: int| 0 <= i < 288 implies #[trigger] ll_lengths2@[i] <= 15 by {
            assert(ll_lengths2@[i] <= 1 || ll_lengths2@[i] <= 15);
        }
        assert forall|i: int| 0 <= i < 32 implies #[trigger] d_lengths2@[i] <= 15 by {
            assert(d_lengths2@[i] <= 1 || d_lengths2@[i] <= 15);
        }
    }
    patch_distance_codes_for_buggy_decoders(&mut d_lengths2);
    proof {
        if tails {
            assert(unused_codes_empty(ll_lengths2@, d_lengths2@));
        }
        assert forall|i: int| 0 <= i < 32 implies #[trigger] d_lengths2@[i] <= 15 by {}
        assert forall|i: int| 0 <= i < 288 implies #[trigger] ll_lengths2@[i] < 65536 by {}
        assert forall|i: int| 0 <= i < 32 implies #[trigger] d_lengths2@[i] < 65536 by {}
    }
    let treesize2 = calculate_tree_size(&ll_lengths2, &d_lengths2);
    let ghost tree2 = choose|tree: Seq<bool>| #[trigger] is_tree_header(ll_lengths2@, d_lengths2@, tree) && tree.len() == treesize2;
    let datasize2 = calculate_block_symbol_size_given_counts(
        ll_counts,
        d_counts,
        &ll_lengths2,
        &d_lengths2,
        store,
        lstart,
        lend,
    );
    if treesize2 + datasize2 < treesize + datasize {
        let mut i: usize = 0;
        while i < NUM_LL
            invariant
                i <= 288,
                ll_lengths@.len() == 288,
                forall|j: int| 0 <= j < i ==> #[trigger] ll_lengths@[j] == ll_lengths2@[j],
            decreases 288 - i,
        {
            ll_lengths[i] = ll_lengths2[i];
            i = i + 1;
        }
        let mut i: usize = 0;
        while i < NUM_D
            invariant
                i <= 32,
                d_lengths@.len() == 32,
                forall|j: int| 0 <= j < i ==> #[trigger] d_lengths@[j] == d_lengths2@[j],
            decreases 32 - i,
        {
            d_lengths[i] = d_lengths2[i];
            i = i + 1;
        }
        proof {
            assert(ll_lengths@ == ll_lengths2@);
            assert(d_lengths@ == d_lengths2@);
            assert(is_tree_header(ll_lengths@, d_lengths@, tree2));
            if lengths_decodable(old(ll_lengths)@, old(d_lengths)@, ll_counts@, d_counts@) && zero_from(d_counts@, 30)
                && ll_counts@[256] > 0 {
                assert(d_counts2@[30] == 0 && d_counts2@[31] == 0);
                lemma_lengths_decodable(ll_counts2@, d_counts2@, ll_counts@, d_counts@, ll_lengths2@, d_before, d_lengths2@);
            }
        }
        treesize2 + datasize2
    } else {
        proof {
            assert(is_tree_header(ll_lengths@, d_lengths@, tree1));
        }
        treesize + datasize
    }
}

/// Code lengths that a dynamic block can be decoded with: both are prefix codes, the end
/// code has a length, and every symbol that the counts `llc` and `dc` use has one.
pub open spec fn lengths_decodable(ll: Seq<u32>, dl: Seq<u32>, llc: Seq<usize>, dc: Seq<usize>) -> bool {
    &&& crate::inflate_dynamic::codes_fit(ll)
    &&& crate::inflate_dynamic::codes_fit(dl)
    &&& ll[256] > 0
    &&& forall|i: int| 0 <= i < 288 && #[trigger] llc[i] > 0 ==> ll[i] > 0
    &&& forall|i: int| 0 <= i < 32 && #[trigger] dc[i] > 0 ==> dl[i] > 0
}

/// Code lengths computed as prefix codes for counts `llc` and `dc` that use at least the
/// symbols of `llc0` and `dc0`, with the distance lengths patched, can decode what
/// `llc0` and `dc0` count.
proof fn lemma_lengths_decodable(
    llc: Seq<usize>,
    dc: Seq<usize>,
    llc0: Seq<usize>,
    dc0: Seq<usize>,
    ll: Seq<u32>,
    d0: Seq<u32>,
    d1: Seq<u32>,
)
    requires
        llc.len() == 288,
        dc.len() == 32,
        llc0.len() == 288,
        dc0.len() == 32,
        crate::tree::prefix_code_for(ll, llc, 15),
        crate::tree::prefix_code_for(d0, dc, 15),
        nonzero_count(dc) == 1 ==> forall|i: int| 0 <= i < 32 ==> #[trigger] d0[i] == if dc[i] > 0 {
            1u32
        } else {
            0u32
        },
        dc[30] == 0,
        dc[31] == 0,
        d1 == if count_used(d0, 30) >= 2 {
            d0
        } else if count_used(d0, 30) == 0 {
            d0.update(0, 1).update(1, 1)
        } else if d0[0] > 0 {
            d0.update(1, 1)
        } else {
            d0.update(0, 1)
        },
        llc0[256] > 0,
        forall|i: int| 0 <= i < 288 && #[trigger] llc0[i] > 0 ==> llc[i] > 0,
        forall|i: int| 0 <= i < 32 && #[trigger] dc0[i] > 0 ==> dc[i] > 0,
    ensures
        lengths_decodable(ll, d1, llc0, dc0),
{
    crate::tree::lemma_nonzero_count_nonneg(dc);
    if nonzero_count(dc) == 0 {
        assert forall|i: int| 0 <= i < 32 implies #[trigger] d0[i] == if dc[i] > 0 { 1u32 } else { 0u32 } by {
            if dc[i] > 0 {
                crate::tree::lemma_nonzero_count_pos(dc, i);
            }
            assert(d0[i] > 0 <==> dc[i] > 0);
        }
    }
    lemma_patch_fits(dc, d0, d1);
    assert(llc[256] > 0);
    assert(ll[256] > 0);
    assert forall|i: int| 0 <= i < 32 && #[trigger] dc0[i] > 0 implies d1[i] > 0 by {
        assert(dc[i] > 0);
        assert(d0[i] > 0);
    }
    assert forall|i: int| 0 <= i < 288 && #[trigger] llc0[i] > 0 implies ll[i] > 0 by {
        assert(llc[i] > 0);
    }
}

/// A command of `lo..hi` is counted under its literal/length symbol and, for a match,
/// under its distance symbol.
proof fn lemma_cmd_counted(l: Seq<u16>, d: Seq<u16>, lo: int, hi: int, i: int)
    requires
        lo <= i < hi,
    ensures
        count_ll(l, d, lo, hi, crate::lz77::ll_symbol(l[i], d[i])) >= 1,
        d[i] != 0 ==> count_d(d, lo, hi, spec_dist_symbol(d[i] as int)) >= 1,
    decreases hi - lo,
{
    if i < hi - 1 {
        lemma_cmd_counted(l, d, lo, hi - 1, i);
    }
}

/// Code lengths that give a code to every symbol the block's counts use give one to the
/// symbols of every command of the block.
pub proof fn lemma_cmds_have_codes(store: Lz77StoreView, lo: int, hi: int, ll: Seq<u32>, dl: Seq<u32>)
    requires
        lengths_decodable(ll, dl, block_ll_counts(store, lo, hi), block_d_counts(store, lo, hi)),
        cmds_codable(store.litlens@, store.dists@, lo, hi),
        0 <= lo <= hi <= store.litlens@.len(),
        store.dists@.len() == store.litlens@.len(),
        hi - lo < 0x1_0000_0000,
    ensures
        crate::inflate_dynamic::cmds_have_codes(ll, dl, store.litlens@, store.dists@, lo, hi),
{
    let l = store.litlens@;
    let d = store.dists@;
    assert forall|i: int| lo <= i < hi implies if #[trigger] d[i] == 0 {
        ll[l[i] as int] > 0
    } else {
        ll[spec_length_symbol(l[i] as int)] > 0 && dl[spec_dist_symbol(d[i] as int)] > 0
    } by {
        lemma_cmd_counted(l, d, lo, hi, i);
        let sym = crate::lz77::ll_symbol(l[i], d[i]);
        crate::lz77::lemma_count_bound(l, d, lo, hi, sym);
        if d[i] == 0 {
            assert(l[i] < 256);
        } else {
            crate::lz77::lemma_length_symbol_bound(l[i] as int);
            crate::lz77::lemma_dist_symbol_bound(d[i] as int);
            let ds = spec_dist_symbol(d[i] as int);
            crate::lz77::lemma_count_bound(l, d, lo, hi, ds);
            assert(block_d_counts(store, lo, hi)[ds] > 0);
        }
        assert(block_ll_counts(store, lo, hi)[sym] > 0);
    }
}

/// The literal/length histogram of the commands `lo..hi`, with the end symbol counted
/// once.
pub open spec fn block_ll_counts(store: Lz77StoreView, lo: int, hi: int) -> Seq<usize> {
    Seq::new(
        288,
        |s: int|
            if s == 256 {
                1usize
            } else {
                count_ll(store.litlens@, store.dists@, lo, hi, s) as usize
            },
    )
}

/// The distance histogram of the commands `lo..hi`.
pub open spec fn block_d_counts(store: Lz77StoreView, lo: int, hi: int) -> Seq<usize> {
    Seq::new(32, |s: int| count_d(store.dists@, lo, hi, s) as usize)
}

/// Codable commands use no literal/length symbol 286 or 287 and no distance symbol 30 or 31.
proof fn lemma_unused_symbols(l: Seq<u16>, d: Seq<u16>, lo: int, hi: int)
    requires
        cmds_codable(l, d, lo, hi),
    ensures
        count_ll(l, d, lo, hi, 286) == 0,
        count_ll(l, d, lo, hi, 287) == 0,
        count_d(d, lo, hi, 30) == 0,
        count_d(d, lo, hi, 31) == 0,
    decreases hi - lo,
{
    if hi > lo {
        assert(cmds_codable(l, d, lo, hi - 1));
        lemma_unused_symbols(l, d, lo, hi - 1);
        if d[hi - 1] != 0 {
            crate::symbols::length_code_law(l[hi - 1] as int);
            crate::symbols::dist_code_law(d[hi - 1] as int);
        }
    }
}

/// Calculates the Huffman bit lengths using dynamic trees and returns the total size in bits.
pub fn get_dynamic_lengths(
    store: &Lz77StoreView<'_>,
    lstart: usize,
    lend: usize,
    ll_lengths: &mut [u32],
    d_lengths: &mut [u32],
) -> (r: usize)
    requires
        wide_usize(),
        old(ll_lengths)@.len() == 288,
        old(d_lengths)@.len() == 32,
        lstart <= lend <= store.litlens@.len(),
        store.dists@.len() == store.litlens@.len(),
        lend - lstart < 0x1_0000_0000,
        lend - lstart >= 864 && store.ll_counts@.len() > 0 && store.d_counts@.len() > 0 ==> store.wf(),
    ensures
        final(ll_lengths)@.len() == 288,
        final(d_lengths)@.len() == 32,
        code_lengths_ok(final(ll_lengths)@),
        code_lengths_ok(final(d_lengths)@),
        14 <= r - data_bits(
            final(ll_lengths)@,
            final(d_lengths)@,
            block_ll_counts(*store, lstart as int, lend as int),
            block_d_counts(*store, lstart as int, lend as int),
            *store,
            lstart as int,
            lend as int,
        ) <= 5000,
        exists|tree: Seq<bool>|
            #[trigger] is_tree_header(final(ll_lengths)@, final(d_lengths)@, tree) && r == data_bits(
                final(ll_lengths)@,
                final(d_lengths)@,
                block_ll_counts(*store, lstart as int, lend as int),
                block_d_counts(*store, lstart as int, lend as int),
                *store,
                lstart as int,
                lend as int,
            ) + tree.len(),
        14 <= r < 0x0400_0000_0000_0000 + 5000,
        cmds_codable(store.litlens@, store.dists@, lstart as int, lend as int) ==> unused_codes_empty(
            final(ll_lengths)@,
            final(d_lengths)@,
        ),
        cmds_codable(store.litlens@, store.dists@, lstart as int, lend as int) ==> lengths_decodable(
            final(ll_lengths)@,
            final(d_lengths)@,
            block_ll_counts(*store, lstart as int, lend as int),
            block_d_counts(*store, lstart as int, lend as int),
        ),
{
    let mut ll_counts = [0usize; NUM_LL];
    let mut d_counts = [0usize; NUM_D];
    store.get_histogram(lstart, lend, &mut ll_counts, &mut d_counts);
    ll_counts[256] = 1;
    proof {
        let l = store.litlens@;
        let d = store.dists@;
        assert forall|i: int| 0 <= i < 288 implies #[trigger] ll_counts@[i] <= 0x1_0000_0000 by {
            crate::lz77::lemma_count_bound(l, d, lstart as int, lend as int, i);
        }
        assert forall|i: int| 0 <= i < 32 implies #[trigger] d_counts@[i] <= 0x1_0000_0000 by {
            crate::lz77::lemma_count_bound(l, d, lstart as int, lend as int, i);
        }
        assert(ll_counts@ == block_ll_counts(*store, lstart as int, lend as int));
        assert(d_counts@ == block_d_counts(*store, lstart as int, lend as int));
        if cmds_codable(l, d, lstart as int, lend as int) {
            lemma_unused_symbols(l, d, lstart as int, lend as int);
            assert(ll_counts@[286] == 0 && ll_counts@[287] == 0);
            assert(d_counts@[30] == 0 && d_counts@[31] == 0);
            assert(zero_from(ll_counts@, 286));
            assert(zero_from(d_counts@, 30));
        }
    }
    proof {
        crate::katajainen::lemma_count_limit_large();
        crate::katajainen::lemma_capacity_pow2(15);
        crate::math::lemma_pow2_small();
        crate::tree::lemma_nonzero_count_nonneg(ll_counts@);
        crate::tree::lemma_nonzero_count_nonneg(d_counts@);
    }
    let _ = calculate_bit_lengths(&ll_counts, 15, ll_lengths);
    let _ = calculate_bit_lengths(&d_counts, 15, d_lengths);
    let ghost d_before = d_lengths@;
    proof {
        assert forall|i: int| 0 <= i < 288 implies #[trigger] ll_lengths@[i] <= 15 by {
            assert(ll_lengths@[i] <= 1 || ll_lengths@[i] <= 15);
        }
        assert forall|i: int| 0 <= i < 32 implies #[trigger] d_lengths@[i] <= 15 by {
            assert(d_lengths@[i] <= 1 || d_lengths@[i] <= 15);
        }
    }
    patch_distance_codes_for_buggy_decoders(d_lengths);
    proof {
        assert forall|i: int| 0 <= i < 32 implies #[trigger] d_lengths@[i] <= 15 by {}
        if cmds_codable(store.litlens@, store.dists@, lstart as int, lend as int) {
            lemma_lengths_decodable(ll_counts@, d_counts@, ll_counts@, d_counts@, ll_lengths@, d_before, d_lengths@);
        }
    }
    try_optimize_huffman_for_rle(store, lstart, lend, &ll_counts, &d_counts, ll_lengths, d_lengths)
}

/// The fixed literal/length code lengths.
pub open spec fn fixed_ll_lengths() -> Seq<u32> {
    Seq::new(288, |i: int| fixed_ll_length(i))
}

/// The fixed distance code lengths.
pub open spec fn fixed_d_lengths() -> Seq<u32> {
    Seq::new(32, |i: int| 5u32)
}

/// Bits of `length` bytes in stored blocks: 5 header bytes per block of up to 65535.
pub open spec fn stored_bits(length: int) -> int {
    let blocks = length / 65535 + if length % 65535 > 0 {
        1int
    } else {
        0int
    };
    blocks * 40 + length * 8
}

/// What `calculate_block_size` needs of the commands `lstart..lend` of a store.
pub open spec fn block_size_ready(store: Lz77StoreView, lstart: int, lend: int) -> bool {
    &&& lstart <= lend <= store.litlens@.len()
    &&& store.dists@.len() == store.litlens@.len()
    &&& store.pos@.len() == store.litlens@.len()
    &&& lend - lstart < 0x1_0000_0000
    &&& lstart < lend ==> byte_range(store, lstart, lend) >= 0
    &&& lend - lstart >= 864 ==> (store.ll_counts@.len() > 0 && store.d_counts@.len() > 0 ==> store.wf()) && cmds_codable(store.litlens@, store.dists@, lstart, lend)
}

/// `size` is the size in bits of a block with a dynamic tree for the commands `lstart..lend`:
/// the block header, a tree header for some valid code lengths, and the commands coded with them.
pub open spec fn is_dynamic_block_size(store: Lz77StoreView, lstart: int, lend: int, size: int) -> bool {
    exists|ll: Seq<u32>, dl: Seq<u32>, tree: Seq<bool>|
        #[trigger] is_tree_header(ll, dl, tree) && ll.len() == 288 && dl.len() == 32 && code_lengths_ok(ll)
            && code_lengths_ok(dl) && size == 3 + data_bits(
            ll,
            dl,
            block_ll_counts(store, lstart, lend),
            block_d_counts(store, lstart, lend),
            store,
            lstart,
            lend,
        ) + tree.len()
}

/// Calculates the size of a block in bits for a given block type (uncompressed, fixed, or dynamic).
pub fn calculate_block_size(store: &Lz77StoreView<'_>, lstart: usize, lend: usize, btype: i32) -> (r: usize)
    requires
        wide_usize(),
        block_size_ready(*store, lstart as int, lend as int),
    ensures
        btype == 0 ==> r == stored_bits(byte_range(*store, lstart as int, lend as int)),
        btype == 1 ==> r == 3 + symbols_bits(
            fixed_ll_lengths(),
            fixed_d_lengths(),
            store.litlens@,
            store.dists@,
            lstart as int,
            lend as int,
        ) + 7,
        btype != 0 && btype != 1 ==> r >= 17 && is_dynamic_block_size(*store, lstart as int, lend as int, r as int),
        r < 0x0800_0000_0000_0000,
{
    let mut ll_lengths = [0u32; NUM_LL];
    let mut d_lengths = [0u32; NUM_D];
    let mut result: usize = 3;
    if btype == 0 {
        proof {
            if lstart < lend {
                assert(store.pos@[lend - 1] + crate::lz77::cmd_len(store.litlens@, store.dists@, lend - 1) <= 0x1_0000_ffff);
            }
        }
        let length = lz77_get_byte_range(store, lstart, lend);
        let rem = length % 65535;
        let blocks = length / 65535 + if rem > 0 {
            1
        } else {
            0
        };
        return blocks * 5 * 8 + length * 8;
    } else if btype == 1 {
        get_fixed_tree(&mut ll_lengths, &mut d_lengths);
        proof {
            assert(ll_lengths@ == fixed_ll_lengths());
            assert(d_lengths@ == fixed_d_lengths());
            assert forall|i: int| 0 <= i < 288 implies #[trigger] ll_lengths@[i] < 65536 by {}
            assert forall|i: int| 0 <= i < 32 implies #[trigger] d_lengths@[i] < 65536 by {}
        }
        result = result + calculate_block_symbol_size(&ll_lengths, &d_lengths, store, lstart, lend);
    } else {
        let dynsize = get_dynamic_lengths(store, lstart, lend, &mut ll_lengths, &mut d_lengths);
        proof {
            let t = choose|tree: Seq<bool>|
                #[trigger] is_tree_header(ll_lengths@, d_lengths@, tree) && dynsize == data_bits(
                    ll_lengths@,
                    d_lengths@,
                    block_ll_counts(*store, lstart as int, lend as int),
                    block_d_counts(*store, lstart as int, lend as int),
                    *store,
                    lstart as int,
                    lend as int,
                ) + tree.len();
            assert(is_tree_header(ll_lengths@, d_lengths@, t));
        }
        result = result + dynsize;
    }
    result
}

/// `r` is the cheapest size in bits of a block of the commands `lstart..lend` among the
/// block types considered: stored blocks, the fixed tree (for stores of at most 1000
/// commands), and a dynamic tree.
pub open spec fn auto_block_size(store: Lz77StoreView, lstart: int, lend: int, r: int) -> bool {
    &&& r <= stored_bits(byte_range(store, lstart, lend))
    &&& store.litlens@.len() <= 1000 ==> r <= 3 + symbols_bits(
        fixed_ll_lengths(),
        fixed_d_lengths(),
        store.litlens@,
        store.dists@,
        lstart,
        lend,
    ) + 7
    &&& r == stored_bits(byte_range(store, lstart, lend)) || (store.litlens@.len() <= 1000 && r == 3 + symbols_bits(
        fixed_ll_lengths(),
        fixed_d_lengths(),
        store.litlens@,
        store.dists@,
        lstart,
        lend,
    ) + 7) || is_dynamic_block_size(store, lstart, lend, r)
}

/// Estimates the optimal block size for a chunk of LZ77 data.
/// Automatically evaluates uncompressed, fixed, and dynamic block costs.
pub fn calculate_block_size_auto_type(store: &Lz77StoreView<'_>, lstart: usize, lend: usize) -> (r: usize)
    requires
        wide_usize(),
        block_size_ready(*store, lstart as int, lend as int),
    ensures
        auto_block_size(*store, lstart as int, lend as int, r as int),
        r < 0x0800_0000_0000_0000,
        exists|d: int|
            #[trigger] is_dynamic_block_size(*store, lstart as int, lend as int, d) && r == cheapest_size(
                *store,
                lstart as int,
                lend as int,
                d,
            ),
{
    let dyncost = calculate_block_size(store, lstart, lend, 2);
    cheapest_block_size(store, lstart, lend, dyncost)
}

/// The cheapest of the stored size, the fixed-tree size (for stores of at most 1000
/// commands) and the dynamic-tree size `d` of the commands `lstart..lend`; on a tie the
/// later of these wins.
pub open spec fn cheapest_size(store: Lz77StoreView, lstart: int, lend: int, d: int) -> int {
    let u = stored_bits(byte_range(store, lstart, lend));
    let f = if store.litlens@.len() > 1000 {
        u
    } else {
        3 + symbols_bits(fixed_ll_lengths(), fixed_d_lengths(), store.litlens@, store.dists@, lstart, lend) + 7
    };
    if u < f && u < d {
        u
    } else if f < d {
        f
    } else {
        d
    }
}

/// Picks the cheapest block size for the commands `lstart..lend` given their dynamic-tree
/// size `dyncost`: the stored size when it is strictly below the other two, else the
/// fixed-tree size (for stores of at most 1000 commands) when it is strictly below the
/// dynamic one, else the dynamic one. The result is never above any of the three.
pub fn cheapest_block_size(store: &Lz77StoreView<'_>, lstart: usize, lend: usize, dyncost: usize) -> (r: usize)
    requires
        wide_usize(),
        block_size_ready(*store, lstart as int, lend as int),
    ensures
        r == cheapest_size(*store, lstart as int, lend as int, dyncost as int),
        r <= stored_bits(byte_range(*store, lstart as int, lend as int)),
        r <= dyncost,
        store.litlens@.len() <= 1000 ==> r <= 3 + symbols_bits(
            fixed_ll_lengths(),
            fixed_d_lengths(),
            store.litlens@,
            store.dists@,
            lstart as int,
            lend as int,
        ) + 7,
{
    let uncompressedcost = calculate_block_size(store, lstart, lend, 0);
    let fixedcost = if store.litlens.len() > 1000 {
        uncompressedcost
    } else {
        calculate_block_size(store, lstart, lend, 1)
    };
    if uncompressedcost < fixedcost && uncompressedcost < dyncost {
        uncompressedcost
    } else if fixedcost < dyncost {
        fixedcost
    } else {
        dyncost
    }
}

/// Random state container using a simple multiply-with-carry generator.
#[derive(Debug, Clone, Copy)]
pub struct RanState {
    /// Internal state parameter W.
    pub m_w: u32,
    /// Internal state parameter Z.
    pub m_z: u32,
}

/// One multiply-with-carry step: the low 16 bits times `mult`, plus the high 16 bits.
pub open spec fn mwc_step(x: u32, mult: int) -> int {
    mult * (x % 65536) + x / 65536
}

impl RanState {
    /// Creates a new `RanState` with default seed values.
    pub fn new() -> (r: Self)
        ensures
            r.m_w == 1,
            r.m_z == 2,
    {
        RanState { m_w: 1, m_z: 2 }
    }

    /// Generates a pseudo-random 32-bit unsigned integer and updates the internal state.
    pub fn ran(&mut self) -> (r: u32)
        ensures
            final(self).m_z == mwc_step(old(self).m_z, 36969),
            final(self).m_w == mwc_step(old(self).m_w, 18000),
            r == ((final(self).m_z * 65536) % 0x1_0000_0000 + final(self).m_w) % 0x1_0000_0000,
    {
        let z = self.m_z;
        let w = self.m_w;
        proof {
            assert(z & 65535 == z % 65536 && z >> 16 == z / 65536) by (bit_vector);
            assert(w & 65535 == w % 65536 && w >> 16 == w / 65536) by (bit_vector);
        }
        self.m_z = 36969 * (z & 65535) + (z >> 16);
        self.m_w = 18000 * (w & 65535) + (w >> 16);
        let nz = self.m_z;
        let nw = self.m_w;
        let hi: u32 = nz << 16;
        proof {
            assert(hi == (nz * 65536) % 0x1_0000_0000) by (bit_vector)
                requires
                    hi == nz << 16,
            ;
        }
        hi.wrapping_add(nw)
    }
}

impl Default for RanState {
    fn default() -> (r: Self)
        ensures
            r.m_w == 1,
            r.m_z == 2,
    {
        Self::new()
    }
}

/// The state after one draw of the generator.
pub open spec fn ran_next(s: RanState) -> RanState {
    RanState { m_w: mwc_step(s.m_w, 18000) as u32, m_z: mwc_step(s.m_z, 36969) as u32 }
}

/// The value of one draw of the generator.
pub open spec fn ran_value(s: RanState) -> u32 {
    let n = ran_next(s);
    (((n.m_z * 65536) % 0x1_0000_0000 + n.m_w) % 0x1_0000_0000) as u32
}

/// The frequencies after randomizing the entries `i..` of `freqs` with the draws from
/// `s`: an entry is replaced, when a draw's bits from bit 4 on are divisible by 3, by the
/// entry that the next draw picks. Returns the frequencies and the state after the draws.
#[verifier::opaque]
pub open spec fn randomized(freqs: Seq<usize>, s: RanState, i: int) -> (Seq<usize>, RanState)
    decreases freqs.len() - i,
{
    if i < 0 || i >= freqs.len() {
        (freqs, s)
    } else if (ran_value(s) >> 4u32) % 3 == 0 {
        let s1 = ran_next(s);
        let pick = (ran_value(s1) as int) % (freqs.len() as int);
        randomized(freqs.update(i, freqs[pick]), ran_next(s1), i + 1)
    } else {
        randomized(freqs, ran_next(s), i + 1)
    }
}

proof fn lemma_ran_fits(s: RanState)
    ensures
        mwc_step(s.m_w, 18000) < 0x1_0000_0000,
        mwc_step(s.m_z, 36969) < 0x1_0000_0000,
        mwc_step(s.m_w, 18000) >= 0,
        mwc_step(s.m_z, 36969) >= 0,
{
    assert(18000 * (s.m_w % 65536) <= 18000 * 65535) by (nonlinear_arith);
    assert(36969 * (s.m_z % 65536) <= 36969 * 65535) by (nonlinear_arith);
}

/// Randomizes the entries of `freqs` with the draws of `ran_state`.
fn randomize_stat_freqs(freqs: &mut [usize], ran_state: &mut RanState)
    requires
        old(freqs)@.len() > 0,
    ensures
        final(freqs)@.len() == old(freqs)@.len(),
        (final(freqs)@, *final(ran_state)) == randomized(old(freqs)@, *old(ran_state), 0),
{
    let n = freqs.len();
    let ghost target = randomized(freqs@, *ran_state, 0);
    let mut i: usize = 0;
    while i < n
        invariant
            i <= n == freqs@.len(),
            randomized(freqs@, *ran_state, i as int) == target,
        decreases n - i,
    {
        let ghost s0 = *ran_state;
        let ghost f0 = freqs@;
        proof {
            lemma_ran_fits(s0);
            reveal_with_fuel(randomized, 1);
        }
        let x = ran_state.ran();
        proof {
            assert(*ran_state == ran_next(s0));
            assert(x == ran_value(s0));
        }
        if (x >> 4) % 3 == 0 {
            let ghost s1 = *ran_state;
            proof {
                lemma_ran_fits(s1);
            }
            let y = ran_state.ran();
            proof {
                assert(*ran_state == ran_next(s1));
                assert(y == ran_value(s1));
            }
            let rand_idx = y as usize % n;
            let v = freqs[rand_idx];
            freqs[i] = v;
        }
        i = i + 1;
    }
    proof {
        reveal_with_fuel(randomized, 1);
    }
}

/// Randomizes the literal/length and distance frequencies with `ran_state`, to move the
/// statistical cost model away from a local minimum; the end symbol keeps a count of 1.
pub fn randomize_freqs(litlens: &mut [usize], dists: &mut [usize], ran_state: &mut RanState)
    requires
        old(litlens)@.len() == 288,
        old(dists)@.len() == 32,
    ensures
        ({
            let (l1, s1) = randomized(old(litlens)@, *old(ran_state), 0);
            let (d1, s2) = randomized(old(dists)@, s1, 0);
            &&& final(litlens)@ == l1.update(256, 1)
            &&& final(dists)@ == d1
            &&& *final(ran_state) == s2
        }),
{
    let ghost r1 = randomized(litlens@, *ran_state, 0);
    randomize_stat_freqs(litlens, ran_state);
    let ghost r2 = randomized(dists@, r1.1, 0);
    randomize_stat_freqs(dists, ran_state);
    litlens[256] = 1;
}

/// Adds the symbol counts of the store's commands to the frequencies; the end symbol then
/// gets a count of 1.
pub fn add_symbol_counts(store: &Lz77StoreView<'_>, litlens: &mut [usize], dists: &mut [usize])
    requires
        old(litlens)@.len() == 288,
        old(dists)@.len() == 32,
        store.dists@.len() == store.litlens@.len(),
        forall|i: int| 0 <= i < store.litlens@.len() && #[trigger] store.dists@[i] == 0 ==> store.litlens@[i] < 288,
        forall|s: int| 0 <= s < 288 ==> #[trigger] old(litlens)@[s] + store.litlens@.len() <= usize::MAX,
        forall|s: int| 0 <= s < 32 ==> #[trigger] old(dists)@[s] + store.litlens@.len() <= usize::MAX,
    ensures
        final(litlens)@.len() == 288,
        final(dists)@.len() == 32,
        forall|s: int|
            0 <= s < 288 ==> #[trigger] final(litlens)@[s] == if s == 256 {
                1
            } else {
                old(litlens)@[s] + count_ll(store.litlens@, store.dists@, 0, store.litlens@.len() as int, s)
            },
        forall|s: int|
            0 <= s < 32 ==> #[trigger] final(dists)@[s] == old(dists)@[s] + count_d(
                store.dists@,
                0,
                store.litlens@.len() as int,
                s,
            ),
{
    let n = store.litlens.len();
    let ghost l = store.litlens@;
    let ghost d = store.dists@;
    let ghost ll0 = litlens@;
    let ghost d0 = dists@;
    let mut i: usize = 0;
    while i < n
        invariant
            i <= n == l.len() == d.len(),
            l == store.litlens@,
            d == store.dists@,
            litlens@.len() == 288,
            dists@.len() == 32,
            forall|k: int| 0 <= k < n && #[trigger] d[k] == 0 ==> l[k] < 288,
            forall|s: int| 0 <= s < 288 ==> #[trigger] ll0[s] + n <= usize::MAX,
            forall|s: int| 0 <= s < 32 ==> #[trigger] d0[s] + n <= usize::MAX,
            forall|s: int| 0 <= s < 288 ==> #[trigger] litlens@[s] == ll0[s] + count_ll(l, d, 0, i as int, s),
            forall|s: int| 0 <= s < 32 ==> #[trigger] dists@[s] == d0[s] + count_d(d, 0, i as int, s),
        decreases n - i,
    {
        let dist = store.dists[i] as usize;
        let litlen = store.litlens[i] as usize;
        proof {
            crate::lz77::lemma_length_symbol_bound(litlen as int);
            crate::lz77::lemma_dist_symbol_bound(dist as int);
            assert forall|s: int| 0 <= s < 288 implies count_ll(l, d, 0, i as int, s) <= i by {
                crate::lz77::lemma_count_bound(l, d, 0, i as int, s);
            }
            assert forall|s: int| 0 <= s < 32 implies count_d(d, 0, i as int, s) <= i by {
                crate::lz77::lemma_count_bound(l, d, 0, i as int, s);
            }
        }
        if dist == 0 {
            litlens[litlen] = litlens[litlen] + 1;
        } else {
            let ls = get_length_symbol(litlen) as usize;
            let ds = get_dist_symbol(dist) as usize;
            litlens[ls] = litlens[ls] + 1;
            dists[ds] = dists[ds] + 1;
        }
        i = i + 1;
    }
    litlens[256] = 1;
}

/// What the iterations of the statistical optimal parser remember: the best block cost so
/// far (`None` before the first iteration), the cost of the last iteration, and whether
/// the frequencies have been randomized.
#[derive(Debug, Clone, Copy)]
pub struct IterationState {
    /// Best block cost so far.
    pub bestcost: Option<usize>,
    /// Block cost of the last iteration (0 before the first).
    pub lastcost: usize,
    /// Whether the frequencies have been randomized.
    pub randomized: bool,
}

/// What the parser does after an iteration.
#[derive(Debug, Clone, Copy)]
pub struct IterationStep {
    /// The parse of this iteration is the best so far: keep it and its statistics.
    pub keep_as_best: bool,
    /// Weigh the new frequencies with half of the last ones.
    pub weigh_with_last: bool,
    /// Restart from the best statistics, with randomized frequencies.
    pub randomize: bool,
}

impl IterationState {
    /// The state before the first iteration.
    pub fn new() -> (r: Self)
        ensures
            r.bestcost is None,
            r.lastcost == 0,
            !r.randomized,
    {
        IterationState { bestcost: None, lastcost: 0, randomized: false }
    }

    /// Decides what follows iteration `i`, whose parse costs `cost` bits: a parse cheaper
    /// than every earlier one is kept; once the frequencies have been randomized, new
    /// frequencies are weighed with the last ones; after the fifth iteration, a cost equal
    /// to the last one restarts from the best statistics, randomized.
    pub fn next(&self, i: usize, cost: usize) -> (r: (IterationState, IterationStep))
        ensures
            r.1.keep_as_best == match self.bestcost {
                None => true,
                Some(b) => cost < b,
            },
            r.1.weigh_with_last == self.randomized,
            r.1.randomize == (i > 5 && cost == self.lastcost),
            r.0.bestcost == if r.1.keep_as_best {
                Some(cost)
            } else {
                self.bestcost
            },
            r.0.lastcost == cost,
            r.0.randomized == (self.randomized || r.1.randomize),
    {
        let keep_as_best = match self.bestcost {
            None => true,
            Some(b) => cost < b,
        };
        let randomize = i > 5 && cost == self.lastcost;
        let step = IterationStep { keep_as_best, weigh_with_last: self.randomized, randomize };
        let bestcost = if keep_as_best {
            Some(cost)
        } else {
            self.bestcost
        };
        (IterationState { bestcost, lastcost: cost, randomized: self.randomized || randomize }, step)
    }
}

/// Cost of a position that no path has reached yet.
pub const UNREACHED_COST: u64 = 0x4000_0000_0000_0000;

/// Bits that a literal (`dist == 0`) or a match costs with the fixed Huffman tree, as
/// the fixed cost model counts them: the symbol's code length, 5 bits of distance code,
/// and the extra bits of the length and the distance.
pub open spec fn fixed_cost(litlen: int, dist: int) -> int {
    if dist == 0 {
        if litlen <= 143 {
            8
        } else {
            9
        }
    } else {
        (if spec_length_symbol(litlen) <= 279 {
            7int
        } else {
            8int
        }) + 5 + spec_dist_extra_bits(dist) + spec_length_extra_bits(litlen)
    }
}

/// The fixed cost of a literal or match.
pub fn get_cost_fixed(litlen: usize, dist: usize) -> (r: u64)
    requires
        dist <= 0x1_0000_0000,
    ensures
        r == fixed_cost(litlen as int, dist as int),
{
    if dist == 0 {
        if litlen <= 143 {
            8
        } else {
            9
        }
    } else {
        let dbits = get_dist_extra_bits(dist);
        let lbits = get_length_extra_bits(litlen);
        let lsym = get_length_symbol(litlen);
        proof {
            crate::math::lemma_pow2_small();
            if dist >= 5 {
                crate::math::lemma_pow2_32_64();
                crate::math::lemma_log2_range((dist - 1) as nat, 2, 32);
            }
            assert(dbits <= 32);
            assert(lbits <= 8) by {
                if litlen >= 11 && litlen < 258 {
                    crate::math::lemma_log2_range((litlen - 3) as nat, 3, 8);
                }
            }
        }
        let mut cost: u64 = 0;
        if lsym <= 279 {
            cost = cost + 7;
        } else {
            cost = cost + 8;
        }
        cost = cost + 5;
        cost + dbits as u64 + lbits as u64
    }
}

/// A literal costs at most 9 bits and a match at most 31 with the fixed cost model.
pub proof fn lemma_fixed_cost_bound(litlen: int, dist: int)
    requires
        dist == 0 || (3 <= litlen <= 258 && 1 <= dist <= 32768),
    ensures
        0 <= fixed_cost(litlen, dist) <= 31,
{
    if dist != 0 {
        length_code_law(litlen);
        dist_code_law(dist);
    }
}

/// The fixed cost model counts exactly the bits that the fixed Huffman tree spends
/// on a literal or a match.
pub proof fn lemma_fixed_cost_is_fixed_tree_bits(litlen: u16, dist: u16)
    requires
        (dist == 0 && litlen < 256) || (3 <= litlen <= 258 && 1 <= dist <= 32768),
    ensures
        fixed_cost(litlen as int, dist as int) == cmd_bits(fixed_ll_lengths(), fixed_d_lengths(), litlen, dist),
{
    if dist != 0 {
        length_code_law(litlen as int);
        dist_code_law(dist as int);
    }
}

/// The smallest fixed cost of a match: the cost of the cheapest length with distance 1
/// combined with that of the cheapest distance with length 3.
pub fn get_min_cost_fixed() -> (r: u64)
    ensures
        r == fixed_cost(3, 1),
        r == 12,
{
    let d_symbols: [usize; 30] = [
        1, 2, 3, 4, 5, 7, 9, 13, 17, 25, 33, 49, 65, 97, 129, 193, 257, 385, 513, 769, 1025,
        1537, 2049, 3073, 4097, 6145, 8193, 12289, 16385, 24577,
    ];
    let mut bestlength: usize = 0;
    let mut bestdist: usize = 0;
    let mut mincost: u64 = UNREACHED_COST;
    let mut i: usize = 3;
    while i < 259
        invariant
            3 <= i <= 259,
            i > 3 ==> bestlength == 3 && mincost == 12,
            i == 3 ==> mincost == UNREACHED_COST,
        decreases 259 - i,
    {
        let c = get_cost_fixed(i, 1);
        proof {
            if i == 3 {
                length_code_law(3);
            }
            if i >= 11 && i < 258 {
                crate::math::lemma_pow2_small();
                crate::math::lemma_log2_range((i - 3) as nat, 3, 8);
            }
            assert(spec_dist_extra_bits(1) == 0);
        }
        if c < mincost {
            bestlength = i;
            mincost = c;
        }
        i = i + 1;
    }
    mincost = UNREACHED_COST;
    let mut k: usize = 0;
    while k < 30
        invariant
            0 <= k <= 30,
            bestlength == 3,
            k > 0 ==> bestdist == 1 && mincost == 12,
            k == 0 ==> mincost == UNREACHED_COST,
            d_symbols@.len() == 30,
            d_symbols@[0] == 1,
            forall|t: int| 0 <= t < 30 ==> 1 <= #[trigger] d_symbols@[t] <= 24577,
        decreases 30 - k,
    {
        let d = d_symbols[k];
        let c = get_cost_fixed(3, d);
        proof {
            length_code_law(3);
        }
        if c < mincost {
            bestdist = d;
            mincost = c;
        }
        k = k + 1;
    }
    proof {
        length_code_law(3);
    }
    get_cost_fixed(bestlength, bestdist)
}

/// `l` can be the last step of a path that ends `j` bytes into the block: a literal,
/// or a match of 3 to 258 bytes that starts inside the block.
pub open spec fn path_step_ok(l: u16, j: int) -> bool {
    &&& l == 1 || 3 <= l <= 258
    &&& l <= j
}

/// The last step `v` into position `t` of a block that starts at byte `start` of `data`,
/// from a position that costs `c0`, makes position `t` cost `c` with the fixed tree: a
/// literal adds its byte's bits, a match of 3 to 258 bytes the bits of a valid match of
/// that length ending at `t`.
pub open spec fn fixed_step_cost(data: Seq<u8>, start: int, t: int, v: int, c0: int, c: int) -> bool {
    ||| v == 1 && c == c0 + fixed_cost(data[start + t - 1] as int, 0)
    ||| 3 <= v <= 258 && exists|d: int| #[trigger] valid_match(data, start + t - v, d, v) && c == c0 + fixed_cost(v, d)
}

/// `c` is the fixed-tree cost of the path read back from position `index` through
/// `length_array`, a path of literals and valid matches of the block that starts at byte
/// `start` of `data`.
pub open spec fn traced_fixed_cost(data: Seq<u8>, start: int, length_array: Seq<u16>, index: int, c: int) -> bool
    decreases index,
{
    if index <= 0 {
        c == 0
    } else if index >= length_array.len() || length_array[index] < 1 || length_array[index] > index {
        false
    } else {
        exists|c0: int|
            #[trigger] fixed_step_cost(data, start, index, length_array[index] as int, c0, c) && traced_fixed_cost(
                data,
                start,
                length_array,
                index - length_array[index],
                c0,
            )
    }
}

proof fn lemma_traced_fixed_cost_frame(data: Seq<u8>, start: int, la: Seq<u16>, la2: Seq<u16>, t: int, c: int)
    requires
        traced_fixed_cost(data, start, la, t, c),
        la2.len() == la.len(),
        forall|u: int| 0 <= u <= t ==> #[trigger] la2[u] == la[u],
    ensures
        traced_fixed_cost(data, start, la2, t, c),
    decreases t,
{
    if t > 0 {
        let c0 = choose|c0: int|
            #[trigger] fixed_step_cost(data, start, t, la[t] as int, c0, c) && traced_fixed_cost(
                data,
                start,
                la,
                t - la[t],
                c0,
            );
        lemma_traced_fixed_cost_frame(data, start, la, la2, t - la[t], c0);
        assert(fixed_step_cost(data, start, t, la2[t] as int, c0, c));
    }
}

/// What the fixed-cost search keeps while it stands at position `j` of a block of
/// `blocksize` bytes from byte `start` of `data`: a position is reached when its cost is
/// below `UNREACHED_COST`; a reached position costs at most 31 bits per byte; a reached
/// position up to `j` can be read back to the start, and its cost is that of the path
/// read back; a reached position after `j` has a valid last step from a reached position
/// up to `j`, which makes its cost.
#[verifier::opaque]
pub open spec fn fixed_search_inv(data: Seq<u8>, start: int, costs: Seq<u64>, la: Seq<u16>, j: int, blocksize: int) -> bool {
    &&& costs.len() == blocksize + 1
    &&& la.len() == blocksize + 1
    &&& forall|t: int| 0 <= t <= blocksize && #[trigger] costs[t] < UNREACHED_COST ==> costs[t] <= 31 * t
    &&& forall|t: int| 0 <= t <= j && t <= blocksize && #[trigger] costs[t] < UNREACHED_COST ==> trace_ok(la, t)
        && traced_fixed_cost(data, start, la, t, costs[t] as int)
    &&& forall|t: int|
        j < t <= blocksize && #[trigger] costs[t] < UNREACHED_COST ==> {
            &&& 1 <= la[t] <= 258
            &&& la[t] <= t
            &&& t - la[t] <= j
            &&& costs[t - la[t]] < UNREACHED_COST
            &&& fixed_step_cost(data, start, t, la[t] as int, costs[t - la[t]] as int, costs[t] as int)
        }
}

proof fn lemma_trace_ok_frame(la: Seq<u16>, la2: Seq<u16>, t: int)
    requires
        trace_ok(la, t),
        la2.len() == la.len(),
        forall|u: int| 0 <= u <= t ==> #[trigger] la2[u] == la[u],
    ensures
        trace_ok(la2, t),
    decreases t,
{
    if t > 0 {
        lemma_trace_ok_frame(la, la2, t - la[t]);
    }
}

/// Writing a cost and a last step after the current position keeps the invariant when a
/// reached cost comes with a valid step from a reached position.
proof fn lemma_fixed_search_write(
    data: Seq<u8>,
    start: int,
    costs: Seq<u64>,
    la: Seq<u16>,
    j: int,
    blocksize: int,
    p: int,
    v: u16,
    c: u64,
)
    requires
        fixed_search_inv(data, start, costs, la, j, blocksize),
        0 <= j < p <= blocksize,
        c < UNREACHED_COST ==> 1 <= v <= 258 && v <= p && p - v <= j && costs[p - v] < UNREACHED_COST && c <= 31 * p
            && fixed_step_cost(data, start, p, v as int, costs[p - v] as int, c as int),
    ensures
        fixed_search_inv(data, start, costs.update(p, c), la.update(p, v), j, blocksize),
{
    reveal(fixed_search_inv);
    let costs2 = costs.update(p, c);
    let la2 = la.update(p, v);
    assert forall|t: int| 0 <= t <= j && t <= blocksize && #[trigger] costs2[t] < UNREACHED_COST implies trace_ok(
        la2,
        t,
    ) && traced_fixed_cost(data, start, la2, t, costs2[t] as int) by {
        assert(costs2[t] == costs[t]);
        lemma_trace_ok_frame(la, la2, t);
        lemma_traced_fixed_cost_frame(data, start, la, la2, t, costs[t] as int);
    }
    assert forall|t: int| j < t <= blocksize && #[trigger] costs2[t] < UNREACHED_COST implies {
        &&& 1 <= la2[t] <= 258
        &&& la2[t] <= t
        &&& t - la2[t] <= j
        &&& costs2[t - la2[t]] < UNREACHED_COST
        &&& fixed_step_cost(data, start, t, la2[t] as int, costs2[t - la2[t]] as int, costs2[t] as int)
    } by {
        if t != p {
            assert(costs2[t] == costs[t]);
            assert(la2[t] == la[t]);
        }
        assert(costs2[t - la2[t]] == costs[t - la2[t]]);
    }
}

/// The search starts with only the first position reached, at no cost.
proof fn lemma_fixed_search_start(data: Seq<u8>, start: int, costs: Seq<u64>, la: Seq<u16>, blocksize: int)
    requires
        costs.len() == blocksize + 1,
        la.len() == blocksize + 1,
        costs[0] == 0,
        forall|t: int| 1 <= t <= blocksize ==> #[trigger] costs[t] == UNREACHED_COST,
    ensures
        fixed_search_inv(data, start, costs, la, 0, blocksize),
{
    reveal(fixed_search_inv);
}

/// A reached position up to the current one costs at most 31 bits per byte, can be read
/// back to the start, and costs what the path read back costs.
proof fn lemma_fixed_search_reached(
    data: Seq<u8>,
    start: int,
    costs: Seq<u64>,
    la: Seq<u16>,
    j: int,
    blocksize: int,
    t: int,
)
    requires
        fixed_search_inv(data, start, costs, la, j, blocksize),
        0 <= t <= j,
        t <= blocksize,
        costs[t] < UNREACHED_COST,
    ensures
        costs[t] <= 31 * t,
        trace_ok(la, t),
        traced_fixed_cost(data, start, la, t, costs[t] as int),
{
    reveal(fixed_search_inv);
}

/// Moving on from position `j` keeps the invariant.
proof fn lemma_fixed_search_advance(data: Seq<u8>, start: int, costs: Seq<u64>, la: Seq<u16>, j: int, blocksize: int)
    requires
        fixed_search_inv(data, start, costs, la, j, blocksize),
        0 <= j < blocksize,
    ensures
        fixed_search_inv(data, start, costs, la, j + 1, blocksize),
{
    reveal(fixed_search_inv);
    if costs[j + 1] < UNREACHED_COST {
        let s = j + 1 - la[j + 1];
        assert(trace_ok(la, s));
        assert(trace_ok(la, j + 1));
        assert(traced_fixed_cost(data, start, la, s, costs[s] as int));
        assert(fixed_step_cost(data, start, j + 1, la[j + 1] as int, costs[s] as int, costs[j + 1] as int));
        assert(traced_fixed_cost(data, start, la, j + 1, costs[j + 1] as int));
    }
}

/// When the hash counts more than 516 repetitions of the byte at `i` and more than 258
/// of the byte 258 positions back, the bytes from `i - 258` to `i + 517` are all equal.
proof fn lemma_long_run(h: ZopfliHash, data: Seq<u8>, end: int, ws: int, i: int)
    requires
        h.hash_inv(data, end, ws, i),
        ws <= i - 258,
        h.same@[i % 32768] > 516,
        h.same@[(i - 258) % 32768] > 258,
        i + 517 < end,
    ensures
        forall|x: int| i - 258 <= x <= i + 517 ==> #[trigger] data[x] == data[i],
{
    let s1 = i % 32768;
    let s2 = (i - 258) % 32768;
    assert((i - s1) % 32768 == 0) by (nonlinear_arith)
        requires
            s1 == i % 32768,
            i >= 0,
    ;
    assert((i - s2) % 32768 == 258) by (nonlinear_arith)
        requires
            s2 == (i - 258) % 32768,
            i >= 258,
    ;
    assert(crate::hash::wpos(s1, i) == i);
    assert(crate::hash::wpos(s2, i) == i - 258);
    assert(h.slot_ok(data, end, ws, i, s1));
    assert(h.slot_ok(data, end, ws, i, s2));
    assert(crate::hash::repeats_at(data, end, i - 258, i));
    assert forall|x: int| i - 258 <= x <= i + 517 implies #[trigger] data[x] == data[i] by {
        if x > i {
            assert(crate::hash::repeats_at(data, end, i, x));
        } else if x > i - 258 {
            assert(crate::hash::repeats_at(data, end, i - 258, x));
        }
    }
}

/// Finds the cheapest path of literals and matches through `in_data[instart..inend]`
/// with the fixed cost model, writing into `length_array[j]` the length of the last
/// step of the path found to the position `j` bytes into the block. Returns the cost of
/// the whole path.
#[verifier::loop_isolation(false)]
#[verifier::spinoff_prover]
#[verifier::rlimit(100)]
pub fn get_best_lengths_fixed(
    s: &mut ZopfliBlockState<'_>,
    in_data: &[u8],
    instart: usize,
    inend: usize,
    length_array: &mut [u16],
) -> (r: u64)
    requires
        instart <= inend <= in_data@.len(),
        inend - instart < 0xffff_fffe,
        old(length_array)@.len() == inend - instart + 1,
        old(s).lmc is None,
        old(s).blockend <= in_data@.len(),
    ensures
        final(s).options == old(s).options,
        final(s).blockstart == old(s).blockstart,
        final(s).blockend == old(s).blockend,
        final(s).lmc is None,
        final(length_array)@.len() == old(length_array)@.len(),
        instart == inend ==> r == 0 && final(length_array)@ == old(length_array)@,
        instart < inend ==> final(length_array)@[0] == 0,
        forall|j: int|
            1 <= j <= inend - instart ==> #[trigger] final(length_array)@[j] == old(length_array)@[j]
                || path_step_ok(final(length_array)@[j], j),
        trace_ok(final(length_array)@, inend - instart),
        traced_fixed_cost(in_data@, instart as int, final(length_array)@, inend - instart, r as int),
        r <= 31 * (inend - instart),
{
    let blocksize = inend - instart;
    if instart == inend {
        return 0;
    }
    let mut costs: Vec<u64> = vec![UNREACHED_COST; blocksize + 1];
    costs.set(0, 0);
    length_array[0] = 0;
    let window_size = WINDOW_SIZE;
    let mut hash = ZopfliHash::new(window_size);
    let windowstart = if instart > window_size {
        instart - window_size
    } else {
        0
    };
    let ghost ws = windowstart as int;
    proof {
        lemma_fresh_hash_inv(hash, in_data@, inend as int, ws);
    }
    hash.warmup(in_data, windowstart, inend);
    let mut w = windowstart;
    while w < instart
        invariant
            ws <= w <= instart,
            hash.hash_inv(in_data@, inend as int, ws, w - 1),
        decreases instart - w,
    {
        let ghost h0 = hash;
        hash.update(in_data, w, inend);
        proof {
            lemma_update_preserves_inv(h0, hash, in_data@, inend as int, ws, w as int);
        }
        w = w + 1;
    }
    let mincost = get_min_cost_fixed();
    proof {
        lemma_fixed_search_start(in_data@, instart as int, costs@, length_array@, blocksize as int);
    }
    let mut i = instart;
    while i < inend
        invariant
            instart <= i <= inend <= in_data@.len(),
            hash.hash_inv(in_data@, inend as int, ws, i - 1),
            s.lmc is None,
            s.options == old(s).options,
            s.blockstart == old(s).blockstart,
            s.blockend == old(s).blockend,
            costs@.len() == blocksize + 1,
            length_array@.len() == blocksize + 1,
            length_array@[0] == 0,
            forall|t: int|
                1 <= t <= blocksize ==> #[trigger] length_array@[t] == old(length_array)@[t] || path_step_ok(
                    length_array@[t],
                    t,
                ),
            forall|t: int| 0 <= t <= blocksize ==> #[trigger] costs@[t] <= UNREACHED_COST + 31 * t,
            fixed_search_inv(in_data@, instart as int, costs@, length_array@, i - instart, blocksize as int),
            costs@[i - instart] < UNREACHED_COST,
        decreases inend - i,
    {
        let mut j = i - instart;
        let ghost h0 = hash;
        hash.update(in_data, i, inend);
        proof {
            lemma_update_preserves_inv(h0, hash, in_data@, inend as int, ws, i as int);
            assert(forall|x: usize| #[trigger] (x & 32767usize) < 32768usize) by (bit_vector);
        }
        if hash.same[i & WINDOW_MASK] > (MAX_MATCH as u16) * 2 && i - instart > MAX_MATCH + 1 && inend - i > MAX_MATCH
            * 2 + 1 && hash.same[(i - MAX_MATCH) & WINDOW_MASK] > MAX_MATCH as u16 {
            let symbolcost = get_cost_fixed(MAX_MATCH, 1);
            proof {
                lemma_fixed_cost_bound(258, 1);
                crate::util::lemma_mask_low_bits(i);
                crate::util::lemma_mask_low_bits((i - 258) as usize);
                lemma_long_run(hash, in_data@, inend as int, ws, i as int);
            }
            let ghost i0 = i;
            let mut step: usize = 0;
            while step < MAX_MATCH
                invariant
                    0 <= step <= 258,
                    i == i0 + step,
                    j == i - instart,
                    i0 + 517 < inend,
                    instart <= i0,
                    symbolcost <= 31,
                    hash.hash_inv(in_data@, inend as int, ws, i as int),
                    0 <= hash.val < 32768,
                    hash.head@[hash.val as int] == i % 32768,
                    costs@.len() == blocksize + 1,
                    length_array@.len() == blocksize + 1,
                    length_array@[0] == 0,
                    forall|t: int|
                        1 <= t <= blocksize ==> #[trigger] length_array@[t] == old(length_array)@[t]
                            || path_step_ok(length_array@[t], t),
                    forall|t: int| 0 <= t <= blocksize ==> #[trigger] costs@[t] <= UNREACHED_COST + 31 * t,
                    fixed_search_inv(in_data@, instart as int, costs@, length_array@, j as int, blocksize as int),
                    step == 0 ==> costs@[j as int] < UNREACHED_COST,
                    step >= 1 ==> costs@[i0 - instart + 258] < UNREACHED_COST,
                decreases 258 - step,
            {
                let next_j = j + MAX_MATCH;
                proof {
                    if costs@[j as int] < UNREACHED_COST {
                        lemma_fixed_search_reached(in_data@, instart as int, costs@, length_array@, j as int, blocksize as int, j as int);
                    }
                }
                let c = costs[j] + symbolcost;
                proof {
                    assert forall|t: int| 0 <= t < 258 implies #[trigger] crate::lz77::match_byte_ok(
                        in_data@,
                        i as int,
                        1,
                        t,
                    ) by {
                        assert(in_data@[i - 1 + t] == in_data@[i0 as int]);
                        assert(in_data@[i + t] == in_data@[i0 as int]);
                    }
                    assert(valid_match(in_data@, instart + next_j - 258, 1, 258));
                    lemma_fixed_search_write(in_data@, instart as int, costs@, length_array@, j as int, blocksize as int, next_j as int, 258, c);
                }
                costs.set(next_j, c);
                length_array[next_j] = MAX_MATCH as u16;
                proof {
                    lemma_fixed_search_advance(in_data@, instart as int, costs@, length_array@, j as int, blocksize as int);
                }
                i = i + 1;
                j = j + 1;
                let ghost h1 = hash;
                hash.update(in_data, i, inend);
                proof {
                    lemma_update_preserves_inv(h1, hash, in_data@, inend as int, ws, i as int);
                }
                step = step + 1;
            }
        }
        proof {
            assert(hash.hash_inv(in_data@, inend as int, ws, i as int));
            assert(0 <= hash.val < 32768);
            assert(hash.head@[hash.val as int] == i % 32768);
        }
        let mut sublen = [0u16; 259];
        let ghost sub0 = sublen@;
        let res = find_longest_match(s, &hash, in_data, i, MAX_MATCH, Some(&mut sublen));
        let dist = res.0;
        let leng = res.1;
        let lit_cost = get_cost_fixed(in_data[i] as usize, 0);
        proof {
            lemma_fixed_cost_bound(in_data@[i as int] as int, 0);
            lemma_fixed_search_reached(in_data@, instart as int, costs@, length_array@, j as int, blocksize as int, j as int);
        }
        let new_cost = lit_cost + costs[j];
        if new_cost < costs[j + 1] {
            proof {
                lemma_fixed_search_write(in_data@, instart as int, costs@, length_array@, j as int, blocksize as int, j + 1, 1, new_cost);
            }
            costs.set(j + 1, new_cost);
            length_array[j + 1] = 1;
        }
        let kend = if (leng as usize) < inend - i {
            leng as usize
        } else {
            inend - i
        };
        let mincostaddcostj = mincost + costs[j];
        let mut k: usize = 3;
        while k <= kend
            invariant
                3 <= k,
                k <= kend + 1 || kend < 3,
                kend <= leng,
                kend <= inend - i,
                j == i - instart,
                instart <= i < inend,
                dist == 0 ==> leng <= 1,
                dist != 0 ==> leng <= 258,
                sublen@.len() == 259,
                forall|t: int| 0 <= t < 259 ==> #[trigger] sub_ok_at(in_data@, i as int, sublen@, sub0, true, dist as int, leng as int, t),
                costs@.len() == blocksize + 1,
                length_array@.len() == blocksize + 1,
                length_array@[0] == 0,
                forall|t: int|
                    1 <= t <= blocksize ==> #[trigger] length_array@[t] == old(length_array)@[t]
                        || path_step_ok(length_array@[t], t),
                forall|t: int| 0 <= t <= blocksize ==> #[trigger] costs@[t] <= UNREACHED_COST + 31 * t,
                mincostaddcostj == 12 + costs@[j as int],
                fixed_search_inv(in_data@, instart as int, costs@, length_array@, j as int, blocksize as int),
                costs@[j as int] < UNREACHED_COST,
                costs@[j + 1] < UNREACHED_COST,
            decreases kend + 1 - k,
        {
            if costs[j + k] <= mincostaddcostj {
                k = k + 1;
                continue;
            }
            proof {
                assert(sub_ok_at(in_data@, i as int, sublen@, sub0, true, dist as int, leng as int, k as int));
            }
            let d = sublen[k];
            let c = get_cost_fixed(k, d as usize);
            proof {
                lemma_fixed_cost_bound(k as int, d as int);
            }
            let new_cost = c + costs[j];
            if new_cost < costs[j + k] {
                proof {
                    assert(valid_match(in_data@, instart + (j + k) - k, d as int, k as int));
                    lemma_fixed_search_write(in_data@, instart as int, costs@, length_array@, j as int, blocksize as int, j + k, k as u16, new_cost);
                }
                costs.set(j + k, new_cost);
                length_array[j + k] = k as u16;
            }
            k = k + 1;
        }
        proof {
            lemma_fixed_search_advance(in_data@, instart as int, costs@, length_array@, j as int, blocksize as int);
        }
        i = i + 1;
    }
    proof {
        lemma_fixed_search_reached(in_data@, instart as int, costs@, length_array@, blocksize as int, blocksize as int, blocksize as int);
    }
    costs[blocksize]
}

/// Every position `1..=size` of the block has a valid last step in `length_array`.
pub open spec fn path_ready(length_array: Seq<u16>, size: int) -> bool {
    &&& size < length_array.len()
    &&& forall|j: int| 1 <= j <= size ==> #[trigger] path_step_ok(length_array[j], j)
}

/// The steps of the path that ends `index` bytes into the block, first step first, read
/// back through `length_array`.
pub open spec fn traced_path(length_array: Seq<u16>, index: int) -> Seq<u16>
    decreases index,
{
    if index <= 0 || index >= length_array.len() || length_array[index] == 0 || length_array[index] > index {
        Seq::empty()
    } else {
        traced_path(length_array, index - length_array[index]).push(length_array[index])
    }
}

/// Number of bytes that the steps of `path` cover.
pub open spec fn path_sum(path: Seq<u16>) -> int
    decreases path.len(),
{
    if path.len() == 0 {
        0
    } else {
        path_sum(path.drop_last()) + path.last()
    }
}

/// Every step of `path` is a literal or a match of 3 to 258 bytes.
pub open spec fn path_steps_ok(path: Seq<u16>) -> bool {
    forall|k: int| 0 <= k < path.len() ==> (#[trigger] path[k] == 1 || 3 <= path[k] <= 258)
}

/// Reading the path back from `index` through `length_array` never meets a step of
/// length 0, longer than 258, or reaching before the start of the block.
pub open spec fn trace_ok(length_array: Seq<u16>, index: int) -> bool
    decreases index,
{
    if index <= 0 {
        true
    } else {
        &&& index < length_array.len()
        &&& 1 <= length_array[index] <= 258
        &&& length_array[index] <= index
        &&& trace_ok(length_array, index - length_array[index])
    }
}

/// Every step of `path` covers 1 to 258 bytes.
pub open spec fn path_steps_in_range(path: Seq<u16>) -> bool {
    forall|k: int| 0 <= k < path.len() ==> 1 <= #[trigger] path[k] <= 258
}

/// The path read back from a position covers exactly the bytes up to it.
pub proof fn lemma_traced_path(length_array: Seq<u16>, index: int)
    requires
        trace_ok(length_array, index),
        0 <= index,
    ensures
        path_sum(traced_path(length_array, index)) == index,
        path_steps_in_range(traced_path(length_array, index)),
    decreases index,
{
    if index > 0 {
        let l = length_array[index];
        lemma_traced_path(length_array, index - l);
        let t = traced_path(length_array, index - l);
        assert(t.push(l).drop_last() =~= t);
        assert forall|k: int| 0 <= k < t.push(l).len() implies 1 <= #[trigger] t.push(l)[k] <= 258 by {
            if k < t.len() {
                assert(t.push(l)[k] == t[k]);
            }
        }
    }
}

/// Where every position up to `size` holds a valid step, reading back from any of them
/// succeeds with literals and matches of 3 to 258 bytes.
pub proof fn lemma_ready_path(length_array: Seq<u16>, size: int, index: int)
    requires
        path_ready(length_array, size),
        0 <= index <= size,
    ensures
        trace_ok(length_array, index),
        path_steps_ok(traced_path(length_array, index)),
    decreases index,
{
    if index > 0 {
        assert(path_step_ok(length_array[index], index));
        let l = length_array[index];
        lemma_ready_path(length_array, size, index - l);
        let t = traced_path(length_array, index - l);
        assert forall|k: int| 0 <= k < t.push(l).len() implies (#[trigger] t.push(l)[k] == 1 || 3 <= t.push(l)[k]
            <= 258) by {
            if k < t.len() {
                assert(t.push(l)[k] == t[k]);
            }
        }
    }
}

/// A path that reads back through entries that are unset or valid steps consists of
/// literals and matches of 3 to 258 bytes.
pub proof fn lemma_trace_steps(length_array: Seq<u16>, index: int)
    requires
        trace_ok(length_array, index),
        forall|t: int| 1 <= t <= index ==> #[trigger] length_array[t] == 0u16 || path_step_ok(length_array[t], t),
    ensures
        path_steps_ok(traced_path(length_array, index)),
    decreases index,
{
    if index > 0 {
        let l = length_array[index];
        assert(length_array[index] == 0u16 || path_step_ok(length_array[index], index));
        lemma_trace_steps(length_array, index - l);
        let t = traced_path(length_array, index - l);
        assert forall|k: int| 0 <= k < t.push(l).len() implies (#[trigger] t.push(l)[k] == 1 || 3 <= t.push(l)[k]
            <= 258) by {
            if k < t.len() {
                assert(t.push(l)[k] == t[k]);
            }
        }
    }
}

/// Traces backward from the end of the block using the `length_array` to reconstruct the path.
pub fn trace_backwards(size: usize, length_array: &[u16]) -> (r: Vec<u16>)
    requires
        trace_ok(length_array@, size as int),
    ensures
        r@ == traced_path(length_array@, size as int),
        path_sum(r@) == size,
        path_steps_in_range(r@),
        path_ready(length_array@, size as int) ==> path_steps_ok(r@),
{
    proof {
        lemma_traced_path(length_array@, size as int);
        if path_ready(length_array@, size as int) {
            lemma_ready_path(length_array@, size as int, size as int);
        }
    }
    let mut rev: Vec<u16> = Vec::new();
    if size == 0 {
        return rev;
    }
    let mut index = size;
    while index > 0
        invariant
            0 <= index <= size,
            trace_ok(length_array@, index as int),
            traced_path(length_array@, size as int) == traced_path(length_array@, index as int) + Seq::new(
                rev@.len(),
                |t: int| rev@[rev@.len() - 1 - t],
            ),
        decreases index,
    {
        let length = length_array[index];
        let ghost old_rev = rev@;
        rev.push(length);
        let ghost view_old = Seq::new(old_rev.len(), |t: int| old_rev[old_rev.len() - 1 - t]);
        let ghost view_new = Seq::new(rev@.len(), |t: int| rev@[rev@.len() - 1 - t]);
        proof {
            assert(view_new =~= seq![length] + view_old);
            let tp = traced_path(length_array@, index - length);
            assert(traced_path(length_array@, index as int) == tp.push(length));
            assert(tp.push(length) + view_old =~= tp + view_new);
        }
        index = index - length as usize;
    }
    let mut path: Vec<u16> = Vec::new();
    let mut k = rev.len();
    while k > 0
        invariant
            0 <= k <= rev@.len(),
            path@ == Seq::new((rev@.len() - k) as nat, |t: int| rev@[rev@.len() - 1 - t]),
        decreases k,
    {
        k = k - 1;
        path.push(rev[k]);
        proof {
            assert(path@ =~= Seq::new((rev@.len() - k) as nat, |t: int| rev@[rev@.len() - 1 - t]));
        }
    }
    proof {
        assert(traced_path(length_array@, 0) =~= Seq::<u16>::empty());
        assert(Seq::<u16>::empty() + path@ =~= path@);
    }
    path
}

/// The first steps of a path cover no more bytes than more of its steps.
pub proof fn lemma_path_sum_prefix(path: Seq<u16>, a: int, b: int)
    requires
        0 <= a <= b <= path.len(),
    ensures
        path_sum(path.subrange(0, a)) <= path_sum(path.subrange(0, b)),
    decreases b - a,
{
    if a < b {
        lemma_path_sum_prefix(path, a, b - 1);
        assert(path.subrange(0, b).drop_last() =~= path.subrange(0, b - 1));
    }
}

/// Follows the reconstructed path of lengths to generate the actual LZ77 commands
/// and append them to the store. A step of 3 bytes or more becomes a match found again
/// at its position; if the match search does not confirm a match of exactly that
/// length there, the parse stops with `CompressionFailed`.
#[verifier::loop_isolation(false)]
#[verifier::rlimit(60)]
pub fn follow_path<'a>(
    s: &mut ZopfliBlockState<'_>,
    in_data: &[u8],
    instart: usize,
    inend: usize,
    path: &[u16],
    store: &mut Lz77Store<'a>,
)
    requires
        instart <= inend <= in_data@.len(),
        path_sum(path@) == inend - instart,
        path_steps_ok(path@),
        old(store).wf(),
        old(store).litlens@.len() + (inend - instart) < 0xffff_fffe,
        old(s).lmc is None,
        old(s).blockend <= in_data@.len(),
    ensures
        final(s).options == old(s).options,
        final(s).blockstart == old(s).blockstart,
        final(s).blockend == old(s).blockend,
        final(s).lmc is None,
        final(store).wf(),
        final(store).data == old(store).data,
        ({
            let n0 = old(store).litlens@.len() as int;
            let n = final(store).litlens@.len() as int;
            let l = final(store).litlens@;
            let d = final(store).dists@;
            &&& n0 <= n
            &&& l.subrange(0, n0) == old(store).litlens@
            &&& d.subrange(0, n0) == old(store).dists@
            &&& final(store).pos@.subrange(0, n0) == old(store).pos@
            &&& parse_ok(in_data@, l, d, final(store).pos@, n0, n, instart as int)
            &&& instart + parsed_len(l, d, n0, n) == inend
            &&& n0 + path@.len() <= n <= n0 + (inend - instart)
            &&& n == n0 + path@.len() ==> forall|k: int| 0 <= k < path@.len() ==> #[trigger] cmd_len(l, d, n0 + k) == path@[k]
        }),
{
    let ghost n0 = store.litlens@.len() as int;
    let ghost l0 = store.litlens@;
    let ghost d0 = store.dists@;
    let ghost p0 = store.pos@;
    proof {
        assert(store.litlens@.subrange(0, n0) == l0);
        assert(store.dists@.subrange(0, n0) == d0);
        assert(store.pos@.subrange(0, n0) == p0);
        assert(path@.subrange(0, path@.len() as int) == path@);
    }
    if instart == inend {
        proof {
            if path@.len() > 0 {
                lemma_path_sum_prefix(path@, 1, path@.len() as int);
                let s1 = path@.subrange(0, 1);
                assert(s1.drop_last() =~= path@.subrange(0, 0));
                assert(path_sum(path@.subrange(0, 0)) == 0);
                assert(s1.last() == path@[0]);
                assert(path_sum(s1) == path_sum(s1.drop_last()) + s1.last());
                assert(path@[0] == 1 || 3 <= path@[0] <= 258);
            }
        }
        return;
    }
    let window_size = WINDOW_SIZE;
    let mut hash = ZopfliHash::new(window_size);
    let windowstart = if instart > window_size {
        instart - window_size
    } else {
        0
    };
    let ghost ws = windowstart as int;
    proof {
        lemma_fresh_hash_inv(hash, in_data@, inend as int, ws);
    }
    hash.warmup(in_data, windowstart, inend);
    let mut w = windowstart;
    while w < instart
        invariant
            ws <= w <= instart,
            hash.hash_inv(in_data@, inend as int, ws, w - 1),
        decreases instart - w,
    {
        let ghost h0 = hash;
        hash.update(in_data, w, inend);
        proof {
            lemma_update_preserves_inv(h0, hash, in_data@, inend as int, ws, w as int);
        }
        w = w + 1;
    }
    let mut pos = instart;
    let mut idx: usize = 0;
    let ghost mut fallen = false;
    while idx < path.len()
        invariant
            0 <= idx <= path@.len(),
            instart <= pos <= inend <= in_data@.len(),
            pos == instart + path_sum(path@.subrange(0, idx as int)),
            hash.hash_inv(in_data@, inend as int, ws, pos - 1),
            s.lmc is None,
            s.options == old(s).options,
            s.blockstart == old(s).blockstart,
            s.blockend == old(s).blockend,
            store.wf(),
            store.data == old(store).data,
            !fallen ==> store.litlens@.len() == n0 + idx,
            fallen ==> store.litlens@.len() > n0 + idx,
            n0 + idx <= store.litlens@.len() <= n0 + (pos - instart),
            n0 + (inend - instart) < 0xffff_fffe,
            store.litlens@.subrange(0, n0) == l0,
            store.dists@.subrange(0, n0) == d0,
            store.pos@.subrange(0, n0) == p0,
            !fallen ==> forall|k: int| 0 <= k < idx ==> #[trigger] cmd_len(store.litlens@, store.dists@, n0 + k) == path@[k],
            parse_ok(in_data@, store.litlens@, store.dists@, store.pos@, n0, store.litlens@.len() as int, instart as int),
            instart + parsed_len(store.litlens@, store.dists@, n0, store.litlens@.len() as int) == pos,
        decreases path@.len() - idx,
    {
        let length = path[idx];
        proof {
            lemma_path_sum_prefix(path@, idx + 1, path@.len() as int);
            assert(path@.subrange(0, idx + 1).drop_last() =~= path@.subrange(0, idx as int));
            assert(path@[idx as int] == 1 || 3 <= path@[idx as int] <= 258);
        }
        let ghost h0 = hash;
        hash.update(in_data, pos, inend);
        proof {
            lemma_update_preserves_inv(h0, hash, in_data@, inend as int, ws, pos as int);
        }
        let ghost ls = store.litlens@;
        let ghost ds = store.dists@;
        let ghost ps = store.pos@;
        let final_length: usize;
        if length >= 3 {
            let res = find_longest_match(s, &hash, in_data, pos, length as usize, None);
            let dist = res.0;
            let sink_length = res.1;
            if sink_length == length && dist != 0 {
                store.store_lit_len_dist(length, dist, pos);
                proof {
                    lemma_parse_push(in_data@, ls, ds, ps, n0, instart as int, length, dist, pos as u32);
                }
            } else {
                let ghost len0 = store.litlens@.len();
                let mut k: usize = 0;
                while k < length as usize
                    invariant
                        k <= length <= 258,
                        pos + length <= inend <= in_data@.len(),
                        store.wf(),
                        store.data == old(store).data,
                        store.litlens@.len() == len0 + k,
                        len0 == ls.len(),
                        ls.len() <= n0 + (pos - instart),
                        n0 + (inend - instart) < 0xffff_fffe,
                        store.litlens@.subrange(0, len0 as int) == ls,
                        store.dists@.subrange(0, len0 as int) == ds,
                        store.pos@.subrange(0, len0 as int) == ps,
                        store.litlens@.len() == store.dists@.len(),
                        store.litlens@.len() == store.pos@.len(),
                        parse_ok(in_data@, store.litlens@, store.dists@, store.pos@, n0, store.litlens@.len() as int, instart as int),
                        instart + parsed_len(store.litlens@, store.dists@, n0, store.litlens@.len() as int) == pos + k,
                    decreases length - k,
                {
                    let ghost lk = store.litlens@;
                    let ghost dk = store.dists@;
                    let ghost pk = store.pos@;
                    store.store_lit_len_dist(in_data[pos + k] as u16, 0, pos + k);
                    proof {
                        lemma_parse_push(in_data@, lk, dk, pk, n0, instart as int, in_data@[pos + k] as u16, 0, (pos + k) as u32);
                        assert(store.litlens@.subrange(0, len0 as int) =~= lk.subrange(0, len0 as int));
                        assert(store.dists@.subrange(0, len0 as int) =~= dk.subrange(0, len0 as int));
                        assert(store.pos@.subrange(0, len0 as int) =~= pk.subrange(0, len0 as int));
                    }
                    k = k + 1;
                }
                proof {
                    fallen = true;
                }
            }
            final_length = length as usize;
        } else {
            store.store_lit_len_dist(in_data[pos] as u16, 0, pos);
            proof {
                lemma_parse_push(in_data@, ls, ds, ps, n0, instart as int, in_data@[pos as int] as u16, 0, pos as u32);
            }
            final_length = 1;
        }
        proof {
            assert forall|k: int| !fallen && 0 <= k < idx + 1 implies #[trigger] cmd_len(store.litlens@, store.dists@, n0 + k)
                == path@[k] by {
                if k < idx {
                    assert(cmd_len(ls, ds, n0 + k) == path@[k]);
                    assert(store.litlens@[n0 + k] == ls[n0 + k]);
                    assert(store.dists@[n0 + k] == ds[n0 + k]);
                }
            }
            assert(store.litlens@.subrange(0, n0) == l0) by {
                assert(store.litlens@.subrange(0, n0) =~= ls.subrange(0, n0));
            }
            assert(store.dists@.subrange(0, n0) == d0) by {
                assert(store.dists@.subrange(0, n0) =~= ds.subrange(0, n0));
            }
            assert(store.pos@.subrange(0, n0) == p0) by {
                assert(store.pos@.subrange(0, n0) =~= ps.subrange(0, n0));
            }
        }
        pos = skip_positions(&mut hash, in_data, pos, final_length - 1, inend, Ghost(ws));
        pos = pos + 1;
        idx = idx + 1;
    }
}

/// A path of valid steps has no more steps than the bytes it covers.
pub proof fn lemma_path_len_le_sum(path: Seq<u16>)
    requires
        path_steps_ok(path),
    ensures
        path.len() <= path_sum(path),
    decreases path.len(),
{
    if path.len() > 0 {
        let p0 = path.drop_last();
        assert forall|k: int| 0 <= k < p0.len() implies (#[trigger] p0[k] == 1 || 3 <= p0[k] <= 258) by {
            assert(p0[k] == path[k]);
        }
        lemma_path_len_le_sum(p0);
        assert(path[path.len() - 1] == 1 || 3 <= path[path.len() - 1] <= 258);
    }
}

/// Performs optimal LZ77 parse using a fixed cost model.
#[verifier::loop_isolation(false)]
pub fn lz77_optimal_fixed<'a>(
    s: &mut ZopfliBlockState<'_>,
    in_data: &'a [u8],
    instart: usize,
    inend: usize,
    store: &mut Lz77Store<'a>,
)
    requires
        instart <= inend <= in_data@.len(),
        old(store).wf(),
        old(store).litlens@.len() + (inend - instart) < 0xffff_fffe,
        old(s).lmc is None,
    ensures
        final(s).options == old(s).options,
        final(s).blockstart == instart,
        final(s).blockend == inend,
        final(s).lmc is None,
        final(store).wf(),
        final(store).data == old(store).data,
        ({
            let n0 = old(store).litlens@.len() as int;
            let n = final(store).litlens@.len() as int;
            &&& n0 <= n
            &&& final(store).litlens@.subrange(0, n0) == old(store).litlens@
            &&& final(store).dists@.subrange(0, n0) == old(store).dists@
            &&& final(store).pos@.subrange(0, n0) == old(store).pos@
            &&& parse_ok(
                in_data@,
                final(store).litlens@,
                final(store).dists@,
                final(store).pos@,
                n0,
                n,
                instart as int,
            ) && instart + parsed_len(final(store).litlens@, final(store).dists@, n0, n) == inend
        }),
{
    let blocksize = inend - instart;
    let mut length_array: Vec<u16> = vec![0u16; blocksize + 1];
    s.blockstart = instart;
    s.blockend = inend;
    let _cost = get_best_lengths_fixed(s, in_data, instart, inend, length_array.as_mut_slice());
    proof {
        lemma_trace_steps(length_array@, blocksize as int);
    }
    let path = trace_backwards(blocksize, length_array.as_slice());
    proof {
        lemma_path_len_le_sum(path@);
    }
    follow_path(s, in_data, instart, inend, path.as_slice(), store)
}
} // verus!
