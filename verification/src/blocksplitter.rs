//! Choosing where to split the input into DEFLATE blocks.
use crate::lz77::{
    cmd_len, cmd_ok, lz77_greedy, parse_ok, parsed_len, Lz77Store, Lz77StoreView, UninitializedLz77Store,
    ZopfliBlockState,
};
use crate::squeeze::{auto_block_size, byte_range, calculate_block_size_auto_type, cmds_codable};
use crate::util::{wide_usize, SafeOptions};
use vstd::prelude::*;

verus! {

/// Ranges shorter than this are searched point by point.
pub const DIRECT_SEARCH_LIMIT: usize = 1024;

/// Blocks with fewer commands than this are not split further.
const MIN_BLOCK_SIZE: usize = 10;

/// `f` can return at `j` a value of at least `m` (for a function with one value per
/// argument: its value at `j` is at least `m`).
pub open spec fn value_at_least<F: Fn(usize) -> usize>(f: F, j: usize, m: usize) -> bool {
    exists|v: usize| #[trigger] f.ensures((j,), v) && m <= v
}

/// Index of the first smallest of `v[0..n]`.
pub open spec fn first_min(v: Seq<usize>, n: int) -> int
    decreases n,
{
    if n <= 1 {
        0
    } else {
        let b = first_min(v, n - 1);
        if v[n - 1] < v[b] {
            n - 1
        } else {
            b
        }
    }
}

/// The first smallest of `n` values is one of them.
pub proof fn lemma_first_min_range(v: Seq<usize>, n: int)
    ensures
        0 <= first_min(v, n) < if n <= 1 {
            1
        } else {
            n
        },
    decreases n,
{
    if n > 1 {
        lemma_first_min_range(v, n - 1);
    }
}

/// Sample point `k` (of nine) of the range `start..end`: the range is cut into ten equal
/// steps.
pub open spec fn sample_point(start: int, end: int, k: int) -> int {
    start + (k + 1) * ((end - start) / 10)
}

/// The sampling search on `start..end`, with best value `lastbest` so far at `pos`, can
/// end with the point `rp` and value `rv`: a range of at most nine points ends the
/// search; otherwise `f` is evaluated at the nine sample points, and unless their first
/// smallest value exceeds `lastbest`, the search goes on around that sample, between its
/// two neighbours (or the range's ends).
pub open spec fn narrowing<F: Fn(usize) -> usize>(
    f: F,
    start: int,
    end: int,
    lastbest: usize,
    pos: usize,
    rp: usize,
    rv: usize,
) -> bool
    decreases end - start,
{
    if end - start <= 9 {
        rp == pos && rv == lastbest
    } else {
        exists|vp: Seq<usize>|
            #![trigger first_min(vp, 9)]
            vp.len() == 9 && (forall|k: int| 0 <= k < 9 ==> f.ensures((sample_point(start, end, k) as usize,), #[trigger] vp[k]))
                && {
                let b = first_min(vp, 9);
                if vp[b] > lastbest {
                    rp == pos && rv == lastbest
                } else {
                    proof {
                        lemma_first_min_range(vp, 9);
                        lemma_sample_narrows(start, end, b);
                    }
                    narrowing(
                        f,
                        if b == 0 {
                            start
                        } else {
                            sample_point(start, end, b - 1)
                        },
                        if b == 8 {
                            end
                        } else {
                            sample_point(start, end, b + 1)
                        },
                        vp[b],
                        sample_point(start, end, b) as usize,
                        rp,
                        rv,
                    )
                }
            }
    }
}

/// Around a sample, the range gets smaller.
pub proof fn lemma_sample_narrows(start: int, end: int, b: int)
    requires
        end - start > 9,
        0 <= b < 9,
    ensures
        start <= (if b == 0 {
            start
        } else {
            sample_point(start, end, b - 1)
        }) <= sample_point(start, end, b) <= (if b == 8 {
            end
        } else {
            sample_point(start, end, b + 1)
        }) <= end,
        sample_point(start, end, b) < end,
        (if b == 8 {
            end
        } else {
            sample_point(start, end, b + 1)
        }) - (if b == 0 {
            start
        } else {
            sample_point(start, end, b - 1)
        }) < end - start,
{
    let w = end - start;
    let step = w / 10;
    assert(10 * step <= w && step >= 1 && w < 10 * step + 10) by (nonlinear_arith)
        requires
            step == w / 10,
            w > 9,
    ;
    assert(sample_point(start, end, b) == start + (b + 1) * step);
    assert((b + 1) * step <= 9 * step && (b + 1) * step >= step) by (nonlinear_arith)
        requires
            0 <= b <= 8,
            step >= 1,
    ;
    if b > 0 {
        assert(sample_point(start, end, b - 1) == start + b * step);
        assert(b * step + step == (b + 1) * step) by (nonlinear_arith);
        assert(b * step >= 0) by (nonlinear_arith)
            requires
                b >= 0,
                step >= 0,
        ;
    }
    if b < 8 {
        assert(sample_point(start, end, b + 1) == start + (b + 2) * step);
        assert((b + 2) * step == (b + 1) * step + step) by (nonlinear_arith);
        assert((b + 2) * step <= 9 * step) by (nonlinear_arith)
            requires
                0 <= b <= 7,
                step >= 1,
        ;
    }
}

/// Finds minimum of function `f(i)` where `i` is in range `start..end` (excluding end).
/// Uses direct search for small ranges and a recursive sampling strategy for large ranges.
/// Returns a tuple of `(best_index, min_cost)`; `usize::MAX` stands for no cost found.
#[verifier::loop_isolation(false)]
pub fn find_minimum<F: Fn(usize) -> usize>(f: F, start: usize, end: usize) -> (r: (usize, usize))
    requires
        start <= end,
        forall|i: usize| start <= i < end ==> #[trigger] f.requires((i,)),
    ensures
        start < end ==> start <= r.0 < end,
        start == end ==> r.0 == start && r.1 == usize::MAX,
        r.1 == usize::MAX || f.ensures((r.0,), r.1),
        end - start < DIRECT_SEARCH_LIMIT ==> forall|j: usize|
            start <= j < end ==> #[trigger] value_at_least(f, j, r.1),
        end - start >= DIRECT_SEARCH_LIMIT ==> f.ensures((r.0,), r.1) && forall|k: int|
            0 <= k < 9 ==> #[trigger] value_at_least(f, (start + (k + 1) * ((end - start) / 10)) as usize, r.1),
        end - start >= DIRECT_SEARCH_LIMIT ==> narrowing(f, start as int, end as int, usize::MAX, start, r.0, r.1),
{
    if end - start < DIRECT_SEARCH_LIMIT {
        let mut best: usize = usize::MAX;
        let mut result = start;
        let mut i = start;
        while i < end
            invariant
                start <= i <= end,
                end - start < 1024,
                forall|j: usize| start <= j < end ==> #[trigger] f.requires((j,)),
                start < i ==> start <= result < i,
                i == start ==> result == start && best == usize::MAX,
                best == usize::MAX || f.ensures((result,), best),
                forall|j: usize| start <= j < i ==> #[trigger] value_at_least(f, j, best),
            decreases end - i,
        {
            let v = f(i);
            let ghost best0 = best;
            if v < best {
                best = v;
                result = i;
            }
            proof {
                assert(value_at_least(f, i, best));
                assert forall|j: usize| start <= j < i + 1 implies #[trigger] value_at_least(f, j, best) by {
                    if j < i {
                        assert(value_at_least(f, j, best0));
                        let w = choose|w: usize| #[trigger] f.ensures((j,), w) && best0 <= w;
                        assert(f.ensures((j,), w) && best <= w);
                    }
                }
            }
            i = i + 1;
        }
        (result, best)
    } else {
        let mut start = start;
        let mut end = end;
        let ghost start0 = start;
        let ghost end0 = end;
        let mut lastbest: usize = usize::MAX;
        let mut pos = start;
        let ghost mut done = false;
        let ghost mut first_best: usize = 0;
        loop
            invariant
                start0 <= start <= end <= end0,
                start0 <= pos < end0,
                end0 - start0 >= 1024,
                forall|j: usize| start0 <= j < end0 ==> #[trigger] f.requires((j,)),
                lastbest == usize::MAX || f.ensures((pos,), lastbest),
                !done ==> start == start0 && end == end0 && lastbest == usize::MAX,
                done ==> f.ensures((pos,), lastbest) && lastbest <= first_best,
                done ==> forall|k: int|
                    0 <= k < 9 ==> #[trigger] value_at_least(
                        f,
                        (start0 + (k + 1) * ((end0 - start0) / 10)) as usize,
                        first_best,
                    ),
                forall|rp: usize, rv: usize|
                    #[trigger] narrowing(f, start as int, end as int, lastbest, pos, rp, rv) ==> narrowing(
                        f,
                        start0 as int,
                        end0 as int,
                        usize::MAX,
                        start0,
                        rp,
                        rv,
                    ),
            decreases end - start,
        {
            if end - start <= 9 {
                proof {
                    assert(narrowing(f, start as int, end as int, lastbest, pos, pos, lastbest));
                }
                break;
            }
            let step = (end - start) / 10;
            let mut p = [0usize; 9];
            let mut vp = [0usize; 9];
            let mut i: usize = 0;
            while i < 9
                invariant
                    i <= 9,
                    start0 <= start,
                    end <= end0,
                    end - start > 9,
                    step == (end - start) / 10,
                    forall|j: usize| start0 <= j < end0 ==> #[trigger] f.requires((j,)),
                    forall|k: int| 0 <= k < i ==> #[trigger] p@[k] == start + (k + 1) * step,
                    forall|k: int| 0 <= k < i ==> f.ensures((#[trigger] p@[k],), vp@[k]),
                decreases 9 - i,
            {
                proof {
                    assert((i + 1) * step <= 9 * step) by (nonlinear_arith)
                        requires
                            i + 1 <= 9,
                    ;
                    assert(9 * step < end - start) by (nonlinear_arith)
                        requires
                            step == (end - start) / 10,
                            end - start > 9,
                    ;
                }
                p[i] = start + (i + 1) * step;
                vp[i] = f(p[i]);
                i = i + 1;
            }
            let mut besti: usize = 0;
            let mut best = vp[0];
            let mut i: usize = 1;
            while i < 9
                invariant
                    1 <= i <= 9,
                    besti < i,
                    besti == first_min(vp@, i as int),
                    best == vp@[besti as int],
                    forall|k: int| 0 <= k < i ==> best <= #[trigger] vp@[k],
                decreases 9 - i,
            {
                if vp[i] < best {
                    best = vp[i];
                    besti = i;
                }
                i = i + 1;
            }
            proof {
                assert forall|k: int| 0 <= k < 9 implies f.ensures(
                    (sample_point(start as int, end as int, k) as usize,),
                    #[trigger] vp@[k],
                ) by {
                    assert(p@[k] == start + (k + 1) * step);
                }
                assert(vp@.len() == 9);
                assert(first_min(vp@, 9) == besti);
            }
            if best > lastbest {
                proof {
                    assert(narrowing(f, start as int, end as int, lastbest, pos, pos, lastbest));
                }
                break;
            }
            let ghost s_old = start as int;
            let ghost e_old = end as int;
            let ghost lb_old = lastbest;
            let ghost pos_old = pos;
            proof {
                if !done {
                    assert forall|k: int| 0 <= k < 9 implies #[trigger] value_at_least(
                        f,
                        (start0 + (k + 1) * ((end0 - start0) / 10)) as usize,
                        best,
                    ) by {
                        assert(p@[k] == start + (k + 1) * step);
                        assert(f.ensures((p@[k],), vp@[k]) && best <= vp@[k]);
                    }
                    first_best = best;
                }
                done = true;
            }
            proof {
                let a = besti as int;
                let w = end - start;
                assert(f.ensures((p@[a],), vp@[a]));
                assert(10 * step <= w && step >= 1) by (nonlinear_arith)
                    requires
                        step == w / 10,
                        w > 9,
                ;
                assert(p@[a] == start + (a + 1) * step);
                assert((a + 1) * step <= 9 * step && (a + 1) * step >= step) by (nonlinear_arith)
                    requires
                        0 <= a <= 8,
                        step >= 1,
                ;
                if a > 0 {
                    assert(p@[a - 1] == start + (a - 1 + 1) * step);
                    assert((a - 1 + 1) * step + step == (a + 1) * step) by (nonlinear_arith);
                }
                if a < 8 {
                    assert(p@[a + 1] == start + (a + 1 + 1) * step);
                    assert((a + 1 + 1) * step == (a + 1) * step + step) by (nonlinear_arith);
                    assert((a + 1 + 1) * step <= 9 * step) by (nonlinear_arith)
                        requires
                            0 <= a <= 7,
                            step >= 1,
                    ;
                }
            }
            start = if besti == 0 {
                start
            } else {
                p[besti - 1]
            };
            end = if besti == 8 {
                end
            } else {
                p[besti + 1]
            };
            pos = p[besti];
            lastbest = best;
            proof {
                lemma_first_min_range(vp@, 9);
                assert(pos == sample_point(s_old, e_old, besti as int) as usize);
                assert(besti > 0 ==> start == sample_point(s_old, e_old, besti - 1));
                assert(besti < 8 ==> end == sample_point(s_old, e_old, besti + 1));
                assert forall|rp: usize, rv: usize|
                    #[trigger] narrowing(f, start as int, end as int, lastbest, pos, rp, rv) implies narrowing(
                        f,
                        start0 as int,
                        end0 as int,
                        usize::MAX,
                        start0,
                        rp,
                        rv,
                    ) by {
                    assert(narrowing(f, s_old, e_old, lb_old, pos_old, rp, rv));
                }
            }
        }
        proof {
            assert(done);
            assert(lastbest <= first_best);
            assert forall|k: int| 0 <= k < 9 implies #[trigger] value_at_least(
                f,
                (start0 + (k + 1) * ((end0 - start0) / 10)) as usize,
                lastbest,
            ) by {
                assert(value_at_least(f, (start0 + (k + 1) * ((end0 - start0) / 10)) as usize, first_best));
                let j = (start0 + (k + 1) * ((end0 - start0) / 10)) as usize;
                let w = choose|w: usize| #[trigger] f.ensures((j,), w) && first_best <= w;
                assert(f.ensures((j,), w) && lastbest <= w);
            }
        }
        (pos, lastbest)
    }
}

/// Number of elements of `s` below `v`.
pub open spec fn count_less(s: Seq<usize>, v: usize) -> int
    decreases s.len(),
{
    if s.len() == 0 {
        0
    } else {
        count_less(s.drop_last(), v) + if s.last() < v {
            1int
        } else {
            0int
        }
    }
}

/// The elements of `s` increase.
pub open spec fn sorted(s: Seq<usize>) -> bool {
    forall|i: int, j: int| 0 <= i < j < s.len() ==> s[i] <= s[j]
}

/// The elements of `s` strictly increase.
pub open spec fn strictly_sorted(s: Seq<usize>) -> bool {
    forall|i: int, j: int| 0 <= i < j < s.len() ==> s[i] < s[j]
}

proof fn lemma_count_less_sorted(s: Seq<usize>, v: usize, k: int)
    requires
        sorted(s),
        0 <= k <= s.len(),
        forall|i: int| 0 <= i < k ==> #[trigger] s[i] < v,
        forall|i: int| k <= i < s.len() ==> #[trigger] s[i] >= v,
    ensures
        count_less(s, v) == k,
    decreases s.len(),
{
    if s.len() > 0 {
        let s0 = s.drop_last();
        if k == s.len() {
            lemma_count_less_sorted(s0, v, k - 1);
        } else {
            lemma_count_less_sorted(s0, v, k);
        }
    }
}

/// Helper function to insert a value into a sorted vector while keeping it sorted.
fn add_sorted(value: usize, out: &mut Vec<usize>)
    requires
        sorted(old(out)@),
    ensures
        final(out)@ == old(out)@.insert(count_less(old(out)@, value), value),
        sorted(final(out)@),
{
    let mut lo: usize = 0;
    let mut hi: usize = out.len();
    while lo < hi
        invariant
            lo <= hi <= out@.len(),
            sorted(out@),
            forall|i: int| 0 <= i < lo ==> #[trigger] out@[i] < value,
            forall|i: int| hi <= i < out@.len() ==> #[trigger] out@[i] >= value,
        decreases hi - lo,
    {
        let mid = lo + (hi - lo) / 2;
        if out[mid] < value {
            lo = mid + 1;
        } else {
            hi = mid;
        }
    }
    proof {
        lemma_count_less_sorted(out@, value, lo as int);
    }
    let ghost o = out@;
    out.insert(lo, value);
    proof {
        assert forall|i: int, j: int| 0 <= i < j < out@.len() implies out@[i] <= out@[j] by {
            if i < lo && j < lo {
                assert(out@[i] == o[i] && out@[j] == o[j]);
            } else if i < lo && j == lo {
                assert(out@[i] == o[i]);
            } else if i < lo {
                assert(out@[i] == o[i] && out@[j] == o[j - 1]);
            } else if i == lo {
                assert(out@[j] == o[j - 1]);
            } else {
                assert(out@[i] == o[i - 1] && out@[j] == o[j - 1]);
            }
        }
    }
}

/// Start of block `i` among the blocks that the split points delimit.
pub open spec fn block_start(sp: Seq<usize>, i: int) -> int {
    if i == 0 {
        0
    } else {
        sp[i - 1] as int
    }
}

/// End of block `i`: the next split point, or one before the end for the last block.
pub open spec fn block_end(sp: Seq<usize>, lz77size: int, i: int) -> int {
    if i == sp.len() {
        if lz77size > 0 {
            lz77size - 1
        } else {
            0
        }
    } else {
        sp[i] as int
    }
}

/// Block `i` can still be split: its start is not done and it is not empty.
pub open spec fn splittable(sp: Seq<usize>, lz77size: int, done: Seq<bool>, i: int) -> bool {
    &&& block_start(sp, i) < done.len()
    &&& !done[block_start(sp, i)]
    &&& block_end(sp, lz77size, i) > block_start(sp, i)
}

/// Finds the largest splittable block.
/// Returns `Option<(lstart, lend)>`.
fn find_largest_splittable_block(lz77size: usize, done: &[bool], splitpoints: &[usize]) -> (r: Option<
    (usize, usize),
>)
    requires
        splitpoints@.len() < usize::MAX,
    ensures
        r is None ==> forall|i: int| 0 <= i <= splitpoints@.len() ==> !#[trigger] splittable(
            splitpoints@,
            lz77size as int,
            done@,
            i,
        ),
        r matches Some(b) ==> exists|i: int|
            0 <= i <= splitpoints@.len() && #[trigger] splittable(splitpoints@, lz77size as int, done@, i)
                && b.0 == block_start(splitpoints@, i) && b.1 == block_end(splitpoints@, lz77size as int, i),
        r matches Some(b) ==> forall|i: int|
            0 <= i <= splitpoints@.len() && #[trigger] splittable(splitpoints@, lz77size as int, done@, i)
                ==> block_end(splitpoints@, lz77size as int, i) - block_start(splitpoints@, i) <= b.1 - b.0,
{
    let mut longest: usize = 0;
    let mut result: Option<(usize, usize)> = None;
    let npoints = splitpoints.len();
    let mut i: usize = 0;
    while i <= npoints
        invariant
            i <= npoints + 1,
            npoints == splitpoints@.len(),
            npoints < usize::MAX,
            result is None ==> longest == 0,
            forall|k: int|
                0 <= k < i && #[trigger] splittable(splitpoints@, lz77size as int, done@, k) ==> block_end(
                    splitpoints@,
                    lz77size as int,
                    k,
                ) - block_start(splitpoints@, k) <= longest,
            result is None ==> forall|k: int| 0 <= k < i ==> !#[trigger] splittable(
                splitpoints@,
                lz77size as int,
                done@,
                k,
            ),
            result matches Some(b) ==> b.1 - b.0 == longest && exists|k: int|
                0 <= k < i && #[trigger] splittable(splitpoints@, lz77size as int, done@, k) && b.0
                    == block_start(splitpoints@, k) && b.1 == block_end(splitpoints@, lz77size as int, k),
        decreases npoints + 1 - i,
    {
        let start = if i == 0 {
            0
        } else {
            splitpoints[i - 1]
        };
        let end = if i == npoints {
            lz77size.saturating_sub(1)
        } else {
            splitpoints[i]
        };
        proof {
            assert(start == block_start(splitpoints@, i as int));
            assert(end == block_end(splitpoints@, lz77size as int, i as int));
        }
        if start < done.len() && !done[start] && end > start && (end - start) > longest {
            proof {
                assert(splittable(splitpoints@, lz77size as int, done@, i as int));
            }
            longest = end - start;
            result = Some((start, end));
        }
        i = i + 1;
    }
    result
}

/// Positions of the commands never decrease, and the store is small enough for block
/// sizes to be estimated on any of its ranges.
pub open spec fn store_splittable(view: Lz77StoreView) -> bool {
    &&& view.wf()
    &&& view.pos@.len() == view.litlens@.len()
    &&& cmds_codable(view.litlens@, view.dists@, 0, view.litlens@.len() as int)
    &&& forall|i: int, j: int| 0 <= i <= j < view.pos@.len() ==> view.pos@[i] <= view.pos@[j]
}

proof fn lemma_store_ready(view: Lz77StoreView, lo: int, hi: int)
    requires
        store_splittable(view),
        0 <= lo <= hi <= view.litlens@.len(),
    ensures
        crate::squeeze::block_size_ready(view, lo, hi),
{
    let n = view.litlens@.len() as int;
    assert(view.dists@.len() == n);
    if lo < hi {
        assert(view.pos@[lo] <= view.pos@[hi - 1]);
        let i = hi - 1;
        assert(view.dists@[i] == 0 || view.litlens@[i] >= 3);
    }
    assert forall|i: int| lo <= i < hi implies if #[trigger] view.dists@[i] == 0 {
        view.litlens@[i] < 256
    } else {
        3 <= view.litlens@[i] <= 258 && view.dists@[i] <= 32768
    } by {
        assert(0 <= i < n);
    }
}

proof fn lemma_sorted_lower(s: Seq<usize>, k: int)
    requires
        strictly_sorted(s),
        forall|i: int| 0 <= i < s.len() ==> 0 < #[trigger] s[i],
        0 <= k < s.len(),
    ensures
        s[k] >= k + 1,
    decreases k,
{
    if k > 0 {
        lemma_sorted_lower(s, k - 1);
        assert(s[k - 1] < s[k]);
    }
}

proof fn lemma_strictly_sorted_len(s: Seq<usize>, size: int)
    requires
        strictly_sorted(s),
        forall|i: int| 0 <= i < s.len() ==> 0 < #[trigger] s[i] < size,
    ensures
        s.len() < size || s.len() == 0,
{
    if s.len() > 0 {
        lemma_sorted_lower(s, s.len() - 1);
    }
}

/// Number of entries of `s` that are set.
pub open spec fn count_true(s: Seq<bool>) -> int
    decreases s.len(),
{
    if s.len() == 0 {
        0
    } else {
        count_true(s.drop_last()) + if s.last() {
            1int
        } else {
            0int
        }
    }
}

proof fn lemma_count_true_set(s: Seq<bool>, k: int)
    requires
        0 <= k < s.len(),
        !s[k],
    ensures
        count_true(s.update(k, true)) == count_true(s) + 1,
    decreases s.len(),
{
    let s2 = s.update(k, true);
    if k < s.len() - 1 {
        assert(s2.drop_last() == s.drop_last().update(k, true));
        lemma_count_true_set(s.drop_last(), k);
    } else {
        assert(s2.drop_last() == s.drop_last());
    }
}

proof fn lemma_count_true_bound(s: Seq<bool>)
    ensures
        0 <= count_true(s) <= s.len(),
    decreases s.len(),
{
    if s.len() > 0 {
        lemma_count_true_bound(s.drop_last());
    }
}


/// The elements of `s` are distinct.
proof fn lemma_sorted_insert_strict(s: Seq<usize>, v: usize, k: int)
    requires
        strictly_sorted(s),
        0 <= k <= s.len(),
        forall|i: int| 0 <= i < k ==> #[trigger] s[i] < v,
        forall|i: int| k <= i < s.len() ==> #[trigger] s[i] > v,
    ensures
        strictly_sorted(s.insert(k, v)),
{
    let t = s.insert(k, v);
    assert forall|i: int, j: int| 0 <= i < j < t.len() implies t[i] < t[j] by {
        if i < k && j < k {
            assert(t[i] == s[i] && t[j] == s[j]);
        } else if i < k && j == k {
            assert(t[i] == s[i]);
        } else if i < k {
            assert(t[i] == s[i] && t[j] == s[j - 1]);
        } else if i == k {
            assert(t[j] == s[j - 1]);
        } else {
            assert(t[i] == s[i - 1] && t[j] == s[j - 1]);
        }
    }
}

/// What `split_lz77` needs of a store: block sizes can be estimated on any range.
pub open spec fn lz77_splittable(lz77: &Lz77Store) -> bool {
    &&& lz77.wf()
    &&& cmds_codable(lz77.litlens@, lz77.dists@, 0, lz77.litlens@.len() as int)
    &&& forall|i: int, j: int| 0 <= i <= j < lz77.pos@.len() ==> lz77.pos@[i] <= lz77.pos@[j]
}

/// `v` shows the commands, positions, data and counts of `lz77`.
pub open spec fn view_of(v: Lz77StoreView, lz77: &Lz77Store) -> bool {
    &&& v.litlens@ == lz77.litlens@
    &&& v.dists@ == lz77.dists@
    &&& v.pos@ == lz77.pos@
    &&& v.data@ == lz77.data@
    &&& v.ll_counts@ == lz77.ll_counts@
    &&& v.d_counts@ == lz77.d_counts@
}

/// The estimated sizes of the commands `a..p` and `p..b` as blocks of their own add up to
/// no more than that of `a..b` as one block.
#[verifier::opaque]
pub open spec fn split_pays(lz77: &Lz77Store, a: int, p: int, b: int) -> bool {
    exists|v1: Lz77StoreView, v2: Lz77StoreView, c1: int, c2: int, c0: int|
        #![trigger auto_block_size(v1, a, p, c1), auto_block_size(v1, p, b, c2), auto_block_size(v2, a, b, c0)]
        view_of(v1, lz77) && view_of(v2, lz77) && auto_block_size(v1, a, p, c1) && auto_block_size(v1, p, b, c2)
            && auto_block_size(v2, a, b, c0) && c1 + c2 <= c0
}

/// `c` is an estimated cost of splitting the block `a..b` at `i`: the cheapest sizes of
/// the blocks `a..i` and `i..b`.
pub open spec fn split_cost_ok(lz77: &Lz77Store, a: int, b: int, i: int, c: int) -> bool {
    exists|v: Lz77StoreView, c1: int, c2: int|
        #![trigger auto_block_size(v, a, i, c1), auto_block_size(v, i, b, c2)]
        view_of(v, lz77) && auto_block_size(v, a, i, c1) && auto_block_size(v, i, b, c2) && c == c1 + c2
}

/// The search for a split point of the block `a..b` found the point `p`, strictly inside,
/// at estimated cost `c`: no point costs less when the block has fewer than 1025
/// commands, and none of the nine evenly spaced samples costs less otherwise.
pub open spec fn split_search_ok(lz77: &Lz77Store, a: int, b: int, p: int, c: int) -> bool {
    &&& a < p < b
    &&& split_cost_ok(lz77, a, b, p, c)
    &&& b - a - 1 < 1024 ==> forall|j: int| a < j < b ==> #[trigger] split_cost_at_least(lz77, a, b, j, c)
    &&& b - a - 1 >= 1024 ==> forall|k: int|
        0 <= k < 9 ==> #[trigger] split_cost_at_least(lz77, a, b, sample_point(a + 1, b, k), c)
}

/// Splitting the block `a..b` at `j` can be estimated at no less than `c`.
pub open spec fn split_cost_at_least(lz77: &Lz77Store, a: int, b: int, j: int, c: int) -> bool {
    exists|v: int| #[trigger] split_cost_ok(lz77, a, b, j, v) && c <= v
}

/// The block `a..b` was searched for a split point, and the point found does not pay: it
/// costs more than the block as a whole, or it is the block's first command.
pub open spec fn split_declined(lz77: &Lz77Store, a: int, b: int) -> bool {
    exists|p: int, c: int, v: Lz77StoreView, c0: int|
        #![trigger split_search_ok(lz77, a, b, p, c), auto_block_size(v, a, b, c0)]
        split_search_ok(lz77, a, b, p, c) && view_of(v, lz77) && auto_block_size(v, a, b, c0) && (c > c0 || p == a + 1)
}

/// Block `i` between the split points `sp` of `n` commands is too small to split, or
/// was searched and declined.
pub open spec fn block_settled(lz77: &Lz77Store, sp: Seq<usize>, n: int, i: int) -> bool {
    ||| block_end(sp, n, i) - block_start(sp, i) < 10
    ||| split_declined(lz77, block_start(sp, i), block_end(sp, n, i))
    ||| i == sp.len() && split_declined(lz77, block_start(sp, i), n)
}

/// Every block whose start is marked done was searched and declined.
#[verifier::opaque]
pub open spec fn blocks_declined(lz77: &Lz77Store, sp: Seq<usize>, done: Seq<bool>, n: int) -> bool {
    forall|i: int|
        0 <= i <= sp.len() && done[#[trigger] block_start(sp, i)] ==> split_declined(
            lz77,
            block_start(sp, i),
            block_end(sp, n, i),
        ) || (i == sp.len() && split_declined(lz77, block_start(sp, i), n))
}

/// Only block starts are marked done.
#[verifier::opaque]
pub open spec fn done_at_starts(sp: Seq<usize>, done: Seq<bool>, n: int) -> bool {
    forall|x: int| 0 <= x < n && #[trigger] done[x] ==> x == 0 || exists|k: int| 0 <= k < sp.len() && sp[k] == x
}

/// Each point `sp[k]` splits the block `lo[k]..hi[k]` around it with an estimated gain.
pub open spec fn points_pay(lz77: &Lz77Store, sp: Seq<usize>, lo: Seq<int>, hi: Seq<int>) -> bool {
    &&& lo.len() == sp.len()
    &&& hi.len() == sp.len()
    &&& forall|k: int|
        #![trigger sp[k]]
        0 <= k < sp.len() ==> lo[k] < sp[k] < hi[k] && split_pays(lz77, lo[k], sp[k] as int, hi[k])
}

/// Inserting a point that pays for itself keeps every point paying.
proof fn lemma_points_pay_insert(
    lz77: &Lz77Store,
    sp: Seq<usize>,
    lo: Seq<int>,
    hi: Seq<int>,
    k: int,
    p: usize,
    a: int,
    b: int,
)
    requires
        points_pay(lz77, sp, lo, hi),
        0 <= k <= sp.len(),
        a < p < b,
        split_pays(lz77, a, p as int, b),
    ensures
        points_pay(lz77, sp.insert(k, p), lo.insert(k, a), hi.insert(k, b)),
{
    let t = sp.insert(k, p);
    let lo2 = lo.insert(k, a);
    let hi2 = hi.insert(k, b);
    assert forall|j: int|
        #![trigger t[j]]
        0 <= j < t.len() implies lo2[j] < t[j] < hi2[j] && split_pays(lz77, lo2[j], t[j] as int, hi2[j]) by {
        if j < k {
            assert(t[j] == sp[j] && lo2[j] == lo[j] && hi2[j] == hi[j]);
        } else if j > k {
            assert(t[j] == sp[j - 1] && lo2[j] == lo[j - 1] && hi2[j] == hi[j - 1]);
        } else {
            assert(t[j] == p && lo2[j] == a && hi2[j] == b);
        }
    }
    assert(lo2.len() == t.len() && hi2.len() == t.len());
    assert(points_pay(lz77, t, lo2, hi2));
}

/// A search for a split point of `a..b` whose costs are split estimates, with a result
/// that does not pay, declines the block.
proof fn lemma_search_declined<F: Fn(usize) -> usize>(
    lz77: &Lz77Store,
    f: F,
    a: usize,
    b: usize,
    p: usize,
    c: usize,
    v: Lz77StoreView,
    c0: usize,
)
    requires
        wide_usize(),
        a + 1 < b,
        forall|q: usize, x: usize| #[trigger] f.ensures((q,), x) ==> split_cost_ok(lz77, a as int, b as int, q as int, x as int)
            && x < 0x1000_0000_0000_0000,
        a + 1 <= p < b,
        c == usize::MAX || f.ensures((p,), c),
        b - (a + 1) < DIRECT_SEARCH_LIMIT ==> forall|j: usize| a + 1 <= j < b ==> #[trigger] value_at_least(f, j, c),
        b - (a + 1) >= DIRECT_SEARCH_LIMIT ==> f.ensures((p,), c) && forall|k: int|
            0 <= k < 9 ==> #[trigger] value_at_least(f, ((a + 1) + (k + 1) * ((b - (a + 1)) / 10)) as usize, c),
        view_of(v, lz77),
        auto_block_size(v, a as int, b as int, c0 as int),
        c > c0 || p == a + 1 || p == b,
    ensures
        split_declined(lz77, a as int, b as int),
{
    let ai = a as int;
    let bi = b as int;
    if c == usize::MAX {
        if b - (a + 1) < DIRECT_SEARCH_LIMIT {
            let j0: usize = (a + 1) as usize;
            assert(value_at_least(f, j0, c));
            let w = choose|w: usize| #[trigger] f.ensures((j0,), w) && c <= w;
            assert(w < 0x1000_0000_0000_0000);
            assert(false);
        }
    }
    assert(f.ensures((p,), c));
    assert(split_cost_ok(lz77, ai, bi, p as int, c as int));
    if bi - ai - 1 < 1024 {
        assert forall|j: int| ai < j < bi implies #[trigger] split_cost_at_least(lz77, ai, bi, j, c as int) by {
            assert(value_at_least(f, j as usize, c));
            let w = choose|w: usize| #[trigger] f.ensures((j as usize,), w) && c <= w;
            assert(split_cost_ok(lz77, ai, bi, j, w as int));
        }
    } else {
        assert forall|k: int| 0 <= k < 9 implies #[trigger] split_cost_at_least(
            lz77,
            ai,
            bi,
            sample_point(ai + 1, bi, k),
            c as int,
        ) by {
            let jj = ((a + 1) + (k + 1) * ((b - (a + 1)) / 10)) as usize;
            assert(value_at_least(f, jj, c));
            lemma_sample_narrows(ai + 1, bi, k);
            assert(jj as int == sample_point(ai + 1, bi, k));
            let w = choose|w: usize| #[trigger] f.ensures((jj,), w) && c <= w;
            assert(split_cost_ok(lz77, ai, bi, jj as int, w as int));
        }
    }
    assert(split_search_ok(lz77, ai, bi, p as int, c as int));
}

/// Marking the start of the current block done after its search declined keeps every
/// done block declined, and only block starts done.
proof fn lemma_mark_declined(lz77: &Lz77Store, sp: Seq<usize>, done: Seq<bool>, n: int, cur: int, a: int, b: int)
    requires
        strictly_sorted(sp),
        forall|k: int| 0 <= k < sp.len() ==> 0 < #[trigger] sp[k] < n,
        done.len() == n,
        0 <= cur <= sp.len(),
        a == block_start(sp, cur),
        b == block_end(sp, n, cur) || (cur == sp.len() && b == n),
        split_declined(lz77, a, b),
        blocks_declined(lz77, sp, done, n),
        done_at_starts(sp, done, n),
    ensures
        blocks_declined(lz77, sp, done.update(a, true), n),
        done_at_starts(sp, done.update(a, true), n),
{
    reveal(blocks_declined);
    reveal(done_at_starts);
    let d2 = done.update(a, true);
    assert forall|i: int|
        0 <= i <= sp.len() && d2[#[trigger] block_start(sp, i)] implies split_declined(
            lz77,
            block_start(sp, i),
            block_end(sp, n, i),
        ) || (i == sp.len() && split_declined(lz77, block_start(sp, i), n)) by {
        if i != cur {
            if i > 0 && cur > 0 {
                if i < cur {
                    assert(sp[i - 1] < sp[cur - 1]);
                } else {
                    assert(sp[cur - 1] < sp[i - 1]);
                }
            } else if i > 0 {
                assert(sp[i - 1] > 0);
            } else {
                assert(sp[cur - 1] > 0);
            }
            assert(done[block_start(sp, i)]);
        }
    }
    assert forall|x: int| 0 <= x < n && #[trigger] d2[x] implies x == 0 || exists|k: int|
        0 <= k < sp.len() && sp[k] == x by {
        if x != a {
            assert(done[x]);
        } else if cur > 0 {
            assert(sp[cur - 1] == x);
        }
    }
}

/// The searched blocks whose start is done stay declined when a point is put into a block
/// whose start is not done, at a position that is not done; only block starts stay done.
proof fn lemma_declined_insert(lz77: &Lz77Store, sp: Seq<usize>, done: Seq<bool>, n: int, k: int, p: usize)
    requires
        strictly_sorted(sp),
        0 <= k <= sp.len(),
        forall|i: int| 0 <= i < k ==> #[trigger] sp[i] < p,
        forall|i: int| k <= i < sp.len() ==> #[trigger] sp[i] > p,
        0 <= block_start(sp, k) < done.len(),
        !done[block_start(sp, k)],
        p < done.len(),
        !done[p as int],
        blocks_declined(lz77, sp, done, n),
        done_at_starts(sp, done, n),
    ensures
        blocks_declined(lz77, sp.insert(k, p), done, n),
        done_at_starts(sp.insert(k, p), done, n),
{
    reveal(blocks_declined);
    reveal(done_at_starts);
    let t = sp.insert(k, p);
    assert forall|i: int|
        0 <= i <= t.len() && done[#[trigger] block_start(t, i)] implies split_declined(
            lz77,
            block_start(t, i),
            block_end(t, n, i),
        ) || (i == t.len() && split_declined(lz77, block_start(t, i), n)) by {
        if i < k {
            assert(block_start(t, i) == block_start(sp, i));
            assert(block_end(t, n, i) == block_end(sp, n, i));
            assert(done[block_start(sp, i)]);
        } else if i == k {
            assert(block_start(t, i) == block_start(sp, k));
        } else if i == k + 1 {
            assert(block_start(t, i) == p);
        } else {
            assert(block_start(t, i) == block_start(sp, i - 1));
            assert(block_end(t, n, i) == block_end(sp, n, i - 1));
            assert(done[block_start(sp, i - 1)]);
        }
    }
    assert forall|x: int| 0 <= x < n && #[trigger] done[x] implies x == 0 || exists|q: int|
        0 <= q < t.len() && t[q] == x by {
        if x != 0 {
            let q = choose|q: int| 0 <= q < sp.len() && sp[q] == x;
            if q < k {
                assert(t[q] == x);
            } else {
                assert(t[q + 1] == x);
            }
        }
    }
}

/// When no block can be split that is at least `m` commands long (with `m` at most 10),
/// every block is settled.
proof fn lemma_settled_exit(lz77: &Lz77Store, sp: Seq<usize>, done: Seq<bool>, n: int, m: int)
    requires
        m <= 10,
        done.len() == n,
        forall|k: int| 0 <= k < sp.len() ==> 0 < #[trigger] sp[k] < n,
        forall|i: int|
            0 <= i <= sp.len() && #[trigger] splittable(sp, n, done, i) ==> block_end(sp, n, i) - block_start(sp, i) < m,
        blocks_declined(lz77, sp, done, n),
    ensures
        forall|i: int| 0 <= i <= sp.len() ==> #[trigger] block_settled(lz77, sp, n, i),
{
    reveal(blocks_declined);
    assert forall|i: int| 0 <= i <= sp.len() implies #[trigger] block_settled(lz77, sp, n, i) by {
        if i > 0 {
            assert(sp[i - 1] < n);
        }
        if !splittable(sp, n, done, i) && block_end(sp, n, i) > block_start(sp, i) {
            assert(done[block_start(sp, i)]);
        }
    }
}

/// Does block splitting on LZ77 data.
/// The output split points are indices in the LZ77 data.
/// `max_blocks`: set a limit to the amount of blocks. Set to 0 to mean no limit.
#[verifier::loop_isolation(false)]
#[verifier::spinoff_prover]
#[verifier::rlimit(100)]
pub fn split_lz77(options: &SafeOptions, lz77: &Lz77Store, max_blocks: usize) -> (r: Vec<usize>)
    requires
        wide_usize(),
        lz77_splittable(lz77),
    ensures
        strictly_sorted(r@),
        forall|k: int| 0 <= k < r@.len() ==> 0 < #[trigger] r@[k] < lz77.litlens@.len(),
        max_blocks > 0 ==> r@.len() < max_blocks,
        lz77.litlens@.len() < 10 ==> r@.len() == 0,
        exists|lo: Seq<int>, hi: Seq<int>| #[trigger] points_pay(lz77, r@, lo, hi),
        (max_blocks > 0 && r@.len() + 1 == max_blocks) || forall|i: int|
            0 <= i <= r@.len() ==> #[trigger] block_settled(lz77, r@, lz77.litlens@.len() as int, i),
{
    let mut splitpoints: Vec<usize> = Vec::new();
    let size = lz77.litlens.len();
    if size < MIN_BLOCK_SIZE {
        proof {
            assert(points_pay(lz77, splitpoints@, Seq::empty(), Seq::empty()));
        }
        return splitpoints;
    }
    let mut done = vec![false; size];
    let mut lstart: usize = 0;
    let mut lend: usize = size;
    let mut numblocks: usize = 1;
    let ghost mut lo: Seq<int> = Seq::empty();
    let ghost mut hi: Seq<int> = Seq::empty();
    let ghost mut cur: int = 0;
    proof {
        lemma_count_true_zero(done@);
        reveal(blocks_declined);
        reveal(done_at_starts);
    }
    loop
        invariant
            size == lz77.litlens@.len(),
            size >= 10,
            done@.len() == size,
            strictly_sorted(splitpoints@),
            forall|k: int| 0 <= k < splitpoints@.len() ==> 0 < #[trigger] splitpoints@[k] < size,
            numblocks == splitpoints@.len() + 1,
            max_blocks > 0 ==> numblocks <= max_blocks,
            lstart < lend <= size,
            !done@[lstart as int],
            forall|k: int| 0 <= k < splitpoints@.len() ==> !(lstart < #[trigger] splitpoints@[k] < lend),
            0 <= count_true(done@) <= size,
            points_pay(lz77, splitpoints@, lo, hi),
            lend - lstart >= 10,
            0 <= cur <= splitpoints@.len(),
            lstart == block_start(splitpoints@, cur),
            lend == block_end(splitpoints@, size as int, cur) || (cur == splitpoints@.len() && lend == size),
            blocks_declined(lz77, splitpoints@, done@, size as int),
            done_at_starts(splitpoints@, done@, size as int),
        decreases (size - count_true(done@)) + (size - splitpoints@.len()),
    {
        if max_blocks > 0 && numblocks >= max_blocks {
            proof {
                assert(splitpoints@.len() + 1 == max_blocks);
            }
            break;
        }
        proof {
            lemma_strictly_sorted_len(splitpoints@, size as int);
        }
        let split_cost_fn = |i: usize| -> (c: usize)
            requires
                wide_usize(),
                lz77_splittable(lz77),
                lstart < i < lend <= lz77.litlens@.len(),
            ensures
                exists|v: Lz77StoreView, c1: int, c2: int|
                    #![trigger auto_block_size(v, lstart as int, i as int, c1), auto_block_size(v, i as int, lend as int, c2)]
                    view_of(v, lz77) && auto_block_size(v, lstart as int, i as int, c1) && auto_block_size(
                        v,
                        i as int,
                        lend as int,
                        c2,
                    ) && c == c1 + c2,
                c < 0x1000_0000_0000_0000,
            {
                let v = lz77.as_view();
                proof {
                    lemma_store_ready_store(lz77, v, lstart as int, i as int);
                    lemma_store_ready_store(lz77, v, i as int, lend as int);
                }
                let c1 = calculate_block_size_auto_type(&v, lstart, i);
                let c2 = calculate_block_size_auto_type(&v, i, lend);
                proof {
                    assert(view_of(v, lz77));
                }
                c1 + c2
            };
        let (llpos, splitcost) = find_minimum(split_cost_fn, lstart + 1, lend);
        let v = lz77.as_view();
        proof {
            lemma_store_ready_store(lz77, v, lstart as int, lend as int);
        }
        let origcost = calculate_block_size_auto_type(&v, lstart, lend);
        if splitcost > origcost || llpos == lstart + 1 || llpos == lend {
            proof {
                lemma_count_true_set(done@, lstart as int);
                let a = lstart as int;
                let b = lend as int;
                assert forall|q: usize, x: usize| #[trigger] split_cost_fn.ensures((q,), x) implies split_cost_ok(
                    lz77,
                    a,
                    b,
                    q as int,
                    x as int,
                ) && x < 0x1000_0000_0000_0000 by {}
                assert(view_of(v, lz77));
                lemma_search_declined(lz77, split_cost_fn, lstart, lend, llpos, splitcost, v, origcost);
                lemma_mark_declined(lz77, splitpoints@, done@, size as int, cur, a, b);
            }
            done.set(lstart, true);
        } else {
            proof {
                let (v1, c1, c2) = choose|v: Lz77StoreView, c1: int, c2: int|
                    #![trigger auto_block_size(v, lstart as int, llpos as int, c1), auto_block_size(v, llpos as int, lend as int, c2)]
                    view_of(v, lz77) && auto_block_size(v, lstart as int, llpos as int, c1) && auto_block_size(
                        v,
                        llpos as int,
                        lend as int,
                        c2,
                    ) && splitcost == c1 + c2;
                assert(view_of(v, lz77));
                reveal(split_pays);
                assert(split_pays(lz77, lstart as int, llpos as int, lend as int));
            }
            let ghost old_sp = splitpoints@;
            proof {
                assert forall|i: int| 0 <= i < old_sp.len() && old_sp[i] < llpos implies #[trigger] old_sp[i] <= lstart by {}
            }
            add_sorted(llpos, &mut splitpoints);
            proof {
                let k = count_less(old_sp, llpos);
                lemma_count_less_split(old_sp, llpos);
                lemma_sorted_insert_strict(old_sp, llpos, k);
                assert forall|j: int| 0 <= j < splitpoints@.len() implies 0 < #[trigger] splitpoints@[j] < size by {
                    if j < k {
                        assert(splitpoints@[j] == old_sp[j]);
                    } else if j > k {
                        assert(splitpoints@[j] == old_sp[j - 1]);
                    }
                }
                lemma_points_pay_insert(lz77, old_sp, lo, hi, k, llpos, lstart as int, lend as int);
                lo = lo.insert(k, lstart as int);
                hi = hi.insert(k, lend as int);
                assert(k == cur) by {
                    if cur < old_sp.len() {
                        assert(old_sp[cur] == lend);
                    }
                }
                assert(!done@[llpos as int]) by {
                    reveal(done_at_starts);
                    if done@[llpos as int] {
                        let q = choose|q: int| 0 <= q < old_sp.len() && old_sp[q] == llpos;
                    }
                }
                lemma_declined_insert(lz77, old_sp, done@, size as int, k, llpos);
            }
            numblocks = numblocks + 1;
        }
        proof {
            lemma_strictly_sorted_len(splitpoints@, size as int);
        }
        match find_largest_splittable_block(size, &done, &splitpoints) {
            Some((next_start, next_end)) => {
                proof {
                    let i = choose|i: int|
                        0 <= i <= splitpoints@.len() && #[trigger] splittable(splitpoints@, size as int, done@, i)
                            && next_start == block_start(splitpoints@, i) && next_end == block_end(
                            splitpoints@,
                            size as int,
                            i,
                        );
                    assert forall|k: int| 0 <= k < splitpoints@.len() implies !(next_start < #[trigger] splitpoints@[k]
                        < next_end) by {
                        if k < i - 1 {
                            assert(splitpoints@[k] < splitpoints@[i - 1]);
                        } else if k >= i && i < splitpoints@.len() {
                            assert(splitpoints@[k] >= splitpoints@[i]);
                        } else if i == splitpoints@.len() && k < i - 1 {
                            assert(splitpoints@[k] < splitpoints@[i - 1]);
                        }
                    }
                    cur = i;
                }
                lstart = next_start;
                lend = next_end;
            },
            None => {
                proof {
                    lemma_settled_exit(lz77, splitpoints@, done@, size as int, 0);
                }
                break;
            },
        }
        proof {
            lemma_count_true_bound(done@);
        }
        if lend - lstart < MIN_BLOCK_SIZE {
            proof {
                lemma_settled_exit(lz77, splitpoints@, done@, size as int, lend - lstart + 1);
            }
            break;
        }
    }
    proof {
        assert(points_pay(lz77, splitpoints@, lo, hi));
    }
    splitpoints
}

proof fn lemma_count_true_zero(s: Seq<bool>)
    requires
        forall|i: int| 0 <= i < s.len() ==> !#[trigger] s[i],
    ensures
        count_true(s) == 0,
    decreases s.len(),
{
    if s.len() > 0 {
        let s0 = s.drop_last();
        assert forall|i: int| 0 <= i < s0.len() implies !#[trigger] s0[i] by {
            assert(s0[i] == s[i]);
        }
        lemma_count_true_zero(s0);
    }
}

proof fn lemma_count_less_split(s: Seq<usize>, v: usize)
    requires
        strictly_sorted(s),
        forall|i: int| 0 <= i < s.len() ==> #[trigger] s[i] != v,
    ensures
        0 <= count_less(s, v) <= s.len(),
        forall|i: int| 0 <= i < count_less(s, v) ==> #[trigger] s[i] < v,
        forall|i: int| count_less(s, v) <= i < s.len() ==> #[trigger] s[i] > v,
    decreases s.len(),
{
    if s.len() > 0 {
        let s0 = s.drop_last();
        assert forall|i: int, j: int| 0 <= i < j < s0.len() implies s0[i] < s0[j] by {
            assert(s0[i] == s[i] && s0[j] == s[j]);
        }
        assert forall|i: int| 0 <= i < s0.len() implies #[trigger] s0[i] != v by {
            assert(s0[i] == s[i]);
        }
        lemma_count_less_split(s0, v);
        if s.last() < v {
            assert forall|i: int| 0 <= i < s0.len() implies #[trigger] s[i] < v by {
                assert(s[i] < s[s.len() - 1]);
            }
            if count_less(s0, v) < s0.len() {
                let c = count_less(s0, v);
                assert(s0[c] > v);
                assert(s[c] < v);
            }
            assert(count_less(s, v) == s.len());
            assert forall|i: int| 0 <= i < count_less(s, v) implies #[trigger] s[i] < v by {
                if i < s0.len() {
                    assert(s[i] < s[s.len() - 1]);
                }
            }
        } else {
            assert(count_less(s, v) == count_less(s0, v));
            assert forall|i: int| 0 <= i < count_less(s, v) implies #[trigger] s[i] < v by {
                assert(s0[i] == s[i]);
            }
            assert forall|i: int| count_less(s, v) <= i < s.len() implies #[trigger] s[i] > v by {
                if i < s0.len() {
                    assert(s0[i] == s[i]);
                }
            }
        }
    }
}

proof fn lemma_store_ready_store(lz77: &Lz77Store, v: Lz77StoreView, lo: int, hi: int)
    requires
        lz77_splittable(lz77),
        v.litlens@ == lz77.litlens@,
        v.dists@ == lz77.dists@,
        v.pos@ == lz77.pos@,
        v.ll_counts@ == lz77.ll_counts@,
        v.d_counts@ == lz77.d_counts@,
        0 <= lo <= hi <= lz77.litlens@.len(),
    ensures
        crate::squeeze::block_size_ready(v, lo, hi),
{
    lemma_store_ready(v, lo, hi);
}

/// In a correct parse every command stands for at least one byte, so the parsed
/// lengths grow with the number of commands.
pub proof fn lemma_parsed_len_grows(
    data: Seq<u8>,
    litlens: Seq<u16>,
    dists: Seq<u16>,
    pos: Seq<u32>,
    lo: int,
    hi: int,
    start: int,
    i: int,
    j: int,
)
    requires
        parse_ok(data, litlens, dists, pos, lo, hi, start),
        lo <= i <= j <= hi,
    ensures
        parsed_len(litlens, dists, lo, j) - parsed_len(litlens, dists, lo, i) >= j - i,
    decreases j - i,
{
    if j > i {
        lemma_parsed_len_grows(data, litlens, dists, pos, lo, hi, start, i, j - 1);
        assert(cmd_ok(data, litlens, dists, pos, j - 1, start + parsed_len(litlens, dists, lo, j - 1)));
        assert(cmd_len(litlens, dists, j - 1) >= 1);
    }
}

/// A store whose commands are a correct parse of data, from `start` on and within the
/// first 2^32 - 1 bytes, can be split: its commands are codable and their positions
/// grow.
pub proof fn lemma_parse_splittable(store: &Lz77Store, data: Seq<u8>, start: int)
    requires
        store.wf(),
        0 <= start,
        parse_ok(data, store.litlens@, store.dists@, store.pos@, 0, store.litlens@.len() as int, start),
        start + parsed_len(store.litlens@, store.dists@, 0, store.litlens@.len() as int) <= 0xffff_ffff,
    ensures
        lz77_splittable(store),
{
    let n = store.litlens@.len() as int;
    let l = store.litlens@;
    let d = store.dists@;
    let p = store.pos@;
    assert forall|i: int| 0 <= i < n implies if #[trigger] d[i] == 0 {
        l[i] < 256
    } else {
        3 <= l[i] <= 258 && d[i] <= 32768
    } by {
        assert(cmd_ok(data, l, d, p, i, start + parsed_len(l, d, 0, i)));
    }
    assert forall|i: int, j: int| 0 <= i <= j < p.len() implies p[i] <= p[j] by {
        assert(cmd_ok(data, l, d, p, i, start + parsed_len(l, d, 0, i)));
        assert(cmd_ok(data, l, d, p, j, start + parsed_len(l, d, 0, j)));
        lemma_parsed_len_grows(data, l, d, p, 0, n, start, i, j);
        lemma_parsed_len_grows(data, l, d, p, 0, n, start, j, n);
        lemma_parsed_len_grows(data, l, d, p, 0, n, start, 0, i);
        assert(parsed_len(l, d, 0, 0) == 0);
    }
}

/// Does block splitting on uncompressed data.
/// The output split points are indices in the uncompressed bytes.
///
/// `in_data`: The slice containing the uncompressed data.
/// `max_blocks`: maximum amount of blocks to split into, or 0 for no limit.
pub fn split(options: &SafeOptions, in_data: &[u8], instart: usize, inend: usize, max_blocks: usize) -> (r: Vec<
    usize,
>)
    requires
        wide_usize(),
        inend <= in_data@.len(),
        inend - instart < 0xffff_fffe,
        inend <= 0xffff_ffff,
    ensures
        strictly_sorted(r@),
        forall|k: int| 0 <= k < r@.len() ==> instart < #[trigger] r@[k] < inend,
        max_blocks > 0 ==> r@.len() < max_blocks,
{
    if in_data.len() == 0 || instart >= inend {
        return Vec::new();
    }
    let mut store = UninitializedLz77Store::new().initialize(in_data);
    let mut s = ZopfliBlockState { options, lmc: None, blockstart: instart, blockend: inend };
    lz77_greedy(&mut s, in_data, instart, inend, &mut store);
    let ghost n = store.litlens@.len() as int;
    let ghost l = store.litlens@;
    let ghost d = store.dists@;
    let ghost p = store.pos@;
    proof {
        lemma_parse_splittable(&store, in_data@, instart as int);
    }
    let lz77splitpoints = split_lz77(options, &store, max_blocks);
    let mut splitpoints: Vec<usize> = Vec::new();
    let mut pos = instart;
    let mut npoints: usize = 0;
    let nlz77points = lz77splitpoints.len();
    let ghost sp = lz77splitpoints@;
    if nlz77points > 0 {
        let mut i: usize = 0;
        while i < store.litlens.len() && npoints < nlz77points
            invariant
                0 < nlz77points == sp.len(),
                sp == lz77splitpoints@,
                strictly_sorted(sp),
                forall|k: int| 0 <= k < sp.len() ==> 0 < #[trigger] sp[k] < n,
                n == store.litlens@.len(),
                l == store.litlens@,
                d == store.dists@,
                p == store.pos@,
                d.len() == n,
                parse_ok(in_data@, l, d, p, 0, n, instart as int),
                instart + parsed_len(l, d, 0, n) == inend,
                i <= n,
                npoints <= nlz77points,
                pos == instart + parsed_len(l, d, 0, i as int),
                forall|k: int| 0 <= k < npoints ==> #[trigger] sp[k] < i,
                forall|k: int| npoints <= k < sp.len() ==> #[trigger] sp[k] >= i,
                splitpoints@.len() == npoints,
                forall|k: int|
                    0 <= k < npoints ==> #[trigger] splitpoints@[k] == instart + parsed_len(l, d, 0, sp[k] as int),
            decreases n - i,
        {
            let length: usize = if store.dists[i] == 0 {
                1
            } else {
                store.litlens[i] as usize
            };
            proof {
                assert(cmd_ok(in_data@, l, d, p, i as int, instart + parsed_len(l, d, 0, i as int)));
                lemma_parsed_len_grows(in_data@, l, d, p, 0, n, instart as int, i + 1, n);
                assert(parsed_len(l, d, 0, i + 1) == parsed_len(l, d, 0, i as int) + length);
            }
            if lz77splitpoints[npoints] == i {
                splitpoints.push(pos);
                npoints = npoints + 1;
                proof {
                    if npoints < nlz77points {
                        assert(sp[npoints as int] > sp[npoints - 1]);
                    }
                }
            }
            pos = pos + length;
            i = i + 1;
        }
    }
    proof {
        assert forall|a: int, b: int| 0 <= a < b < splitpoints@.len() implies splitpoints@[a] < splitpoints@[b] by {
            assert(sp[a] < sp[b]);
            lemma_parsed_len_grows(in_data@, l, d, p, 0, n, instart as int, sp[a] as int, sp[b] as int);
        }
        assert forall|k: int| 0 <= k < splitpoints@.len() implies instart < #[trigger] splitpoints@[k] < inend by {
            lemma_parsed_len_grows(in_data@, l, d, p, 0, n, instart as int, 0, sp[k] as int);
            lemma_parsed_len_grows(in_data@, l, d, p, 0, n, instart as int, sp[k] as int, n);
            assert(parsed_len(l, d, 0, 0) == 0);
        }
    }
    splitpoints
}

/// Divides the input into equal blocks, does not take LZ77 lengths into account.
pub fn split_simple(_in_data: &[u8], instart: usize, inend: usize, block_size: usize) -> (r: Vec<usize>)
    requires
        inend + block_size <= usize::MAX,
    ensures
        (block_size == 0 || _in_data@.len() == 0 || instart >= inend) ==> r@.len() == 0,
        !(block_size == 0 || _in_data@.len() == 0 || instart >= inend) ==> {
            &&& r@.len() == (inend - instart + block_size - 1) / block_size as int
            &&& forall|k: int| 0 <= k < r@.len() ==> #[trigger] r@[k] == instart + k * block_size
        },
{
    if block_size == 0 || _in_data.len() == 0 || instart >= inend {
        return Vec::new();
    }
    let mut splitpoints: Vec<usize> = Vec::new();
    let mut i = instart;
    proof {
        assert(0 * block_size == 0) by (nonlinear_arith);
    }
    while i < inend
        invariant
            instart <= i,
            i < inend + block_size,
            block_size > 0,
            inend + block_size <= usize::MAX,
            i == instart + splitpoints@.len() * block_size,
            splitpoints@.len() > 0 ==> i - block_size < inend,
            forall|k: int| 0 <= k < splitpoints@.len() ==> #[trigger] splitpoints@[k] == instart + k * block_size,
        decreases inend + block_size - i,
    {
        splitpoints.push(i);
        proof {
            assert((splitpoints@.len() - 1) * block_size + block_size == splitpoints@.len() * block_size) by (
            nonlinear_arith);
        }
        i = i + block_size;
    }
    proof {
        let m = splitpoints@.len() as int;
        let w = inend - instart;
        let b = block_size as int;
        assert((m - 1) * b == m * b - b) by (nonlinear_arith);
        assert(m == (w + b - 1) / b) by (nonlinear_arith)
            requires
                b > 0,
                w > 0,
                m * b >= w,
                (m - 1) * b < w,
        {
            let q = (w + b - 1) / b;
            assert(q * b <= w + b - 1 && w + b - 1 < (q + 1) * b) by {
                vstd::arithmetic::div_mod::lemma_fundamental_div_mod(w + b - 1, b);
                vstd::arithmetic::div_mod::lemma_mod_bound(w + b - 1, b);
            }
        }
    }
    splitpoints
}
} // verus!
