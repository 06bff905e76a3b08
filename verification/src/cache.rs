//! Longest match cache to speed up LZ77 match-finding.
//!
//! Each position has a block of `ZOPFLI_CACHE_LENGTH` entries of three bytes: a match
//! length minus 3, and the low and high byte of the distance used up to that length.
use crate::util::MIN_MATCH;
use vstd::prelude::*;

verus! {

/// The length of cached longest matches.
pub const ZOPFLI_CACHE_LENGTH: usize = 8;

/// Longest match cache to speed up finding matches.
#[derive(Debug, Clone)]
pub struct ZopfliLongestMatchCache {
    /// Cached match lengths.
    pub length: Vec<u16>,
    /// Cached match distances.
    pub dist: Vec<u16>,
    /// Cached sub-lengths.
    pub sublen: Vec<u8>,
}

/// `i` ends a run of equal distances in `s` among the lengths up to `length`.
pub open spec fn is_change_point(s: Seq<u16>, length: int, i: int) -> bool {
    i == length || (i + 1 < s.len() && s[i] != s[i + 1])
}

/// The lengths in `3..hi` that end a run of equal distances, in increasing order.
pub open spec fn change_points(s: Seq<u16>, length: int, hi: int) -> Seq<int>
    decreases hi,
{
    if hi <= 3 {
        Seq::empty()
    } else if is_change_point(s, length, hi - 1) {
        change_points(s, length, hi - 1).push(hi - 1)
    } else {
        change_points(s, length, hi - 1)
    }
}

proof fn lemma_change_points_prefix(s: Seq<u16>, length: int, hi1: int, hi2: int)
    requires
        hi1 <= hi2,
    ensures
        change_points(s, length, hi1).len() <= change_points(s, length, hi2).len(),
        forall|k: int|
            0 <= k < change_points(s, length, hi1).len() ==> #[trigger] change_points(s, length, hi2)[k]
                == change_points(s, length, hi1)[k],
    decreases hi2 - hi1,
{
    if hi2 > hi1 {
        lemma_change_points_prefix(s, length, hi1, hi2 - 1);
    }
}

proof fn lemma_change_points_range(s: Seq<u16>, length: int, hi: int)
    ensures
        forall|k: int|
            0 <= k < change_points(s, length, hi).len() ==> 3 <= #[trigger] change_points(s, length, hi)[k]
                < hi,
    decreases hi,
{
    if hi > 3 {
        lemma_change_points_range(s, length, hi - 1);
        let prev = change_points(s, length, hi - 1);
        assert forall|k: int| 0 <= k < change_points(s, length, hi).len() implies 3
            <= #[trigger] change_points(s, length, hi)[k] < hi by {
            if k < prev.len() {
                assert(change_points(s, length, hi)[k] == prev[k]);
            }
        }
    }
}

/// The listed lengths grow, are change points, and every change point in `3..hi` is
/// listed.
proof fn lemma_change_points_members(s: Seq<u16>, length: int, hi: int)
    ensures
        forall|a: int, b: int|
            0 <= a < b < change_points(s, length, hi).len() ==> change_points(s, length, hi)[a] < change_points(
                s,
                length,
                hi,
            )[b],
        forall|k: int|
            0 <= k < change_points(s, length, hi).len() ==> is_change_point(
                s,
                length,
                #[trigger] change_points(s, length, hi)[k],
            ),
        forall|i: int|
            3 <= i < hi && #[trigger] is_change_point(s, length, i) ==> exists|k: int|
                0 <= k < change_points(s, length, hi).len() && change_points(s, length, hi)[k] == i,
    decreases hi,
{
    if hi > 3 {
        lemma_change_points_members(s, length, hi - 1);
        lemma_change_points_range(s, length, hi - 1);
        let prev = change_points(s, length, hi - 1);
        let cur = change_points(s, length, hi);
        if is_change_point(s, length, hi - 1) {
            assert(cur == prev.push(hi - 1));
            assert forall|i: int| 3 <= i < hi && #[trigger] is_change_point(s, length, i) implies exists|k: int|
                0 <= k < cur.len() && cur[k] == i by {
                if i == hi - 1 {
                    assert(cur[prev.len() as int] == i);
                } else {
                    let k = choose|k: int| 0 <= k < prev.len() && prev[k] == i;
                    assert(cur[k] == i);
                }
            }
            assert forall|a: int, b: int| 0 <= a < b < cur.len() implies cur[a] < cur[b] by {
                if b == prev.len() {
                    assert(prev[a] < hi - 1);
                } else {
                    assert(prev[a] < prev[b]);
                }
            }
            assert forall|k: int| 0 <= k < cur.len() implies is_change_point(s, length, #[trigger] cur[k]) by {
                if k < prev.len() {
                    assert(is_change_point(s, length, prev[k]));
                }
            }
        } else {
            assert(cur == prev);
        }
    }
}

/// Lengths with no change point between them record the same distance.
proof fn lemma_run_equal(s: Seq<u16>, length: int, a: int, b: int)
    requires
        3 <= a <= b <= length < s.len(),
        forall|j: int| a <= j < b ==> !#[trigger] is_change_point(s, length, j),
    ensures
        s[a] == s[b],
    decreases b - a,
{
    if a < b {
        assert(!is_change_point(s, length, a));
        lemma_run_equal(s, length, a + 1, b);
    }
}

/// Every length in `3..=length` lies in the run of the listed change point `k`: after
/// the previous one (or from 3 on) and up to it, with the same distance.
proof fn lemma_in_run(s: Seq<u16>, length: int, k: int, i: int)
    requires
        3 <= length < s.len(),
        0 <= k < change_points(s, length, length + 1).len(),
        3 <= i <= change_points(s, length, length + 1)[k],
        k > 0 ==> change_points(s, length, length + 1)[k - 1] < i,
    ensures
        s[i] == s[change_points(s, length, length + 1)[k]],
{
    let cps = change_points(s, length, length + 1);
    lemma_change_points_members(s, length, length + 1);
    lemma_change_points_range(s, length, length + 1);
    assert forall|j: int| i <= j < cps[k] implies !#[trigger] is_change_point(s, length, j) by {
        if is_change_point(s, length, j) {
            let k2 = choose|k2: int| 0 <= k2 < cps.len() && cps[k2] == j;
            if k2 < k {
                if k > 0 {
                    assert(cps[k2] <= cps[k - 1]);
                }
            } else if k2 > k {
                assert(cps[k] < cps[k2]);
            }
        }
    }
    lemma_run_equal(s, length, i, cps[k]);
}

/// The distance that a read back gives length `i`: its own, or that of length 3 below 3.
pub open spec fn run_dist(s: Seq<u16>, i: int) -> u16 {
    if i < 3 {
        s[3]
    } else {
        s[i]
    }
}

/// The distance of a two-byte cache entry.
proof fn lemma_dist_bytes(d: u16)
    ensures
        ((d % 256) as u8 + 256 * (((d >> 8u16) % 256) as u8)) as u16 == d,
        d != 0 ==> !((d % 256) as u8 == 0 && ((d >> 8u16) % 256) as u8 == 0),
{
    assert(((d % 256) as u8 + 256 * (((d >> 8u16) % 256) as u8)) as u16 == d) by (bit_vector);
    assert(d != 0 ==> !((d % 256) as u8 == 0 && ((d >> 8u16) % 256) as u8 == 0)) by (bit_vector);
}

/// The entries of a stored block: entry `k` holds change point `k` less 3 and its
/// distance.
proof fn lemma_stored_entry(old_block: Seq<u8>, s: Seq<u16>, length: int, k: int)
    requires
        3 <= length <= 258,
        length < s.len(),
        0 <= k < 8,
        k < change_points(s, length, length + 1).len(),
    ensures
        stored_block(old_block, s, length)[3 * k] + 3 == change_points(s, length, length + 1)[k],
        (stored_block(old_block, s, length)[3 * k + 1] + 256 * stored_block(old_block, s, length)[3 * k + 2]) as u16
            == s[change_points(s, length, length + 1)[k]],
{
    let cps = change_points(s, length, length + 1);
    lemma_change_points_range(s, length, length + 1);
    let b = stored_block(old_block, s, length);
    assert((3 * k) / 3 == k && (3 * k) % 3 == 0);
    assert((3 * k + 1) / 3 == k && (3 * k + 1) % 3 == 1);
    assert((3 * k + 2) / 3 == k && (3 * k + 2) % 3 == 2);
    let d = dist_at(s, cps[k]);
    assert(d == s[cps[k]]);
    lemma_dist_bytes(d);
}

/// The longest length that a cache block keeps: the last of the first eight change
/// points.
pub open spec fn last_stored(s: Seq<u16>, length: int) -> int {
    let cps = change_points(s, length, length + 1);
    if cps.len() < 8 {
        cps[cps.len() - 1]
    } else {
        cps[7]
    }
}

/// What reading back entries `k..` of a stored block writes: for the lengths from
/// `prev` up to the longest stored one, the distance of their run (that of length 3
/// below 3); elsewhere `out` is kept.
proof fn lemma_restored_runs(old_block: Seq<u8>, s: Seq<u16>, length: int, out: Seq<u16>, k: int, prev: int)
    requires
        3 <= length <= 258,
        length < s.len(),
        length < out.len(),
        0 <= k < 8,
        k < change_points(s, length, length + 1).len(),
        k == 0 ==> prev == 0,
        k > 0 ==> prev == change_points(s, length, length + 1)[k - 1] + 1,
    ensures
        restored(stored_block(old_block, s, length), out, last_stored(s, length), k, prev).len() == out.len(),
        forall|i: int|
            0 <= i < out.len() ==> #[trigger] restored(stored_block(old_block, s, length), out, last_stored(s, length), k, prev)[i]
                == if prev <= i <= last_stored(s, length) {
                run_dist(s, i)
            } else {
                out[i]
            },
    decreases 8 - k,
{
    let cps = change_points(s, length, length + 1);
    let m = if cps.len() < 8 {
        cps.len() as int
    } else {
        8
    };
    let maxl = cps[m - 1];
    assert(maxl == last_stored(s, length));
    let block = stored_block(old_block, s, length);
    lemma_change_points_members(s, length, length + 1);
    lemma_change_points_range(s, length, length + 1);
    lemma_stored_entry(old_block, s, length, k);
    let len_val = block[3 * k] + 3;
    let dist = (block[3 * k + 1] + 256 * block[3 * k + 2]) as u16;
    assert(len_val == cps[k]);
    assert(dist == s[cps[k]]);
    let out2 = Seq::new(out.len(), |i: int| if prev <= i <= len_val { dist } else { out[i] });
    assert forall|i: int| prev <= i <= cps[k] implies dist == #[trigger] run_dist(s, i) by {
        if i < 3 {
            lemma_in_run(s, length, 0, 3);
        } else {
            lemma_in_run(s, length, k, i);
        }
    }
    let r = restored(block, out, maxl, k, prev);
    if cps[k] == maxl {
        assert(r == out2);
        assert forall|i: int| 0 <= i < out.len() implies #[trigger] r[i] == if prev <= i <= maxl {
            run_dist(s, i)
        } else {
            out[i]
        } by {
            if prev <= i <= maxl {
                assert(dist == run_dist(s, i));
            }
        }
    } else {
        assert(k + 1 < m) by {
            if k + 1 >= m {
                assert(k == m - 1);
            }
        }
        assert(cps[k] < maxl);
        lemma_restored_runs(old_block, s, length, out2, k + 1, cps[k] + 1);
        let r2 = restored(stored_block(old_block, s, length), out2, last_stored(s, length), k + 1, cps[k] + 1);
        assert(r == r2);
        assert forall|i: int| 0 <= i < out.len() implies #[trigger] r[i] == if prev <= i <= maxl {
            run_dist(s, i)
        } else {
            out[i]
        } by {
            assert(r2[i] == if cps[k] + 1 <= i <= maxl {
                run_dist(s, i)
            } else {
                out2[i]
            });
            if prev <= i <= cps[k] {
                assert(dist == run_dist(s, i));
            }
        }
    }
}

/// Storing the distances of a match in a cache block and reading them back gives the
/// distance of every length up to the longest stored one (the match length when its
/// distances change at most eight times), the distance of length 3 for the lengths
/// below 3, and leaves the longer lengths as they were.
pub proof fn lemma_cache_round_trip(old_block: Seq<u8>, s: Seq<u16>, length: int, out: Seq<u16>)
    requires
        3 <= length <= 258,
        length < s.len(),
        length < out.len(),
        s[3] != 0,
        old_block.len() == 24,
    ensures
        ({
            let block = stored_block(old_block, s, length);
            let cps = change_points(s, length, length + 1);
            let maxl = block_max_sublen(block);
            let r = restored(block, out, maxl, 0, 0);
            &&& maxl == if cps.len() <= 8 {
                length
            } else {
                cps[7]
            }
            &&& r.len() == out.len()
            &&& forall|i: int| 3 <= i <= maxl ==> #[trigger] r[i] == s[i]
            &&& forall|i: int| 0 <= i < 3 ==> #[trigger] r[i] == s[3]
            &&& forall|i: int| maxl < i < out.len() ==> #[trigger] r[i] == out[i]
        }),
{
    let block = stored_block(old_block, s, length);
    let cps = change_points(s, length, length + 1);
    lemma_change_points_members(s, length, length + 1);
    lemma_change_points_range(s, length, length + 1);
    assert(is_change_point(s, length, length));
    let k_last = choose|k: int| 0 <= k < cps.len() && cps[k] == length;
    assert(cps.len() > 0);
    let m = if cps.len() < 8 {
        cps.len() as int
    } else {
        8
    };
    if cps.len() <= 8 {
        assert(cps[cps.len() - 1] == length) by {
            if k_last < cps.len() - 1 {
                assert(cps[k_last] < cps[cps.len() - 1]);
            }
        }
    }
    lemma_stored_entry(old_block, s, length, 0);
    lemma_stored_entry(old_block, s, length, m - 1);
    lemma_in_run(s, length, 0, 3);
    lemma_dist_bytes(s[cps[0]]);
    assert(block[1] == (s[cps[0]] % 256) as u8 && block[2] == ((s[cps[0]] >> 8u16) % 256) as u8) by {
        assert(1int / 3 == 0 && 1int % 3 == 1 && 2int / 3 == 0 && 2int % 3 == 2);
        assert(dist_at(s, cps[0]) == s[cps[0]]);
    }
    assert(block[21] + 3 == cps[m - 1]) by {
        if m == 8 {
            assert(3 * 7 == 21int);
        } else {
            assert(21int / 3 == 7);
        }
    }
    lemma_restored_runs(old_block, s, length, out, 0, 0);
}

/// The distance recorded for length `i` (0 past the end of `s`).
pub open spec fn dist_at(s: Seq<u16>, i: int) -> u16 {
    if 0 <= i < s.len() {
        s[i]
    } else {
        0
    }
}

/// The cache block of position `pos` after storing the distances `s` up to `length`.
pub open spec fn stored_block(old_block: Seq<u8>, s: Seq<u16>, length: int) -> Seq<u8> {
    let cps = change_points(s, length, length + 1);
    let m = if cps.len() < 8 {
        cps.len() as int
    } else {
        8
    };
    Seq::new(
        24,
        |b: int|
            {
                let k = b / 3;
                if k < m {
                    let d = dist_at(s, cps[k]);
                    if b % 3 == 0 {
                        (cps[k] - 3) as u8
                    } else if b % 3 == 1 {
                        (d % 256) as u8
                    } else {
                        ((d >> 8u16) % 256) as u8
                    }
                } else if b == 21 && cps.len() < 8 && cps.len() > 0 {
                    (cps.last() - 3) as u8
                } else {
                    old_block[b]
                }
            },
    )
}

/// The length up to which a cache block holds distances (0 when the first distance is 0).
pub open spec fn block_max_sublen(block: Seq<u8>) -> int {
    if block[1] == 0 && block[2] == 0 {
        0
    } else {
        block[21] + 3
    }
}

/// Distances written back from the cache block entries `k..8`, starting at length `prev`.
pub open spec fn restored(block: Seq<u8>, out: Seq<u16>, maxlength: int, k: int, prev: int) -> Seq<
    u16,
>
    decreases 8 - k,
{
    if k >= 8 || k < 0 {
        out
    } else {
        let len_val = block[3 * k] + 3;
        let dist = (block[3 * k + 1] + 256 * block[3 * k + 2]) as u16;
        let out2 = Seq::new(
            out.len(),
            |i: int|
                if prev <= i <= len_val {
                    dist
                } else {
                    out[i]
                },
        );
        if len_val == maxlength {
            out2
        } else {
            restored(block, out2, maxlength, k + 1, len_val + 1)
        }
    }
}

/// The cache block of position `pos` (empty when it lies outside the cache).
pub open spec fn cache_block(sublen: Seq<u8>, pos: int) -> Seq<u8> {
    if 24 * pos + 24 <= sublen.len() {
        sublen.subrange(24 * pos, 24 * pos + 24)
    } else {
        Seq::empty()
    }
}

impl ZopfliLongestMatchCache {
    /// Each position has a length, a distance and a block of sub-lengths.
    pub open spec fn wf(&self) -> bool {
        &&& self.dist@.len() == self.length@.len()
        &&& self.sublen@.len() == 24 * self.length@.len()
    }

    /// Initializes a new cache with the specified blocksize.
    pub fn new(blocksize: usize) -> (r: Self)
        requires
            blocksize <= usize::MAX / 24,
        ensures
            r.length@ == Seq::new(blocksize as nat, |i: int| 1u16),
            r.dist@ == Seq::new(blocksize as nat, |i: int| 0u16),
            r.sublen@ == Seq::new((24 * blocksize) as nat, |i: int| 0u8),
    {
        let mut length: Vec<u16> = Vec::new();
        let mut dist: Vec<u16> = Vec::new();
        let mut i: usize = 0;
        while i < blocksize
            invariant
                i <= blocksize,
                length@ == Seq::new(i as nat, |k: int| 1u16),
                dist@ == Seq::new(i as nat, |k: int| 0u16),
            decreases blocksize - i,
        {
            length.push(1);
            dist.push(0);
            i = i + 1;
        }
        let total = ZOPFLI_CACHE_LENGTH * 3 * blocksize;
        let mut sublen: Vec<u8> = Vec::new();
        let mut k: usize = 0;
        while k < total
            invariant
                k <= total,
                sublen@ == Seq::new(k as nat, |j: int| 0u8),
            decreases total - k,
        {
            sublen.push(0);
            k = k + 1;
        }
        Self { length, dist, sublen }
    }

    /// Stores sublen array in the cache.
    pub fn sublen_to_cache(&mut self, sublen: &[u16], pos: usize, length: usize)
        requires
            pos <= usize::MAX / 24 - 1,
        ensures
            final(self).length == old(self).length,
            final(self).dist == old(self).dist,
            final(self).sublen@.len() == old(self).sublen@.len(),
            (length < MIN_MATCH || 24 * pos + 24 > old(self).sublen@.len()) ==> final(self).sublen@ == old(self).sublen@,
            length >= MIN_MATCH && 24 * pos + 24 <= old(self).sublen@.len() ==> final(self).sublen@
                == old(self).sublen@.subrange(0, 24 * pos) + stored_block(
                cache_block(old(self).sublen@, pos as int),
                sublen@,
                length as int,
            ) + old(self).sublen@.subrange(24 * pos + 24, old(self).sublen@.len() as int),
    {
        let cache_idx = ZOPFLI_CACHE_LENGTH * pos * 3;
        if cache_idx + ZOPFLI_CACHE_LENGTH * 3 > self.sublen.len() {
            return;
        }
        if length < MIN_MATCH {
            return;
        }
        let ghost old_sub = self.sublen@;
        let ghost old_block = cache_block(old_sub, pos as int);
        let ghost s = sublen@;
        let mut j: usize = 0;
        let mut bestlength: usize = 0;
        let mut i: usize = 3;
        let ghost full = change_points(s, length as int, length + 1);
        proof {
            lemma_change_points_range(s, length as int, length + 1);
        }
        loop
            invariant_except_break
                j < 8,
                j == change_points(s, length as int, i as int).len(),
                j > 0 ==> bestlength == change_points(s, length as int, i as int).last(),
                j > 0 ==> 3 <= bestlength < i,
            invariant
                3 <= i <= length,
                pos <= usize::MAX / 24 - 1,
                self.length == old(self).length,
                self.dist == old(self).dist,
                cache_idx == 24 * pos,
                cache_idx + 24 <= self.sublen@.len() == old_sub.len(),
                old_block == old_sub.subrange(cache_idx as int, cache_idx + 24),
                s == sublen@,
                full == change_points(s, length as int, length + 1),
                j <= 8,
                forall|b: int|
                    0 <= b < self.sublen@.len() && !(cache_idx <= b < cache_idx + 3 * j) ==> self.sublen@[b] == old_sub[b],
                forall|b: int|
                    cache_idx <= b < cache_idx + 3 * j ==> self.sublen@[b] == stored_block(old_block, s, length as int)[b - cache_idx],
            ensures
                1 <= j <= 8,
                3 <= bestlength <= length,
                j < 8 ==> full.len() == j && bestlength == full.last(),
                j == 8 ==> full.len() >= 8,
                forall|b: int|
                    0 <= b < self.sublen@.len() && !(cache_idx <= b < cache_idx + 3 * j) ==> self.sublen@[b] == old_sub[b],
                forall|b: int|
                    cache_idx <= b < cache_idx + 3 * j ==> self.sublen@[b] == stored_block(old_block, s, length as int)[b - cache_idx],
            decreases length - i,
        {
            let cp = i == length || (i + 1 < sublen.len() && sublen[i] != sublen[i + 1]);
            proof {
                lemma_change_points_prefix(s, length as int, i + 1, length + 1);
                lemma_change_points_range(s, length as int, i as int);
                assert(cp == is_change_point(s, length as int, i as int));
            }
            if cp {
                let dist_val: u16 = if i < sublen.len() {
                    sublen[i]
                } else {
                    0
                };
                let idx: usize = cache_idx + j * 3;
                let len_byte: usize = i - 3;
                self.sublen.set(idx, len_byte as u8);
                self.sublen.set(idx + 1, (dist_val % 256) as u8);
                self.sublen.set(idx + 2, ((dist_val >> 8) % 256) as u8);
                proof {
                    assert(change_points(s, length as int, i + 1) == change_points(s, length as int, i as int).push(i as int));
                    assert(full[j as int] == i);
                    assert(dist_at(s, i as int) == dist_val);
                    let sb = stored_block(old_block, s, length as int);
                    assert(sb[3 * j as int] == (i - 3) as u8);
                    assert(sb[3 * j + 1] == (dist_val % 256) as u8);
                    assert(sb[3 * j + 2] == ((dist_val >> 8u16) % 256) as u8);
                }
                bestlength = i;
                j = j + 1;
            }
            if j >= ZOPFLI_CACHE_LENGTH || i == length {
                proof {
                    if i == length {
                        assert(change_points(s, length as int, i + 1) == full);
                    }
                }
                break;
            }
            i = i + 1;
        }
        if j < ZOPFLI_CACHE_LENGTH {
            self.sublen.set(cache_idx + (ZOPFLI_CACHE_LENGTH - 1) * 3, (bestlength - 3) as u8);
        }
        proof {
            let sb = stored_block(old_block, s, length as int);
            assert(self.sublen@ =~= old_sub.subrange(0, 24 * pos) + sb + old_sub.subrange(24 * pos + 24, old_sub.len() as int));
        }
    }

    /// Extracts sublen array from the cache.
    pub fn cache_to_sublen(&self, pos: usize, length: usize, sublen: &mut [u16])
        requires
            pos <= usize::MAX / 24 - 1,
        ensures
            final(sublen)@.len() == old(sublen)@.len(),
            (length < MIN_MATCH || 24 * pos + 24 > self.sublen@.len()) ==> final(sublen)@ == old(sublen)@,
            length >= MIN_MATCH && 24 * pos + 24 <= self.sublen@.len() ==> final(sublen)@ == restored(
                cache_block(self.sublen@, pos as int),
                old(sublen)@,
                block_max_sublen(cache_block(self.sublen@, pos as int)),
                0,
                0,
            ),
    {
        if length < MIN_MATCH {
            return;
        }
        let cache_idx = ZOPFLI_CACHE_LENGTH * pos * 3;
        if cache_idx + ZOPFLI_CACHE_LENGTH * 3 > self.sublen.len() {
            return;
        }
        let maxlength = self.max_cached_sublen(pos, length) as usize;
        let ghost block = cache_block(self.sublen@, pos as int);
        let mut prevlength: usize = 0;
        let mut k: usize = 0;
        while k < ZOPFLI_CACHE_LENGTH
            invariant
                k <= 8,
                length >= MIN_MATCH,
                sublen@.len() == old(sublen)@.len(),
                pos <= usize::MAX / 24 - 1,
                cache_idx == 24 * pos,
                cache_idx + 24 <= self.sublen@.len(),
                block == self.sublen@.subrange(cache_idx as int, cache_idx + 24),
                maxlength == block_max_sublen(block),
                prevlength <= 259,
                restored(block, old(sublen)@, maxlength as int, 0, 0) == restored(
                    block,
                    sublen@,
                    maxlength as int,
                    k as int,
                    prevlength as int,
                ),
            decreases 8 - k,
        {
            let idx: usize = cache_idx + 3 * k;
            let len_byte: u8 = self.sublen[idx];
            let lo: u8 = self.sublen[idx + 1];
            let hi: u8 = self.sublen[idx + 2];
            let len_val: usize = (len_byte as usize) + 3;
            let dist: u16 = (lo as u16) + 256 * (hi as u16);
            let ghost before = sublen@;
            let mut i = prevlength;
            while i <= len_val
                invariant
                    prevlength <= i,
                    i <= len_val + 1 || i == prevlength,
                    len_val <= 258,
                    sublen@.len() == before.len(),
                    forall|x: int| 0 <= x < sublen@.len() ==> sublen@[x] == if prevlength <= x < i {
                        dist
                    } else {
                        before[x]
                    },
                decreases len_val + 1 - i,
            {
                if i < sublen.len() {
                    sublen[i] = dist;
                }
                i = i + 1;
            }
            proof {
                assert(sublen@ =~= Seq::new(before.len(), |x: int| if prevlength <= x <= len_val { dist } else { before[x] }));
            }
            if len_val == maxlength {
                return;
            }
            prevlength = len_val + 1;
            k = k + 1;
        }
    }

    /// Returns the length up to which could be stored in the cache.
    pub fn max_cached_sublen(&self, pos: usize, _length: usize) -> (r: u32)
        requires
            pos <= usize::MAX / 24 - 1,
        ensures
            r <= 258,
            24 * pos + 24 > self.sublen@.len() ==> r == 0,
            24 * pos + 24 <= self.sublen@.len() ==> r == block_max_sublen(cache_block(self.sublen@, pos as int)),
    {
        let cache_idx = ZOPFLI_CACHE_LENGTH * pos * 3;
        if cache_idx + ZOPFLI_CACHE_LENGTH * 3 > self.sublen.len() {
            return 0;
        }
        if self.sublen[cache_idx + 1] == 0 && self.sublen[cache_idx + 2] == 0 {
            return 0;
        }
        (self.sublen[cache_idx + (ZOPFLI_CACHE_LENGTH - 1) * 3] as u32) + 3
    }
}

} // verus!
