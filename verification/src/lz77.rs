//! LZ77 stores, histograms of their symbols, and greedy LZ77 parsing.
//!
//! A store holds one command per entry: a literal byte (`dists[i] == 0`, `litlens[i]`
//! the byte) or a back-reference (`litlens[i]` bytes copied from `dists[i]` bytes
//! back). Beside the commands it keeps cumulative symbol counts: entry `k` of
//! `ll_counts` counts the commands before the end of the 288-command chunk of `k`
//! whose literal/length symbol is `k % 288`; `d_counts` does the same for distance
//! symbols with chunks of 32.
use crate::cache::{block_max_sublen, cache_block, restored, stored_block, ZopfliLongestMatchCache};
use crate::hash::{
    lemma_fresh_hash_inv, lemma_update_preserves_inv, link_ok, repeats_at, same_ok, wpos, ZopfliHash,
};
use crate::math::{lemma_log2_range, lemma_pow2_small, log2, pow2};
use crate::symbols::{get_dist_symbol, get_length_symbol, spec_dist_symbol, spec_length_symbol};
use crate::util::{SafeOptions, MAX_MATCH, MIN_MATCH, NUM_D, NUM_LL};
use vstd::prelude::*;

verus! {

/// The literal/length symbol of a command.
pub open spec fn ll_symbol(litlen: u16, dist: u16) -> int {
    if dist == 0 {
        litlen as int
    } else {
        spec_length_symbol(litlen as int)
    }
}

/// Number of commands in `lo..hi` whose literal/length symbol is `sym`.
pub open spec fn count_ll(litlens: Seq<u16>, dists: Seq<u16>, lo: int, hi: int, sym: int) -> nat
    decreases hi - lo,
{
    if hi <= lo {
        0
    } else {
        count_ll(litlens, dists, lo, hi - 1, sym) + if ll_symbol(litlens[hi - 1], dists[hi - 1])
            == sym {
            1nat
        } else {
            0nat
        }
    }
}

/// Number of back-references in `lo..hi` whose distance symbol is `sym`.
pub open spec fn count_d(dists: Seq<u16>, lo: int, hi: int, sym: int) -> nat
    decreases hi - lo,
{
    if hi <= lo {
        0
    } else {
        count_d(dists, lo, hi - 1, sym) + if dists[hi - 1] != 0 && spec_dist_symbol(
            dists[hi - 1] as int,
        ) == sym {
            1nat
        } else {
            0nat
        }
    }
}

/// Counting over `lo..mid` and `mid..hi` counts over `lo..hi`.
pub proof fn lemma_count_split(litlens: Seq<u16>, dists: Seq<u16>, lo: int, mid: int, hi: int, sym: int)
    requires
        lo <= mid <= hi,
    ensures
        count_ll(litlens, dists, lo, mid, sym) + count_ll(litlens, dists, mid, hi, sym) == count_ll(
            litlens,
            dists,
            lo,
            hi,
            sym,
        ),
        count_d(dists, lo, mid, sym) + count_d(dists, mid, hi, sym) == count_d(dists, lo, hi, sym),
    decreases hi - mid,
{
    if hi > mid {
        lemma_count_split(litlens, dists, lo, mid, hi - 1, sym);
    }
}

/// A count over `lo..hi` is at most `hi - lo`.
pub proof fn lemma_count_bound(litlens: Seq<u16>, dists: Seq<u16>, lo: int, hi: int, sym: int)
    requires
        lo <= hi,
    ensures
        count_ll(litlens, dists, lo, hi, sym) <= hi - lo,
        count_d(dists, lo, hi, sym) <= hi - lo,
    decreases hi - lo,
{
    if hi > lo {
        lemma_count_bound(litlens, dists, lo, hi - 1, sym);
    }
}

/// Counts only look at the commands in their range.
pub proof fn lemma_count_prefix(
    litlens: Seq<u16>,
    dists: Seq<u16>,
    litlens2: Seq<u16>,
    dists2: Seq<u16>,
    lo: int,
    hi: int,
    sym: int,
)
    requires
        0 <= lo,
        hi <= litlens.len(),
        hi <= dists.len(),
        hi <= litlens2.len(),
        hi <= dists2.len(),
        forall|i: int| lo <= i < hi ==> litlens[i] == litlens2[i] && dists[i] == dists2[i],
    ensures
        count_ll(litlens, dists, lo, hi, sym) == count_ll(litlens2, dists2, lo, hi, sym),
        count_d(dists, lo, hi, sym) == count_d(dists2, lo, hi, sym),
    decreases hi - lo,
{
    if hi > lo {
        lemma_count_prefix(litlens, dists, litlens2, dists2, lo, hi - 1, sym);
    }
}

/// Every distance that fits in 16 bits has a symbol below 32.
pub proof fn lemma_dist_symbol_bound(dist: int)
    requires
        0 <= dist <= 65536,
    ensures
        0 <= spec_dist_symbol(dist) < 32,
{
    if dist >= 5 {
        lemma_pow2_small();
        lemma_log2_range((dist - 1) as nat, 2, 16);
        let l = log2((dist - 1) as nat);
        assert(pow2((l - 1) as nat) > 0) by {
            crate::math::lemma_pow2_pos((l - 1) as nat);
        }
    }
}

/// Every literal/length symbol is below 288 when literals are bytes.
pub proof fn lemma_length_symbol_bound(l: int)
    ensures
        spec_length_symbol(l) == 0 || 257 <= spec_length_symbol(l) <= 285,
{
    if 3 <= l <= 258 {
        crate::symbols::length_code_law(l);
    }
}

/// The end of the 288-command chunk of count entry `k`, cut at `n` commands.
pub open spec fn ll_chunk_end(k: int, n: int) -> int {
    let e = 288 * (k / 288) + 288;
    if e < n {
        e
    } else {
        n
    }
}

/// The end of the 32-command chunk of count entry `k`, cut at `n` commands.
pub open spec fn d_chunk_end(k: int, n: int) -> int {
    let e = 32 * (k / 32) + 32;
    if e < n {
        e
    } else {
        n
    }
}

/// The commands and cumulative counts of a store agree.
pub open spec fn counts_ok(
    litlens: Seq<u16>,
    dists: Seq<u16>,
    pos: Seq<u32>,
    ll_counts: Seq<u32>,
    d_counts: Seq<u32>,
) -> bool {
    let n = litlens.len();
    &&& dists.len() == n
    &&& pos.len() == n
    &&& n < 0xffff_ffff
    &&& forall|i: int| 0 <= i < n && #[trigger] dists[i] == 0 ==> litlens[i] < 288
    &&& ll_counts.len() == 288 * ((n + 287) / 288)
    &&& d_counts.len() == 32 * ((n + 31) / 32)
    &&& ll_counts_for(litlens, dists, n as int, ll_counts)
    &&& d_counts_for(dists, n as int, d_counts)
}

/// The literal/length counts of `n` commands, one entry per chunk and symbol.
pub open spec fn ll_counts_for(litlens: Seq<u16>, dists: Seq<u16>, n: int, ll_counts: Seq<u32>) -> bool {
    forall|k: int|
        0 <= k < ll_counts.len() ==> #[trigger] ll_counts[k] == count_ll(
            litlens,
            dists,
            0,
            ll_chunk_end(k, n),
            k % 288,
        )
}

/// The distance counts of `n` commands, one entry per chunk and symbol.
pub open spec fn d_counts_for(dists: Seq<u16>, n: int, d_counts: Seq<u32>) -> bool {
    forall|k: int|
        0 <= k < d_counts.len() ==> #[trigger] d_counts[k] == count_d(dists, 0, d_chunk_end(k, n), k % 32)
}

/// Appending a command and counting its literal/length symbol in the last chunk
/// keeps the literal/length counts.
proof fn lemma_push_ll_counts(
    litlens: Seq<u16>,
    dists: Seq<u16>,
    length: u16,
    dist: u16,
    counts: Seq<u32>,
)
    requires
        litlens.len() == dists.len(),
        counts.len() == 288 * ((litlens.len() + 288) / 288),
        litlens.len() < 0xffff_fffe,
        ll_counts_for(litlens, dists, litlens.len() as int, counts),
        0 <= ll_symbol(length, dist) < 288,
    ensures
        ({
            let n = litlens.len() as int;
            let k0 = 288 * (n / 288) + ll_symbol(length, dist);
            &&& 0 <= k0 < counts.len()
            &&& ll_counts_for(
                litlens.push(length),
                dists.push(dist),
                n + 1,
                counts.update(k0, (counts[k0] + 1) as u32),
            )
        }),
{
    let n = litlens.len() as int;
    let sym = ll_symbol(length, dist);
    let llstart = 288 * (n / 288);
    let k0 = llstart + sym;
    let l2 = litlens.push(length);
    let d2 = dists.push(dist);
    let c2 = counts.update(k0, (counts[k0] + 1) as u32);
    assert forall|k: int| 0 <= k < c2.len() implies #[trigger] c2[k] == count_ll(
        l2,
        d2,
        0,
        ll_chunk_end(k, n + 1),
        k % 288,
    ) by {
        assert(counts[k] == count_ll(litlens, dists, 0, ll_chunk_end(k, n), k % 288));
        assert(ll_chunk_end(k, n) <= n);
        lemma_count_bound(litlens, dists, 0, ll_chunk_end(k, n), k % 288);
        lemma_count_prefix(litlens, dists, l2, d2, 0, ll_chunk_end(k, n), k % 288);
        if k < llstart {
            assert(k / 288 < n / 288);
            assert(ll_chunk_end(k, n + 1) == ll_chunk_end(k, n));
            assert(k != k0);
        } else {
            assert(k / 288 == n / 288);
            assert(k % 288 == k - llstart);
            assert(ll_chunk_end(k, n) == n);
            assert(ll_chunk_end(k, n + 1) == n + 1);
            assert(l2[n] == length && d2[n] == dist);
            assert(count_ll(l2, d2, 0, n + 1, k % 288) == count_ll(l2, d2, 0, n, k % 288) + if sym
                == k % 288 {
                1nat
            } else {
                0nat
            });
        }
    }
}

/// Appending a command and counting its distance symbol in the last chunk keeps the
/// distance counts.
proof fn lemma_push_d_counts(dists: Seq<u16>, dist: u16, counts: Seq<u32>)
    requires
        counts.len() == 32 * ((dists.len() + 32) / 32),
        dists.len() < 0xffff_fffe,
        d_counts_for(dists, dists.len() as int, counts),
        0 <= spec_dist_symbol(dist as int) < 32,
    ensures
        ({
            let n = dists.len() as int;
            let k0 = 32 * (n / 32) + spec_dist_symbol(dist as int);
            &&& 0 <= k0 < counts.len()
            &&& d_counts_for(
                dists.push(dist),
                n + 1,
                if dist != 0 {
                    counts.update(k0, (counts[k0] + 1) as u32)
                } else {
                    counts
                },
            )
        }),
{
    let n = dists.len() as int;
    let sym = spec_dist_symbol(dist as int);
    let dstart = 32 * (n / 32);
    let k0 = dstart + sym;
    let d2 = dists.push(dist);
    let c2 = if dist != 0 {
        counts.update(k0, (counts[k0] + 1) as u32)
    } else {
        counts
    };
    assert forall|k: int| 0 <= k < c2.len() implies #[trigger] c2[k] == count_d(
        d2,
        0,
        d_chunk_end(k, n + 1),
        k % 32,
    ) by {
        assert(counts[k] == count_d(dists, 0, d_chunk_end(k, n), k % 32));
        assert(d_chunk_end(k, n) <= n);
        lemma_count_bound(dists, dists, 0, d_chunk_end(k, n), k % 32);
        lemma_count_prefix(dists, dists, d2, d2, 0, d_chunk_end(k, n), k % 32);
        if k < dstart {
            assert(k / 32 < n / 32);
            assert(d_chunk_end(k, n + 1) == d_chunk_end(k, n));
            assert(k != k0);
        } else {
            assert(k / 32 == n / 32);
            assert(k % 32 == k - dstart);
            assert(d_chunk_end(k, n) == n);
            assert(d_chunk_end(k, n + 1) == n + 1);
            assert(d2[n] == dist);
            assert(count_d(d2, 0, n + 1, k % 32) == count_d(d2, 0, n, k % 32) + if dist != 0 && sym
                == k % 32 {
                1nat
            } else {
                0nat
            });
        }
    }
}

/// LZ77 store using parallel arrays for efficiency.
#[derive(Debug, Clone)]
pub struct Lz77Store<'a> {
    /// Literal/length symbols.
    pub litlens: Vec<u16>,
    /// Back-reference distances.
    pub dists: Vec<u16>,
    /// Positions in the input data where each command starts.
    pub pos: Vec<u32>,
    /// Reference to the input data.
    pub data: &'a [u8],
    /// Cumulative counts of literal/length symbols.
    pub ll_counts: Vec<u32>,
    /// Cumulative counts of distance symbols.
    pub d_counts: Vec<u32>,
}

/// Borrowed view of LZ77 store data for calculations without allocations.
#[derive(Debug, Clone, Copy)]
pub struct Lz77StoreView<'a> {
    /// Literal/length symbols.
    pub litlens: &'a [u16],
    /// Back-reference distances.
    pub dists: &'a [u16],
    /// Positions in the input data where each command starts.
    pub pos: &'a [u32],
    /// Reference to the input data.
    pub data: &'a [u8],
    /// Cumulative counts of literal/length symbols.
    pub ll_counts: &'a [u32],
    /// Cumulative counts of distance symbols.
    pub d_counts: &'a [u32],
}

impl<'a> Lz77Store<'a> {
    /// The commands and the cumulative counts agree.
    pub open spec fn wf(&self) -> bool {
        counts_ok(self.litlens@, self.dists@, self.pos@, self.ll_counts@, self.d_counts@)
    }

    /// Creates a new, empty LZ77 store for the given data.
    pub fn new(data: &'a [u8]) -> (r: Self)
        ensures
            r.wf(),
            r.litlens@.len() == 0,
            r.data@ == data@,
    {
        Lz77Store {
            litlens: Vec::new(),
            dists: Vec::new(),
            pos: Vec::new(),
            data,
            ll_counts: Vec::new(),
            d_counts: Vec::new(),
        }
    }

    /// Borrows this store as an immutable `Lz77StoreView`.
    pub fn as_view(&self) -> (r: Lz77StoreView<'_>)
        ensures
            r.litlens@ == self.litlens@,
            r.dists@ == self.dists@,
            r.pos@ == self.pos@,
            r.data@ == self.data@,
            r.ll_counts@ == self.ll_counts@,
            r.d_counts@ == self.d_counts@,
    {
        Lz77StoreView {
            litlens: self.litlens.as_slice(),
            dists: self.dists.as_slice(),
            pos: self.pos.as_slice(),
            data: self.data,
            ll_counts: self.ll_counts.as_slice(),
            d_counts: self.d_counts.as_slice(),
        }
    }

    /// Clears all internal vectors in the store.
    pub fn clear(&mut self)
        ensures
            final(self).wf(),
            final(self).litlens@.len() == 0,
            final(self).data == old(self).data,
    {
        self.litlens.clear();
        self.dists.clear();
        self.pos.clear();
        self.ll_counts.clear();
        self.d_counts.clear();
    }

    /// Opens the count chunk of the next command: when a new chunk of 288 commands
    /// starts, its counts start from those of the previous chunk.
    #[verifier::spinoff_prover]
    fn grow_ll_counts(&mut self)
        requires
            old(self).wf(),
        ensures
            final(self).litlens == old(self).litlens,
            final(self).dists == old(self).dists,
            final(self).pos == old(self).pos,
            final(self).data == old(self).data,
            final(self).d_counts == old(self).d_counts,
            final(self).ll_counts@.len() == 288 * ((old(self).litlens@.len() + 288) / 288),
            ll_counts_for(
                old(self).litlens@,
                old(self).dists@,
                old(self).litlens@.len() as int,
                final(self).ll_counts@,
            ),
    {
        let origsize = self.litlens.len();
        let ghost n = origsize as int;
        let ghost old_ll = self.ll_counts@;
        proof {
            assert(ll_counts_for(self.litlens@, self.dists@, n, old_ll));
        }
        if origsize % NUM_LL == 0 {
            if origsize == 0 {
                let mut j: usize = 0;
                while j < NUM_LL
                    invariant
                        j <= 288,
                        self.litlens == old(self).litlens,
                        self.dists == old(self).dists,
                        self.pos == old(self).pos,
                        self.data == old(self).data,
                        self.d_counts == old(self).d_counts,
                        self.ll_counts@ == Seq::new(j as nat, |i: int| 0u32),
                    decreases 288 - j,
                {
                    self.ll_counts.push(0);
                    j = j + 1;
                }
            } else {
                let prev_block_start = origsize - NUM_LL;
                let mut j: usize = 0;
                while j < NUM_LL
                    invariant
                        j <= 288,
                        self.litlens == old(self).litlens,
                        self.dists == old(self).dists,
                        self.pos == old(self).pos,
                        self.data == old(self).data,
                        self.d_counts == old(self).d_counts,
                        prev_block_start == n - 288,
                        n < 0xffff_ffff,
                        old_ll.len() == n,
                        self.ll_counts@.len() == n + j,
                        forall|k: int| 0 <= k < n ==> #[trigger] self.ll_counts@[k] == old_ll[k],
                        forall|k: int| n <= k < n + j ==> #[trigger] self.ll_counts@[k] == old_ll[k - 288],
                    decreases 288 - j,
                {
                    let v = self.ll_counts[prev_block_start + j];
                    self.ll_counts.push(v);
                    j = j + 1;
                }
            }
        }
        proof {
            let c = self.ll_counts@;
            assert(c.len() == 288 * ((n + 288) / 288));
            assert forall|k: int| 0 <= k < c.len() implies #[trigger] c[k] == count_ll(
                self.litlens@,
                self.dists@,
                0,
                ll_chunk_end(k, n),
                k % 288,
            ) by {
                if k < old_ll.len() {
                    assert(old_ll[k] == count_ll(self.litlens@, self.dists@, 0, ll_chunk_end(k, n), k % 288));
                } else if n > 0 {
                    assert(old_ll[k - 288] == count_ll(
                        self.litlens@,
                        self.dists@,
                        0,
                        ll_chunk_end(k - 288, n),
                        (k - 288) % 288,
                    ));
                    assert(ll_chunk_end(k - 288, n) == n);
                    assert(ll_chunk_end(k, n) == n);
                    assert((k - 288) % 288 == k % 288);
                }
            }
        }
    }

    /// Opens the distance count chunk of the next command.
    #[verifier::spinoff_prover]
    fn grow_d_counts(&mut self)
        requires
            old(self).dists@.len() == old(self).litlens@.len(),
            old(self).litlens@.len() < 0xffff_ffff,
            old(self).d_counts@.len() == 32 * ((old(self).litlens@.len() + 31) / 32),
            d_counts_for(old(self).dists@, old(self).litlens@.len() as int, old(self).d_counts@),
        ensures
            final(self).litlens == old(self).litlens,
            final(self).dists == old(self).dists,
            final(self).pos == old(self).pos,
            final(self).data == old(self).data,
            final(self).ll_counts == old(self).ll_counts,
            final(self).d_counts@.len() == 32 * ((old(self).litlens@.len() + 32) / 32),
            d_counts_for(old(self).dists@, old(self).litlens@.len() as int, final(self).d_counts@),
    {
        let origsize = self.litlens.len();
        let ghost n = origsize as int;
        let ghost old_d = self.d_counts@;
        proof {
            assert(d_counts_for(self.dists@, n, old_d));
        }
        if origsize % NUM_D == 0 {
            if origsize == 0 {
                let mut j: usize = 0;
                while j < NUM_D
                    invariant
                        j <= 32,
                        self.litlens == old(self).litlens,
                        self.dists == old(self).dists,
                        self.pos == old(self).pos,
                        self.data == old(self).data,
                        self.ll_counts == old(self).ll_counts,
                        self.d_counts@ == Seq::new(j as nat, |i: int| 0u32),
                    decreases 32 - j,
                {
                    self.d_counts.push(0);
                    j = j + 1;
                }
            } else {
                let prev_block_start = origsize - NUM_D;
                let mut j: usize = 0;
                while j < NUM_D
                    invariant
                        j <= 32,
                        self.litlens == old(self).litlens,
                        self.dists == old(self).dists,
                        self.pos == old(self).pos,
                        self.data == old(self).data,
                        self.ll_counts == old(self).ll_counts,
                        prev_block_start == n - 32,
                        n < 0xffff_ffff,
                        old_d.len() == n,
                        self.d_counts@.len() == n + j,
                        forall|k: int| 0 <= k < n ==> #[trigger] self.d_counts@[k] == old_d[k],
                        forall|k: int| n <= k < n + j ==> #[trigger] self.d_counts@[k] == old_d[k - 32],
                    decreases 32 - j,
                {
                    let v = self.d_counts[prev_block_start + j];
                    self.d_counts.push(v);
                    j = j + 1;
                }
            }
        }
        proof {
            let c = self.d_counts@;
            assert(c.len() == 32 * ((n + 32) / 32));
            assert forall|k: int| 0 <= k < c.len() implies #[trigger] c[k] == count_d(
                self.dists@,
                0,
                d_chunk_end(k, n),
                k % 32,
            ) by {
                if k < old_d.len() {
                    assert(old_d[k] == count_d(self.dists@, 0, d_chunk_end(k, n), k % 32));
                } else if n > 0 {
                    assert(old_d[k - 32] == count_d(self.dists@, 0, d_chunk_end(k - 32, n), (k - 32) % 32));
                    assert(d_chunk_end(k - 32, n) == n);
                    assert(d_chunk_end(k, n) == n);
                    assert((k - 32) % 32 == k % 32);
                }
            }
        }
    }

    /// Appends a literal, length, or distance command to the store.
    pub fn store_lit_len_dist(&mut self, length: u16, dist: u16, pos: usize)
        requires
            old(self).wf(),
            old(self).litlens@.len() < 0xffff_fffe,
            dist == 0 ==> length < 288,
        ensures
            final(self).wf(),
            final(self).litlens@ == old(self).litlens@.push(length),
            final(self).dists@ == old(self).dists@.push(dist),
            final(self).pos@ == old(self).pos@.push(pos as u32),
            final(self).data == old(self).data,
    {
        let origsize = self.litlens.len();
        let ghost n = origsize as int;
        let llstart = NUM_LL * (origsize / NUM_LL);
        let dstart = NUM_D * (origsize / NUM_D);
        self.grow_ll_counts();
        self.grow_d_counts();
        let ghost l0 = self.litlens@;
        let ghost d0 = self.dists@;
        let ghost c_ll = self.ll_counts@;
        let ghost c_d = self.d_counts@;
        proof {
            lemma_length_symbol_bound(length as int);
            lemma_dist_symbol_bound(dist as int);
            lemma_push_ll_counts(l0, d0, length, dist, c_ll);
            lemma_push_d_counts(d0, dist, c_d);
        }
        self.litlens.push(length);
        self.dists.push(dist);
        self.pos.push(pos as u32);
        let sym: usize = if dist == 0 {
            length as usize
        } else {
            get_length_symbol(length as usize) as usize
        };
        proof {
            let k0 = llstart + sym;
            assert(c_ll[k0] == count_ll(l0, d0, 0, ll_chunk_end(k0, n), k0 % 288));
            lemma_count_bound(l0, d0, 0, ll_chunk_end(k0, n), k0 % 288);
        }
        let len_ll = self.ll_counts.len();
        proof {
            assert(llstart + sym < len_ll);
        }
        let v = self.ll_counts[llstart + sym];
        self.ll_counts.set(llstart + sym, v + 1);
        if dist != 0 {
            let dsym = get_dist_symbol(dist as usize) as usize;
            proof {
                let k0 = dstart + dsym;
                assert(c_d[k0] == count_d(d0, 0, d_chunk_end(k0, n), k0 % 32));
                lemma_count_bound(l0, d0, 0, d_chunk_end(k0, n), k0 % 32);
            }
            let len_d = self.d_counts.len();
            proof {
                assert(dstart + dsym < len_d);
            }
            let w = self.d_counts[dstart + dsym];
            self.d_counts.set(dstart + dsym, w + 1);
        }
        proof {
            let l2 = self.litlens@;
            assert forall|i: int| 0 <= i < n + 1 && #[trigger] self.dists@[i] == 0 implies l2[i] < 288 by {
                if i < n {
                    assert(self.dists@[i] == d0[i]);
                }
            }
        }
    }
}

impl<'a> Lz77Store<'a> {
    /// Extracts the histogram of symbols in the range `[lstart, lend)`.
    pub fn get_histogram(
        &self,
        lstart: usize,
        lend: usize,
        ll_counts: &mut [usize; NUM_LL],
        d_counts: &mut [usize; NUM_D],
    )
        requires
            self.wf(),
            lstart <= lend <= self.litlens@.len(),
        ensures
            forall|sym: int|
                0 <= sym < 288 ==> #[trigger] final(ll_counts)@[sym] == count_ll(
                    self.litlens@,
                    self.dists@,
                    lstart as int,
                    lend as int,
                    sym,
                ),
            forall|sym: int|
                0 <= sym < 32 ==> #[trigger] final(d_counts)@[sym] == count_d(
                    self.dists@,
                    lstart as int,
                    lend as int,
                    sym,
                ),
    {
        self.as_view().get_histogram(lstart, lend, ll_counts, d_counts);
    }
}

impl<'a> Lz77StoreView<'a> {
    /// The commands and the cumulative counts agree.
    pub open spec fn wf(&self) -> bool {
        counts_ok(self.litlens@, self.dists@, self.pos@, self.ll_counts@, self.d_counts@)
    }

    /// Creates an empty LZ77 store view.
    pub fn empty() -> (r: Self)
        ensures
            r.wf(),
            r.litlens@.len() == 0,
            r.data@.len() == 0,
    {
        Lz77StoreView { litlens: &[], dists: &[], pos: &[], data: &[], ll_counts: &[], d_counts: &[] }
    }

    /// Number of LZ77 commands in this view.
    pub fn len(&self) -> (r: usize)
        ensures
            r == self.litlens@.len(),
    {
        self.litlens.len()
    }

    /// Returns true if this view has no commands.
    pub fn is_empty(&self) -> (r: bool)
        ensures
            r == (self.litlens@.len() == 0),
    {
        self.litlens.len() == 0
    }

    /// Extracts the histogram of symbols in the range `[lstart, lend)`.
    pub fn get_histogram(
        &self,
        lstart: usize,
        lend: usize,
        ll_counts: &mut [usize; NUM_LL],
        d_counts: &mut [usize; NUM_D],
    )
        requires
            self.dists@.len() == self.litlens@.len(),
            lstart <= lend <= self.litlens@.len(),
            lend - lstart >= 864 && self.ll_counts@.len() > 0 && self.d_counts@.len() > 0 ==> self.wf(),
        ensures
            forall|sym: int|
                0 <= sym < 288 ==> #[trigger] final(ll_counts)@[sym] == count_ll(
                    self.litlens@,
                    self.dists@,
                    lstart as int,
                    lend as int,
                    sym,
                ),
            forall|sym: int|
                0 <= sym < 32 ==> #[trigger] final(d_counts)@[sym] == count_d(
                    self.dists@,
                    lstart as int,
                    lend as int,
                    sym,
                ),
    {
        let ghost l = self.litlens@;
        let ghost d = self.dists@;
        if lstart == lend {
            let mut j: usize = 0;
            while j < NUM_LL
                invariant
                    j <= 288,
                    forall|sym: int| 0 <= sym < j ==> #[trigger] ll_counts@[sym] == 0,
                decreases 288 - j,
            {
                ll_counts[j] = 0;
                j = j + 1;
            }
            let mut j: usize = 0;
            while j < NUM_D
                invariant
                    j <= 32,
                    forall|sym: int| 0 <= sym < j ==> #[trigger] d_counts@[sym] == 0,
                decreases 32 - j,
            {
                d_counts[j] = 0;
                j = j + 1;
            }
            return;
        }
        if lend - lstart < NUM_LL * 3 || self.ll_counts.len() == 0 || self.d_counts.len() == 0 {
            let mut j: usize = 0;
            while j < NUM_LL
                invariant
                    j <= 288,
                    forall|sym: int| 0 <= sym < j ==> #[trigger] ll_counts@[sym] == 0,
                decreases 288 - j,
            {
                ll_counts[j] = 0;
                j = j + 1;
            }
            let mut j: usize = 0;
            while j < NUM_D
                invariant
                    j <= 32,
                    forall|sym: int| 0 <= sym < j ==> #[trigger] d_counts@[sym] == 0,
                decreases 32 - j,
            {
                d_counts[j] = 0;
                j = j + 1;
            }
            let mut i = lstart;
            while i < lend
                invariant
                    lstart <= i <= lend <= l.len(),
                    d.len() == l.len(),
                    l == self.litlens@,
                    d == self.dists@,
                    forall|sym: int|
                        0 <= sym < 288 ==> #[trigger] ll_counts@[sym] == count_ll(l, d, lstart as int, i as int, sym),
                    forall|sym: int|
                        0 <= sym < 32 ==> #[trigger] d_counts@[sym] == count_d(d, lstart as int, i as int, sym),
                decreases lend - i,
            {
                let dist = self.dists[i];
                let litlen = self.litlens[i];
                proof {
                    lemma_length_symbol_bound(litlen as int);
                    lemma_dist_symbol_bound(dist as int);
                    lemma_count_bound(l, d, lstart as int, i as int, 0);
                }
                if dist == 0 {
                    let idx = litlen as usize;
                    if idx < NUM_LL {
                        proof {
                            lemma_count_bound(l, d, lstart as int, i as int, idx as int);
                        }
                        ll_counts[idx] = ll_counts[idx] + 1;
                    }
                } else {
                    let ls = get_length_symbol(litlen as usize) as usize;
                    let ds = get_dist_symbol(dist as usize) as usize;
                    proof {
                        lemma_count_bound(l, d, lstart as int, i as int, ls as int);
                        lemma_count_bound(l, d, lstart as int, i as int, ds as int);
                    }
                    ll_counts[ls] = ll_counts[ls] + 1;
                    d_counts[ds] = d_counts[ds] + 1;
                }
                i = i + 1;
            }
        } else {
            self.get_histogram_at(lend - 1, ll_counts, d_counts);
            if lstart > 0 {
                let mut ll_counts2 = [0usize; NUM_LL];
                let mut d_counts2 = [0usize; NUM_D];
                self.get_histogram_at(lstart - 1, &mut ll_counts2, &mut d_counts2);
                let mut j: usize = 0;
                while j < NUM_LL
                    invariant
                        j <= 288,
                        lstart <= lend,
                        forall|sym: int|
                            0 <= sym < 288 ==> #[trigger] ll_counts2@[sym] == count_ll(l, d, 0, lstart as int, sym),
                        forall|sym: int|
                            j <= sym < 288 ==> #[trigger] ll_counts@[sym] == count_ll(l, d, 0, lend as int, sym),
                        forall|sym: int|
                            0 <= sym < j ==> #[trigger] ll_counts@[sym] == count_ll(
                                l,
                                d,
                                lstart as int,
                                lend as int,
                                sym,
                            ),
                    decreases 288 - j,
                {
                    proof {
                        lemma_count_split(l, d, 0, lstart as int, lend as int, j as int);
                    }
                    ll_counts[j] = ll_counts[j].saturating_sub(ll_counts2[j]);
                    j = j + 1;
                }
                let mut j: usize = 0;
                while j < NUM_D
                    invariant
                        j <= 32,
                        lstart <= lend,
                        forall|sym: int|
                            0 <= sym < 32 ==> #[trigger] d_counts2@[sym] == count_d(d, 0, lstart as int, sym),
                        forall|sym: int|
                            j <= sym < 32 ==> #[trigger] d_counts@[sym] == count_d(d, 0, lend as int, sym),
                        forall|sym: int|
                            0 <= sym < j ==> #[trigger] d_counts@[sym] == count_d(d, lstart as int, lend as int, sym),
                    decreases 32 - j,
                {
                    proof {
                        lemma_count_split(l, d, 0, lstart as int, lend as int, j as int);
                    }
                    d_counts[j] = d_counts[j].saturating_sub(d_counts2[j]);
                    j = j + 1;
                }
            }
        }
    }

    /// The symbol counts of the commands `0..=lpos`, from the cumulative counts of the
    /// chunk of `lpos` minus the commands after `lpos` in that chunk.
    fn get_histogram_at(&self, lpos: usize, ll_counts: &mut [usize; NUM_LL], d_counts: &mut [usize; NUM_D])
        requires
            self.wf(),
            lpos < self.litlens@.len(),
        ensures
            forall|sym: int|
                0 <= sym < 288 ==> #[trigger] final(ll_counts)@[sym] == count_ll(
                    self.litlens@,
                    self.dists@,
                    0,
                    lpos + 1,
                    sym,
                ),
            forall|sym: int|
                0 <= sym < 32 ==> #[trigger] final(d_counts)@[sym] == count_d(
                    self.dists@,
                    0,
                    lpos + 1,
                    sym,
                ),
    {
        let ghost l = self.litlens@;
        let ghost d = self.dists@;
        let n = self.litlens.len();
        let llpos = NUM_LL * (lpos / NUM_LL);
        let lc_len = self.ll_counts.len();
        let dc_len = self.d_counts.len();
        proof {
            assert(llpos <= lpos < llpos + 288);
            assert(llpos + 288 <= lc_len);
            assert(ll_counts_for(l, d, n as int, self.ll_counts@));
            assert(d_counts_for(d, n as int, self.d_counts@));
        }
        let end_idx = if llpos + NUM_LL < n {
            llpos + NUM_LL
        } else {
            n
        };
        proof {
            assert(llpos <= lpos < llpos + 288);
            assert(llpos + 288 <= self.ll_counts@.len());
        }
        let mut j: usize = 0;
        while j < NUM_LL
            invariant
                j <= 288,
                self.wf(),
                l == self.litlens@,
                d == self.dists@,
                n == l.len(),
                ll_counts_for(l, d, n as int, self.ll_counts@),
                llpos + 288 <= lc_len,
                lc_len == self.ll_counts@.len(),
                llpos == 288 * (lpos / 288),
                end_idx == ll_chunk_end(llpos as int, n as int),
                forall|sym: int|
                    0 <= sym < j ==> #[trigger] ll_counts@[sym] == count_ll(l, d, 0, end_idx as int, sym),
            decreases 288 - j,
        {
            proof {
                assert(self.ll_counts@[llpos + j] == count_ll(l, d, 0, ll_chunk_end(llpos + j, n as int), (llpos + j) % 288));
                assert((llpos + j) / 288 == llpos / 288);
                assert((llpos + j) % 288 == j);
            }
            let v = self.ll_counts[llpos + j];
            ll_counts[j] = v as usize;
            j = j + 1;
        }
        let mut i = lpos + 1;
        proof {
            assert forall|sym: int| 0 <= sym < 288 implies #[trigger] ll_counts@[sym] == count_ll(l, d, 0, lpos + 1, sym)
                + count_ll(l, d, i as int, end_idx as int, sym) by {
                lemma_count_split(l, d, 0, lpos + 1, end_idx as int, sym);
            }
        }
        while i < end_idx
            invariant
                lpos + 1 <= i <= end_idx <= n,
                n == l.len(),
                self.wf(),
                l == self.litlens@,
                d == self.dists@,
                forall|sym: int|
                    0 <= sym < 288 ==> #[trigger] ll_counts@[sym] == count_ll(l, d, 0, lpos + 1, sym)
                        + count_ll(l, d, i as int, end_idx as int, sym),
            decreases end_idx - i,
        {
            let symbol: usize = if self.dists[i] != 0 {
                get_length_symbol(self.litlens[i] as usize) as usize
            } else {
                self.litlens[i] as usize
            };
            proof {
                lemma_length_symbol_bound(l[i as int] as int);
                assert(symbol == ll_symbol(l[i as int], d[i as int]));
                assert forall|sym: int| 0 <= sym < 288 implies count_ll(l, d, i as int, end_idx as int, sym)
                    == count_ll(l, d, i + 1, end_idx as int, sym) + if symbol == sym {
                    1nat
                } else {
                    0nat
                } by {
                    lemma_count_split(l, d, i as int, i + 1, end_idx as int, sym);
                    assert(count_ll(l, d, i as int, i as int, sym) == 0);
                }
            }
            if symbol < NUM_LL {
                ll_counts[symbol] = ll_counts[symbol].saturating_sub(1);
            }
            i = i + 1;
        }
        let dpos = NUM_D * (lpos / NUM_D);
        proof {
            assert(dpos <= lpos < dpos + 32);
            assert(dpos + 32 <= dc_len);
        }
        let end_idx_d = if dpos + NUM_D < n {
            dpos + NUM_D
        } else {
            n
        };
        proof {
            assert(dpos <= lpos < dpos + 32);
            assert(dpos + 32 <= self.d_counts@.len());
        }
        let mut j: usize = 0;
        while j < NUM_D
            invariant
                j <= 32,
                self.wf(),
                l == self.litlens@,
                d == self.dists@,
                n == l.len(),
                d_counts_for(d, n as int, self.d_counts@),
                dpos + 32 <= dc_len,
                dc_len == self.d_counts@.len(),
                dpos == 32 * (lpos / 32),
                end_idx_d == d_chunk_end(dpos as int, n as int),
                forall|sym: int|
                    0 <= sym < j ==> #[trigger] d_counts@[sym] == count_d(d, 0, end_idx_d as int, sym),
            decreases 32 - j,
        {
            proof {
                assert(self.d_counts@[dpos + j] == count_d(d, 0, d_chunk_end(dpos + j, n as int), (dpos + j) % 32));
                assert((dpos + j) / 32 == dpos / 32);
                assert((dpos + j) % 32 == j);
            }
            let v = self.d_counts[dpos + j];
            d_counts[j] = v as usize;
            j = j + 1;
        }
        let mut i = lpos + 1;
        proof {
            assert forall|sym: int| 0 <= sym < 32 implies #[trigger] d_counts@[sym] == count_d(d, 0, lpos + 1, sym)
                + count_d(d, i as int, end_idx_d as int, sym) by {
                lemma_count_split(l, d, 0, lpos + 1, end_idx_d as int, sym);
            }
        }
        while i < end_idx_d
            invariant
                lpos + 1 <= i <= end_idx_d <= n,
                n == l.len(),
                self.wf(),
                l == self.litlens@,
                d == self.dists@,
                forall|sym: int|
                    0 <= sym < 32 ==> #[trigger] d_counts@[sym] == count_d(d, 0, lpos + 1, sym)
                        + count_d(d, i as int, end_idx_d as int, sym),
            decreases end_idx_d - i,
        {
            if self.dists[i] != 0 {
                let symbol = get_dist_symbol(self.dists[i] as usize) as usize;
                proof {
                    lemma_dist_symbol_bound(d[i as int] as int);
                    assert forall|sym: int| 0 <= sym < 32 implies count_d(d, i as int, end_idx_d as int, sym)
                        == count_d(d, i + 1, end_idx_d as int, sym) + if symbol == sym {
                        1nat
                    } else {
                        0nat
                    } by {
                        lemma_count_split(l, d, i as int, i + 1, end_idx_d as int, sym);
                        assert(count_d(d, i as int, i as int, sym) == 0);
                    }
                }
                d_counts[symbol] = d_counts[symbol].saturating_sub(1);
            } else {
                proof {
                    assert forall|sym: int| 0 <= sym < 32 implies count_d(d, i as int, end_idx_d as int, sym)
                        == count_d(d, i + 1, end_idx_d as int, sym) by {
                        lemma_count_split(l, d, i as int, i + 1, end_idx_d as int, sym);
                        assert(count_d(d, i as int, i as int, sym) == 0);
                    }
                }
            }
            i = i + 1;
        }
    }
}

/// An uninitialized LZ77 store that does not yet borrow the input data.
#[derive(Debug, Clone, Copy, Default)]
pub struct UninitializedLz77Store;

impl UninitializedLz77Store {
    /// Creates a new uninitialized LZ77 store.
    pub fn new() -> (r: Self) {
        UninitializedLz77Store
    }

    /// Initializes the store with the given input data.
    pub fn initialize<'a>(self, data: &'a [u8]) -> (r: Lz77Store<'a>)
        ensures
            r.wf(),
            r.litlens@.len() == 0,
            r.data@ == data@,
    {
        Lz77Store::new(data)
    }
}

/// State information for compressing a block.
#[derive(Debug, Clone)]
pub struct ZopfliBlockState<'a> {
    /// Safe options configurations.
    pub options: &'a SafeOptions,
    /// Optional longest match cache.
    pub lmc: Option<ZopfliLongestMatchCache>,
    /// Block start offset in input array.
    pub blockstart: usize,
    /// Block end offset in input array.
    pub blockend: usize,
}

/// Byte `t` of the match at `pos` equals byte `t` of the text `dist` bytes back.
pub open spec fn match_byte_ok(data: Seq<u8>, pos: int, dist: int, t: int) -> bool {
    data[pos - dist + t] == data[pos + t]
}

/// The `len` bytes at `pos` repeat those `dist` bytes back, with a distance that
/// DEFLATE can code.
pub open spec fn valid_match(data: Seq<u8>, pos: int, dist: int, len: int) -> bool {
    &&& 1 <= dist < 32768
    &&& dist <= pos
    &&& 0 <= len
    &&& pos + len <= data.len()
    &&& forall|t: int| 0 <= t < len ==> #[trigger] match_byte_ok(data, pos, dist, t)
}

/// A match stays valid when it is cut shorter.
pub proof fn lemma_valid_match_shorter(data: Seq<u8>, pos: int, dist: int, len: int, len2: int)
    requires
        valid_match(data, pos, dist, len),
        0 <= len2 <= len,
    ensures
        valid_match(data, pos, dist, len2),
{
    assert forall|t: int| 0 <= t < len2 implies #[trigger] match_byte_ok(data, pos, dist, t) by {
        assert(match_byte_ok(data, pos, dist, t));
    }
}

/// Entry `k` of a sub-length table is a distance at which a match of length `k` starts.
pub open spec fn sublen_entry_ok(data: Seq<u8>, pos: int, sub: Seq<u16>, k: int) -> bool {
    valid_match(data, pos, sub[k] as int, k)
}

/// Byte `j` of the scan equals the byte `off` positions before it.
pub open spec fn scan_byte_ok(array: Seq<u8>, off: int, j: int) -> bool {
    array[j] == array[j - off]
}

/// Eight bytes at `a` equal the eight bytes at `b`.
fn equal8(array: &[u8], a: usize, b: usize) -> (r: bool)
    requires
        a + 8 <= array@.len(),
        b + 8 <= array@.len(),
    ensures
        r == forall|t: int| 0 <= t < 8 ==> #[trigger] array@[a + t] == array@[b + t],
{
    let n = array.len();
    let mut t: usize = 0;
    while t < 8
        invariant
            t <= 8,
            n == array@.len(),
            a + 8 <= n,
            b + 8 <= n,
            forall|u: int| 0 <= u < t ==> #[trigger] array@[a + u] == array@[b + u],
        decreases 8 - t,
    {
        if array[a + t] != array[b + t] {
            return false;
        }
        t = t + 1;
    }
    true
}

/// Extends a match: returns the first position from `scan_pos` on (before `end_pos`)
/// whose byte differs from the byte at the same offset from `match_pos`.
fn get_match(array: &[u8], scan_pos: usize, match_pos: usize, end_pos: usize) -> (r: usize)
    requires
        end_pos <= array@.len(),
        scan_pos >= match_pos,
    ensures
        r >= scan_pos,
        scan_pos <= end_pos ==> r <= end_pos,
        scan_pos > end_pos ==> r == scan_pos,
        forall|j: int| scan_pos <= j < r ==> #[trigger] scan_byte_ok(array@, scan_pos - match_pos, j),
        r < end_pos ==> !scan_byte_ok(array@, scan_pos - match_pos, r as int),
{
    let ghost off = scan_pos - match_pos;
    let mut scan = scan_pos;
    let mut mat = match_pos;
    if end_pos >= 8 {
        let safe_end = end_pos - 8;
        while scan < safe_end && equal8(array, scan, mat)
            invariant
                scan_pos <= scan,
                mat <= scan,
                scan - mat == off,
                scan <= end_pos || scan == scan_pos,
                end_pos <= array@.len(),
                safe_end + 8 == end_pos,
                forall|j: int| scan_pos <= j < scan ==> #[trigger] scan_byte_ok(array@, off, j),
            decreases end_pos - scan,
        {
            proof {
                assert forall|j: int| scan_pos <= j < scan + 8 implies #[trigger] scan_byte_ok(array@, off, j) by {
                    if j >= scan {
                        assert(array@[scan + (j - scan)] == array@[mat + (j - scan)]);
                    }
                }
            }
            scan = scan + 8;
            mat = mat + 8;
        }
    }
    while scan < end_pos && array[scan] == array[mat]
        invariant
            scan_pos <= scan,
            mat <= scan,
            scan - mat == off,
            scan <= end_pos || scan == scan_pos,
            end_pos <= array@.len(),
            forall|j: int| scan_pos <= j < scan ==> #[trigger] scan_byte_ok(array@, off, j),
        decreases end_pos - scan,
    {
        scan = scan + 1;
        mat = mat + 1;
    }
    scan
}

/// The cache at slot `p` may answer a search with length limit `limit`: the slot is
/// filled, and the search does not ask for more than the cache knows.
pub open spec fn cache_limit_ok(c: ZopfliLongestMatchCache, p: int, limit: usize, has_sub: bool) -> bool {
    &&& p < c.length@.len()
    &&& c.length@[p] == 0 || c.dist@[p] != 0
    &&& limit == MAX_MATCH || c.length@[p] <= limit || (has_sub && block_max_sublen(cache_block(c.sublen@, p))
        >= limit)
}

/// The cache at slot `p` answers a search with length limit `limit`: it may, and when
/// the distances of every length are asked for, it holds them up to the cached length.
pub open spec fn cache_lookup_found(c: ZopfliLongestMatchCache, p: int, limit: usize, has_sub: bool) -> bool {
    &&& cache_limit_ok(c, p, limit, has_sub)
    &&& has_sub ==> c.length@[p] <= block_max_sublen(cache_block(c.sublen@, p))
}

impl<'a> ZopfliBlockState<'a> {
    /// The cache, when there is one, has its three tables in proportion, and
    /// positions from `blockstart` on index it.
    pub open spec fn cache_ready(&self, pos: int) -> bool {
        self.lmc matches Some(c) ==> c.wf() && pos >= self.blockstart
    }

    /// Looks the match at `pos` up in the cache. Returns whether it was found there;
    /// without a cache it is never found and nothing changes.
    fn try_get_from_longest_match_cache(
        &self,
        pos: usize,
        limit: &mut usize,
        sub: &mut [u16],
        has_sub: bool,
        distance: &mut u16,
        length: &mut u16,
    ) -> (r: bool)
        requires
            self.cache_ready(pos as int),
            self.lmc is Some && has_sub ==> old(sub)@.len() >= 259,
        ensures
            final(sub)@.len() == old(sub)@.len(),
            self.lmc is None ==> !r && *final(limit) == *old(limit) && final(sub)@ == old(sub)@
                && *final(distance) == *old(distance) && *final(length) == *old(length),
            self.lmc matches Some(c) ==> ({
                let p = pos - self.blockstart;
                let found = cache_lookup_found(c, p, *old(limit), has_sub);
                let len = if c.length@[p] > *old(limit) {
                    *old(limit) as int
                } else {
                    c.length@[p] as int
                };
                &&& r == found
                &&& found ==> *final(length) == len && *final(limit) == *old(limit) && if has_sub {
                    &&& final(sub)@ == if len < MIN_MATCH {
                        old(sub)@
                    } else {
                        restored(
                            cache_block(c.sublen@, p),
                            old(sub)@,
                            block_max_sublen(cache_block(c.sublen@, p)),
                            0,
                            0,
                        )
                    }
                    &&& *final(distance) == final(sub)@[len]
                } else {
                    final(sub)@ == old(sub)@ && *final(distance) == c.dist@[p]
                }
                &&& !found ==> final(sub)@ == old(sub)@ && *final(distance) == *old(distance) && *final(length)
                    == *old(length)
                &&& !found ==> *final(limit) == if cache_limit_ok(c, p, *old(limit), has_sub) {
                    c.length@[p] as usize
                } else {
                    *old(limit)
                }
            }),
    {
        let lmc = match &self.lmc {
            Some(cache) => cache,
            None => return false,
        };
        let lmcpos = pos - self.blockstart;
        if lmcpos >= lmc.length.len() {
            return false;
        }
        let sl = lmc.sublen.len();
        proof {
            assert(24 * lmcpos + 24 <= sl);
            assert(lmcpos <= usize::MAX / 24 - 1);
        }
        let cache_available = lmc.length[lmcpos] == 0 || lmc.dist[lmcpos] != 0;
        let limit_ok_for_cache = cache_available && (*limit == crate::util::MAX_MATCH
            || lmc.length[lmcpos] as usize <= *limit || (has_sub && lmc.max_cached_sublen(
            lmcpos,
            lmc.length[lmcpos] as usize,
        ) as usize >= *limit));
        if limit_ok_for_cache && cache_available {
            let cached_len = lmc.length[lmcpos] as usize;
            let mut sublen_valid = true;
            if has_sub {
                if cached_len > lmc.max_cached_sublen(lmcpos, cached_len) as usize {
                    sublen_valid = false;
                }
            }
            if sublen_valid {
                let mut len = cached_len;
                if len > *limit {
                    len = *limit;
                }
                *length = len as u16;
                if has_sub {
                    lmc.cache_to_sublen(lmcpos, len, sub);
                    *distance = sub[len];
                } else {
                    *distance = lmc.dist[lmcpos];
                }
                return true;
            }
            *limit = cached_len;
        }
        false
    }

    /// Records the match found at `pos` in the cache, if there is one and the match
    /// was searched with the full length limit.
    fn store_in_longest_match_cache(
        &mut self,
        pos: usize,
        limit: usize,
        sub: &[u16],
        has_sub: bool,
        distance: u16,
        length: u16,
    )
        requires
            old(self).cache_ready(pos as int),
        ensures
            final(self).options == old(self).options,
            final(self).blockstart == old(self).blockstart,
            final(self).blockend == old(self).blockend,
            old(self).lmc is None ==> final(self).lmc is None,
            old(self).lmc is Some ==> (final(self).lmc matches Some(c) && c.wf()),
            old(self).lmc matches Some(c) ==> (final(self).lmc matches Some(c2) && {
                let p = pos - old(self).blockstart;
                let stores = p < c.length@.len() && limit == MAX_MATCH && has_sub && c.length@[p] != 0 && c.dist@[p] == 0;
                let short = (length as int) < MIN_MATCH;
                &&& c2.length@ == if stores {
                    c.length@.update(p, if short { 0u16 } else { length })
                } else {
                    c.length@
                }
                &&& c2.dist@ == if stores {
                    c.dist@.update(p, if short { 0u16 } else { distance })
                } else {
                    c.dist@
                }
                &&& c2.sublen@ == if stores && !short {
                    c.sublen@.subrange(0, 24 * p) + stored_block(cache_block(c.sublen@, p), sub@, length as int)
                        + c.sublen@.subrange(24 * p + 24, c.sublen@.len() as int)
                } else {
                    c.sublen@
                }
            }),
    {
        let lmc = match &mut self.lmc {
            Some(cache) => cache,
            None => return,
        };
        let lmcpos = pos - self.blockstart;
        if lmcpos >= lmc.length.len() {
            return;
        }
        let sl = lmc.sublen.len();
        proof {
            assert(24 * lmcpos + 24 <= sl);
            assert(lmcpos <= usize::MAX / 24 - 1);
        }
        let cache_available = lmc.length[lmcpos] == 0 || lmc.dist[lmcpos] != 0;
        if limit == crate::util::MAX_MATCH && has_sub && !cache_available {
            let d_val = if (length as usize) < MIN_MATCH {
                0
            } else {
                distance
            };
            let l_val = if (length as usize) < MIN_MATCH {
                0
            } else {
                length
            };
            lmc.dist.set(lmcpos, d_val);
            lmc.length.set(lmcpos, l_val);
            lmc.sublen_to_cache(sub, lmcpos, length as usize);
        }
    }
}

/// A value one window below or at a residue has that residue.
proof fn lemma_mod_window(x: int, r: int)
    requires
        0 <= r < 32768,
        x == r || x == r - 32768,
    ensures
        x % 32768 == r,
{
    vstd::arithmetic::div_mod::lemma_small_mod(r as nat, 32768);
    if x != r {
        vstd::arithmetic::div_mod::lemma_mod_add_multiples_vanish(x, 32768);
    }
}

/// Going `d` back from a position with residue `p0`, where `d` is the distance from
/// slot `p1` up to slot `p0` in the circular window, reaches residue `p1`.
proof fn lemma_step_residue(q0: int, p0: int, p1: int, d: int)
    requires
        0 <= p0 < 32768,
        0 <= p1 < 32768,
        q0 % 32768 == p0,
        p0 - p1 == d || p0 - p1 == d - 32768,
    ensures
        (q0 - d) % 32768 == p1,
{
    let k = q0 / 32768;
    vstd::arithmetic::div_mod::lemma_fundamental_div_mod(q0, 32768);
    assert(q0 - d == 32768 * k + (p0 - d));
    vstd::arithmetic::div_mod::lemma_mod_multiples_vanish(k, p0 - d, 32768);
    lemma_mod_window(p0 - d, p1);
}

/// The position `q` of the window ending at `pos` is the one its slot belongs to.
proof fn lemma_wpos_of(s: int, pos: int, q: int)
    requires
        0 <= s < 32768,
        pos - 32768 < q <= pos,
        q % 32768 == s,
    ensures
        wpos(s, pos) == q,
{
    assert(q == 32768 * (q / 32768) + s);
    assert(pos - s == (pos - q) + 32768 * (q / 32768));
    assert((pos - s) % 32768 == pos - q) by {
        vstd::arithmetic::div_mod::lemma_mod_multiples_vanish(q / 32768, pos - q, 32768);
        vstd::arithmetic::div_mod::lemma_small_mod((pos - q) as nat, 32768);
    }
}

/// The window position of a slot lies in the window and has the slot as residue.
proof fn lemma_wpos_residue(s: int, pos: int)
    requires
        0 <= s < 32768,
    ensures
        pos - 32768 < wpos(s, pos) <= pos,
        wpos(s, pos) % 32768 == s,
{
    let d = (pos - s) % 32768;
    assert(pos - s == 32768 * ((pos - s) / 32768) + d);
    assert(wpos(s, pos) == s + 32768 * ((pos - s) / 32768));
    assert(wpos(s, pos) % 32768 == s) by {
        vstd::arithmetic::div_mod::lemma_mod_multiples_vanish((pos - s) / 32768, s, 32768);
        vstd::arithmetic::div_mod::lemma_small_mod(s as nat, 32768);
    }
}

/// The hash has been updated at every position of a window that ends at `pos`, and
/// its current value is that of `pos`: it is ready for a match search at `pos`.
pub open spec fn hash_ready(h: ZopfliHash, array: Seq<u8>, pos: int) -> bool {
    &&& exists|hend: int, ws: int| h.hash_inv(array, hend, ws, pos)
    &&& 0 <= h.val < 32768
    &&& h.head@[h.val as int] == pos % 32768
}

/// The bounds the search at `pos` keeps to: at most `limit`, 258 and the bytes left
/// in the block.
pub open spec fn search_limit(limit: int, pos: int, blockend: int) -> int {
    let l1 = if limit > 258 {
        258
    } else {
        limit
    };
    if pos + l1 > blockend {
        blockend - pos
    } else {
        l1
    }
}

/// Entry `k` of `sub` is a distance for a match of length `k` when `k` is in `2..=hi`,
/// the table is in use and a match (distance `d`) was found; otherwise it still holds
/// its value from `sub0`.
pub open spec fn sub_ok_at(
    data: Seq<u8>,
    pos: int,
    sub: Seq<u16>,
    sub0: Seq<u16>,
    has_sub: bool,
    d: int,
    hi: int,
    k: int,
) -> bool {
    if has_sub && d != 0 && 2 <= k <= hi {
        sublen_entry_ok(data, pos, sub, k)
    } else {
        sub[k] == sub0[k]
    }
}

/// Writes `dist` into the entries `from..to` of `sub` that exist.
fn fill_sublen(sub: &mut [u16], from: usize, to: usize, dist: u16)
    ensures
        final(sub)@.len() == old(sub)@.len(),
        forall|k: int|
            0 <= k < old(sub)@.len() ==> #[trigger] final(sub)@[k] == if from <= k < to {
                dist
            } else {
                old(sub)@[k]
            },
{
    let sl = sub.len();
    let end_idx = if to < sl {
        to
    } else {
        sl
    };
    let mut k = from;
    while k < end_idx
        invariant
            from <= k,
            k <= end_idx || k == from,
            end_idx == if to < sl {
                to
            } else {
                sl
            },
            sl == sub@.len() == old(sub)@.len(),
            forall|j: int|
                0 <= j < sl ==> #[trigger] sub@[j] == if from <= j < k {
                    dist
                } else {
                    old(sub)@[j]
                },
        decreases end_idx - k,
    {
        sub[k] = dist;
        k = k + 1;
    }
    assert forall|j: int| 0 <= j < sl implies #[trigger] sub@[j] == if from <= j < to {
        dist
    } else {
        old(sub)@[j]
    } by {
        if from <= j < to {
            assert(j < k);
        }
    }
}

/// Length of the match at `pos` with distance `dist`, up to `limit`. Bytes that the
/// repetition counts of the hash vouch for are skipped before comparing.
fn match_length(
    h: &ZopfliHash,
    array: &[u8],
    pos: usize,
    dist: usize,
    limit: usize,
    Ghost(hend): Ghost<int>,
    Ghost(ws): Ghost<int>,
) -> (cl: usize)
    requires
        h.hash_inv(array@, hend, ws, pos as int),
        1 <= dist < 32768,
        ws <= pos - dist,
        pos + limit <= array@.len(),
    ensures
        cl <= limit,
        valid_match(array@, pos as int, dist as int, cl as int),
        cl < limit ==> !match_byte_ok(array@, pos as int, dist as int, cl as int),
{
    let n = array.len();
    let match_pos = pos - dist;
    let hpos = pos & crate::util::WINDOW_MASK;
    let mslot = match_pos & crate::util::WINDOW_MASK;
    proof {
        crate::util::lemma_mask_low_bits(pos);
        crate::util::lemma_mask_low_bits(match_pos);
        lemma_wpos_of(hpos as int, pos as int, pos as int);
        lemma_wpos_of(mslot as int, pos as int, match_pos as int);
        assert(h.slot_ok(array@, hend, ws, pos as int, hpos as int));
        assert(h.slot_ok(array@, hend, ws, pos as int, mslot as int));
    }
    let mut same_scan = pos;
    let mut same_match = match_pos;
    let same0 = h.same[hpos] as usize;
    let mut same: usize = 0;
    if same0 >= MIN_MATCH && array[pos] == array[match_pos] {
        let same1 = h.same[mslot] as usize;
        proof {
            assert(same_ok(array@, hend, pos as int, same0 as int));
            assert(same_ok(array@, hend, match_pos as int, same1 as int));
        }
        same = if same0 < same1 {
            same0
        } else {
            same1
        };
        if same > limit {
            same = limit;
        }
        same_scan = same_scan + same;
        same_match = same_match + same;
    }
    let final_scan = get_match(array, same_scan, same_match, pos + limit);
    let cl = final_scan - pos;
    proof {
        assert(same_scan - same_match == dist);
        assert forall|t: int| 0 <= t < cl implies #[trigger] match_byte_ok(array@, pos as int, dist as int, t) by {
            if t < same {
                if t > 0 {
                    assert(repeats_at(array@, hend, pos as int, pos + t));
                    assert(repeats_at(array@, hend, match_pos as int, match_pos + t));
                }
            } else {
                assert(scan_byte_ok(array@, dist as int, pos + t));
            }
        }
        if cl < limit {
            assert(!scan_byte_ok(array@, dist as int, final_scan as int));
        }
    }
    cl
}

/// One step along a hash chain: from slot `p0`, owned by the position `dist0` back
/// from `pos`, to its link `p1`, which is `dist1` back.
proof fn lemma_chain_step(
    h: ZopfliHash,
    array: Seq<u8>,
    hend: int,
    ws: int,
    pos: int,
    prev: Seq<u16>,
    p0: int,
    dist0: int,
    p1: int,
    dist1: int,
)
    requires
        h.hash_inv(array, hend, ws, pos),
        prev == h.prev@ || prev == h.prev2@,
        0 <= p0 < 32768,
        0 <= p1 < 32768,
        0 <= dist0 < 32768,
        wpos(p0, pos) == pos - dist0,
        pos - dist0 >= ws,
        p1 == prev[p0],
        p1 != p0,
        p0 - p1 == dist1 - dist0 || p0 - p1 == dist1 - dist0 - 32768,
        dist0 < dist1 <= dist0 + 32768,
    ensures
        pos - dist1 >= ws,
        dist1 < 32768 ==> wpos(p1, pos) == pos - dist1,
{
    assert(h.slot_ok(array, hend, ws, pos, p0));
    assert(link_ok(prev, p0, pos - dist0, ws));
    lemma_mod_window(p0 - p1, dist1 - dist0);
    lemma_wpos_residue(p0, pos);
    lemma_step_residue(pos - dist0, p0, p1, dist1 - dist0);
    if dist1 < 32768 {
        lemma_wpos_of(p1, pos, pos - dist1);
    }
}

/// Finds the longest match at `pos` along the hash chains, filling `sub` (when
/// `has_sub`) with a distance for each length that improves on the best so far.
/// The hash chain of `h` has an entry for the hash value at the current position.
pub open spec fn chain_started(h: ZopfliHash) -> bool {
    h.head@[((h.val as usize) % 65536) as int] != -1
}

/// Length of the match at distance `d` for `pos`, counted from `k` on and cut at `limit`:
/// the bytes match as long as they repeat those `d` back.
pub open spec fn match_len_from(array: Seq<u8>, pos: int, d: int, k: int, limit: int) -> int
    decreases limit - k,
{
    if k >= limit || !match_byte_ok(array, pos, d, k) {
        k
    } else {
        match_len_from(array, pos, d, k + 1, limit)
    }
}

/// Length of the longest match at distance `d` for `pos`, at most `limit`.
pub open spec fn match_len(array: Seq<u8>, pos: int, d: int, limit: int) -> int {
    match_len_from(array, pos, d, 0, limit)
}

/// A length up to which every byte matches and after which one does not (or the limit is
/// reached) is the match length.
proof fn lemma_match_len(array: Seq<u8>, pos: int, d: int, k: int, limit: int, cl: int)
    requires
        0 <= k <= cl <= limit,
        forall|t: int| 0 <= t < cl ==> #[trigger] match_byte_ok(array, pos, d, t),
        cl < limit ==> !match_byte_ok(array, pos, d, cl),
    ensures
        match_len_from(array, pos, d, k, limit) == cl,
    decreases cl - k,
{
    if k < cl {
        lemma_match_len(array, pos, d, k + 1, limit, cl);
    }
}

/// A byte that does not match caps the match length.
proof fn lemma_match_len_cap(array: Seq<u8>, pos: int, d: int, k: int, limit: int, b: int)
    requires
        0 <= k <= b,
        !match_byte_ok(array, pos, d, b),
    ensures
        match_len_from(array, pos, d, k, limit) <= b,
    decreases b - k,
{
    if k < b && k < limit && match_byte_ok(array, pos, d, k) {
        lemma_match_len_cap(array, pos, d, k + 1, limit, b);
    }
}

/// The best match length that the walk along the hash chains finds, from the candidate
/// in window slot `p` at distance `dist`, with best length `best` so far, following the
/// secondary chain when `use_sec`, with `counter` candidates left: each candidate's match
/// length counts; a match that reaches the limit ends the walk; once the best length
/// reaches the repetition count at `pos` and the candidate's secondary hash is the
/// current one, the walk goes on along the secondary chain; it ends at the end of a chain
/// (an entry that points to itself), outside the window, or when no candidates are left.
pub open spec fn chain_walk(
    h: ZopfliHash,
    array: Seq<u8>,
    pos: int,
    limit: int,
    p: int,
    dist: int,
    use_sec: bool,
    best: int,
    counter: nat,
) -> int
    decreases counter,
{
    if counter == 0 || dist >= 32768 {
        best
    } else {
        let m = match_len(array, pos, dist, limit);
        let best2 = if m > best {
            m
        } else {
            best
        };
        if m > best && m >= limit {
            best2
        } else {
            let use2 = use_sec || (best2 >= h.same@[pos % 32768] && h.val2 == h.hashval2@[p]);
            let pn = if use2 {
                h.prev2@[p] as int
            } else {
                h.prev@[p] as int
            };
            if pn == p {
                best2
            } else {
                chain_walk(
                    h,
                    array,
                    pos,
                    limit,
                    pn,
                    dist + if pn < p {
                        p - pn
                    } else {
                        32768 - pn + p
                    },
                    use2,
                    best2,
                    (counter - 1) as nat,
                )
            }
        }
    }
}

/// The match length that the search at `pos` ends with: the walk from the first candidate
/// of the current hash chain, with at most 8192 candidates.
pub open spec fn chain_search(h: ZopfliHash, array: Seq<u8>, pos: int, limit: int) -> int {
    let pp_idx = ((h.head@[((h.val as usize) % 65536) as int] as usize) % 32768) as int;
    chain_walk(h, array, pos, limit, h.prev@[pp_idx] as int, first_candidate(h), false, 1, 8192)
}

/// Distance back to the first candidate that the match search examines: the entry that
/// precedes the newest one in the chain of the current hash value.
pub open spec fn first_candidate(h: ZopfliHash) -> int {
    let pp_idx = ((h.head@[((h.val as usize) % 65536) as int] as usize) % 32768) as int;
    let p_idx = ((h.prev@[pp_idx] as usize) % 32768) as int;
    if p_idx < pp_idx {
        pp_idx - p_idx
    } else {
        32768 - p_idx + pp_idx
    }
}

#[verifier::spinoff_prover]
#[verifier::rlimit(100)]
fn find_longest_match_in(
    state: &mut ZopfliBlockState<'_>,
    h: &ZopfliHash,
    array: &[u8],
    pos: usize,
    limit_in: usize,
    sub: &mut [u16],
    has_sub: bool,
) -> (r: (u16, u16))
    requires
        old(state).blockend <= array@.len(),
        old(state).cache_ready(pos as int),
        old(state).lmc is Some && has_sub ==> old(sub)@.len() >= 259,
        hash_ready(*h, array@, pos as int),
    ensures
        final(sub)@.len() == old(sub)@.len(),
        final(state).options == old(state).options,
        final(state).blockstart == old(state).blockstart,
        final(state).blockend == old(state).blockend,
        old(state).lmc is None ==> ({
            let d = r.0 as int;
            let l = r.1 as int;
            let blockend = old(state).blockend as int;
            &&& final(state).lmc is None
            &&& (pos >= blockend || blockend - pos < 3) ==> d == 0 && l == 0
            &&& d == 0 ==> l <= 1
            &&& d != 0 ==> 2 <= l <= search_limit(limit_in as int, pos as int, blockend)
                && valid_match(array@, pos as int, d, l)
            &&& (pos < blockend && blockend - pos >= 3 && chain_started(*h)) ==> l == chain_search(
                *h,
                array@,
                pos as int,
                search_limit(limit_in as int, pos as int, blockend),
            )
            &&& (pos < blockend && blockend - pos >= 3 && chain_started(*h)) ==> forall|m: int|
                2 <= m <= search_limit(limit_in as int, pos as int, blockend) && #[trigger] valid_match(
                    array@,
                    pos as int,
                    first_candidate(*h),
                    m,
                ) ==> m <= l
            &&& forall|k: int|
                0 <= k < old(sub)@.len() ==> #[trigger] sub_ok_at(
                    array@,
                    pos as int,
                    final(sub)@,
                    old(sub)@,
                    has_sub,
                    d,
                    l,
                    k,
                )
        }),
{
    let mut limit = limit_in;
    let mut distance: u16 = 0;
    let mut length: u16 = 0;
    let ghost no_cache = state.lmc is None;
    if state.try_get_from_longest_match_cache(pos, &mut limit, sub, has_sub, &mut distance, &mut length) {
        return (distance, length);
    }
    let ghost sub0 = sub@;
    if limit > crate::util::MAX_MATCH {
        limit = crate::util::MAX_MATCH;
    }
    if pos >= state.blockend {
        return (0, 0);
    }
    if state.blockend - pos < MIN_MATCH {
        return (0, 0);
    }
    if limit > state.blockend - pos {
        limit = state.blockend - pos;
    }
    let blockend = state.blockend;
    let ghost (hend, ws) = choose|hend: int, ws: int| h.hash_inv(array@, hend, ws, pos as int);
    let hpos = pos & crate::util::WINDOW_MASK;
    proof {
        crate::util::lemma_mask_low_bits(pos);
        assert(no_cache ==> limit == search_limit(limit_in as int, pos as int, blockend as int));
        assert(h.slot_ok(array@, hend, ws, pos as int, hpos as int));
        lemma_wpos_of(hpos as int, pos as int, pos as int);
    }
    let mut bestdist: usize = 0;
    let mut bestlength: usize = 1;
    let mut use_secondary = false;
    let val_idx = (h.val as usize) & 65535;
    proof {
        let v = h.val as usize;
        crate::util::lemma_mask_low_bits(v);
    }
    let pp = h.head[val_idx];
    if pp == -1 {
        return (0, 0);
    }
    let pp_idx = (pp as usize) & 32767;
    proof {
        let ppu = pp as usize;
        crate::util::lemma_mask_low_bits(ppu);
    }
    let mut p = h.prev[pp_idx];
    let p_idx = (p as usize) & 32767;
    proof {
        let pu = p as usize;
        crate::util::lemma_mask_low_bits(pu);
    }
    let mut dist: usize = if p_idx < pp_idx {
        pp_idx - p_idx
    } else {
        (32768 - p_idx) + pp_idx
    };
    proof {
        if dist < 32768 {
            assert(link_ok(h.prev@, hpos as int, pos as int, ws));
            lemma_chain_step(*h, array@, hend, ws, pos as int, h.prev@, hpos as int, 0, p as int, dist as int);
        }
    }
    let ghost d1 = dist as int;
    let ghost mut first_done = false;
    proof {
        assert(d1 == first_candidate(*h));
        assert(val_idx == ((h.val as usize) % 65536) as int);
        assert(pp_idx == ((h.head@[val_idx as int] as usize) % 32768) as int);
    }
    let mut chain_counter: usize = crate::util::MAX_CHAIN_HITS;
    while dist < crate::util::WINDOW_SIZE
        invariant_except_break
            1 <= chain_counter,
            no_cache ==> chain_search(*h, array@, pos as int, limit as int) == chain_walk(
                *h,
                array@,
                pos as int,
                limit as int,
                p as int,
                dist as int,
                use_secondary,
                bestlength as int,
                chain_counter as nat,
            ),
        invariant
            h.hash_inv(array@, hend, ws, pos as int),
            pos < blockend <= array@.len(),
            pos + limit <= blockend,
            no_cache == (state.lmc is None),
            no_cache ==> limit == search_limit(limit_in as int, pos as int, blockend as int),
            no_cache ==> sub0 == old(sub)@,
            state.cache_ready(pos as int),
            state.blockend == blockend,
            state.options == old(state).options,
            state.blockstart == old(state).blockstart,
            hpos == pos % 32768,
            1 <= dist,
            p < 32768,
            dist < 32768 ==> wpos(p as int, pos as int) == pos - dist && pos - dist >= ws,
            1 <= bestlength,
            bestlength <= limit || bestlength == 1,
            bestdist < 32768,
            bestdist == 0 ==> bestlength == 1,
            bestdist != 0 ==> 2 <= bestlength && valid_match(array@, pos as int, bestdist as int, bestlength as int),
            chain_counter <= 8192,
            !first_done ==> dist == d1 && bestlength == 1,
            first_done ==> forall|m: int|
                2 <= m <= limit && #[trigger] valid_match(array@, pos as int, d1, m) ==> m <= bestlength,
            sub@.len() == sub0.len(),
            forall|k: int|
                0 <= k < sub0.len() ==> #[trigger] sub_ok_at(
                    array@,
                    pos as int,
                    sub@,
                    sub0,
                    has_sub,
                    bestdist as int,
                    bestlength as int,
                    k,
                ),
        ensures
            first_done || dist >= crate::util::WINDOW_SIZE,
            no_cache ==> chain_search(*h, array@, pos as int, limit as int) == bestlength,
        decreases chain_counter,
    {
        let ghost w0 = chain_walk(
            *h,
            array@,
            pos as int,
            limit as int,
            p as int,
            dist as int,
            use_secondary,
            bestlength as int,
            chain_counter as nat,
        );
        let ghost m0 = match_len(array@, pos as int, dist as int, limit as int);
        let ghost best0 = bestlength as int;
        let mut currentlength: usize = 0;
        if dist > 0 {
            let match_pos = pos - dist;
            if pos + bestlength >= blockend || array[pos + bestlength] == array[match_pos + bestlength] {
                currentlength = match_length(h, array, pos, dist, limit, Ghost(hend), Ghost(ws));
                proof {
                    lemma_match_len(array@, pos as int, dist as int, 0, limit as int, currentlength as int);
                }
            } else {
                proof {
                    lemma_match_len_cap(array@, pos as int, dist as int, 0, limit as int, bestlength as int);
                }
            }
            if currentlength > bestlength {
                let ghost before = sub@;
                if has_sub {
                    fill_sublen(sub, bestlength + 1, currentlength + 1, dist as u16);
                }
                proof {
                    assert forall|k: int| 0 <= k < sub0.len() implies #[trigger] sub_ok_at(
                        array@,
                        pos as int,
                        sub@,
                        sub0,
                        has_sub,
                        dist as int,
                        currentlength as int,
                        k,
                    ) by {
                        assert(sub_ok_at(array@, pos as int, before, sub0, has_sub, bestdist as int, bestlength as int, k));
                        if has_sub && 2 <= k <= currentlength {
                            if k > bestlength {
                                lemma_valid_match_shorter(array@, pos as int, dist as int, currentlength as int, k);
                            }
                        }
                    }
                }
                bestdist = dist;
                bestlength = currentlength;
                if currentlength >= limit {
                    proof {
                        first_done = true;
                        assert(w0 == bestlength);
                    }
                    break;
                }
            }
        }
        proof {
            if !first_done {
                assert forall|m: int|
                    2 <= m <= limit && #[trigger] valid_match(array@, pos as int, d1, m) implies m <= bestlength by {
                    assert(match_byte_ok(array@, pos as int, d1, 1));
                    if currentlength < m {
                        assert(match_byte_ok(array@, pos as int, d1, currentlength as int));
                    }
                }
            }
            first_done = true;
        }
        let curr_p_idx = (p as usize) & 32767;
        proof {
            let pu = p as usize;
            crate::util::lemma_mask_low_bits(pu);
        }
        if !use_secondary && bestlength >= h.same[hpos] as usize && h.val2 == h.hashval2[curr_p_idx] {
            use_secondary = true;
        }
        let pp_next_idx = curr_p_idx;
        let p_next = if use_secondary {
            h.prev2[curr_p_idx]
        } else {
            h.prev[curr_p_idx]
        };
        proof {
            assert(m0 > best0 ==> m0 == bestlength);
            assert(m0 <= best0 ==> bestlength == best0);
        }
        proof {
            if p_next == p {
                assert(w0 == bestlength);
            }
        }
        if p_next == p {
            break;
        }
        let ghost old_p = p;
        let ghost old_dist = dist;
        p = p_next;
        let next_p_idx = (p as usize) & 32767;
        proof {
            let pu = p as usize;
            crate::util::lemma_mask_low_bits(pu);
        }
        dist = dist + if next_p_idx < pp_next_idx {
            pp_next_idx - next_p_idx
        } else {
            (32768 - next_p_idx) + pp_next_idx
        };
        proof {
            lemma_chain_step(
                *h,
                array@,
                hend,
                ws,
                pos as int,
                if use_secondary {
                    h.prev2@
                } else {
                    h.prev@
                },
                old_p as int,
                old_dist as int,
                p as int,
                dist as int,
            );
        }
        chain_counter = chain_counter.saturating_sub(1);
        proof {
            assert(w0 == chain_walk(
                *h,
                array@,
                pos as int,
                limit as int,
                p as int,
                dist as int,
                use_secondary,
                bestlength as int,
                chain_counter as nat,
            ));
        }
        if chain_counter == 0 {
            break;
        }
    }
    state.store_in_longest_match_cache(pos, limit, sub, has_sub, bestdist as u16, bestlength as u16);
    (bestdist as u16, bestlength as u16)
}

/// Finds the longest match for the given position in the array.
/// Returns (distance, length).
pub fn find_longest_match(
    state: &mut ZopfliBlockState<'_>,
    h: &ZopfliHash,
    array: &[u8],
    pos: usize,
    limit: usize,
    sublen: Option<&mut [u16]>,
) -> (r: (u16, u16))
    requires
        old(state).blockend <= array@.len(),
        old(state).cache_ready(pos as int),
        old(state).lmc is Some ==> (sublen matches Some(s) ==> s@.len() >= 259),
        hash_ready(*h, array@, pos as int),
    ensures
        final(state).options == old(state).options,
        final(state).blockstart == old(state).blockstart,
        final(state).blockend == old(state).blockend,
        sublen matches Some(s) ==> final(s)@.len() == s@.len(),
        old(state).lmc is None ==> ({
            let d = r.0 as int;
            let l = r.1 as int;
            let blockend = old(state).blockend as int;
            &&& final(state).lmc is None
            &&& (pos >= blockend || blockend - pos < 3) ==> d == 0 && l == 0
            &&& d == 0 ==> l <= 1
            &&& d != 0 ==> 2 <= l <= search_limit(limit as int, pos as int, blockend) && valid_match(
                array@,
                pos as int,
                d,
                l,
            )
            &&& (pos < blockend && blockend - pos >= 3 && chain_started(*h)) ==> l == chain_search(
                *h,
                array@,
                pos as int,
                search_limit(limit as int, pos as int, blockend),
            )
            &&& (pos < blockend && blockend - pos >= 3 && chain_started(*h)) ==> forall|m: int|
                2 <= m <= search_limit(limit as int, pos as int, blockend) && #[trigger] valid_match(
                    array@,
                    pos as int,
                    first_candidate(*h),
                    m,
                ) ==> m <= l
            &&& sublen matches Some(s) ==> forall|k: int|
                0 <= k < s@.len() ==> #[trigger] sub_ok_at(array@, pos as int, final(s)@, s@, true, d, l, k)
        }),
{
    match sublen {
        Some(s) => find_longest_match_in(state, h, array, pos, limit, s, true),
        None => {
            let mut empty: Vec<u16> = Vec::new();
            find_longest_match_in(state, h, array, pos, limit, empty.as_mut_slice(), false)
        },
    }
}

/// The score of a match: distances past 1024 cost one length unit.
pub open spec fn length_score(length: int, distance: int) -> i32 {
    (if distance > 1024 {
        if length > 0 {
            length - 1
        } else {
            0
        }
    } else {
        length
    }) as i32
}

/// Gets a score of the length given the distance. Typically, the score of the length
/// is the length itself, but if the distance is very long, decrease the score of the
/// length a bit to make up for the fact that long distances use large amounts of
/// extra bits.
fn get_length_score(length: usize, distance: usize) -> (r: i32)
    ensures
        r == length_score(length as int, distance as int),
{
    let score = if distance > 1024 {
        length.saturating_sub(1)
    } else {
        length
    };
    score as i32
}

/// Number of input bytes that command `i` stands for.
pub open spec fn cmd_len(litlens: Seq<u16>, dists: Seq<u16>, i: int) -> int {
    if dists[i] == 0 {
        1
    } else {
        litlens[i] as int
    }
}

/// Number of input bytes that the commands `lo..hi` stand for.
pub open spec fn parsed_len(litlens: Seq<u16>, dists: Seq<u16>, lo: int, hi: int) -> int
    decreases hi - lo,
{
    if hi <= lo {
        0
    } else {
        parsed_len(litlens, dists, lo, hi - 1) + cmd_len(litlens, dists, hi - 1)
    }
}

/// Command `i`, which starts at byte `start` of `data`, reproduces the bytes it stands
/// for and records its start.
pub open spec fn cmd_ok(data: Seq<u8>, litlens: Seq<u16>, dists: Seq<u16>, pos: Seq<u32>, i: int, start: int) -> bool {
    &&& pos[i] == start as u32
    &&& if dists[i] == 0 {
        0 <= start < data.len() && litlens[i] == data[start] as u16
    } else {
        3 <= litlens[i] <= 258 && valid_match(data, start, dists[i] as int, litlens[i] as int)
    }
}

/// The commands `lo..hi`, read one after the other from byte `start`, reproduce
/// `data` from `start` on.
pub open spec fn parse_ok(
    data: Seq<u8>,
    litlens: Seq<u16>,
    dists: Seq<u16>,
    pos: Seq<u32>,
    lo: int,
    hi: int,
    start: int,
) -> bool {
    forall|i: int|
        lo <= i < hi ==> #[trigger] cmd_ok(data, litlens, dists, pos, i, start + parsed_len(litlens, dists, lo, i))
}

/// Appending a command keeps the lengths of the earlier ones.
proof fn lemma_parsed_len_push(litlens: Seq<u16>, dists: Seq<u16>, l: u16, d: u16, lo: int, hi: int)
    requires
        0 <= lo <= hi <= litlens.len(),
        litlens.len() == dists.len(),
    ensures
        parsed_len(litlens.push(l), dists.push(d), lo, hi) == parsed_len(litlens, dists, lo, hi),
    decreases hi - lo,
{
    if hi > lo {
        lemma_parsed_len_push(litlens, dists, l, d, lo, hi - 1);
    }
}

/// Appending a command that starts where the others end keeps the parse correct.
pub proof fn lemma_parse_push(
    data: Seq<u8>,
    litlens: Seq<u16>,
    dists: Seq<u16>,
    pos: Seq<u32>,
    lo: int,
    start: int,
    l: u16,
    d: u16,
    p: u32,
)
    requires
        0 <= lo <= litlens.len(),
        litlens.len() == dists.len(),
        dists.len() == pos.len(),
        parse_ok(data, litlens, dists, pos, lo, litlens.len() as int, start),
        cmd_ok(
            data,
            litlens.push(l),
            dists.push(d),
            pos.push(p),
            litlens.len() as int,
            start + parsed_len(litlens, dists, lo, litlens.len() as int),
        ),
    ensures
        parse_ok(data, litlens.push(l), dists.push(d), pos.push(p), lo, litlens.len() + 1int, start),
        parsed_len(litlens.push(l), dists.push(d), lo, litlens.len() + 1int) == parsed_len(
            litlens,
            dists,
            lo,
            litlens.len() as int,
        ) + cmd_len(litlens.push(l), dists.push(d), litlens.len() as int),
{
    let n = litlens.len() as int;
    let l2 = litlens.push(l);
    let d2 = dists.push(d);
    let p2 = pos.push(p);
    lemma_parsed_len_push(litlens, dists, l, d, lo, n);
    assert forall|i: int| lo <= i < n + 1 implies #[trigger] cmd_ok(data, l2, d2, p2, i, start + parsed_len(l2, d2, lo, i)) by {
        if i < n {
            lemma_parsed_len_push(litlens, dists, l, d, lo, i);
            assert(cmd_ok(data, litlens, dists, pos, i, start + parsed_len(litlens, dists, lo, i)));
            assert(l2[i] == litlens[i] && d2[i] == dists[i] && p2[i] == pos[i]);
        }
    }
}

/// Hashes the positions after `i` up to `i + count`, keeping the hash invariant.
#[verifier::loop_isolation(false)]
pub(crate) fn skip_positions(
    hash: &mut ZopfliHash,
    in_data: &[u8],
    i: usize,
    count: usize,
    inend: usize,
    Ghost(ws): Ghost<int>,
) -> (r: usize)
    requires
        old(hash).hash_inv(in_data@, inend as int, ws, i as int),
        i + count < inend <= in_data@.len(),
    ensures
        r == i + count,
        final(hash).hash_inv(in_data@, inend as int, ws, r as int),
{
    let mut k = i;
    while k < i + count
        invariant
            i <= k <= i + count,
            hash.hash_inv(in_data@, inend as int, ws, k as int),
        decreases i + count - k,
    {
        k = k + 1;
        let ghost h0 = *hash;
        hash.update(in_data, k, inend);
        proof {
            lemma_update_preserves_inv(h0, *hash, in_data@, inend as int, ws, k as int);
        }
    }
    k
}

/// Greedy and lazy matching LZ77 parsing.
#[verifier::loop_isolation(false)]
#[verifier::rlimit(80)]
pub fn lz77_greedy(
    state: &mut ZopfliBlockState<'_>,
    in_data: &[u8],
    instart: usize,
    inend: usize,
    store: &mut Lz77Store<'_>,
)
    requires
        instart <= inend <= in_data@.len(),
        old(store).wf(),
        old(store).litlens@.len() + (inend - instart) < 0xffff_fffe,
        old(state).lmc is None,
    ensures
        final(state).options == old(state).options,
        final(state).blockstart == instart,
        final(state).blockend == inend,
        final(state).lmc is None,
        final(store).wf(),
        final(store).data == old(store).data,
        ({
            let n0 = old(store).litlens@.len() as int;
            let n = final(store).litlens@.len() as int;
            &&& n0 <= n
            &&& final(store).litlens@.subrange(0, n0) == old(store).litlens@
            &&& final(store).dists@.subrange(0, n0) == old(store).dists@
            &&& final(store).pos@.subrange(0, n0) == old(store).pos@
            &&& parse_ok(
                in_data@,
                final(store).litlens@,
                final(store).dists@,
                final(store).pos@,
                n0,
                n,
                instart as int,
            )
            &&& instart + parsed_len(final(store).litlens@, final(store).dists@, n0, n) == inend
        }),
{
    state.blockstart = instart;
    state.blockend = inend;
    let ghost n0 = store.litlens@.len() as int;
    let ghost l0 = store.litlens@;
    let ghost d0 = store.dists@;
    let ghost p0 = store.pos@;
    let mut prev_length: u16 = 0;
    let mut prev_match: u16 = 0;
    let mut match_available = false;
    if instart == inend {
        proof {
            assert(store.litlens@.subrange(0, n0) == l0);
            assert(store.dists@.subrange(0, n0) == d0);
            assert(store.pos@.subrange(0, n0) == p0);
        }
        return;
    }
    let window_size = crate::util::WINDOW_SIZE;
    let mut hash = ZopfliHash::new(window_size);
    let windowstart = if instart > window_size {
        instart - window_size
    } else {
        0
    };
    let ghost ws = windowstart as int;
    proof {
        lemma_fresh_hash_inv(hash, in_data@, inend as int, ws);
    }
    hash.warmup(in_data, windowstart, inend);
    let mut k = windowstart;
    while k < instart
        invariant
            ws <= k <= instart,
            hash.hash_inv(in_data@, inend as int, ws, k - 1),
        decreases instart - k,
    {
        let ghost h0 = hash;
        hash.update(in_data, k, inend);
        proof {
            lemma_update_preserves_inv(h0, hash, in_data@, inend as int, ws, k as int);
        }
        k = k + 1;
    }
    let mut i = instart;
    while i < inend
        invariant
            instart <= i <= inend <= in_data@.len(),
            hash.hash_inv(in_data@, inend as int, ws, i - 1),
            state.blockstart == instart,
            state.blockend == inend,
            state.options == old(state).options,
            state.lmc is None,
            store.wf(),
            store.data == old(store).data,
            n0 <= store.litlens@.len(),
            store.litlens@.subrange(0, n0) == l0,
            store.dists@.subrange(0, n0) == d0,
            store.pos@.subrange(0, n0) == p0,
            store.litlens@.len() - n0 <= (if match_available {
                i - 1
            } else {
                i as int
            }) - instart,
            parse_ok(in_data@, store.litlens@, store.dists@, store.pos@, n0, store.litlens@.len() as int, instart as int),
            instart + parsed_len(store.litlens@, store.dists@, n0, store.litlens@.len() as int) == (if match_available {
                i - 1
            } else {
                i as int
            }),
            match_available ==> instart < i && 3 <= prev_length < 258 && (i - 1) + prev_length <= inend
                && prev_match != 0 && valid_match(in_data@, i - 1, prev_match as int, prev_length as int),
        decreases inend - i, if match_available {
            0int
        } else {
            1int
        },
    {
        let ghost h0 = hash;
        hash.update(in_data, i, inend);
        proof {
            lemma_update_preserves_inv(h0, hash, in_data@, inend as int, ws, i as int);
            assert(hash.hash_inv(in_data@, inend as int, ws, i as int));
        }
        let mut temp_sublen = [0u16; 259];
        let res = find_longest_match(state, &hash, in_data, i, crate::util::MAX_MATCH, Some(&mut temp_sublen));
        let mut dist = res.0;
        let mut leng = res.1;
        let lengthscore = get_length_score(leng as usize, dist as usize);
        let prevlengthscore = get_length_score(prev_length as usize, prev_match as usize);
        proof {
            assert(leng as int <= 258);
            assert(lengthscore <= leng);
            assert(prevlengthscore <= prev_length);
        }
        let ghost ls = store.litlens@;
        let ghost ds = store.dists@;
        let ghost ps = store.pos@;
        if match_available {
            match_available = false;
            if lengthscore > prevlengthscore + 1 {
                store.store_lit_len_dist(in_data[i - 1] as u16, 0, i - 1);
                proof {
                    lemma_parse_push(in_data@, ls, ds, ps, n0, instart as int, in_data@[i - 1] as u16, 0, (i - 1) as u32);
                }
                if lengthscore >= MIN_MATCH as i32 && (leng as usize) < crate::util::MAX_MATCH {
                    match_available = true;
                    prev_length = leng;
                    prev_match = dist;
                    i = i + 1;
                    continue;
                }
            } else {
                leng = prev_length;
                dist = prev_match;
                store.store_lit_len_dist(leng, dist, i - 1);
                proof {
                    lemma_parse_push(in_data@, ls, ds, ps, n0, instart as int, leng, dist, (i - 1) as u32);
                }
                i = skip_positions(&mut hash, in_data, i, (leng - 2) as usize, inend, Ghost(ws));
                i = i + 1;
                continue;
            }
        } else if lengthscore >= MIN_MATCH as i32 && (leng as usize) < crate::util::MAX_MATCH {
            match_available = true;
            prev_length = leng;
            prev_match = dist;
            i = i + 1;
            continue;
        }
        let ghost ls = store.litlens@;
        let ghost ds = store.dists@;
        let ghost ps = store.pos@;
        if lengthscore >= MIN_MATCH as i32 {
            store.store_lit_len_dist(leng, dist, i);
            proof {
                lemma_parse_push(in_data@, ls, ds, ps, n0, instart as int, leng, dist, i as u32);
            }
        } else {
            leng = 1;
            store.store_lit_len_dist(in_data[i] as u16, 0, i);
            proof {
                lemma_parse_push(in_data@, ls, ds, ps, n0, instart as int, in_data@[i as int] as u16, 0, i as u32);
            }
        }
        i = skip_positions(&mut hash, in_data, i, (leng - 1) as usize, inend, Ghost(ws));
        i = i + 1;
    }
}

/// The output after copying `len` bytes from `dist` bytes back, one byte at a time
/// (so that a copy may overlap the bytes it produces).
pub open spec fn copy_back(out: Seq<u8>, dist: int, len: nat) -> Seq<u8>
    decreases len,
{
    if len == 0 {
        out
    } else {
        let o = copy_back(out, dist, (len - 1) as nat);
        o.push(o[o.len() - dist])
    }
}

/// What an LZ77 decoder produces from the commands `lo..hi`, after `window`.
pub open spec fn lz77_decode(window: Seq<u8>, litlens: Seq<u16>, dists: Seq<u16>, lo: int, hi: int) -> Seq<u8>
    decreases hi - lo,
{
    if hi <= lo {
        window
    } else {
        let o = lz77_decode(window, litlens, dists, lo, hi - 1);
        if dists[hi - 1] == 0 {
            o.push(litlens[hi - 1] as u8)
        } else {
            copy_back(o, dists[hi - 1] as int, litlens[hi - 1] as nat)
        }
    }
}

proof fn lemma_copy_back_match(data: Seq<u8>, s: int, dist: int, len: int, m: int)
    requires
        valid_match(data, s, dist, len),
        0 <= m <= len,
    ensures
        copy_back(data.subrange(0, s), dist, m as nat) == data.subrange(0, s + m),
    decreases m,
{
    if m > 0 {
        lemma_copy_back_match(data, s, dist, len, m - 1);
        let o = data.subrange(0, s + m - 1);
        assert(match_byte_ok(data, s, dist, m - 1));
        assert(o[o.len() - dist] == data[s + m - 1]);
        assert(o.push(data[s + m - 1]) =~= data.subrange(0, s + m));
    }
}

/// A correct parse decodes back to its input: decoding the commands `lo..hi` after the
/// bytes before `start` gives back `data` up to the end of the parsed bytes.
pub proof fn lemma_parse_decodes(
    data: Seq<u8>,
    litlens: Seq<u16>,
    dists: Seq<u16>,
    pos: Seq<u32>,
    lo: int,
    hi: int,
    start: int,
)
    requires
        0 <= lo <= hi <= litlens.len(),
        litlens.len() == dists.len(),
        dists.len() == pos.len(),
        0 <= start <= data.len(),
        parse_ok(data, litlens, dists, pos, lo, hi, start),
    ensures
        start + parsed_len(litlens, dists, lo, hi) <= data.len(),
        lz77_decode(data.subrange(0, start), litlens, dists, lo, hi) == data.subrange(
            0,
            start + parsed_len(litlens, dists, lo, hi),
        ),
    decreases hi - lo,
{
    if hi > lo {
        assert(parse_ok(data, litlens, dists, pos, lo, hi - 1, start)) by {
            assert forall|i: int| lo <= i < hi - 1 implies #[trigger] cmd_ok(
                data,
                litlens,
                dists,
                pos,
                i,
                start + parsed_len(litlens, dists, lo, i),
            ) by {
                assert(cmd_ok(data, litlens, dists, pos, i, start + parsed_len(litlens, dists, lo, i)));
            }
        }
        lemma_parse_decodes(data, litlens, dists, pos, lo, hi - 1, start);
        let s = start + parsed_len(litlens, dists, lo, hi - 1);
        assert(cmd_ok(data, litlens, dists, pos, hi - 1, s));
        if dists[hi - 1] == 0 {
            assert(data.subrange(0, s).push(litlens[hi - 1] as u8) =~= data.subrange(0, s + 1));
        } else {
            lemma_copy_back_match(data, s, dists[hi - 1] as int, litlens[hi - 1] as int, litlens[hi - 1] as int);
        }
    }
}

} // verus!
