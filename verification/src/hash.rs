//! Rolling hashes over the sliding window, used to find earlier occurrences of the
//! three bytes at a position.
//!
//! Slot `s` of the window arrays belongs to the most recent position `q` with
//! `q % 32768 == s`. The invariant `hash_inv` says what the arrays hold for every
//! position of the window that has been hashed.
use crate::util::{MIN_MATCH, WINDOW_MASK};
use vstd::prelude::*;

verus! {

/// Marks a hash value with no occurrence yet.
pub const HASH_SENTINEL: i32 = -1;

/// Represents the rolling and secondary hashes used in the LZ77 compressor.
#[derive(Debug, Clone)]
pub struct ZopfliHash {
    /// Hash value to index of its most recent occurrence.
    pub head: Vec<i32>,
    /// Index to index of previous occurrence of same hash.
    pub prev: Vec<u16>,
    /// Index to hash value at this index.
    pub hashval: Vec<i32>,
    /// Current rolling hash value.
    pub val: i32,
    /// Secondary hash value to index of its most recent occurrence.
    pub head2: Vec<i32>,
    /// Index to index of previous occurrence of same secondary hash.
    pub prev2: Vec<u16>,
    /// Index to secondary hash value at this index.
    pub hashval2: Vec<i32>,
    /// Current secondary rolling hash value.
    pub val2: i32,
    /// Amount of repetitions of same byte after this index.
    pub same: Vec<u16>,
}

/// One step of the rolling hash: shift in a byte and keep 15 bits.
pub open spec fn hash_step(v: i32, c: u8) -> i32 {
    ((v << 5i32) ^ (c as i32)) & 32767i32
}

/// The secondary hash of a position from its run length and primary hash.
pub open spec fn hash2_of(same_val: u16, v: i32) -> i32 {
    ((((same_val as i32 - 3i32) as i32) & 255i32) ^ v) & 32767i32
}

/// The byte that `update` shifts into the hash at `pos`.
pub open spec fn update_byte(array: Seq<u8>, pos: int, end: int) -> u8 {
    if pos + 3 <= end {
        array[pos + 2]
    } else {
        0
    }
}

/// Number of bytes equal to `b` starting at `start`, stopping at `limit`.
pub open spec fn run_len(array: Seq<u8>, start: int, limit: int, b: u8) -> int
    decreases limit - start,
{
    if 0 <= start < limit && start < array.len() && array[start] == b {
        1 + run_len(array, start + 1, limit, b)
    } else {
        0
    }
}

/// The repetition count `update` records for `pos`, given the counts before.
pub open spec fn same_amount(same: Seq<u16>, array: Seq<u8>, pos: int, end: int) -> int {
    let prev_same = same[(pos - 1) % 32768];
    let a0 = if pos > 0 && prev_same > 1 {
        prev_same - 1
    } else {
        0
    };
    let limit = if end < pos + 65536 {
        end
    } else {
        pos + 65536
    };
    if pos + a0 + 1 < limit {
        a0 + run_len(array, pos + a0 + 1, limit, array[pos])
    } else {
        a0
    }
}

/// The link a slot receives: the most recent slot with hash `v`, if it still holds `v`.
pub open spec fn chain_link(head: Seq<i32>, hashval: Seq<i32>, v: i32, hpos: int) -> u16 {
    let hd = head[v as int];
    if hd != -1 && hashval[hd as int] == v {
        hd as u16
    } else {
        hpos as u16
    }
}

/// The position of the window ending at `cur` that slot `s` belongs to.
pub open spec fn wpos(s: int, cur: int) -> int {
    cur - ((cur - s) % 32768)
}

/// A chain link of slot `s`, owned by position `q`, is a self loop or leads to a
/// position at or after `ws`.
pub open spec fn link_ok(prev: Seq<u16>, s: int, q: int, ws: int) -> bool {
    prev[s] == s || q - ((s - prev[s]) % 32768) >= ws
}

/// The `n` bytes after `q` all equal the byte at `q`, and lie before `end`.
pub open spec fn same_ok(array: Seq<u8>, end: int, q: int, n: int) -> bool {
    forall|j: int| q < j <= q + n ==> #[trigger] repeats_at(array, end, q, j)
}

/// Position `j` lies before `end` and holds the byte at `q`.
pub open spec fn repeats_at(array: Seq<u8>, end: int, q: int, j: int) -> bool {
    j < end && array[j] == array[q]
}

proof fn lemma_run_len(array: Seq<u8>, start: int, limit: int, b: u8)
    requires
        0 <= start,
    ensures
        0 <= run_len(array, start, limit, b),
        start <= limit ==> run_len(array, start, limit, b) <= limit - start,
        run_len(array, start, limit, b) > 0 ==> start + run_len(array, start, limit, b) <= array.len(),
        run_len(array, start, limit, b) > 0 ==> start + run_len(array, start, limit, b) <= limit,
        forall|j: int|
            start <= j < start + run_len(array, start, limit, b) ==> #[trigger] array[j] == b,
    decreases limit - start,
{
    if 0 <= start < limit && start < array.len() && array[start] == b {
        lemma_run_len(array, start + 1, limit, b);
    }
}

proof fn lemma_hash_ranges(v: i32, c: u8, same_val: u16)
    ensures
        0 <= hash_step(v, c) <= 32767,
        0 <= hash2_of(same_val, hash_step(v, c)) <= 32767,
{
    let h = hash_step(v, c);
    assert(0 <= h <= 32767) by (bit_vector)
        requires
            h == ((v << 5i32) ^ (c as i32)) & 32767i32,
    ;
    let t = (same_val as i32 - 3i32) as i32;
    assert(0 <= ((t & 255i32) ^ h) & 32767i32 <= 32767) by (bit_vector);
}

/// Moving the end of the window by one position moves only the slot of the new position.
proof fn lemma_wpos_step(s: int, pos: int)
    requires
        0 <= s < 32768,
        0 <= pos,
    ensures
        s == pos % 32768 ==> wpos(s, pos) == pos && wpos(s, pos - 1) == pos - 32768,
        s != pos % 32768 ==> wpos(s, pos) == wpos(s, pos - 1),
        (pos - s) % 32768 == (pos % 32768 - s) % 32768,
{
    let hp = pos % 32768;
    assert(pos == 32768 * (pos / 32768) + hp);
    if s == hp {
        assert((pos - s) % 32768 == 0);
        assert((pos - 1 - s) % 32768 == 32767);
    } else if s < hp {
        assert((pos - s) % 32768 == hp - s);
        assert((pos - 1 - s) % 32768 == hp - s - 1);
    } else {
        assert((pos - s) % 32768 == hp - s + 32768);
        assert((pos - 1 - s) % 32768 == hp - s + 32767);
    }
}

/// The relation between a hash and the hash after `update(array, pos, end)`.
pub open spec fn updated(h0: ZopfliHash, h1: ZopfliHash, array: Seq<u8>, pos: int, end: int) -> bool {
    let hpos = pos % 32768;
    let v = hash_step(h0.val, update_byte(array, pos, end));
    let hashval = h0.hashval@.update(hpos, v);
    let amount = same_amount(h0.same@, array, pos, end);
    let v2 = hash2_of(amount as u16, v);
    let hashval2 = h0.hashval2@.update(hpos, v2);
    &&& h1.val == v
    &&& h1.hashval@ == hashval
    &&& h1.prev@ == h0.prev@.update(hpos, chain_link(h0.head@, hashval, v, hpos))
    &&& h1.head@ == h0.head@.update(v as int, hpos as i32)
    &&& 0 <= amount < 65536
    &&& h1.same@ == h0.same@.update(hpos, amount as u16)
    &&& h1.val2 == v2
    &&& h1.hashval2@ == hashval2
    &&& h1.prev2@ == h0.prev2@.update(hpos, chain_link(h0.head2@, hashval2, v2, hpos))
    &&& h1.head2@ == h0.head2@.update(v2 as int, hpos as i32)
}

impl ZopfliHash {
    /// The arrays have the sizes of a 32768-byte window, and the heads point into it.
    pub open spec fn wf(&self) -> bool {
        &&& self.head@.len() == 65536
        &&& self.head2@.len() == 65536
        &&& self.prev@.len() == 32768
        &&& self.hashval@.len() == 32768
        &&& self.prev2@.len() == 32768
        &&& self.hashval2@.len() == 32768
        &&& self.same@.len() == 32768
        &&& forall|i: int| 0 <= i < 65536 ==> -1 <= #[trigger] self.head@[i] < 32768
        &&& forall|i: int| 0 <= i < 65536 ==> -1 <= #[trigger] self.head2@[i] < 32768
        &&& forall|i: int| 0 <= i < 32768 ==> #[trigger] self.prev@[i] < 32768
        &&& forall|i: int| 0 <= i < 32768 ==> #[trigger] self.prev2@[i] < 32768
    }

    /// What slot `s` holds when positions `ws..=cur` have been hashed: the initial
    /// values if its window position was never hashed, else valid chain links and a
    /// true repetition count.
    pub open spec fn slot_ok(&self, array: Seq<u8>, end: int, ws: int, cur: int, s: int) -> bool {
        if wpos(s, cur) < ws {
            &&& self.same@[s] == 0
            &&& self.hashval@[s] == -1
            &&& self.hashval2@[s] == -1
            &&& self.prev@[s] == s
            &&& self.prev2@[s] == s
        } else {
            &&& link_ok(self.prev@, s, wpos(s, cur), ws)
            &&& link_ok(self.prev2@, s, wpos(s, cur), ws)
            &&& same_ok(array, end, wpos(s, cur), self.same@[s] as int)
        }
    }

    /// The hash has been updated at every position `ws..=cur` of `array` (with the
    /// logical end `end`), and at no other.
    pub open spec fn hash_inv(&self, array: Seq<u8>, end: int, ws: int, cur: int) -> bool {
        &&& self.wf()
        &&& 0 <= ws <= cur + 1 <= end <= array.len()
        &&& forall|s: int| 0 <= s < 32768 ==> #[trigger] self.slot_ok(array, end, ws, cur, s)
    }

    /// Creates and initializes a new `ZopfliHash` with the specified window size.
    pub fn new(window_size: usize) -> (r: Self)
        ensures
            r.head@ == Seq::new(65536, |i: int| -1i32),
            r.head2@ == Seq::new(65536, |i: int| -1i32),
            r.prev@ == Seq::new(window_size as nat, |i: int| i as u16),
            r.prev2@ == Seq::new(window_size as nat, |i: int| i as u16),
            r.hashval@ == Seq::new(window_size as nat, |i: int| -1i32),
            r.hashval2@ == Seq::new(window_size as nat, |i: int| -1i32),
            r.same@ == Seq::new(window_size as nat, |i: int| 0u16),
            r.val == 0,
            r.val2 == 0,
    {
        let mut head: Vec<i32> = Vec::new();
        let mut i: usize = 0;
        while i < 65536
            invariant
                i <= 65536,
                head@ == Seq::new(i as nat, |k: int| -1i32),
            decreases 65536 - i,
        {
            head.push(-1);
            i = i + 1;
        }
        let head2 = head.clone();
        let mut prev: Vec<u16> = Vec::new();
        let mut hashval: Vec<i32> = Vec::new();
        let mut same: Vec<u16> = Vec::new();
        let mut k: usize = 0;
        while k < window_size
            invariant
                k <= window_size,
                prev@ == Seq::new(k as nat, |j: int| j as u16),
                hashval@ == Seq::new(k as nat, |j: int| -1i32),
                same@ == Seq::new(k as nat, |j: int| 0u16),
            decreases window_size - k,
        {
            prev.push(k as u16);
            hashval.push(-1);
            same.push(0);
            k = k + 1;
        }
        let prev2 = prev.clone();
        let hashval2 = hashval.clone();
        proof {
            assert(head2@ == head@);
            assert(prev2@ == prev@);
            assert(hashval2@ == hashval@);
        }
        ZopfliHash { head, prev, hashval, val: 0, head2, prev2, hashval2, val2: 0, same }
    }

    /// Prepopulates the rolling hash with the bytes at `pos` and `pos + 1` that lie
    /// before `end`.
    pub fn warmup(&mut self, array: &[u8], pos: usize, end: usize)
        ensures
            final(self).head == old(self).head,
            final(self).prev == old(self).prev,
            final(self).hashval == old(self).hashval,
            final(self).head2 == old(self).head2,
            final(self).prev2 == old(self).prev2,
            final(self).hashval2 == old(self).hashval2,
            final(self).val2 == old(self).val2,
            final(self).same == old(self).same,
            ({
                let v1 = if pos < end && pos < array@.len() {
                    hash_step(old(self).val, array@[pos as int])
                } else {
                    old(self).val
                };
                final(self).val == if pos + 1 < end && pos + 1 < array@.len() {
                    hash_step(v1, array@[pos + 1])
                } else {
                    v1
                }
            }),
    {
        if pos < end && pos < array.len() {
            let c = array[pos];
            self.val = ((self.val << 5) ^ (c as i32)) & 32767;
        }
        if pos < usize::MAX && pos + 1 < end && pos + 1 < array.len() {
            let c = array[pos + 1];
            self.val = ((self.val << 5) ^ (c as i32)) & 32767;
        }
    }

    /// Updates the hash values for position `pos` of `array`, whose logical end is `end`.
    pub fn update(&mut self, array: &[u8], pos: usize, end: usize)
        requires
            old(self).wf(),
            end <= array@.len(),
            pos < end,
        ensures
            final(self).wf(),
            updated(*old(self), *final(self), array@, pos as int, end as int),
            0 <= final(self).val < 32768,
    {
        let hpos = pos & WINDOW_MASK;
        proof {
            crate::util::lemma_mask_low_bits(pos);
        }
        let byte: u8 = if end - pos >= MIN_MATCH {
            array[pos + MIN_MATCH - 1]
        } else {
            0
        };
        let ghost h0 = *self;
        let ghost amount_spec = same_amount(h0.same@, array@, pos as int, end as int);
        proof {
            lemma_hash_ranges(h0.val, byte, amount_spec as u16);
        }
        self.val = ((self.val << 5) ^ (byte as i32)) & 32767;
        self.hashval.set(hpos, self.val);
        let val_idx = self.val as usize;
        let val_head = self.head[val_idx];
        if val_head != HASH_SENTINEL {
            let val_head_idx = val_head as usize;
            if self.hashval[val_head_idx] == self.val {
                self.prev.set(hpos, val_head as u16);
            } else {
                self.prev.set(hpos, hpos as u16);
            }
        } else {
            self.prev.set(hpos, hpos as u16);
        }
        self.head.set(val_idx, hpos as i32);

        let mut amount: usize = 0;
        if pos > 0 {
            let prev_same_idx = (pos - 1) & WINDOW_MASK;
            proof {
                let pm = (pos - 1) as usize;
                crate::util::lemma_mask_low_bits(pm);
            }
            let prev_same = self.same[prev_same_idx];
            if prev_same > 1 {
                amount = (prev_same as usize) - 1;
            }
        }
        let b = array[pos];
        let limit: usize = if end - pos < 65536 {
            end
        } else {
            pos + 65536
        };
        let ghost a0 = amount as int;
        if amount + 1 < limit - pos {
            let ghost start = pos + amount + 1;
            let mut k: usize = pos + amount + 1;
            while k < limit
                invariant
                    start <= k <= limit <= end <= array@.len(),
                    start == pos + a0 + 1,
                    0 <= a0,
                    limit - pos <= 65536,
                    amount == a0 + (k - start),
                    b == array@[pos as int],
                    a0 + run_len(array@, start, limit as int, b) == amount + run_len(
                        array@,
                        k as int,
                        limit as int,
                        b,
                    ),
                ensures
                    amount == a0 + run_len(array@, start, limit as int, b),
                decreases limit - k,
            {
                if array[k] == b {
                    amount = amount + 1;
                    k = k + 1;
                } else {
                    assert(run_len(array@, k as int, limit as int, b) == 0);
                    break;
                }
            }
        }
        proof {
            assert(amount == amount_spec);
        }
        self.same.set(hpos, amount as u16);
        let same_val = self.same[hpos];
        self.val2 = ((((same_val as i32) - (MIN_MATCH as i32)) & 255) ^ self.val) & 32767;
        self.hashval2.set(hpos, self.val2);
        let val2_idx = self.val2 as usize;
        let val_head2 = self.head2[val2_idx];
        if val_head2 != HASH_SENTINEL {
            let val_head2_idx = val_head2 as usize;
            if self.hashval2[val_head2_idx] == self.val2 {
                self.prev2.set(hpos, val_head2 as u16);
            } else {
                self.prev2.set(hpos, hpos as u16);
            }
        } else {
            self.prev2.set(hpos, hpos as u16);
        }
        self.head2.set(val2_idx, hpos as i32);
    }
}

/// A fresh hash over a 32768-byte window holds the invariant for a window that
/// starts at `ws` and in which nothing has been hashed yet.
pub proof fn lemma_fresh_hash_inv(h: ZopfliHash, array: Seq<u8>, end: int, ws: int)
    requires
        h.head@ == Seq::new(65536, |i: int| -1i32),
        h.head2@ == Seq::new(65536, |i: int| -1i32),
        h.prev@ == Seq::new(32768, |i: int| i as u16),
        h.prev2@ == Seq::new(32768, |i: int| i as u16),
        h.hashval@ == Seq::new(32768, |i: int| -1i32),
        h.hashval2@ == Seq::new(32768, |i: int| -1i32),
        h.same@ == Seq::new(32768, |i: int| 0u16),
        0 <= ws <= end <= array.len(),
    ensures
        h.hash_inv(array, end, ws, ws - 1),
{
    assert forall|s: int| 0 <= s < 32768 implies #[trigger] h.slot_ok(array, end, ws, ws - 1, s) by {
        assert(0 <= (ws - 1 - s) % 32768);
        assert((s as u16) == s);
    }
}

/// Updating the hash at the position after the last hashed one keeps the window
/// invariant, now with `pos` as the last hashed position.
pub proof fn lemma_update_preserves_inv(
    h0: ZopfliHash,
    h1: ZopfliHash,
    array: Seq<u8>,
    end: int,
    ws: int,
    pos: int,
)
    requires
        h0.hash_inv(array, end, ws, pos - 1),
        pos < end,
        updated(h0, h1, array, pos, end),
        h1.wf(),
    ensures
        h1.hash_inv(array, end, ws, pos),
{
    let hpos = pos % 32768;
    let v = h1.val;
    let v2 = h1.val2;
    lemma_hash_ranges(h0.val, update_byte(array, pos, end), h1.same@[hpos]);
    assert(0 <= v <= 32767 && 0 <= v2 <= 32767);
    assert forall|s: int| 0 <= s < 32768 && s != hpos implies #[trigger] wpos(s, pos) == wpos(s, pos - 1) by {
        lemma_wpos_step(s, pos);
    }
    lemma_wpos_step(hpos, pos);
    // The new slot: its links lead to slots that have been written, hence in the window.
    let hd = h0.head@[v as int];
    if hd != -1 && h1.hashval@[hd as int] == v && hd != hpos {
        assert(h0.hashval@[hd as int] == v);
        assert(h0.slot_ok(array, end, ws, pos - 1, hd as int));
        lemma_wpos_step(hd as int, pos);
        assert((hd as u16) as int == hd);
    }
    assert(link_ok(h1.prev@, hpos, pos, ws));
    let hd2 = h0.head2@[v2 as int];
    if hd2 != -1 && h1.hashval2@[hd2 as int] == v2 && hd2 != hpos {
        assert(h0.hashval2@[hd2 as int] == v2);
        assert(h0.slot_ok(array, end, ws, pos - 1, hd2 as int));
        lemma_wpos_step(hd2 as int, pos);
        assert((hd2 as u16) as int == hd2);
    }
    assert(link_ok(h1.prev2@, hpos, pos, ws));
    // The repetition count of the new position.
    let amount = same_amount(h0.same@, array, pos, end);
    let ps = (pos - 1) % 32768;
    let prev_same = h0.same@[ps];
    let a0: int = if pos > 0 && prev_same > 1 {
        prev_same - 1
    } else {
        0
    };
    if pos > 0 {
        lemma_wpos_step(ps, pos - 1);
        assert(h0.slot_ok(array, end, ws, pos - 1, ps));
    }
    let limit = if end < pos + 65536 {
        end
    } else {
        pos + 65536
    };
    if pos + a0 + 1 < limit {
        lemma_run_len(array, pos + a0 + 1, limit, array[pos]);
    }
    assert forall|j: int| pos < j <= pos + amount implies #[trigger] repeats_at(array, end, pos, j) by {
        if j <= pos + a0 {
            assert(repeats_at(array, end, pos - 1, j));
            assert(repeats_at(array, end, pos - 1, pos));
        } else {
            assert(array[j] == array[pos]);
        }
    }
    assert(same_ok(array, end, pos, amount));
    assert(h1.same@[hpos] as int == amount);
    assert forall|s: int| 0 <= s < 32768 implies #[trigger] h1.slot_ok(array, end, ws, pos, s) by {
        if s != hpos {
            assert(h0.slot_ok(array, end, ws, pos - 1, s));
            assert(wpos(s, pos) == wpos(s, pos - 1));
            assert(h1.same@[s] == h0.same@[s]);
            assert(h1.prev@[s] == h0.prev@[s]);
            assert(h1.prev2@[s] == h0.prev2@[s]);
            assert(h1.hashval@[s] == h0.hashval@[s]);
            assert(h1.hashval2@[s] == h0.hashval2@[s]);
        } else {
            assert(same_ok(array, end, pos, amount));
        }
    }
}

} // verus!
