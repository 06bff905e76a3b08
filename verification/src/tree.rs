//! Huffman tree building and symbol generation.
use crate::error::Error;
use crate::inflate_dynamic::codes_fit;
use crate::math::{lemma_pow2_adds, lemma_pow2_increases, lemma_pow2_pos, lemma_pow2_small, pow2};
use vstd::prelude::*;

verus! {

/// Number of entries of `s` equal to `b`.
pub open spec fn count_eq(s: Seq<u32>, b: int) -> int
    decreases s.len(),
{
    if s.len() == 0 {
        0
    } else {
        count_eq(s.drop_last(), b) + if s.last() == b {
            1int
        } else {
            0int
        }
    }
}

/// First canonical code of the codes of bit length `bits` (RFC 1951, 3.2.2), modulo 2^32.
pub open spec fn first_code(lengths: Seq<u32>, bits: nat) -> int
    decreases bits,
{
    if bits == 0 {
        0
    } else {
        let prev = (bits - 1) as nat;
        let cnt = if prev == 0 {
            0
        } else {
            count_eq(lengths, prev as int)
        };
        ((first_code(lengths, prev) + cnt) * 2) % 0x1_0000_0000
    }
}

/// The canonical Huffman code of symbol `i` (0 for unused symbols), modulo 2^32.
pub open spec fn canonical_code(lengths: Seq<u32>, i: int) -> int {
    if lengths[i] == 0 {
        0
    } else {
        (first_code(lengths, lengths[i] as nat) + count_eq(lengths.take(i), lengths[i] as int))
            % 0x1_0000_0000
    }
}

pub(crate) proof fn lemma_count_eq_bound(s: Seq<u32>, b: int)
    ensures
        0 <= count_eq(s, b) <= s.len(),
    decreases s.len(),
{
    if s.len() > 0 {
        lemma_count_eq_bound(s.drop_last(), b);
    }
}

/// The symbols that `count` uses, and no others, have a code length.
pub open spec fn covers(lengths: Seq<u32>, count: Seq<usize>) -> bool {
    &&& lengths.len() == count.len()
    &&& forall|i: int| 0 <= i < count.len() ==> (#[trigger] lengths[i] > 0 <==> count[i] > 0)
}

/// `lengths` is a prefix code of at most `maxbits` bits for exactly the symbols that
/// `count` uses.
pub open spec fn prefix_code_for(lengths: Seq<u32>, count: Seq<usize>, maxbits: int) -> bool {
    &&& covers(lengths, count)
    &&& codes_fit(lengths)
    &&& forall|i: int| 0 <= i < lengths.len() ==> #[trigger] lengths[i] <= maxbits
}

/// Checks the Kraft inequality in its canonical form: at most 15 bits per code, and the
/// codes of each length fit after the shorter ones.
fn fits_check(lengths: &[u32]) -> (r: bool)
    requires
        lengths@.len() < 0x1_0000_0000,
    ensures
        r == codes_fit(lengths@),
{
    let n = lengths.len();
    let ghost l = lengths@;
    let mut counts: Vec<u64> = vec![0u64; 16];
    let mut i: usize = 0;
    while i < n
        invariant
            i <= n == l.len() < 0x1_0000_0000,
            l == lengths@,
            counts@.len() == 16,
            forall|j: int| 0 <= j < i ==> #[trigger] l[j] <= 15,
            forall|b: int| 0 <= b < 16 ==> #[trigger] counts@[b] == count_eq(l.take(i as int), b),
        decreases n - i,
    {
        let x = lengths[i];
        if x > 15 {
            proof {
                assert(!(l[i as int] <= 15));
            }
            return false;
        }
        proof {
            assert(l.take(i + 1).drop_last() =~= l.take(i as int));
            assert(l.take(i + 1).last() == x);
            lemma_count_eq_bound(l.take(i as int), x as int);
        }
        let c = counts[x as usize];
        counts.set(x as usize, c + 1);
        i = i + 1;
    }
    proof {
        assert(l.take(n as int) =~= l);
        lemma_pow2_small();
        reveal_with_fuel(first_code, 2);
        assert(first_code(l, 1) == 0);
        assert forall|b: int| 0 <= b < 16 implies #[trigger] counts@[b] <= 0xffff_ffff by {
            lemma_count_eq_bound(l, b);
        }
    }
    let mut code: u64 = 0;
    let mut p: u64 = 2;
    let mut b: usize = 1;
    while b <= 15
        invariant
            1 <= b <= 16,
            l == lengths@,
            counts@.len() == 16,
            forall|j: int| 0 <= j < l.len() ==> #[trigger] l[j] <= 15,
            forall|c: int| 0 <= c < 16 ==> #[trigger] counts@[c] == count_eq(l, c),
            forall|c: int| 0 <= c < 16 ==> #[trigger] counts@[c] <= 0xffff_ffff,
            code == first_code(l, b as nat),
            p == pow2(b as nat),
            code <= p,
            p <= 65536,
            forall|c: nat| 1 <= c < b ==> #[trigger] first_code(l, c) + count_eq(l, c as int) <= pow2(c),
        decreases 16 - b,
    {
        let cnt = counts[b];
        if code + cnt > p {
            proof {
                assert(first_code(l, b as nat) + count_eq(l, b as int) > pow2(b as nat));
            }
            return false;
        }
        proof {
            assert(first_code(l, (b + 1) as nat) == ((first_code(l, b as nat) + count_eq(l, b as int)) * 2) % 0x1_0000_0000);
            assert(pow2((b + 1) as nat) == 2 * pow2(b as nat));
            lemma_pow2_increases(b as nat, 15);
            lemma_pow2_small();
        }
        code = (code + cnt) * 2;
        p = p * 2;
        b = b + 1;
    }
    true
}

/// Counts the symbols that `count` uses.
pub(crate) fn used_symbols(count: &[usize]) -> (m: usize)
    ensures
        m == nonzero_count(count@),
{
    let mut m: usize = 0;
    let mut i: usize = 0;
    while i < count.len()
        invariant
            i <= count@.len(),
            m == nonzero_count(count@.take(i as int)),
            m <= i,
        decreases count@.len() - i,
    {
        proof {
            assert(count@.take(i + 1).drop_last() =~= count@.take(i as int));
        }
        if count[i] > 0 {
            m = m + 1;
        }
        i = i + 1;
    }
    proof {
        assert(count@.take(count@.len() as int) =~= count@);
    }
    m
}

/// In a code where every used symbol has length `len` and no other symbol a length, the
/// length `len` occurs once per used symbol and no other positive length occurs.
proof fn lemma_flat_counts(s: Seq<u32>, count: Seq<usize>, len: u32)
    requires
        len >= 1,
        s.len() == count.len(),
        forall|i: int| 0 <= i < s.len() ==> #[trigger] s[i] == if count[i] > 0 {
            len
        } else {
            0u32
        },
    ensures
        count_eq(s, len as int) == nonzero_count(count),
        forall|b: int| b != 0 && b != len ==> #[trigger] count_eq(s, b) == 0,
    decreases s.len(),
{
    if s.len() > 0 {
        let s0 = s.drop_last();
        let c0 = count.drop_last();
        assert forall|i: int| 0 <= i < s0.len() implies #[trigger] s0[i] == if c0[i] > 0 {
            len
        } else {
            0u32
        } by {
            assert(s0[i] == s[i] && c0[i] == count[i]);
        }
        lemma_flat_counts(s0, c0, len);
        assert(s.last() == s[s.len() - 1]);
        assert(count.last() == count[count.len() - 1]);
        assert forall|b: int| b != 0 && b != len implies #[trigger] count_eq(s, b) == 0 by {
            assert(count_eq(s, b) == count_eq(s0, b) + if s.last() == b { 1int } else { 0int });
        }
    }
}

/// First codes of a code whose only positive length is `len`, used by `m` symbols.
proof fn lemma_flat_first_code(s: Seq<u32>, len: nat, m: int, b: nat)
    requires
        1 <= len <= 15,
        0 <= m <= pow2(len),
        count_eq(s, len as int) == m,
        forall|c: int| c != 0 && c != len ==> #[trigger] count_eq(s, c) == 0,
        b <= 15,
    ensures
        first_code(s, b) == if b <= len {
            0
        } else {
            m * pow2((b - len) as nat)
        },
    decreases b,
{
    lemma_pow2_small();
    if b > 0 {
        let prev = (b - 1) as nat;
        lemma_flat_first_code(s, len, m, prev);
        if b > len {
            lemma_pow2_adds(len, (b - len) as nat);
            lemma_pow2_increases(b, 15);
            lemma_pow2_pos((b - len) as nat);
            if prev == len {
                assert(pow2(1) == 2);
                assert(m * 2 <= 2 * pow2(len));
            } else {
                lemma_pow2_adds(len, (prev - len) as nat);
                assert(pow2((b - len) as nat) == 2 * pow2((prev - len) as nat));
                assert(m * pow2((prev - len) as nat) * 2 == m * pow2((b - len) as nat)) by (nonlinear_arith)
                    requires
                        pow2((b - len) as nat) == 2 * pow2((prev - len) as nat),
                ;
            }
            assert(m * pow2((b - len) as nat) <= pow2(len) * pow2((b - len) as nat)) by (nonlinear_arith)
                requires
                    m <= pow2(len),
                    pow2((b - len) as nat) > 0,
            ;
        }
    }
}

/// Where every length is 0 or `len`, no other positive length occurs.
proof fn lemma_only_length(s: Seq<u32>, len: u32)
    requires
        forall|i: int| 0 <= i < s.len() ==> #[trigger] s[i] == 0 || s[i] == len,
    ensures
        forall|b: int| b != 0 && b != len ==> #[trigger] count_eq(s, b) == 0,
    decreases s.len(),
{
    if s.len() > 0 {
        let s0 = s.drop_last();
        assert forall|i: int| 0 <= i < s0.len() implies #[trigger] s0[i] == 0 || s0[i] == len by {
            assert(s0[i] == s[i]);
        }
        lemma_only_length(s0, len);
        assert(s.last() == s[s.len() - 1]);
        assert forall|b: int| b != 0 && b != len implies #[trigger] count_eq(s, b) == 0 by {
            assert(count_eq(s, b) == count_eq(s0, b) + if s.last() == b { 1int } else { 0int });
        }
    }
}

/// A code whose only positive length is `len`, used by at most `pow2(len)` symbols, is a
/// prefix code.
pub(crate) proof fn lemma_single_length_fits(s: Seq<u32>, len: u32)
    requires
        1 <= len <= 15,
        forall|i: int| 0 <= i < s.len() ==> #[trigger] s[i] == 0 || s[i] == len,
        count_eq(s, len as int) <= pow2(len as nat),
    ensures
        codes_fit(s),
{
    lemma_only_length(s, len);
    lemma_count_eq_bound(s, len as int);
    let m = count_eq(s, len as int);
    assert forall|i: int| 0 <= i < s.len() implies #[trigger] s[i] <= 15 by {
        assert(s[i] == 0 || s[i] == len);
    }
    assert forall|b: nat| 1 <= b <= 15 implies #[trigger] first_code(s, b) + count_eq(s, b as int) <= pow2(b) by {
        lemma_flat_first_code(s, len as nat, m, b);
        lemma_pow2_pos(b);
        if b < len {
            assert(count_eq(s, b as int) == 0);
        } else if b == len {
        } else {
            assert(count_eq(s, b as int) == 0);
            lemma_pow2_adds(len as nat, (b - len) as nat);
            assert(m * pow2((b - len) as nat) <= pow2(len as nat) * pow2((b - len) as nat)) by (nonlinear_arith)
                requires
                    m <= pow2(len as nat),
                    pow2((b - len) as nat) >= 0,
            ;
        }
    }
}

/// A code where every used symbol has the same length `len`, with `pow2(len)` at least the
/// number of used symbols, is a prefix code.
pub(crate) proof fn lemma_flat_fits(s: Seq<u32>, count: Seq<usize>, len: u32)
    requires
        1 <= len <= 15,
        s.len() == count.len(),
        forall|i: int| 0 <= i < s.len() ==> #[trigger] s[i] == if count[i] > 0 {
            len
        } else {
            0u32
        },
        nonzero_count(count) <= pow2(len as nat),
    ensures
        codes_fit(s),
{
    lemma_flat_counts(s, count, len);
    assert forall|i: int| 0 <= i < s.len() implies #[trigger] s[i] == 0 || s[i] == len by {
        assert(s[i] == if count[i] > 0 { len } else { 0u32 });
    }
    lemma_single_length_fits(s, len);
}

/// Every used symbol has the code length `len`, every other none.
pub open spec fn flat_code(lengths: Seq<u32>, count: Seq<usize>, len: u32) -> bool {
    &&& lengths.len() == count.len()
    &&& forall|i: int| 0 <= i < count.len() ==> #[trigger] lengths[i] == if count[i] > 0 {
        len
    } else {
        0u32
    }
}

/// Keeps `bitlengths` when they are a prefix code of at most `maxbits` bits for exactly
/// the symbols that `count` uses; otherwise gives every used symbol the least common
/// length that leaves a code for each of them.
pub(crate) fn ensure_prefix_code(count: &[usize], maxbits: u32, bitlengths: &mut [u32])
    requires
        old(bitlengths)@.len() == count@.len(),
        count@.len() < 0x1_0000_0000,
        1 <= maxbits <= 15,
        nonzero_count(count@) <= pow2(maxbits as nat),
    ensures
        prefix_code_for(final(bitlengths)@, count@, maxbits as int),
        prefix_code_for(old(bitlengths)@, count@, maxbits as int) ==> final(bitlengths)@ == old(bitlengths)@,
        final(bitlengths)@ == old(bitlengths)@ || exists|len: u32| #[trigger] flat_code(final(bitlengths)@, count@, len),
{
    let n = count.len();
    let mut ok = fits_check(bitlengths);
    let mut i: usize = 0;
    while i < n && ok
        invariant
            i <= n == count@.len() == bitlengths@.len(),
            bitlengths@ == old(bitlengths)@,
            ok == (codes_fit(bitlengths@) && forall|j: int| 0 <= j < i ==> (#[trigger] bitlengths@[j] > 0 <==> count@[j] > 0)
                && bitlengths@[j] <= maxbits),
        decreases n - i,
    {
        if (bitlengths[i] > 0) != (count[i] > 0) || bitlengths[i] > maxbits {
            ok = false;
        }
        i = i + 1;
    }
    if ok {
        return;
    }
    let m = used_symbols(count);
    let mut len: u32 = 1;
    let mut p: usize = 2;
    proof {
        lemma_pow2_small();
    }
    while p < m && len < maxbits
        invariant
            1 <= len <= maxbits <= 15,
            p == pow2(len as nat),
            m == nonzero_count(count@),
            m <= pow2(maxbits as nat),
        decreases maxbits - len,
    {
        proof {
            lemma_pow2_increases(len as nat, 14);
            lemma_pow2_small();
        }
        p = p * 2;
        len = len + 1;
    }
    proof {
        if p < m {
            assert(len == maxbits);
        }
    }
    let mut k: usize = 0;
    while k < n
        invariant
            k <= n == count@.len() == bitlengths@.len(),
            1 <= len <= maxbits,
            forall|j: int| 0 <= j < k ==> #[trigger] bitlengths@[j] == if count@[j] > 0 {
                len
            } else {
                0u32
            },
        decreases n - k,
    {
        if count[k] > 0 {
            bitlengths[k] = len;
        } else {
            bitlengths[k] = 0;
        }
        k = k + 1;
    }
    proof {
        lemma_flat_fits(bitlengths@, count@, len);
        assert(flat_code(bitlengths@, count@, len));
    }
}

/// Converts a series of Huffman tree bitlengths, to the bit values of the symbols.
pub fn lengths_to_symbols(lengths: &[u32], maxbits: u32, symbols: &mut [u32]) -> (r: Result<
    (),
    Error,
>)
    requires
        lengths@.len() <= u32::MAX,
    ensures
        maxbits > 32 ==> r == Err::<(), Error>(Error::TooFewMaxBits) && final(symbols)@ == old(symbols)@,
        maxbits <= 32 && old(symbols)@.len() != lengths@.len() ==> r == Err::<(), Error>(Error::SliceLengthMismatch) && final(symbols)@ == old(symbols)@,
        maxbits <= 32 && old(symbols)@.len() == lengths@.len() && (exists|i: int| 0 <= i < lengths@.len() && lengths@[i] > maxbits)
            ==> r == Err::<(), Error>(Error::TooFewMaxBits) && final(symbols)@ == Seq::new(lengths@.len(), |i: int| 0u32),
        maxbits <= 32 && old(symbols)@.len() == lengths@.len() && (forall|i: int| 0 <= i < lengths@.len() ==> lengths@[i] <= maxbits)
            ==> r is Ok && final(symbols)@.len() == lengths@.len()
            && forall|i: int| 0 <= i < lengths@.len() ==> final(symbols)@[i] == canonical_code(lengths@, i),
{
    if maxbits > 32 {
        return Err(Error::TooFewMaxBits);
    }
    let n = lengths.len();
    if symbols.len() != n {
        return Err(Error::SliceLengthMismatch);
    }
    let mut z: usize = 0;
    while z < n
        invariant
            z <= n == symbols@.len() == lengths@.len(),
            forall|j: int| 0 <= j < z ==> symbols@[j] == 0u32,
        decreases n - z,
    {
        symbols[z] = 0;
        z = z + 1;
    }
    let mut bl_count: Vec<u32> = Vec::new();
    let mut next_code: Vec<u32> = Vec::new();
    let mut b: u32 = 0;
    while b <= maxbits
        invariant
            b <= maxbits + 1,
            maxbits <= 32,
            bl_count@.len() == b,
            next_code@.len() == b,
            forall|j: int| 0 <= j < b ==> bl_count@[j] == 0u32 && next_code@[j] == 0u32,
        decreases maxbits + 1 - b,
    {
        bl_count.push(0);
        next_code.push(0);
        b = b + 1;
    }
    let mut k: usize = 0;
    while k < n
        invariant
            k <= n == symbols@.len() == lengths@.len() == old(symbols)@.len(),
            n <= u32::MAX,
            maxbits <= 32,
            bl_count@.len() == maxbits + 1,
            next_code@.len() == maxbits + 1,
            forall|j: int| 0 <= j < k ==> lengths@[j] <= maxbits,
            forall|j: int|
                0 <= j <= maxbits ==> bl_count@[j] == count_eq(lengths@.take(k as int), j),
            symbols@ == Seq::new(lengths@.len(), |i: int| 0u32),
        decreases n - k,
    {
        let len = lengths[k];
        if len > maxbits {
            return Err(Error::TooFewMaxBits);
        }
        proof {
            assert(lengths@.take(k + 1).drop_last() == lengths@.take(k as int));
            lemma_count_eq_bound(lengths@.take(k as int), len as int);
        }
        let c = bl_count[len as usize];
        bl_count.set(len as usize, c + 1);
        k = k + 1;
    }
    proof {
        assert(lengths@.take(n as int) == lengths@);
    }
    let mut code: u32 = 0;
    bl_count.set(0, 0);
    let mut bits: usize = 1;
    while bits <= maxbits as usize
        invariant
            1 <= bits <= maxbits + 1,
            maxbits <= 32,
            bl_count@.len() == maxbits + 1,
            next_code@.len() == maxbits + 1,
            bl_count@[0] == 0,
            forall|j: int| 1 <= j <= maxbits ==> bl_count@[j] == count_eq(lengths@, j),
            code == first_code(lengths@, (bits - 1) as nat),
            forall|j: int| 1 <= j < bits ==> next_code@[j] == first_code(lengths@, j as nat),
        decreases maxbits + 1 - bits,
    {
        code = code.wrapping_add(bl_count[bits - 1]).wrapping_mul(2);
        proof {
            let prev = (bits - 1) as nat;
            assert(first_code(lengths@, bits as nat) == ((first_code(lengths@, prev) + (if prev
                == 0 {
                0
            } else {
                count_eq(lengths@, prev as int)
            })) * 2) % 0x1_0000_0000);
        }
        next_code.set(bits, code);
        bits = bits + 1;
    }
    let mut i: usize = 0;
    while i < n
        invariant
            i <= n == symbols@.len() == lengths@.len(),
            n <= u32::MAX,
            maxbits <= 32,
            next_code@.len() == maxbits + 1,
            forall|j: int| 0 <= j < n ==> lengths@[j] <= maxbits,
            forall|j: int|
                1 <= j <= maxbits ==> next_code@[j] == (first_code(lengths@, j as nat) + count_eq(
                    lengths@.take(i as int),
                    j,
                )) % 0x1_0000_0000,
            forall|j: int| 0 <= j < i ==> symbols@[j] == canonical_code(lengths@, j),
            forall|j: int| i <= j < n ==> symbols@[j] == 0u32,
        decreases n - i,
    {
        let len = lengths[i] as usize;
        proof {
            assert(lengths@.take(i + 1).drop_last() == lengths@.take(i as int));
        }
        if len != 0 {
            let c = next_code[len];
            symbols[i] = c;
            next_code.set(len, c.wrapping_add(1));
        }
        i = i + 1;
    }
    Ok(())
}

/// Number of nonzero entries of `s`.
pub open spec fn nonzero_count(s: Seq<usize>) -> int
    decreases s.len(),
{
    if s.len() == 0 {
        0
    } else {
        nonzero_count(s.drop_last()) + if s.last() > 0 {
            1int
        } else {
            0int
        }
    }
}

pub proof fn lemma_nonzero_count_one(s: Seq<usize>, i: int, j: int)
    requires
        0 <= i < s.len(),
        0 <= j < s.len(),
        i != j,
        s[i] > 0,
        s[j] > 0,
    ensures
        nonzero_count(s) >= 2,
    decreases s.len(),
{
    let k = s.len() - 1;
    if i != k && j != k {
        lemma_nonzero_count_one(s.drop_last(), i, j);
    } else {
        let other = if i == k {
            j
        } else {
            i
        };
        lemma_nonzero_count_pos(s.drop_last(), other);
    }
}

pub proof fn lemma_nonzero_count_pos(s: Seq<usize>, i: int)
    requires
        0 <= i < s.len(),
        s[i] > 0,
    ensures
        nonzero_count(s) >= 1,
    decreases s.len(),
{
    if i < s.len() - 1 {
        lemma_nonzero_count_pos(s.drop_last(), i);
    }
    lemma_nonzero_count_nonneg(s.drop_last());
}

pub proof fn lemma_nonzero_count_nonneg(s: Seq<usize>)
    ensures
        0 <= nonzero_count(s) <= s.len(),
    decreases s.len(),
{
    if s.len() > 0 {
        lemma_nonzero_count_nonneg(s.drop_last());
    }
}

/// Index of the lightest queue entry, ties broken by the smaller node index.
fn queue_min(pq: &Vec<(usize, usize)>) -> (r: usize)
    requires
        pq@.len() > 0,
    ensures
        r < pq@.len(),
        forall|j: int|
            0 <= j < pq@.len() ==> pq@[r as int].0 < pq@[j].0 || (pq@[r as int].0 == pq@[j].0
                && pq@[r as int].1 <= pq@[j].1),
{
    let mut best: usize = 0;
    let mut j: usize = 1;
    while j < pq.len()
        invariant
            best < j <= pq@.len(),
            forall|k: int|
                0 <= k < j ==> pq@[best as int].0 < pq@[k].0 || (pq@[best as int].0 == pq@[k].0
                    && pq@[best as int].1 <= pq@[k].1),
        decreases pq@.len() - j,
    {
        if pq[j].0 < pq[best].0 || (pq[j].0 == pq[best].0 && pq[j].1 < pq[best].1) {
            best = j;
        }
        j = j + 1;
    }
    best
}

/// The node reached from `x` after `n` steps up through `parent`; -1 when the path ends
/// before.
pub open spec fn ancestor(parent: Seq<Option<usize>>, x: int, n: nat) -> int
    decreases n,
{
    if n == 0 {
        x
    } else if 0 <= x < parent.len() && parent[x] is Some {
        ancestor(parent, parent[x]->0 as int, (n - 1) as nat)
    } else {
        -1
    }
}

/// The sum, over the used symbols below `n` whose tree is rooted at `x`, of 2^(k - depth)
/// for their depths `ld` in that tree.
pub open spec fn tree_weight(hist: Seq<usize>, rt: Seq<int>, ld: Seq<int>, x: int, k: int, n: int) -> int
    decreases n,
{
    if n <= 0 {
        0
    } else {
        tree_weight(hist, rt, ld, x, k, n - 1) + if hist[n - 1] > 0 && rt[n - 1] == x {
            pow2((k - ld[n - 1]) as nat) as int
        } else {
            0int
        }
    }
}

/// The Kraft sum of the code lengths of the used symbols below `n`, scaled by 2^k: the
/// sum of 2^(k - length).
pub open spec fn kraft_scaled(lengths: Seq<u32>, hist: Seq<usize>, k: int, n: int) -> int
    decreases n,
{
    if n <= 0 {
        0
    } else {
        kraft_scaled(lengths, hist, k, n - 1) + if hist[n - 1] > 0 {
            pow2((k - lengths[n - 1]) as nat) as int
        } else {
            0int
        }
    }
}

/// Paths through the nodes that have a parent stay the same when only nodes without a
/// parent get one.
proof fn lemma_ancestor_frame(parent: Seq<Option<usize>>, parent2: Seq<Option<usize>>, x: int, n: nat)
    requires
        forall|y: int| 0 <= y < parent.len() && #[trigger] parent[y] is Some ==> y < parent2.len() && parent2[y]
            == parent[y],
        ancestor(parent, x, n) != -1,
    ensures
        ancestor(parent2, x, n) == ancestor(parent, x, n),
    decreases n,
{
    if n > 0 {
        lemma_ancestor_frame(parent, parent2, parent[x]->0 as int, (n - 1) as nat);
    }
}

/// Going up `n + k` steps is going up `n` steps, then `k`.
proof fn lemma_ancestor_add(parent: Seq<Option<usize>>, x: int, n: nat, k: nat)
    ensures
        ancestor(parent, x, n + k) == ancestor(parent, ancestor(parent, x, n), k),
    decreases n,
{
    if n > 0 {
        if 0 <= x < parent.len() && parent[x] is Some {
            lemma_ancestor_add(parent, parent[x]->0 as int, (n - 1) as nat, k);
            assert((n - 1) as nat + k == (n + k - 1) as nat);
        } else {
            lemma_ancestor_none(parent, k);
        }
    }
}

proof fn lemma_ancestor_none(parent: Seq<Option<usize>>, k: nat)
    ensures
        ancestor(parent, -1, k) == -1,
{
}

/// A root is reached after one number of steps only.
proof fn lemma_ancestor_unique(parent: Seq<Option<usize>>, x: int, n: nat, m: nat, r: int)
    requires
        ancestor(parent, x, n) == r,
        ancestor(parent, x, m) == r,
        0 <= r < parent.len(),
        parent[r] is None,
    ensures
        n == m,
{
    if n < m {
        lemma_ancestor_add(parent, x, n, (m - n) as nat);
        assert(n + (m - n) as nat == m);
    } else if m < n {
        lemma_ancestor_add(parent, x, m, (n - m) as nat);
        assert(m + (n - m) as nat == n);
    }
}

/// Merging the trees `a` and `b` under the new root `c` halves the weight of their
/// leaves, which move one level down.
proof fn lemma_tree_weight_merge(
    hist: Seq<usize>,
    rt: Seq<int>,
    ld: Seq<int>,
    rt2: Seq<int>,
    ld2: Seq<int>,
    a: int,
    b: int,
    c: int,
    k: int,
    n: int,
)
    requires
        a != b,
        a != c,
        b != c,
        n <= hist.len(),
        n <= rt.len() && n <= ld.len() && n <= rt2.len() && n <= ld2.len(),
        forall|i: int|
            0 <= i < n && hist[i] > 0 ==> if rt[i] == a || rt[i] == b {
                rt2[i] == c && ld2[i] == ld[i] + 1 && 0 <= ld[i] && ld[i] + 1 <= k
            } else {
                rt2[i] == rt[i] && ld2[i] == ld[i] && rt[i] != c
            },
    ensures
        2 * tree_weight(hist, rt2, ld2, c, k, n) == tree_weight(hist, rt, ld, a, k, n) + tree_weight(
            hist,
            rt,
            ld,
            b,
            k,
            n,
        ),
        forall|x: int| x != a && x != b && x != c ==> tree_weight(hist, rt2, ld2, x, k, n) == tree_weight(
            hist,
            rt,
            ld,
            x,
            k,
            n,
        ),
    decreases n,
{
    if n > 0 {
        lemma_tree_weight_merge(hist, rt, ld, rt2, ld2, a, b, c, k, n - 1);
        let i = n - 1;
        if hist[i] > 0 && (rt[i] == a || rt[i] == b) {
            let e = (k - ld[i]) as nat;
            assert(pow2(e) == 2 * pow2((e - 1) as nat));
            assert((k - ld2[i]) as nat == (e - 1) as nat);
        }
        assert forall|x: int| x != a && x != b && x != c implies #[trigger] tree_weight(hist, rt2, ld2, x, k, n)
            == tree_weight(hist, rt, ld, x, k, n) by {
            assert(tree_weight(hist, rt2, ld2, x, k, n - 1) == tree_weight(hist, rt, ld, x, k, n - 1));
        }
    }
}

/// A single leaf of depth 0 weighs 2^k.
proof fn lemma_tree_weight_leaf(hist: Seq<usize>, rt: Seq<int>, ld: Seq<int>, x: int, k: int, n: int)
    requires
        0 <= x < n <= hist.len(),
        n <= rt.len() && n <= ld.len(),
        hist[x] > 0,
        ld[x] == 0,
        forall|i: int| 0 <= i < n && hist[i] > 0 ==> (rt[i] == x <==> i == x),
        k >= 0,
    ensures
        tree_weight(hist, rt, ld, x, k, n) == pow2(k as nat),
    decreases n,
{
    if n - 1 > x {
        lemma_tree_weight_leaf(hist, rt, ld, x, k, n - 1);
    } else {
        lemma_tree_weight_none(hist, rt, ld, x, k, n - 1);
    }
}

proof fn lemma_tree_weight_none(hist: Seq<usize>, rt: Seq<int>, ld: Seq<int>, x: int, k: int, n: int)
    requires
        n <= hist.len(),
        n <= rt.len(),
        forall|i: int| 0 <= i < n && hist[i] > 0 ==> rt[i] != x,
    ensures
        tree_weight(hist, rt, ld, x, k, n) == 0,
    decreases n,
{
    if n > 0 {
        lemma_tree_weight_none(hist, rt, ld, x, k, n - 1);
    }
}

/// When every used symbol lies in the tree rooted at `r` at the depth of its code
/// length, the tree's weight is the scaled Kraft sum.
proof fn lemma_tree_weight_kraft(hist: Seq<usize>, rt: Seq<int>, ld: Seq<int>, lengths: Seq<u32>, r: int, k: int, n: int)
    requires
        n <= hist.len(),
        n <= rt.len() && n <= ld.len() && n <= lengths.len(),
        forall|i: int| 0 <= i < n && hist[i] > 0 ==> rt[i] == r && ld[i] == lengths[i],
    ensures
        tree_weight(hist, rt, ld, r, k, n) == kraft_scaled(lengths, hist, k, n),
    decreases n,
{
    if n > 0 {
        lemma_tree_weight_kraft(hist, rt, ld, lengths, r, k, n - 1);
    }
}

/// What the merging of Huffman trees keeps, for the used symbols of `hist`: each lies in
/// the tree of an active root `rt[i]` (one of `pq`, without a parent), `ld[i]` levels
/// below it along `parent`; each active tree weighs 2^k; the active roots are distinct.
pub open spec fn forest_ok(
    hist: Seq<usize>,
    parent: Seq<Option<usize>>,
    pq: Seq<(usize, usize)>,
    rt: Seq<int>,
    ld: Seq<int>,
    k: int,
) -> bool {
    let size = hist.len() as int;
    &&& rt.len() == size
    &&& ld.len() == size
    &&& size <= parent.len()
    &&& forall|j: int| 0 <= j < pq.len() ==> #[trigger] pq[j].1 < parent.len() && parent[pq[j].1 as int] is None
    &&& forall|j1: int, j2: int| 0 <= j1 < j2 < pq.len() ==> pq[j1].1 != pq[j2].1
    &&& forall|j: int| 0 <= j < pq.len() ==> tree_weight(hist, rt, ld, #[trigger] pq[j].1 as int, k, size) == pow2(k as nat)
    &&& forall|i: int|
        0 <= i < size && hist[i] > 0 ==> {
            &&& 0 <= ld[i] <= parent.len() - size
            &&& 0 <= #[trigger] rt[i] < parent.len()
            &&& ancestor(parent, i, ld[i] as nat) == rt[i]
            &&& parent[rt[i]] is None
            &&& exists|j: int| 0 <= j < pq.len() && pq[j].1 == rt[i]
        }
}

/// Merging the trees at `li` of `pq` and at `ri` of what remains, under the new node at
/// the end of `parent`, keeps the forest in order: their leaves move one level down.
#[verifier::spinoff_prover]
#[verifier::rlimit(100)]
proof fn lemma_merge_step(
    hist: Seq<usize>,
    parent: Seq<Option<usize>>,
    pq: Seq<(usize, usize)>,
    rt: Seq<int>,
    ld: Seq<int>,
    k: int,
    li: int,
    ri: int,
    w: usize,
) -> (r: (Seq<int>, Seq<int>))
    requires
        forest_ok(hist, parent, pq, rt, ld, k),
        0 <= li < pq.len(),
        0 <= ri < pq.len() - 1,
        parent.len() - hist.len() + 1 <= k,
        parent.len() < usize::MAX,
    ensures
        forest_ok(
            hist,
            parent.push(None).update(pq[li].1 as int, Some(parent.len() as usize)).update(
                pq.remove(li)[ri].1 as int,
                Some(parent.len() as usize),
            ),
            pq.remove(li).remove(ri).push((w, parent.len() as usize)),
            r.0,
            r.1,
            k,
        ),
{
    let size = hist.len() as int;
    let a = pq[li].1 as int;
    let pqb = pq.remove(li);
    let b = pqb[ri].1 as int;
    let c = parent.len() as int;
    let pqc = pqb.remove(ri);
    let pq2 = pqc.push((w, c as usize));
    let parent2 = parent.push(None).update(a, Some(c as usize)).update(b, Some(c as usize));
    let rt2 = Seq::new(size as nat, |i: int| if hist[i] > 0 && (rt[i] == a || rt[i] == b) { c } else { rt[i] });
    let ld2 = Seq::new(size as nat, |i: int| if hist[i] > 0 && (rt[i] == a || rt[i] == b) { ld[i] + 1 } else { ld[i] });
    let bi = if ri < li { ri } else { ri + 1 };
    assert(pqb[ri] == pq[bi]);
    assert(bi != li);
    assert(a != b);
    assert(parent[a] is None && parent[b] is None);
    assert(forall|y: int| 0 <= y < parent.len() && #[trigger] parent[y] is Some ==> y < parent2.len() && parent2[y]
        == parent[y]);
    // Where each old root other than a and b went.
    assert forall|j: int| 0 <= j < pq.len() && j != li && j != bi implies exists|j2: int|
        0 <= j2 < pq2.len() && #[trigger] pq2[j2] == #[trigger] pq[j] by {
        let j1 = if j < li { j } else { j - 1 };
        assert(pqb[j1] == pq[j]);
        let j2 = if j1 < ri { j1 } else { j1 - 1 };
        assert(j1 != ri);
        assert(pqc[j2] == pqb[j1]);
        assert(pq2[j2] == pqc[j2]);
    }
    assert forall|j2: int| 0 <= j2 < pqc.len() implies exists|j: int|
        0 <= j < pq.len() && j != li && j != bi && #[trigger] pqc[j2] == pq[j] by {
        let j1 = if j2 < ri { j2 } else { j2 + 1 };
        assert(pqc[j2] == pqb[j1]);
        let j = if j1 < li { j1 } else { j1 + 1 };
        assert(pqb[j1] == pq[j]);
    }
    assert forall|i: int|
        0 <= i < size && hist[i] > 0 implies if rt[i] == a || rt[i] == b {
        rt2[i] == c && ld2[i] == ld[i] + 1 && 0 <= ld[i] && ld[i] + 1 <= k
    } else {
        rt2[i] == rt[i] && ld2[i] == ld[i] && rt[i] != c
    } by {
        assert(0 <= rt[i] < parent.len());
    }
    lemma_tree_weight_merge(hist, rt, ld, rt2, ld2, a, b, c, k, size);
    // The trees: old roots other than a and b keep their weight; c weighs 2^k.
    assert forall|j2: int| 0 <= j2 < pq2.len() implies tree_weight(hist, rt2, ld2, #[trigger] pq2[j2].1 as int, k, size)
        == pow2(k as nat) by {
        if j2 == pqc.len() {
            assert(pq2[j2].1 == c);
            assert(tree_weight(hist, rt, ld, pq[li].1 as int, k, size) == pow2(k as nat));
            assert(tree_weight(hist, rt, ld, pq[bi].1 as int, k, size) == pow2(k as nat));
        } else {
            assert(pq2[j2] == pqc[j2]);
            let j = choose|j: int| 0 <= j < pq.len() && j != li && j != bi && #[trigger] pqc[j2] == pq[j];
            assert(pq[j].1 != a && pq[j].1 != b);
            assert(pq[j].1 < c);
            assert(tree_weight(hist, rt, ld, pq[j].1 as int, k, size) == pow2(k as nat));
        }
    }
    assert forall|j2: int| 0 <= j2 < pq2.len() implies #[trigger] pq2[j2].1 < parent2.len() && parent2[pq2[j2].1 as int]
        is None by {
        if j2 < pqc.len() {
            assert(pq2[j2] == pqc[j2]);
            let j = choose|j: int| 0 <= j < pq.len() && j != li && j != bi && #[trigger] pqc[j2] == pq[j];
            assert(pq[j].1 != a && pq[j].1 != b);
        }
    }
    assert forall|j1: int, j2: int| 0 <= j1 < j2 < pq2.len() implies pq2[j1].1 != pq2[j2].1 by {
        if j2 == pqc.len() {
            let j = choose|j: int| 0 <= j < pq.len() && j != li && j != bi && #[trigger] pqc[j1] == pq[j];
            assert(pq[j].1 < c);
        } else {
            let ja = choose|j: int| 0 <= j < pq.len() && j != li && j != bi && #[trigger] pqc[j1] == pq[j];
            let jb = choose|j: int| 0 <= j < pq.len() && j != li && j != bi && #[trigger] pqc[j2] == pq[j];
            let j1b = if j1 < ri { j1 } else { j1 + 1 };
            let j2b = if j2 < ri { j2 } else { j2 + 1 };
            let j1a = if j1b < li { j1b } else { j1b + 1 };
            let j2a = if j2b < li { j2b } else { j2b + 1 };
            assert(pqc[j1] == pqb[j1b] && pqb[j1b] == pq[j1a]);
            assert(pqc[j2] == pqb[j2b] && pqb[j2b] == pq[j2a]);
            assert(j1a < j2a);
        }
    }
    assert forall|i: int|
        0 <= i < size && hist[i] > 0 implies {
        &&& 0 <= ld2[i] <= parent2.len() - size
        &&& 0 <= #[trigger] rt2[i] < parent2.len()
        &&& ancestor(parent2, i, ld2[i] as nat) == rt2[i]
        &&& parent2[rt2[i]] is None
        &&& exists|j: int| 0 <= j < pq2.len() && pq2[j].1 == rt2[i]
    } by {
        let n = ld[i] as nat;
        lemma_ancestor_frame(parent, parent2, i, n);
        if rt[i] == a || rt[i] == b {
            lemma_ancestor_add(parent2, i, n, 1);
            assert(ancestor(parent2, rt[i], 1) == ancestor(parent2, c, 0));
            assert(pq2[pqc.len() as int].1 == c);
        } else {
            let j = choose|j: int| 0 <= j < pq.len() && pq[j].1 == rt[i];
            assert(j != li && j != bi);
            let j2 = choose|j2: int| 0 <= j2 < pq2.len() && #[trigger] pq2[j2] == pq[j];
            assert(pq2[j2].1 == rt2[i]);
        }
    }
    (rt2, ld2)
}

/// Calculates the standard (unlimited) Huffman code bitlengths of the symbols, based on
/// their counts: the two lightest nodes are merged until one tree remains.
pub fn unlimited_code_lengths(histogram: &[usize], bitlengths: &mut [u32]) -> (r: Result<
    (),
    Error,
>)
    requires
        histogram@.len() <= usize::MAX / 8,
    ensures
        old(bitlengths)@.len() != histogram@.len() ==> r == Err::<(), Error>(Error::SliceLengthMismatch) && final(bitlengths)@ == old(bitlengths)@,
        old(bitlengths)@.len() == histogram@.len() ==> r is Ok && final(bitlengths)@.len() == histogram@.len()
            && (forall|i: int| 0 <= i < histogram@.len() && histogram@[i] == 0 ==> final(bitlengths)@[i] == 0)
            && (nonzero_count(histogram@) == 1 ==> forall|i: int| 0 <= i < histogram@.len() && histogram@[i] > 0 ==> final(bitlengths)@[i] == 1)
            && (histogram@.len() <= u32::MAX ==> forall|i: int|
                0 <= i < histogram@.len() && histogram@[i] > 0 ==> #[trigger] final(bitlengths)@[i] >= 1),
        old(bitlengths)@.len() == histogram@.len() && histogram@.len() <= u32::MAX && nonzero_count(histogram@) >= 2
            ==> kraft_scaled(final(bitlengths)@, histogram@, histogram@.len() as int, histogram@.len() as int) == pow2(
            histogram@.len() as nat,
        ) && forall|i: int| 0 <= i < histogram@.len() && histogram@[i] > 0 ==> #[trigger] final(bitlengths)@[i] < histogram@.len(),
{
    let size = histogram.len();
    if bitlengths.len() != size {
        return Err(Error::SliceLengthMismatch);
    }
    if size == 0 {
        return Ok(());
    }
    if size == 1 {
        bitlengths[0] = if histogram[0] > 0 {
            1
        } else {
            0
        };
        proof {
            assert(histogram@.drop_last().len() == 0);
            assert(nonzero_count(histogram@.drop_last()) == 0);
        }
        return Ok(());
    }
    // Node `k` of the tree: its parent, its depth (initially its index) and its weight.
    let mut parent: Vec<Option<usize>> = Vec::new();
    let mut depth: Vec<usize> = Vec::new();
    let mut pq: Vec<(usize, usize)> = Vec::new();
    let mut count: usize = 0;
    while count < size
        invariant
            count <= size == histogram@.len(),
            parent@.len() == count,
            depth@.len() == count,
            forall|j: int| 0 <= j < count ==> parent@[j] is None,
            forall|j: int| 0 <= j < count ==> depth@[j] == j,
            forall|j: int| 0 <= j < pq@.len() ==> pq@[j].1 < count && histogram@[pq@[j].1 as int] > 0
                && pq@[j].0 == histogram@[pq@[j].1 as int],
            forall|j: int, k: int| 0 <= j < k < pq@.len() ==> pq@[j].1 < pq@[k].1,
            forall|j: int| 0 <= j < count && histogram@[j] > 0 ==> exists|k: int| 0 <= k < pq@.len() && pq@[k].1 == j,
            pq@.len() == nonzero_count(histogram@.take(count as int)),
        decreases size - count,
    {
        let weight = histogram[count];
        parent.push(None);
        depth.push(count);
        let ghost old_pq = pq@;
        if weight > 0 {
            pq.push((weight, count));
        }
        proof {
            assert(histogram@.take(count + 1).drop_last() == histogram@.take(count as int));
            assert forall|j: int| 0 <= j < count + 1 && histogram@[j] > 0 implies exists|k: int| 0 <= k < pq@.len() && pq@[k].1 == j by {
                if j < count {
                    let k = choose|k: int| 0 <= k < old_pq.len() && old_pq[k].1 == j;
                    assert(pq@[k] == old_pq[k]);
                } else {
                    assert(pq@[pq@.len() - 1].1 == j);
                }
            }
        }
        count = count + 1;
    }
    proof {
        assert(histogram@.take(size as int) == histogram@);
    }
    let ghost pq0 = pq@;
    let ghost mut rt: Seq<int> = Seq::new(size as nat, |i: int| i);
    let ghost mut ld: Seq<int> = Seq::new(size as nat, |i: int| 0int);
    proof {
        lemma_nonzero_count_nonneg(histogram@);
        assert forall|j: int| 0 <= j < pq@.len() implies tree_weight(
            histogram@,
            rt,
            ld,
            #[trigger] pq@[j].1 as int,
            size as int,
            size as int,
        ) == pow2(size as nat) by {
            lemma_tree_weight_leaf(histogram@, rt, ld, pq@[j].1 as int, size as int, size as int);
        }
        assert forall|i: int| 0 <= i < size && histogram@[i] > 0 implies exists|j: int|
            0 <= j < pq@.len() && pq@[j].1 == rt[i] by {
            let j = choose|j: int| 0 <= j < pq@.len() && pq@[j].1 == i;
            assert(pq@[j].1 == rt[i]);
        }
        assert(forest_ok(histogram@, parent@, pq@, rt, ld, size as int));
    }
    while pq.len() > 1
        invariant
            size == histogram@.len(),
            size >= 2,
            size <= count,
            parent@.len() == count,
            depth@.len() == count,
            forall|j: int| 0 <= j < count ==> (#[trigger] parent@[j] matches Some(p) ==> j < p < count && size <= p),
            forall|j: int| 0 <= j < size && histogram@[j] == 0 ==> parent@[j] is None,
            count == size ==> forall|j: int| 0 <= j < count ==> #[trigger] parent@[j] is None,
            forall|j: int| 0 <= j < pq@.len() ==> pq@[j].1 < count && (pq@[j].1 < size ==> histogram@[pq@[j].1 as int] > 0),
            count == size ==> pq@ == pq0,
            count > size ==> pq0.len() >= 2,
            pq0.len() == nonzero_count(histogram@),
            forall|j: int| 0 <= j < count ==> depth@[j] == j,
            count + pq@.len() <= 2 * size,
            size <= usize::MAX / 8,
            forall|j: int|
                0 <= j < count && (j >= size || histogram@[j] > 0) ==> (#[trigger] parent@[j] is Some || exists|k: int|
                    0 <= k < pq@.len() && pq@[k].1 == j),
            count > size ==> pq@.len() >= 1 && pq@[pq@.len() - 1].1 == count - 1,
            forest_ok(histogram@, parent@, pq@, rt, ld, size as int),
        decreases pq@.len(),
    {
        let ghost pq_a = pq@;
        let ghost par_a = parent@;
        let li = queue_min(&pq);
        let left = pq.remove(li);
        let ghost pq_b = pq@;
        let ri = queue_min(&pq);
        let right = pq.remove(ri);
        let ghost pq_c = pq@;
        let node_idx = count;
        let w = left.0.saturating_add(right.0);
        parent.push(None);
        depth.push(count);
        count = count + 1;
        parent.set(left.1, Some(node_idx));
        parent.set(right.1, Some(node_idx));
        pq.push((w, node_idx));
        proof {
            let (rt2, ld2) = lemma_merge_step(histogram@, par_a, pq_a, rt, ld, size as int, li as int, ri as int, w);
            assert(pq_b == pq_a.remove(li as int));
            assert(pq_c == pq_b.remove(ri as int));
            assert(parent@ == par_a.push(None).update(pq_a[li as int].1 as int, Some(par_a.len() as usize)).update(
                pq_a.remove(li as int)[ri as int].1 as int,
                Some(par_a.len() as usize),
            ));
            assert(pq@ == pq_a.remove(li as int).remove(ri as int).push((w, par_a.len() as usize)));
            rt = rt2;
            ld = ld2;
        }
        proof {
            assert forall|j: int| 0 <= j < count && (j >= size || histogram@[j] > 0) implies (#[trigger] parent@[j] is Some
                || exists|k: int| 0 <= k < pq@.len() && pq@[k].1 == j) by {
                if j == count - 1 {
                    assert(pq@[pq@.len() - 1].1 == j);
                } else if j != left.1 && j != right.1 {
                    assert(parent@[j] == par_a[j]);
                    if !(par_a[j] is Some) {
                        let k = choose|k: int| 0 <= k < pq_a.len() && pq_a[k].1 == j;
                        assert(k != li);
                        let k1 = if k < li { k } else { k - 1 };
                        assert(pq_b[k1] == pq_a[k]);
                        assert(k1 != ri);
                        let k2 = if k1 < ri { k1 } else { k1 - 1 };
                        assert(pq_c[k2] == pq_b[k1]);
                        assert(pq@[k2] == pq_c[k2]);
                    }
                }
            }
        }
    }
    proof {
        if count > size {
            assert forall|j: int| 0 <= j < count - 1 && (j >= size || histogram@[j] > 0) implies #[trigger] parent@[j] is Some by {
                if !(parent@[j] is Some) {
                    let k = choose|k: int| 0 <= k < pq@.len() && pq@[k].1 == j;
                    assert(k == 0);
                }
            }
        }
    }
    if count > size {
        assert(nonzero_count(histogram@) >= 2);
        // Depths, from the root down: the parent of a node always comes after it.
        let root = count - 1;
        depth.set(root, 0);
        let ghost pq_end = pq@;
        proof {
            assert(pq_end.len() == 1 && pq_end[0].1 == root);
            assert forall|i: int| 0 <= i < size && histogram@[i] > 0 implies #[trigger] rt[i] == root && ancestor(
                parent@,
                i,
                ld[i] as nat,
            ) == root && 0 <= ld[i] < size by {
                let j = choose|j: int| 0 <= j < pq_end.len() && pq_end[j].1 == rt[i];
                assert(j == 0);
            }
            assert(tree_weight(histogram@, rt, ld, root as int, size as int, size as int) == pow2(size as nat));
            assert(parent@[root as int] is None);
        }
        let mut i = root;
        while i > size
            invariant
                size < count,
                size <= i <= count - 1,
                parent@.len() == count,
                depth@.len() == count,
                forall|j: int| 0 <= j < count ==> (#[trigger] parent@[j] matches Some(p) ==> j < p < count),
                count <= 2 * size,
                size <= usize::MAX / 8,
                forall|j: int| i <= j < count ==> depth@[j] <= count - 1 - j,
                forall|j: int| size <= j < count - 1 ==> #[trigger] parent@[j] is Some,
                forall|j: int| 0 <= j < i ==> depth@[j] == j,
                forall|j: int| i <= j < count ==> ancestor(parent@, j, #[trigger] depth@[j] as nat) == count - 1,
            decreases i,
        {
            i = i - 1;
            if let Some(p) = parent[i] {
                let d = depth[p] + 1;
                depth.set(i, d);
                proof {
                    assert(ancestor(parent@, i as int, d as nat) == ancestor(parent@, p as int, depth@[p as int] as nat));
                }
            }
        }
        let mut k: usize = 0;
        while k < size
            invariant
                k <= size < count,
                size == histogram@.len() == bitlengths@.len(),
                parent@.len() == count,
                depth@.len() == count,
                forall|j: int| 0 <= j < count ==> (#[trigger] parent@[j] matches Some(p) ==> j < p < count && size <= p),
                forall|j: int| 0 <= j < size && histogram@[j] == 0 ==> parent@[j] is None,
                forall|j: int| 0 <= j < size && histogram@[j] > 0 ==> parent@[j] is Some,
                forall|j: int| size <= j < count ==> depth@[j] <= count - 1 - j,
                count <= 2 * size,
                forall|j: int| 0 <= j < k && histogram@[j] == 0 ==> bitlengths@[j] == 0,
                size <= u32::MAX ==> forall|j: int| 0 <= j < k && histogram@[j] > 0 ==> #[trigger] bitlengths@[j] >= 1,
                forall|j: int| size <= j < count ==> ancestor(parent@, j, #[trigger] depth@[j] as nat) == count - 1,
                forall|j: int| 0 <= j < size && histogram@[j] > 0 ==> #[trigger] rt[j] == count - 1 && ancestor(
                    parent@,
                    j,
                    ld[j] as nat,
                ) == count - 1 && 0 <= ld[j] < size,
                parent@[count - 1] is None,
                size <= u32::MAX ==> forall|j: int| 0 <= j < k && histogram@[j] > 0 ==> #[trigger] bitlengths@[j] == ld[j],
            decreases size - k,
        {
            match parent[k] {
                None => {
                    bitlengths[k] = 0;
                },
                Some(p) => {
                    proof {
                        if size <= u32::MAX {
                            assert(depth@[p as int] + 1 <= u32::MAX);
                        }
                    }
                    bitlengths[k] = (depth[p] as u32).wrapping_add(1);
                    proof {
                        if size <= u32::MAX {
                            assert(ancestor(parent@, k as int, (depth@[p as int] + 1) as nat) == ancestor(
                                parent@,
                                p as int,
                                depth@[p as int] as nat,
                            ));
                            assert(rt[k as int] == count - 1);
                            lemma_ancestor_unique(
                                parent@,
                                k as int,
                                ld[k as int] as nat,
                                (depth@[p as int] + 1) as nat,
                                count - 1,
                            );
                        }
                    }
                },
            }
            k = k + 1;
        }
        proof {
            if size <= u32::MAX {
                lemma_tree_weight_kraft(histogram@, rt, ld, bitlengths@, count - 1, size as int, size as int);
                assert(kraft_scaled(bitlengths@, histogram@, size as int, size as int) == pow2(size as nat));
                assert forall|i: int| 0 <= i < size && histogram@[i] > 0 implies #[trigger] bitlengths@[i] < size by {
                    assert(rt[i] == count - 1);
                    assert(bitlengths@[i] == ld[i]);
                }
            }
        }
    } else {
        let mut k: usize = 0;
        while k < size
            invariant
                k <= size == bitlengths@.len(),
                forall|j: int| 0 <= j < k ==> bitlengths@[j] == 0,
            decreases size - k,
        {
            bitlengths[k] = 0;
            k = k + 1;
        }
        if pq.len() == 1 {
            let idx = pq[0].1;
            bitlengths[idx] = 1;
        }
        proof {
            assert(pq@ == pq0);
            assert(nonzero_count(histogram@) <= 1);
            assert forall|j: int| 0 <= j < size && histogram@[j] > 0 implies #[trigger] bitlengths@[j] >= 1 by {
                assert(parent@[j] is None);
                let k = choose|k: int| 0 <= k < pq@.len() && pq@[k].1 == j;
                assert(k == 0);
            }
        }
    }
    Ok(())
}

/// Calculates the bitlengths for the Huffman tree, based on the counts of each symbol:
/// the unlimited Huffman code lengths, or the length-limited ones when some length
/// exceeds `maxbits`.
pub fn calculate_bit_lengths(count: &[usize], maxbits: i32, bitlengths: &mut [u32]) -> (r: Result<
    (),
    Error,
>)
    requires
        count@.len() < i32::MAX,
        count@.len() <= usize::MAX / 8,
    ensures
        old(bitlengths)@.len() != count@.len() ==> r == Err::<(), Error>(Error::SliceLengthMismatch) && final(bitlengths)@ == old(bitlengths)@,
        old(bitlengths)@.len() == count@.len() ==> final(bitlengths)@.len() == count@.len()
            && (forall|i: int| 0 <= i < count@.len() && count@[i] == 0 ==> final(bitlengths)@[i] == 0),
        old(bitlengths)@.len() == count@.len() && nonzero_count(count@) == 1 && maxbits >= 1 ==> r is Ok
            && forall|i: int| 0 <= i < count@.len() ==> final(bitlengths)@[i] == if count@[i] > 0 { 1u32 } else { 0u32 },
        old(bitlengths)@.len() == count@.len() ==> forall|i: int|
            0 <= i < count@.len() && maxbits >= 0 ==> #[trigger] final(bitlengths)@[i] <= 1 || final(bitlengths)@[i] <= maxbits,
        old(bitlengths)@.len() == count@.len() && 1 <= maxbits <= 15 && crate::katajainen::code_capacity(maxbits)
            >= nonzero_count(count@) && (forall|i: int| 0 <= i < count@.len() ==> count@[i] < crate::katajainen::count_limit())
            ==> r is Ok && prefix_code_for(final(bitlengths)@, count@, maxbits as int),
{
    let n = count.len();
    if bitlengths.len() != n {
        return Err(Error::SliceLengthMismatch);
    }
    unlimited_code_lengths(count, bitlengths)?;
    let mut fallback = false;
    let mut i: usize = 0;
    while i < n && !fallback
        invariant
            i <= n == bitlengths@.len(),
            !fallback ==> forall|j: int| 0 <= j < i ==> bitlengths@[j] <= maxbits as u32,
            fallback ==> exists|j: int| 0 <= j < n && bitlengths@[j] > maxbits as u32,
        decreases n - i,
    {
        if bitlengths[i] > maxbits as u32 {
            fallback = true;
        }
        i = i + 1;
    }
    proof {
        if nonzero_count(count@) == 1 && maxbits >= 1 {
            assert forall|j: int| 0 <= j < n implies bitlengths@[j] <= maxbits as u32 by {
                if count@[j] == 0 {
                    assert(bitlengths@[j] == 0);
                } else {
                    assert(bitlengths@[j] == 1);
                }
            }
        }
    }
    if fallback {
        crate::katajainen::length_limited_code_lengths(count, maxbits, bitlengths)?;
    } else if 1 <= maxbits && maxbits <= 15 {
        let m = used_symbols(count);
        let cap: usize = 1usize << (maxbits as u32);
        if m <= cap {
            proof {
                crate::katajainen::lemma_capacity_pow2(maxbits);
                if nonzero_count(count@) == 1 {
                    lemma_pow2_small();
                    assert forall|j: int| 0 <= j < n implies #[trigger] bitlengths@[j] == if count@[j] > 0 {
                        1u32
                    } else {
                        0u32
                    } by {}
                    lemma_flat_fits(bitlengths@, count@, 1);
                }
            }
            ensure_prefix_code(count, maxbits as u32, bitlengths);
        }
    }
    proof {
        if !fallback {
            assert forall|j: int| 0 <= j < n && maxbits >= 0 implies #[trigger] bitlengths@[j] <= 1 || bitlengths@[j] <= maxbits by {
                assert(bitlengths@[j] <= maxbits as u32);
            }
        }
    }
    Ok(())
}

} // verus!
