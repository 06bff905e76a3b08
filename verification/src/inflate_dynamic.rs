//! What a DEFLATE reader gets back from blocks with a dynamic Huffman tree (RFC 1951,
//! 3.2.7): reading symbols of a canonical prefix code, the tree header, and the commands.
use crate::bitstream::{lsb_bits, msb_bits};
use crate::deflate::{
    cl_lengths_bits, cl_order, cmd_code_bits, codes_of, dynamic_block_bits, header_lengths, items_stream, lemma_cl_lengths_bits_len,
    lemma_items_stream_len, lemma_occ_bound, lz77_data_bits, occ, rle_counts, rle_decode, rle_expand, rle_extra_len,
    rle_item_ok, spec_hclen, spec_hdist, spec_hlit, tree_header_bits, tree_header_ok,
};
use crate::inflate::{lemma_lsb_read, lemma_middle, lemma_msb_prefix, lemma_regroup, lemma_shift_zero, lsb_value, msb_value};
use crate::lz77::{cmd_ok, lemma_parse_decodes, lz77_decode, parse_ok, parsed_len};
use crate::math::pow2;
use crate::squeeze::cmds_codable;
use crate::symbols::{
    dist_base_table, dist_code_law, length_base_table, length_code_law, spec_dist_extra_bits, spec_dist_extra_bits_value,
    spec_dist_symbol, spec_dist_symbol_extra_bits, spec_length_extra_bits, spec_length_extra_bits_value,
    spec_length_symbol, spec_length_symbol_extra_bits,
};
use crate::tree::{canonical_code, count_eq, first_code, lemma_count_eq_bound};
use vstd::prelude::*;

verus! {

/// Code lengths of at most 15 bits whose canonical codes of each length fit in that many
/// bits (the Kraft inequality, in the form the canonical construction uses).
pub open spec fn codes_fit(lengths: Seq<u32>) -> bool {
    &&& forall|i: int| 0 <= i < lengths.len() ==> #[trigger] lengths[i] <= 15
    &&& forall|b: nat| 1 <= b <= 15 ==> #[trigger] first_code(lengths, b) + count_eq(lengths, b as int) <= pow2(b)
}

/// The bits at `i` start with the canonical code of symbol `s`, which has a code.
pub open spec fn code_matches(lengths: Seq<u32>, bits: Seq<bool>, i: int, s: int) -> bool {
    &&& 0 <= s < lengths.len()
    &&& lengths[s] > 0
    &&& 0 <= i
    &&& i + lengths[s] <= bits.len()
    &&& bits.subrange(i, i + lengths[s]) == msb_bits(canonical_code(lengths, s) as u32, lengths[s] as nat)
}

/// Reads a symbol of the prefix code with code lengths `lengths` at bit `i`: the symbol
/// whose code the bits start with, and the length of its code.
pub open spec fn huffman_decode(lengths: Seq<u32>, bits: Seq<bool>, i: int) -> Option<(int, int)> {
    if exists|s: int| #[trigger] code_matches(lengths, bits, i, s) {
        let s = choose|s: int| #[trigger] code_matches(lengths, bits, i, s);
        Some((s, lengths[s] as int))
    } else {
        None
    }
}

proof fn lemma_count_eq_take_step(s: Seq<u32>, j: int, b: int)
    requires
        0 <= j < s.len(),
    ensures
        count_eq(s.take(j + 1), b) == count_eq(s.take(j), b) + if s[j] == b {
            1int
        } else {
            0int
        },
{
    assert(s.take(j + 1).drop_last() =~= s.take(j));
}

proof fn lemma_count_eq_take_mono(s: Seq<u32>, j: int, k: int, b: int)
    requires
        0 <= j <= k <= s.len(),
    ensures
        count_eq(s.take(j), b) <= count_eq(s.take(k), b),
    decreases k - j,
{
    if j < k {
        lemma_count_eq_take_mono(s, j, k - 1, b);
        lemma_count_eq_take_step(s, k - 1, b);
    }
}

/// A symbol with a code of some length is counted before every later symbol.
proof fn lemma_count_before(s: Seq<u32>, a: int, b: int)
    requires
        0 <= a < b <= s.len(),
    ensures
        count_eq(s.take(a), s[a] as int) + 1 <= count_eq(s.take(b), s[a] as int),
{
    lemma_count_eq_take_step(s, a, s[a] as int);
    lemma_count_eq_take_mono(s, a + 1, b, s[a] as int);
}

/// Under `codes_fit` the canonical construction does not wrap: the first code of each
/// length is twice the end of the codes one bit shorter.
proof fn lemma_first_code_step(lengths: Seq<u32>, b: nat)
    requires
        codes_fit(lengths),
        1 <= b <= 15,
    ensures
        first_code(lengths, b) >= 0,
        first_code(lengths, (b + 1) as nat) == 2 * (first_code(lengths, b) + count_eq(lengths, b as int)),
{
    lemma_count_eq_bound(lengths, b as int);
    crate::math::lemma_pow2_increases(b, 15);
    crate::math::lemma_pow2_small();
    assert(first_code(lengths, b) + count_eq(lengths, b as int) <= pow2(b));
    assert(((b + 1) as nat - 1) as nat == b);
}

/// The codes of a longer length start after the codes of a shorter one, scaled.
proof fn lemma_first_code_grows(lengths: Seq<u32>, a: nat, b: nat)
    requires
        codes_fit(lengths),
        1 <= a < b <= 15,
    ensures
        first_code(lengths, b) >= (first_code(lengths, a) + count_eq(lengths, a as int)) * pow2((b - a) as nat),
    decreases b - a,
{
    lemma_first_code_step(lengths, (b - 1) as nat);
    lemma_count_eq_bound(lengths, (b - 1) as int);
    if b == a + 1 {
        crate::math::lemma_pow2_small();
        assert(((b - a) as nat) == 1);
    } else {
        lemma_first_code_grows(lengths, a, (b - 1) as nat);
        lemma_first_code_step(lengths, a);
        lemma_count_eq_bound(lengths, a as int);
        let x = first_code(lengths, a) + count_eq(lengths, a as int);
        let f = first_code(lengths, (b - 1) as nat);
        let c = count_eq(lengths, (b - 1) as int);
        let p = pow2((b - 1 - a) as nat);
        assert(pow2((b - a) as nat) == 2 * p) by {
            assert(((b - a) as nat) == ((b - 1 - a) as nat) + 1);
        }
        assert(2 * (f + c) >= x * (2 * p)) by (nonlinear_arith)
            requires
                f >= x * p,
                c >= 0,
        ;
    }
}

/// The canonical code of a symbol of length `L` lies among the codes of length `L`, below 2^L.
proof fn lemma_code_range(lengths: Seq<u32>, s: int)
    requires
        codes_fit(lengths),
        0 <= s < lengths.len(),
        lengths[s] > 0,
    ensures
        canonical_code(lengths, s) == first_code(lengths, lengths[s] as nat) + count_eq(lengths.take(s), lengths[s] as int),
        0 <= first_code(lengths, lengths[s] as nat) <= canonical_code(lengths, s),
        canonical_code(lengths, s) < first_code(lengths, lengths[s] as nat) + count_eq(lengths, lengths[s] as int),
        canonical_code(lengths, s) < pow2(lengths[s] as nat),
{
    let l = lengths[s] as nat;
    assert(l <= 15);
    lemma_first_code_step(lengths, l);
    lemma_count_before(lengths, s, lengths.len() as int);
    assert(lengths.take(lengths.len() as int) =~= lengths);
    lemma_count_eq_bound(lengths.take(s), l as int);
    crate::math::lemma_pow2_increases(l, 15);
    crate::math::lemma_pow2_small();
    assert(first_code(lengths, l) + count_eq(lengths, l as int) <= pow2(l));
}

/// A value read most significant bit first, extended by `k` bits, is scaled by 2^k plus less than 2^k.
proof fn lemma_msb_value_extend(bits: Seq<bool>, i: int, n: nat, k: nat)
    ensures
        msb_value(bits, i, n) * pow2(k) <= msb_value(bits, i, n + k) < (msb_value(bits, i, n) + 1) * pow2(k),
    decreases k,
{
    if k == 0 {
        assert(pow2(0) == 1);
        assert(msb_value(bits, i, n) * 1 == msb_value(bits, i, n));
    } else {
        lemma_msb_value_extend(bits, i, n, (k - 1) as nat);
        let v = msb_value(bits, i, n);
        let w = msb_value(bits, i, (n + k - 1) as nat);
        let p = pow2((k - 1) as nat);
        assert(((n + k) as nat - 1) as nat == (n + k - 1) as nat);
        assert(msb_value(bits, i, n + k) == 2 * w + if bits[i + n + k - 1] {
            1int
        } else {
            0int
        });
        assert(pow2(k) == 2 * p);
        assert(v * (2 * p) <= 2 * w && 2 * w + 1 < (v + 1) * (2 * p)) by (nonlinear_arith)
            requires
                v * p <= w < (v + 1) * p,
        ;
    }
}

proof fn lemma_shr_zero(v: u32)
    ensures
        v >> 0u32 == v,
{
    assert(v >> 0u32 == v) by (bit_vector);
}

/// The codes of two symbols of a fitting code are never prefixes of one another: the
/// bits at `i` start with the code of at most one symbol.
pub proof fn lemma_prefix_free(lengths: Seq<u32>, bits: Seq<bool>, i: int, s: int, t: int)
    requires
        codes_fit(lengths),
        code_matches(lengths, bits, i, s),
        code_matches(lengths, bits, i, t),
    ensures
        s == t,
{
    if lengths[s] <= lengths[t] {
        lemma_prefix_free_ordered(lengths, bits, i, s, t);
    } else {
        lemma_prefix_free_ordered(lengths, bits, i, t, s);
    }
}

proof fn lemma_prefix_free_ordered(lengths: Seq<u32>, bits: Seq<bool>, i: int, s: int, t: int)
    requires
        codes_fit(lengths),
        code_matches(lengths, bits, i, s),
        code_matches(lengths, bits, i, t),
        lengths[s] <= lengths[t],
    ensures
        s == t,
{
    let ls = lengths[s] as nat;
    let lt = lengths[t] as nat;
    lemma_code_range(lengths, s);
    lemma_code_range(lengths, t);
    let cs = canonical_code(lengths, s) as u32;
    let ct = canonical_code(lengths, t) as u32;
    lemma_shift_zero(cs, ls);
    lemma_shift_zero(ct, lt);
    lemma_msb_prefix(bits, i, cs, ls, ls);
    lemma_msb_prefix(bits, i, ct, lt, lt);
    lemma_shr_zero(cs);
    lemma_shr_zero(ct);
    assert(((ls - ls) as u32) == 0u32);
    assert(((lt - lt) as u32) == 0u32);
    assert(msb_value(bits, i, ls) == canonical_code(lengths, s));
    assert(msb_value(bits, i, lt) == canonical_code(lengths, t));
    if ls == lt {
        if s < t {
            lemma_count_before(lengths, s, t);
        } else if t < s {
            lemma_count_before(lengths, t, s);
        }
    } else {
        let k = (lt - ls) as nat;
        lemma_msb_value_extend(bits, i, ls, k);
        assert(ls + k == lt);
        lemma_first_code_grows(lengths, ls, lt);
        let x = first_code(lengths, ls) + count_eq(lengths, ls as int);
        let c = canonical_code(lengths, s);
        let p = pow2(k);
        crate::math::lemma_pow2_pos(k);
        assert((c + 1) * p <= x * p) by (nonlinear_arith)
            requires
                c + 1 <= x,
                p > 0,
        ;
        assert(false);
    }
}

/// A fitting code reads back every symbol that has a code.
pub proof fn lemma_huffman_decode(lengths: Seq<u32>, bits: Seq<bool>, i: int, s: int)
    requires
        codes_fit(lengths),
        code_matches(lengths, bits, i, s),
    ensures
        huffman_decode(lengths, bits, i) == Some((s, lengths[s] as int)),
{
    let t = choose|t: int| #[trigger] code_matches(lengths, bits, i, t);
    lemma_prefix_free(lengths, bits, i, s, t);
}

/// One command read at bit `i` of a block coded with the literal/length code lengths `ll`
/// and the distance code lengths `dl`: a literal (distance 0) or a match with its length
/// and distance, and the bit after it. `None` at the end-of-block code and where the bits
/// hold no command.
pub open spec fn huffman_cmd_decode(ll: Seq<u32>, dl: Seq<u32>, bits: Seq<bool>, i: int) -> Option<(u16, u16, int)> {
    match huffman_decode(ll, bits, i) {
        None => None,
        Some((sym, n)) => {
            if sym < 256 {
                Some((sym as u16, 0u16, i + n))
            } else if sym == 256 || sym > 285 {
                None
            } else {
                let j = i + n;
                let le = spec_length_symbol_extra_bits(sym);
                let k = j + le;
                match huffman_decode(dl, bits, k) {
                    None => None,
                    Some((ds, m)) => {
                        if le < 0 || ds >= 30 || k + m + spec_dist_symbol_extra_bits(ds) > bits.len() {
                            None
                        } else {
                            let de = spec_dist_symbol_extra_bits(ds);
                            let len = length_base_table()[sym - 257] + lsb_value(bits, j, le as nat);
                            let dist = dist_base_table()[ds] + lsb_value(bits, k + m, de as nat);
                            Some((len as u16, dist as u16, k + m + de))
                        }
                    },
                }
            }
        },
    }
}

/// The bits at `i` hold the end-of-block code.
pub open spec fn at_end_code(ll: Seq<u32>, bits: Seq<bool>, i: int) -> bool {
    match huffman_decode(ll, bits, i) {
        Some((sym, n)) => sym == 256,
        None => false,
    }
}

/// The commands of a block coded with `ll` and `dl`, read from bit `i` up to its
/// end-of-block code: their literals or lengths, their distances, and the bit after the
/// end code.
pub open spec fn inflate_huffman_cmds(ll: Seq<u32>, dl: Seq<u32>, bits: Seq<bool>, i: int) -> Option<
    (Seq<u16>, Seq<u16>, int),
>
    decreases bits.len() - i,
{
    if at_end_code(ll, bits, i) {
        Some((Seq::empty(), Seq::empty(), i + ll[256] as int))
    } else {
        match huffman_cmd_decode(ll, dl, bits, i) {
            None => None,
            Some((l, d, next)) => {
                if next <= i || next > bits.len() {
                    None
                } else {
                    match inflate_huffman_cmds(ll, dl, bits, next) {
                        None => None,
                        Some((ls, ds, e)) => Some((seq![l] + ls, seq![d] + ds, e)),
                    }
                }
            },
        }
    }
}

/// Every command of `lo..hi` uses only symbols that have a code.
pub open spec fn cmds_have_codes(ll: Seq<u32>, dl: Seq<u32>, l: Seq<u16>, d: Seq<u16>, lo: int, hi: int) -> bool {
    forall|i: int|
        lo <= i < hi ==> if #[trigger] d[i] == 0 {
            ll[l[i] as int] > 0
        } else {
            ll[spec_length_symbol(l[i] as int)] > 0 && dl[spec_dist_symbol(d[i] as int)] > 0
        }
}

/// The bits of the commands `lo..hi` start with those of command `lo`.
proof fn lemma_data_bits_front(
    llc: Seq<u32>,
    lll: Seq<u32>,
    dc: Seq<u32>,
    dll: Seq<u32>,
    l: Seq<u16>,
    d: Seq<u16>,
    lo: int,
    hi: int,
)
    requires
        lo < hi,
    ensures
        lz77_data_bits(llc, lll, dc, dll, l, d, lo, hi) == cmd_code_bits(llc, lll, dc, dll, l[lo], d[lo]) + lz77_data_bits(
            llc,
            lll,
            dc,
            dll,
            l,
            d,
            lo + 1,
            hi,
        ),
    decreases hi - lo,
{
    let c0 = cmd_code_bits(llc, lll, dc, dll, l[lo], d[lo]);
    if hi == lo + 1 {
        assert(lz77_data_bits(llc, lll, dc, dll, l, d, lo, lo) == Seq::<bool>::empty());
        assert(lz77_data_bits(llc, lll, dc, dll, l, d, lo + 1, lo + 1) == Seq::<bool>::empty());
        assert(Seq::<bool>::empty() + c0 =~= c0 + Seq::<bool>::empty());
    } else {
        lemma_data_bits_front(llc, lll, dc, dll, l, d, lo, hi - 1);
        let ch = cmd_code_bits(llc, lll, dc, dll, l[hi - 1], d[hi - 1]);
        let mid = lz77_data_bits(llc, lll, dc, dll, l, d, lo + 1, hi - 1);
        assert(c0 + mid + ch =~= c0 + (mid + ch));
    }
}

/// The bits of a coded match read back field by field.
proof fn lemma_huffman_match_fields(
    ll: Seq<u32>,
    dl: Seq<u32>,
    y: Seq<bool>,
    z: Seq<bool>,
    ls: int,
    lev: u32,
    le: nat,
    ds: int,
    dev: u32,
    de: nat,
)
    requires
        codes_fit(ll),
        codes_fit(dl),
        0 <= ls < ll.len(),
        ll[ls] > 0,
        0 <= ds < dl.len(),
        dl[ds] > 0,
        le <= 5,
        de <= 13,
        lev < pow2(le),
        dev < pow2(de),
    ensures
        ({
            let a = msb_bits(canonical_code(ll, ls) as u32, ll[ls] as nat);
            let b = lsb_bits(lev, le);
            let dc = msb_bits(canonical_code(dl, ds) as u32, dl[ds] as nat);
            let e = lsb_bits(dev, de);
            let bits = y + (a + b + dc + e) + z;
            let i = y.len() as int;
            let j = i + a.len();
            let k = j + b.len();
            &&& huffman_decode(ll, bits, i) == Some((ls, ll[ls] as int))
            &&& lsb_value(bits, j, le) == lev
            &&& huffman_decode(dl, bits, k) == Some((ds, dl[ds] as int))
            &&& lsb_value(bits, k + dc.len(), de) == dev
        }),
{
    let a = msb_bits(canonical_code(ll, ls) as u32, ll[ls] as nat);
    let b = lsb_bits(lev, le);
    let dc = msb_bits(canonical_code(dl, ds) as u32, dl[ds] as nat);
    let e = lsb_bits(dev, de);
    let bits = y + (a + b + dc + e) + z;
    let i = y.len() as int;
    let j = i + a.len();
    let k = j + b.len();
    lemma_regroup(y, a, b, dc, e, z);
    lemma_middle(y, a, b + dc + e + z);
    lemma_huffman_decode(ll, bits, i, ls);
    lemma_middle(y + a, b, dc + e + z);
    lemma_shift_zero(lev, le);
    lemma_lsb_read(bits, j, lev, le);
    lemma_middle(y + a + b, dc, e + z);
    lemma_huffman_decode(dl, bits, k, ds);
    lemma_middle(y + a + b + dc, e, z);
    lemma_shift_zero(dev, de);
    lemma_lsb_read(bits, k + dc.len(), dev, de);
}

/// The bits that the block writer spends on a command with the canonical codes of `ll`
/// and `dl` read back as that command.
pub proof fn lemma_huffman_cmd_decode(ll: Seq<u32>, dl: Seq<u32>, y: Seq<bool>, l: u16, d: u16, z: Seq<bool>)
    requires
        codes_fit(ll),
        codes_fit(dl),
        ll.len() == 288,
        dl.len() == 32,
        (d == 0 && l < 256) || (3 <= l <= 258 && 1 <= d <= 32768),
        d == 0 ==> ll[l as int] > 0,
        d != 0 ==> ll[spec_length_symbol(l as int)] > 0 && dl[spec_dist_symbol(d as int)] > 0,
    ensures
        ({
            let c = cmd_code_bits(codes_of(ll), ll, codes_of(dl), dl, l, d);
            let bits = y + c + z;
            &&& huffman_cmd_decode(ll, dl, bits, y.len() as int) == Some((l, d, (y.len() + c.len()) as int))
            &&& !at_end_code(ll, bits, y.len() as int)
            &&& c.len() > 0
        }),
{
    let c = cmd_code_bits(codes_of(ll), ll, codes_of(dl), dl, l, d);
    let bits = y + c + z;
    let i = y.len() as int;
    if d == 0 {
        let sym = l as int;
        lemma_middle(y, c, z);
        lemma_huffman_decode(ll, bits, i, sym);
    } else {
        length_code_law(l as int);
        dist_code_law(d as int);
        let ls = spec_length_symbol(l as int);
        let ds = spec_dist_symbol(d as int);
        let le = spec_length_extra_bits(l as int);
        let de = spec_dist_extra_bits(d as int);
        let lev = spec_length_extra_bits_value(l as int);
        let dev = spec_dist_extra_bits_value(d as int);
        assert(0 <= le <= 5) by {
            assert(spec_length_symbol_extra_bits(ls) <= 5);
        }
        assert(0 <= de <= 13) by {
            assert(spec_dist_symbol_extra_bits(ds) <= 13);
        }
        crate::math::lemma_pow2_small();
        assert(lev < 32 && dev < 8192) by {
            crate::math::lemma_pow2_increases(le as nat, 5);
            crate::math::lemma_pow2_increases(de as nat, 13);
        }
        lemma_huffman_match_fields(ll, dl, y, z, ls, lev as u32, le as nat, ds, dev as u32, de as nat);
        let a = msb_bits(canonical_code(ll, ls) as u32, ll[ls] as nat);
        let b = lsb_bits(lev as u32, le as nat);
        let dc = msb_bits(canonical_code(dl, ds) as u32, dl[ds] as nat);
        let e = lsb_bits(dev as u32, de as nat);
        assert(c == a + b + dc + e);
        assert(length_base_table()[ls - 257] + lev == l);
        assert(dist_base_table()[ds] + dev == d);
    }
}

/// Reading the commands from a command that is not the end code goes on after it.
proof fn lemma_huffman_cmds_step(
    ll: Seq<u32>,
    dl: Seq<u32>,
    bits: Seq<bool>,
    i: int,
    l0: u16,
    d0: u16,
    next: int,
    ls: Seq<u16>,
    ds: Seq<u16>,
    e: int,
)
    requires
        !at_end_code(ll, bits, i),
        huffman_cmd_decode(ll, dl, bits, i) == Some((l0, d0, next)),
        i < next <= bits.len(),
        inflate_huffman_cmds(ll, dl, bits, next) == Some((ls, ds, e)),
    ensures
        inflate_huffman_cmds(ll, dl, bits, i) == Some((seq![l0] + ls, seq![d0] + ds, e)),
{
}

/// The bits that the block writer spends on codable commands and the end-of-block code,
/// with the canonical codes of fitting code lengths that give every used symbol a code,
/// read back as those commands.
#[verifier::spinoff_prover]
#[verifier::rlimit(90)]
pub proof fn lemma_inflate_huffman_cmds(
    ll: Seq<u32>,
    dl: Seq<u32>,
    y: Seq<bool>,
    l: Seq<u16>,
    d: Seq<u16>,
    lo: int,
    hi: int,
    z: Seq<bool>,
)
    requires
        codes_fit(ll),
        codes_fit(dl),
        ll.len() == 288,
        dl.len() == 32,
        ll[256] > 0,
        0 <= lo <= hi <= l.len(),
        l.len() == d.len(),
        cmds_codable(l, d, lo, hi),
        cmds_have_codes(ll, dl, l, d, lo, hi),
    ensures
        ({
            let data = lz77_data_bits(codes_of(ll), ll, codes_of(dl), dl, l, d, lo, hi);
            let end = msb_bits(canonical_code(ll, 256) as u32, ll[256] as nat);
            inflate_huffman_cmds(ll, dl, y + data + end + z, y.len() as int) == Some(
                (l.subrange(lo, hi), d.subrange(lo, hi), (y.len() + data.len() + end.len()) as int),
            )
        }),
    decreases hi - lo,
{
    let data = lz77_data_bits(codes_of(ll), ll, codes_of(dl), dl, l, d, lo, hi);
    let end = msb_bits(canonical_code(ll, 256) as u32, ll[256] as nat);
    let bits = y + data + end + z;
    if lo == hi {
        assert(data =~= Seq::<bool>::empty());
        lemma_middle(y, end, z);
        assert(bits =~= y + end + z);
        lemma_huffman_decode(ll, bits, y.len() as int, 256);
        assert(l.subrange(lo, hi) =~= Seq::<u16>::empty());
        assert(d.subrange(lo, hi) =~= Seq::<u16>::empty());
    } else {
        lemma_data_bits_front(codes_of(ll), ll, codes_of(dl), dl, l, d, lo, hi);
        let c0 = cmd_code_bits(codes_of(ll), ll, codes_of(dl), dl, l[lo], d[lo]);
        let rest = lz77_data_bits(codes_of(ll), ll, codes_of(dl), dl, l, d, lo + 1, hi);
        assert(if d[lo] == 0 {
            l[lo] < 256
        } else {
            3 <= l[lo] <= 258 && d[lo] <= 32768
        });
        assert(if d[lo] == 0 {
            ll[l[lo] as int] > 0
        } else {
            ll[spec_length_symbol(l[lo] as int)] > 0 && dl[spec_dist_symbol(d[lo] as int)] > 0
        });
        assert(bits =~= y + c0 + (rest + end + z));
        lemma_huffman_cmd_decode(ll, dl, y, l[lo], d[lo], rest + end + z);
        assert(cmds_codable(l, d, lo + 1, hi));
        assert(cmds_have_codes(ll, dl, l, d, lo + 1, hi));
        lemma_inflate_huffman_cmds(ll, dl, y + c0, l, d, lo + 1, hi, z);
        assert(bits =~= (y + c0) + rest + end + z);
        assert(data.len() == c0.len() + rest.len());
        lemma_huffman_cmds_step(
            ll,
            dl,
            bits,
            y.len() as int,
            l[lo],
            d[lo],
            (y.len() + c0.len()) as int,
            l.subrange(lo + 1, hi),
            d.subrange(lo + 1, hi),
            (y.len() + data.len() + end.len()) as int,
        );
        assert(seq![l[lo]] + l.subrange(lo + 1, hi) =~= l.subrange(lo, hi));
        assert(seq![d[lo]] + d.subrange(lo + 1, hi) =~= d.subrange(lo, hi));
    }
}

/// The code length code lengths that a tree header sends: `n` values of 3 bits from bit
/// `j`, for the codes in the sending order; the codes not sent have length 0.
pub open spec fn read_cl_lengths(bits: Seq<bool>, j: int, n: int) -> Seq<u32>
    decreases n,
{
    if n <= 0 {
        Seq::new(19, |c: int| 0u32)
    } else {
        read_cl_lengths(bits, j, n - 1).update(cl_order()[n - 1], lsb_value(bits, j + 3 * (n - 1), 3) as u32)
    }
}

/// The place of each code length code in the sending order.
spec fn cl_position() -> Seq<int> {
    seq![3, 17, 15, 13, 11, 9, 7, 5, 4, 6, 8, 10, 12, 14, 16, 18, 0, 1, 2]
}

proof fn lemma_cl_position()
    ensures
        forall|c: int| 0 <= c < 19 ==> 0 <= #[trigger] cl_position()[c] < 19 && cl_order()[cl_position()[c]] == c,
        forall|k: int| 0 <= k < 19 ==> 0 <= #[trigger] cl_order()[k] < 19 && cl_position()[cl_order()[k]] == k,
{
    assert(cl_order()[0] == 16 && cl_order()[1] == 17 && cl_order()[2] == 18 && cl_order()[3] == 0);
    assert(cl_order()[4] == 8 && cl_order()[5] == 7 && cl_order()[6] == 9 && cl_order()[7] == 6);
    assert(cl_order()[8] == 10 && cl_order()[9] == 5 && cl_order()[10] == 11 && cl_order()[11] == 4);
    assert(cl_order()[12] == 12 && cl_order()[13] == 3 && cl_order()[14] == 13 && cl_order()[15] == 2);
    assert(cl_order()[16] == 14 && cl_order()[17] == 1 && cl_order()[18] == 15);
}

/// The 3 bits of the `k`-th code length code length sent.
proof fn lemma_cl_lengths_bits_at(clcl: Seq<u32>, n: int, k: int)
    requires
        0 <= k < n,
    ensures
        cl_lengths_bits(clcl, n).subrange(3 * k, 3 * k + 3) == lsb_bits(clcl[cl_order()[k]], 3),
    decreases n,
{
    lemma_cl_lengths_bits_len(clcl, n - 1);
    let prev = cl_lengths_bits(clcl, n - 1);
    let last = lsb_bits(clcl[cl_order()[n - 1]], 3);
    assert(cl_lengths_bits(clcl, n) == prev + last);
    if k == n - 1 {
        assert((prev + last).subrange(3 * k, 3 * k + 3) =~= last);
    } else {
        lemma_cl_lengths_bits_at(clcl, n - 1, k);
        assert((prev + last).subrange(3 * k, 3 * k + 3) =~= prev.subrange(3 * k, 3 * k + 3));
    }
}

/// Reading the code length code lengths sent gives back the lengths, with 0 for the codes
/// not sent.
proof fn lemma_read_cl_lengths(bits: Seq<bool>, j: int, clcl: Seq<u32>, n: int, m: int)
    requires
        0 <= m <= n <= 19,
        0 <= j,
        j + 3 * n <= bits.len(),
        clcl.len() == 19,
        forall|c: int| 0 <= c < 19 ==> #[trigger] clcl[c] <= 7,
        bits.subrange(j, j + 3 * n) == cl_lengths_bits(clcl, n),
    ensures
        read_cl_lengths(bits, j, m).len() == 19,
        forall|c: int|
            0 <= c < 19 ==> #[trigger] read_cl_lengths(bits, j, m)[c] == if cl_position()[c] < m {
                clcl[c]
            } else {
                0u32
            },
    decreases m,
{
    lemma_cl_position();
    if m > 0 {
        lemma_read_cl_lengths(bits, j, clcl, n, m - 1);
        let k = m - 1;
        let c0 = cl_order()[k];
        let v = clcl[c0];
        lemma_cl_lengths_bits_at(clcl, n, k);
        lemma_cl_lengths_bits_len(clcl, n);
        assert(bits.subrange(j + 3 * k, j + 3 * k + 3) =~= cl_lengths_bits(clcl, n).subrange(3 * k, 3 * k + 3));
        crate::math::lemma_pow2_small();
        lemma_shift_zero(v, 3);
        lemma_lsb_read(bits, j + 3 * k, v, 3);
        assert forall|c: int| 0 <= c < 19 implies #[trigger] read_cl_lengths(bits, j, m)[c] == if cl_position()[c] < m {
            clcl[c]
        } else {
            0u32
        } by {
            if c == c0 {
                assert(cl_position()[c] == k);
            } else {
                assert(cl_position()[c] != k);
            }
        }
    }
}

/// Reads run-length coded code lengths with the code length code `clcl` from bit `j`,
/// after the lengths `acc` already read, until `total` lengths are read: all the lengths
/// and the bit after them. `None` where the bits hold no such codes, where a copy code has
/// no length before it, or where a run goes past `total`.
pub open spec fn read_code_lengths(clcl: Seq<u32>, bits: Seq<bool>, j: int, total: int, acc: Seq<u32>) -> Option<
    (Seq<u32>, int),
>
    decreases bits.len() - j,
{
    if acc.len() >= total {
        if acc.len() == total {
            Some((acc, j))
        } else {
            None
        }
    } else {
        match huffman_decode(clcl, bits, j) {
            None => None,
            Some((sym, n)) => {
                let e = rle_extra_len(sym as u32);
                if n <= 0 || j + n + e > bits.len() || (sym == 16 && acc.len() == 0) {
                    None
                } else {
                    read_code_lengths(
                        clcl,
                        bits,
                        j + n + e,
                        total,
                        rle_expand(acc, sym as u32, lsb_value(bits, j + n, e as nat) as u32),
                    )
                }
            },
        }
    }
}

/// The lengths `acc` followed by the lengths that run-length codes stand for.
pub open spec fn rle_decode_after(acc: Seq<u32>, rle: Seq<u32>, extra: Seq<u32>) -> Seq<u32>
    decreases rle.len(),
{
    if rle.len() == 0 {
        acc
    } else {
        rle_expand(rle_decode_after(acc, rle.drop_last(), extra.drop_last()), rle.last(), extra.last())
    }
}

proof fn lemma_rle_decode_after_empty(rle: Seq<u32>, extra: Seq<u32>)
    ensures
        rle_decode_after(Seq::empty(), rle, extra) == rle_decode(rle, extra),
    decreases rle.len(),
{
    if rle.len() > 0 {
        lemma_rle_decode_after_empty(rle.drop_last(), extra.drop_last());
    }
}

/// Run-length codes expand one after the other from the front.
proof fn lemma_rle_decode_after_front(acc: Seq<u32>, rle: Seq<u32>, extra: Seq<u32>)
    requires
        rle.len() > 0,
        rle.len() == extra.len(),
    ensures
        rle_decode_after(acc, rle, extra) == rle_decode_after(
            rle_expand(acc, rle[0], extra[0]),
            rle.drop_first(),
            extra.drop_first(),
        ),
    decreases rle.len(),
{
    if rle.len() > 1 {
        lemma_rle_decode_after_front(acc, rle.drop_last(), extra.drop_last());
        assert(rle.drop_last().drop_first() =~= rle.drop_first().drop_last());
        assert(extra.drop_last().drop_first() =~= extra.drop_first().drop_last());
        assert(rle.drop_last()[0] == rle[0]);
        assert(extra.drop_last()[0] == extra[0]);
        let e0 = rle_expand(acc, rle[0], extra[0]);
        assert(rle.drop_first().last() == rle.last());
        assert(extra.drop_first().last() == extra.last());
        assert(rle_decode_after(e0, rle.drop_first(), extra.drop_first()) == rle_expand(
            rle_decode_after(e0, rle.drop_first().drop_last(), extra.drop_first().drop_last()),
            rle.last(),
            extra.last(),
        ));
    } else {
        assert(rle.drop_first().len() == 0);
        assert(rle.drop_last().len() == 0);
        assert(rle.last() == rle[0]);
        assert(extra.last() == extra[0]);
        assert(rle_decode_after(acc, rle.drop_last(), extra.drop_last()) == acc);
    }
}

/// Every run-length code stands for at least one length.
proof fn lemma_rle_decode_after_len(acc: Seq<u32>, rle: Seq<u32>, extra: Seq<u32>)
    requires
        rle.len() == extra.len(),
    ensures
        rle_decode_after(acc, rle, extra).len() >= acc.len() + rle.len(),
    decreases rle.len(),
{
    if rle.len() > 0 {
        lemma_rle_decode_after_len(acc, rle.drop_last(), extra.drop_last());
    }
}

/// The bits of one run-length code and its extra bits.
pub open spec fn item_bits(sym: u32, extra: u32, clcl: Seq<u32>) -> Seq<bool> {
    msb_bits(canonical_code(clcl, sym as int) as u32, clcl[sym as int] as nat) + lsb_bits(extra, rle_extra_len(sym) as nat)
}

/// The coded run-length codes start with the first one.
proof fn lemma_items_stream_front(rle: Seq<u32>, extra: Seq<u32>, clcl: Seq<u32>)
    requires
        rle.len() > 0,
        rle.len() == extra.len(),
    ensures
        items_stream(rle, extra, clcl) == item_bits(rle[0], extra[0], clcl) + items_stream(
            rle.drop_first(),
            extra.drop_first(),
            clcl,
        ),
    decreases rle.len(),
{
    if rle.len() > 1 {
        lemma_items_stream_front(rle.drop_last(), extra.drop_last(), clcl);
        assert(rle.drop_last().drop_first() =~= rle.drop_first().drop_last());
        assert(extra.drop_last().drop_first() =~= extra.drop_first().drop_last());
        assert(rle.drop_last()[0] == rle[0]);
        assert(extra.drop_last()[0] == extra[0]);
        let a = item_bits(rle[0], extra[0], clcl);
        let m = items_stream(rle.drop_first().drop_last(), extra.drop_first().drop_last(), clcl);
        let t = msb_bits(canonical_code(clcl, rle.last() as int) as u32, clcl[rle.last() as int] as nat) + lsb_bits(
            extra.last(),
            rle_extra_len(rle.last()) as nat,
        );
        assert(rle.drop_first().last() == rle.last());
        assert(extra.drop_first().last() == extra.last());
        assert(a + m + t =~= a + (m + t));
        assert(items_stream(rle, extra, clcl) == a + m + t);
    } else {
        assert(rle.drop_first().len() == 0);
        assert(rle.drop_last().len() == 0);
        assert(items_stream(rle.drop_last(), extra.drop_last(), clcl) == Seq::<bool>::empty());
        assert(items_stream(rle, extra, clcl) =~= item_bits(rle[0], extra[0], clcl) + Seq::<bool>::empty());
    }
}

/// Coded run-length codes, each with a code, read back as the lengths they stand for.
proof fn lemma_read_code_lengths(
    clcl: Seq<u32>,
    y: Seq<bool>,
    rle: Seq<u32>,
    extra: Seq<u32>,
    z: Seq<bool>,
    acc: Seq<u32>,
    total: int,
)
    requires
        codes_fit(clcl),
        clcl.len() == 19,
        rle.len() == extra.len(),
        forall|k: int| 0 <= k < rle.len() ==> #[trigger] rle_item_ok(rle[k], extra[k]),
        forall|k: int| 0 <= k < rle.len() ==> clcl[#[trigger] rle[k] as int] > 0,
        acc.len() == 0 && rle.len() > 0 ==> rle[0] != 16,
        rle_decode_after(acc, rle, extra).len() == total,
    ensures
        read_code_lengths(clcl, y + items_stream(rle, extra, clcl) + z, y.len() as int, total, acc) == Some(
            (rle_decode_after(acc, rle, extra), (y.len() + items_stream(rle, extra, clcl).len()) as int),
        ),
    decreases rle.len(),
{
    let items = items_stream(rle, extra, clcl);
    let bits = y + items + z;
    if rle.len() == 0 {
        assert(items == Seq::<bool>::empty());
    } else {
        lemma_rle_decode_after_len(acc, rle, extra);
        lemma_items_stream_front(rle, extra, clcl);
        let s0 = rle[0];
        let e0 = extra[0];
        assert(rle_item_ok(s0, e0));
        assert(clcl[s0 as int] > 0);
        let a = msb_bits(canonical_code(clcl, s0 as int) as u32, clcl[s0 as int] as nat);
        let en = rle_extra_len(s0) as nat;
        let b = lsb_bits(e0, en);
        let rest = items_stream(rle.drop_first(), extra.drop_first(), clcl);
        assert(bits =~= y + a + (b + rest + z));
        lemma_middle(y, a, b + rest + z);
        lemma_huffman_decode(clcl, bits, y.len() as int, s0 as int);
        assert(bits =~= (y + a) + b + (rest + z));
        lemma_middle(y + a, b, rest + z);
        crate::math::lemma_pow2_small();
        lemma_shift_zero(e0, en);
        lemma_lsb_read(bits, (y.len() + a.len()) as int, e0, en);
        let acc2 = rle_expand(acc, s0, e0);
        lemma_rle_decode_after_front(acc, rle, extra);
        assert(bits =~= (y + a + b) + rest + z);
        assert forall|k: int| 0 <= k < rle.drop_first().len() implies #[trigger] rle_item_ok(
            rle.drop_first()[k],
            extra.drop_first()[k],
        ) by {
            assert(rle_item_ok(rle[k + 1], extra[k + 1]));
        }
        assert forall|k: int| 0 <= k < rle.drop_first().len() implies clcl[#[trigger] rle.drop_first()[k] as int] > 0 by {
            assert(clcl[rle[k + 1] as int] > 0);
        }
        assert(acc2.len() > 0);
        lemma_read_code_lengths(clcl, y + a + b, rle.drop_first(), extra.drop_first(), z, acc2, total);
        assert(items.len() == a.len() + b.len() + rest.len());
    }
}

/// `s` padded with zeros to `n` entries.
pub open spec fn pad_zeros(s: Seq<u32>, n: int) -> Seq<u32> {
    Seq::new(
        n as nat,
        |i: int|
            if i < s.len() {
                s[i]
            } else {
                0u32
            },
    )
}

/// Reads a dynamic tree header at bit `i` (RFC 1951, 3.2.7): HLIT, HDIST, HCLEN, the code
/// length code lengths, then the run-length coded code lengths. Returns the 288
/// literal/length and 32 distance code lengths (0 for the codes not sent) and the bit
/// after the header.
pub open spec fn read_tree_header(bits: Seq<bool>, i: int) -> Option<(Seq<u32>, Seq<u32>, int)> {
    if i < 0 || i + 14 > bits.len() {
        None
    } else {
        let hlit = lsb_value(bits, i, 5);
        let hdist = lsb_value(bits, i + 5, 5);
        let hclen = lsb_value(bits, i + 10, 4);
        let j = i + 14 + 3 * (hclen + 4);
        if hlit > 29 || hdist > 29 || j > bits.len() {
            None
        } else {
            let clcl = read_cl_lengths(bits, i + 14, hclen + 4);
            match read_code_lengths(clcl, bits, j, hlit + 257 + hdist + 1, Seq::empty()) {
                None => None,
                Some((lens, e)) => Some(
                    (pad_zeros(lens.take(hlit + 257), 288), pad_zeros(lens.skip(hlit + 257), 32), e),
                ),
            }
        }
    }
}

proof fn lemma_spec_hlit(ll: Seq<u32>, h: int)
    requires
        0 <= h <= 29,
    ensures
        0 <= spec_hlit(ll, h) <= h,
        forall|j: int| spec_hlit(ll, h) + 257 <= j < 257 + h ==> ll[j] == 0,
    decreases h,
{
    if h > 0 && ll[257 + h - 1] == 0 {
        lemma_spec_hlit(ll, h - 1);
    }
}

proof fn lemma_spec_hdist(d: Seq<u32>, h: int)
    requires
        0 <= h <= 29,
    ensures
        0 <= spec_hdist(d, h) <= h,
        forall|j: int| spec_hdist(d, h) + 1 <= j < 1 + h ==> d[j] == 0,
    decreases h,
{
    if h > 0 && d[1 + h - 1] == 0 {
        lemma_spec_hdist(d, h - 1);
    }
}

proof fn lemma_spec_hclen(counts: Seq<usize>, h: int)
    requires
        0 <= h <= 15,
    ensures
        0 <= spec_hclen(counts, h) <= h,
        forall|k: int| spec_hclen(counts, h) + 4 <= k < h + 4 ==> counts[cl_order()[k]] == 0,
    decreases h,
{
    if h > 0 && counts[cl_order()[h + 4 - 1]] == 0 {
        lemma_spec_hclen(counts, h - 1);
    }
}

/// A field of `n` bits at `y.len()` in `y + a + z`, written least significant first,
/// reads back as its value.
proof fn lemma_read_field(y: Seq<bool>, v: u32, n: nat, z: Seq<bool>)
    requires
        n <= 15,
        v < pow2(n),
    ensures
        lsb_value(y + lsb_bits(v, n) + z, y.len() as int, n) == v,
{
    lemma_middle(y, lsb_bits(v, n), z);
    lemma_shift_zero(v, n);
    lemma_lsb_read(y + lsb_bits(v, n) + z, y.len() as int, v, n);
}

/// A tree header of code lengths that the header can describe, whose code length code
/// fits and gives a code to every run-length code used, reads back as those code lengths.
#[verifier::spinoff_prover]
#[verifier::rlimit(40)]
pub proof fn lemma_read_tree_header(
    ll: Seq<u32>,
    d: Seq<u32>,
    rle: Seq<u32>,
    extra: Seq<u32>,
    clcl: Seq<u32>,
    y: Seq<bool>,
    z: Seq<bool>,
)
    requires
        tree_header_ok(ll, d, rle, extra, clcl),
        ll.len() == 288,
        d.len() == 32,
        ll[286] == 0,
        ll[287] == 0,
        d[30] == 0,
        d[31] == 0,
        codes_fit(clcl),
        forall|k: int| 0 <= k < rle.len() ==> clcl[#[trigger] rle[k] as int] > 0,
    ensures
        read_tree_header(y + tree_header_bits(ll, d, rle, extra, clcl) + z, y.len() as int) == Some(
            (ll, d, (y.len() + tree_header_bits(ll, d, rle, extra, clcl).len()) as int),
        ),
{
    let hlit = spec_hlit(ll, 29);
    let hdist = spec_hdist(d, 29);
    let counts = rle_counts(rle);
    let hclen = spec_hclen(counts, 15);
    lemma_spec_hlit(ll, 29);
    lemma_spec_hdist(d, 29);
    lemma_spec_hclen(counts, 15);
    crate::math::lemma_pow2_small();
    let fa = lsb_bits(hlit as u32, 5);
    let fb = lsb_bits(hdist as u32, 5);
    let fc = lsb_bits(hclen as u32, 4);
    let cl = cl_lengths_bits(clcl, hclen + 4);
    let it = items_stream(rle, extra, clcl);
    let tree = tree_header_bits(ll, d, rle, extra, clcl);
    assert(tree == fa + fb + fc + cl + it);
    let bits = y + tree + z;
    let i = y.len() as int;
    lemma_cl_lengths_bits_len(clcl, hclen + 4);
    lemma_items_stream_len(rle, extra, clcl);
    assert(bits =~= y + fa + (fb + fc + cl + it + z));
    lemma_read_field(y, hlit as u32, 5, fb + fc + cl + it + z);
    assert(bits =~= (y + fa) + fb + (fc + cl + it + z));
    lemma_read_field(y + fa, hdist as u32, 5, fc + cl + it + z);
    assert(bits =~= (y + fa + fb) + fc + (cl + it + z));
    lemma_read_field(y + fa + fb, hclen as u32, 4, cl + it + z);
    let j0 = i + 14;
    assert(bits.subrange(j0, j0 + 3 * (hclen + 4)) =~= cl);
    // The code length code lengths read back.
    lemma_rle_decode_after_len(Seq::empty(), rle, extra);
    lemma_rle_decode_after_empty(rle, extra);
    assert(rle.len() <= 316);
    lemma_read_cl_lengths(bits, j0, clcl, hclen + 4, hclen + 4);
    lemma_cl_position();
    assert(read_cl_lengths(bits, j0, hclen + 4) =~= clcl) by {
        assert forall|c: int| 0 <= c < 19 implies read_cl_lengths(bits, j0, hclen + 4)[c] == clcl[c] by {
            let k = cl_position()[c];
            if k >= hclen + 4 {
                assert(counts[cl_order()[k]] == 0);
                lemma_occ_bound(rle, c);
                assert(occ(rle, c) == 0);
            }
        }
    }
    // The run-length coded code lengths read back.
    let total = hlit + 257 + hdist + 1;
    let lens = rle_decode(rle, extra);
    assert(lens == header_lengths(ll, d, hlit + 257, hdist));
    assert(bits =~= (y + fa + fb + fc + cl) + it + z);
    lemma_read_code_lengths(clcl, y + fa + fb + fc + cl, rle, extra, z, Seq::empty(), total);
    assert(pad_zeros(lens.take(hlit + 257), 288) =~= ll);
    assert(pad_zeros(lens.skip(hlit + 257), 32) =~= d);
}

/// What a reader gets from a dynamic-tree block at bit `i`, after the bytes `window`
/// already decoded: the header bits BFINAL, 0, 1, the tree header, then the commands
/// coded with the code lengths the tree header describes, decoded after `window`. Returns
/// the bytes so far, whether the block is final, and the bit after it.
pub open spec fn inflate_dynamic_block(bits: Seq<bool>, i: int, window: Seq<u8>) -> Option<(Seq<u8>, bool, int)> {
    if i < 0 || i + 3 > bits.len() || bits[i + 1] || !bits[i + 2] {
        None
    } else {
        match read_tree_header(bits, i + 3) {
            None => None,
            Some((ll, dl, j)) => match inflate_huffman_cmds(ll, dl, bits, j) {
                None => None,
                Some((l, d, e)) => Some((lz77_decode(window, l, d, 0, l.len() as int), bits[i], e)),
            },
        }
    }
}

/// A block written with a dynamic tree reads back as the bytes it was written for, when
/// its codes are prefix codes: code lengths that fit (the Kraft inequality) and a code for
/// every symbol the block uses. After the bytes before the block, and whatever bits follow
/// it, a reader gets the input up to the end of the block, the block's final flag, and the
/// bit where the block ends.
#[verifier::spinoff_prover]
pub proof fn lemma_dynamic_block_inflate(
    data: Seq<u8>,
    start: int,
    final_block: bool,
    s0: Seq<bool>,
    l: Seq<u16>,
    d: Seq<u16>,
    p: Seq<u32>,
    lo: int,
    hi: int,
    ll: Seq<u32>,
    dl: Seq<u32>,
    rle: Seq<u32>,
    extra: Seq<u32>,
    clcl: Seq<u32>,
    z: Seq<bool>,
)
    requires
        parse_ok(data, l, d, p, lo, hi, start),
        0 <= lo <= hi <= l.len(),
        l.len() == d.len(),
        d.len() == p.len(),
        0 <= start <= data.len(),
        tree_header_ok(ll, dl, rle, extra, clcl),
        ll.len() == 288,
        dl.len() == 32,
        ll[286] == 0,
        ll[287] == 0,
        dl[30] == 0,
        dl[31] == 0,
        codes_fit(ll),
        codes_fit(dl),
        codes_fit(clcl),
        ll[256] > 0,
        cmds_have_codes(ll, dl, l, d, lo, hi),
        forall|k: int| 0 <= k < rle.len() ==> clcl[#[trigger] rle[k] as int] > 0,
    ensures
        ({
            let s1 = dynamic_block_bits(ll, dl, tree_header_bits(ll, dl, rle, extra, clcl), l, d, lo, hi, final_block, s0);
            inflate_dynamic_block(s1 + z, s0.len() as int, data.subrange(0, start)) == Some(
                (data.subrange(0, start + parsed_len(l, d, lo, hi)), final_block, s1.len() as int),
            )
        }),
{
    let tree = tree_header_bits(ll, dl, rle, extra, clcl);
    let s1 = dynamic_block_bits(ll, dl, tree, l, d, lo, hi, final_block, s0);
    let y = s0 + seq![final_block, false, true];
    let datab = lz77_data_bits(codes_of(ll), ll, codes_of(dl), dl, l, d, lo, hi);
    let end = msb_bits(canonical_code(ll, 256) as u32, ll[256] as nat);
    assert(s1 == s0 + seq![final_block, false, true] + tree + datab + end);
    assert forall|i: int| lo <= i < hi implies if #[trigger] d[i] == 0 {
        l[i] < 256
    } else {
        3 <= l[i] <= 258 && d[i] <= 32768
    } by {
        assert(cmd_ok(data, l, d, p, i, start + parsed_len(l, d, lo, i)));
    }
    assert(cmds_codable(l, d, lo, hi));
    assert(s1 + z =~= y + tree + (datab + end + z));
    lemma_read_tree_header(ll, dl, rle, extra, clcl, y, datab + end + z);
    assert(s1 + z =~= (y + tree) + datab + end + z);
    lemma_inflate_huffman_cmds(ll, dl, y + tree, l, d, lo, hi, z);
    assert((s1 + z)[s0.len() as int] == final_block && !(s1 + z)[s0.len() + 1int] && (s1 + z)[s0.len() + 2int]);
    crate::inflate::lemma_decode_sub(data.subrange(0, start), l, d, lo, hi);
    lemma_parse_decodes(data, l, d, p, lo, hi, start);
}

} // verus!
