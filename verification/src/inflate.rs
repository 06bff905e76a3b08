//! What a DEFLATE reader gets back from blocks with the fixed Huffman tree (RFC 1951,
//! 3.2.5 and 3.2.6): the bit readers, the fixed codes, and the proofs that the bits the
//! block writer produces read back as the commands it was given, and that a stream of
//! such blocks reads back as the compressed data.
use crate::bitstream::{lsb_bits, msb_bits};
use crate::math::pow2;
use crate::squeeze::{fixed_d_lengths, fixed_ll_length, fixed_ll_lengths};
use crate::bitstream::stream_bits;
use crate::deflate::{
    cmd_code_bits, deflate_written, fixed_block_written, fixed_d_codes, fixed_ll_codes, lz77_data_bits, macro_end,
    macro_part_ok, macro_parts_written, part_written,
};
use crate::util::BlockType;
use crate::lz77::{cmd_ok, lemma_parse_decodes, lz77_decode, parse_ok, parsed_len};
use crate::squeeze::cmds_codable;
use crate::symbols::{
    dist_base_table, dist_code_law, length_base_table, length_code_law, spec_dist_extra_bits, spec_dist_extra_bits_value,
    spec_dist_symbol, spec_dist_symbol_extra_bits, spec_length_extra_bits, spec_length_extra_bits_value,
    spec_length_symbol, spec_length_symbol_extra_bits,
};
use crate::tree::{canonical_code, count_eq, first_code};
use vstd::prelude::*;

verus! {

/// The value of the `n` bits of `bits` from `i` on, the first one most significant (as
/// Huffman codes are read).
pub open spec fn msb_value(bits: Seq<bool>, i: int, n: nat) -> int
    decreases n,
{
    if n == 0 {
        0
    } else {
        2 * msb_value(bits, i, (n - 1) as nat) + if bits[i + n - 1] {
            1int
        } else {
            0int
        }
    }
}

/// The value of the `n` bits of `bits` from `i` on, the first one least significant (as
/// extra bits are read).
pub open spec fn lsb_value(bits: Seq<bool>, i: int, n: nat) -> int
    decreases n,
{
    if n == 0 {
        0
    } else {
        2 * lsb_value(bits, i + 1, (n - 1) as nat) + if bits[i] {
            1int
        } else {
            0int
        }
    }
}

/// The first `n` of the `len` bits of a code read back as the code shifted right by
/// `len - n`.
pub(crate) proof fn lemma_msb_prefix(bits: Seq<bool>, i: int, v: u32, len: nat, n: nat)
    requires
        n <= len <= 31,
        v >> (len as u32) == 0,
        0 <= i,
        i + len <= bits.len(),
        bits.subrange(i, i + len) == msb_bits(v, len),
    ensures
        msb_value(bits, i, n) == (v >> ((len - n) as u32)) as int,
    decreases n,
{
    if n > 0 {
        lemma_msb_prefix(bits, i, v, len, (n - 1) as nat);
        let k = n - 1;
        let s = (len - n) as u32;
        assert(bits[i + k] == msb_bits(v, len)[k]) by {
            assert(bits.subrange(i, i + len)[k] == bits[i + k]);
        }
        assert((v >> s) == ((v >> (s + 1u32)) * 2) + ((v >> s) & 1u32)) by (bit_vector)
            requires
                s < 31,
        ;
        assert((v >> s) & 1u32 <= 1) by (bit_vector);
        assert(((len - 1 - k) as u32) == s);
    }
}

/// `n` bits written least significant first read back as the value they were written from.
pub(crate) proof fn lemma_lsb_read(bits: Seq<bool>, i: int, v: u32, n: nat)
    requires
        n <= 31,
        v >> (n as u32) == 0,
        0 <= i,
        i + n <= bits.len(),
        bits.subrange(i, i + n) == lsb_bits(v, n),
    ensures
        lsb_value(bits, i, n) == v as int,
    decreases n,
{
    if n == 0 {
        assert(v >> 0u32 == v) by (bit_vector);
    } else {
        let w = v >> 1u32;
        let nu = n as u32;
        let nm = (n - 1) as u32;
        assert(w >> nm == 0) by (bit_vector)
            requires
                w == v >> 1u32,
                v >> nu == 0,
                nu == nm + 1,
                nm < 31,
        ;
        assert(bits.subrange(i + 1, i + n) == lsb_bits(w, (n - 1) as nat)) by {
            assert forall|k: int| 0 <= k < n - 1 implies #[trigger] bits.subrange(i + 1, i + n)[k] == lsb_bits(
                w,
                (n - 1) as nat,
            )[k] by {
                assert(bits.subrange(i, i + n)[k + 1] == bits[i + 1 + k]);
                let ku = k as u32;
                assert((v >> (ku + 1u32)) & 1u32 == (w >> ku) & 1u32) by (bit_vector)
                    requires
                        w == v >> 1u32,
                        ku < 31,
                ;
                assert(((k + 1) as u32) == ku + 1);
            }
            assert(bits.subrange(i + 1, i + n) =~= lsb_bits(w, (n - 1) as nat));
        }
        lemma_lsb_read(bits, i + 1, w, (n - 1) as nat);
        assert(bits[i] == lsb_bits(v, n)[0]) by {
            assert(bits.subrange(i, i + n)[0] == bits[i]);
        }
        assert(v == w * 2 + (v & 1u32)) by (bit_vector)
            requires
                w == v >> 1u32,
        ;
        assert((v >> 0u32) & 1u32 == v & 1u32) by (bit_vector);
        assert(v & 1u32 <= 1) by (bit_vector);
    }
}

/// The code of literal/length symbol `s` in the fixed Huffman tree (RFC 1951, 3.2.6):
/// 00110000.. for 0..=143 (8 bits), 110010000.. for 144..=255 (9 bits), 0000000.. for
/// 256..=279 (7 bits) and 11000000.. for 280..=287 (8 bits).
pub open spec fn fixed_ll_code(s: int) -> int {
    if s < 144 {
        48 + s
    } else if s < 256 {
        400 + s - 144
    } else if s < 280 {
        s - 256
    } else {
        192 + s - 280
    }
}

proof fn lemma_fixed_ll_counts(k: int, b: int)
    requires
        0 <= k <= 288,
    ensures
        count_eq(fixed_ll_lengths().take(k), b) == if b == 7 {
            if k <= 256 {
                0
            } else if k <= 280 {
                k - 256
            } else {
                24
            }
        } else if b == 8 {
            if k <= 144 {
                k
            } else if k <= 280 {
                144
            } else {
                144 + k - 280
            }
        } else if b == 9 {
            if k <= 144 {
                0
            } else if k <= 256 {
                k - 144
            } else {
                112
            }
        } else {
            0
        },
    decreases k,
{
    if k > 0 {
        lemma_fixed_ll_counts(k - 1, b);
        assert(fixed_ll_lengths().take(k).drop_last() =~= fixed_ll_lengths().take(k - 1));
        assert(fixed_ll_lengths().take(k).last() == fixed_ll_length(k - 1));
    }
}

/// The canonical codes of the fixed literal/length code lengths are the fixed codes.
pub proof fn lemma_fixed_ll_codes(s: int)
    requires
        0 <= s < 288,
    ensures
        canonical_code(fixed_ll_lengths(), s) == fixed_ll_code(s),
{
    let f = fixed_ll_lengths();
    assert(f.take(288) =~= f);
    assert forall|b: int| #[trigger] count_eq(f, b) == count_eq(f.take(288), b) by {}
    lemma_fixed_ll_counts(288, 1);
    lemma_fixed_ll_counts(288, 2);
    lemma_fixed_ll_counts(288, 3);
    lemma_fixed_ll_counts(288, 4);
    lemma_fixed_ll_counts(288, 5);
    lemma_fixed_ll_counts(288, 6);
    lemma_fixed_ll_counts(288, 7);
    lemma_fixed_ll_counts(288, 8);
    lemma_fixed_ll_counts(288, 9);
    lemma_fixed_ll_counts(s, f[s] as int);
    reveal_with_fuel(first_code, 10);
    assert(first_code(f, 7) == 0);
    assert(first_code(f, 8) == 48);
    assert(first_code(f, 9) == 400);
}

/// The canonical code of distance symbol `s` with the fixed distance code lengths is `s`.
pub proof fn lemma_fixed_d_codes(s: int)
    requires
        0 <= s < 32,
    ensures
        canonical_code(fixed_d_lengths(), s) == s,
{
    let f = fixed_d_lengths();
    assert forall|k: int| 0 <= k <= 32 implies #[trigger] count_eq(f.take(k), 5) == k by {
        lemma_fixed_d_counts(k);
    }
    assert forall|b: int| 1 <= b <= 4 implies #[trigger] count_eq(f, b) == 0 by {
        lemma_fixed_d_counts_other(32, b);
        assert(f.take(32) =~= f);
    }
    reveal_with_fuel(first_code, 6);
    assert(first_code(f, 5) == 0);
}

proof fn lemma_fixed_d_counts(k: int)
    requires
        0 <= k <= 32,
    ensures
        count_eq(fixed_d_lengths().take(k), 5) == k,
    decreases k,
{
    if k > 0 {
        lemma_fixed_d_counts(k - 1);
        assert(fixed_d_lengths().take(k).drop_last() =~= fixed_d_lengths().take(k - 1));
    }
}

proof fn lemma_fixed_d_counts_other(k: int, b: int)
    requires
        0 <= k <= 32,
        b != 5,
    ensures
        count_eq(fixed_d_lengths().take(k), b) == 0,
    decreases k,
{
    if k > 0 {
        lemma_fixed_d_counts_other(k - 1, b);
        assert(fixed_d_lengths().take(k).drop_last() =~= fixed_d_lengths().take(k - 1));
    }
}

/// A value below 2^n has no bits from bit `n` on.
pub(crate) proof fn lemma_shift_zero(v: u32, n: nat)
    requires
        n <= 31,
        v < pow2(n),
    ensures
        v >> (n as u32) == 0,
    decreases n,
{
    if n == 0 {
        assert(v == 0);
        assert(0u32 >> 0u32 == 0) by (bit_vector);
    } else {
        let w = v >> 1u32;
        assert(w == v / 2) by (bit_vector)
            requires
                w == v >> 1u32,
        ;
        lemma_shift_zero(w, (n - 1) as nat);
        let m = (n - 1) as u32;
        assert(v >> (m + 1u32) == w >> m) by (bit_vector)
            requires
                w == v >> 1u32,
                m < 31,
        ;
        assert((n as u32) == m + 1u32);
    }
}

/// Reads a literal/length symbol coded with the fixed tree at bit `i`: the symbol and
/// the length of its code.
pub open spec fn fixed_ll_decode(bits: Seq<bool>, i: int) -> Option<(int, int)> {
    if i < 0 || i + 7 > bits.len() {
        None
    } else if msb_value(bits, i, 7) <= 23 {
        Some((256 + msb_value(bits, i, 7), 7))
    } else if i + 8 > bits.len() {
        None
    } else if 48 <= msb_value(bits, i, 8) <= 191 {
        Some((msb_value(bits, i, 8) - 48, 8))
    } else if 192 <= msb_value(bits, i, 8) <= 199 {
        Some((280 + msb_value(bits, i, 8) - 192, 8))
    } else if i + 9 > bits.len() {
        None
    } else if 400 <= msb_value(bits, i, 9) <= 511 {
        Some((144 + msb_value(bits, i, 9) - 400, 9))
    } else {
        None
    }
}

/// The fixed code of every literal/length symbol reads back as that symbol.
pub proof fn lemma_fixed_ll_decode(bits: Seq<bool>, i: int, sym: int)
    requires
        0 <= sym < 288,
        0 <= i,
        i + fixed_ll_length(sym) <= bits.len(),
        bits.subrange(i, i + fixed_ll_length(sym)) == msb_bits(fixed_ll_code(sym) as u32, fixed_ll_length(sym) as nat),
    ensures
        fixed_ll_decode(bits, i) == Some((sym, fixed_ll_length(sym) as int)),
{
    let len = fixed_ll_length(sym) as nat;
    let c = fixed_ll_code(sym) as u32;
    if sym < 144 || 280 <= sym {
        assert(len == 8);
        assert(48 <= c <= 199);
        assert(c >> 8u32 == 0 && c >> 1u32 >= 24 && c >> 0u32 == c) by (bit_vector)
            requires
                48 <= c <= 199,
        ;
        lemma_msb_prefix(bits, i, c, len, 7);
        lemma_msb_prefix(bits, i, c, len, 8);
    } else if sym < 256 {
        assert(len == 9);
        assert(400 <= c <= 511);
        assert(c >> 9u32 == 0 && c >> 2u32 >= 24 && c >> 1u32 >= 200 && c >> 0u32 == c) by (bit_vector)
            requires
                400 <= c <= 511,
        ;
        lemma_msb_prefix(bits, i, c, len, 7);
        lemma_msb_prefix(bits, i, c, len, 8);
        lemma_msb_prefix(bits, i, c, len, 9);
    } else {
        assert(len == 7);
        assert(c <= 23);
        assert(c >> 7u32 == 0 && c >> 0u32 == c) by (bit_vector)
            requires
                c <= 23,
        ;
        lemma_msb_prefix(bits, i, c, len, 7);
    }
}

/// One command read at bit `i` of a fixed-tree block: a literal (distance 0) or a match
/// with its length and distance, and the bit after it. `None` at the end-of-block code
/// and where the bits hold no command.
pub open spec fn fixed_cmd_decode(bits: Seq<bool>, i: int) -> Option<(u16, u16, int)> {
    match fixed_ll_decode(bits, i) {
        None => None,
        Some((sym, n)) => {
            if sym < 256 {
                Some((sym as u16, 0u16, i + n))
            } else if sym == 256 || sym > 285 {
                None
            } else {
                let j = i + n;
                let le = spec_length_symbol_extra_bits(sym);
                let k = j + le;
                let ds = msb_value(bits, k, 5);
                if le < 0 || k + 5 > bits.len() || ds >= 30 || k + 5 + spec_dist_symbol_extra_bits(ds) > bits.len() {
                    None
                } else {
                    let de = spec_dist_symbol_extra_bits(ds);
                    let len = length_base_table()[sym - 257] + lsb_value(bits, j, le as nat);
                    let dist = dist_base_table()[ds] + lsb_value(bits, k + 5, de as nat);
                    Some((len as u16, dist as u16, k + 5 + de))
                }
            }
        }
    }
}

/// The bits of a coded run at `y.len()` in `y + a + z` are `a`.
pub(crate) proof fn lemma_middle(y: Seq<bool>, a: Seq<bool>, z: Seq<bool>)
    ensures
        (y + a + z).subrange(y.len() as int, (y.len() + a.len()) as int) == a,
{
    assert((y + a + z).subrange(y.len() as int, (y.len() + a.len()) as int) =~= a);
}

/// The regroupings of six runs of bits that the field reads use.
pub(crate) proof fn lemma_regroup(y: Seq<bool>, a: Seq<bool>, b: Seq<bool>, dc: Seq<bool>, e: Seq<bool>, z: Seq<bool>)
    ensures
        y + (a + b + dc + e) + z == y + a + (b + dc + e + z),
        y + (a + b + dc + e) + z == (y + a) + b + (dc + e + z),
        y + (a + b + dc + e) + z == (y + a + b) + dc + (e + z),
        y + (a + b + dc + e) + z == (y + a + b + dc) + e + z,
{
    assert(y + (a + b + dc + e) + z =~= y + a + (b + dc + e + z));
    assert(y + (a + b + dc + e) + z =~= (y + a) + b + (dc + e + z));
    assert(y + (a + b + dc + e) + z =~= (y + a + b) + dc + (e + z));
    assert(y + (a + b + dc + e) + z =~= (y + a + b + dc) + e + z);
}

/// The bits of a match read back field by field: the length symbol, the length's extra
/// bits, the distance symbol and the distance's extra bits.
proof fn lemma_match_fields(y: Seq<bool>, z: Seq<bool>, ls: int, lev: u32, le: nat, ds: u32, dev: u32, de: nat)
    requires
        0 <= ls < 288,
        le <= 5,
        de <= 13,
        lev < pow2(le),
        dev < pow2(de),
        ds < 30,
    ensures
        ({
            let a = msb_bits(fixed_ll_code(ls) as u32, fixed_ll_length(ls) as nat);
            let b = lsb_bits(lev, le);
            let dc = msb_bits(ds, 5);
            let e = lsb_bits(dev, de);
            let bits = y + (a + b + dc + e) + z;
            let i = y.len() as int;
            let j = i + a.len();
            let k = j + b.len();
            &&& fixed_ll_decode(bits, i) == Some((ls, fixed_ll_length(ls) as int))
            &&& lsb_value(bits, j, le) == lev
            &&& msb_value(bits, k, 5) == ds
            &&& lsb_value(bits, k + 5, de) == dev
        }),
{
    let a = msb_bits(fixed_ll_code(ls) as u32, fixed_ll_length(ls) as nat);
    let b = lsb_bits(lev, le);
    let dc = msb_bits(ds, 5);
    let e = lsb_bits(dev, de);
    let bits = y + (a + b + dc + e) + z;
    let i = y.len() as int;
    let j = i + a.len();
    let k = j + b.len();
    lemma_regroup(y, a, b, dc, e, z);
    lemma_middle(y, a, b + dc + e + z);
    lemma_fixed_ll_decode(bits, i, ls);
    lemma_middle(y + a, b, dc + e + z);
    lemma_shift_zero(lev, le);
    lemma_lsb_read(bits, j, lev, le);
    lemma_middle(y + a + b, dc, e + z);
    assert(ds >> 5u32 == 0 && ds >> 0u32 == ds) by (bit_vector)
        requires
            ds < 30,
    ;
    lemma_msb_prefix(bits, k, ds, 5, 5);
    lemma_middle(y + a + b + dc, e, z);
    lemma_shift_zero(dev, de);
    lemma_lsb_read(bits, k + 5, dev, de);
}

/// The bits that the block writer spends on a literal or match with the fixed tree read
/// back as that command.
pub proof fn lemma_fixed_cmd_decode(y: Seq<bool>, l: u16, d: u16, z: Seq<bool>)
    requires
        (d == 0 && l < 256) || (3 <= l <= 258 && 1 <= d <= 32768),
    ensures
        ({
            let c = cmd_code_bits(fixed_ll_codes(), fixed_ll_lengths(), fixed_d_codes(), fixed_d_lengths(), l, d);
            let bits = y + c + z;
            &&& fixed_cmd_decode(bits, y.len() as int) == Some((l, d, (y.len() + c.len()) as int))
            &&& fixed_ll_decode(bits, y.len() as int) != Some((256int, 7int))
        }),
{
    let c = cmd_code_bits(fixed_ll_codes(), fixed_ll_lengths(), fixed_d_codes(), fixed_d_lengths(), l, d);
    let bits = y + c + z;
    let i = y.len() as int;
    if d == 0 {
        let sym = l as int;
        lemma_fixed_ll_codes(sym);
        assert(fixed_ll_codes()[sym] == fixed_ll_code(sym) as u32);
        lemma_middle(y, c, z);
        lemma_fixed_ll_decode(bits, i, sym);
    } else {
        length_code_law(l as int);
        dist_code_law(d as int);
        let ls = spec_length_symbol(l as int);
        let ds = spec_dist_symbol(d as int);
        let le = spec_length_extra_bits(l as int);
        let de = spec_dist_extra_bits(d as int);
        let lev = spec_length_extra_bits_value(l as int);
        let dev = spec_dist_extra_bits_value(d as int);
        lemma_fixed_ll_codes(ls);
        lemma_fixed_d_codes(ds);
        assert(fixed_ll_codes()[ls] == fixed_ll_code(ls) as u32);
        assert(fixed_d_codes()[ds] == ds as u32);
        assert(0 <= le <= 5) by {
            assert(spec_length_symbol_extra_bits(ls) <= 5);
        }
        assert(0 <= de <= 13) by {
            assert(spec_dist_symbol_extra_bits(ds) <= 13);
        }
        crate::math::lemma_pow2_small();
        assert(lev < 32 && dev < 8192) by {
            crate::math::lemma_pow2_increases(le as nat, 5);
            crate::math::lemma_pow2_increases(de as nat, 13);
        }
        lemma_match_fields(y, z, ls, lev as u32, le as nat, ds as u32, dev as u32, de as nat);
        let a = msb_bits(fixed_ll_code(ls) as u32, fixed_ll_length(ls) as nat);
        let b = lsb_bits(lev as u32, le as nat);
        let dc = msb_bits(ds as u32, 5);
        let e = lsb_bits(dev as u32, de as nat);
        assert(c == a + b + dc + e);
        assert(length_base_table()[ls - 257] + lev == l);
        assert(dist_base_table()[ds] + dev == d);
    }
}

/// The commands of a fixed-tree block read from bit `i` up to its end-of-block code:
/// their literals or lengths, their distances, and the bit after the end code.
pub open spec fn inflate_fixed_cmds(bits: Seq<bool>, i: int) -> Option<(Seq<u16>, Seq<u16>, int)>
    decreases bits.len() - i,
{
    if fixed_ll_decode(bits, i) == Some((256int, 7int)) {
        Some((Seq::empty(), Seq::empty(), i + 7))
    } else {
        match fixed_cmd_decode(bits, i) {
            None => None,
            Some((l, d, next)) => {
                if next <= i || next > bits.len() {
                    None
                } else {
                    match inflate_fixed_cmds(bits, next) {
                        None => None,
                        Some((ls, ds, e)) => Some((seq![l] + ls, seq![d] + ds, e)),
                    }
                }
            },
        }
    }
}

/// What a reader gets from a fixed-tree block at bit `i`, after the bytes `window`
/// already decoded: the header bits BFINAL, 1, 0, then the commands, decoded after
/// `window`. Returns the bytes so far, whether the block is final, and the bit after it.
pub open spec fn inflate_fixed_block(bits: Seq<bool>, i: int, window: Seq<u8>) -> Option<(Seq<u8>, bool, int)> {
    if i < 0 || i + 3 > bits.len() || !bits[i + 1] || bits[i + 2] {
        None
    } else {
        match inflate_fixed_cmds(bits, i + 3) {
            None => None,
            Some((l, d, e)) => Some((lz77_decode(window, l, d, 0, l.len() as int), bits[i], e)),
        }
    }
}

/// The bits of the commands `lo..hi` start with those of command `lo`.
proof fn lemma_data_bits_front(l: Seq<u16>, d: Seq<u16>, lo: int, hi: int)
    requires
        lo < hi,
    ensures
        lz77_data_bits(fixed_ll_codes(), fixed_ll_lengths(), fixed_d_codes(), fixed_d_lengths(), l, d, lo, hi)
            == cmd_code_bits(fixed_ll_codes(), fixed_ll_lengths(), fixed_d_codes(), fixed_d_lengths(), l[lo], d[lo])
            + lz77_data_bits(fixed_ll_codes(), fixed_ll_lengths(), fixed_d_codes(), fixed_d_lengths(), l, d, lo + 1, hi),
    decreases hi - lo,
{
    let c0 = cmd_code_bits(fixed_ll_codes(), fixed_ll_lengths(), fixed_d_codes(), fixed_d_lengths(), l[lo], d[lo]);
    let llc = fixed_ll_codes();
    let lll = fixed_ll_lengths();
    let dc = fixed_d_codes();
    let dl = fixed_d_lengths();
    if hi == lo + 1 {
        assert(lz77_data_bits(llc, lll, dc, dl, l, d, lo, lo) == Seq::<bool>::empty());
        assert(lz77_data_bits(llc, lll, dc, dl, l, d, lo + 1, lo + 1) == Seq::<bool>::empty());
        assert(lz77_data_bits(llc, lll, dc, dl, l, d, lo, hi) == lz77_data_bits(llc, lll, dc, dl, l, d, lo, lo) + c0);
        assert(Seq::<bool>::empty() + c0 =~= c0 + Seq::<bool>::empty());
    } else {
        lemma_data_bits_front(l, d, lo, hi - 1);
        let ch = cmd_code_bits(llc, lll, dc, dl, l[hi - 1], d[hi - 1]);
        let mid = lz77_data_bits(llc, lll, dc, dl, l, d, lo + 1, hi - 1);
        assert(lz77_data_bits(llc, lll, dc, dl, l, d, lo, hi) == lz77_data_bits(llc, lll, dc, dl, l, d, lo, hi - 1) + ch);
        assert(lz77_data_bits(llc, lll, dc, dl, l, d, lo + 1, hi) == mid + ch);
        assert(c0 + mid + ch =~= c0 + (mid + ch));
    }
}

/// The code of the end-of-block symbol.
pub open spec fn fixed_end_bits() -> Seq<bool> {
    msb_bits(canonical_code(fixed_ll_lengths(), 256) as u32, 7)
}

/// Reading the commands from a command that is not the end code goes on after it.
proof fn lemma_cmds_step(bits: Seq<bool>, i: int, l0: u16, d0: u16, next: int, ls: Seq<u16>, ds: Seq<u16>, e: int)
    requires
        fixed_ll_decode(bits, i) != Some((256int, 7int)),
        fixed_cmd_decode(bits, i) == Some((l0, d0, next)),
        i < next <= bits.len(),
        inflate_fixed_cmds(bits, next) == Some((ls, ds, e)),
    ensures
        inflate_fixed_cmds(bits, i) == Some((seq![l0] + ls, seq![d0] + ds, e)),
{
}

/// The bits that the block writer spends on codable commands and the end-of-block code
/// read back as those commands.
#[verifier::spinoff_prover]
#[verifier::rlimit(90)]
pub proof fn lemma_inflate_fixed_cmds(y: Seq<bool>, l: Seq<u16>, d: Seq<u16>, lo: int, hi: int, z: Seq<bool>)
    requires
        0 <= lo <= hi <= l.len(),
        l.len() == d.len(),
        cmds_codable(l, d, lo, hi),
    ensures
        ({
            let data = lz77_data_bits(fixed_ll_codes(), fixed_ll_lengths(), fixed_d_codes(), fixed_d_lengths(), l, d, lo, hi);
            inflate_fixed_cmds(y + data + fixed_end_bits() + z, y.len() as int) == Some(
                (l.subrange(lo, hi), d.subrange(lo, hi), (y.len() + data.len() + 7) as int),
            )
        }),
    decreases hi - lo,
{
    let data = lz77_data_bits(fixed_ll_codes(), fixed_ll_lengths(), fixed_d_codes(), fixed_d_lengths(), l, d, lo, hi);
    let end = fixed_end_bits();
    let bits = y + data + end + z;
    lemma_fixed_ll_codes(256);
    if lo == hi {
        assert(data =~= Seq::<bool>::empty());
        lemma_middle(y, end, z);
        assert(bits =~= y + end + z);
        lemma_fixed_ll_decode(bits, y.len() as int, 256);
        assert(l.subrange(lo, hi) =~= Seq::<u16>::empty());
        assert(d.subrange(lo, hi) =~= Seq::<u16>::empty());
    } else {
        lemma_data_bits_front(l, d, lo, hi);
        let c0 = cmd_code_bits(fixed_ll_codes(), fixed_ll_lengths(), fixed_d_codes(), fixed_d_lengths(), l[lo], d[lo]);
        let rest = lz77_data_bits(fixed_ll_codes(), fixed_ll_lengths(), fixed_d_codes(), fixed_d_lengths(), l, d, lo + 1, hi);
        assert(if d[lo] == 0 {
            l[lo] < 256
        } else {
            3 <= l[lo] <= 258 && d[lo] <= 32768
        });
        assert(bits =~= y + c0 + (rest + end + z));
        lemma_fixed_cmd_decode(y, l[lo], d[lo], rest + end + z);
        assert(c0.len() >= 7) by {
            if d[lo] == 0 {
                assert(fixed_ll_lengths()[l[lo] as int] >= 7);
            } else {
                crate::symbols::length_code_law(l[lo] as int);
                assert(fixed_ll_lengths()[spec_length_symbol(l[lo] as int)] >= 7);
            }
        }
        assert(cmds_codable(l, d, lo + 1, hi));
        lemma_inflate_fixed_cmds(y + c0, l, d, lo + 1, hi, z);
        assert(bits =~= (y + c0) + rest + end + z);
        assert(data.len() == c0.len() + rest.len());
        lemma_cmds_step(
            bits,
            y.len() as int,
            l[lo],
            d[lo],
            (y.len() + c0.len()) as int,
            l.subrange(lo + 1, hi),
            d.subrange(lo + 1, hi),
            (y.len() + data.len() + 7) as int,
        );
        assert(seq![l[lo]] + l.subrange(lo + 1, hi) =~= l.subrange(lo, hi));
        assert(seq![d[lo]] + d.subrange(lo + 1, hi) =~= d.subrange(lo, hi));
    }
}

/// Decoding a part of the commands after a window is decoding them in place.
pub(crate) proof fn lemma_decode_sub(w: Seq<u8>, l: Seq<u16>, d: Seq<u16>, lo: int, hi: int)
    requires
        0 <= lo <= hi <= l.len(),
        l.len() == d.len(),
    ensures
        lz77_decode(w, l.subrange(lo, hi), d.subrange(lo, hi), 0, hi - lo) == lz77_decode(w, l, d, lo, hi),
    decreases hi - lo,
{
    if hi > lo {
        lemma_decode_sub(w, l.subrange(lo, hi), d.subrange(lo, hi), 0, hi - lo - 1);
        lemma_decode_sub(w, l, d, lo, hi - 1);
        assert(l.subrange(lo, hi).subrange(0, hi - lo - 1) =~= l.subrange(lo, hi - 1));
        assert(d.subrange(lo, hi).subrange(0, hi - lo - 1) =~= d.subrange(lo, hi - 1));
    }
}

/// A block written with the fixed Huffman tree reads back as the bytes it was written
/// for, whatever bits follow it: after the bytes before the block, a reader gets the input
/// up to the end of the block, the block's final flag, and the bit where the block ends.
pub proof fn lemma_fixed_block_inflate(
    data: Seq<u8>,
    start: int,
    len: int,
    final_block: bool,
    s0: Seq<bool>,
    s1: Seq<bool>,
    z: Seq<bool>,
)
    requires
        fixed_block_written(data, start, len, final_block, s0, s1),
        0 <= start <= data.len(),
    ensures
        inflate_fixed_block(s1 + z, s0.len() as int, data.subrange(0, start)) == Some(
            (data.subrange(0, start + len), final_block, s1.len() as int),
        ),
        s0.len() < s1.len(),
        s1.take(s0.len() as int) == s0,
{
    let (l, d, p, lo, hi) = choose|l: Seq<u16>, d: Seq<u16>, p: Seq<u32>, lo: int, hi: int|
        #[trigger] parse_ok(data, l, d, p, lo, hi, start) && 0 <= lo <= hi <= l.len() && l.len() == d.len() && d.len()
            == p.len() && start + parsed_len(l, d, lo, hi) == start + len && s1 == s0 + seq![final_block, true, false]
            + lz77_data_bits(fixed_ll_codes(), fixed_ll_lengths(), fixed_d_codes(), fixed_d_lengths(), l, d, lo, hi)
            + msb_bits(canonical_code(fixed_ll_lengths(), 256) as u32, 7);
    assert forall|i: int| lo <= i < hi implies if #[trigger] d[i] == 0 {
        l[i] < 256
    } else {
        3 <= l[i] <= 258 && d[i] <= 32768
    } by {
        assert(cmd_ok(data, l, d, p, i, start + parsed_len(l, d, lo, i)));
    }
    let y = s0 + seq![final_block, true, false];
    let bits_data = lz77_data_bits(fixed_ll_codes(), fixed_ll_lengths(), fixed_d_codes(), fixed_d_lengths(), l, d, lo, hi);
    lemma_inflate_fixed_cmds(y, l, d, lo, hi, z);
    assert(s1 + z =~= y + bits_data + fixed_end_bits() + z);
    assert((s1 + z)[s0.len() as int] == final_block && (s1 + z)[s0.len() + 1int] && !(s1 + z)[s0.len() + 2int]);
    lemma_decode_sub(data.subrange(0, start), l, d, lo, hi);
    lemma_parse_decodes(data, l, d, p, lo, hi, start);
    assert(s1.take(s0.len() as int) =~= s0);
}

/// What a reader gets from fixed-tree blocks from bit `i` on, after the bytes `window`:
/// the bytes up to the end of the final block.
pub open spec fn inflate_fixed_blocks(bits: Seq<bool>, i: int, window: Seq<u8>) -> Option<Seq<u8>>
    decreases bits.len() - i,
{
    match inflate_fixed_block(bits, i, window) {
        None => None,
        Some((w, fin, e)) => {
            if fin {
                Some(w)
            } else if e <= i || e > bits.len() {
                None
            } else {
                inflate_fixed_blocks(bits, e, w)
            }
        },
    }
}

/// The stream after every part starts with the stream before it.
proof fn lemma_fixed_parts_prefix(data: Seq<u8>, states: Seq<(Seq<u8>, u8)>, j: int)
    requires
        macro_parts_written(BlockType::FixedTree, data, true, states),
        0 <= j < states.len(),
    ensures
        ({
            let t = stream_bits(states.last().0, states.last().1);
            let sj = stream_bits(states[j].0, states[j].1);
            sj.len() <= t.len() && t.take(sj.len() as int) == sj
        }),
    decreases states.len() - j,
{
    let t = stream_bits(states.last().0, states.last().1);
    let sj = stream_bits(states[j].0, states[j].1);
    if j == states.len() - 1 {
        assert(t.take(sj.len() as int) =~= sj);
    } else {
        lemma_fixed_parts_prefix(data, states, j + 1);
        assert(macro_part_ok(BlockType::FixedTree, data, true, states, j));
        let n = data.len() as int;
        let sk = stream_bits(states[j + 1].0, states[j + 1].1);
        lemma_fixed_block_inflate(
            data,
            262144 * j,
            macro_end(n, j) - 262144 * j,
            262144 * (j + 1) >= n,
            sj,
            sk,
            Seq::empty(),
        );
        assert(t.take(sj.len() as int) =~= t.take(sk.len() as int).take(sj.len() as int));
    }
}

/// The parts from `j` on read back as the rest of the data.
proof fn lemma_fixed_parts_inflate(data: Seq<u8>, states: Seq<(Seq<u8>, u8)>, j: int)
    requires
        macro_parts_written(BlockType::FixedTree, data, true, states),
        0 <= j < states.len() - 1,
    ensures
        inflate_fixed_blocks(
            stream_bits(states.last().0, states.last().1),
            stream_bits(states[j].0, states[j].1).len() as int,
            data.subrange(0, 262144 * j),
        ) == Some(data),
    decreases states.len() - j,
{
    let t = stream_bits(states.last().0, states.last().1);
    let sj = stream_bits(states[j].0, states[j].1);
    let sk = stream_bits(states[j + 1].0, states[j + 1].1);
    let n = data.len() as int;
    assert(macro_part_ok(BlockType::FixedTree, data, true, states, j));
    lemma_fixed_parts_prefix(data, states, j + 1);
    let z = t.skip(sk.len() as int);
    assert(t =~= sk + z);
    let f = 262144 * (j + 1) >= n;
    lemma_fixed_block_inflate(data, 262144 * j, macro_end(n, j) - 262144 * j, f, sj, sk, z);
    if f {
        assert(data.subrange(0, n) =~= data);
    } else {
        assert(j + 1 < states.len() - 1);
        lemma_fixed_parts_inflate(data, states, j + 1);
    }
}

/// The output of compressing with fixed-tree blocks reads back as the input: a reader of
/// fixed-tree blocks from the start of the stream gets the data.
pub proof fn lemma_deflate_fixed_inflate(data: Seq<u8>, o1: Seq<u8>, b1: u8)
    requires
        deflate_written(BlockType::FixedTree, data, true, Seq::empty(), 0, o1, b1),
    ensures
        inflate_fixed_blocks(stream_bits(o1, b1), 0, Seq::empty()) == Some(data),
{
    if data.len() == 0 {
        lemma_fixed_block_inflate(data, 0, 0, true, stream_bits(Seq::empty(), 0), stream_bits(o1, b1), Seq::empty());
        assert(stream_bits(o1, b1) + Seq::<bool>::empty() =~= stream_bits(o1, b1));
        assert(data.subrange(0, 0) =~= data);
        assert(data.subrange(0, 0) =~= Seq::<u8>::empty());
    } else {
        let states = choose|states: Seq<(Seq<u8>, u8)>|
            #[trigger] macro_parts_written(BlockType::FixedTree, data, true, states) && states[0] == (Seq::<u8>::empty(), 0u8)
                && states[states.len() - 1] == (o1, b1);
        lemma_fixed_parts_inflate(data, states, 0);
        assert(data.subrange(0, 0) =~= Seq::<u8>::empty());
    }
}

} // verus!