//! A DEFLATE reader (RFC 1951) for streams that mix stored, fixed-tree and
//! dynamic-tree blocks, and the proof that what the compressor writes reads back as its
//! input, whatever block types it picks.
use crate::bitstream::{
    bytes_bits, lemma_bytes_bits_add, lemma_bytes_bits_len, lemma_bytes_from_bits, lemma_stream_bits_len, stream_bits,
    stream_wf,
};
use crate::deflate::{
    block_between, block_written, blocks_written, cut_hi, cut_lo, deflate_written, dynamic_block_written,
    fixed_block_written, lemma_dynamic_written_inflates, lemma_parse_sub, lemma_parsed_len_split,
    lemma_stored_blocks_prefix, lemma_stored_header_bits, macro_end, macro_part_ok, macro_parts_written, part_written,
    points_ok, stored_blocks, stored_header, stored_size,
};
use crate::inflate::{inflate_fixed_block, lemma_fixed_block_inflate};
use crate::inflate_dynamic::inflate_dynamic_block;
use crate::lz77::{cmd_len, parse_ok, parsed_len};
use crate::util::BlockType;
use vstd::prelude::*;

verus! {

/// What a reader gets from a stored block whose header starts at bit `i` of the bytes
/// `bytes`, after the bytes `window`: the header bits BFINAL, 0, 0, then, from the next
/// byte boundary on, LEN and its complement NLEN (two bytes each, low byte first) and
/// LEN bytes. Returns the bytes so far, whether the block is final, and the bit after it.
pub open spec fn inflate_stored_block(bytes: Seq<u8>, i: int, window: Seq<u8>) -> Option<(Seq<u8>, bool, int)> {
    let k = (i + 3 + 7) / 8;
    if i < 0 || k + 4 > bytes.len() {
        None
    } else {
        let len = bytes[k] + 256 * bytes[k + 1];
        let nlen = bytes[k + 2] + 256 * bytes[k + 3];
        if len + nlen != 65535 || k + 4 + len > bytes.len() {
            None
        } else {
            Some((window + bytes.subrange(k + 4, k + 4 + len), bytes_bits(bytes)[i], 8 * (k + 4 + len)))
        }
    }
}

/// What a reader gets from the block at bit `i` of `bytes`, after the bytes `window`: the
/// block type in its second and third bits (least significant first) says whether it is
/// stored (0), coded with the fixed tree (1) or with a dynamic tree (2).
pub open spec fn inflate_block(bytes: Seq<u8>, i: int, window: Seq<u8>) -> Option<(Seq<u8>, bool, int)> {
    let bits = bytes_bits(bytes);
    if i < 0 || i + 3 > bits.len() {
        None
    } else if !bits[i + 1] && !bits[i + 2] {
        inflate_stored_block(bytes, i, window)
    } else if bits[i + 1] && !bits[i + 2] {
        inflate_fixed_block(bits, i, window)
    } else if !bits[i + 1] && bits[i + 2] {
        inflate_dynamic_block(bits, i, window)
    } else {
        None
    }
}

/// What a reader gets from the blocks from bit `i` of `bytes` on, after the bytes
/// `window`: all bytes up to the end of the first final block.
pub open spec fn inflate_blocks(bytes: Seq<u8>, i: int, window: Seq<u8>) -> Option<Seq<u8>>
    decreases bytes_bits(bytes).len() - i,
{
    match inflate_block(bytes, i, window) {
        None => None,
        Some((w, fin, e)) => {
            if fin {
                Some(w)
            } else if e <= i || e > bytes_bits(bytes).len() {
                None
            } else {
                inflate_blocks(bytes, e, w)
            }
        },
    }
}

/// When `t` starts with the bytes `a`, its bits start with theirs.
proof fn lemma_bytes_prefix_bits(a: Seq<u8>, t: Seq<u8>)
    requires
        a.len() <= t.len(),
        t.take(a.len() as int) == a,
    ensures
        bytes_bits(t).len() == 8 * t.len(),
        bytes_bits(a).len() == 8 * a.len(),
        bytes_bits(t).take((8 * a.len()) as int) == bytes_bits(a),
{
    assert(t =~= a + t.skip(a.len() as int));
    lemma_bytes_bits_add(a, t.skip(a.len() as int));
    lemma_bytes_bits_len(a);
    lemma_bytes_bits_len(t);
    assert(bytes_bits(t).take((8 * a.len()) as int) =~= bytes_bits(a));
}

proof fn lemma_parsed_len_nonneg(l: Seq<u16>, d: Seq<u16>, lo: int, hi: int)
    ensures
        parsed_len(l, d, lo, hi) >= 0,
    decreases hi - lo,
{
    if hi > lo {
        lemma_parsed_len_nonneg(l, d, lo, hi - 1);
        assert(cmd_len(l, d, hi - 1) >= 0);
    }
}

/// The first stored block that `stored_blocks` writes after `o0`, with which the bytes `t`
/// start, reads back as its bytes.
#[verifier::spinoff_prover]
#[verifier::rlimit(50)]
proof fn lemma_stored_first(t: Seq<u8>, o0: Seq<u8>, b0: u8, fl: u8, data: Seq<u8>, pos: int, bs: int)
    requires
        stream_wf(o0, b0),
        fl <= 1,
        0 <= pos,
        0 <= bs <= 65535,
        pos + bs <= data.len(),
        ({
            let o = stored_header(o0, b0, fl) + seq![
                (bs % 256) as u8,
                (bs / 256) as u8,
                ((65535 - bs) % 256) as u8,
                ((65535 - bs) / 256) as u8,
            ] + data.subrange(pos, pos + bs);
            o.len() <= t.len() && t.take(o.len() as int) == o
        }),
    ensures
        ({
            let h = stored_header(o0, b0, fl);
            let o = h + seq![
                (bs % 256) as u8,
                (bs / 256) as u8,
                ((65535 - bs) % 256) as u8,
                ((65535 - bs) / 256) as u8,
            ] + data.subrange(pos, pos + bs);
            let i = stream_bits(o0, b0).len() as int;
            &&& i + 3 <= 8 * h.len()
            &&& bytes_bits(h).take(i) == stream_bits(o0, b0)
            &&& inflate_block(t, i, data.subrange(0, pos)) == Some(
                (data.subrange(0, pos + bs), fl == 1, (8 * o.len()) as int),
            )
        }),
{
    let s0 = stream_bits(o0, b0);
    let nlen = 65535 - bs;
    let h = stored_header(o0, b0, fl);
    let b3 = ((b0 + 3) % 8) as u8;
    lemma_stored_header_bits(o0, b0, fl);
    let q = seq![(bs % 256) as u8, (bs / 256) as u8, (nlen % 256) as u8, (nlen / 256) as u8];
    let chunk = data.subrange(pos, pos + bs);
    let o = h + q + chunk;
    let i = s0.len() as int;
    let k = h.len() as int;
    lemma_stream_bits_len(h, b3);
    lemma_stream_bits_len(o0, b0);
    assert((i + 3 + 7) / 8 == k);
    assert(t.take(k) =~= h) by {
        assert(t.take(k) =~= t.take(o.len() as int).take(k));
        assert(o.take(k) =~= h);
    }
    lemma_bytes_prefix_bits(h, t);
    let bt = bytes_bits(t);
    assert(bytes_bits(h).take(i + 3) == s0 + seq![fl == 1, false, false]);
    assert(bt[i] == (fl == 1) && !bt[i + 1] && !bt[i + 2]) by {
        assert(bt.take(8 * k)[i] == bt[i]);
        assert(bytes_bits(h).take(i + 3)[i] == bytes_bits(h)[i]);
        assert(bt.take(8 * k)[i + 1] == bt[i + 1]);
        assert(bytes_bits(h).take(i + 3)[i + 1] == bytes_bits(h)[i + 1]);
        assert(bt.take(8 * k)[i + 2] == bt[i + 2]);
        assert(bytes_bits(h).take(i + 3)[i + 2] == bytes_bits(h)[i + 2]);
    }
    assert(t[k] == o[k] && t[k + 1] == o[k + 1] && t[k + 2] == o[k + 2] && t[k + 3] == o[k + 3]) by {
        assert(t.take(o.len() as int)[k] == t[k]);
        assert(t.take(o.len() as int)[k + 1] == t[k + 1]);
        assert(t.take(o.len() as int)[k + 2] == t[k + 2]);
        assert(t.take(o.len() as int)[k + 3] == t[k + 3]);
    }
    assert(t[k] + 256 * t[k + 1] == bs);
    assert(t[k + 2] + 256 * t[k + 3] == nlen);
    assert(t.subrange(k + 4, k + 4 + bs) =~= chunk) by {
        assert forall|x: int| 0 <= x < bs implies t.subrange(k + 4, k + 4 + bs)[x] == chunk[x] by {
            assert(t.take(o.len() as int)[k + 4 + x] == t[k + 4 + x]);
        }
    }
    let w = data.subrange(0, pos);
    assert(w + chunk =~= data.subrange(0, pos + bs));
    assert(inflate_stored_block(t, i, w) == Some((data.subrange(0, pos + bs), fl == 1, (8 * o.len()) as int)));
    assert(bytes_bits(h).take(i) =~= bytes_bits(h).take(i + 3).take(i));
    assert((s0 + seq![fl == 1, false, false]).take(i) =~= s0);
}

/// Stored blocks of `data[pos..end]` written after `o0` (whose last byte holds `b0`
/// bits), with which the bytes `t` start, read back as those bytes.
#[verifier::spinoff_prover]
proof fn lemma_stored_unit(t: Seq<u8>, o0: Seq<u8>, b0: u8, f: bool, data: Seq<u8>, pos: int, end: int)
    requires
        stream_wf(o0, b0),
        0 <= pos <= end <= data.len(),
        stored_blocks(o0, b0, f, data, pos, end).len() <= t.len(),
        t.take(stored_blocks(o0, b0, f, data, pos, end).len() as int) == stored_blocks(o0, b0, f, data, pos, end),
    ensures
        stream_bits(o0, b0).len() < 8 * stored_blocks(o0, b0, f, data, pos, end).len(),
        bytes_bits(stored_blocks(o0, b0, f, data, pos, end)).take(stream_bits(o0, b0).len() as int) == stream_bits(
            o0,
            b0,
        ),
        f ==> inflate_blocks(t, stream_bits(o0, b0).len() as int, data.subrange(0, pos)) == Some(
            data.subrange(0, end),
        ),
        !f ==> inflate_blocks(t, stream_bits(o0, b0).len() as int, data.subrange(0, pos)) == inflate_blocks(
            t,
            (8 * stored_blocks(o0, b0, f, data, pos, end).len()) as int,
            data.subrange(0, end),
        ),
    decreases end - pos,
{
    let s0 = stream_bits(o0, b0);
    let o1 = stored_blocks(o0, b0, f, data, pos, end);
    let bs = stored_size(pos, end);
    let cf = pos + bs >= end;
    let nlen = 65535 - bs;
    let fl: u8 = if f && cf {
        1u8
    } else {
        0u8
    };
    let h = stored_header(o0, b0, fl);
    let q = seq![(bs % 256) as u8, (bs / 256) as u8, (nlen % 256) as u8, (nlen / 256) as u8];
    let chunk = data.subrange(pos, pos + bs);
    let o = h + q + chunk;
    if !(cf || bs <= 0) {
        lemma_stored_blocks_prefix(o, f, data, pos + bs, end);
        assert(o1 == stored_blocks(o, 0, f, data, pos + bs, end));
    } else {
        assert(o1 == o);
    }
    assert(o1.len() >= o.len() && o1.subrange(0, o.len() as int) == o);
    assert(t.take(o.len() as int) =~= o) by {
        assert(t.take(o.len() as int) =~= t.take(o1.len() as int).subrange(0, o.len() as int));
    }
    lemma_stored_first(t, o0, b0, fl, data, pos, bs);
    let i = s0.len() as int;
    let k = h.len() as int;
    assert(o1.take(k) =~= h) by {
        assert(o1.take(k) =~= o1.subrange(0, o.len() as int).take(k));
        assert(o.take(k) =~= h);
    }
    lemma_bytes_prefix_bits(h, o1);
    assert(bytes_bits(o1).take(i) =~= bytes_bits(o1).take(8 * k).take(i));
    lemma_bytes_bits_len(t);
    if f && cf {
        assert(pos + bs == end);
    } else if cf {
        assert(pos + bs == end);
    } else {
        lemma_stored_unit(t, o, 0, f, data, pos + bs, end);
        lemma_bytes_bits_len(o);
        assert(stream_bits(o, 0) == bytes_bits(o));
    }
}

/// A fixed-tree block between the streams `o0`/`b0` and `o1`/`b1`, whose bits begin the
/// bits of `t`, reads back as its bytes.
proof fn lemma_fixed_unit(
    t: Seq<u8>,
    data: Seq<u8>,
    start: int,
    len: int,
    f: bool,
    o0: Seq<u8>,
    b0: u8,
    o1: Seq<u8>,
    b1: u8,
)
    requires
        fixed_block_written(data, start, len, f, stream_bits(o0, b0), stream_bits(o1, b1)),
        0 <= start,
        0 <= len,
        start + len <= data.len(),
        stream_bits(o1, b1).len() <= bytes_bits(t).len(),
        bytes_bits(t).take(stream_bits(o1, b1).len() as int) == stream_bits(o1, b1),
    ensures
        stream_bits(o0, b0).len() < stream_bits(o1, b1).len(),
        stream_bits(o1, b1).take(stream_bits(o0, b0).len() as int) == stream_bits(o0, b0),
        f ==> inflate_blocks(t, stream_bits(o0, b0).len() as int, data.subrange(0, start)) == Some(
            data.subrange(0, start + len),
        ),
        !f ==> inflate_blocks(t, stream_bits(o0, b0).len() as int, data.subrange(0, start)) == inflate_blocks(
            t,
            stream_bits(o1, b1).len() as int,
            data.subrange(0, start + len),
        ),
{
    let s0 = stream_bits(o0, b0);
    let s1 = stream_bits(o1, b1);
    let bt = bytes_bits(t);
    let z = bt.skip(s1.len() as int);
    assert(s1 + z =~= bt);
    lemma_fixed_block_inflate(data, start, len, f, s0, s1, z);
    assert(inflate_block(t, s0.len() as int, data.subrange(0, start)) == Some(
        (data.subrange(0, start + len), f, s1.len() as int),
    ));
}

/// A dynamic-tree block of the commands `lo..hi` between the streams `o0`/`b0` and
/// `o1`/`b1`, whose bits begin the bits of `t`, reads back as its bytes.
proof fn lemma_dynamic_unit(
    t: Seq<u8>,
    data: Seq<u8>,
    start: int,
    l: Seq<u16>,
    d: Seq<u16>,
    p: Seq<u32>,
    lo: int,
    hi: int,
    f: bool,
    o0: Seq<u8>,
    b0: u8,
    o1: Seq<u8>,
    b1: u8,
)
    requires
        dynamic_block_written(l, d, lo, hi, f, stream_bits(o0, b0), stream_bits(o1, b1)),
        parse_ok(data, l, d, p, lo, hi, start),
        0 <= lo <= hi <= l.len(),
        l.len() == d.len(),
        d.len() == p.len(),
        0 <= start <= data.len(),
        stream_bits(o1, b1).len() <= bytes_bits(t).len(),
        bytes_bits(t).take(stream_bits(o1, b1).len() as int) == stream_bits(o1, b1),
    ensures
        stream_bits(o0, b0).len() < stream_bits(o1, b1).len(),
        stream_bits(o1, b1).take(stream_bits(o0, b0).len() as int) == stream_bits(o0, b0),
        f ==> inflate_blocks(t, stream_bits(o0, b0).len() as int, data.subrange(0, start)) == Some(
            data.subrange(0, start + parsed_len(l, d, lo, hi)),
        ),
        !f ==> inflate_blocks(t, stream_bits(o0, b0).len() as int, data.subrange(0, start)) == inflate_blocks(
            t,
            stream_bits(o1, b1).len() as int,
            data.subrange(0, start + parsed_len(l, d, lo, hi)),
        ),
{
    let s0 = stream_bits(o0, b0);
    let s1 = stream_bits(o1, b1);
    let bt = bytes_bits(t);
    let z = bt.skip(s1.len() as int);
    assert(s1 + z =~= bt);
    lemma_dynamic_written_inflates(data, start, l, d, p, lo, hi, f, s0, s1, z);
    assert(inflate_block(t, s0.len() as int, data.subrange(0, start)) == Some(
        (data.subrange(0, start + parsed_len(l, d, lo, hi)), f, s1.len() as int),
    ));
}

/// One block as `block_written` describes it, whose bits begin the bits of `t`, reads
/// back as its bytes: after the bytes before it, a reader gets the bytes up to its end
/// when it is final, and reads on after it otherwise.
proof fn lemma_block_unit(
    t: Seq<u8>,
    data: Seq<u8>,
    start: int,
    len: int,
    l: Seq<u16>,
    d: Seq<u16>,
    p: Seq<u32>,
    lo: int,
    hi: int,
    f: bool,
    o0: Seq<u8>,
    b0: u8,
    o1: Seq<u8>,
    b1: u8,
)
    requires
        block_written(data, start, len, l, d, lo, hi, f, o0, b0, o1, b1),
        stream_wf(o0, b0),
        parse_ok(data, l, d, p, lo, hi, start),
        0 <= lo <= hi <= l.len(),
        l.len() == d.len(),
        d.len() == p.len(),
        0 <= start,
        start + len <= data.len(),
        len == parsed_len(l, d, lo, hi),
        stream_bits(o1, b1).len() <= bytes_bits(t).len(),
        bytes_bits(t).take(stream_bits(o1, b1).len() as int) == stream_bits(o1, b1),
    ensures
        stream_bits(o0, b0).len() < stream_bits(o1, b1).len(),
        stream_bits(o1, b1).take(stream_bits(o0, b0).len() as int) == stream_bits(o0, b0),
        f ==> inflate_blocks(t, stream_bits(o0, b0).len() as int, data.subrange(0, start)) == Some(
            data.subrange(0, start + len),
        ),
        !f ==> inflate_blocks(t, stream_bits(o0, b0).len() as int, data.subrange(0, start)) == inflate_blocks(
            t,
            stream_bits(o1, b1).len() as int,
            data.subrange(0, start + len),
        ),
{
    lemma_parsed_len_nonneg(l, d, lo, hi);
    if b1 == 0 && o1 == stored_blocks(o0, b0, f, data, start, start + len) {
        lemma_stored_written_unit(t, data, start, start + len, f, o0, b0, o1);
    } else if stream_wf(o1, b1) && fixed_block_written(
        data,
        start,
        len,
        f,
        stream_bits(o0, b0),
        stream_bits(o1, b1),
    ) {
        lemma_fixed_unit(t, data, start, len, f, o0, b0, o1, b1);
    } else {
        lemma_dynamic_unit(t, data, start, l, d, p, lo, hi, f, o0, b0, o1, b1);
    }
}

/// Stored blocks of `data[start..end]` between the streams `o0`/`b0` and `o1`, whose
/// bytes begin the bits of `t`, read back as those bytes.
proof fn lemma_stored_written_unit(
    t: Seq<u8>,
    data: Seq<u8>,
    start: int,
    end: int,
    f: bool,
    o0: Seq<u8>,
    b0: u8,
    o1: Seq<u8>,
)
    requires
        o1 == stored_blocks(o0, b0, f, data, start, end),
        stream_wf(o0, b0),
        0 <= start <= end <= data.len(),
        stream_bits(o1, 0).len() <= bytes_bits(t).len(),
        bytes_bits(t).take(stream_bits(o1, 0).len() as int) == stream_bits(o1, 0),
    ensures
        stream_bits(o0, b0).len() < stream_bits(o1, 0).len(),
        stream_bits(o1, 0).take(stream_bits(o0, b0).len() as int) == stream_bits(o0, b0),
        f ==> inflate_blocks(t, stream_bits(o0, b0).len() as int, data.subrange(0, start)) == Some(
            data.subrange(0, end),
        ),
        !f ==> inflate_blocks(t, stream_bits(o0, b0).len() as int, data.subrange(0, start)) == inflate_blocks(
            t,
            stream_bits(o1, 0).len() as int,
            data.subrange(0, end),
        ),
{
    assert(stream_bits(o1, 0) == bytes_bits(o1));
    lemma_bytes_from_bits(o1, t);
    lemma_stored_unit(t, o0, b0, f, data, start, end);
    lemma_bytes_bits_len(o1);
}

/// The blocks from block `j` on, between the cut points of a correct parse of `data`
/// from `instart` on, read back as the bytes of the parse: each stream state begins the
/// bits of `t` when the last one does.
proof fn lemma_blocks_chain(
    t: Seq<u8>,
    data: Seq<u8>,
    instart: int,
    l: Seq<u16>,
    d: Seq<u16>,
    p: Seq<u32>,
    cuts: Seq<usize>,
    f: bool,
    states: Seq<(Seq<u8>, u8)>,
    j: int,
)
    requires
        blocks_written(data, instart, l, d, l.len() as int, cuts, f, states),
        parse_ok(data, l, d, p, 0, l.len() as int, instart),
        l.len() == d.len(),
        d.len() == p.len(),
        points_ok(cuts, l.len() as int),
        0 <= instart,
        instart + parsed_len(l, d, 0, l.len() as int) <= data.len(),
        0 <= j <= cuts.len(),
        stream_wf(states[j].0, states[j].1),
        stream_bits(states.last().0, states.last().1).len() <= bytes_bits(t).len(),
        bytes_bits(t).take(stream_bits(states.last().0, states.last().1).len() as int) == stream_bits(
            states.last().0,
            states.last().1,
        ),
    ensures
        stream_bits(states[j].0, states[j].1).len() < stream_bits(states.last().0, states.last().1).len(),
        bytes_bits(t).take(stream_bits(states[j].0, states[j].1).len() as int) == stream_bits(
            states[j].0,
            states[j].1,
        ),
        f ==> inflate_blocks(
            t,
            stream_bits(states[j].0, states[j].1).len() as int,
            data.subrange(0, instart + parsed_len(l, d, 0, cut_lo(cuts, j))),
        ) == Some(data.subrange(0, instart + parsed_len(l, d, 0, l.len() as int))),
        !f ==> inflate_blocks(
            t,
            stream_bits(states[j].0, states[j].1).len() as int,
            data.subrange(0, instart + parsed_len(l, d, 0, cut_lo(cuts, j))),
        ) == inflate_blocks(
            t,
            stream_bits(states.last().0, states.last().1).len() as int,
            data.subrange(0, instart + parsed_len(l, d, 0, l.len() as int)),
        ),
    decreases cuts.len() - j,
{
    let n = l.len() as int;
    let lo = cut_lo(cuts, j);
    let hi = cut_hi(cuts, n, j);
    assert(block_between(data, instart, l, d, n, cuts, f, states, j));
    assert(0 <= lo <= hi <= n) by {
        if j > 0 {
            assert(cuts[j - 1] <= n);
        }
        if j < cuts.len() {
            assert(cuts[j] <= n);
            if j > 0 {
                assert(cuts[j - 1] <= cuts[j]);
            }
        }
    }
    lemma_parse_sub(data, l, d, p, 0, n, instart, lo, hi);
    lemma_parsed_len_split(l, d, 0, hi, n);
    lemma_parsed_len_nonneg(l, d, hi, n);
    lemma_parsed_len_nonneg(l, d, 0, lo);
    let start = instart + parsed_len(l, d, 0, lo);
    let len = parsed_len(l, d, lo, hi);
    let sj = stream_bits(states[j].0, states[j].1);
    let sk = stream_bits(states[j + 1].0, states[j + 1].1);
    let bt = bytes_bits(t);
    if j == cuts.len() {
        assert(states[j + 1] == states.last());
        lemma_block_unit(
            t,
            data,
            start,
            len,
            l,
            d,
            p,
            lo,
            hi,
            f,
            states[j].0,
            states[j].1,
            states[j + 1].0,
            states[j + 1].1,
        );
        assert(bt.take(sj.len() as int) =~= bt.take(sk.len() as int).take(sj.len() as int));
    } else {
        assert(stream_wf(states[j + 1].0, states[j + 1].1));
        lemma_blocks_chain(t, data, instart, l, d, p, cuts, f, states, j + 1);
        assert(cut_lo(cuts, j + 1) == hi);
        lemma_block_unit(
            t,
            data,
            start,
            len,
            l,
            d,
            p,
            lo,
            hi,
            false,
            states[j].0,
            states[j].1,
            states[j + 1].0,
            states[j + 1].1,
        );
        assert(bt.take(sj.len() as int) =~= bt.take(sk.len() as int).take(sj.len() as int));
    }
}

/// What compressing `data[instart..inend]` writes between the streams `o0`/`b0` and
/// `o1`/`b1`, whatever the block type, reads back as those bytes when its bits begin the
/// bits of `t`.
proof fn lemma_part_unit(
    t: Seq<u8>,
    btype: BlockType,
    data: Seq<u8>,
    instart: int,
    inend: int,
    f: bool,
    o0: Seq<u8>,
    b0: u8,
    o1: Seq<u8>,
    b1: u8,
)
    requires
        part_written(btype, data, instart, inend, f, o0, b0, o1, b1),
        stream_wf(o0, b0),
        0 <= instart <= inend <= data.len(),
        stream_bits(o1, b1).len() <= bytes_bits(t).len(),
        bytes_bits(t).take(stream_bits(o1, b1).len() as int) == stream_bits(o1, b1),
    ensures
        stream_wf(o1, b1),
        stream_bits(o0, b0).len() < stream_bits(o1, b1).len(),
        bytes_bits(t).take(stream_bits(o0, b0).len() as int) == stream_bits(o0, b0),
        f ==> inflate_blocks(t, stream_bits(o0, b0).len() as int, data.subrange(0, instart)) == Some(
            data.subrange(0, inend),
        ),
        !f ==> inflate_blocks(t, stream_bits(o0, b0).len() as int, data.subrange(0, instart)) == inflate_blocks(
            t,
            stream_bits(o1, b1).len() as int,
            data.subrange(0, inend),
        ),
{
    let s0 = stream_bits(o0, b0);
    let s1 = stream_bits(o1, b1);
    let bt = bytes_bits(t);
    match btype {
        BlockType::Uncompressed => {
            lemma_stored_written_unit(t, data, instart, inend, f, o0, b0, o1);
        },
        BlockType::FixedTree => {
            lemma_fixed_unit(t, data, instart, inend - instart, f, o0, b0, o1, b1);
        },
        BlockType::DynamicTree => {
            let (l, d, p, cuts, states) = choose|
                l: Seq<u16>,
                d: Seq<u16>,
                p: Seq<u32>,
                cuts: Seq<usize>,
                states: Seq<(Seq<u8>, u8)>,
            |
                #![trigger blocks_written(data, instart, l, d, l.len() as int, cuts, f, states), parse_ok(data, l, d, p, 0, l.len() as int, instart)]
                blocks_written(data, instart, l, d, l.len() as int, cuts, f, states) && parse_ok(
                    data,
                    l,
                    d,
                    p,
                    0,
                    l.len() as int,
                    instart,
                ) && l.len() == d.len() && d.len() == p.len() && instart + parsed_len(l, d, 0, l.len() as int)
                    == inend && points_ok(cuts, l.len() as int) && states[0] == (o0, b0) && states[states.len()
                    - 1] == (o1, b1);
            assert(states.last() == (o1, b1));
            lemma_blocks_chain(t, data, instart, l, d, p, cuts, f, states, 0);
            assert(cut_lo(cuts, 0) == 0);
            assert(instart + parsed_len(l, d, 0, 0) == instart);
        },
    }
    assert(bt.take(s0.len() as int) =~= bt.take(s1.len() as int).take(s0.len() as int));
}

/// The parts from macro block `j` on read back as the rest of the data.
proof fn lemma_macro_chain(t: Seq<u8>, btype: BlockType, data: Seq<u8>, states: Seq<(Seq<u8>, u8)>, j: int)
    requires
        macro_parts_written(btype, data, true, states),
        0 <= j < states.len() - 1,
        stream_wf(states[j].0, states[j].1),
        stream_bits(states.last().0, states.last().1).len() <= bytes_bits(t).len(),
        bytes_bits(t).take(stream_bits(states.last().0, states.last().1).len() as int) == stream_bits(
            states.last().0,
            states.last().1,
        ),
    ensures
        bytes_bits(t).take(stream_bits(states[j].0, states[j].1).len() as int) == stream_bits(
            states[j].0,
            states[j].1,
        ),
        stream_bits(states[j].0, states[j].1).len() <= stream_bits(states.last().0, states.last().1).len(),
        inflate_blocks(
            t,
            stream_bits(states[j].0, states[j].1).len() as int,
            data.subrange(0, 262144 * j),
        ) == Some(data),
    decreases states.len() - j,
{
    let n = data.len() as int;
    let fj = 262144 * (j + 1) >= n;
    assert(macro_part_ok(btype, data, true, states, j));
    assert(0 <= 262144 * j <= macro_end(n, j) <= n) by {
        assert(262144 * j <= 262144 * (states.len() - 2));
    }
    if fj {
        assert(j + 1 == states.len() - 1) by {
            if j + 1 < states.len() - 1 {
                assert(262144 * (j + 1) <= 262144 * (states.len() - 2));
            }
        }
        assert(states[j + 1] == states.last());
        lemma_part_unit(
            t,
            btype,
            data,
            262144 * j,
            macro_end(n, j),
            true,
            states[j].0,
            states[j].1,
            states[j + 1].0,
            states[j + 1].1,
        );
        assert(data.subrange(0, n) =~= data);
    } else {
        assert(j + 1 < states.len() - 1);
        assert(stream_wf(states[j + 1].0, states[j + 1].1));
        lemma_macro_chain(t, btype, data, states, j + 1);
        lemma_part_unit(
            t,
            btype,
            data,
            262144 * j,
            macro_end(n, j),
            false,
            states[j].0,
            states[j].1,
            states[j + 1].0,
            states[j + 1].1,
        );
        assert(macro_end(n, j) == 262144 * (j + 1));
    }
}

/// Whatever block type it is asked for, what the compressor writes as the final data
/// after whole bytes `o0` reads back as its input: a DEFLATE reader of stored, fixed-tree
/// and dynamic-tree blocks that starts at the end of `o0` gets exactly `data`.
pub proof fn lemma_deflate_inflates(btype: BlockType, data: Seq<u8>, o0: Seq<u8>, o1: Seq<u8>, b1: u8)
    requires
        deflate_written(btype, data, true, o0, 0, o1, b1),
    ensures
        inflate_blocks(o1, (8 * o0.len()) as int, Seq::empty()) == Some(data),
{
    lemma_bytes_bits_len(o0);
    assert(stream_bits(o0, 0) == bytes_bits(o0));
    assert(data.subrange(0, 0) =~= Seq::<u8>::empty());
    if data.len() == 0 {
        assert(stream_wf(o1, b1)) by {
            match btype {
                BlockType::Uncompressed => {},
                BlockType::FixedTree => {},
                BlockType::DynamicTree => {},
            }
        }
        lemma_stream_bits_len(o1, b1);
        lemma_part_unit(o1, btype, data, 0, 0, true, o0, 0, o1, b1);
        assert(data.subrange(0, 0) =~= data);
    } else {
        let states = choose|states: Seq<(Seq<u8>, u8)>|
            #[trigger] macro_parts_written(btype, data, true, states) && states[0] == (o0, 0u8) && states[states.len()
                - 1] == (o1, b1);
        assert(states.last() == (o1, b1));
        assert(macro_part_ok(btype, data, true, states, states.len() - 2));
        assert(stream_wf(o1, b1));
        lemma_stream_bits_len(o1, b1);
        lemma_macro_chain(o1, btype, data, states, 0);
    }
}

} // verus!
