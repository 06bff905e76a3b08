//! Bit-level view of the DEFLATE output stream and the bit writers.
//!
//! Bits are packed into bytes starting at the least significant bit; `bp` is the number of
//! bits already used in the last byte (0 means that the last byte is full).
use vstd::prelude::*;

verus! {

/// The eight bits of a byte, least significant first.
pub open spec fn byte_bits(b: u8) -> Seq<bool> {
    Seq::new(8, |i: int| (b >> (i as u8)) & 1u8 == 1u8)
}

/// The bits of all bytes, in stream order.
pub open spec fn bytes_bits(s: Seq<u8>) -> Seq<bool>
    decreases s.len(),
{
    if s.len() == 0 {
        Seq::empty()
    } else {
        bytes_bits(s.drop_last()) + byte_bits(s.last())
    }
}

/// The bits written so far into `out`, of which the last byte holds `bp` bits (all 8 when 0).
pub open spec fn stream_bits(out: Seq<u8>, bp: u8) -> Seq<bool> {
    if bp == 0 || out.len() == 0 {
        bytes_bits(out)
    } else {
        bytes_bits(out.drop_last()) + byte_bits(out.last()).take(bp as int)
    }
}

/// A well-formed stream: `bp` is a bit position, and the unused bits of a partial last
/// byte are zero.
pub open spec fn stream_wf(out: Seq<u8>, bp: u8) -> bool {
    &&& bp < 8
    &&& bp != 0 ==> out.len() > 0 && out.last() >> bp == 0
}

/// The lowest `n` bits of `v`, least significant first.
pub open spec fn lsb_bits(v: u32, n: nat) -> Seq<bool> {
    Seq::new(n, |i: int| (v >> (i as u32)) & 1u32 == 1u32)
}

/// The lowest `n` bits of `v`, most significant first (as Huffman codes are written).
pub open spec fn msb_bits(v: u32, n: nat) -> Seq<bool> {
    Seq::new(n, |i: int| (v >> ((n - 1 - i) as u32)) & 1u32 == 1u32)
}

pub(crate) proof fn lemma_bytes_bits_push(s: Seq<u8>, b: u8)
    ensures
        bytes_bits(s.push(b)) == bytes_bits(s) + byte_bits(b),
{
    assert(s.push(b).drop_last() == s);
}

/// Bits of a byte to which bit `bit` was added at position `bp`.
pub(crate) proof fn lemma_or_bit(b: u8, bit: u8, bp: u8)
    requires
        bp < 8,
        bit <= 1,
        b >> bp == 0,
    ensures
        byte_bits(b | (bit << bp)).take(bp + 1) == byte_bits(b).take(bp as int).push(bit == 1),
        (b | (bit << bp)) >> (bp + 1) as u8 == 0 || bp == 7,
{
    let nb = b | (bit << bp);
    assert forall|i: int| 0 <= i < bp implies byte_bits(nb)[i] == byte_bits(b)[i] by {
        let iu = i as u8;
        assert((nb >> iu) & 1u8 == (b >> iu) & 1u8) by (bit_vector)
            requires
                nb == b | (bit << bp),
                iu < bp,
                bp < 8,
        ;
    }
    assert(((nb >> bp) & 1u8 == 1u8) == (bit == 1u8)) by (bit_vector)
        requires
            nb == b | (bit << bp),
            bit <= 1,
            bp < 8,
            b >> bp == 0,
    ;
    assert(nb >> (bp + 1) as u8 == 0 || bp == 7) by (bit_vector)
        requires
            nb == b | (bit << bp),
            bit <= 1,
            bp < 8,
            b >> bp == 0,
    ;
    assert(byte_bits(nb).take(bp + 1) =~= byte_bits(b).take(bp as int).push(bit == 1));
}

/// Eight bits per byte.
pub proof fn lemma_bytes_bits_len(s: Seq<u8>)
    ensures
        bytes_bits(s).len() == 8 * s.len(),
    decreases s.len(),
{
    if s.len() > 0 {
        lemma_bytes_bits_len(s.drop_last());
    }
}

/// The bits of two byte strings one after the other.
pub proof fn lemma_bytes_bits_add(a: Seq<u8>, b: Seq<u8>)
    ensures
        bytes_bits(a + b) == bytes_bits(a) + bytes_bits(b),
    decreases b.len(),
{
    if b.len() == 0 {
        assert(a + b =~= a);
        assert(bytes_bits(b) =~= Seq::<bool>::empty());
        assert(bytes_bits(a) + bytes_bits(b) =~= bytes_bits(a));
    } else {
        lemma_bytes_bits_add(a, b.drop_last());
        assert((a + b).drop_last() =~= a + b.drop_last());
        assert((a + b).last() == b.last());
        assert(bytes_bits(a) + bytes_bits(b) =~= bytes_bits(a) + bytes_bits(b.drop_last()) + byte_bits(b.last()));
    }
}

/// Byte `k` of `s` is bits `8 k .. 8 k + 8` of its bits.
pub proof fn lemma_bytes_bits_at(s: Seq<u8>, k: int)
    requires
        0 <= k < s.len(),
    ensures
        bytes_bits(s).subrange(8 * k, 8 * k + 8) == byte_bits(s[k]),
{
    let a = s.take(k);
    let b = s.skip(k);
    assert(s =~= a + b);
    lemma_bytes_bits_add(a, b);
    lemma_bytes_bits_len(a);
    let c = b.take(1);
    let e = b.skip(1);
    assert(b =~= c + e);
    lemma_bytes_bits_add(c, e);
    assert(c.drop_last() =~= Seq::<u8>::empty());
    assert(c.last() == s[k]);
    assert(bytes_bits(Seq::<u8>::empty()) =~= Seq::<bool>::empty());
    assert(bytes_bits(c) == bytes_bits(c.drop_last()) + byte_bits(c.last()));
    assert(bytes_bits(c) =~= byte_bits(s[k]));
    assert(bytes_bits(s).subrange(8 * k, 8 * k + 8) =~= byte_bits(s[k]));
}

/// Two bytes with the same bits are equal.
pub proof fn lemma_byte_bits_eq(a: u8, b: u8)
    by (bit_vector)
    requires
        ((a >> 0u8) & 1u8 == 1u8) == ((b >> 0u8) & 1u8 == 1u8),
        ((a >> 1u8) & 1u8 == 1u8) == ((b >> 1u8) & 1u8 == 1u8),
        ((a >> 2u8) & 1u8 == 1u8) == ((b >> 2u8) & 1u8 == 1u8),
        ((a >> 3u8) & 1u8 == 1u8) == ((b >> 3u8) & 1u8 == 1u8),
        ((a >> 4u8) & 1u8 == 1u8) == ((b >> 4u8) & 1u8 == 1u8),
        ((a >> 5u8) & 1u8 == 1u8) == ((b >> 5u8) & 1u8 == 1u8),
        ((a >> 6u8) & 1u8 == 1u8) == ((b >> 6u8) & 1u8 == 1u8),
        ((a >> 7u8) & 1u8 == 1u8) == ((b >> 7u8) & 1u8 == 1u8),
    ensures
        a == b,
{
}

/// When the bits of `s` begin the bits of `t`, the bytes of `s` begin `t`.
pub proof fn lemma_bytes_from_bits(s: Seq<u8>, t: Seq<u8>)
    requires
        bytes_bits(s).len() <= bytes_bits(t).len(),
        bytes_bits(t).take(bytes_bits(s).len() as int) == bytes_bits(s),
    ensures
        s.len() <= t.len(),
        t.take(s.len() as int) == s,
{
    lemma_bytes_bits_len(s);
    lemma_bytes_bits_len(t);
    assert forall|k: int| 0 <= k < s.len() implies t[k] == #[trigger] s[k] by {
        lemma_bytes_bits_at(s, k);
        lemma_bytes_bits_at(t, k);
        let x = byte_bits(s[k]);
        let y = byte_bits(t[k]);
        assert forall|i: int| 0 <= i < 8 implies x[i] == y[i] by {
            assert(x[i] == bytes_bits(s)[8 * k + i]);
            assert(y[i] == bytes_bits(t)[8 * k + i]);
            assert(bytes_bits(t).take(bytes_bits(s).len() as int)[8 * k + i] == bytes_bits(t)[8 * k + i]);
        }
        assert(x[0] == y[0] && x[1] == y[1] && x[2] == y[2] && x[3] == y[3]);
        assert(x[4] == y[4] && x[5] == y[5] && x[6] == y[6] && x[7] == y[7]);
        lemma_byte_bits_eq(s[k], t[k]);
    }
    assert(t.take(s.len() as int) =~= s);
}

/// How many bits a well-formed stream holds.
pub proof fn lemma_stream_bits_len(out: Seq<u8>, bp: u8)
    requires
        stream_wf(out, bp),
    ensures
        stream_bits(out, bp).len() == if bp == 0 {
            8 * out.len() as int
        } else {
            8 * (out.len() - 1) + bp
        },
        bytes_bits(out).take(stream_bits(out, bp).len() as int) == stream_bits(out, bp),
{
    lemma_bytes_bits_len(out);
    if bp != 0 {
        lemma_bytes_bits_len(out.drop_last());
        assert(bytes_bits(out).take(stream_bits(out, bp).len() as int) =~= stream_bits(out, bp));
    } else {
        assert(bytes_bits(out).take(stream_bits(out, bp).len() as int) =~= stream_bits(out, bp));
    }
}

/// Appends a single bit to the output bitstream.
pub fn add_bit(bit: u8, bp: &mut u8, out: &mut Vec<u8>)
    requires
        *old(bp) < 8,
    ensures
        *final(bp) == (*old(bp) + 1) % 8,
        (*old(bp) == 0 || old(out)@.len() == 0) ==> final(out)@ == old(out)@.push(bit << *old(bp)),
        (*old(bp) != 0 && old(out)@.len() != 0) ==> final(out)@ == old(out)@.update(
            old(out)@.len() - 1,
            old(out)@.last() | (bit << *old(bp)),
        ),
        stream_wf(old(out)@, *old(bp)) && bit <= 1 ==> stream_wf(final(out)@, *final(bp))
            && stream_bits(final(out)@, *final(bp)) == stream_bits(old(out)@, *old(bp)).push(
            bit == 1,
        ),
{
    let ghost o = out@;
    let ghost b0 = *bp;
    if *bp == 0 || out.len() == 0 {
        out.push(0);
    }
    let last_idx = out.len() - 1;
    let cur = out[last_idx];
    out.set(last_idx, cur | (bit << *bp));
    *bp = (*bp + 1) & 7;
    proof {
        assert(((b0 + 1) as u8) & 7u8 == (b0 + 1) % 8) by (bit_vector)
            requires
                b0 < 8,
        ;
        if b0 == 0 || o.len() == 0 {
            assert(0u8 | (bit << b0) == bit << b0) by (bit_vector);
        }
        if stream_wf(o, b0) && bit <= 1 {
            if b0 == 0 || o.len() == 0 {
                assert(b0 == 0);
                assert(bit << 0u8 == bit) by (bit_vector);
                assert(out@ == o.push(bit));
                lemma_bytes_bits_push(o, bit);
                assert(byte_bits(bit).take(1) =~= seq![bit == 1]) by {
                    assert((bit >> 0u8) & 1u8 == bit) by (bit_vector)
                        requires
                            bit <= 1,
                    ;
                }
                assert(bit >> 1u8 == 0) by (bit_vector)
                    requires
                        bit <= 1,
                ;
                assert(out@.drop_last() == o);
                assert(stream_bits(out@, 1) == stream_bits(o, 0).push(bit == 1));
            } else {
                lemma_or_bit(o.last(), bit, b0);
                assert(out@.drop_last() == o.drop_last());
                if b0 == 7 {
                    assert(byte_bits(out@.last()).take(8) == byte_bits(out@.last()));
                    assert(bytes_bits(out@) == bytes_bits(o.drop_last()) + byte_bits(out@.last()));
                }
            }
        }
    }
}

/// Appends multiple bits to the output bitstream (least significant bit first).
pub fn add_bits(symbol: u32, length: u32, bp: &mut u8, out: &mut Vec<u8>)
    requires
        *old(bp) < 8,
        length <= 32,
    ensures
        *final(bp) == (*old(bp) + length) % 8,
        final(out)@.len() >= old(out)@.len(),
        stream_wf(old(out)@, *old(bp)) ==> stream_wf(final(out)@, *final(bp)) && stream_bits(
            final(out)@,
            *final(bp),
        ) == stream_bits(old(out)@, *old(bp)) + lsb_bits(symbol, length as nat),
{
    let ghost s0 = stream_bits(out@, *bp);
    let ghost wf0 = stream_wf(out@, *bp);
    let ghost b0 = *bp;
    let ghost len0 = out@.len();
    let mut i: u32 = 0;
    while i < length
        invariant
            i <= length <= 32,
            *bp < 8,
            *bp == (b0 + i) % 8,
            out@.len() >= len0,
            wf0 ==> stream_wf(out@, *bp) && stream_bits(out@, *bp) == s0 + lsb_bits(
                symbol,
                i as nat,
            ),
        decreases length - i,
    {
        let bit = ((symbol >> i) & 1) as u8;
        proof {
            assert(((symbol >> i) & 1u32) <= 1u32) by (bit_vector);
        }
        add_bit(bit, bp, out);
        proof {
            assert((((symbol >> i) & 1u32) as u8 == 1u8) == ((symbol >> i) & 1u32 == 1u32))
                by (bit_vector);
            assert(lsb_bits(symbol, (i + 1) as nat) =~= lsb_bits(symbol, i as nat).push(
                (symbol >> i) & 1u32 == 1u32,
            ));
        }
        i = i + 1;
    }
}

/// Appends multiple bits to the output bitstream (most significant bit first, as used for
/// Huffman codes).
pub fn add_huffman_bits(symbol: u32, length: u32, bp: &mut u8, out: &mut Vec<u8>)
    requires
        *old(bp) < 8,
        length <= 32,
    ensures
        *final(bp) == (*old(bp) + length) % 8,
        final(out)@.len() >= old(out)@.len(),
        stream_wf(old(out)@, *old(bp)) ==> stream_wf(final(out)@, *final(bp)) && stream_bits(
            final(out)@,
            *final(bp),
        ) == stream_bits(old(out)@, *old(bp)) + msb_bits(symbol, length as nat),
{
    let ghost s0 = stream_bits(out@, *bp);
    let ghost wf0 = stream_wf(out@, *bp);
    let ghost b0 = *bp;
    let ghost len0 = out@.len();
    let mut i: u32 = 0;
    while i < length
        invariant
            i <= length <= 32,
            *bp < 8,
            *bp == (b0 + i) % 8,
            out@.len() >= len0,
            wf0 ==> stream_wf(out@, *bp) && stream_bits(out@, *bp) == s0 + msb_bits(
                symbol,
                length as nat,
            ).take(i as int),
        decreases length - i,
    {
        let sh = length - i - 1;
        let bit = ((symbol >> sh) & 1) as u8;
        proof {
            assert(((symbol >> sh) & 1u32) <= 1u32) by (bit_vector);
            assert((((symbol >> sh) & 1u32) as u8 == 1u8) == ((symbol >> sh) & 1u32 == 1u32))
                by (bit_vector);
        }
        add_bit(bit, bp, out);
        proof {
            assert(msb_bits(symbol, length as nat).take(i + 1) =~= msb_bits(
                symbol,
                length as nat,
            ).take(i as int).push((symbol >> sh) & 1u32 == 1u32));
        }
        i = i + 1;
    }
    proof {
        assert(msb_bits(symbol, length as nat).take(length as int) =~= msb_bits(
            symbol,
            length as nat,
        ));
    }
}

} // verus!
