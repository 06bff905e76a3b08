//! Gzip container (RFC 1952) around a DEFLATE stream.
use crate::checksum::{crc32, spec_crc32};
use crate::deflate::{deflate, deflate_written, parses_valid};
use crate::error::Error;
use crate::util::{wide_usize, BlockType, SafeOptions};
use crate::inflate_stream::{inflate_blocks, lemma_deflate_inflates};
use vstd::prelude::*;

verus! {

/// The ten header bytes: ID1, ID2, CM (deflate), FLG, MTIME (0), XFL (2, best
/// compression), OS (3, Unix).
pub open spec fn gzip_header() -> Seq<u8> {
    seq![31u8, 139u8, 8u8, 0u8, 0u8, 0u8, 0u8, 0u8, 2u8, 3u8]
}

/// The four bytes of `v`, least significant first.
pub open spec fn le32(v: u32) -> Seq<u8> {
    seq![(v % 256) as u8, ((v / 256) % 256) as u8, ((v / 65536) % 256) as u8, ((v / 16777216) % 256) as u8]
}

/// The eight trailer bytes: the CRC-32 of the data and its size modulo 2^32.
pub open spec fn gzip_trailer(data: Seq<u8>) -> Seq<u8> {
    le32(spec_crc32(data)) + le32((data.len() % 0x1_0000_0000) as u32)
}

/// Appends the four bytes of `v`, least significant first.
fn push_le32(v: u32, out: &mut Vec<u8>)
    ensures
        final(out)@ == old(out)@ + le32(v),
{
    proof {
        crate::util::lemma_u32_bytes(v);
    }
    out.push(v as u8);
    out.push((v >> 8) as u8);
    out.push((v >> 16) as u8);
    out.push((v >> 24) as u8);
    proof {
        assert(out@ =~= old(out)@ + le32(v));
    }
}

/// Compresses the data according to the gzip specification, RFC 1952: the header, the
/// data as a final dynamic DEFLATE stream (with the LZ77 parses that `optimal` gives,
/// see `deflate_part`), and the trailer.
pub fn gzip_compress<F: Fn(usize, usize) -> (Vec<u16>, Vec<u16>)>(
    options: &SafeOptions,
    in_data: &[u8],
    out: &mut Vec<u8>,
    optimal: &F,
) -> (r: Result<(), Error>)
    requires
        in_data@.len() < 0xffff_fffe,
        forall|a: usize, b: usize| optimal.requires((a, b)),
    ensures
        r is Err ==> r == Err::<(), Error>(Error::CompressionFailed),
        !wide_usize() ==> r is Err && final(out)@ == old(out)@,
        wide_usize() && parses_valid(optimal, in_data@) ==> r is Ok,
        wide_usize() && in_data@.len() == 0 ==> r is Ok && final(out)@ == old(out)@ + gzip_header() + seq![3u8, 0u8] + gzip_trailer(in_data@),
        r is Ok ==> ({
            let o = old(out)@;
            let f = final(out)@;
            &&& f.len() >= o.len() + 18
            &&& f.subrange(0, o.len() + 10int) == o + gzip_header()
            &&& f.subrange(f.len() - 8, f.len() as int) == gzip_trailer(in_data@)
            &&& exists|b: u8|
                #[trigger] deflate_written(
                    BlockType::DynamicTree,
                    in_data@,
                    true,
                    Seq::empty(),
                    0,
                    f.subrange(o.len() + 10int, f.len() - 8),
                    b,
                )
            &&& inflate_blocks(f.subrange(o.len() + 10int, f.len() - 8), 0, Seq::empty()) == Some(in_data@)
        }),
{
    if usize::BITS != 64 {
        return Err(Error::CompressionFailed);
    }
    let crcvalue = crc32(in_data);
    let mut bp: u8 = 0;
    let ghost o = out@;
    out.push(31);
    out.push(139);
    out.push(8);
    out.push(0);
    out.push(0);
    out.push(0);
    out.push(0);
    out.push(0);
    out.push(2);
    out.push(3);
    let ghost h = out@;
    proof {
        assert(h =~= o + gzip_header());
    }
    let mut body: Vec<u8> = Vec::new();
    match deflate(options, BlockType::DynamicTree, true, in_data, &mut bp, &mut body, optimal) {
        Ok(()) => {},
        Err(e) => {
            return Err(e);
        },
    }
    let ghost body_bytes = body@;
    proof {
        if in_data@.len() == 0 {
            assert(body_bytes == seq![3u8, 0u8]);
        }
    }
    proof {
        assert(crate::bitstream::stream_wf(Seq::<u8>::empty(), 0));
    }
    out.append(&mut body);
    let ghost hb = out@;
    push_le32(crcvalue, out);
    let insize = in_data.len() as u32;
    proof {
        assert(insize == (in_data@.len() % 0x1_0000_0000) as u32);
    }
    push_le32(insize, out);
    proof {
        let f = out@;
        assert(f =~= hb + gzip_trailer(in_data@));
        assert(f.subrange(0, o.len() + 10int) =~= h);
        assert(f.subrange(f.len() - 8, f.len() as int) =~= gzip_trailer(in_data@));
        assert(f.subrange(o.len() + 10int, f.len() - 8) =~= body_bytes);
        assert(deflate_written(BlockType::DynamicTree, in_data@, true, Seq::empty(), 0, body_bytes, bp));
        lemma_deflate_inflates(BlockType::DynamicTree, in_data@, Seq::empty(), body_bytes, bp);
    }
    Ok(())
}

} // verus!
