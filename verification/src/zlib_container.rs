//! Zlib container (RFC 1950) around a DEFLATE stream.
use crate::checksum::{adler32, spec_adler32};
use crate::deflate::{deflate, deflate_written, parses_valid};
use crate::error::Error;
use crate::util::{wide_usize, BlockType, SafeOptions};
use crate::inflate_stream::{inflate_blocks, lemma_deflate_inflates};
use vstd::prelude::*;

verus! {

/// The header value: CMF 0x78 (deflate, 32K window) and FLG with FLEVEL 3, completed
/// by FCHECK so that it is a multiple of 31.
pub open spec fn zlib_header_value() -> int {
    let cmfflg = 256 * 120 + 3 * 64;
    cmfflg + (31 - cmfflg % 31)
}

/// The two header bytes.
pub open spec fn zlib_header() -> Seq<u8> {
    seq![(zlib_header_value() / 256) as u8, (zlib_header_value() % 256) as u8]
}

/// The four bytes of `v`, most significant first.
pub open spec fn be32(v: int) -> Seq<u8> {
    seq![((v / 16777216) % 256) as u8, ((v / 65536) % 256) as u8, ((v / 256) % 256) as u8, (v % 256) as u8]
}

/// The header is a multiple of 31, as RFC 1950 asks, and reads 0x78 0xDA.
pub proof fn lemma_zlib_header()
    ensures
        zlib_header_value() % 31 == 0,
        zlib_header() == seq![120u8, 218u8],
{
    assert(zlib_header_value() == 30938);
    assert(zlib_header() =~= seq![120u8, 218u8]);
}

/// Compresses the data according to the zlib specification, RFC 1950: the header, the
/// data as a final dynamic DEFLATE stream (with the LZ77 parses that `optimal` gives,
/// see `deflate_part`), and the Adler-32 checksum, most significant byte first.
pub fn zlib_compress<F: Fn(usize, usize) -> (Vec<u16>, Vec<u16>)>(
    options: &SafeOptions,
    in_data: &[u8],
    out: &mut Vec<u8>,
    optimal: &F,
) -> (r: Result<(), Error>)
    requires
        in_data@.len() < 0xffff_fffe,
        forall|a: usize, b: usize| optimal.requires((a, b)),
    ensures
        r is Err ==> r == Err::<(), Error>(Error::CompressionFailed),
        !wide_usize() ==> r is Err && final(out)@ == old(out)@,
        wide_usize() && parses_valid(optimal, in_data@) ==> r is Ok,
        wide_usize() && in_data@.len() == 0 ==> r is Ok && final(out)@ == old(out)@ + zlib_header() + seq![3u8, 0u8] + be32(spec_adler32(in_data@)),
        r is Ok ==> ({
            let o = old(out)@;
            let f = final(out)@;
            &&& f.len() >= o.len() + 6
            &&& f.subrange(0, o.len() + 2int) == o + zlib_header()
            &&& f.subrange(f.len() - 4, f.len() as int) == be32(spec_adler32(in_data@))
            &&& exists|b: u8|
                #[trigger] deflate_written(
                    BlockType::DynamicTree,
                    in_data@,
                    true,
                    Seq::empty(),
                    0,
                    f.subrange(o.len() + 2int, f.len() - 4),
                    b,
                )
            &&& inflate_blocks(f.subrange(o.len() + 2int, f.len() - 4), 0, Seq::empty()) == Some(in_data@)
        }),
{
    if usize::BITS != 64 {
        return Err(Error::CompressionFailed);
    }
    let checksum = adler32(in_data);
    let mut bp: u8 = 0;
    let ghost o = out@;
    let cmfflg: u32 = 256 * 120 + 3 * 64;
    let fcheck: u32 = 31 - (cmfflg % 31);
    let final_header: u32 = cmfflg + fcheck;
    out.push((final_header / 256) as u8);
    out.push((final_header % 256) as u8);
    let ghost h = out@;
    proof {
        assert(h =~= o + zlib_header());
    }
    let mut body: Vec<u8> = Vec::new();
    match deflate(options, BlockType::DynamicTree, true, in_data, &mut bp, &mut body, optimal) {
        Ok(()) => {},
        Err(e) => {
            return Err(e);
        },
    }
    let ghost body_bytes = body@;
    proof {
        if in_data@.len() == 0 {
            assert(body_bytes == seq![3u8, 0u8]);
        }
    }
    proof {
        assert(crate::bitstream::stream_wf(Seq::<u8>::empty(), 0));
    }
    out.append(&mut body);
    let ghost hb = out@;
    proof {
        crate::util::lemma_u32_bytes(checksum);
    }
    out.push((checksum >> 24) as u8);
    out.push((checksum >> 16) as u8);
    out.push((checksum >> 8) as u8);
    out.push(checksum as u8);
    proof {
        let f = out@;
        assert(f =~= hb + be32(spec_adler32(in_data@)));
        assert(f.subrange(0, o.len() + 2int) =~= h);
        assert(f.subrange(f.len() - 4, f.len() as int) =~= be32(spec_adler32(in_data@)));
        assert(f.subrange(o.len() + 2int, f.len() - 4) =~= body_bytes);
        assert(deflate_written(BlockType::DynamicTree, in_data@, true, Seq::empty(), 0, body_bytes, bp));
        lemma_deflate_inflates(BlockType::DynamicTree, in_data@, Seq::empty(), body_bytes, bp);
    }
    Ok(())
}

} // verus!
