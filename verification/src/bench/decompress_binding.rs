//! Frame decoding for decode-only benchmark runs.

use vstd::prelude::*;
use crate::frame::format::{header_corrupt, read_frame};
use crate::frame::header::unknown_magic;
use crate::frame::compress::append_bytes;
use crate::frame::decompress::{
    checksum_error, lz4f_create_decompression_context, lz4f_decompress_into,
};
use crate::frame::types::{DecompressOptions, FrameInfo, Lz4FError, LZ4F_VERSION};

verus! {

/// State of a decode-only benchmark session (none is kept between calls).
#[derive(Debug, Default)]
pub struct FrameDecompressor;

impl FrameDecompressor {
    /// A session with no state.
    pub fn new() -> (s: Self)
        ensures
            s == FrameDecompressor,
    {
        FrameDecompressor
    }
}

/// Decompresses the complete frame `src`, appending its content to `dst`.
///
/// Fails, leaving `dst` as it was, when the frame is malformed or
/// incomplete, when bytes follow it, or when its content exceeds
/// `dst_capacity` bytes.  Returns the content's length.
pub fn decompress_frame_block(
    _decompressor: &mut FrameDecompressor,
    src: &[u8],
    dst: &mut Vec<u8>,
    dst_capacity: usize,
    skip_checksums: bool,
) -> (r: Result<usize, Lz4FError>)
    ensures
        match r {
            Ok(n) => n <= dst_capacity && final(dst)@.len() == old(dst)@.len() + n
                && final(dst)@.subrange(0, old(dst)@.len() as int) == old(dst)@,
            Err(_) => final(dst)@ == old(dst)@,
        },
        unknown_magic(src@) ==> r == Err::<usize, Lz4FError>(Lz4FError::FrameTypeUnknown),
        src@.len() >= 19 && (exists|i: FrameInfo| header_corrupt(src@, i)) ==> r is Err,
        !skip_checksums && read_frame(src@, false) is Some && read_frame(src@, true) is None ==> (r matches Err(e)
            && checksum_error(e)),
        ({
            let rf = read_frame(src@, !skip_checksums);
            rf is Some && (rf->0).1 == src@.len() && (rf->0).0.len() <= dst_capacity ==> r == Ok::<
                usize,
                Lz4FError,
            >((rf->0).0.len() as usize) && final(dst)@ == old(dst)@ + (rf->0).0
        }),
{
    let mut dctx = lz4f_create_decompression_context(LZ4F_VERSION)?;
    let opts = DecompressOptions { stable_dst: true, skip_checksums };
    assert(crate::frame::decompress::checks_of(Some(&opts)) == !skip_checksums);
    let mut out: Vec<u8> = Vec::new();
    let (consumed, hint) = lz4f_decompress_into(&mut dctx, src, &mut out, Some(&opts))?;
    if hint != 0 {
        return Err(Lz4FError::FrameSizeWrong);
    }
    if consumed != src.len() {
        return Err(Lz4FError::SrcSizeTooLarge);
    }
    if out.len() > dst_capacity {
        return Err(Lz4FError::DstMaxSizeTooSmall);
    }
    append_bytes(dst, out.as_slice());
    proof {
        assert(dst@.subrange(0, old(dst)@.len() as int) =~= old(dst)@);
        if read_frame(src@, !skip_checksums) is Some {
            assert(Seq::<u8>::empty() + (read_frame(src@, !skip_checksums)->0).0 =~= (read_frame(src@, !skip_checksums)->0).0);
        }
    }
    Ok(out.len())
}

} // verus!
