//! Laws of the frame writer stated over the bytes it writes.

use vstd::prelude::*;
use crate::frame::compress::frame_prefs_spec;
use crate::frame::format::lemma_flg_bits;
use crate::frame::header::{flg_of, header_bytes, le8};
use crate::frame::types::{FrameType, Preferences};

verus! {

/// A one-shot frame asked to record its content size (any non-zero content
/// size in the preferences asks) records the length of its source: the
/// header's flag byte has its content-size bit set and the 8 bytes after
/// the block byte hold that length. Asked for none, or with nothing to
/// compress, it records none.
pub proof fn law_one_shot_content_size(n: int, p: Preferences)
    requires
        0 <= n <= u64::MAX,
    ensures
        frame_prefs_spec(n, p).frame_info.content_size == (if p.frame_info.content_size != 0 {
            n
        } else {
            0
        }),
        ({
            let h = header_bytes(frame_prefs_spec(n, p).frame_info);
            &&& p.frame_info.content_size != 0 && n > 0 ==> (h[4] / 8) % 2 == 1 && h.subrange(6, 14)
                == le8(n as nat)
            &&& p.frame_info.content_size == 0 || n == 0 ==> (h[4] / 8) % 2 == 0
        }),
{
    let info = frame_prefs_spec(n, p).frame_info;
    lemma_flg_bits(info);
    let h = header_bytes(info);
    assert(h[4] == flg_of(info));
    if info.content_size != 0 {
        assert(h.subrange(6, 14) =~= le8(info.content_size as nat));
    }
}

/// The frame `lz4f_compress_frame` writes for `n` source bytes with
/// preferences `p` starts with its header (its `ensures`), so its own bytes
/// record the content size: with the option on and a non-empty source, the
/// content-size bit of byte 4 is set and bytes 6 to 13 hold `n`; otherwise
/// the bit is clear.
pub proof fn law_written_frame_records_size(out: Seq<u8>, n: int, p: Preferences)
    requires
        0 <= n <= u64::MAX,
        header_bytes(frame_prefs_spec(n, p).frame_info).is_prefix_of(out),
    ensures
        p.frame_info.content_size != 0 && n > 0 ==> (out[4] / 8) % 2 == 1 && out.subrange(6, 14) == le8(
            n as nat,
        ),
        p.frame_info.content_size == 0 || n == 0 ==> (out[4] / 8) % 2 == 0,
{
    law_one_shot_content_size(n, p);
    let h = header_bytes(frame_prefs_spec(n, p).frame_info);
    assert(h.len() >= 7);
    assert(out[4] == h[4]);
    if p.frame_info.content_size != 0 && n > 0 {
        assert(h.len() >= 15);
        assert(out.subrange(6, 14) =~= h.subrange(6, 14));
    }
}

/// A one-shot frame keeps the caller's checksum choices and dictionary id,
/// and its header says so: the flag byte's content-checksum bit (value 4)
/// and block-checksum bit (value 16) follow the preferences.
pub proof fn law_one_shot_keeps_checksums(n: int, p: Preferences)
    requires
        0 <= n <= u64::MAX,
    ensures
        frame_prefs_spec(n, p).frame_info.content_checksum == p.frame_info.content_checksum,
        frame_prefs_spec(n, p).frame_info.block_checksum == p.frame_info.block_checksum,
        frame_prefs_spec(n, p).frame_info.dict_id == p.frame_info.dict_id,
        frame_prefs_spec(n, p).frame_info.frame_type == FrameType::Frame,
        ({
            let h = header_bytes(frame_prefs_spec(n, p).frame_info);
            &&& ((h[4] / 4) % 2 == 1) == p.frame_info.content_checksum
            &&& ((h[4] / 16) % 2 == 1) == p.frame_info.block_checksum
        }),
{
    let info = frame_prefs_spec(n, p).frame_info;
    lemma_flg_bits(info);
    assert(header_bytes(info)[4] == flg_of(info));
}

} // verus!
