//! What frame data means: the content that a complete frame decodes to,
//! read unit by unit as the frame format lays it out.

use vstd::prelude::*;
use crate::block::decompress::window_tail;
use crate::block::spec::lz4_decode;
use crate::frame::header::{descriptor, flg_of, hc_of, header_bytes, le4, le8, xxh32_of};
use crate::frame::types::{bsid_code, LZ4F_MAGICNUMBER, LZ4F_MAGIC_SKIPPABLE_START};
use crate::frame::types::{block_size_spec, BlockMode, BlockSizeId, FrameInfo, FrameType};

verus! {

/// The number whose little-endian bytes start `s`.
pub open spec fn le32_of(s: Seq<u8>) -> nat {
    s[0] as nat + 256 * (s[1] as nat) + 65536 * (s[2] as nat) + 16777216 * (s[3] as nat)
}

/// The 4 bytes of a 32-bit number read back give the number.
pub proof fn lemma_le4_value(v: nat)
    requires
        v < 0x1_0000_0000,
    ensures
        le32_of(le4(v)) == v,
{
    let x = v as u32;
    assert(x as nat == (x % 256) as nat + 256 * ((x / 256) % 256) as nat + 65536 * ((x / 65536)
        % 256) as nat + 16777216 * ((x / 16777216) % 256) as nat) by (bit_vector);
}

/// Two 32-bit numbers with the same bytes are equal.
pub proof fn lemma_le4_injective(a: nat, b: nat)
    requires
        a < 0x1_0000_0000,
        b < 0x1_0000_0000,
        le4(a) == le4(b),
    ensures
        a == b,
{
    lemma_le4_value(a);
    lemma_le4_value(b);
}

/// The dictionary a block of a frame decodes against.
pub open spec fn block_dict(info: FrameInfo, hist: Seq<u8>) -> Seq<u8> {
    if info.block_mode == BlockMode::Linked {
        hist
    } else {
        Seq::empty()
    }
}

/// The content of a block's data: the data itself when stored as is, else
/// its decoding against the dictionary, within the frame's block size.
pub open spec fn block_content(data: Seq<u8>, raw: bool, info: FrameInfo, hist: Seq<u8>) -> Option<
    Seq<u8>,
> {
    if raw {
        Some(data)
    } else {
        lz4_decode(data, block_dict(info, hist), block_size_spec(info.block_size_id) as int, false)
    }
}

/// The window later blocks may refer to, after a block of content `c`.
pub open spec fn next_hist(info: FrameInfo, hist: Seq<u8>, c: Seq<u8>) -> Seq<u8> {
    if info.block_mode == BlockMode::Linked {
        window_tail(hist + c)
    } else {
        hist
    }
}

/// The content kept for the content checksum, after a block of content `c`.
pub open spec fn next_content(info: FrameInfo, content: Seq<u8>, c: Seq<u8>) -> Seq<u8> {
    if info.content_checksum {
        content + c
    } else {
        content
    }
}

/// Reads the blocks at the start of `b`, up to and including the end mark
/// and the content checksum, in a frame with parameters `info`; `hist` is
/// the window of content before and `content` the content kept for the
/// checksum. The checksums are verified when `check` holds. Returns the
/// content of the blocks and the bytes they take; `None` when `b` is not
/// such blocks (malformed or cut short).
#[verifier::opaque]
pub open spec fn read_blocks(b: Seq<u8>, info: FrameInfo, hist: Seq<u8>, content: Seq<u8>, check: bool) -> Option<
    (Seq<u8>, int),
>
    decreases b.len(),
{
    if b.len() < 4 {
        None
    } else {
        let v = le32_of(b);
        if v == 0 {
            let need: int = if info.content_checksum { 8 } else { 4 };
            if b.len() < need {
                None
            } else if check && info.content_checksum && le32_of(b.subrange(4, 8)) != xxh32_of(content, 0) as nat {
                None
            } else {
                Some((Seq::empty(), need))
            }
        } else {
            let size: int = (v % 0x8000_0000) as int;
            let raw = v >= 0x8000_0000;
            let crc: int = if info.block_checksum { 4 } else { 0 };
            let unit = 4 + size + crc;
            if size > block_size_spec(info.block_size_id) || b.len() < unit {
                None
            } else {
                let data = b.subrange(4, 4 + size);
                if check && info.block_checksum && le32_of(b.subrange(4 + size, unit)) != xxh32_of(data, 0) as nat {
                    None
                } else {
                    match block_content(data, raw, info, hist) {
                        None => None,
                        Some(c) => match read_blocks(
                            b.subrange(unit, b.len() as int),
                            info,
                            next_hist(info, hist, c),
                            next_content(info, content, c),
                            check,
                        ) {
                            Some((rest, k)) => Some((c + rest, unit + k)),
                            None => None,
                        },
                    }
                }
            }
        }
    }
}

/// `b` starts with the header of a frame with parameters `info`.
pub open spec fn header_at(b: Seq<u8>, info: FrameInfo) -> bool {
    &&& info.frame_type == FrameType::Frame
    &&& info.block_size_id != BlockSizeId::Default
    &&& header_bytes(info).is_prefix_of(b)
}

/// Reads the frame at the start of `b`: its content and its length, or
/// `None` when `b` does not start with a complete frame. The checksums are
/// verified when `check` holds.
#[verifier::opaque]
pub open spec fn read_frame(b: Seq<u8>, check: bool) -> Option<(Seq<u8>, int)> {
    if exists|info: FrameInfo| header_at(b, info) {
        let info = choose|info: FrameInfo| header_at(b, info);
        let h = header_bytes(info).len() as int;
        match read_blocks(b.subrange(h, b.len() as int), info, Seq::empty(), Seq::empty(), check) {
            Some((c, k)) => Some((c, h + k)),
            None => None,
        }
    } else {
        None
    }
}

/// Two 64-bit numbers with the same bytes are equal.
pub proof fn lemma_le8_injective(a: nat, b: nat)
    requires
        a < 0x1_0000_0000_0000_0000,
        b < 0x1_0000_0000_0000_0000,
        le8(a) == le8(b),
    ensures
        a == b,
{
    assert(le4(a % 0x1_0000_0000) =~= le8(a).subrange(0, 4));
    assert(le4(b % 0x1_0000_0000) =~= le8(b).subrange(0, 4));
    assert(le4(a / 0x1_0000_0000) =~= le8(a).subrange(4, 8));
    assert(le4(b / 0x1_0000_0000) =~= le8(b).subrange(4, 8));
    assert(a / 0x1_0000_0000 < 0x1_0000_0000) by (nonlinear_arith)
        requires a < 0x1_0000_0000_0000_0000;
    assert(b / 0x1_0000_0000 < 0x1_0000_0000) by (nonlinear_arith)
        requires b < 0x1_0000_0000_0000_0000;
    lemma_le4_injective(a % 0x1_0000_0000, b % 0x1_0000_0000);
    lemma_le4_injective(a / 0x1_0000_0000, b / 0x1_0000_0000);
    vstd::arithmetic::div_mod::lemma_fundamental_div_mod(a as int, 0x1_0000_0000);
    vstd::arithmetic::div_mod::lemma_fundamental_div_mod(b as int, 0x1_0000_0000);
}

/// The bits of a flag byte.
pub proof fn lemma_flg_bits(info: FrameInfo)
    ensures
        flg_of(info) / 64 == 1,
        (flg_of(info) / 2) % 2 == 0,
        ((flg_of(info) / 32) % 2 == 1) == (info.block_mode == BlockMode::Independent),
        ((flg_of(info) / 16) % 2 == 1) == info.block_checksum,
        ((flg_of(info) / 8) % 2 == 1) == (info.content_size != 0),
        ((flg_of(info) / 4) % 2 == 1) == info.content_checksum,
        (flg_of(info) % 2 == 1) == (info.dict_id != 0),
{
}

/// The length of a frame header.
pub open spec fn header_len(info: FrameInfo) -> int {
    7 + (if info.content_size != 0 { 8int } else { 0 }) + (if info.dict_id != 0 { 4int } else { 0 })
}

/// What a frame header at the start of `b` lays out.
pub proof fn lemma_header_fields(b: Seq<u8>, info: FrameInfo)
    requires
        header_at(b, info),
    ensures
        header_bytes(info).len() == header_len(info),
        b.len() >= header_len(info),
        b.subrange(0, 4) == le4(LZ4F_MAGICNUMBER as nat),
        b[4] == flg_of(info),
        b[5] == (bsid_code(info.block_size_id) * 16) as u8,
        4 <= bsid_code(info.block_size_id) <= 7,
        info.content_size != 0 ==> b.subrange(6, 14) == le8(info.content_size as nat),
        info.dict_id != 0 ==> b.subrange(header_len(info) - 5, header_len(info) - 1) == le4(info.dict_id as nat),
        b.subrange(4, header_len(info) - 1) == descriptor(info),
        b[header_len(info) - 1] == hc_of(descriptor(info)),
{
    let d = descriptor(info);
    let h = header_bytes(info);
    let l = header_len(info);
    assert(h.len() == 4 + d.len() + 1);
    assert(h =~= b.subrange(0, h.len() as int));
    assert(h.subrange(0, 4) =~= le4(LZ4F_MAGICNUMBER as nat));
    assert(b.subrange(0, 4) =~= h.subrange(0, 4));
    assert(h[4] == d[0]);
    assert(h[5] == d[1]);
    assert(h.subrange(4, l - 1) =~= d);
    assert(b.subrange(4, l - 1) =~= h.subrange(4, l - 1));
    assert(h[l - 1] == hc_of(d));
    assert(b.subrange(0, h.len() as int)[l - 1] == b[l - 1]);
    if info.content_size != 0 {
        assert(d.subrange(2, 10) =~= le8(info.content_size as nat));
        assert(b.subrange(6, 14) =~= d.subrange(2, 10));
    }
    if info.dict_id != 0 {
        assert(d.subrange(d.len() - 4, d.len() as int) =~= le4(info.dict_id as nat));
        assert(b.subrange(l - 5, l - 1) =~= d.subrange(d.len() - 4, d.len() as int));
    }
}

/// `b` starts with the header of a frame with parameters `info` but for
/// its checksum byte, which does not match the descriptor.
pub open spec fn header_corrupt(b: Seq<u8>, info: FrameInfo) -> bool {
    let l = header_len(info);
    &&& info.frame_type == FrameType::Frame
    &&& info.block_size_id != BlockSizeId::Default
    &&& b.len() >= l
    &&& b.subrange(0, l - 1) == header_bytes(info).subrange(0, l - 1)
    &&& b[l - 1] != hc_of(descriptor(info))
}

/// What a header with a corrupt checksum byte lays out.
pub proof fn lemma_corrupt_fields(b: Seq<u8>, info: FrameInfo)
    requires
        header_corrupt(b, info),
    ensures
        b.len() >= header_len(info),
        b.subrange(0, 4) == le4(LZ4F_MAGICNUMBER as nat),
        b[4] == flg_of(info),
        b[5] == (bsid_code(info.block_size_id) * 16) as u8,
        4 <= bsid_code(info.block_size_id) <= 7,
        info.content_size != 0 ==> b.subrange(6, 14) == le8(info.content_size as nat),
        info.dict_id != 0 ==> b.subrange(header_len(info) - 5, header_len(info) - 1) == le4(info.dict_id as nat),
        b.subrange(4, header_len(info) - 1) == descriptor(info),
        b[header_len(info) - 1] != hc_of(descriptor(info)),
{
    let l = header_len(info);
    let h = header_bytes(info);
    let d = descriptor(info);
    assert(h.len() == l);
    let b3 = b.subrange(0, l - 1) + seq![hc_of(d)];
    assert(h[l - 1] == hc_of(d));
    assert(b3 =~= h);
    assert(header_at(b3, info));
    lemma_header_fields(b3, info);
    assert(b.subrange(0, 4) =~= b3.subrange(0, 4));
    assert(b[4] == b3[4]);
    assert(b[5] == b3[5]);
    if info.content_size != 0 {
        assert(b.subrange(6, 14) =~= b3.subrange(6, 14));
    }
    if info.dict_id != 0 {
        assert(b.subrange(l - 5, l - 1) =~= b3.subrange(l - 5, l - 1));
    }
    assert(b.subrange(4, l - 1) =~= b3.subrange(4, l - 1));
}

/// No header reads where the checksum byte is corrupt.
pub proof fn lemma_corrupt_not_header(b: Seq<u8>, i1: FrameInfo, i2: FrameInfo)
    requires
        header_corrupt(b, i1),
    ensures
        !header_at(b, i2),
{
    if header_at(b, i2) {
        lemma_corrupt_fields(b, i1);
        lemma_header_fields(b, i2);
        lemma_flg_bits(i1);
        lemma_flg_bits(i2);
        assert(bsid_code(i1.block_size_id) == bsid_code(i2.block_size_id));
        assert(i1.block_size_id == i2.block_size_id);
        assert(i1.block_mode == i2.block_mode);
        if i1.content_size != 0 {
            lemma_le8_injective(i1.content_size as nat, i2.content_size as nat);
        }
        assert(header_len(i1) == header_len(i2));
        if i1.dict_id != 0 {
            lemma_le4_injective(i1.dict_id as nat, i2.dict_id as nat);
        }
        assert(i1 == i2);
    }
}

/// What the first bytes of `b` must be when `b` followed by `more` starts
/// with a frame header: its magic number, its flag and block bytes, and the
/// whole header once `b` is long enough.
pub proof fn lemma_header_prefix(b: Seq<u8>, more: Seq<u8>, i: FrameInfo)
    requires
        header_at(b + more, i),
    ensures
        b.len() >= 4 ==> b.subrange(0, 4) == le4(LZ4F_MAGICNUMBER as nat),
        b.len() >= 6 ==> b[4] == flg_of(i) && b[5] == (bsid_code(i.block_size_id) * 16) as u8,
        4 <= bsid_code(i.block_size_id) <= 7,
        b.len() >= header_len(i) ==> header_at(b, i),
{
    let c = b + more;
    lemma_header_fields(c, i);
    if b.len() >= 4 {
        assert(b.subrange(0, 4) =~= c.subrange(0, 4));
    }
    if b.len() >= 6 {
        assert(b[4] == c[4] && b[5] == c[5]);
    }
    if b.len() >= header_len(i) {
        assert forall|k: int| 0 <= k < header_bytes(i).len() implies header_bytes(i)[k] == b[k] by {
            assert(header_bytes(i)[k] == c[k]);
        }
        assert(header_bytes(i) =~= b.subrange(0, header_bytes(i).len() as int));
    }
}

/// Data starting with a skippable frame's header starts no frame, whatever
/// follows it.
pub proof fn lemma_skippable_no_frame(b: Seq<u8>, m: u32, size: u32, i: FrameInfo)
    requires
        b.len() >= 8,
        LZ4F_MAGIC_SKIPPABLE_START <= m,
        b.subrange(0, 8) == le4(m as nat) + le4(size as nat),
    ensures
        !header_at(b, i),
{
    if header_at(b, i) {
        lemma_header_fields(b, i);
        assert(b.subrange(0, 4) =~= b.subrange(0, 8).subrange(0, 4));
        assert((le4(m as nat) + le4(size as nat)).subrange(0, 4) =~= le4(m as nat));
        lemma_le4_injective(m as nat, LZ4F_MAGICNUMBER as nat);
    }
}

/// A header with a corrupt checksum byte starts with a frame's magic
/// number, not a skippable frame's.
pub proof fn lemma_corrupt_not_skippable(b: Seq<u8>, i: FrameInfo, m: u32, size: u32)
    requires
        header_corrupt(b, i),
        b.len() >= 8,
        LZ4F_MAGIC_SKIPPABLE_START <= m,
    ensures
        b.subrange(0, 8) != le4(m as nat) + le4(size as nat),
{
    if b.subrange(0, 8) == le4(m as nat) + le4(size as nat) {
        lemma_corrupt_fields(b, i);
        assert(b.subrange(0, 4) =~= b.subrange(0, 8).subrange(0, 4));
        assert((le4(m as nat) + le4(size as nat)).subrange(0, 4) =~= le4(m as nat));
        lemma_le4_injective(m as nat, LZ4F_MAGICNUMBER as nat);
    }
}

/// A frame header determines the parameters it was written for.
pub proof fn lemma_header_unique(b: Seq<u8>, i1: FrameInfo, i2: FrameInfo)
    requires
        header_at(b, i1),
        header_at(b, i2),
    ensures
        i1 == i2,
{
    lemma_header_fields(b, i1);
    lemma_header_fields(b, i2);
    lemma_flg_bits(i1);
    lemma_flg_bits(i2);
    assert(bsid_code(i1.block_size_id) == bsid_code(i2.block_size_id));
    assert(i1.block_size_id == i2.block_size_id);
    assert(i1.block_mode == i2.block_mode);
    if i1.content_size != 0 {
        lemma_le8_injective(i1.content_size as nat, i2.content_size as nat);
    }
    assert(header_len(i1) == header_len(i2));
    if i1.dict_id != 0 {
        lemma_le4_injective(i1.dict_id as nat, i2.dict_id as nat);
    }
}

/// The first block of blocks that read: where it ends, and what the rest
/// reads to.
pub proof fn lemma_read_blocks_block(b: Seq<u8>, info: FrameInfo, hist: Seq<u8>, content: Seq<u8>, check: bool)
    requires
        read_blocks(b, info, hist, content, check) is Some,
        b.len() >= 4,
        le32_of(b) != 0,
    ensures
        ({
            let v = le32_of(b);
            let size: int = (v % 0x8000_0000) as int;
            let raw = v >= 0x8000_0000;
            let crc: int = if info.block_checksum { 4 } else { 0 };
            let unit = 4 + size + crc;
            let data = b.subrange(4, 4 + size);
            &&& size <= block_size_spec(info.block_size_id)
            &&& unit <= b.len()
            &&& (check && info.block_checksum ==> le32_of(b.subrange(4 + size, unit)) == xxh32_of(data, 0) as nat)
            &&& block_content(data, raw, info, hist) is Some
            &&& {
                let c = block_content(data, raw, info, hist)->0;
                let rest = read_blocks(b.subrange(unit, b.len() as int), info, next_hist(info, hist, c), next_content(info, content, c), check);
                let r0 = rest->0;
                &&& rest is Some
                &&& read_blocks(b, info, hist, content, check) == Some((c + r0.0, unit + r0.1))
            }
        }),
{
    reveal(read_blocks);
}

/// The end mark of blocks that read: its length, and its checksum.
pub proof fn lemma_read_blocks_end(b: Seq<u8>, info: FrameInfo, hist: Seq<u8>, content: Seq<u8>, check: bool)
    requires
        read_blocks(b, info, hist, content, check) is Some,
        b.len() >= 4,
        le32_of(b) == 0,
    ensures
        ({
            let need: int = if info.content_checksum { 8 } else { 4 };
            &&& need <= b.len()
            &&& (check && info.content_checksum ==> le32_of(b.subrange(4, 8)) == xxh32_of(content, 0) as nat)
            &&& read_blocks(b, info, hist, content, check) == Some((Seq::<u8>::empty(), need))
        }),
{
    reveal(read_blocks);
}

/// Blocks that read take at least 4 bytes, and no more than there are.
pub proof fn lemma_read_blocks_len(b: Seq<u8>, info: FrameInfo, hist: Seq<u8>, content: Seq<u8>, check: bool)
    requires
        read_blocks(b, info, hist, content, check) is Some,
    ensures
        b.len() >= 4,
        4 <= (read_blocks(b, info, hist, content, check)->0).1 <= b.len(),
    decreases b.len(),
{
    reveal(read_blocks);
    if le32_of(b) != 0 {
        let v = le32_of(b);
        let size: int = (v % 0x8000_0000) as int;
        let crc: int = if info.block_checksum { 4 } else { 0 };
        let unit = 4 + size + crc;
        let data = b.subrange(4, 4 + size);
        let raw = v >= 0x8000_0000;
        let c = block_content(data, raw, info, hist)->0;
        lemma_read_blocks_len(
            b.subrange(unit, b.len() as int),
            info,
            next_hist(info, hist, c),
            next_content(info, content, c),
            check,
        );
    }
}

/// A frame that reads: its header and its blocks.
pub proof fn lemma_read_frame_parts(b: Seq<u8>, check: bool)
    requires
        read_frame(b, check) is Some,
    ensures
        exists|info: FrameInfo| header_at(b, info),
        ({
            let info = choose|info: FrameInfo| header_at(b, info);
            let h = header_bytes(info).len() as int;
            let rb = read_blocks(b.subrange(h, b.len() as int), info, Seq::empty(), Seq::empty(), check);
            let r0 = rb->0;
            &&& header_at(b, info)
            &&& rb is Some
            &&& read_frame(b, check) == Some((r0.0, h + r0.1))
        }),
{
    reveal(read_frame);
}

/// A frame whose header is that of `info` reads as its blocks do.
pub proof fn lemma_read_frame_header(b: Seq<u8>, info: FrameInfo, check: bool)
    requires
        header_at(b, info),
    ensures
        read_frame(b, check) == match read_blocks(
            b.subrange(header_len(info), b.len() as int),
            info,
            Seq::empty(),
            Seq::empty(),
            check,
        ) {
            Some((c, k)) => Some((c, header_len(info) + k)),
            None => None,
        },
{
    reveal(read_frame);
    let i2 = choose|i: FrameInfo| header_at(b, i);
    lemma_header_unique(b, i2, info);
    lemma_header_fields(b, info);
}

/// An end mark that has fully arrived reads when its checksum is not
/// checked or matches.
pub proof fn lemma_read_blocks_end_ok(b: Seq<u8>, info: FrameInfo, hist: Seq<u8>, content: Seq<u8>, check: bool)
    requires
        b.len() >= (if info.content_checksum { 8int } else { 4int }),
        b.len() >= 4,
        le32_of(b) == 0,
        !(check && info.content_checksum && le32_of(b.subrange(4, 8)) != xxh32_of(content, 0) as nat),
    ensures
        read_blocks(b, info, hist, content, check) is Some,
{
    reveal(read_blocks);
}

/// A frame that reads takes some bytes, and no more than there are.
pub proof fn lemma_read_frame_len(b: Seq<u8>, check: bool)
    requires
        read_frame(b, check) is Some,
    ensures
        0 < (read_frame(b, check)->0).1 <= b.len(),
{
    lemma_read_frame_parts(b, check);
    let info = choose|info: FrameInfo| header_at(b, info);
    let h = header_bytes(info).len() as int;
    lemma_header_fields(b, info);
    lemma_read_blocks_len(b.subrange(h, b.len() as int), info, Seq::empty(), Seq::empty(), check);
}

/// Reads the data blocks that make up all of `b` (no end mark), verifying
/// block checksums: the content, and the window and the checksum content
/// after them.
#[verifier::opaque]
pub open spec fn read_block_run(b: Seq<u8>, info: FrameInfo, hist: Seq<u8>, content: Seq<u8>) -> Option<
    (Seq<u8>, Seq<u8>, Seq<u8>),
>
    decreases b.len(),
{
    if b.len() == 0 {
        Some((Seq::empty(), hist, content))
    } else if b.len() < 4 {
        None
    } else {
        let v = le32_of(b);
        if v == 0 {
            None
        } else {
            let size: int = (v % 0x8000_0000) as int;
            let raw = v >= 0x8000_0000;
            let crc: int = if info.block_checksum { 4 } else { 0 };
            let unit = 4 + size + crc;
            if size > block_size_spec(info.block_size_id) || b.len() < unit {
                None
            } else {
                let data = b.subrange(4, 4 + size);
                if info.block_checksum && le32_of(b.subrange(4 + size, unit)) != xxh32_of(data, 0) as nat {
                    None
                } else {
                    match block_content(data, raw, info, hist) {
                        None => None,
                        Some(c) => match read_block_run(
                            b.subrange(unit, b.len() as int),
                            info,
                            next_hist(info, hist, c),
                            next_content(info, content, c),
                        ) {
                            Some((rest, h, ct)) => Some((c + rest, h, ct)),
                            None => None,
                        },
                    }
                }
            }
        }
    }
}

/// The bytes of a block of a frame: its stored length (the high bit set
/// when the data is the content itself), the data, and with block checksums
/// the xxHash32 of the data.
pub open spec fn block_bytes(data: Seq<u8>, raw: bool, checksum: bool) -> Seq<u8> {
    le4((data.len() + (if raw { 0x8000_0000int } else { 0 })) as nat) + data + (if checksum {
        le4(xxh32_of(data, 0) as nat)
    } else {
        Seq::empty()
    })
}

/// The end mark of a frame, with the checksum of `content` when requested.
pub open spec fn end_bytes(info: FrameInfo, content: Seq<u8>) -> Seq<u8> {
    le4(0) + (if info.content_checksum {
        le4(xxh32_of(content, 0) as nat)
    } else {
        Seq::empty()
    })
}

/// A block that holds `chunk` in a frame with parameters `info`, decoded
/// with the window `hist`.
pub open spec fn block_holds(data: Seq<u8>, raw: bool, info: FrameInfo, hist: Seq<u8>, chunk: Seq<u8>) -> bool {
    &&& 1 <= chunk.len() <= block_size_spec(info.block_size_id)
    &&& raw ==> data == chunk
    &&& !raw ==> 1 <= data.len() <= chunk.len() && lz4_decode(
        data,
        block_dict(info, hist),
        block_size_spec(info.block_size_id) as int,
        false,
    ) == Some(chunk)
}

proof fn lemma_le32_prefix(a: Seq<u8>, b: Seq<u8>)
    requires
        a.len() >= 4,
    ensures
        le32_of(a + b) == le32_of(a),
{
    assert((a + b)[0] == a[0] && (a + b)[1] == a[1] && (a + b)[2] == a[2] && (a + b)[3] == a[3]);
}

/// Blocks that read to nothing.
proof fn lemma_run_empty(info: FrameInfo, hist: Seq<u8>, content: Seq<u8>)
    ensures
        read_block_run(Seq::empty(), info, hist, content) == Some((Seq::<u8>::empty(), hist, content)),
{
    reveal(read_block_run);
}

/// The empty run of blocks.
pub proof fn lemma_run_empty_pub(info: FrameInfo)
    ensures
        read_block_run(Seq::empty(), info, Seq::empty(), Seq::empty()) == Some(
            (Seq::<u8>::empty(), Seq::<u8>::empty(), Seq::<u8>::empty()),
        ),
{
    lemma_run_empty(info, Seq::empty(), Seq::empty());
}

/// The first block of a run, from its parts.
proof fn lemma_run_step(b: Seq<u8>, info: FrameInfo, hist: Seq<u8>, content: Seq<u8>, size: int, raw: bool, c: Seq<u8>)
    requires
        b.len() >= 4,
        le32_of(b) != 0,
        size == le32_of(b) % 0x8000_0000,
        raw == (le32_of(b) >= 0x8000_0000),
        size <= block_size_spec(info.block_size_id),
        4 + size + (if info.block_checksum { 4int } else { 0 }) <= b.len(),
        info.block_checksum ==> le32_of(b.subrange(4 + size, 8 + size)) == xxh32_of(b.subrange(4, 4 + size), 0) as nat,
        block_content(b.subrange(4, 4 + size), raw, info, hist) == Some(c),
    ensures
        ({
            let unit = 4 + size + (if info.block_checksum { 4int } else { 0 });
            read_block_run(b, info, hist, content) == match read_block_run(
                b.subrange(unit, b.len() as int),
                info,
                next_hist(info, hist, c),
                next_content(info, content, c),
            ) {
                Some((rest, h, ct)) => Some((c + rest, h, ct)),
                None => None,
            }
        }),
{
    reveal(read_block_run);
}

/// What the first block of a run that reads is made of.
proof fn lemma_run_first(b: Seq<u8>, info: FrameInfo, hist: Seq<u8>, content: Seq<u8>)
    requires
        read_block_run(b, info, hist, content) is Some,
        b.len() > 0,
    ensures
        ({
            let v = le32_of(b);
            let size: int = (v % 0x8000_0000) as int;
            let raw = v >= 0x8000_0000;
            let crc: int = if info.block_checksum { 4 } else { 0 };
            let unit = 4 + size + crc;
            let data = b.subrange(4, 4 + size);
            &&& b.len() >= 4
            &&& v != 0
            &&& size <= block_size_spec(info.block_size_id)
            &&& unit <= b.len()
            &&& (info.block_checksum ==> le32_of(b.subrange(4 + size, unit)) == xxh32_of(data, 0) as nat)
            &&& block_content(data, raw, info, hist) is Some
            &&& {
                let c = block_content(data, raw, info, hist)->0;
                let rt = read_block_run(b.subrange(unit, b.len() as int), info, next_hist(info, hist, c), next_content(info, content, c));
                let r0 = rt->0;
                &&& rt is Some
                &&& read_block_run(b, info, hist, content) == Some((c + r0.0, r0.1, r0.2))
            }
        }),
{
    reveal(read_block_run);
}

/// The first unit of blocks that end a frame, from its parts.
pub proof fn lemma_read_blocks_step(b: Seq<u8>, info: FrameInfo, hist: Seq<u8>, content: Seq<u8>, check: bool, size: int, raw: bool, c: Seq<u8>)
    requires
        b.len() >= 4,
        le32_of(b) != 0,
        size == le32_of(b) % 0x8000_0000,
        raw == (le32_of(b) >= 0x8000_0000),
        size <= block_size_spec(info.block_size_id),
        4 + size + (if info.block_checksum { 4int } else { 0 }) <= b.len(),
        check && info.block_checksum ==> le32_of(b.subrange(4 + size, 8 + size)) == xxh32_of(b.subrange(4, 4 + size), 0) as nat,
        block_content(b.subrange(4, 4 + size), raw, info, hist) == Some(c),
    ensures
        ({
            let unit = 4 + size + (if info.block_checksum { 4int } else { 0 });
            read_blocks(b, info, hist, content, check) == match read_blocks(
                b.subrange(unit, b.len() as int),
                info,
                next_hist(info, hist, c),
                next_content(info, content, c),
                check,
            ) {
                Some((rest, k)) => Some((c + rest, unit + k)),
                None => None,
            }
        }),
{
    reveal(read_blocks);
}

proof fn lemma_block_layout(hd: Seq<u8>, data: Seq<u8>, cs: Seq<u8>)
    requires
        hd.len() == 4,
    ensures
        ({
            let b = hd + data + cs;
            let size = data.len() as int;
            &&& b.len() == 4 + size + cs.len()
            &&& le32_of(b) == le32_of(hd)
            &&& b.subrange(4, 4 + size) == data
            &&& b.subrange(4 + size, 4 + size + cs.len()) == cs
            &&& b.subrange(4 + size + cs.len(), b.len() as int) == Seq::<u8>::empty()
        }),
{
    let b = hd + data + cs;
    let size = data.len() as int;
    assert(b[0] == hd[0] && b[1] == hd[1] && b[2] == hd[2] && b[3] == hd[3]);
    assert(b.subrange(4, 4 + size) =~= data);
    assert(b.subrange(4 + size, 4 + size + cs.len()) =~= cs);
    assert(b.subrange(4 + size + cs.len(), b.len() as int) =~= Seq::<u8>::empty());
}

/// The length of a block's bytes.
pub proof fn lemma_block_bytes_len(data: Seq<u8>, raw: bool, checksum: bool)
    ensures
        block_bytes(data, raw, checksum).len() == 4 + data.len() + (if checksum { 4int } else { 0 }),
{
}

proof fn lemma_le4_len(v: nat)
    ensures
        le4(v).len() == 4,
{
}

proof fn lemma_block_head(size: int, raw: bool)
    requires
        0 <= size <= 4194304,
        raw || size >= 1,
    ensures
        ({
            let x: nat = (size + (if raw { 0x8000_0000int } else { 0 })) as nat;
            &&& x < 0x1_0000_0000
            &&& x != 0
            &&& x % 0x8000_0000 == size
            &&& (x >= 0x8000_0000) == raw
        }),
{
}

/// A single block reads to its content.
pub proof fn lemma_block_run_one(data: Seq<u8>, raw: bool, info: FrameInfo, hist: Seq<u8>, content: Seq<u8>, chunk: Seq<u8>)
    requires
        block_holds(data, raw, info, hist, chunk),
        block_size_spec(info.block_size_id) <= 4194304,
    ensures
        read_block_run(block_bytes(data, raw, info.block_checksum), info, hist, content) == Some(
            (chunk, next_hist(info, hist, chunk), next_content(info, content, chunk)),
        ),
{
    let size = data.len() as int;
    let cs = if info.block_checksum { le4(xxh32_of(data, 0) as nat) } else { Seq::<u8>::empty() };
    let x: nat = (size + (if raw { 0x8000_0000int } else { 0 })) as nat;
    lemma_block_head(size, raw);
    let hd = le4(x);
    lemma_le4_len(x);
    lemma_le4_len(xxh32_of(data, 0) as nat);
    let b = block_bytes(data, raw, info.block_checksum);
    assert(b == hd + data + cs);
    lemma_le4_value(x);
    lemma_block_layout(hd, data, cs);
    if info.block_checksum {
        lemma_le4_value(xxh32_of(data, 0) as nat);
    }
    assert(block_content(data, raw, info, hist) == Some(chunk));
    lemma_run_step(b, info, hist, content, size, raw, chunk);
    lemma_run_empty(info, next_hist(info, hist, chunk), next_content(info, content, chunk));
    assert(chunk + Seq::<u8>::empty() =~= chunk);
}

/// Appending a block to blocks that read gives blocks that read.
#[verifier::rlimit(50)]
#[verifier::spinoff_prover]
pub proof fn lemma_block_run_append(b: Seq<u8>, blk: Seq<u8>, info: FrameInfo, hist: Seq<u8>, content: Seq<u8>)
    requires
        read_block_run(b, info, hist, content) is Some,
        ({
            let r = read_block_run(b, info, hist, content)->0;
            read_block_run(blk, info, r.1, r.2) is Some
        }),
    ensures
        ({
            let r = read_block_run(b, info, hist, content)->0;
            let q = read_block_run(blk, info, r.1, r.2)->0;
            read_block_run(b + blk, info, hist, content) == Some((r.0 + q.0, q.1, q.2))
        }),
    decreases b.len(),
{
    if b.len() == 0 {
        lemma_run_empty(info, hist, content);
        assert(b =~= Seq::<u8>::empty());
        assert(b + blk =~= blk);
        let q = read_block_run(blk, info, hist, content)->0;
        assert(Seq::<u8>::empty() + q.0 =~= q.0);
    } else {
        lemma_run_first(b, info, hist, content);
        let v = le32_of(b);
        let size: int = (v % 0x8000_0000) as int;
        let raw = v >= 0x8000_0000;
        let crc: int = if info.block_checksum { 4 } else { 0 };
        let unit = 4 + size + crc;
        let data = b.subrange(4, 4 + size);
        let c = block_content(data, raw, info, hist)->0;
        let tail = b.subrange(unit, b.len() as int);
        lemma_le32_prefix(b, blk);
        assert((b + blk).subrange(4, 4 + size) =~= data);
        if info.block_checksum {
            assert((b + blk).subrange(4 + size, 8 + size) =~= b.subrange(4 + size, unit));
        }
        assert((b + blk).subrange(unit, (b + blk).len() as int) =~= tail + blk);
        lemma_run_step(b + blk, info, hist, content, size, raw, c);
        lemma_block_run_append(tail, blk, info, next_hist(info, hist, c), next_content(info, content, c));
        let r = read_block_run(b, info, hist, content)->0;
        let q = read_block_run(blk, info, r.1, r.2)->0;
        let rt = read_block_run(tail, info, next_hist(info, hist, c), next_content(info, content, c))->0;
        assert(c + (rt.0 + q.0) =~= (c + rt.0) + q.0);
    }
}

/// Blocks that read, followed by blocks that end a frame, end a frame.
#[verifier::rlimit(50)]
#[verifier::spinoff_prover]
pub proof fn lemma_block_run_then(b: Seq<u8>, t: Seq<u8>, info: FrameInfo, hist: Seq<u8>, content: Seq<u8>, check: bool)
    requires
        read_block_run(b, info, hist, content) is Some,
        ({
            let r = read_block_run(b, info, hist, content)->0;
            read_blocks(t, info, r.1, r.2, check) is Some
        }),
    ensures
        ({
            let r = read_block_run(b, info, hist, content)->0;
            let q = read_blocks(t, info, r.1, r.2, check)->0;
            read_blocks(b + t, info, hist, content, check) == Some((r.0 + q.0, b.len() + q.1))
        }),
    decreases b.len(),
{
    if b.len() == 0 {
        lemma_run_empty(info, hist, content);
        assert(b =~= Seq::<u8>::empty());
        assert(b + t =~= t);
        let q = read_blocks(t, info, hist, content, check)->0;
        assert(Seq::<u8>::empty() + q.0 =~= q.0);
    } else {
        lemma_run_first(b, info, hist, content);
        let v = le32_of(b);
        let size: int = (v % 0x8000_0000) as int;
        let raw = v >= 0x8000_0000;
        let crc: int = if info.block_checksum { 4 } else { 0 };
        let unit = 4 + size + crc;
        let data = b.subrange(4, 4 + size);
        let c = block_content(data, raw, info, hist)->0;
        let tail = b.subrange(unit, b.len() as int);
        lemma_le32_prefix(b, t);
        assert((b + t).subrange(4, 4 + size) =~= data);
        if info.block_checksum {
            assert((b + t).subrange(4 + size, 8 + size) =~= b.subrange(4 + size, unit));
        }
        assert((b + t).subrange(unit, (b + t).len() as int) =~= tail + t);
        lemma_read_blocks_step(b + t, info, hist, content, check, size, raw, c);
        lemma_block_run_then(tail, t, info, next_hist(info, hist, c), next_content(info, content, c), check);
        let r = read_block_run(b, info, hist, content)->0;
        let q = read_blocks(t, info, r.1, r.2, check)->0;
        let rt = read_block_run(tail, info, next_hist(info, hist, c), next_content(info, content, c))->0;
        assert(c + (rt.0 + q.0) =~= (c + rt.0) + q.0);
    }
}

/// The end mark (with the right checksum) ends the blocks of a frame.
pub proof fn lemma_end_reads(info: FrameInfo, hist: Seq<u8>, content: Seq<u8>, check: bool)
    ensures
        read_blocks(end_bytes(info, content), info, hist, content, check) == Some(
            (Seq::<u8>::empty(), end_bytes(info, content).len() as int),
        ),
{
    reveal(read_blocks);
    let e = end_bytes(info, content);
    lemma_le4_value(0);
    lemma_le32_prefix(le4(0), if info.content_checksum { le4(xxh32_of(content, 0) as nat) } else { Seq::empty() });
    if info.content_checksum {
        lemma_le4_value(xxh32_of(content, 0) as nat);
        assert(e.subrange(4, 8) =~= le4(xxh32_of(content, 0) as nat));
    }
}

/// Blocks that read, then the end mark, end a frame.
pub proof fn lemma_blocks_end(body: Seq<u8>, info: FrameInfo, check: bool)
    requires
        read_block_run(body, info, Seq::empty(), Seq::empty()) is Some,
    ensures
        ({
            let r = read_block_run(body, info, Seq::empty(), Seq::empty())->0;
            let t = body + end_bytes(info, r.2);
            read_blocks(t, info, Seq::empty(), Seq::empty(), check) == Some((r.0, t.len() as int))
        }),
{
    let r = read_block_run(body, info, Seq::empty(), Seq::empty())->0;
    let e = end_bytes(info, r.2);
    lemma_end_reads(info, r.1, r.2, check);
    lemma_block_run_then(body, e, info, Seq::empty(), Seq::empty(), check);
    assert(r.0 + Seq::<u8>::empty() =~= r.0);
}

/// A header followed by blocks that end a frame is a frame.
pub proof fn lemma_frame_of(info: FrameInfo, rest: Seq<u8>, check: bool)
    requires
        info.frame_type == FrameType::Frame,
        info.block_size_id != BlockSizeId::Default,
        read_blocks(rest, info, Seq::empty(), Seq::empty(), check) is Some,
    ensures
        ({
            let q = read_blocks(rest, info, Seq::empty(), Seq::empty(), check)->0;
            read_frame(header_bytes(info) + rest, check) == Some((q.0, header_bytes(info).len() + q.1))
        }),
{
    let f = header_bytes(info) + rest;
    let h = header_bytes(info);
    assert(f.subrange(0, h.len() as int) =~= h);
    assert(header_at(f, info));
    assert(f.subrange(h.len() as int, f.len() as int) =~= rest);
    reveal(read_frame);
    let i2 = choose|i: FrameInfo| header_at(f, i);
    lemma_header_unique(f, i2, info);
}

/// The checksums verified or not, a frame that reads with them verified
/// reads the same without.
pub proof fn lemma_unchecked_blocks(b: Seq<u8>, info: FrameInfo, hist: Seq<u8>, content: Seq<u8>)
    requires
        read_blocks(b, info, hist, content, true) is Some,
    ensures
        read_blocks(b, info, hist, content, false) == read_blocks(b, info, hist, content, true),
    decreases b.len(),
{
    reveal(read_blocks);
    if le32_of(b) != 0 {
        let v = le32_of(b);
        let size: int = (v % 0x8000_0000) as int;
        let raw = v >= 0x8000_0000;
        let crc: int = if info.block_checksum { 4 } else { 0 };
        let unit = 4 + size + crc;
        let data = b.subrange(4, 4 + size);
        let c = block_content(data, raw, info, hist)->0;
        lemma_unchecked_blocks(b.subrange(unit, b.len() as int), info, next_hist(info, hist, c), next_content(info, content, c));
    }
}

/// A frame that reads with its checksums verified reads the same without.
pub proof fn lemma_unchecked_frame(b: Seq<u8>)
    requires
        read_frame(b, true) is Some,
    ensures
        read_frame(b, false) == read_frame(b, true),
{
    reveal(read_frame);
    let info = choose|info: FrameInfo| header_at(b, info);
    let h = header_bytes(info).len() as int;
    lemma_unchecked_blocks(b.subrange(h, b.len() as int), info, Seq::empty(), Seq::empty());
}

/// A frame: a header, blocks that read, and the end mark.
pub proof fn lemma_frame_reads(info: FrameInfo, body: Seq<u8>, check: bool)
    requires
        info.frame_type == FrameType::Frame,
        info.block_size_id != BlockSizeId::Default,
        read_block_run(body, info, Seq::empty(), Seq::empty()) is Some,
    ensures
        ({
            let r = read_block_run(body, info, Seq::empty(), Seq::empty())->0;
            let f = header_bytes(info) + body + end_bytes(info, r.2);
            read_frame(f, check) == Some((r.0, f.len() as int))
        }),
{
    let r = read_block_run(body, info, Seq::empty(), Seq::empty())->0;
    let e = end_bytes(info, r.2);
    let f = header_bytes(info) + body + e;
    let h = header_bytes(info);
    assert(h.is_prefix_of(f)) by {
        assert(f.subrange(0, h.len() as int) =~= h);
    }
    assert(header_at(f, info));
    lemma_end_reads(info, r.1, r.2, check);
    lemma_block_run_then(body, e, info, Seq::empty(), Seq::empty(), check);
    assert(f.subrange(h.len() as int, f.len() as int) =~= body + e);
    reveal(read_frame);
    let i2 = choose|i: FrameInfo| header_at(f, i);
    lemma_header_unique(f, i2, info);
    assert(r.0 + Seq::<u8>::empty() =~= r.0);
}

/// Blocks that end a frame read the same whatever follows them.
pub proof fn lemma_read_blocks_extend(b: Seq<u8>, t: Seq<u8>, info: FrameInfo, hist: Seq<u8>, content: Seq<u8>, check: bool)
    requires
        read_blocks(b, info, hist, content, check) is Some,
    ensures
        read_blocks(b + t, info, hist, content, check) == read_blocks(b, info, hist, content, check),
    decreases b.len(),
{
    lemma_read_blocks_len(b, info, hist, content, check);
    lemma_le32_prefix(b, t);
    if le32_of(b) == 0 {
        lemma_read_blocks_end(b, info, hist, content, check);
        reveal(read_blocks);
        if info.content_checksum {
            assert((b + t).subrange(4, 8) =~= b.subrange(4, 8));
        }
    } else {
        lemma_read_blocks_block(b, info, hist, content, check);
        let v = le32_of(b);
        let size: int = (v % 0x8000_0000) as int;
        let raw = v >= 0x8000_0000;
        let crc: int = if info.block_checksum { 4 } else { 0 };
        let unit = 4 + size + crc;
        let data = b.subrange(4, 4 + size);
        let c = block_content(data, raw, info, hist)->0;
        let tail = b.subrange(unit, b.len() as int);
        assert((b + t).subrange(4, 4 + size) =~= data);
        if info.block_checksum {
            assert((b + t).subrange(4 + size, 8 + size) =~= b.subrange(4 + size, unit));
        }
        assert((b + t).subrange(unit, (b + t).len() as int) =~= tail + t);
        lemma_read_blocks_step(b + t, info, hist, content, check, size, raw, c);
        lemma_read_blocks_extend(tail, t, info, next_hist(info, hist, c), next_content(info, content, c), check);
    }
}

/// Frame law: a frame reads the same whatever follows it, so a decoder
/// given a frame and more data takes the frame and leaves the rest.
pub proof fn lemma_frame_then_more(f: Seq<u8>, t: Seq<u8>, check: bool)
    requires
        read_frame(f, check) is Some,
    ensures
        read_frame(f + t, check) == read_frame(f, check),
{
    lemma_read_frame_parts(f, check);
    let info = choose|i: FrameInfo| header_at(f, i);
    let h = header_bytes(info);
    lemma_header_fields(f, info);
    assert(header_at(f + t, info)) by {
        assert((f + t).subrange(0, h.len() as int) =~= f.subrange(0, h.len() as int));
    }
    assert((f + t).subrange(h.len() as int, (f + t).len() as int) =~= f.subrange(h.len() as int, f.len() as int) + t);
    lemma_read_blocks_extend(f.subrange(h.len() as int, f.len() as int), t, info, Seq::empty(), Seq::empty(), check);
    reveal(read_frame);
    let i2 = choose|i: FrameInfo| header_at(f + t, i);
    lemma_header_unique(f + t, i2, info);
}

/// Header law: the header written for frame parameters is read back as
/// those parameters, whatever follows it (the default block size is
/// written as 64 KiB).
pub proof fn lemma_header_round_trip(info: FrameInfo, rest: Seq<u8>)
    requires
        info.frame_type == FrameType::Frame,
        info.block_size_id != BlockSizeId::Default,
    ensures
        header_at(header_bytes(info) + rest, info),
        header_bytes(info).len() == header_len(info),
{
    let b = header_bytes(info) + rest;
    assert(b.subrange(0, header_bytes(info).len() as int) =~= header_bytes(info));
    lemma_header_fields(b, info);
}

} // verus!
