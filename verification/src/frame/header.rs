//! Frame headers: their bytes, how they are written and how they are read.
//!
//! A header holds the magic number, a flag byte, a block descriptor byte,
//! the optional content size (8 bytes) and dictionary id (4 bytes), and a
//! checksum byte: the second byte of the xxHash32 of the descriptor (the
//! bytes from the flag byte on).

use vstd::prelude::*;
use crate::frame::format::{
    header_at, header_len, le32_of, lemma_flg_bits, lemma_header_fields, lemma_header_prefix,
    lemma_header_unique,
    lemma_le4_injective, lemma_le4_value, lemma_le8_injective,
};
use crate::frame::types::{
    bsid_code, BlockMode, BlockSizeId, FrameInfo, FrameType, Lz4FError, LZ4F_MAGICNUMBER,
    LZ4F_MAGIC_SKIPPABLE_START,
};

verus! {

/// Name for the 32-bit xxHash of `data` with seed `seed`.
pub uninterp spec fn xxh32_of(data: Seq<u8>, seed: u32) -> u32;

/// Calls `xxhash_rust::xxh32::xxh32`, which computes the 32-bit xxHash of
/// `data` with seed `seed`, a function of those two arguments alone; the
/// result is named `xxh32_of(data, seed)`.
#[verifier::external_body]
pub(crate) fn xxh32(data: &[u8], seed: u32) -> (r: u32)
    ensures
        r == xxh32_of(data@, seed),
{
    xxhash_rust::xxh32::xxh32(data, seed)
}

/// The 4 little-endian bytes of `v` (taken modulo 2^32).
pub open spec fn le4(v: nat) -> Seq<u8> {
    seq![
        (v % 256) as u8,
        ((v / 256) % 256) as u8,
        ((v / 65536) % 256) as u8,
        ((v / 16777216) % 256) as u8,
    ]
}

/// The 8 little-endian bytes of `v` (taken modulo 2^64).
pub open spec fn le8(v: nat) -> Seq<u8> {
    le4(v % 0x1_0000_0000) + le4(v / 0x1_0000_0000)
}

/// Appends the 4 little-endian bytes of `v`.
pub fn push_le32(out: &mut Vec<u8>, v: u32)
    ensures
        final(out)@ == old(out)@ + le4(v as nat),
{
    out.push((v % 256) as u8);
    out.push(((v / 256) % 256) as u8);
    out.push(((v / 65536) % 256) as u8);
    out.push(((v / 16777216) % 256) as u8);
    proof {
        assert(final(out)@ =~= old(out)@ + le4(v as nat));
    }
}

/// Appends the 8 little-endian bytes of `v`.
pub fn push_le64(out: &mut Vec<u8>, v: u64)
    ensures
        final(out)@ == old(out)@ + le8(v as nat),
{
    let lo = (v % 0x1_0000_0000) as u32;
    let hi = (v / 0x1_0000_0000) as u32;
    push_le32(out, lo);
    push_le32(out, hi);
    proof {
        assert(final(out)@ =~= old(out)@ + le8(v as nat));
    }
}

/// Reads the 4 little-endian bytes at `i`.
pub fn read_le32_at(b: &[u8], i: usize) -> (v: u32)
    requires
        i + 4 <= b@.len(),
    ensures
        le4(v as nat) == b@.subrange(i as int, i + 4),
{
    let b0 = b[i];
    let b1 = b[i + 1];
    let b2 = b[i + 2];
    let b3 = b[i + 3];
    let v = (b0 as u32) + (b1 as u32) * 256 + (b2 as u32) * 65536 + (b3 as u32) * 16777216;
    proof {
        let n = v as nat;
        assert(n % 256 == b0 && (n / 256) % 256 == b1 && (n / 65536) % 256 == b2 && (n
            / 16777216) % 256 == b3) by (nonlinear_arith)
            requires
                n == b0 + b1 * 256 + b2 * 65536 + b3 * 16777216,
                b0 < 256,
                b1 < 256,
                b2 < 256,
                b3 < 256,
        ;
        assert(le4(n) =~= b@.subrange(i as int, i + 4));
    }
    v
}

/// Reads the 8 little-endian bytes at `i`.
pub fn read_le64_at(b: &[u8], i: usize) -> (v: u64)
    requires
        i + 8 <= b@.len(),
    ensures
        le8(v as nat) == b@.subrange(i as int, i + 8),
{
    let len = b.len();
    let lo = read_le32_at(b, i);
    let hi = read_le32_at(b, i + 4);
    let v = (lo as u64) + (hi as u64) * 0x1_0000_0000;
    proof {
        assert((v as nat) % 0x1_0000_0000 == lo as nat && (v as nat) / 0x1_0000_0000 == hi as nat)
            by (nonlinear_arith)
            requires
                v == lo + hi * 0x1_0000_0000,
                lo < 0x1_0000_0000,
        ;
        assert(b@.subrange(i as int, i + 8) =~= b@.subrange(i as int, i + 4) + b@.subrange(
            i + 4,
            i + 8,
        ));
    }
    v
}

/// Flag byte of a frame's header.
pub open spec fn flg_of(info: FrameInfo) -> u8 {
    (64 + (if info.block_mode == BlockMode::Independent {
        32int
    } else {
        0
    }) + (if info.block_checksum {
        16int
    } else {
        0
    }) + (if info.content_size != 0 {
        8int
    } else {
        0
    }) + (if info.content_checksum {
        4int
    } else {
        0
    }) + (if info.dict_id != 0 {
        1int
    } else {
        0
    })) as u8
}

/// Descriptor of a frame: flag byte, block descriptor byte, optional content
/// size and dictionary id.
pub open spec fn descriptor(info: FrameInfo) -> Seq<u8> {
    seq![flg_of(info), (bsid_code(info.block_size_id) * 16) as u8] + (if info.content_size != 0 {
        le8(info.content_size as nat)
    } else {
        Seq::empty()
    }) + (if info.dict_id != 0 {
        le4(info.dict_id as nat)
    } else {
        Seq::empty()
    })
}

/// Header checksum byte of a descriptor.
pub open spec fn hc_of(d: Seq<u8>) -> u8 {
    ((xxh32_of(d, 0) >> 8u32) & 0xFFu32) as u8
}

/// Bytes of a frame's header.
pub open spec fn header_bytes(info: FrameInfo) -> Seq<u8> {
    le4(LZ4F_MAGICNUMBER as nat) + descriptor(info) + seq![hc_of(descriptor(info))]
}

/// Writes the header of a frame with parameters `info`.
pub fn write_header(info: &FrameInfo) -> (h: Vec<u8>)
    ensures
        h@ == header_bytes(*info),
{
    let mut d: Vec<u8> = Vec::new();
    let mut flg: u8 = 64;
    if info.block_mode == BlockMode::Independent {
        flg = flg + 32;
    }
    if info.block_checksum {
        flg = flg + 16;
    }
    if info.content_size != 0 {
        flg = flg + 8;
    }
    if info.content_checksum {
        flg = flg + 4;
    }
    if info.dict_id != 0 {
        flg = flg + 1;
    }
    d.push(flg);
    let code: u8 = match info.block_size_id {
        BlockSizeId::Default => 4,
        BlockSizeId::Max64Kb => 4,
        BlockSizeId::Max256Kb => 5,
        BlockSizeId::Max1Mb => 6,
        BlockSizeId::Max4Mb => 7,
    };
    d.push(code * 16);
    let ghost d0 = d@;
    if info.content_size != 0 {
        push_le64(&mut d, info.content_size);
    }
    let ghost d1 = d@;
    if info.dict_id != 0 {
        push_le32(&mut d, info.dict_id);
    }
    proof {
        assert(d0 =~= seq![flg_of(*info), (bsid_code(info.block_size_id) * 16) as u8]);
        assert(d@ =~= descriptor(*info));
    }
    let hash = xxh32(d.as_slice(), 0);
    let hc = ((hash >> 8u32) & 0xFFu32) as u8;
    let mut h: Vec<u8> = Vec::new();
    push_le32(&mut h, LZ4F_MAGICNUMBER);
    let mut k: usize = 0;
    while k < d.len()
        invariant
            k <= d@.len(),
            h@ == le4(LZ4F_MAGICNUMBER as nat) + d@.subrange(0, k as int),
        decreases d@.len() - k,
    {
        h.push(d[k]);
        k = k + 1;
        proof {
            assert(h@ =~= le4(LZ4F_MAGICNUMBER as nat) + d@.subrange(0, k as int));
        }
    }
    h.push(hc);
    proof {
        assert(d@.subrange(0, k as int) =~= d@);
        assert(h@ =~= header_bytes(*info));
    }
    h
}

/// A skippable frame: magic, then the 4-byte length of the data that follows.
pub open spec fn skippable_header(magic: u32, size: u32) -> Seq<u8> {
    le4(magic as nat) + le4(size as nat)
}

/// Reads a frame header from the start of `b`.
///
/// Returns the frame's parameters and the header's length; for a skippable
/// frame, the frame type says so and the content size is the length of the
/// data to skip.  An accepted header is exactly the header written for the
/// returned parameters.  Fails with `FrameHeaderIncomplete` when `b` ends
/// before the header does, `FrameTypeUnknown` on another magic number,
/// `HeaderVersionWrong`, `ReservedFlagSet`, `MaxBlockSizeInvalid` or
/// `HeaderChecksumInvalid` on a malformed header, and `FrameSizeWrong` when a
/// recorded content size or dictionary id is 0.
/// `b` starts with a magic number that is neither a frame's nor a
/// skippable frame's.
pub open spec fn unknown_magic(b: Seq<u8>) -> bool {
    &&& b.len() >= 4
    &&& le32_of(b) != LZ4F_MAGICNUMBER
    &&& !(LZ4F_MAGIC_SKIPPABLE_START <= le32_of(b) < LZ4F_MAGIC_SKIPPABLE_START + 16)
}

#[verifier::rlimit(100)]
#[verifier::spinoff_prover]
pub fn parse_header(b: &[u8]) -> (r: Result<(FrameInfo, usize), Lz4FError>)
    ensures
        match r {
            Ok((info, n)) => {
                &&& n <= b@.len()
                &&& info.frame_type == FrameType::Frame ==> {
                    &&& info.block_size_id != BlockSizeId::Default
                    &&& b@.subrange(0, n as int) == header_bytes(info)
                }
                &&& info.frame_type == FrameType::SkippableFrame ==> {
                    &&& n == 8
                    &&& info.content_size < 0x1_0000_0000
                    &&& exists|m: u32|
                        LZ4F_MAGIC_SKIPPABLE_START <= m < LZ4F_MAGIC_SKIPPABLE_START + 16 && b@.subrange(
                            0,
                            8,
                        ) == #[trigger] skippable_header(m, info.content_size as u32)
                }
            },
            Err(e) => e == Lz4FError::FrameHeaderIncomplete ==> b@.len() < 19,
        },
        unknown_magic(b@) ==> r == Err::<(FrameInfo, usize), Lz4FError>(Lz4FError::FrameTypeUnknown),
        forall|i: FrameInfo| #[trigger] header_at(b@, i) ==> r == Ok::<(FrameInfo, usize), Lz4FError>(
            (i, header_len(i) as usize),
        ),
        r matches Err(e) && e != Lz4FError::FrameHeaderIncomplete ==> forall|more: Seq<u8>, i: FrameInfo|
            !#[trigger] header_at(b@ + more, i),
{
    let ghost h = choose|i: FrameInfo| header_at(b@, i);
    proof {
        if exists|i: FrameInfo| header_at(b@, i) {
            lemma_header_fields(b@, h);
            lemma_flg_bits(h);
            assert forall|i: FrameInfo| header_at(b@, i) implies i == h by {
                lemma_header_unique(b@, i, h);
            }
        }
    }
    if b.len() < 4 {
        return Err(Lz4FError::FrameHeaderIncomplete);
    }
    let magic = read_le32_at(b, 0);
    proof {
        lemma_le4_value(magic as nat);
        assert(b@.subrange(0, 4)[0] == b@[0] && b@.subrange(0, 4)[1] == b@[1] && b@.subrange(0, 4)[2]
            == b@[2] && b@.subrange(0, 4)[3] == b@[3]);
        assert(le32_of(b@) == magic);
    }
    proof {
        if exists|i: FrameInfo| header_at(b@, i) {
            lemma_le4_injective(magic as nat, LZ4F_MAGICNUMBER as nat);
        }
    }
    if magic >= LZ4F_MAGIC_SKIPPABLE_START && magic < LZ4F_MAGIC_SKIPPABLE_START + 16 {
        if b.len() < 8 {
            return Err(Lz4FError::FrameHeaderIncomplete);
        }
        let size = read_le32_at(b, 4);
        let info = FrameInfo {
            block_size_id: BlockSizeId::Max64Kb,
            block_mode: BlockMode::Linked,
            content_checksum: false,
            frame_type: FrameType::SkippableFrame,
            content_size: size as u64,
            dict_id: 0,
            block_checksum: false,
        };
        proof {
            assert(b@.subrange(0, 8) =~= b@.subrange(0, 4) + b@.subrange(4, 8));
            assert(b@.subrange(0, 8) == skippable_header(magic, info.content_size as u32));
        }
        return Ok((info, 8));
    }
    if magic != LZ4F_MAGICNUMBER {
        proof {
            assert forall|more: Seq<u8>, i: FrameInfo| !#[trigger] header_at(b@ + more, i) by {
                if header_at(b@ + more, i) {
                    lemma_header_prefix(b@, more, i);
                    lemma_flg_bits(i);
                    lemma_le4_injective(magic as nat, LZ4F_MAGICNUMBER as nat);
                }
            }
        }
        return Err(Lz4FError::FrameTypeUnknown);
    }
    parse_frame_header(b)
}

/// Reads the header of a frame (not a skippable one) from the start of `b`,
/// whose magic number is a frame's.
#[verifier::rlimit(100)]
#[verifier::spinoff_prover]
fn parse_frame_header(b: &[u8]) -> (r: Result<(FrameInfo, usize), Lz4FError>)
    requires
        b@.len() >= 4,
        b@.subrange(0, 4) == le4(LZ4F_MAGICNUMBER as nat),
    ensures
        match r {
            Ok((info, n)) => {
                &&& n <= b@.len()
                &&& info.frame_type == FrameType::Frame
                &&& info.block_size_id != BlockSizeId::Default
                &&& b@.subrange(0, n as int) == header_bytes(info)
            },
            Err(e) => e == Lz4FError::FrameHeaderIncomplete ==> b@.len() < 19,
        },
        forall|i: FrameInfo| #[trigger] header_at(b@, i) ==> r == Ok::<(FrameInfo, usize), Lz4FError>(
            (i, header_len(i) as usize),
        ),
        r matches Err(e) && e != Lz4FError::FrameHeaderIncomplete ==> forall|more: Seq<u8>, i: FrameInfo|
            !#[trigger] header_at(b@ + more, i),
{
    let ghost h = choose|i: FrameInfo| header_at(b@, i);
    proof {
        if exists|i: FrameInfo| header_at(b@, i) {
            lemma_header_fields(b@, h);
            lemma_flg_bits(h);
            assert forall|i: FrameInfo| header_at(b@, i) implies i == h by {
                lemma_header_unique(b@, i, h);
            }
        }
    }

    if b.len() < 7 {
        return Err(Lz4FError::FrameHeaderIncomplete);
    }
    let flg = b[4];
    let bd = b[5];
    if flg / 64 != 1 {
        proof {
            assert forall|more: Seq<u8>, i: FrameInfo| !#[trigger] header_at(b@ + more, i) by {
                if header_at(b@ + more, i) {
                    lemma_header_prefix(b@, more, i);
                    lemma_flg_bits(i);
                }
            }
        }
        return Err(Lz4FError::HeaderVersionWrong);
    }
    if (flg / 2) % 2 != 0 || bd / 128 != 0 || bd % 16 != 0 {
        proof {
            assert forall|more: Seq<u8>, i: FrameInfo| !#[trigger] header_at(b@ + more, i) by {
                if header_at(b@ + more, i) {
                    lemma_header_prefix(b@, more, i);
                    lemma_flg_bits(i);
                }
            }
        }
        return Err(Lz4FError::ReservedFlagSet);
    }
    let code = bd / 16;
    if code < 4 {
        proof {
            assert forall|more: Seq<u8>, i: FrameInfo| !#[trigger] header_at(b@ + more, i) by {
                if header_at(b@ + more, i) {
                    lemma_header_prefix(b@, more, i);
                    lemma_flg_bits(i);
                }
            }
        }
        return Err(Lz4FError::MaxBlockSizeInvalid);
    }
    let has_size = (flg / 8) % 2 == 1;
    let has_dict = flg % 2 == 1;
    let hlen: usize = 7 + (if has_size {
        8
    } else {
        0
    }) + (if has_dict {
        4
    } else {
        0
    });
    if b.len() < hlen {
        return Err(Lz4FError::FrameHeaderIncomplete);
    }
    let mut pos: usize = 6;
    let mut content_size: u64 = 0;
    if has_size {
        content_size = read_le64_at(b, 6);
        proof {
            if exists|i: FrameInfo| header_at(b@, i) {
                lemma_le8_injective(content_size as nat, h.content_size as nat);
            }
        }
        pos = 14;
        if content_size == 0 {
            proof {
                assert forall|more: Seq<u8>, i: FrameInfo| !#[trigger] header_at(b@ + more, i) by {
                    if header_at(b@ + more, i) {
                        lemma_header_prefix(b@, more, i);
                        lemma_flg_bits(i);
                    }
                }
            }
            return Err(Lz4FError::FrameSizeWrong);
        }
    }
    let mut dict_id: u32 = 0;
    if has_dict {
        dict_id = read_le32_at(b, pos);
        proof {
            if exists|i: FrameInfo| header_at(b@, i) {
                lemma_le4_injective(dict_id as nat, h.dict_id as nat);
            }
        }
        pos = pos + 4;
        if dict_id == 0 {
            proof {
                assert forall|more: Seq<u8>, i: FrameInfo| !#[trigger] header_at(b@ + more, i) by {
                    if header_at(b@ + more, i) {
                        lemma_header_prefix(b@, more, i);
                        lemma_flg_bits(i);
                    }
                }
            }
            return Err(Lz4FError::FrameSizeWrong);
        }
    }
    let desc = vstd::slice::slice_subrange(b, 4, pos);
    let hash = xxh32(desc, 0);
    let hc = ((hash >> 8u32) & 0xFFu32) as u8;
    if b[pos] != hc {
        proof {
            assert forall|more: Seq<u8>, i: FrameInfo| !#[trigger] header_at(b@ + more, i) by {
                if header_at(b@ + more, i) {
                    lemma_header_prefix(b@, more, i);
                    lemma_flg_bits(i);
                }
            }
        }
        return Err(Lz4FError::HeaderChecksumInvalid);
    }
    let block_size_id = if code == 4 {
        BlockSizeId::Max64Kb
    } else if code == 5 {
        BlockSizeId::Max256Kb
    } else if code == 6 {
        BlockSizeId::Max1Mb
    } else {
        BlockSizeId::Max4Mb
    };
    let info = FrameInfo {
        block_size_id,
        block_mode: if (flg / 32) % 2 == 1 {
            BlockMode::Independent
        } else {
            BlockMode::Linked
        },
        content_checksum: (flg / 4) % 2 == 1,
        frame_type: FrameType::Frame,
        content_size,
        dict_id,
        block_checksum: (flg / 16) % 2 == 1,
    };
    proof {
        assert(flg == flg_of(info)) by (nonlinear_arith)
            requires
                flg / 64 == 1,
                (flg / 2) % 2 == 0,
                flg < 256,
                info.block_mode == BlockMode::Independent <==> (flg / 32) % 2 == 1,
                info.block_checksum <==> (flg / 16) % 2 == 1,
                (info.content_size != 0) <==> (flg / 8) % 2 == 1,
                info.content_checksum <==> (flg / 4) % 2 == 1,
                (info.dict_id != 0) <==> flg % 2 == 1,
        ;
        assert(bd == (bsid_code(info.block_size_id) * 16) as u8);
        let d = descriptor(info);
        assert(desc@ =~= d) by {
            assert(b@.subrange(4, 6) =~= seq![flg, bd]);
            if has_size {
                assert(b@.subrange(6, 14) == le8(content_size as nat));
            }
            if has_dict {
                assert(b@.subrange(pos - 4, pos as int) == le4(dict_id as nat));
            }
            assert(desc@ =~= b@.subrange(4, 6) + (if has_size {
                b@.subrange(6, 14)
            } else {
                Seq::empty()
            }) + (if has_dict {
                b@.subrange(pos - 4, pos as int)
            } else {
                Seq::empty()
            }));
        }
        assert(b@.subrange(0, pos + 1) =~= b@.subrange(0, 4) + desc@ + seq![b@[pos as int]]);
        assert(header_at(b@, info));
        lemma_header_fields(b@, info);
    }
    Ok((info, pos + 1))
}

} // verus!
