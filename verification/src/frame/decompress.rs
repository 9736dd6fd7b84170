//! Frame decompression, incremental: input may arrive in pieces of any
//! size, and output is delivered as room is given for it.

use vstd::prelude::*;
use crate::block::decompress::decompress_safe_using_dict;
use crate::block::spec::lz4_decode;
use crate::block::stream::copy_bytes;
use crate::frame::format::{
    header_at, header_corrupt, header_len, lemma_corrupt_not_header, lemma_corrupt_not_skippable,
    lemma_header_fields, lemma_skippable_no_frame, lemma_le4_value,
    lemma_read_blocks_block, lemma_read_blocks_end, lemma_read_blocks_end_ok, lemma_read_blocks_len,
    lemma_read_blocks_step, lemma_read_frame_header, lemma_read_frame_len, lemma_read_frame_parts,
    block_content, le32_of, next_content, next_hist, read_blocks, read_frame,
};
use crate::frame::header::{
    header_bytes, parse_header, read_le32_at, skippable_header, unknown_magic, xxh32, xxh32_of,
};
use crate::frame::types::{
    block_size_from_id, block_size_spec, default_frame_info, BlockMode, DecompressOptions, FrameInfo, FrameType,
    Lz4FError, LZ4F_MAGIC_SKIPPABLE_START,
};

verus! {

/// Where a decompression context stands in its frame.
#[derive(Debug, Clone, Copy, PartialEq, Eq, Structural)]
pub enum DStage {
    /// Expecting a frame header.
    Header,
    /// Expecting a block header, or the end mark.
    Block,
    /// Skipping the data of a skippable frame.
    Skip,
}

/// Decompression context of a frame.
pub struct Lz4FDCtx {
    version: u32,
    stage: DStage,
    info: FrameInfo,
    /// Input received and not yet decoded (an incomplete unit).
    inbuf: Vec<u8>,
    /// Decoded output not yet delivered, from `out_pos` on.
    outbuf: Vec<u8>,
    out_pos: usize,
    /// The last 64 KiB of the frame's content, for linked blocks.
    history: Vec<u8>,
    /// The frame's content, kept when it carries a content checksum.
    content: Vec<u8>,
    skip_left: u64,
    frame_done: bool,
}

impl Lz4FDCtx {
    /// The context is well formed.
    pub closed spec fn wf(&self) -> bool {
        &&& self.out_pos <= self.outbuf@.len()
        &&& self.history@.len() <= 65536
    }

    /// Decoded content not yet delivered.
    pub closed spec fn pending(&self) -> Seq<u8> {
        self.outbuf@.subrange(self.out_pos as int, self.outbuf@.len() as int)
    }

    /// The context expects a new frame and holds nothing.
    pub closed spec fn fresh(&self) -> bool {
        &&& !self.frame_done
        &&& self.stage == DStage::Header
        &&& self.inbuf@.len() == 0
        &&& self.outbuf@.len() == 0
        &&& self.out_pos == 0
    }

    /// Where the frame data received leads, when it holds the rest of a
    /// complete frame: the content still to deliver once the frame is
    /// decoded, and the input that follows the frame.
    pub closed spec fn outcome(&self, check: bool) -> Option<(Seq<u8>, Seq<u8>)> {
        if self.frame_done {
            Some((self.pending(), self.inbuf@))
        } else {
            let rest = match self.stage {
                DStage::Header => read_frame(self.inbuf@, check),
                DStage::Block => read_blocks(self.inbuf@, self.info, self.history@, self.content@, check),
                DStage::Skip => None,
            };
            match rest {
                Some((c, k)) => Some((self.pending() + c, self.inbuf@.subrange(k, self.inbuf@.len() as int))),
                None => None,
            }
        }
    }

    /// Where the frame data held leads once `more` is received after it (the
    /// frame in progress not being complete yet): as `outcome`, with `more`
    /// appended to the input held.
    pub closed spec fn after(&self, more: Seq<u8>, check: bool) -> Option<(Seq<u8>, Seq<u8>)> {
        let b = self.inbuf@ + more;
        let rest = match self.stage {
            DStage::Header => read_frame(b, check),
            DStage::Block => read_blocks(b, self.info, self.history@, self.content@, check),
            DStage::Skip => None,
        };
        match rest {
            Some((c, k)) => Some((self.pending() + c, b.subrange(k, b.len() as int))),
            None => None,
        }
    }

    /// Whether the frame in progress is complete (its content is being
    /// delivered).
    pub closed spec fn frame_complete(&self) -> bool {
        self.frame_done
    }

    /// The context is waiting for (the rest of) a frame header.
    pub closed spec fn awaiting_header(&self) -> bool {
        !self.frame_done && self.stage == DStage::Header
    }

    /// The context is past the frame's header, reading its blocks.
    pub closed spec fn in_blocks(&self) -> bool {
        !self.frame_done && self.stage == DStage::Block
    }

    /// Where the context leads once `more` is received: the content still
    /// to deliver and the input after the frame, when the frame completes.
    pub closed spec fn fut(&self, more: Seq<u8>, check: bool) -> Option<(Seq<u8>, Seq<u8>)> {
        if self.frame_done {
            Some((self.pending(), self.inbuf@ + more))
        } else {
            self.after(more, check)
        }
    }

    /// The version the context was created for.
    pub closed spec fn version(&self) -> u32 {
        self.version
    }

    /// A context for `version` that expects a frame header.
    pub fn new(version: u32) -> (s: Self)
        ensures
            s.wf(),
            s.fresh(),
            s.version() == version,
    {
        Lz4FDCtx {
            version,
            stage: DStage::Header,
            info: default_frame_info(),
            inbuf: Vec::new(),
            outbuf: Vec::new(),
            out_pos: 0,
            history: Vec::new(),
            content: Vec::new(),
            skip_left: 0,
            frame_done: false,
        }
    }
}

/// Creates a decompression context.
pub fn lz4f_create_decompression_context(version: u32) -> (r: Result<Box<Lz4FDCtx>, Lz4FError>)
    ensures
        r matches Ok(c) ==> c.wf() && c.fresh(),
        r is Ok,
{
    Ok(Box::new(Lz4FDCtx::new(version)))
}

/// Forgets the frame in progress; the context expects a frame header.
pub fn lz4f_reset_decompression_context(dctx: &mut Lz4FDCtx)
    ensures
        final(dctx).wf(),
        final(dctx).fresh(),
{
    let v = dctx.version;
    *dctx = Lz4FDCtx::new(v);
}

/// `v`'s low 31 bits (a block's stored length).
fn block_len(v: u32) -> (n: u32)
    ensures
        n == v % 0x8000_0000,
        v / 0x8000_0000 <= 1,
{
    v % 0x8000_0000u32
}

/// What every unit decoder promises: the frame data held shrinks (or the
/// frame ends), nothing changes when the unit has not fully arrived, and on
/// the rest of a complete frame the unit is decoded, the outcome unchanged.
pub closed spec fn unit_step(old: Lz4FDCtx, new: Lz4FDCtx, r: Result<bool, Lz4FError>, check: bool) -> bool {
    &&& new.wf()
    &&& (r matches Ok(true) ==> new.inbuf@.len() < old.inbuf@.len() || (new.frame_done
        && new.inbuf@.len() <= old.inbuf@.len()))
    &&& (r matches Ok(false) ==> new.inbuf@ == old.inbuf@ && !new.frame_done)
    &&& (new.frame_done ==> new.stage == DStage::Header)
    &&& (old.outcome(check) is Some ==> r == Ok::<bool, Lz4FError>(true) && new.outcome(check)
        == old.outcome(check))
    &&& (check && old.outcome(false) is Some && old.outcome(true) is None ==> (r matches Err(e)
        && checksum_error(e)) || (r == Ok::<bool, Lz4FError>(true) && new.outcome(false) is Some
        && new.outcome(true) is None))
}

/// The errors of a block or content checksum that does not match.
pub open spec fn checksum_error(e: Lz4FError) -> bool {
    e == Lz4FError::BlockChecksumInvalid || e == Lz4FError::ContentChecksumInvalid
}

/// What the block decoders promise about whatever input follows: a unit
/// decoded leaves where the context leads unchanged, a unit refused has no
/// completion, and a unit not yet arrived leaves the context as it was.
#[verifier::opaque]
pub closed spec fn keeps_future(old: Lz4FDCtx, new: Lz4FDCtx, r: Result<bool, Lz4FError>, check: bool) -> bool {
    &&& (r == Ok::<bool, Lz4FError>(true) ==> forall|more: Seq<u8>|
        #![trigger old.fut(more, check)]
        new.fut(more, check) == old.fut(more, check))
    &&& (r is Err ==> forall|more: Seq<u8>| #![trigger old.fut(more, check)] old.fut(more, check) is None)
    &&& (r == Ok::<bool, Lz4FError>(false) ==> new == old)
    &&& (r == Ok::<bool, Lz4FError>(true) ==> new.in_blocks() || new.frame_done)
}

/// `o` with `pre` delivered before it.
pub open spec fn delivered_before(pre: Seq<u8>, o: Option<(Seq<u8>, Seq<u8>)>) -> Option<(Seq<u8>, Seq<u8>)> {
    match o {
        Some((c, rest)) => Some((pre + c, rest)),
        None => None,
    }
}

/// Where a context leads with nothing more received is its outcome.
proof fn lemma_outcome_is_fut(d: Lz4FDCtx, check: bool)
    ensures
        d.outcome(check) == d.fut(Seq::<u8>::empty(), check),
{
    assert(d.inbuf@ + Seq::<u8>::empty() =~= d.inbuf@);
}

/// A data block decoded from the input held leaves where the context leads
/// unchanged, whatever input follows.
proof fn lemma_block_future(
    o: Lz4FDCtx,
    n: Lz4FDCtx,
    check: bool,
    size: int,
    raw: bool,
    dec: Seq<u8>,
)
    requires
        o.in_blocks(),
        n.in_blocks(),
        o.inbuf@.len() >= 4,
        le32_of(o.inbuf@) != 0,
        size == le32_of(o.inbuf@) % 0x8000_0000,
        raw == (le32_of(o.inbuf@) >= 0x8000_0000),
        size <= block_size_spec(o.info.block_size_id),
        4 + size + (if o.info.block_checksum { 4int } else { 0 }) <= o.inbuf@.len(),
        check && o.info.block_checksum ==> le32_of(o.inbuf@.subrange(4 + size, 8 + size)) == xxh32_of(
            o.inbuf@.subrange(4, 4 + size),
            0,
        ) as nat,
        block_content(o.inbuf@.subrange(4, 4 + size), raw, o.info, o.history@) == Some(dec),
        n.info == o.info,
        n.inbuf@ == o.inbuf@.subrange(4 + size + (if o.info.block_checksum { 4int } else { 0 }), o.inbuf@.len() as int),
        n.history@ == next_hist(o.info, o.history@, dec),
        n.content@ == next_content(o.info, o.content@, dec),
        n.pending() == o.pending() + dec,
    ensures
        forall|more: Seq<u8>| #![trigger o.fut(more, check)] n.fut(more, check) == o.fut(more, check),
{
    let unit = 4 + size + (if o.info.block_checksum { 4int } else { 0 });
    assert forall|more: Seq<u8>| #![trigger o.fut(more, check)] n.fut(more, check) == o.fut(more, check) by {
        let b = o.inbuf@ + more;
        assert(b.subrange(0, 4) =~= o.inbuf@.subrange(0, 4));
        assert(b[0] == o.inbuf@[0] && b[1] == o.inbuf@[1] && b[2] == o.inbuf@[2] && b[3] == o.inbuf@[3]);
        assert(b.subrange(4, 4 + size) =~= o.inbuf@.subrange(4, 4 + size));
        if o.info.block_checksum {
            assert(b.subrange(4 + size, 8 + size) =~= o.inbuf@.subrange(4 + size, 8 + size));
        }
        lemma_read_blocks_step(b, o.info, o.history@, o.content@, check, size, raw, dec);
        let nb = n.inbuf@ + more;
        assert(b.subrange(unit, b.len() as int) =~= nb);
        match read_blocks(nb, o.info, n.history@, n.content@, check) {
            Some((rest, k)) => {
                lemma_read_blocks_len(nb, o.info, n.history@, n.content@, check);
                assert(b.subrange(unit + k, b.len() as int) =~= nb.subrange(k, nb.len() as int));
                assert(o.pending() + (dec + rest) =~= n.pending() + rest);
            },
            None => {},
        }
    }
}

/// A data block that does not fit the block size, whose checksum does not
/// match, or that does not decode, has no completion.
proof fn lemma_block_no_future(o: Lz4FDCtx, check: bool, size: int, raw: bool)
    requires
        o.in_blocks(),
        o.inbuf@.len() >= 4,
        le32_of(o.inbuf@) != 0,
        size == le32_of(o.inbuf@) % 0x8000_0000,
        raw == (le32_of(o.inbuf@) >= 0x8000_0000),
        size > block_size_spec(o.info.block_size_id) || {
            let unit = 4 + size + (if o.info.block_checksum { 4int } else { 0 });
            &&& unit <= o.inbuf@.len()
            &&& ((check && o.info.block_checksum && le32_of(o.inbuf@.subrange(4 + size, 8 + size))
                != xxh32_of(o.inbuf@.subrange(4, 4 + size), 0) as nat) || block_content(
                o.inbuf@.subrange(4, 4 + size),
                raw,
                o.info,
                o.history@,
            ) is None)
        },
    ensures
        forall|more: Seq<u8>| #![trigger o.fut(more, check)] o.fut(more, check) is None,
{
    assert forall|more: Seq<u8>| #![trigger o.fut(more, check)] o.fut(more, check) is None by {
        let b = o.inbuf@ + more;
        if read_blocks(b, o.info, o.history@, o.content@, check) is Some {
            assert(b.subrange(0, 4) =~= o.inbuf@.subrange(0, 4));
            assert(b[0] == o.inbuf@[0] && b[1] == o.inbuf@[1] && b[2] == o.inbuf@[2] && b[3] == o.inbuf@[3]);
            lemma_read_blocks_block(b, o.info, o.history@, o.content@, check);
            if size <= block_size_spec(o.info.block_size_id) {
                assert(b.subrange(4, 4 + size) =~= o.inbuf@.subrange(4, 4 + size));
                if o.info.block_checksum {
                    assert(b.subrange(4 + size, 8 + size) =~= o.inbuf@.subrange(4 + size, 8 + size));
                }
            }
        }
    }
}

/// An end mark decoded from the input held completes the frame where the
/// context led, whatever input follows; one whose checksum does not match
/// has no completion.
proof fn lemma_end_future(o: Lz4FDCtx, n: Lz4FDCtx, check: bool, ok: bool)
    requires
        o.in_blocks(),
        o.inbuf@.len() >= (if o.info.content_checksum { 8int } else { 4int }),
        o.inbuf@.len() >= 4,
        le32_of(o.inbuf@) == 0,
        ok == !(check && o.info.content_checksum && le32_of(o.inbuf@.subrange(4, 8)) != xxh32_of(
            o.content@,
            0,
        ) as nat),
        ok ==> {
            &&& n.frame_done
            &&& n.pending() == o.pending()
            &&& n.inbuf@ == o.inbuf@.subrange(
                if o.info.content_checksum { 8int } else { 4int },
                o.inbuf@.len() as int,
            )
        },
    ensures
        ok ==> forall|more: Seq<u8>| #![trigger o.fut(more, check)] n.fut(more, check) == o.fut(more, check),
        !ok ==> forall|more: Seq<u8>| #![trigger o.fut(more, check)] o.fut(more, check) is None,
{
    let need: int = if o.info.content_checksum { 8 } else { 4 };
    assert forall|more: Seq<u8>| #![trigger o.fut(more, check)] (ok ==> n.fut(more, check) == o.fut(
        more,
        check,
    )) && (!ok ==> o.fut(more, check) is None) by {
        let b = o.inbuf@ + more;
        assert(b.subrange(0, 4) =~= o.inbuf@.subrange(0, 4));
        assert(b[0] == o.inbuf@[0] && b[1] == o.inbuf@[1] && b[2] == o.inbuf@[2] && b[3] == o.inbuf@[3]);
        if o.info.content_checksum {
            assert(b.subrange(4, 8) =~= o.inbuf@.subrange(4, 8));
        }
        if ok {
            lemma_read_blocks_end_ok(b, o.info, o.history@, o.content@, check);
            lemma_read_blocks_end(b, o.info, o.history@, o.content@, check);
            assert(b.subrange(need, b.len() as int) =~= n.inbuf@ + more);
            assert(o.pending() + Seq::<u8>::empty() =~= o.pending());
        } else if read_blocks(b, o.info, o.history@, o.content@, check) is Some {
            lemma_read_blocks_end(b, o.info, o.history@, o.content@, check);
        }
    }
}

/// Reading a frame header leaves where the context leads unchanged,
/// whatever input follows.
proof fn lemma_header_future(o: Lz4FDCtx, n: Lz4FDCtx, check: bool, info: FrameInfo)
    requires
        !o.frame_done,
        o.stage == DStage::Header,
        !n.frame_done,
        n.stage == DStage::Block,
        header_at(o.inbuf@, info),
        n.inbuf@ == o.inbuf@.subrange(header_len(info), o.inbuf@.len() as int),
        n.info == info,
        n.history@ == Seq::<u8>::empty(),
        n.content@ == Seq::<u8>::empty(),
        n.pending() == o.pending(),
    ensures
        forall|more: Seq<u8>| #[trigger] n.fut(more, check) == o.fut(more, check),
{
    lemma_header_fields(o.inbuf@, info);
    let h = header_len(info);
    assert forall|more: Seq<u8>| #[trigger] n.fut(more, check) == o.fut(more, check) by {
        let b = o.inbuf@ + more;
        assert(header_bytes(info).is_prefix_of(b)) by {
            assert forall|i: int| 0 <= i < header_bytes(info).len() implies header_bytes(info)[i]
                == b[i] by {
                assert(header_bytes(info)[i] == o.inbuf@[i]);
            }
        }
        assert(header_at(b, info));
        lemma_read_frame_header(b, info, check);
        assert(b.subrange(h, b.len() as int) =~= n.inbuf@ + more);
        let rb = read_blocks(n.inbuf@ + more, info, Seq::empty(), Seq::empty(), check);
        if rb is Some {
            lemma_read_blocks_len(n.inbuf@ + more, info, Seq::empty(), Seq::empty(), check);
            let k = (rb->0).1;
            assert(b.subrange(h + k, b.len() as int) =~= (n.inbuf@ + more).subrange(
                k,
                (n.inbuf@ + more).len() as int,
            ));
        }
    }
}

/// A skippable frame's header held means that no frame completes, whatever
/// input follows.
proof fn lemma_skippable_future(o: Lz4FDCtx, check: bool, m: u32, size: u32)
    requires
        !o.frame_done,
        o.stage == DStage::Header,
        o.inbuf@.len() >= 8,
        LZ4F_MAGIC_SKIPPABLE_START <= m,
        o.inbuf@.subrange(0, 8) == skippable_header(m, size),
    ensures
        forall|more: Seq<u8>| #[trigger] o.fut(more, check) is None,
{
    assert forall|more: Seq<u8>| #[trigger] o.fut(more, check) is None by {
        let b = o.inbuf@ + more;
        assert(b.subrange(0, 8) =~= o.inbuf@.subrange(0, 8));
        assert forall|i: FrameInfo| !header_at(b, i) by {
            lemma_skippable_no_frame(b, m, size, i);
        }
        reveal(read_frame);
    }
}

/// What reading a frame header promises about whatever input follows: a
/// header read leads into the frame's blocks with the context leading where
/// it led, or into a skippable frame, which no input completes as a frame;
/// a header not yet arrived leaves the context as it was.
pub closed spec fn header_future(old: Lz4FDCtx, new: Lz4FDCtx, r: Result<bool, Lz4FError>, check: bool) -> bool {
    &&& (r == Ok::<bool, Lz4FError>(true) ==> (new.stage == DStage::Skip && forall|more: Seq<u8>|
        #![trigger old.fut(more, check)]
        old.fut(more, check) is None) || (new.in_blocks() && forall|more: Seq<u8>|
        #![trigger old.fut(more, check)]
        new.fut(more, check) == old.fut(more, check)))
    &&& (r == Ok::<bool, Lz4FError>(false) ==> new == old)
    &&& (r is Err ==> forall|more: Seq<u8>| #![trigger old.fut(more, check)] old.fut(more, check) is None)
}

/// Decodes the frame header at the start of the data held.
fn decode_header_unit(dctx: &mut Lz4FDCtx, skip_checksums: bool) -> (r: Result<bool, Lz4FError>)
    requires
        old(dctx).wf(),
        !old(dctx).frame_done,
        old(dctx).stage == DStage::Header,
    ensures
        unit_step(*old(dctx), *final(dctx), r, !skip_checksums),
        header_future(*old(dctx), *final(dctx), r, !skip_checksums),
        unknown_magic(old(dctx).inbuf@) ==> r == Err::<bool, Lz4FError>(Lz4FError::FrameTypeUnknown),
        old(dctx).inbuf@.len() >= 19 && (exists|i: FrameInfo| header_corrupt(old(dctx).inbuf@, i))
            ==> r is Err,
{
    let ghost check = !skip_checksums;
    let ghost o = *dctx;
    let ghost out0 = dctx.outcome(check);
    let ghost diverge = check && dctx.outcome(false) is Some && dctx.outcome(true) is None;
    proof {
        if diverge {
            lemma_read_frame_parts(dctx.inbuf@, false);
            let hi = choose|i: FrameInfo| header_at(dctx.inbuf@, i);
            lemma_header_fields(dctx.inbuf@, hi);
            lemma_read_frame_header(dctx.inbuf@, hi, true);
            lemma_read_frame_header(dctx.inbuf@, hi, false);
        }
    }
    proof {
        if out0 is Some {
            lemma_read_frame_parts(dctx.inbuf@, check);
            let hi = choose|i: FrameInfo| header_at(dctx.inbuf@, i);
            lemma_header_fields(dctx.inbuf@, hi);
        }
    }
    match parse_header(dctx.inbuf.as_slice()) {
        Ok((info, n)) => {
            let ghost b0 = dctx.inbuf@;
            proof {
                if exists|i: FrameInfo| header_corrupt(b0, i) {
                    let ci = choose|i: FrameInfo| header_corrupt(b0, i);
                    if info.frame_type == FrameType::Frame {
                        assert(header_bytes(info).is_prefix_of(b0));
                        lemma_corrupt_not_header(b0, ci, info);
                    } else {
                        let m = choose|m: u32|
                            LZ4F_MAGIC_SKIPPABLE_START <= m < LZ4F_MAGIC_SKIPPABLE_START + 16
                                && b0.subrange(0, 8) == #[trigger] skippable_header(
                                m,
                                info.content_size as u32,
                            );
                        lemma_corrupt_not_skippable(b0, ci, m, info.content_size as u32);
                    }
                }
            }
            let rest = copy_bytes(dctx.inbuf.as_slice(), n);
            dctx.inbuf = rest;
            dctx.info = info;
            dctx.history = Vec::new();
            dctx.content = Vec::new();
            if info.frame_type == FrameType::SkippableFrame {
                dctx.skip_left = info.content_size;
                dctx.stage = DStage::Skip;
            } else {
                dctx.stage = DStage::Block;
            }
            proof {
                assert(n >= 1) by {
                    if info.frame_type == FrameType::Frame {
                        assert(crate::frame::header::header_bytes(info).len() >= 7);
                    }
                }
                if diverge {
                    let hi = choose|i: FrameInfo| header_at(b0, i);
                    assert(info == hi);
                    assert(dctx.history@ =~= Seq::<u8>::empty());
                    assert(dctx.content@ =~= Seq::<u8>::empty());
                    assert(dctx.inbuf@ == b0.subrange(header_len(hi), b0.len() as int));
                }
                if out0 is Some {
                    let hi = choose|i: FrameInfo| header_at(b0, i);
                    assert(info == hi);
                    assert(dctx.history@ =~= Seq::<u8>::empty());
                    assert(dctx.content@ =~= Seq::<u8>::empty());
                    assert(dctx.inbuf@ == b0.subrange(n as int, b0.len() as int));
                    lemma_read_blocks_len(dctx.inbuf@, info, Seq::empty(), Seq::empty(), check);
                    let pr = read_blocks(dctx.inbuf@, info, Seq::empty(), Seq::empty(), check)->0;
                    let k = pr.1;
                    assert(dctx.inbuf@.subrange(k, dctx.inbuf@.len() as int) =~= b0.subrange(
                        n + k,
                        b0.len() as int,
                    ));
                }
                if info.frame_type == FrameType::Frame {
                    assert(header_bytes(info).is_prefix_of(b0));
                    assert(header_at(b0, info));
                    lemma_header_future(o, *dctx, check, info);
                } else {
                    let m = choose|m: u32|
                        LZ4F_MAGIC_SKIPPABLE_START <= m < LZ4F_MAGIC_SKIPPABLE_START + 16
                            && b0.subrange(0, 8) == #[trigger] skippable_header(
                            m,
                            info.content_size as u32,
                        );
                    lemma_skippable_future(o, check, m, info.content_size as u32);
                }
            }
            Ok(true)
        },
        Err(Lz4FError::FrameHeaderIncomplete) => Ok(false),
        Err(e) => {
            proof {
                assert forall|more: Seq<u8>| #![trigger o.fut(more, check)] o.fut(more, check) is None by {
                    assert forall|i: FrameInfo| !header_at(o.inbuf@ + more, i) by {
                        assert(!header_at(dctx.inbuf@ + more, i));
                    }
                    reveal(read_frame);
                }
            }
            Err(e)
        },
    }
}

/// Skips the data of a skippable frame held.
fn decode_skip_unit(dctx: &mut Lz4FDCtx, skip_checksums: bool) -> (r: Result<bool, Lz4FError>)
    requires
        old(dctx).wf(),
        !old(dctx).frame_done,
        old(dctx).stage == DStage::Skip,
    ensures
        unit_step(*old(dctx), *final(dctx), r, !skip_checksums),
        final(dctx).version == old(dctx).version,
        final(dctx).info == old(dctx).info,
        final(dctx).outbuf@ == old(dctx).outbuf@,
        final(dctx).out_pos == old(dctx).out_pos,
        final(dctx).history@ == old(dctx).history@,
        final(dctx).content@ == old(dctx).content@,
        old(dctx).skip_left == 0 ==> {
            &&& r == Ok::<bool, Lz4FError>(true)
            &&& final(dctx).stage == DStage::Header
            &&& final(dctx).frame_done
            &&& final(dctx).inbuf@ == old(dctx).inbuf@
            &&& final(dctx).skip_left == 0
        },
        old(dctx).skip_left > 0 && old(dctx).inbuf@.len() == 0 ==> {
            &&& r == Ok::<bool, Lz4FError>(false)
            &&& final(dctx).stage == DStage::Skip
            &&& !final(dctx).frame_done
            &&& final(dctx).inbuf@ == old(dctx).inbuf@
            &&& final(dctx).skip_left == old(dctx).skip_left
        },
        old(dctx).skip_left > 0 && old(dctx).inbuf@.len() > 0 ==> {
            let take = if old(dctx).inbuf@.len() < old(dctx).skip_left {
                old(dctx).inbuf@.len() as int
            } else {
                old(dctx).skip_left as int
            };
            &&& r == Ok::<bool, Lz4FError>(true)
            &&& final(dctx).stage == DStage::Skip
            &&& !final(dctx).frame_done
            &&& final(dctx).inbuf@ == old(dctx).inbuf@.subrange(take, old(dctx).inbuf@.len() as int)
            &&& final(dctx).skip_left == old(dctx).skip_left - take
        },
{
    if dctx.skip_left == 0 {
        dctx.stage = DStage::Header;
        dctx.frame_done = true;
        return Ok(true);
    }
    let have = dctx.inbuf.len();
    if have == 0 {
        return Ok(false);
    }
    let take: usize = if (have as u64) < dctx.skip_left {
        have
    } else {
        dctx.skip_left as usize
    };
    let rest = copy_bytes(dctx.inbuf.as_slice(), take);
    dctx.inbuf = rest;
    dctx.skip_left = dctx.skip_left - (take as u64);
    Ok(true)
}

/// Decodes the end mark (and the content checksum) at the start of the
/// data held.
fn decode_end_mark(dctx: &mut Lz4FDCtx, skip_checksums: bool) -> (r: Result<bool, Lz4FError>)
    requires
        old(dctx).wf(),
        !old(dctx).frame_done,
        old(dctx).stage == DStage::Block,
        old(dctx).inbuf@.len() >= 4,
        le32_of(old(dctx).inbuf@) == 0,
    ensures
        unit_step(*old(dctx), *final(dctx), r, !skip_checksums),
        keeps_future(*old(dctx), *final(dctx), r, !skip_checksums),
{
    let ghost o = *dctx;
    let ghost check = !skip_checksums;
    let ghost out0 = dctx.outcome(check);
    let ghost b0 = dctx.inbuf@;
    let ghost p0 = dctx.pending();
    let ghost diverge = check && dctx.outcome(false) is Some && dctx.outcome(true) is None;
    proof {
        if out0 is Some {
            lemma_read_blocks_end(b0, dctx.info, dctx.history@, dctx.content@, check);
        }
        if diverge {
            lemma_read_blocks_end(b0, dctx.info, dctx.history@, dctx.content@, false);
        }
    }
    let have = dctx.inbuf.len();
    let need: usize = if dctx.info.content_checksum {
        8
    } else {
        4
    };
    if have < need {
        proof {
            assert(keeps_future(o, *dctx, Ok(false), check)) by {
                reveal(keeps_future);
            }
        }
        return Ok(false);
    }
    if dctx.info.content_checksum && !skip_checksums {
        let stored = read_le32_at(dctx.inbuf.as_slice(), 4);
        proof {
            lemma_le4_value(stored as nat);
        }
        let h = xxh32(dctx.content.as_slice(), 0);
        if stored != h {
            proof {
                assert(le32_of(b0.subrange(4, 8)) == stored);
                assert(keeps_future(o, *dctx, Err(Lz4FError::ContentChecksumInvalid), check)) by {
                    reveal(keeps_future);
                    lemma_end_future(o, o, check, false);
                }
            }
            return Err(Lz4FError::ContentChecksumInvalid);
        }
        proof {
            assert(le32_of(b0.subrange(4, 8)) == stored);
        }
    }
    proof {
        if diverge {
            lemma_read_blocks_end_ok(b0, dctx.info, dctx.history@, dctx.content@, true);
        }
    }
    let rest = copy_bytes(dctx.inbuf.as_slice(), need);
    dctx.inbuf = rest;
    dctx.stage = DStage::Header;
    dctx.frame_done = true;
    proof {
        if out0 is Some {
            assert(p0 + Seq::<u8>::empty() =~= p0);
        }
        assert(keeps_future(o, *dctx, Ok(true), check)) by {
            reveal(keeps_future);
            lemma_end_future(o, *dctx, check, true);
        }
    }
    Ok(true)
}

/// Decodes the data block whose first 4 bytes (the value `v`, not 0) start
/// the data held.
#[verifier::rlimit(100)]
#[verifier::spinoff_prover]
fn decode_data_block(dctx: &mut Lz4FDCtx, skip_checksums: bool, v: u32) -> (r: Result<bool, Lz4FError>)
    requires
        old(dctx).wf(),
        !old(dctx).frame_done,
        old(dctx).stage == DStage::Block,
        old(dctx).inbuf@.len() >= 4,
        le32_of(old(dctx).inbuf@) == v,
        v != 0,
    ensures
        unit_step(*old(dctx), *final(dctx), r, !skip_checksums),
        keeps_future(*old(dctx), *final(dctx), r, !skip_checksums),
{
    let ghost o = *dctx;
    let ghost check = !skip_checksums;
    let ghost out0 = dctx.outcome(check);
    let ghost b0 = dctx.inbuf@;
    let ghost p0 = dctx.pending();
    let ghost info = dctx.info;
    let ghost h0 = dctx.history@;
    let ghost c0 = dctx.content@;
    let ghost diverge = check && dctx.outcome(false) is Some && dctx.outcome(true) is None;
    proof {
        if out0 is Some {
            lemma_read_blocks_block(b0, info, h0, c0, check);
        }
        if diverge {
            lemma_read_blocks_block(b0, info, h0, c0, false);
        }
    }
    let have = dctx.inbuf.len();
    let size = block_len(v) as usize;
    let raw = v >= 0x8000_0000u32;
    let bs = block_size_from_id(dctx.info.block_size_id);
    if size > bs {
        proof {
            assert(keeps_future(o, *dctx, Err(Lz4FError::MaxBlockSizeInvalid), check)) by {
                reveal(keeps_future);
                lemma_block_no_future(o, check, size as int, raw);
            }
        }
        return Err(Lz4FError::MaxBlockSizeInvalid);
    }
    let crc: usize = if dctx.info.block_checksum {
        4
    } else {
        0
    };
    let need = 4 + size + crc;
    if have < need {
        proof {
            assert(keeps_future(o, *dctx, Ok(false), check)) by {
                reveal(keeps_future);
            }
        }
        return Ok(false);
    }
    let data = vstd::slice::slice_subrange(dctx.inbuf.as_slice(), 4, 4 + size);
    if dctx.info.block_checksum && !skip_checksums {
        let stored = read_le32_at(dctx.inbuf.as_slice(), 4 + size);
        proof {
            lemma_le4_value(stored as nat);
        }
        let h = xxh32(data, 0);
        if stored != h {
            proof {
                assert(le32_of(b0.subrange(4 + size, 8 + size)) == stored);
                assert(keeps_future(o, *dctx, Err(Lz4FError::BlockChecksumInvalid), check)) by {
                    reveal(keeps_future);
                    lemma_block_no_future(o, check, size as int, raw);
                }
            }
            return Err(Lz4FError::BlockChecksumInvalid);
        }
        proof {
            assert(le32_of(b0.subrange(4 + size, 8 + size)) == stored);
        }
    }
    let decoded = match decode_block_data(data, raw, bs, dctx.info.block_mode == BlockMode::Linked, dctx.history.as_slice()) {
        Some(d) => d,
        None => {
            proof {
                assert(keeps_future(o, *dctx, Err(Lz4FError::DecompressionFailed), check)) by {
                    reveal(keeps_future);
                    lemma_block_no_future(o, check, size as int, raw);
                }
            }
            return Err(Lz4FError::DecompressionFailed);
        },
    };
    crate::frame::compress::append_bytes(&mut dctx.outbuf, decoded.as_slice());
    if dctx.info.block_mode == BlockMode::Linked {
        let h = crate::block::decompress::joined_window(dctx.history.as_slice(), decoded.as_slice());
        dctx.history = h;
    }
    if dctx.info.content_checksum {
        crate::frame::compress::append_bytes(&mut dctx.content, decoded.as_slice());
    }
    let rest = copy_bytes(dctx.inbuf.as_slice(), need);
    dctx.inbuf = rest;
    proof {
        assert(dctx.history@ == next_hist(info, h0, decoded@));
        assert(dctx.content@ == next_content(info, c0, decoded@));
        assert(dctx.pending() =~= p0 + decoded@);
        lemma_block_future(o, *dctx, check, size as int, raw, decoded@);
        lemma_block_future(o, *dctx, false, size as int, raw, decoded@);
        lemma_outcome_is_fut(o, check);
        lemma_outcome_is_fut(o, false);
        lemma_outcome_is_fut(*dctx, check);
        lemma_outcome_is_fut(*dctx, false);
        assert(o.fut(Seq::<u8>::empty(), check) == dctx.fut(Seq::<u8>::empty(), check));
        assert(o.fut(Seq::<u8>::empty(), false) == dctx.fut(Seq::<u8>::empty(), false));
        assert(keeps_future(o, *dctx, Ok(true), check)) by {
            reveal(keeps_future);
        }
    }
    Ok(true)
}

/// The content of a block's data, decoded within the block size `bs`
/// against `history` when `linked`, or the data itself when `raw`.
fn decode_block_data(data: &[u8], raw: bool, bs: usize, linked: bool, history: &[u8]) -> (r: Option<Vec<u8>>)
    ensures
        match r {
            Some(c) => (if raw {
                Some(data@)
            } else {
                lz4_decode(data@, if linked { history@ } else { Seq::empty() }, bs as int, false)
            }) == Some(c@),
            None => !raw && lz4_decode(data@, if linked { history@ } else { Seq::empty() }, bs as int, false) is None,
        },
{
    if raw {
        return Some(copy_bytes(data, 0));
    }
    let mut tmp: Vec<u8> = vec![0u8; bs];
    let none: Vec<u8> = Vec::new();
    let dict = if linked {
        history
    } else {
        none.as_slice()
    };
    match decompress_safe_using_dict(data, tmp.as_mut_slice(), dict) {
        Ok(k) => Some(copy_bytes(vstd::slice::slice_subrange(tmp.as_slice(), 0, k), 0)),
        Err(_) => None,
    }
}

/// Decodes the block, or the end mark with its checksum, at the start of
/// the data held.
fn decode_block_unit(dctx: &mut Lz4FDCtx, skip_checksums: bool) -> (r: Result<bool, Lz4FError>)
    requires
        old(dctx).wf(),
        !old(dctx).frame_done,
        old(dctx).stage == DStage::Block,
    ensures
        unit_step(*old(dctx), *final(dctx), r, !skip_checksums),
        keeps_future(*old(dctx), *final(dctx), r, !skip_checksums),
{
    let ghost check = !skip_checksums;
    proof {
        if dctx.outcome(check) is Some {
            lemma_read_blocks_len(dctx.inbuf@, dctx.info, dctx.history@, dctx.content@, check);
        }
        if dctx.outcome(false) is Some {
            lemma_read_blocks_len(dctx.inbuf@, dctx.info, dctx.history@, dctx.content@, false);
        }
    }
    if dctx.inbuf.len() < 4 {
        proof {
            assert(keeps_future(*old(dctx), *dctx, Ok(false), check)) by {
                reveal(keeps_future);
            }
        }
        return Ok(false);
    }
    let v = read_le32_at(dctx.inbuf.as_slice(), 0);
    proof {
        let b0 = dctx.inbuf@;
        lemma_le4_value(v as nat);
        assert(b0.subrange(0, 4)[0] == b0[0] && b0.subrange(0, 4)[1] == b0[1] && b0.subrange(0, 4)[2]
            == b0[2] && b0.subrange(0, 4)[3] == b0[3]);
        assert(le32_of(b0) == v);
    }
    if v == 0 {
        decode_end_mark(dctx, skip_checksums)
    } else {
        decode_data_block(dctx, skip_checksums, v)
    }
}

/// Decodes the next unit of the frame held in `dctx.inbuf` when it has
/// fully arrived: the header, a block, the end mark with its checksum, or
/// skippable data.  Returns whether a unit was decoded.
fn decode_unit(dctx: &mut Lz4FDCtx, skip_checksums: bool) -> (r: Result<bool, Lz4FError>)
    requires
        old(dctx).wf(),
        !old(dctx).frame_done,
    ensures
        unit_step(*old(dctx), *final(dctx), r, !skip_checksums),
        old(dctx).in_blocks() ==> keeps_future(*old(dctx), *final(dctx), r, !skip_checksums),
        old(dctx).awaiting_header() ==> header_future(*old(dctx), *final(dctx), r, !skip_checksums),
        old(dctx).stage == DStage::Skip ==> r is Ok && (final(dctx).stage == DStage::Skip
            || final(dctx).frame_done),
        old(dctx).stage == DStage::Header && old(dctx).inbuf@.len() >= 19 && (exists|i: FrameInfo|
            header_corrupt(old(dctx).inbuf@, i)) ==> r is Err,
        old(dctx).stage == DStage::Header && unknown_magic(old(dctx).inbuf@) ==> r == Err::<
            bool,
            Lz4FError,
        >(Lz4FError::FrameTypeUnknown),
{
    match dctx.stage {
        DStage::Header => decode_header_unit(dctx, skip_checksums),
        DStage::Skip => decode_skip_unit(dctx, skip_checksums),
        DStage::Block => decode_block_unit(dctx, skip_checksums),
    }
}

/// The content of the frame at the start of `src` and what follows it.
pub open spec fn frame_outcome(src: Seq<u8>, check: bool) -> Option<(Seq<u8>, Seq<u8>)> {
    match read_frame(src, check) {
        Some((c, k)) => Some((c, src.subrange(k, src.len() as int))),
        None => None,
    }
}

/// Whether the checksums are verified under options `opts`.
pub open spec fn checks_of(opts: Option<&DecompressOptions>) -> bool {
    match opts {
        Some(o) => !o.skip_checksums,
        None => true,
    }
}

/// Length of the unit the context expects next: a frame header's first 7
/// bytes, a byte of skippable data, a block header, or, once the block
/// header has arrived, the whole block (or end mark) with its checksum.
spec fn unit_need(d: Lz4FDCtx) -> int {
    match d.stage {
        DStage::Header => 7,
        DStage::Skip => 1,
        DStage::Block => if d.inbuf@.len() < 4 {
            4
        } else if le32_of(d.inbuf@) == 0 {
            if d.info.content_checksum {
                8
            } else {
                4
            }
        } else {
            8 + le32_of(d.inbuf@) % 0x8000_0000 + if d.info.block_checksum {
                4int
            } else {
                0int
            }
        },
    }
}

/// Bytes the context expects next (at least 1), given what it holds.
fn next_hint(dctx: &Lz4FDCtx) -> (h: usize)
    ensures
        h >= 1,
        h == if unit_need(*dctx) > dctx.inbuf@.len() {
            unit_need(*dctx) - dctx.inbuf@.len()
        } else {
            1
        },
{
    let have = dctx.inbuf.len();
    let need: usize = match dctx.stage {
        DStage::Header => 7,
        DStage::Skip => 1,
        DStage::Block => if have < 4 {
            4
        } else {
            let v = read_le32_at(dctx.inbuf.as_slice(), 0);
            proof {
                let b0 = dctx.inbuf@;
                lemma_le4_value(v as nat);
                assert(b0.subrange(0, 4)[0] == b0[0] && b0.subrange(0, 4)[1] == b0[1]
                    && b0.subrange(0, 4)[2] == b0[2] && b0.subrange(0, 4)[3] == b0[3]);
                assert(le32_of(b0) == v);
            }
            if v == 0 {
                if dctx.info.content_checksum {
                    8
                } else {
                    4
                }
            } else {
                8 + (block_len(v) as usize) + (if dctx.info.block_checksum {
                    4usize
                } else {
                    0
                })
            }
        },
    };
    if need > have {
        need - have
    } else {
        1
    }
}

/// Decompresses frame data: takes `src` (all of it, but for what follows
/// the end of a frame), decodes every unit that has fully arrived, and
/// writes into `dst` as much of the decoded content as fits.
///
/// Returns the input consumed, the output written and a hint: 0 when the
/// frame is complete and its content delivered (the context then expects a
/// new frame), else a number of input bytes worth providing next.  On a
/// malformed frame it fails and the context is reset.  A frame may arrive
/// in pieces: while the data received can still be completed to a frame, a
/// successful call takes all of `src`, and the content written, followed by
/// what the rest of the frame yields, is the frame's content; a call that
/// fails there leaves data that no further input completes to a frame.
#[verifier::rlimit(100)]
#[verifier::spinoff_prover]
pub fn lz4f_decompress(
    dctx: &mut Lz4FDCtx,
    dst: Option<&mut [u8]>,
    src: &[u8],
    opts: Option<&DecompressOptions>,
) -> (r: Result<(usize, usize, usize), Lz4FError>)
    requires
        old(dctx).wf(),
    ensures
        final(dctx).wf(),
        old(dctx).fresh() && unknown_magic(src@) ==> r == Err::<(usize, usize, usize), Lz4FError>(
            Lz4FError::FrameTypeUnknown,
        ) && final(dctx).fresh(),
        old(dctx).fresh() && src@.len() >= 19 && (exists|i: FrameInfo| header_corrupt(src@, i))
            ==> r is Err && final(dctx).fresh(),
        old(dctx).fresh() && checks_of(opts) && read_frame(src@, false) is Some && read_frame(
            src@,
            true,
        ) is None ==> (r matches Err(e) && checksum_error(e)) && final(dctx).fresh(),
        r matches Ok((consumed, _written, _hint)) ==> consumed <= src@.len(),
        (old(dctx).in_blocks() || old(dctx).awaiting_header()) && r is Err ==> forall|more: Seq<u8>|
            #![trigger old(dctx).after(src@ + more, checks_of(opts))]
            old(dctx).after(src@ + more, checks_of(opts)) is None,
        (old(dctx).in_blocks() || (old(dctx).awaiting_header() && exists|m: Seq<u8>|
            #![trigger old(dctx).after(src@ + m, checks_of(opts))]
            old(dctx).after(src@ + m, checks_of(opts)) is Some)) && old(dctx).after(
            src@,
            checks_of(opts),
        ) is None ==> (r matches Ok((consumed, written, hint)) ==> {
            &&& consumed == src@.len()
            &&& hint >= 1
            &&& final(dctx).in_blocks() || final(dctx).awaiting_header()
            &&& old(dctx).in_blocks() ==> final(dctx).in_blocks()
            &&& forall|more: Seq<u8>|
                #![trigger old(dctx).after(src@ + more, checks_of(opts))]
                old(dctx).after(src@ + more, checks_of(opts)) == delivered_before(
                    match dst {
                        Some(d) => final(d)@.subrange(0, written as int),
                        None => Seq::<u8>::empty(),
                    },
                    final(dctx).after(more, checks_of(opts)),
                )
        }),
        !old(dctx).frame_complete() && old(dctx).after(src@, checks_of(opts)) is Some && (dst matches Some(
            d,
        ) && (old(dctx).after(src@, checks_of(opts))->0).0.len() <= d@.len()) ==> {
            let a = old(dctx).after(src@, checks_of(opts))->0;
            let consumed = if a.1.len() < src@.len() {
                src@.len() - a.1.len()
            } else {
                0
            };
            &&& r == Ok::<(usize, usize, usize), Lz4FError>((consumed as usize, a.0.len() as usize, 0usize))
            &&& final(dctx).fresh()
            &&& (dst matches Some(d) ==> final(d)@.subrange(0, a.0.len() as int) == a.0)
        },
        old(dctx).fresh() && read_frame(src@, checks_of(opts)) is Some && (dst matches Some(d) && (
        read_frame(src@, checks_of(opts))->0).0.len() <= d@.len()) ==> {
            let rf = read_frame(src@, checks_of(opts))->0;
            &&& r == Ok::<(usize, usize, usize), Lz4FError>((rf.1 as usize, rf.0.len() as usize, 0usize))
            &&& final(dctx).fresh()
            &&& (dst matches Some(d) ==> final(d)@.subrange(0, rf.0.len() as int) == rf.0)
        },
{
    let skip = match opts {
        Some(o) => o.skip_checksums,
        None => false,
    };
    let ghost check = checks_of(opts);
    let ghost fresh0 = dctx.fresh();
    let ghost hdr0 = old(dctx).awaiting_header() && exists|m: Seq<u8>|
        #![trigger old(dctx).after(src@ + m, check)]
        old(dctx).after(src@ + m, check) is Some;
    let ghost st0 = old(dctx).in_blocks() || hdr0;
    let ghost st1 = old(dctx).in_blocks() || old(dctx).awaiting_header();
    let mut consumed: usize = 0;
    if !dctx.frame_done {
        crate::frame::compress::append_bytes(&mut dctx.inbuf, src);
        proof {
            if fresh0 {
                assert(dctx.inbuf@ =~= src@);
                assert(dctx.pending() =~= Seq::<u8>::empty());
                if read_frame(src@, check) is Some {
                    let rf = read_frame(src@, check)->0;
                    assert(dctx.pending() + rf.0 =~= rf.0);
                }
            }
        }
        let ghost outcome0 = dctx.outcome(check);
        assert(outcome0 == old(dctx).after(src@, check));
        proof {
            if st1 {
                assert forall|more: Seq<u8>| #![trigger old(dctx).after(src@ + more, check)] dctx.fut(
                    more,
                    check,
                ) == old(dctx).after(src@ + more, check) by {
                    assert(dctx.inbuf@ + more =~= old(dctx).inbuf@ + (src@ + more));
                }
            }
        }
        assert(fresh0 ==> outcome0 == frame_outcome(src@, check));
        let mut going = true;
        while going && !dctx.frame_done
            invariant
                dctx.wf(),
                check == !skip,
                check == checks_of(opts),
                fresh0 == old(dctx).fresh(),
                dctx.frame_done ==> dctx.stage == DStage::Header,
                outcome0 is Some ==> dctx.outcome(check) == outcome0 && going,
                fresh0 ==> outcome0 == frame_outcome(src@, check),
                !old(dctx).frame_done ==> outcome0 == old(dctx).after(src@, check),
                st0 == (old(dctx).in_blocks() || hdr0),
                st1 == (old(dctx).in_blocks() || old(dctx).awaiting_header()),
                st1 ==> ((dctx.in_blocks() || dctx.frame_done || dctx.awaiting_header()) && forall|
                    more: Seq<u8>,
                |
                    #![trigger old(dctx).after(src@ + more, check)]
                    dctx.fut(more, check) == old(dctx).after(src@ + more, check)) || ((dctx.stage
                    == DStage::Skip || dctx.frame_done) && forall|more: Seq<u8>|
                    #![trigger old(dctx).after(src@ + more, check)]
                    old(dctx).after(src@ + more, check) is None),
                hdr0 == (old(dctx).awaiting_header() && exists|m: Seq<u8>|
                    #![trigger old(dctx).after(src@ + m, check)]
                    old(dctx).after(src@ + m, check) is Some),
                old(dctx).in_blocks() ==> dctx.in_blocks() || dctx.frame_done,
                st0 ==> (dctx.in_blocks() || dctx.frame_done || dctx.awaiting_header()) && forall|
                    more: Seq<u8>,
                |
                    #![trigger old(dctx).after(src@ + more, check)]
                    dctx.fut(more, check) == old(dctx).after(src@ + more, check),
                fresh0 && check && read_frame(src@, false) is Some && read_frame(src@, true) is None
                    ==> dctx.outcome(false) is Some && dctx.outcome(true) is None && going,
                fresh0 && src@.len() >= 19 && (exists|i: FrameInfo| header_corrupt(src@, i))
                    ==> dctx.inbuf@ == src@
                    && dctx.stage == DStage::Header && !dctx.frame_done && going,
                fresh0 && unknown_magic(src@) ==> dctx.inbuf@ == src@ && dctx.stage == DStage::Header
                    && !dctx.frame_done && going,
            decreases dctx.inbuf@.len() + (if dctx.frame_done {
                0int
            } else {
                1int
            }) + (if going {
                1int
            } else {
                0int
            }),
        {
            let ghost pre = *dctx;
            let ru = decode_unit(dctx, skip);
            proof {
                if st1 {
                    reveal(keeps_future);
                }
                if st0 {
                    if pre.awaiting_header() && ru == Ok::<bool, Lz4FError>(true) && dctx.stage
                        == DStage::Skip {
                        let m = choose|m: Seq<u8>|
                            #![trigger old(dctx).after(src@ + m, check)]
                            old(dctx).after(src@ + m, check) is Some;
                        assert(pre.fut(m, check) is None);
                        assert(false);
                    }
                }
            }
            match ru {
                Ok(true) => {},
                Ok(false) => {
                    going = false;
                },
                Err(e) => {
                    lz4f_reset_decompression_context(dctx);
                    return Err(e);
                },
            }
        }
        proof {
            if st0 && old(dctx).after(src@, check) is None && dctx.frame_done {
                assert(src@ + Seq::<u8>::empty() =~= src@);
                assert(dctx.fut(Seq::<u8>::empty(), check) == old(dctx).after(src@ + Seq::<u8>::empty(), check));
            }
        }
        let left = dctx.inbuf.len();
        if dctx.frame_done {
            consumed = if left < src.len() {
                src.len() - left
            } else {
                0
            };
            dctx.inbuf = Vec::new();
        } else {
            consumed = src.len();
        }
    }
    proof {
        if fresh0 && read_frame(src@, check) is Some {
            lemma_read_frame_len(src@, check);
        }
    }
    let ghost mid = *dctx;
    let ghost mut delivered: Seq<u8> = Seq::empty();
    let mut written: usize = 0;
    match dst {
        Some(d) => {
            let avail = dctx.outbuf.len() - dctx.out_pos;
            let n = if avail < d.len() {
                avail
            } else {
                d.len()
            };
            let olen = dctx.outbuf.len();
            let mut k: usize = 0;
            while k < n
                invariant
                    k <= n <= d@.len(),
                    olen == dctx.outbuf@.len(),
                    dctx.out_pos + n <= dctx.outbuf@.len(),
                    forall|t: int| 0 <= t < k ==> d@[t] == dctx.outbuf@[dctx.out_pos + t],
                decreases n - k,
            {
                d[k] = dctx.outbuf[dctx.out_pos + k];
                k = k + 1;
            }
            assert(d@.subrange(0, n as int) =~= dctx.outbuf@.subrange(dctx.out_pos as int, dctx.out_pos + n));
            dctx.out_pos = dctx.out_pos + n;
            written = n;
            proof {
                delivered = d@.subrange(0, n as int);
            }
        },
        None => {},
    }
    if dctx.out_pos == dctx.outbuf.len() {
        dctx.outbuf = Vec::new();
        dctx.out_pos = 0;
    }
    proof {
        if st0 && old(dctx).after(src@, check) is None && !mid.frame_done {
            assert(mid.pending() =~= delivered + dctx.pending());
            assert forall|more: Seq<u8>| #![trigger old(dctx).after(src@ + more, check)] old(
                dctx,
            ).after(src@ + more, check) == delivered_before(delivered, dctx.after(more, check)) by {
                assert(mid.fut(more, check) == mid.after(more, check));
                match dctx.after(more, check) {
                    Some((c, rest)) => {
                        assert(mid.pending() + c =~= delivered + (dctx.pending() + c));
                    },
                    None => {},
                }
            }
        }
    }
    let hint = if dctx.frame_done && dctx.outbuf.len() == 0 {
        dctx.frame_done = false;
        0
    } else if dctx.outbuf.len() > dctx.out_pos {
        1
    } else {
        next_hint(dctx)
    };
    Ok((consumed, written, hint))
}

/// Reads the frame header at the start of `src` into a context that
/// expects one: returns the frame's parameters, the bytes consumed (the
/// header's length) and a hint for the next input.
pub fn lz4f_get_frame_info(dctx: &mut Lz4FDCtx, src: &[u8]) -> (r: Result<
    (FrameInfo, usize, usize),
    Lz4FError,
>)
    requires
        old(dctx).wf(),
    ensures
        final(dctx).wf(),
        r matches Ok((_info, n, _hint)) ==> n <= src@.len(),
        r matches Ok((i, n, _hint)) ==> (i.frame_type == FrameType::Frame ==> src@.subrange(0, n as int)
            == crate::frame::header::header_bytes(i)),
        forall|i: FrameInfo| old(dctx).fresh() && #[trigger] header_at(src@, i) ==> (r matches Ok((i2, n, _hint)) && i2 == i
            && n == header_len(i)),
{
    if dctx.stage != DStage::Header || dctx.inbuf.len() != 0 || dctx.frame_done {
        return Err(Lz4FError::FrameDecodingAlreadyStarted);
    }
    match parse_header(src) {
        Ok((info, n)) => {
            dctx.info = info;
            dctx.history = Vec::new();
            dctx.content = Vec::new();
            if info.frame_type == FrameType::SkippableFrame {
                dctx.skip_left = info.content_size;
                dctx.stage = DStage::Skip;
            } else {
                dctx.stage = DStage::Block;
            }
            let hint = next_hint(dctx);
            Ok((info, n, hint))
        },
        Err(e) => Err(e),
    }
}

/// Decodes, from the frame data `src` following what `dctx` received
/// before, every unit that has fully arrived, appending the decoded content
/// (and any content not yet delivered) to `out`.  Returns the input consumed
/// (all of `src`, but for what follows the end of a frame) and a hint: 0
/// when the frame is complete (the context then expects a new frame), else
/// a number of input bytes worth providing next.  On a malformed frame it
/// fails and the context is reset.  A frame may arrive in pieces, with the
/// same guarantees as `lz4f_decompress`.
pub fn lz4f_decompress_into(
    dctx: &mut Lz4FDCtx,
    src: &[u8],
    out: &mut Vec<u8>,
    opts: Option<&DecompressOptions>,
) -> (r: Result<(usize, usize), Lz4FError>)
    requires
        old(dctx).wf(),
    ensures
        final(dctx).wf(),
        old(dctx).fresh() && unknown_magic(src@) ==> r == Err::<(usize, usize), Lz4FError>(
            Lz4FError::FrameTypeUnknown,
        ) && final(dctx).fresh(),
        old(dctx).fresh() && src@.len() >= 19 && (exists|i: FrameInfo| header_corrupt(src@, i))
            ==> r is Err && final(dctx).fresh(),
        old(dctx).fresh() && checks_of(opts) && read_frame(src@, false) is Some && read_frame(
            src@,
            true,
        ) is None ==> (r matches Err(e) && checksum_error(e)) && final(dctx).fresh(),
        r matches Ok((consumed, _hint)) ==> consumed <= src@.len(),
        (old(dctx).in_blocks() || old(dctx).awaiting_header()) && r is Err ==> forall|more: Seq<u8>|
            #![trigger old(dctx).after(src@ + more, checks_of(opts))]
            old(dctx).after(src@ + more, checks_of(opts)) is None,
        (old(dctx).in_blocks() || (old(dctx).awaiting_header() && exists|m: Seq<u8>|
            #![trigger old(dctx).after(src@ + m, checks_of(opts))]
            old(dctx).after(src@ + m, checks_of(opts)) is Some)) && old(dctx).after(
            src@,
            checks_of(opts),
        ) is None ==> (r matches Ok((consumed, hint)) ==> {
            &&& consumed == src@.len()
            &&& hint >= 1
            &&& final(dctx).in_blocks() || final(dctx).awaiting_header()
            &&& old(dctx).in_blocks() ==> final(dctx).in_blocks()
            &&& final(out)@.len() >= old(out)@.len()
            &&& final(out)@.subrange(0, old(out)@.len() as int) == old(out)@
            &&& forall|more: Seq<u8>|
                #![trigger old(dctx).after(src@ + more, checks_of(opts))]
                old(dctx).after(src@ + more, checks_of(opts)) == delivered_before(
                    final(out)@.subrange(old(out)@.len() as int, final(out)@.len() as int),
                    final(dctx).after(more, checks_of(opts)),
                )
        }),
        !old(dctx).frame_complete() && old(dctx).after(src@, checks_of(opts)) is Some ==> {
            let a = old(dctx).after(src@, checks_of(opts))->0;
            let consumed = if a.1.len() < src@.len() {
                src@.len() - a.1.len()
            } else {
                0
            };
            &&& r == Ok::<(usize, usize), Lz4FError>((consumed as usize, 0usize))
            &&& final(out)@ == old(out)@ + a.0
            &&& final(dctx).fresh()
        },
        old(dctx).fresh() && read_frame(src@, checks_of(opts)) is Some ==> {
            let rf = read_frame(src@, checks_of(opts))->0;
            &&& r == Ok::<(usize, usize), Lz4FError>((rf.1 as usize, 0usize))
            &&& final(out)@ == old(out)@ + rf.0
            &&& final(dctx).fresh()
        },
{
    let skip = match opts {
        Some(o) => o.skip_checksums,
        None => false,
    };
    let ghost check = checks_of(opts);
    let ghost fresh0 = dctx.fresh();
    let ghost hdr0 = old(dctx).awaiting_header() && exists|m: Seq<u8>|
        #![trigger old(dctx).after(src@ + m, check)]
        old(dctx).after(src@ + m, check) is Some;
    let ghost st0 = old(dctx).in_blocks() || hdr0;
    let ghost st1 = old(dctx).in_blocks() || old(dctx).awaiting_header();
    let mut consumed: usize = 0;
    if !dctx.frame_done {
        crate::frame::compress::append_bytes(&mut dctx.inbuf, src);
        proof {
            if fresh0 {
                assert(dctx.inbuf@ =~= src@);
                assert(dctx.pending() =~= Seq::<u8>::empty());
                if read_frame(src@, check) is Some {
                    let rf = read_frame(src@, check)->0;
                    assert(dctx.pending() + rf.0 =~= rf.0);
                }
            }
        }
        let ghost outcome0 = dctx.outcome(check);
        assert(outcome0 == old(dctx).after(src@, check));
        proof {
            if st1 {
                assert forall|more: Seq<u8>| #![trigger old(dctx).after(src@ + more, check)] dctx.fut(
                    more,
                    check,
                ) == old(dctx).after(src@ + more, check) by {
                    assert(dctx.inbuf@ + more =~= old(dctx).inbuf@ + (src@ + more));
                }
            }
        }
        assert(fresh0 ==> outcome0 == frame_outcome(src@, check));
        let mut going = true;
        while going && !dctx.frame_done
            invariant
                dctx.wf(),
                check == !skip,
                check == checks_of(opts),
                fresh0 == old(dctx).fresh(),
                dctx.frame_done ==> dctx.stage == DStage::Header,
                outcome0 is Some ==> dctx.outcome(check) == outcome0 && going,
                fresh0 ==> outcome0 == frame_outcome(src@, check),
                !old(dctx).frame_done ==> outcome0 == old(dctx).after(src@, check),
                st0 == (old(dctx).in_blocks() || hdr0),
                st1 == (old(dctx).in_blocks() || old(dctx).awaiting_header()),
                st1 ==> ((dctx.in_blocks() || dctx.frame_done || dctx.awaiting_header()) && forall|
                    more: Seq<u8>,
                |
                    #![trigger old(dctx).after(src@ + more, check)]
                    dctx.fut(more, check) == old(dctx).after(src@ + more, check)) || ((dctx.stage
                    == DStage::Skip || dctx.frame_done) && forall|more: Seq<u8>|
                    #![trigger old(dctx).after(src@ + more, check)]
                    old(dctx).after(src@ + more, check) is None),
                hdr0 == (old(dctx).awaiting_header() && exists|m: Seq<u8>|
                    #![trigger old(dctx).after(src@ + m, check)]
                    old(dctx).after(src@ + m, check) is Some),
                old(dctx).in_blocks() ==> dctx.in_blocks() || dctx.frame_done,
                st0 ==> (dctx.in_blocks() || dctx.frame_done || dctx.awaiting_header()) && forall|
                    more: Seq<u8>,
                |
                    #![trigger old(dctx).after(src@ + more, check)]
                    dctx.fut(more, check) == old(dctx).after(src@ + more, check),
                fresh0 && check && read_frame(src@, false) is Some && read_frame(src@, true) is None
                    ==> dctx.outcome(false) is Some && dctx.outcome(true) is None && going,
                fresh0 && src@.len() >= 19 && (exists|i: FrameInfo| header_corrupt(src@, i))
                    ==> dctx.inbuf@ == src@
                    && dctx.stage == DStage::Header && !dctx.frame_done && going,
                fresh0 && unknown_magic(src@) ==> dctx.inbuf@ == src@ && dctx.stage == DStage::Header
                    && !dctx.frame_done && going,
            decreases dctx.inbuf@.len() + (if dctx.frame_done {
                0int
            } else {
                1int
            }) + (if going {
                1int
            } else {
                0int
            }),
        {
            let ghost pre = *dctx;
            let ru = decode_unit(dctx, skip);
            proof {
                if st1 {
                    reveal(keeps_future);
                }
                if st0 {
                    if pre.awaiting_header() && ru == Ok::<bool, Lz4FError>(true) && dctx.stage
                        == DStage::Skip {
                        let m = choose|m: Seq<u8>|
                            #![trigger old(dctx).after(src@ + m, check)]
                            old(dctx).after(src@ + m, check) is Some;
                        assert(pre.fut(m, check) is None);
                        assert(false);
                    }
                }
            }
            match ru {
                Ok(true) => {},
                Ok(false) => {
                    going = false;
                },
                Err(e) => {
                    lz4f_reset_decompression_context(dctx);
                    return Err(e);
                },
            }
        }
        proof {
            if st0 && old(dctx).after(src@, check) is None && dctx.frame_done {
                assert(src@ + Seq::<u8>::empty() =~= src@);
                assert(dctx.fut(Seq::<u8>::empty(), check) == old(dctx).after(src@ + Seq::<u8>::empty(), check));
            }
        }
        let left = dctx.inbuf.len();
        if dctx.frame_done {
            consumed = if left < src.len() {
                src.len() - left
            } else {
                0
            };
            dctx.inbuf = Vec::new();
        } else {
            consumed = src.len();
        }
    }
    let ghost mid = *dctx;
    let pending = crate::block::stream::copy_bytes(dctx.outbuf.as_slice(), dctx.out_pos);
    crate::frame::compress::append_bytes(out, pending.as_slice());
    proof {
        if fresh0 && read_frame(src@, check) is Some {
            let rf = read_frame(src@, check)->0;
            lemma_read_frame_len(src@, check);
            assert(pending@ == rf.0);
        }
    }
    dctx.outbuf = Vec::new();
    dctx.out_pos = 0;
    proof {
        if st0 && old(dctx).after(src@, check) is None && !mid.frame_done {
            let delivered = out@.subrange(old(out)@.len() as int, out@.len() as int);
            assert(delivered =~= mid.pending());
            assert(out@.subrange(0, old(out)@.len() as int) =~= old(out)@);
            assert(dctx.pending() =~= Seq::<u8>::empty());
            assert forall|more: Seq<u8>| #![trigger old(dctx).after(src@ + more, check)] old(
                dctx,
            ).after(src@ + more, check) == delivered_before(delivered, dctx.after(more, check)) by {
                assert(mid.fut(more, check) == mid.after(more, check));
                match dctx.after(more, check) {
                    Some((c, rest)) => {
                        assert(mid.pending() + c =~= delivered + (dctx.pending() + c));
                    },
                    None => {},
                }
            }
        }
    }
    let hint = if dctx.frame_done {
        dctx.frame_done = false;
        0
    } else {
        next_hint(dctx)
    };
    Ok((consumed, hint))
}

} // verus!
