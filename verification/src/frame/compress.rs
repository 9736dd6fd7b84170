//! Frame compression: one-shot (`lz4f_compress_frame`) and incremental
//! (`lz4f_compress_begin` / `update` / `end`).
//!
//! The input is cut into blocks of the frame's block size.  Each block is
//! compressed, in linked mode with the content of the blocks before it as
//! dictionary, and stored compressed when that is shorter, as is otherwise.

use vstd::prelude::*;
use crate::block::compress::{compress_fast, decodes_to, one_shot_block, one_shot_fits};
use crate::block::stream::Lz4Stream;
use crate::block::stream::{is_suffix, lemma_stream_step};
use crate::frame::format::{
    block_bytes, block_holds, end_bytes, lemma_block_run_append, lemma_block_run_one,
    read_block_run, read_frame, lemma_blocks_end, lemma_frame_of, read_blocks,
};
use crate::frame::header::{push_le32, write_header, xxh32, header_bytes};
use crate::frame::types::{
    block_size_from_id, block_size_spec, default_frame_info, default_preferences, BlockMode,
    BlockSizeId, FrameInfo, FrameType, Lz4FError, Preferences,
};

verus! {

/// Appends the bytes of `s` to `out`.
pub(crate) fn append_bytes(out: &mut Vec<u8>, s: &[u8])
    ensures
        final(out)@ == old(out)@ + s@,
{
    let mut k: usize = 0;
    while k < s.len()
        invariant
            k <= s@.len(),
            out@ == old(out)@ + s@.subrange(0, k as int),
        decreases s@.len() - k,
    {
        out.push(s[k]);
        k = k + 1;
        proof {
            assert(out@ =~= old(out)@ + s@.subrange(0, k as int));
        }
    }
    proof {
        assert(s@.subrange(0, k as int) =~= s@);
    }
}

/// Appends the block for `chunk`: compressed, in linked mode against the
/// stream's history, when that is shorter than `chunk`, else `chunk` itself.
/// Returns whether it is stored as is.
#[verifier::rlimit(60)]
#[verifier::spinoff_prover]
fn encode_block(
    out: &mut Vec<u8>,
    chunk: &[u8],
    stream: &mut Lz4Stream,
    linked: bool,
    checksum: bool,
    acceleration: i32,
) -> (raw: bool)
    requires
        1 <= chunk@.len() <= 4194304,
        old(stream).wf(),
    ensures
        final(stream).wf(),
        exists|data: Seq<u8>|
            {
                &&& final(out)@ == old(out)@ + #[trigger] block_bytes(data, raw, checksum)
                &&& raw ==> data == chunk@
                &&& !raw ==> 1 <= data.len() < chunk@.len() && decodes_to(
                    data,
                    if linked {
                        old(stream).history()
                    } else {
                        Seq::empty()
                    },
                    chunk@,
                )
            },
        linked ==> final(stream).history() == (if chunk@.len() < 4 {
            Seq::<u8>::empty()
        } else {
            crate::block::decompress::window_tail(chunk@)
        }),
        !linked ==> *final(stream) == *old(stream),
        ({
            let blk = if linked {
                old(stream).stream_block(chunk@, acceleration)
            } else {
                one_shot_block(chunk@, acceleration).0
            };
            let fits = if linked {
                old(stream).stream_fits(chunk@, acceleration, chunk@.len() as int)
            } else {
                one_shot_fits(chunk@, acceleration, chunk@.len() as int)
            };
            &&& raw <==> (!fits || blk.len() >= chunk@.len())
            &&& !raw ==> final(out)@ == old(out)@ + block_bytes(blk, false, checksum)
        }),
{
    let n = chunk.len();
    let mut buf: Vec<u8> = vec![0u8; n];
    let ghost blk = if linked {
        stream.stream_block(chunk@, acceleration)
    } else {
        one_shot_block(chunk@, acceleration).0
    };
    let ghost fits = if linked {
        stream.stream_fits(chunk@, acceleration, chunk@.len() as int)
    } else {
        one_shot_fits(chunk@, acceleration, chunk@.len() as int)
    };
    let written: usize = if linked {
        let r = stream.compress_fast_continue(chunk, buf.as_mut_slice(), acceleration);
        r as usize
    } else {
        match compress_fast(chunk, buf.as_mut_slice(), acceleration) {
            Ok(k) => k,
            Err(_) => 0,
        }
    };
    assert(written > 0 <==> fits);
    assert(written > 0 ==> buf@.subrange(0, written as int) == blk);
    let raw = written == 0 || written >= n;
    let ghost data: Seq<u8>;
    if raw {
        push_le32(out, (n as u32) + 0x8000_0000u32);
        append_bytes(out, chunk);
        proof {
            data = chunk@;
        }
        if checksum {
            let h = xxh32(chunk, 0);
            push_le32(out, h);
        }
    } else {
        let stored = vstd::slice::slice_subrange(buf.as_slice(), 0, written);
        push_le32(out, written as u32);
        append_bytes(out, stored);
        proof {
            data = stored@;
        }
        if checksum {
            let h = xxh32(stored, 0);
            push_le32(out, h);
        }
    }
    proof {
        assert(final(out)@ =~= old(out)@ + block_bytes(data, raw, checksum));
    }
    raw
}

/// `body` is blocks that read to `done`, with the content checksum state,
/// and (in linked mode) a decoder window that `enc_hist` ends.
pub open spec fn run_reads(body: Seq<u8>, info: FrameInfo, done: Seq<u8>, enc_hist: Seq<u8>) -> bool {
    let r = read_block_run(body, info, Seq::empty(), Seq::empty());
    &&& r is Some
    &&& (r->0).0 == done
    &&& (r->0).2 == (if info.content_checksum { done } else { Seq::<u8>::empty() })
    &&& (info.block_mode == BlockMode::Linked ==> is_suffix(enc_hist, (r->0).1))
}

/// The empty run of blocks reads, with an empty history.
proof fn lemma_run_reads_empty(info: FrameInfo)
    ensures
        run_reads(Seq::empty(), info, Seq::empty(), Seq::empty()),
{
    crate::frame::format::lemma_run_empty_pub(info);
    let e = Seq::<u8>::empty();
    assert(e.subrange(0, 0) =~= e);
}

/// Compression context of a frame.
pub struct Lz4FCCtx {
    prefs: Preferences,
    stream: Lz4Stream,
    /// Input not yet written as a block (shorter than the block size).
    pending: Vec<u8>,
    /// The whole content so far, kept when a content checksum is requested.
    content: Vec<u8>,
    block_size: usize,
    started: bool,
    /// The block bytes written since the header.
    body: Ghost<Seq<u8>>,
    /// The content those blocks hold.
    done: Ghost<Seq<u8>>,
}

impl Lz4FCCtx {
    /// The context is well formed.
    pub closed spec fn wf(&self) -> bool {
        &&& self.stream.wf()
        &&& 1 <= self.block_size <= 4194304
        &&& self.pending@.len() < self.block_size
        &&& self.started ==> self.frame_inv()
    }

    /// The frame begun: blocks written that read to the content they hold,
    /// a stream whose history ends the window a decoder of them holds, and
    /// the content kept for the checksum.
    pub closed spec fn frame_inv(&self) -> bool {
        let info = self.prefs.frame_info;
        &&& info.frame_type == FrameType::Frame
        &&& info.block_size_id != BlockSizeId::Default
        &&& self.block_size == block_size_spec(info.block_size_id)
        &&& run_reads(self.body@, info, self.done@, self.stream.history())
        &&& (info.content_checksum ==> self.content@ == self.done@ + self.pending@)
    }

    /// Parameters of the frame begun.
    pub closed spec fn info(&self) -> FrameInfo {
        self.prefs.frame_info
    }

    /// The block bytes written since the frame's header.
    pub closed spec fn body(&self) -> Seq<u8> {
        self.body@
    }

    /// The content given since the frame began.
    pub closed spec fn given(&self) -> Seq<u8> {
        self.done@ + self.pending@
    }

    /// A frame has been begun and not yet ended.
    pub closed spec fn started(&self) -> bool {
        self.started
    }
}

/// Creates a compression context.
pub fn lz4f_create_compression_context(version: u32) -> (r: Result<Box<Lz4FCCtx>, Lz4FError>)
    ensures
        r matches Ok(c) ==> c.wf() && !c.started(),
        r is Ok,
{
    Ok(
        Box::new(
            Lz4FCCtx {
                prefs: default_preferences(),
                stream: *Lz4Stream::new(),
                pending: Vec::new(),
                content: Vec::new(),
                block_size: 65536,
                started: false,
                body: Ghost(Seq::empty()),
                done: Ghost(Seq::empty()),
            },
        ),
    )
}

/// Copies `bytes` to the start of `dst`; fails when they do not fit.
fn deliver(dst: &mut [u8], bytes: &Vec<u8>) -> (r: Result<usize, Lz4FError>)
    ensures
        final(dst)@.len() == old(dst)@.len(),
        match r {
            Ok(n) => n == bytes@.len() && n <= old(dst)@.len() && final(dst)@.subrange(0, n as int)
                == bytes@,
            Err(e) => e == Lz4FError::DstMaxSizeTooSmall && old(dst)@.len() < bytes@.len()
                && final(dst)@ == old(dst)@,
        },
{
    if dst.len() < bytes.len() {
        return Err(Lz4FError::DstMaxSizeTooSmall);
    }
    let mut k: usize = 0;
    while k < bytes.len()
        invariant
            k <= bytes@.len() <= dst@.len(),
            dst@.len() == old(dst)@.len(),
            forall|j: int| 0 <= j < k ==> #[trigger] dst@[j] == bytes@[j],
        decreases bytes@.len() - k,
    {
        dst[k] = bytes[k];
        k = k + 1;
    }
    proof {
        assert(dst@.subrange(0, k as int) =~= bytes@);
    }
    Ok(bytes.len())
}

/// The frame parameters a frame is written with: the given ones, as a
/// plain frame, with 64 KiB blocks for the default block size.
pub open spec fn frame_info_for(info: FrameInfo) -> FrameInfo {
    FrameInfo {
        frame_type: FrameType::Frame,
        block_size_id: if info.block_size_id == BlockSizeId::Default {
            BlockSizeId::Max64Kb
        } else {
            info.block_size_id
        },
        ..info
    }
}

/// `frame_info_for`.
fn normalize_info(info: FrameInfo) -> (r: FrameInfo)
    ensures
        r == frame_info_for(info),
{
    let mut r = info;
    r.frame_type = FrameType::Frame;
    if r.block_size_id == BlockSizeId::Default {
        r.block_size_id = BlockSizeId::Max64Kb;
    }
    r
}

/// Starts a frame with preferences `prefs` (the defaults when `None`):
/// writes its header into `dst` and returns its length.
pub fn lz4f_compress_begin(cctx: &mut Lz4FCCtx, dst: &mut [u8], prefs: Option<&Preferences>) -> (r:
    Result<usize, Lz4FError>)
    requires
        old(cctx).wf(),
    ensures
        final(cctx).wf(),
        final(dst)@.len() == old(dst)@.len(),
        match r {
            Ok(n) => {
                &&& final(cctx).started()
                &&& final(cctx).info() == frame_info_for(
                    match prefs {
                        Some(p) => p.frame_info,
                        None => crate::frame::types::default_frame_info_spec(),
                    },
                )
                &&& n <= old(dst)@.len()
                &&& final(dst)@.subrange(0, n as int) == header_bytes(final(cctx).info())
                &&& final(cctx).body() == Seq::<u8>::empty()
                &&& final(cctx).given() == Seq::<u8>::empty()
            },
            Err(e) => e == Lz4FError::DstMaxSizeTooSmall && old(dst)@.len() < header_bytes(
                frame_info_for(
                    match prefs {
                        Some(p) => p.frame_info,
                        None => crate::frame::types::default_frame_info_spec(),
                    },
                ),
            ).len(),
        },
{
    let mut p = match prefs {
        Some(p) => *p,
        None => default_preferences(),
    };
    p.frame_info = normalize_info(p.frame_info);
    let header = write_header(&p.frame_info);
    let r = deliver(dst, &header);
    if r.is_ok() {
        cctx.prefs = p;
        cctx.stream = *Lz4Stream::new();
        cctx.pending = Vec::new();
        cctx.content = Vec::new();
        cctx.block_size = block_size_from_id(p.frame_info.block_size_id);
        cctx.started = true;
        proof {
            cctx.body = Ghost(Seq::empty());
            cctx.done = Ghost(Seq::empty());
            lemma_run_reads_empty(p.frame_info);
            assert(cctx.given() =~= Seq::<u8>::empty());
            assert(cctx.content@ =~= cctx.done@ + cctx.pending@);
        }
    }
    r
}

/// Acceleration used for a compression level: levels below 0 speed up.
pub fn acceleration_of_level(level: i32) -> (a: i32)
    ensures
        a == (if level < 0 {
            if level < -65536 {
                65537
            } else {
                -level + 1
            }
        } else {
            1
        }),
{
    if level < 0 {
        if level < -65536 {
            65537
        } else {
            -level + 1
        }
    } else {
        1
    }
}

/// The history a stream keeps after `chunk` ends the window a decoder keeps.
proof fn lemma_tail_suffix(h: Seq<u8>, chunk: Seq<u8>)
    ensures
        is_suffix(
            if chunk.len() < 4 { Seq::<u8>::empty() } else { crate::block::decompress::window_tail(chunk) },
            crate::block::decompress::window_tail(h + chunk),
        ),
{
    let all = h + chunk;
    let t = crate::block::decompress::window_tail(all);
    if chunk.len() >= 4 {
        let e = crate::block::decompress::window_tail(chunk);
        assert(t.subrange(t.len() - e.len(), t.len() as int) =~= e);
    } else {
        assert(t.subrange(t.len() - 0, t.len() as int) =~= Seq::<u8>::empty());
    }
}

/// A block the encoder writes extends the blocks written before it.
proof fn lemma_emit_block(
    body: Seq<u8>,
    info: FrameInfo,
    done: Seq<u8>,
    enc_hist: Seq<u8>,
    data: Seq<u8>,
    raw: bool,
    chunk: Seq<u8>,
)
    requires
        block_size_spec(info.block_size_id) <= 4194304,
        run_reads(body, info, done, enc_hist),
        1 <= chunk.len() <= block_size_spec(info.block_size_id),
        raw ==> data == chunk,
        !raw ==> 1 <= data.len() < chunk.len() && decodes_to(
            data,
            if info.block_mode == BlockMode::Linked { enc_hist } else { Seq::empty() },
            chunk,
        ),
    ensures
        run_reads(
            body + block_bytes(data, raw, info.block_checksum),
            info,
            done + chunk,
            if chunk.len() < 4 { Seq::<u8>::empty() } else { crate::block::decompress::window_tail(chunk) },
        ),
{
    let r = read_block_run(body, info, Seq::empty(), Seq::empty())->0;
    let bs = block_size_spec(info.block_size_id) as int;
    if !raw {
        if info.block_mode == BlockMode::Linked {
            lemma_stream_step(data, enc_hist, r.1, chunk, bs);
        } else {
            assert(lz4_decode_of(data, chunk, bs));
        }
    }
    assert(block_holds(data, raw, info, r.1, chunk));
    lemma_block_run_one(data, raw, info, r.1, r.2, chunk);
    lemma_block_run_append(body, block_bytes(data, raw, info.block_checksum), info, Seq::empty(), Seq::empty());
    lemma_tail_suffix(r.1, chunk);
}

/// `data` decodes to `chunk` without dictionary within `cap` bytes.
spec fn lz4_decode_of(data: Seq<u8>, chunk: Seq<u8>, cap: int) -> bool {
    crate::block::spec::lz4_decode(data, Seq::empty(), cap, false) == Some(chunk)
}

/// Writes the blocks of the pending input that fill whole blocks (all of it
/// with `flush`) into `out`.
fn emit_blocks(cctx: &mut Lz4FCCtx, out: &mut Vec<u8>, flush: bool)
    requires
        old(cctx).stream.wf(),
        1 <= old(cctx).block_size <= 4194304,
        old(cctx).started,
        old(cctx).frame_inv(),
    ensures
        final(cctx).wf(),
        final(cctx).started,
        flush ==> final(cctx).pending@.len() == 0,
        final(cctx).prefs == old(cctx).prefs,
        final(cctx).content@ == old(cctx).content@,
        final(cctx).given() == old(cctx).given(),
        final(out)@.len() >= old(out)@.len(),
        final(out)@.subrange(0, old(out)@.len() as int) == old(out)@,
        final(cctx).body() == old(cctx).body() + final(out)@.subrange(old(out)@.len() as int, final(out)@.len() as int),
        final(out)@.len() <= old(out)@.len() + old(cctx).pending@.len() + block_overhead(old(cctx).prefs.frame_info) * ((
        old(cctx).pending@.len() + old(cctx).block_size - 1) / (old(cctx).block_size as int)),
{
    let bs = cctx.block_size;
    let linked = cctx.prefs.frame_info.block_mode == BlockMode::Linked;
    let checksum = cctx.prefs.frame_info.block_checksum;
    let acc = acceleration_of_level(cctx.prefs.compression_level);
    let total = cctx.pending.len();
    let ghost info = cctx.prefs.frame_info;
    let ghost prefs0 = cctx.prefs;
    let ghost content0 = cctx.content@;
    let ghost out0 = out@;
    let ghost body0 = cctx.body@;
    let ghost done0 = cctx.done@;
    let ghost pend = cctx.pending@;
    let ghost mut body = body0;
    let ghost mut k: int = 0;
    let ghost ovh = block_overhead(info);
    let mut pos: usize = 0;
    while pos < total && (flush || total - pos >= bs)
        invariant
            cctx.stream.wf(),
            cctx.block_size == bs,
            bs == block_size_spec(info.block_size_id),
            1 <= bs <= 4194304,
            pos <= total,
            total == cctx.pending@.len(),
            cctx.pending@ == pend,
            cctx.started,
            cctx.prefs == prefs0,
            prefs0.frame_info == info,
            cctx.content@ == content0,
            cctx.body@ == body0,
            cctx.done@ == done0,
            linked == (info.block_mode == BlockMode::Linked),
            checksum == info.block_checksum,
            out@.len() >= out0.len(),
            out@.subrange(0, out0.len() as int) == out0,
            body == body0 + out@.subrange(out0.len() as int, out@.len() as int),
            run_reads(body, info, done0 + pend.subrange(0, pos as int), cctx.stream.history()),
            ovh == block_overhead(info),
            k >= 0,
            out@.len() <= out0.len() + pos + ovh * k,
            k * bs <= pos + bs - 1,
            k * bs == pos || pos == total,
        decreases total - pos,
    {
        let end = if total - pos >= bs {
            pos + bs
        } else {
            total
        };
        let chunk = vstd::slice::slice_subrange(cctx.pending.as_slice(), pos, end);
        let ghost out_before = out@;
        let ghost enc_hist = cctx.stream.history();
        let raw = encode_block(out, chunk, &mut cctx.stream, linked, checksum, acc);
        proof {
            let data = choose|data: Seq<u8>|
                {
                    &&& out@ == out_before + #[trigger] block_bytes(data, raw, checksum)
                    &&& raw ==> data == chunk@
                    &&& !raw ==> 1 <= data.len() < chunk@.len() && decodes_to(
                        data,
                        if linked { enc_hist } else { Seq::empty() },
                        chunk@,
                    )
                };
            lemma_emit_block(body, info, done0 + pend.subrange(0, pos as int), enc_hist, data, raw, chunk@);
            crate::frame::format::lemma_block_bytes_len(data, raw, checksum);
            assert(out@.len() <= out0.len() + end + ovh * (k + 1)) by (nonlinear_arith)
                requires
                    out_before.len() <= out0.len() + pos + ovh * k,
                    out@.len() == out_before.len() + block_bytes(data, raw, checksum).len(),
                    block_bytes(data, raw, checksum).len() <= ovh + (end - pos),
            ;
            assert((k + 1) * bs <= end + bs - 1 && ((k + 1) * bs == end || end == total)) by (nonlinear_arith)
                requires
                    k * bs <= pos + bs - 1,
                    k * bs == pos || pos == total,
                    pos < total,
                    end == pos + bs || (end == total && total - pos < bs),
            ;
            k = k + 1;
            assert(body0 + out@.subrange(out0.len() as int, out@.len() as int) =~= body + block_bytes(data, raw, checksum));
            body = body + block_bytes(data, raw, checksum);
            assert(out@.subrange(0, out0.len() as int) =~= out0);
            assert(done0 + pend.subrange(0, end as int) =~= done0 + pend.subrange(0, pos as int) + chunk@);
            if !linked {
                assert(cctx.stream.history() == enc_hist);
            }
        }
        pos = end;
    }
    proof {
        assert(k <= (total + bs - 1) / (bs as int)) by (nonlinear_arith)
            requires
                k * bs <= total + bs - 1,
                bs >= 1,
                k >= 0,
        ;
        assert(ovh * k <= ovh * ((total + bs - 1) / (bs as int))) by (nonlinear_arith)
            requires
                k <= (total + bs - 1) / (bs as int),
                ovh >= 0,
        ;
    }
    let rest = crate::block::stream::copy_bytes(cctx.pending.as_slice(), pos);
    cctx.pending = rest;
    proof {
        cctx.body = Ghost(body);
        cctx.done = Ghost(done0 + pend.subrange(0, pos as int));
        assert(pend =~= pend.subrange(0, pos as int) + pend.subrange(pos as int, pend.len() as int));
        assert(cctx.given() =~= old(cctx).given());
        if info.content_checksum {
            assert(cctx.content@ =~= cctx.done@ + cctx.pending@);
        }
    }
}

/// Compresses `src` into the frame begun, appending the blocks it
/// completes (and, with auto-flush, a block of what remains) to `out`.
pub(crate) fn compress_update_to(cctx: &mut Lz4FCCtx, out: &mut Vec<u8>, src: &[u8])
    requires
        old(cctx).wf(),
        old(cctx).started(),
    ensures
        final(cctx).wf(),
        final(cctx).started(),
        final(cctx).info() == old(cctx).info(),
        final(cctx).given() == old(cctx).given() + src@,
        final(out)@.len() >= old(out)@.len(),
        final(out)@.subrange(0, old(out)@.len() as int) == old(out)@,
        final(cctx).body() == old(cctx).body() + final(out)@.subrange(old(out)@.len() as int, final(out)@.len() as int),
        final(out)@.len() <= old(out)@.len() + compress_bound_spec(src@.len() as int, old(cctx).info()),
{
    let ghost p0 = cctx.pending@.len() as int;
    let ghost bs = cctx.block_size as int;
    let ghost info = cctx.prefs.frame_info;
    append_bytes(&mut cctx.pending, src);
    if cctx.prefs.frame_info.content_checksum {
        append_bytes(&mut cctx.content, src);
    }
    proof {
        assert(cctx.given() =~= old(cctx).given() + src@);
    }
    let flush = cctx.prefs.auto_flush;
    emit_blocks(cctx, out, flush);
    proof {
        let t = p0 + src@.len();
        let sl = src@.len() as int;
        let ovh = block_overhead(info);
        assert((t + bs - 1) / bs <= (sl + bs - 1) / bs + 1) by (nonlinear_arith)
            requires
                t == p0 + sl,
                0 <= p0 < bs,
                sl >= 0,
        ;
        assert(ovh * ((t + bs - 1) / bs) <= ((sl + bs - 1) / bs + 1) * ovh) by (nonlinear_arith)
            requires
                (t + bs - 1) / bs <= (sl + bs - 1) / bs + 1,
                ovh >= 0,
        ;
    }
}

/// Ends the frame begun, appending the block of the pending input, the end
/// mark and (when requested) the content checksum to `out`.  The blocks
/// written since the header, then these bytes, read to the content given.
pub(crate) fn compress_end_to(cctx: &mut Lz4FCCtx, out: &mut Vec<u8>)
    requires
        old(cctx).wf(),
        old(cctx).started(),
    ensures
        final(cctx).wf(),
        !final(cctx).started(),
        final(out)@.len() >= old(out)@.len(),
        final(out)@.subrange(0, old(out)@.len() as int) == old(out)@,
        ({
            let t = old(cctx).body() + final(out)@.subrange(old(out)@.len() as int, final(out)@.len() as int);
            &&& read_blocks(t, old(cctx).info(), Seq::empty(), Seq::empty(), true) == Some((old(cctx).given(), t.len() as int))
            &&& read_blocks(t, old(cctx).info(), Seq::empty(), Seq::empty(), false) == Some((old(cctx).given(), t.len() as int))
        }),
        final(out)@.len() <= old(out)@.len() + compress_bound_spec(0, old(cctx).info()),
{
    let ghost info = cctx.prefs.frame_info;
    let ghost body0 = cctx.body@;
    let ghost out0 = out@;
    let ghost p0 = cctx.pending@.len() as int;
    let ghost bs = cctx.block_size as int;
    emit_blocks(cctx, out, true);
    proof {
        let ovh = block_overhead(info);
        assert((p0 + bs - 1) / bs <= 1) by (nonlinear_arith)
            requires
                0 <= p0 < bs,
        ;
        assert(ovh * ((p0 + bs - 1) / bs) <= ovh) by (nonlinear_arith)
            requires
                (p0 + bs - 1) / bs <= 1,
                (p0 + bs - 1) / bs >= 0,
                ovh >= 0,
        ;
        assert((bs - 1) / bs == 0) by (nonlinear_arith)
            requires
                bs >= 1,
        ;
    }
    let ghost blocks = out@.subrange(out0.len() as int, out@.len() as int);
    push_le32(out, 0);
    if cctx.prefs.frame_info.content_checksum {
        let h = xxh32(cctx.content.as_slice(), 0);
        push_le32(out, h);
    }
    proof {
        let rr = read_block_run(cctx.body@, info, Seq::empty(), Seq::empty())->0;
        if info.content_checksum {
            assert(cctx.content@ =~= cctx.done@);
        }
        assert(out@.subrange(out0.len() as int, out@.len() as int) =~= blocks + end_bytes(info, rr.2));
        assert(out@.subrange(0, out0.len() as int) =~= out0);
        lemma_blocks_end(cctx.body@, info, true);
        lemma_blocks_end(cctx.body@, info, false);
        assert(body0 + (blocks + end_bytes(info, rr.2)) =~= cctx.body@ + end_bytes(info, rr.2));
        assert(cctx.done@ =~= old(cctx).given()) by {
            assert(cctx.given() =~= cctx.done@);
        }
    }
    cctx.started = false;
    cctx.content = Vec::new();
}

/// Whether `dst_len` bytes hold `compress_bound_spec(src_len, info)`.
fn bound_fits(dst_len: usize, src_len: usize, info: FrameInfo) -> (r: bool)
    ensures
        r == (dst_len >= compress_bound_spec(src_len as int, info)),
{
    let bs = block_size_from_id(info.block_size_id) as u128;
    let crc: u128 = if info.block_checksum {
        4
    } else {
        0
    };
    let cc: u128 = if info.content_checksum {
        4
    } else {
        0
    };
    let src = src_len as u128;
    let nb = (src + bs - 1) / bs + 1;
    assert(nb <= src + 2) by (nonlinear_arith)
        requires
            nb == (src + bs - 1) as int / bs as int + 1,
            bs >= 1,
    ;
    assert(nb * (4 + crc) <= (src + 2) * 8) by (nonlinear_arith)
        requires
            nb <= src + 2,
            crc <= 4,
    ;
    let bound = nb * (4 + crc) + src + bs + 4 + cc;
    (dst_len as u128) >= bound
}

/// Compresses `src` into the frame begun with `lz4f_compress_begin`: writes
/// into `dst` the blocks it completes (and, with auto-flush, a block of what
/// remains), keeping the rest for later.  Returns the bytes written.  Fails,
/// leaving the context as it was, when no frame is begun or when `dst` is
/// shorter than `lz4f_compress_bound` of `src`'s length.
pub fn lz4f_compress_update(cctx: &mut Lz4FCCtx, dst: &mut [u8], src: &[u8]) -> (r: Result<
    usize,
    Lz4FError,
>)
    requires
        old(cctx).wf(),
    ensures
        final(cctx).wf(),
        final(dst)@.len() == old(dst)@.len(),
        !old(cctx).started() ==> r == Err::<usize, Lz4FError>(
            Lz4FError::CompressionStateUninitialized,
        ),
        old(cctx).started() ==> ((r is Ok) <==> old(dst)@.len() >= compress_bound_spec(
            src@.len() as int,
            old(cctx).info(),
        )),
        old(cctx).started() && r is Err ==> r == Err::<usize, Lz4FError>(Lz4FError::DstMaxSizeTooSmall),
        r is Err ==> *final(cctx) == *old(cctx),
        r matches Ok(n) ==> {
            &&& n <= old(dst)@.len()
            &&& final(cctx).started()
            &&& final(cctx).info() == old(cctx).info()
            &&& final(cctx).given() == old(cctx).given() + src@
            &&& final(cctx).body() == old(cctx).body() + final(dst)@.subrange(0, n as int)
        },
{
    if !cctx.started {
        return Err(Lz4FError::CompressionStateUninitialized);
    }
    if !bound_fits(dst.len(), src.len(), cctx.prefs.frame_info) {
        return Err(Lz4FError::DstMaxSizeTooSmall);
    }
    let mut out: Vec<u8> = Vec::new();
    compress_update_to(cctx, &mut out, src);
    proof {
        assert(out@.subrange(0, out@.len() as int) =~= out@);
    }
    deliver(dst, &out)
}

/// Ends the frame: writes the block of the pending input, the end mark and
/// (when requested) the content checksum into `dst`.  Returns the bytes
/// written; the context can then begin another frame.  The blocks written
/// since the header, then these bytes, read to the content given.  Fails,
/// leaving the context as it was, when no frame is begun or when `dst` is
/// shorter than `lz4f_compress_bound(0, ..)`.
pub fn lz4f_compress_end(cctx: &mut Lz4FCCtx, dst: &mut [u8]) -> (r: Result<usize, Lz4FError>)
    requires
        old(cctx).wf(),
    ensures
        final(cctx).wf(),
        final(dst)@.len() == old(dst)@.len(),
        !old(cctx).started() ==> r == Err::<usize, Lz4FError>(
            Lz4FError::CompressionStateUninitialized,
        ),
        old(cctx).started() ==> ((r is Ok) <==> old(dst)@.len() >= compress_bound_spec(0, old(cctx).info())),
        old(cctx).started() && r is Err ==> r == Err::<usize, Lz4FError>(Lz4FError::DstMaxSizeTooSmall),
        r is Err ==> *final(cctx) == *old(cctx),
        r matches Ok(n) ==> {
            let t = old(cctx).body() + final(dst)@.subrange(0, n as int);
            &&& n <= old(dst)@.len()
            &&& !final(cctx).started()
            &&& read_blocks(t, old(cctx).info(), Seq::empty(), Seq::empty(), true) == Some((old(cctx).given(), t.len() as int))
            &&& read_blocks(t, old(cctx).info(), Seq::empty(), Seq::empty(), false) == Some((old(cctx).given(), t.len() as int))
        },
{
    if !cctx.started {
        return Err(Lz4FError::CompressionStateUninitialized);
    }
    if !bound_fits(dst.len(), 0, cctx.prefs.frame_info) {
        return Err(Lz4FError::DstMaxSizeTooSmall);
    }
    let mut out: Vec<u8> = Vec::new();
    compress_end_to(cctx, &mut out);
    proof {
        assert(out@.subrange(0, out@.len() as int) =~= out@);
    }
    deliver(dst, &out)
}

/// The frame parameters given, or the defaults.
pub open spec fn info_or_default(prefs: Option<&Preferences>) -> FrameInfo {
    match prefs {
        Some(p) => p.frame_info,
        None => crate::frame::types::default_frame_info_spec(),
    }
}

/// Bytes of block headers and block checksums for a block, and of the
/// content checksum, in a frame with parameters `info`.
pub open spec fn block_overhead(info: FrameInfo) -> int {
    4 + (if info.block_checksum { 4int } else { 0 })
}

/// The content checksum's size.
pub open spec fn checksum_size(info: FrameInfo) -> int {
    if info.content_checksum { 4 } else { 0 }
}

/// Worst-case size of what `lz4f_compress_update` and `lz4f_compress_end`
/// write for `src_size` more input bytes: the blocks of the input and of at
/// most a block's worth already pending, the end mark and the checksums.
pub open spec fn compress_bound_spec(src_size: int, info: FrameInfo) -> int {
    let bs = block_size_spec(info.block_size_id) as int;
    ((src_size + bs - 1) / bs + 1) * block_overhead(info) + src_size + bs + 4 + checksum_size(info)
}

/// Worst-case size of what `lz4f_compress_update` and `lz4f_compress_end`
/// write for `src_size` more input bytes (see `compress_bound_spec`).
pub fn lz4f_compress_bound(src_size: usize, prefs: Option<&Preferences>) -> (n: usize)
    requires
        src_size <= 0x7E00_0000,
    ensures
        n == compress_bound_spec(src_size as int, info_or_default(prefs)),
{
    let info = match prefs {
        Some(p) => p.frame_info,
        None => default_frame_info(),
    };
    let bs = block_size_from_id(info.block_size_id);
    let crc: usize = if info.block_checksum {
        4
    } else {
        0
    };
    let nb = (src_size + bs - 1) / bs + 1;
    let cc: usize = if info.content_checksum {
        4
    } else {
        0
    };
    assert(nb <= src_size + 2) by (nonlinear_arith)
        requires
            nb == (src_size + bs - 1) as int / bs as int + 1,
            bs >= 1,
    ;
    assert(nb * (4 + crc) <= (src_size + 2) * 8) by (nonlinear_arith)
        requires
            nb <= src_size + 2,
            crc <= 4,
    ;
    nb * (4 + crc) + src_size + bs + 4 + cc
}

/// The block size id chosen for `src_size` bytes: the smallest from 64 KiB
/// up to `requested` whose blocks hold them; `requested` when none does.
pub open spec fn optimal_bsid_spec(requested: BlockSizeId, src_size: int) -> BlockSizeId {
    match requested {
        BlockSizeId::Default | BlockSizeId::Max64Kb => requested,
        BlockSizeId::Max256Kb => if src_size <= 65536 { BlockSizeId::Max64Kb } else { requested },
        BlockSizeId::Max1Mb => if src_size <= 65536 {
            BlockSizeId::Max64Kb
        } else if src_size <= 262144 {
            BlockSizeId::Max256Kb
        } else {
            requested
        },
        BlockSizeId::Max4Mb => if src_size <= 65536 {
            BlockSizeId::Max64Kb
        } else if src_size <= 262144 {
            BlockSizeId::Max256Kb
        } else if src_size <= 1048576 {
            BlockSizeId::Max1Mb
        } else {
            requested
        },
    }
}

/// Smallest block size id, from 64 KiB up to `requested`, whose blocks hold
/// `src_size` bytes; `requested` when none does.
pub fn optimal_bsid(requested: BlockSizeId, src_size: usize) -> (id: BlockSizeId)
    ensures
        id == optimal_bsid_spec(requested, src_size as int),
        block_size_spec(id) <= block_size_spec(requested),
{
    match requested {
        BlockSizeId::Default | BlockSizeId::Max64Kb => requested,
        BlockSizeId::Max256Kb => if src_size <= 65536 {
            BlockSizeId::Max64Kb
        } else {
            requested
        },
        BlockSizeId::Max1Mb => if src_size <= 65536 {
            BlockSizeId::Max64Kb
        } else if src_size <= 262144 {
            BlockSizeId::Max256Kb
        } else {
            requested
        },
        BlockSizeId::Max4Mb => if src_size <= 65536 {
            BlockSizeId::Max64Kb
        } else if src_size <= 262144 {
            BlockSizeId::Max256Kb
        } else if src_size <= 1048576 {
            BlockSizeId::Max1Mb
        } else {
            requested
        },
    }
}

/// The preferences given, or the defaults.
pub open spec fn prefs_or_default(prefs: Option<&Preferences>) -> Preferences {
    match prefs {
        Some(p) => *p,
        None => Preferences {
            frame_info: crate::frame::types::default_frame_info_spec(),
            compression_level: 0,
            auto_flush: false,
            favor_dec_speed: false,
        },
    }
}

/// Preferences of a one-shot frame of `src_size` bytes: the given ones
/// with the content size recorded when requested, the smallest fitting
/// block size, independent blocks when one block holds it all, auto-flush,
/// as a plain frame.
pub open spec fn frame_prefs_spec(src_size: int, prefs: Preferences) -> Preferences {
    let bsid = optimal_bsid_spec(prefs.frame_info.block_size_id, src_size);
    let info = FrameInfo {
        content_size: if prefs.frame_info.content_size != 0 { src_size as u64 } else { 0 },
        block_size_id: bsid,
        block_mode: if src_size <= block_size_spec(bsid) { BlockMode::Independent } else { prefs.frame_info.block_mode },
        ..prefs.frame_info
    };
    Preferences { frame_info: frame_info_for(info), auto_flush: true, ..prefs }
}

/// Preferences of a one-shot frame (see `frame_prefs_spec`).
pub fn frame_prefs(src_size: usize, prefs: Option<&Preferences>) -> (p: Preferences)
    ensures
        p == frame_prefs_spec(src_size as int, prefs_or_default(prefs)),
        p.frame_info.frame_type == FrameType::Frame,
        p.frame_info.block_size_id != BlockSizeId::Default,
{
    let mut p = match prefs {
        Some(p) => *p,
        None => default_preferences(),
    };
    if p.frame_info.content_size != 0 {
        p.frame_info.content_size = src_size as u64;
    }
    p.frame_info.block_size_id = optimal_bsid(p.frame_info.block_size_id, src_size);
    p.auto_flush = true;
    if src_size <= block_size_from_id(p.frame_info.block_size_id) {
        p.frame_info.block_mode = BlockMode::Independent;
    }
    p.frame_info = normalize_info(p.frame_info);
    p
}

/// Size of the one-shot frame of `src_size` bytes with preferences `p` at
/// worst: the longest header, each block stored as is, the end mark and the
/// checksums.
pub open spec fn frame_bound_spec(src_size: int, p: Preferences) -> int {
    let bs = block_size_spec(p.frame_info.block_size_id) as int;
    19 + ((src_size + bs - 1) / bs) * block_overhead(p.frame_info) + src_size + 4 + checksum_size(p.frame_info)
}

/// Size of the one-shot frame of `src_size` bytes at worst (see
/// `frame_bound_spec`): `lz4f_compress_frame` succeeds with a buffer of
/// that size.
pub fn lz4f_compress_frame_bound(src_size: usize, prefs: Option<&Preferences>) -> (n: usize)
    requires
        src_size <= 0x7E00_0000,
    ensures
        n == frame_bound_spec(src_size as int, frame_prefs_spec(src_size as int, prefs_or_default(prefs))),
{
    let p = frame_prefs(src_size, prefs);
    let bs = block_size_from_id(p.frame_info.block_size_id);
    let crc: usize = if p.frame_info.block_checksum {
        4
    } else {
        0
    };
    let cc: usize = if p.frame_info.content_checksum {
        4
    } else {
        0
    };
    let nb = (src_size + bs - 1) / bs;
    assert(nb <= src_size + 1) by (nonlinear_arith)
        requires
            nb == (src_size + bs - 1) as int / bs as int,
            bs >= 1,
    ;
    assert(nb * (4 + crc) <= (src_size + 1) * 8) by (nonlinear_arith)
        requires
            nb <= src_size + 1,
            crc <= 4,
    ;
    19 + nb * (4 + crc) + src_size + 4 + cc
}

/// Compresses `src` as one complete frame into `dst`; returns its length.
/// The frame written reads back to `src`.  Fails with `DstMaxSizeTooSmall`
/// when it does not fit, leaving `dst` unchanged.
pub fn lz4f_compress_frame(dst: &mut [u8], src: &[u8], prefs: Option<&Preferences>) -> (r: Result<
    usize,
    Lz4FError,
>)
    ensures
        final(dst)@.len() == old(dst)@.len(),
        match r {
            Ok(n) => {
                &&& n <= old(dst)@.len()
                &&& header_bytes(
                    frame_prefs_spec(src@.len() as int, prefs_or_default(prefs)).frame_info,
                ).is_prefix_of(final(dst)@.subrange(0, n as int))
                &&& read_frame(final(dst)@.subrange(0, n as int), true) == Some((src@, n as int))
                &&& read_frame(final(dst)@.subrange(0, n as int), false) == Some((src@, n as int))
                &&& prefs_or_default(prefs).frame_info.content_size != 0 && src@.len() > 0 ==> {
                    let frame = final(dst)@.subrange(0, n as int);
                    &&& (frame[4] / 8) % 2 == 1
                    &&& frame.subrange(6, 14) == crate::frame::header::le8(src@.len() as nat)
                }
                &&& prefs_or_default(prefs).frame_info.content_size == 0 || src@.len() == 0 ==> (
                final(dst)@.subrange(0, n as int)[4] / 8) % 2 == 0
            },
            Err(e) => e == Lz4FError::DstMaxSizeTooSmall && final(dst)@ == old(dst)@,
        },
        old(dst)@.len() >= frame_bound_spec(src@.len() as int, frame_prefs_spec(src@.len() as int, prefs_or_default(prefs)))
            ==> r is Ok,
{
    let p = frame_prefs(src.len(), prefs);
    let mut cctx = Lz4FCCtx {
        prefs: p,
        stream: *Lz4Stream::new(),
        pending: Vec::new(),
        content: Vec::new(),
        block_size: block_size_from_id(p.frame_info.block_size_id),
        started: true,
        body: Ghost(Seq::empty()),
        done: Ghost(Seq::empty()),
    };
    let mut out = write_header(&p.frame_info);
    append_bytes(&mut cctx.pending, src);
    if p.frame_info.content_checksum {
        append_bytes(&mut cctx.content, src);
    }
    proof {
        lemma_run_reads_empty(p.frame_info);
        assert(cctx.pending@ =~= src@);
        if p.frame_info.content_checksum {
            assert(cctx.content@ =~= cctx.done@ + cctx.pending@);
        }
    }
    let ghost hdr = out@;
    let ghost bs = cctx.block_size;
    assert(cctx.pending@.len() == src@.len());
    emit_blocks(&mut cctx, &mut out, true);
    let ghost blocks = out@.subrange(hdr.len() as int, out@.len() as int);
    assert(blocks.len() <= src@.len() + block_overhead(p.frame_info) * ((src@.len() + bs - 1) / (bs as int)));
    assert(bs == block_size_spec(p.frame_info.block_size_id));
    push_le32(&mut out, 0);
    if p.frame_info.content_checksum {
        let h = xxh32(src, 0);
        push_le32(&mut out, h);
    }
    proof {
        let info = p.frame_info;
        assert(cctx.body@ =~= blocks);
        let rr = read_block_run(blocks, info, Seq::empty(), Seq::empty())->0;
        assert(cctx.done@ =~= src@) by {
            assert(cctx.given() =~= cctx.done@);
            assert(Seq::<u8>::empty() + src@ =~= src@);
        }
        assert(out@ =~= hdr + (blocks + end_bytes(info, rr.2)));
        lemma_blocks_end(blocks, info, true);
        lemma_blocks_end(blocks, info, false);
        lemma_frame_of(info, blocks + end_bytes(info, rr.2), true);
        lemma_frame_of(info, blocks + end_bytes(info, rr.2), false);
        crate::frame::format::lemma_header_round_trip(info, Seq::empty());
        assert(hdr.len() <= 19);
        let nb = (src@.len() + bs - 1) / (bs as int);
        assert(block_overhead(p.frame_info) * nb == nb * block_overhead(p.frame_info)) by (nonlinear_arith);
        assert(end_bytes(info, rr.2).len() == 4 + checksum_size(info));
        assert(out@.len() <= frame_bound_spec(src@.len() as int, p));
        assert(out@.subrange(0, hdr.len() as int) =~= hdr);
    }
    let r = deliver(dst, &out);
    proof {
        if let Ok(n) = r {
            crate::frame::laws::law_written_frame_records_size(
                dst@.subrange(0, n as int),
                src@.len() as int,
                prefs_or_default(prefs),
            );
        }
    }
    r
}

} // verus!
