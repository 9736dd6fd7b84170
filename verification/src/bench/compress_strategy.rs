//! Compression strategies measured by the benchmark: one-shot compression,
//! or streaming compression with a preloaded dictionary.

use vstd::prelude::*;
use crate::block::compress::{
    bound_of, compress_fast, decodes_to, one_shot_block, Lz4Error, LZ4_MAX_INPUT_SIZE,
};
use crate::block::decompress::window_tail;
use crate::block::compress::fresh_table;
use crate::block::stream::{kept_offset, reset_clears, stream_block_of, Lz4Stream, HASH_UNIT};

verus! {

/// Lowest compression level that selects the high-compression strategies.
pub const LZ4HC_CLEVEL_MIN: i32 = 2;

/// A way of compressing one block of the benchmark.
pub trait CompressionStrategy {
    /// Compresses `src` into `dst`, which is first grown to the worst-case
    /// size; returns the compressed length.
    fn compress_block(&mut self, src: &[u8], dst: &mut Vec<u8>) -> Result<usize, Lz4Error>;
}

/// Grows `dst` to hold the worst case of `src_len` input bytes.
fn ensure_dst_capacity(src_len: usize, dst: &mut Vec<u8>)
    requires
        src_len <= LZ4_MAX_INPUT_SIZE,
    ensures
        final(dst)@.len() >= bound_of(src_len as int),
        final(dst)@.len() >= old(dst)@.len(),
{
    let bound = src_len + src_len / 255 + 16;
    while dst.len() < bound
        invariant
            bound == bound_of(src_len as int),
            dst@.len() >= old(dst)@.len(),
        decreases bound - dst@.len(),
    {
        dst.push(0);
    }
}

/// Acceleration of a level: negative levels speed up, `1 - c_level`.
pub open spec fn acceleration_spec(c_level: i32) -> int {
    if c_level < 0 {
        1 - c_level
    } else {
        1
    }
}

/// Acceleration of a level: negative levels speed up (`1 - c_level`, which
/// must fit in an `i32`).
pub fn acceleration_of(c_level: i32) -> (a: i32)
    requires
        c_level > i32::MIN + 1,
    ensures
        a == acceleration_spec(c_level),
{
    if c_level < 0 {
        -c_level + 1
    } else {
        1
    }
}

/// One-shot compression without dictionary.
pub struct NoStreamFast {
    pub acceleration: i32,
}

impl NoStreamFast {
    /// The strategy for level `c_level`.
    pub fn new(c_level: i32) -> (s: Self)
        requires
            c_level > i32::MIN + 1,
        ensures
            s.acceleration == acceleration_spec(c_level),
    {
        NoStreamFast { acceleration: acceleration_of(c_level) }
    }

    /// Compresses `src` into `dst` (grown to the worst-case size); the block
    /// decodes to `src`.
    pub fn compress_block(&mut self, src: &[u8], dst: &mut Vec<u8>) -> (r: Result<usize, Lz4Error>)
        ensures
            *final(self) == *old(self),
            src@.len() <= LZ4_MAX_INPUT_SIZE ==> r is Ok,
            (r == Err::<usize, Lz4Error>(Lz4Error::InputTooLarge)) <==> src@.len()
                > LZ4_MAX_INPUT_SIZE,
            r matches Ok(n) ==> n <= final(dst)@.len() && decodes_to(
                final(dst)@.subrange(0, n as int),
                Seq::empty(),
                src@,
            ),
            r matches Ok(n) ==> final(dst)@.subrange(0, n as int) == one_shot_block(
                src@,
                old(self).acceleration,
            ).0,
    {
        if src.len() > LZ4_MAX_INPUT_SIZE as usize {
            return Err(Lz4Error::InputTooLarge);
        }
        ensure_dst_capacity(src.len(), dst);
        compress_fast(src, dst.as_mut_slice(), self.acceleration)
    }
}

impl CompressionStrategy for NoStreamFast {
    fn compress_block(&mut self, src: &[u8], dst: &mut Vec<u8>) -> (r: Result<usize, Lz4Error>)
        ensures
            *final(self) == *old(self),
            src@.len() <= LZ4_MAX_INPUT_SIZE ==> r is Ok,
            (r == Err::<usize, Lz4Error>(Lz4Error::InputTooLarge)) <==> src@.len()
                > LZ4_MAX_INPUT_SIZE,
            r matches Ok(n) ==> n <= final(dst)@.len() && decodes_to(
                final(dst)@.subrange(0, n as int),
                Seq::empty(),
                src@,
            ),
            r matches Ok(n) ==> final(dst)@.subrange(0, n as int) == one_shot_block(
                src@,
                old(self).acceleration,
            ).0,
    {
        NoStreamFast::compress_block(self, src, dst)
    }
}

/// Streaming compression of each block against a preloaded dictionary.
pub struct StreamFast {
    c_level: i32,
    stream: Box<Lz4Stream>,
    dict_stream: Box<Lz4Stream>,
    dict: Vec<u8>,
}

impl StreamFast {
    /// The strategy's state is well formed.
    pub closed spec fn wf(&self) -> bool {
        &&& self.stream.wf()
        &&& self.dict_stream.wf()
        &&& !self.dict_stream.has_dict_ctx()
        &&& (self.dict_stream.dict_size() == 0 || self.dict_stream.dict_size() >= 4)
    }

    /// The strategy's level.
    pub closed spec fn level(&self) -> i32 {
        self.c_level
    }

    /// The dictionary the blocks are compressed against: the last 64 KiB of
    /// the one given, or nothing when it is shorter than 8 bytes.
    pub closed spec fn dictionary(&self) -> Seq<u8> {
        if self.dict@.len() == 0 {
            Seq::empty()
        } else {
            self.dict_stream.history()
        }
    }

    /// The block `compress_block` writes for `src`: the stream is reset
    /// (fast) and given the dictionary stream, then compresses `src` as its
    /// next block.
    pub closed spec fn block_for(&self, src: Seq<u8>) -> Seq<u8> {
        let st = &self.stream;
        let clears = reset_clears(st.table_type(), st.offset());
        let t = if clears {
            fresh_table()
        } else {
            st.table()
        };
        let off0 = if clears {
            0u32
        } else {
            kept_offset(st.offset())
        };
        let has = self.dict@.len() != 0;
        let off = if has && off0 == 0 {
            65536u32
        } else {
            off0
        };
        let ds = &self.dict_stream;
        let att = if has && ds.dict_size() != 0 {
            Some((ds.dictionary(), ds.table(), ds.offset()))
        } else {
            None
        };
        stream_block_of(t, off, Seq::empty(), 0, att, src, acceleration_spec(self.c_level) as i32)
    }

    /// The strategy for level `c_level`, with `dict` loaded into a
    /// dictionary stream (in slow mode).
    pub fn new(c_level: i32, dict: &[u8]) -> (r: Result<Self, Lz4Error>)
        ensures
            r is Ok,
            r matches Ok(s) ==> s.wf() && s.level() == c_level && s.dictionary() == (if dict@.len()
                < HASH_UNIT {
                Seq::<u8>::empty()
            } else {
                window_tail(dict@)
            }),
    {
        let stream = Lz4Stream::new();
        let mut dict_stream = Lz4Stream::new();
        let dict_copy = crate::block::stream::copy_bytes(dict, 0);
        if dict_copy.len() != 0 {
            dict_stream.load_dict_slow(dict_copy.as_slice());
        }
        Ok(StreamFast { c_level, stream, dict_stream, dict: dict_copy })
    }

    /// Compresses `src` into `dst` (grown to the worst-case size) with the
    /// dictionary attached: the block decodes to `src` against the
    /// dictionary.
    #[verifier::rlimit(80)]
    #[verifier::spinoff_prover]
    pub fn compress_block(&mut self, src: &[u8], dst: &mut Vec<u8>) -> (r: Result<usize, Lz4Error>)
        requires
            old(self).wf(),
            old(self).level() > i32::MIN + 1,
        ensures
            final(self).wf(),
            final(self).level() == old(self).level(),
            final(self).dictionary() == old(self).dictionary(),
            src@.len() <= LZ4_MAX_INPUT_SIZE ==> r is Ok,
            (r == Err::<usize, Lz4Error>(Lz4Error::InputTooLarge)) <==> src@.len() > LZ4_MAX_INPUT_SIZE,
            r matches Ok(n) ==> final(dst)@.subrange(0, n as int) == old(self).block_for(src@),
            r matches Ok(n) ==> n <= final(dst)@.len() && decodes_to(
                final(dst)@.subrange(0, n as int),
                old(self).dictionary(),
                src@,
            ),
    {
        if src.len() > LZ4_MAX_INPUT_SIZE as usize {
            return Err(Lz4Error::InputTooLarge);
        }
        ensure_dst_capacity(src.len(), dst);
        let acceleration = acceleration_of(self.c_level);
        self.stream.reset_fast();
        if self.dict.len() == 0 {
            self.stream.attach_dictionary(None);
        } else {
            self.stream.attach_dictionary(Some(&self.dict_stream));
        }
        proof {
            self.dict_stream.lemma_own_history();
            if !self.stream.has_dict_ctx() {
                self.stream.lemma_own_history();
            }
        }
        let written = self.stream.compress_fast_continue(src, dst.as_mut_slice(), acceleration);
        if written == 0 {
            Err(Lz4Error::OutputTooSmall)
        } else {
            Ok(written as usize)
        }
    }
}

/// The strategies this library provides.
pub enum BenchStrategy {
    NoStream(NoStreamFast),
    Stream(StreamFast),
}

impl BenchStrategy {
    /// The strategy's state is well formed.
    pub open spec fn wf(&self) -> bool {
        match self {
            BenchStrategy::NoStream(_) => true,
            BenchStrategy::Stream(s) => s.wf(),
        }
    }

    /// The dictionary the blocks are compressed against (none without one).
    pub open spec fn dictionary(&self) -> Seq<u8> {
        match self {
            BenchStrategy::NoStream(_) => Seq::empty(),
            BenchStrategy::Stream(s) => s.dictionary(),
        }
    }

    /// Compresses `src` into `dst` with the strategy: the block decodes to
    /// `src` against the strategy's dictionary.
    pub fn compress_block(&mut self, src: &[u8], dst: &mut Vec<u8>) -> (r: Result<usize, Lz4Error>)
        requires
            old(self).wf(),
            *old(self) matches BenchStrategy::Stream(s) ==> s.level() > i32::MIN + 1,
        ensures
            final(self).wf(),
            final(self).dictionary() == old(self).dictionary(),
            src@.len() <= LZ4_MAX_INPUT_SIZE ==> r is Ok,
            (r == Err::<usize, Lz4Error>(Lz4Error::InputTooLarge)) <==> src@.len() > LZ4_MAX_INPUT_SIZE,
            r matches Ok(n) ==> n <= final(dst)@.len() && decodes_to(
                final(dst)@.subrange(0, n as int),
                old(self).dictionary(),
                src@,
            ),
            *old(self) matches BenchStrategy::Stream(f) ==> (r matches Ok(n)
                ==> final(dst)@.subrange(0, n as int) == f.block_for(src@)),
            *old(self) matches BenchStrategy::NoStream(f) ==> (r matches Ok(n)
                ==> final(dst)@.subrange(0, n as int) == one_shot_block(src@, f.acceleration).0),
    {
        match self {
            BenchStrategy::NoStream(s) => s.compress_block(src, dst),
            BenchStrategy::Stream(s) => s.compress_block(src, dst),
        }
    }
}

/// The strategy without dictionary for level `c_level`: one-shot fast
/// compression below `LZ4HC_CLEVEL_MIN`; `None` for the high-compression
/// levels, whose compressor this library does not hold.
pub fn build_compression_parameters(c_level: i32, _src_size: usize, _block_size: usize) -> (r:
    Option<BenchStrategy>)
    requires
        c_level > i32::MIN + 1,
    ensures
        (r is Some) <==> c_level < LZ4HC_CLEVEL_MIN,
        r matches Some(s) ==> s.wf() && s is NoStream,
        r matches Some(BenchStrategy::NoStream(f)) ==> f.acceleration == acceleration_spec(c_level),
{
    if c_level < LZ4HC_CLEVEL_MIN {
        Some(BenchStrategy::NoStream(NoStreamFast::new(c_level)))
    } else {
        None
    }
}

/// The strategy with dictionary `dict` for level `c_level`: streaming fast
/// compression below `LZ4HC_CLEVEL_MIN`; `None` for the high-compression
/// levels, whose compressor this library does not hold.
pub fn build_compression_parameters_with_dict(c_level: i32, dict: &[u8]) -> (r: Option<
    BenchStrategy,
>)
    ensures
        (r is Some) <==> c_level < LZ4HC_CLEVEL_MIN,
        r matches Some(BenchStrategy::Stream(f)) ==> f.level() == c_level,
        r matches Some(s) ==> s.wf() && s is Stream && s.dictionary() == (if dict@.len() < HASH_UNIT {
            Seq::<u8>::empty()
        } else {
            window_tail(dict@)
        }),
{
    if c_level < LZ4HC_CLEVEL_MIN {
        match StreamFast::new(c_level, dict) {
            Ok(s) => Some(BenchStrategy::Stream(s)),
            Err(_) => None,
        }
    } else {
        None
    }
}

} // verus!
