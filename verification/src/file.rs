//! Frame writing and reading over in-memory byte buffers: a writer that
//! compresses what it is given into a frame appended to its sink, and a
//! reader that decompresses a frame held in memory.

use vstd::prelude::*;
use crate::frame::compress::{
    append_bytes, compress_end_to, compress_update_to, lz4f_compress_begin, Lz4FCCtx,
    lz4f_create_compression_context,
};
use crate::frame::decompress::{
    checksum_error, lz4f_create_decompression_context, lz4f_decompress_into,
};
use crate::frame::format::{header_at, header_corrupt, lemma_frame_of, lemma_header_fields, read_frame};
use crate::frame::header::{header_bytes, unknown_magic};
use crate::frame::types::{block_size_from_id, FrameInfo, Lz4FError, Preferences, LZ4F_VERSION};

verus! {

/// Frame writer: compresses what it is given into a frame appended to its
/// sink.
pub struct Lz4WriteFile {
    cctx: Box<Lz4FCCtx>,
    sink: Vec<u8>,
    max_write_size: usize,
    /// What the sink held before the frame.
    prefix: Ghost<Seq<u8>>,
}

impl Lz4WriteFile {
    /// The writer is well formed: its sink holds what it held, the frame's
    /// header, and the blocks written so far.
    pub closed spec fn wf(&self) -> bool {
        &&& self.cctx.wf()
        &&& self.cctx.started()
        &&& 1 <= self.max_write_size <= 4194304
        &&& self.sink@ == self.prefix@ + header_bytes(self.cctx.info()) + self.cctx.body()
        &&& self.cctx.info().frame_type == crate::frame::types::FrameType::Frame
        &&& self.cctx.info().block_size_id != crate::frame::types::BlockSizeId::Default
    }

    /// What the sink held before the frame.
    pub closed spec fn prefix(&self) -> Seq<u8> {
        self.prefix@
    }

    /// The content written into the frame so far.
    pub closed spec fn written(&self) -> Seq<u8> {
        self.cctx.given()
    }

    /// The parameters of the frame being written (as its header records them).
    pub closed spec fn info(&self) -> FrameInfo {
        self.cctx.info()
    }

    /// Opens a frame writer over `writer`, writing the frame header to it
    /// (the preferences are the defaults when `None`).
    pub fn open(writer: Vec<u8>, prefs: Option<&Preferences>) -> (r: Result<Self, Lz4FError>)
        ensures
            r is Ok,
            r matches Ok(w) ==> w.wf() && w.prefix() == writer@ && w.written() == Seq::<u8>::empty(),
            r matches Ok(w) ==> w.info() == crate::frame::compress::frame_info_for(
                match prefs {
                    Some(p) => p.frame_info,
                    None => crate::frame::types::default_frame_info_spec(),
                },
            ),
    {
        let max_write_size = match prefs {
            Some(p) => block_size_from_id(p.frame_info.block_size_id),
            None => 65536,
        };
        let mut header_buf: Vec<u8> = vec![0u8; 19];
        let mut cctx = match lz4f_create_compression_context(LZ4F_VERSION) {
            Ok(c) => c,
            Err(e) => {
                return Err(e);
            },
        };
        let ghost info = crate::frame::compress::frame_info_for(
            match prefs {
                Some(p) => p.frame_info,
                None => crate::frame::types::default_frame_info_spec(),
            },
        );
        proof {
            let h = header_bytes(info);
            assert(header_at(h, info)) by {
                assert(h.subrange(0, h.len() as int) =~= h);
            }
            lemma_header_fields(h, info);
        }
        let n = match lz4f_compress_begin(&mut cctx, header_buf.as_mut_slice(), prefs) {
            Ok(n) => n,
            Err(e) => {
                return Err(e);
            },
        };
        let mut sink = writer;
        append_bytes(&mut sink, vstd::slice::slice_subrange(header_buf.as_slice(), 0, n));
        proof {
            assert(sink@ =~= writer@ + header_bytes(cctx.info()) + cctx.body());
        }
        Ok(Lz4WriteFile { cctx, sink, max_write_size, prefix: Ghost(writer@) })
    }

    /// Compresses `buf` into the frame, in pieces of at most a block, and
    /// appends the output to the sink.  Returns `buf.len()`.
    pub fn write(&mut self, buf: &[u8]) -> (r: Result<usize, Lz4FError>)
        requires
            old(self).wf(),
        ensures
            final(self).wf(),
            r == Ok::<usize, Lz4FError>(buf@.len() as usize),
            final(self).prefix() == old(self).prefix(),
            final(self).info() == old(self).info(),
            final(self).written() == old(self).written() + buf@,
    {
        let mut p: usize = 0;
        while p < buf.len()
            invariant
                self.wf(),
                p <= buf@.len(),
                self.prefix() == old(self).prefix(),
                self.info() == old(self).info(),
                self.written() == old(self).written() + buf@.subrange(0, p as int),
            decreases buf@.len() - p,
        {
            let remain = buf.len() - p;
            let chunk = if remain < self.max_write_size {
                remain
            } else {
                self.max_write_size
            };
            let piece = vstd::slice::slice_subrange(buf, p, p + chunk);
            let ghost sink0 = self.sink@;
            let ghost body0 = self.cctx.body();
            let ghost written0 = self.written();
            compress_update_to(&mut self.cctx, &mut self.sink, piece);
            proof {
                let added = self.sink@.subrange(sink0.len() as int, self.sink@.len() as int);
                assert(self.sink@ =~= sink0 + added);
                assert(self.sink@ =~= self.prefix@ + header_bytes(self.cctx.info()) + self.cctx.body());
                assert(buf@.subrange(0, p + chunk) =~= buf@.subrange(0, p as int) + piece@);
            }
            p = p + chunk;
        }
        proof {
            assert(buf@.subrange(0, p as int) =~= buf@);
        }
        Ok(buf.len())
    }

    /// Compresses all of `buf` into the frame.
    pub fn write_all(&mut self, buf: &[u8]) -> (r: Result<(), Lz4FError>)
        requires
            old(self).wf(),
        ensures
            final(self).wf(),
            r is Ok,
            final(self).prefix() == old(self).prefix(),
            final(self).info() == old(self).info(),
            final(self).written() == old(self).written() + buf@,
    {
        match self.write(buf) {
            Ok(_) => Ok(()),
            Err(e) => Err(e),
        }
    }

    /// Ends the frame and returns the sink: what it held, then a frame that
    /// reads back to the content written.
    pub fn finish(self) -> (r: Result<Vec<u8>, Lz4FError>)
        requires
            self.wf(),
        ensures
            r is Ok,
            r matches Ok(v) ==> {
                let p = self.prefix();
                let f = v@.subrange(p.len() as int, v@.len() as int);
                &&& p.len() <= v@.len()
                &&& v@.subrange(0, p.len() as int) == p
                &&& header_bytes(self.info()).is_prefix_of(f)
                &&& read_frame(f, true) == Some((self.written(), f.len() as int))
                &&& read_frame(f, false) == Some((self.written(), f.len() as int))
            },
    {
        let mut me = self;
        let ghost info = me.cctx.info();
        let ghost body0 = me.cctx.body();
        let ghost given0 = me.cctx.given();
        let ghost sink0 = me.sink@;
        let ghost p = me.prefix@;
        compress_end_to(&mut me.cctx, &mut me.sink);
        proof {
            let added = me.sink@.subrange(sink0.len() as int, me.sink@.len() as int);
            assert(me.sink@ =~= sink0 + added);
            let rest = body0 + added;
            lemma_frame_of(info, rest, true);
            lemma_frame_of(info, rest, false);
            assert(me.sink@ =~= p + (header_bytes(info) + rest));
            assert(me.sink@.subrange(p.len() as int, me.sink@.len() as int) =~= header_bytes(info) + rest);
            assert(me.sink@.subrange(0, p.len() as int) =~= p);
            let f = me.sink@.subrange(p.len() as int, me.sink@.len() as int);
            assert(f.subrange(0, header_bytes(info).len() as int) =~= header_bytes(info));
        }
        Ok(me.sink)
    }
}

/// Frame reader: decompresses a frame held in memory.
pub struct Lz4ReadFile {
    content: Vec<u8>,
    pos: usize,
}

impl Lz4ReadFile {
    /// The reader is well formed.
    pub closed spec fn wf(&self) -> bool {
        self.pos <= self.content@.len()
    }

    /// The content not yet read.
    pub closed spec fn remaining(&self) -> Seq<u8> {
        self.content@.subrange(self.pos as int, self.content@.len() as int)
    }

    /// Opens a frame reader over `data`: the frame is decoded at once (up
    /// to where `data` ends, when it ends early).  Fails with `IoRead` when
    /// `data` is empty, and with the frame's error when it is malformed.
    /// When `data` starts with a complete frame, the reader holds its
    /// content.
    pub fn open(data: &[u8]) -> (r: Result<Self, Lz4FError>)
        ensures
            r matches Ok(f) ==> f.wf(),
            data@.len() == 0 ==> r matches Err(Lz4FError::IoRead),
            unknown_magic(data@) ==> r matches Err(Lz4FError::FrameTypeUnknown),
            data@.len() >= 19 && (exists|i: FrameInfo| header_corrupt(data@, i)) ==> r is Err,
            read_frame(data@, false) is Some && read_frame(data@, true) is None ==> (r matches Err(e)
                && checksum_error(e)),
            read_frame(data@, true) is Some ==> (r matches Ok(f) && f.remaining() == (read_frame(
                data@,
                true,
            )->0).0),
    {
        proof {
            if read_frame(data@, true) is Some {
                crate::frame::format::lemma_read_frame_len(data@, true);
            }
            if read_frame(data@, false) is Some {
                crate::frame::format::lemma_read_frame_len(data@, false);
            }
        }
        if data.len() == 0 {
            return Err(Lz4FError::IoRead);
        }
        let mut dctx = match lz4f_create_decompression_context(LZ4F_VERSION) {
            Ok(d) => d,
            Err(e) => {
                return Err(e);
            },
        };
        let mut content: Vec<u8> = Vec::new();
        match lz4f_decompress_into(&mut dctx, data, &mut content, None) {
            Ok(_) => {},
            Err(e) => {
                return Err(e);
            },
        }
        proof {
            if read_frame(data@, true) is Some {
                assert(Seq::<u8>::empty() + (read_frame(data@, true)->0).0 =~= (read_frame(data@, true)->0).0);
            }
        }
        Ok(Lz4ReadFile { content, pos: 0 })
    }

    /// Copies the next decompressed bytes into `buf`; returns how many, 0 at
    /// the end of the frame.
    pub fn read(&mut self, buf: &mut [u8]) -> (r: Result<usize, Lz4FError>)
        requires
            old(self).wf(),
        ensures
            final(self).wf(),
            final(buf)@.len() == old(buf)@.len(),
            r matches Ok(n) ==> {
                &&& n == (if old(self).remaining().len() < old(buf)@.len() {
                    old(self).remaining().len()
                } else {
                    old(buf)@.len() as nat
                })
                &&& final(buf)@.subrange(0, n as int) == old(self).remaining().subrange(0, n as int)
                &&& final(self).remaining() == old(self).remaining().subrange(n as int, old(self).remaining().len() as int)
            },
            r is Ok,
    {
        let avail = self.content.len() - self.pos;
        let n = if avail < buf.len() {
            avail
        } else {
            buf.len()
        };
        let clen = self.content.len();
        let mut k: usize = 0;
        while k < n
            invariant
                k <= n <= buf@.len(),
                buf@.len() == old(buf)@.len(),
                clen == self.content@.len(),
                self.pos + n <= self.content@.len(),
                self.content@ == old(self).content@,
                self.pos == old(self).pos,
                forall|j: int| 0 <= j < k ==> buf@[j] == self.content@[self.pos + j],
            decreases n - k,
        {
            buf[k] = self.content[self.pos + k];
            k = k + 1;
        }
        proof {
            assert(buf@.subrange(0, n as int) =~= old(self).remaining().subrange(0, n as int));
        }
        self.pos = self.pos + n;
        proof {
            assert(self.remaining() =~= old(self).remaining().subrange(n as int, old(self).remaining().len() as int));
        }
        Ok(n)
    }

    /// Appends the rest of the decompressed content to `out`; returns how
    /// many bytes.
    pub fn read_to_end(&mut self, out: &mut Vec<u8>) -> (r: Result<usize, Lz4FError>)
        requires
            old(self).wf(),
        ensures
            final(self).wf(),
            final(out)@ == old(out)@ + old(self).remaining(),
            final(self).remaining() == Seq::<u8>::empty(),
            r == Ok::<usize, Lz4FError>(old(self).remaining().len() as usize),
    {
        let rest = crate::block::stream::copy_bytes(self.content.as_slice(), self.pos);
        append_bytes(out, rest.as_slice());
        self.pos = self.content.len();
        proof {
            assert(self.remaining() =~= Seq::<u8>::empty());
        }
        Ok(rest.len())
    }
}

/// Compresses `data` as one frame appended to `writer`, and returns it:
/// what `writer` held, then a frame that reads back to `data`.
pub fn lz4_write_frame(data: &[u8], writer: Vec<u8>) -> (r: Result<Vec<u8>, Lz4FError>)
    ensures
        r is Ok,
        r matches Ok(v) ==> {
            let f = v@.subrange(writer@.len() as int, v@.len() as int);
            &&& writer@.len() <= v@.len()
            &&& v@.subrange(0, writer@.len() as int) == writer@
            &&& read_frame(f, true) == Some((data@, f.len() as int))
            &&& read_frame(f, false) == Some((data@, f.len() as int))
        },
{
    let ghost w0 = writer@;
    let mut w = match Lz4WriteFile::open(writer, None) {
        Ok(w) => w,
        Err(e) => {
            return Err(e);
        },
    };
    match w.write_all(data) {
        Ok(()) => {},
        Err(e) => {
            return Err(e);
        },
    }
    proof {
        assert(Seq::<u8>::empty() + data@ =~= data@);
    }
    w.finish()
}

/// Decompresses the frame held in `reader`, appending its content to
/// `writer`.  When `reader` starts with a complete frame, its content is
/// what is appended.
pub fn lz4_read_frame(reader: &[u8], writer: &mut Vec<u8>) -> (r: Result<(), Lz4FError>)
    ensures
        read_frame(reader@, true) is Some ==> r is Ok && final(writer)@ == old(writer)@ + (read_frame(
            reader@,
            true,
        )->0).0,
        reader@.len() == 0 ==> r == Err::<(), Lz4FError>(Lz4FError::IoRead),
        unknown_magic(reader@) ==> r == Err::<(), Lz4FError>(Lz4FError::FrameTypeUnknown),
        reader@.len() >= 19 && (exists|i: FrameInfo| header_corrupt(reader@, i)) ==> r is Err,
        read_frame(reader@, false) is Some && read_frame(reader@, true) is None ==> (r matches Err(e)
            && checksum_error(e)),
{
    let mut r = match Lz4ReadFile::open(reader) {
        Ok(r) => r,
        Err(e) => {
            return Err(e);
        },
    };
    match r.read_to_end(writer) {
        Ok(_) => {},
        Err(e) => {
            return Err(e);
        },
    }
    Ok(())
}

} // verus!
