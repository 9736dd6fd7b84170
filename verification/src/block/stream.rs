//! Streaming block compression: each block may refer back to the content of
//! the blocks compressed before it (up to 64 KiB back), or to a dictionary.
//!
//! The stream keeps its own copy of that preceding content, so the blocks
//! it compresses never depend on the caller's buffers staying in place.

use vstd::prelude::*;
use crate::block::compress::{
    bound_of, compress_generic, ctx_parts, decodes_to, dict_block, dict_fits, fresh_table,
    kept_from, preceding, LZ4_MAX_INPUT_SIZE,
};
use crate::block::decompress::window_tail;
use crate::block::lemmas::lemma_decode_longer_dict;
use crate::block::spec::lz4_decode;
use crate::block::types::{
    hash_position, prepare_table, spec_hash_position, table_type_of, DictDirective,
    LimitedOutputDirective, StreamStateInternal, TableType, GB, HASH_SLOTS, KB,
};

verus! {

/// Bytes read at each position hashed while loading a dictionary.
pub const HASH_UNIT: usize = 8;

/// The table `t` with every third position of `d` from `p` on (while 8
/// bytes remain) indexed, position `q` by `base + q`.
pub open spec fn indexed_every_third(t: Seq<u32>, d: Seq<u8>, base: u32, p: int) -> Seq<u32>
    decreases d.len() - p,
{
    if p + HASH_UNIT <= d.len() {
        indexed_every_third(
            t.update(spec_hash_position(d, p, TableType::ByU32) as int, (base + p) as u32),
            d,
            base,
            p + 3,
        )
    } else {
        t
    }
}

/// The table `t` with each position of `d` from `q` on (while 8 bytes
/// remain) indexed by `base + q` where its slot still holds 0.
pub open spec fn filled_empty(t: Seq<u32>, d: Seq<u8>, base: u32, q: int) -> Seq<u32>
    decreases d.len() - q,
{
    if q + HASH_UNIT <= d.len() {
        let h = spec_hash_position(d, q, TableType::ByU32) as int;
        filled_empty(
            if t[h] == 0 {
                t.update(h, (base + q) as u32)
            } else {
                t
            },
            d,
            base,
            q + 1,
        )
    } else {
        t
    }
}

/// The table a stream holds after loading the dictionary `d` (in slow mode
/// when `slow`): its last 64 KiB indexed as if they ended at index 64 KiB.
pub open spec fn dict_table(d: Seq<u8>, slow: bool) -> Seq<u32> {
    if d.len() < HASH_UNIT {
        fresh_table()
    } else {
        let k = window_tail(d);
        let base = (65536 - k.len()) as u32;
        let t = indexed_every_third(fresh_table(), k, base, 0);
        if slow {
            filled_empty(t, k, base, 0)
        } else {
            t
        }
    }
}

/// A table rebased by `delta`: entries below it are dropped (0), the others
/// move down by it.
pub open spec fn rebased(t: Seq<u32>, delta: u32) -> Seq<u32> {
    Seq::new(t.len(), |i: int| if t[i] < delta { 0u32 } else { (t[i] - delta) as u32 })
}

/// How far a rebase moves the entries of a table at offset `off`: down to
/// 64 KiB, wrapping below it.
pub open spec fn rebase_delta(off: u32) -> u32 {
    if off >= 65536 {
        (off - 65536) as u32
    } else {
        (off + 0x1_0000_0000 - 65536) as u32
    }
}

/// A stream's table at offset `off` after making room for a next block of
/// `n` bytes.
pub open spec fn renormed_table(t: Seq<u32>, off: u32, n: int) -> Seq<u32> {
    if off + n > 0x8000_0000 {
        rebased(t, rebase_delta(off))
    } else {
        t
    }
}

/// A stream's offset after making room for a next block of `n` bytes.
pub open spec fn renormed_offset(off: u32, n: int) -> u32 {
    if off + n > 0x8000_0000 {
        65536
    } else {
        off
    }
}

/// The block a stream with table `t`, offset `off`, history `d` (counted as
/// `ds` bytes) and attached state `att` writes for `src` (when it fits):
/// after making room in the table, the input follows the stream's own
/// history, or the attached state's content; a large block whose offsets
/// fit is compressed from a copy of the attached state instead.
#[verifier::opaque]
pub open spec fn stream_block_of(
    t: Seq<u32>,
    off: u32,
    d: Seq<u8>,
    ds: u32,
    att: Option<(Seq<u8>, Seq<u32>, u32)>,
    src: Seq<u8>,
    acceleration: i32,
) -> Seq<u8> {
    let n = src.len() as int;
    let t2 = renormed_table(t, off, n);
    let si = renormed_offset(off, n);
    let ds2 = if off + n > 0x8000_0000 && ds > 65536 {
        65536
    } else {
        ds
    };
    match att {
        Some((cd, ct, co)) => if n > 4096 && co + n <= 0xFFFF_FFFF {
            dict_block(ct, co, cd, None, src, TableType::ByU32, DictDirective::UsingExtDict, acceleration).0
        } else {
            dict_block(
                t2,
                si,
                d,
                Some((cd, ct, co)),
                src,
                TableType::ByU32,
                DictDirective::UsingDictCtx,
                acceleration,
            ).0
        },
        None => dict_block(
            t2,
            si,
            if ds2 < 4 {
                Seq::empty()
            } else {
                d
            },
            None,
            src,
            TableType::ByU32,
            DictDirective::UsingExtDict,
            acceleration,
        ).0,
    }
}

/// Whether a fast reset clears a table of stored type `table_type` at
/// offset `off`: unless it is already cleared, when it was not written with
/// 32-bit indices or its offset passed 1 GiB.
pub open spec fn reset_clears(table_type: u32, off: u32) -> bool {
    let cur = table_type_of(table_type);
    cur != TableType::ClearedTable && (cur != TableType::ByU32 || off > GB)
}

/// The offset a fast reset that keeps the table leaves: 64 KiB past the
/// old one, so that old entries stay out of reach.
pub open spec fn kept_offset(off: u32) -> u32 {
    ((off + (if off != 0 {
        65536int
    } else {
        0int
    })) % 0x1_0000_0000) as u32
}

/// Whether, in limited mode with `dlen` bytes of output, the block of
/// `stream_block_of` is written.
#[verifier::opaque]
pub open spec fn stream_fits_of(
    t: Seq<u32>,
    off: u32,
    d: Seq<u8>,
    ds: u32,
    att: Option<(Seq<u8>, Seq<u32>, u32)>,
    src: Seq<u8>,
    acceleration: i32,
    dlen: int,
) -> bool {
    let n = src.len() as int;
    let t2 = renormed_table(t, off, n);
    let si = renormed_offset(off, n);
    let ds2 = if off + n > 0x8000_0000 && ds > 65536 {
        65536
    } else {
        ds
    };
    match att {
        Some((cd, ct, co)) => if n > 4096 && co + n <= 0xFFFF_FFFF {
            dict_fits(ct, co, cd, None, src, TableType::ByU32, DictDirective::UsingExtDict, acceleration, dlen)
        } else {
            dict_fits(
                t2,
                si,
                d,
                Some((cd, ct, co)),
                src,
                TableType::ByU32,
                DictDirective::UsingDictCtx,
                acceleration,
                dlen,
            )
        },
        None => dict_fits(
            t2,
            si,
            if ds2 < 4 {
                Seq::empty()
            } else {
                d
            },
            None,
            src,
            TableType::ByU32,
            DictDirective::UsingExtDict,
            acceleration,
            dlen,
        ),
    }
}

/// Streaming compression context.
pub struct Lz4Stream {
    pub(crate) internal: StreamStateInternal,
}

/// A copy of `v`.
fn copy_u32s(v: &Vec<u32>) -> (r: Vec<u32>)
    ensures
        r@ == v@,
{
    let mut r: Vec<u32> = Vec::new();
    let mut i: usize = 0;
    while i < v.len()
        invariant
            i <= v@.len(),
            r@ == v@.subrange(0, i as int),
        decreases v@.len() - i,
    {
        r.push(v[i]);
        i = i + 1;
        proof {
            assert(r@ =~= v@.subrange(0, i as int));
        }
    }
    proof {
        assert(v@.subrange(0, i as int) =~= v@);
    }
    r
}

/// A copy of the bytes of `s` from `from` on.
pub(crate) fn copy_bytes(s: &[u8], from: usize) -> (r: Vec<u8>)
    requires
        from <= s@.len(),
    ensures
        r@ == s@.subrange(from as int, s@.len() as int),
{
    let mut r: Vec<u8> = Vec::new();
    let mut i: usize = from;
    while i < s.len()
        invariant
            from <= i <= s@.len(),
            r@ == s@.subrange(from as int, i as int),
        decreases s@.len() - i,
    {
        r.push(s[i]);
        i = i + 1;
        proof {
            assert(r@ =~= s@.subrange(from as int, i as int));
        }
    }
    r
}

/// A copy of the last (at most 64 KiB) bytes of `s`.
fn tail_copy(s: &[u8]) -> (r: Vec<u8>)
    ensures
        r@ == window_tail(s@),
{
    let from = if s.len() > 65536 {
        s.len() - 65536
    } else {
        0
    };
    let r = copy_bytes(s, from);
    proof {
        if s@.len() <= 65536 {
            assert(s@.subrange(0, s@.len() as int) =~= s@);
        }
    }
    r
}

/// A copy of a state without its attached state.
fn copy_state(s: &StreamStateInternal) -> (r: StreamStateInternal)
    ensures
        r.hash_table@ == s.hash_table@,
        r.dictionary@ == s.dictionary@,
        r.dict_size == s.dict_size,
        r.current_offset == s.current_offset,
        r.table_type == s.table_type,
        r.dict_ctx is None,
{
    StreamStateInternal {
        hash_table: copy_u32s(&s.hash_table),
        dictionary: copy_bytes(s.dictionary.as_slice(), 0),
        dict_size: s.dict_size,
        current_offset: s.current_offset,
        table_type: s.table_type,
        dict_ctx: None,
    }
}

impl Lz4Stream {
    /// The stream's state is well formed.
    pub closed spec fn wf(&self) -> bool {
        self.internal.wf()
    }

    /// The state's own record of the content preceding the next block (at
    /// most its last 64 KiB).
    pub closed spec fn dictionary(&self) -> Seq<u8> {
        self.internal.dictionary@
    }

    /// Length of the content preceding the next block, as the state counts it.
    pub closed spec fn dict_size(&self) -> u32 {
        self.internal.dict_size
    }

    /// Index of the next block's first byte.
    pub closed spec fn offset(&self) -> u32 {
        self.internal.current_offset
    }

    /// The stream's hash table.
    pub closed spec fn table(&self) -> Seq<u32> {
        self.internal.hash_table@
    }

    /// Stored number of the table type the entries were written with (0:
    /// cleared).
    pub closed spec fn table_type(&self) -> u32 {
        self.internal.table_type
    }

    /// The block `compress_fast_continue` writes for `src` (when it fits);
    /// see `stream_block_of`.
    pub open spec fn stream_block(&self, src: Seq<u8>, acceleration: i32) -> Seq<u8> {
        stream_block_of(
            self.table(),
            self.offset(),
            self.dictionary(),
            self.dict_size(),
            self.attached(),
            src,
            acceleration,
        )
    }

    /// Whether `compress_fast_continue` writes its block for `src` into
    /// `dlen` bytes: always from the worst-case bound on, else when the room
    /// checks pass.
    pub open spec fn stream_fits(&self, src: Seq<u8>, acceleration: i32, dlen: int) -> bool {
        dlen >= bound_of(src.len() as int) || stream_fits_of(
            self.table(),
            self.offset(),
            self.dictionary(),
            self.dict_size(),
            self.attached(),
            src,
            acceleration,
            dlen,
        )
    }

    /// Whether `compress_force_ext_dict` writes its block for `src` into
    /// `dlen` bytes.
    pub open spec fn ext_dict_fits(&self, src: Seq<u8>, dlen: int) -> bool {
        let n = src.len() as int;
        dlen >= bound_of(n) || dict_fits(
            renormed_table(self.table(), self.offset(), n),
            renormed_offset(self.offset(), n),
            self.dictionary(),
            None,
            src,
            TableType::ByU32,
            DictDirective::UsingExtDict,
            1,
            dlen,
        )
    }

    /// The block `compress_force_ext_dict` writes for `src` (when it fits):
    /// the input follows the stream's own history as an external dictionary.
    pub open spec fn ext_dict_block(&self, src: Seq<u8>) -> Seq<u8> {
        let n = src.len() as int;
        dict_block(
            renormed_table(self.table(), self.offset(), n),
            renormed_offset(self.offset(), n),
            self.dictionary(),
            None,
            src,
            TableType::ByU32,
            DictDirective::UsingExtDict,
            1,
        ).0
    }

    /// The attached dictionary state, if any: its content, table and offset.
    pub closed spec fn attached(&self) -> Option<(Seq<u8>, Seq<u32>, u32)> {
        ctx_parts(self.internal.dict_ctx)
    }

    /// Whether a dictionary state is attached.
    pub closed spec fn has_dict_ctx(&self) -> bool {
        self.internal.dict_ctx is Some
    }

    /// The content the next block may refer back to: the attached
    /// dictionary's content when one is attached; else what precedes the
    /// next block, unless that is shorter than 4 bytes.
    pub closed spec fn history(&self) -> Seq<u8> {
        match self.internal.dict_ctx {
            Some(c) => c.dictionary@,
            None => if self.internal.dict_size < 4 {
                Seq::empty()
            } else {
                self.internal.dictionary@
            },
        }
    }

    /// Without an attached dictionary, the history is the state's own record
    /// of what precedes the next block, once that holds 4 bytes or more.
    pub proof fn lemma_own_history(&self)
        requires
            !self.has_dict_ctx(),
        ensures
            self.history() == (if self.dict_size() < 4 {
                Seq::<u8>::empty()
            } else {
                self.dictionary()
            }),
    {
    }

    /// Creates a stream with no history.
    pub fn new() -> (s: Box<Self>)
        ensures
            s.wf(),
            s.history() == Seq::<u8>::empty(),
            !s.has_dict_ctx(),
            s.dict_size() == 0,
            s.dictionary() == Seq::<u8>::empty(),
            s.offset() == 0,
            s.table_type() == 0,
            s.table() == fresh_table(),
    {
        let st = StreamStateInternal::new();
        proof {
            assert(st.hash_table@ =~= fresh_table());
        }
        Box::new(Lz4Stream { internal: st })
    }

    /// Resets the stream: no history, and a cleared table.
    pub fn reset(&mut self)
        ensures
            final(self).wf(),
            final(self).history() == Seq::<u8>::empty(),
            !final(self).has_dict_ctx(),
            final(self).dict_size() == 0,
            final(self).dictionary() == Seq::<u8>::empty(),
            final(self).offset() == 0,
            final(self).table_type() == 0,
            final(self).table() == fresh_table(),
    {
        self.internal = StreamStateInternal::new();
        proof {
            assert(self.internal.hash_table@ =~= fresh_table());
        }
    }

    /// Resets the stream's history, keeping its table when its entries can
    /// be reused.
    pub fn reset_fast(&mut self)
        requires
            old(self).wf(),
        ensures
            final(self).wf(),
            final(self).history() == Seq::<u8>::empty(),
            !final(self).has_dict_ctx(),
            final(self).dict_size() == 0,
            final(self).dictionary() == Seq::<u8>::empty(),
            final(self).attached() is None,
            final(self).table() == (if reset_clears(old(self).table_type(), old(self).offset()) {
                fresh_table()
            } else {
                old(self).table()
            }),
            final(self).offset() == (if reset_clears(old(self).table_type(), old(self).offset()) {
                0
            } else {
                kept_offset(old(self).offset())
            }),
            final(self).table_type() == (if reset_clears(old(self).table_type(), old(self).offset()) {
                0
            } else {
                old(self).table_type()
            }),
    {
        prepare_table(&mut self.internal, 0, TableType::ByU32);
        proof {
            if reset_clears(old(self).internal.table_type, old(self).internal.current_offset) {
                assert(self.internal.hash_table@ =~= fresh_table());
            }
        }
    }

    /// Loads `dictionary` as the stream's history: the stream is reset, then
    /// its last 64 KiB are indexed, every third position (and, in slow mode,
    /// every position whose slot holds nothing within reach).  Returns the
    /// number of bytes kept, 0 when the dictionary is too short to index.
    fn load_dict_internal(&mut self, dictionary: &[u8], slow: bool) -> (r: i32)
        ensures
            final(self).wf(),
            !final(self).has_dict_ctx(),
            final(self).dict_size() == r,
            final(self).offset() == 65536,
            final(self).table_type() == (if dictionary@.len() < HASH_UNIT {
                0u32
            } else {
                2u32
            }),
            final(self).dictionary() == (if dictionary@.len() < HASH_UNIT {
                Seq::<u8>::empty()
            } else {
                window_tail(dictionary@)
            }),
            final(self).table() == dict_table(dictionary@, slow),
            r == (if dictionary@.len() < HASH_UNIT {
                0
            } else {
                window_tail(dictionary@).len() as int
            }),
            final(self).history() == (if dictionary@.len() < HASH_UNIT {
                Seq::<u8>::empty()
            } else {
                window_tail(dictionary@)
            }),
    {
        self.internal = StreamStateInternal::new();
        proof {
            assert(self.internal.hash_table@ =~= fresh_table());
        }
        self.internal.current_offset = (64 * KB) as u32;
        let n = dictionary.len();
        if n < HASH_UNIT {
            return 0;
        }
        let kept = tail_copy(dictionary);
        let dict_size = kept.len();
        self.internal.dictionary = kept;
        self.internal.dict_size = dict_size as u32;
        self.internal.table_type = 2;
        let base: u32 = (64 * KB - dict_size) as u32;
        let ghost k = window_tail(dictionary@);
        let mut p: usize = 0;
        while p + HASH_UNIT <= dict_size
            invariant
                indexed_every_third(fresh_table(), k, base, 0) == indexed_every_third(
                    self.internal.hash_table@,
                    k,
                    base,
                    p as int,
                ),
                k == window_tail(dictionary@),
                self.internal.current_offset == 65536,
                self.internal.table_type == 2,
                p <= dict_size + 3,
                self.internal.wf(),
                self.internal.dict_ctx is None,
                self.internal.dict_size == dict_size as u32,
                self.internal.dictionary@ == window_tail(dictionary@),
                self.internal.dictionary@.len() == dict_size,
                dict_size <= 65536,
                base as int == 65536 - dict_size,
            decreases dict_size - p,
        {
            let h = hash_position(self.internal.dictionary.as_slice(), p, TableType::ByU32);
            self.internal.hash_table.set(h as usize, base + (p as u32));
            p = p + 3;
        }
        if slow {
            let ghost t0 = self.internal.hash_table@;
            let mut q: usize = 0;
            while q + HASH_UNIT <= dict_size
                invariant
                    filled_empty(t0, k, base, 0) == filled_empty(
                        self.internal.hash_table@,
                        k,
                        base,
                        q as int,
                    ),
                    k == window_tail(dictionary@),
                    self.internal.current_offset == 65536,
                    self.internal.table_type == 2,
                    q <= dict_size,
                    self.internal.wf(),
                    self.internal.dict_ctx is None,
                    self.internal.dict_size == dict_size as u32,
                    self.internal.dictionary@ == window_tail(dictionary@),
                    self.internal.dictionary@.len() == dict_size,
                    dict_size <= 65536,
                    base as int == 65536 - dict_size,
                decreases dict_size - q,
            {
                let h = hash_position(self.internal.dictionary.as_slice(), q, TableType::ByU32);
                if self.internal.hash_table[h as usize] == 0 {
                    self.internal.hash_table.set(h as usize, base + (q as u32));
                }
                q = q + 1;
            }
        }
        dict_size as i32
    }

    /// Loads `dictionary` as the stream's history, indexing every third
    /// position of its last 64 KiB.  Returns the number of bytes kept, or 0
    /// when it is shorter than `HASH_UNIT`.
    pub fn load_dict(&mut self, dictionary: &[u8]) -> (r: i32)
        ensures
            final(self).wf(),
            !final(self).has_dict_ctx(),
            final(self).dict_size() == r,
            final(self).offset() == 65536,
            final(self).table_type() == (if dictionary@.len() < HASH_UNIT {
                0u32
            } else {
                2u32
            }),
            final(self).dictionary() == (if dictionary@.len() < HASH_UNIT {
                Seq::<u8>::empty()
            } else {
                window_tail(dictionary@)
            }),
            final(self).table() == dict_table(dictionary@, false),
            r == (if dictionary@.len() < HASH_UNIT {
                0
            } else {
                window_tail(dictionary@).len() as int
            }),
            final(self).history() == (if dictionary@.len() < HASH_UNIT {
                Seq::<u8>::empty()
            } else {
                window_tail(dictionary@)
            }),
    {
        self.load_dict_internal(dictionary, false)
    }

    /// Like `load_dict`, but also indexes the other positions whose slots
    /// hold nothing within reach, so that the table covers the dictionary's
    /// beginning too.
    pub fn load_dict_slow(&mut self, dictionary: &[u8]) -> (r: i32)
        ensures
            final(self).wf(),
            !final(self).has_dict_ctx(),
            final(self).dict_size() == r,
            final(self).offset() == 65536,
            final(self).table_type() == (if dictionary@.len() < HASH_UNIT {
                0u32
            } else {
                2u32
            }),
            final(self).dictionary() == (if dictionary@.len() < HASH_UNIT {
                Seq::<u8>::empty()
            } else {
                window_tail(dictionary@)
            }),
            final(self).table() == dict_table(dictionary@, true),
            r == (if dictionary@.len() < HASH_UNIT {
                0
            } else {
                window_tail(dictionary@).len() as int
            }),
            final(self).history() == (if dictionary@.len() < HASH_UNIT {
                Seq::<u8>::empty()
            } else {
                window_tail(dictionary@)
            }),
    {
        self.load_dict_internal(dictionary, true)
    }

    /// Attaches the dictionary loaded in `dict_stream` (a copy of its state),
    /// or detaches any (`None`).  A dictionary stream with no history
    /// detaches too.
    pub fn attach_dictionary(&mut self, dict_stream: Option<&Lz4Stream>)
        requires
            old(self).wf(),
            dict_stream matches Some(d) ==> d.wf(),
        ensures
            final(self).wf(),
            final(self).dict_size() == old(self).dict_size(),
            final(self).dictionary() == old(self).dictionary(),
            final(self).table() == old(self).table(),
            final(self).table_type() == old(self).table_type(),
            final(self).offset() == (if dict_stream is Some && old(self).offset() == 0 {
                65536
            } else {
                old(self).offset()
            }),
            final(self).attached() == match dict_stream {
                Some(d) => if d.dict_size() == 0 {
                    None
                } else {
                    Some((d.dictionary(), d.table(), d.offset()))
                },
                None => None,
            },
            match dict_stream {
                Some(d) => if d.dict_size() == 0 {
                    !final(self).has_dict_ctx()
                } else {
                    final(self).has_dict_ctx() && final(self).history() == d.dictionary()
                },
                None => !final(self).has_dict_ctx(),
            },
    {
        match dict_stream {
            None => {
                self.internal.dict_ctx = None;
            },
            Some(d) => {
                if self.internal.current_offset == 0 {
                    self.internal.current_offset = (64 * KB) as u32;
                }
                if d.internal.dict_size == 0 {
                    self.internal.dict_ctx = None;
                } else {
                    self.internal.dict_ctx = Some(Box::new(copy_state(&d.internal)));
                }
            },
        }
    }

    /// Rebases the table's entries when the offset would pass 2 GiB with a
    /// next block of `next_size` bytes: entries more than 64 KiB back are
    /// dropped, the others move down with the offset to 64 KiB.
    pub fn renorm_dict(&mut self, next_size: i32)
        requires
            old(self).wf(),
            next_size >= 0,
        ensures
            final(self).wf(),
            final(self).history() == old(self).history(),
            final(self).dictionary() == old(self).dictionary(),
            old(self).offset() + next_size > 0x8000_0000 ==> final(self).offset() == 65536,
            old(self).offset() + next_size <= 0x8000_0000 ==> final(self).offset() == old(
                self,
            ).offset(),
            final(self).table_type() == old(self).table_type(),
            final(self).has_dict_ctx() == old(self).has_dict_ctx(),
            final(self).attached() == old(self).attached(),
            old(self).offset() + next_size > 0x8000_0000 ==> {
                &&& final(self).table() == rebased(old(self).table(), rebase_delta(old(self).offset()))
                &&& final(self).dict_size() == (if old(self).dict_size() > 65536 {
                    65536
                } else {
                    old(self).dict_size()
                })
            },
            old(self).offset() + next_size <= 0x8000_0000 ==> final(self).table() == old(self).table()
                && final(self).dict_size() == old(self).dict_size(),
    {
        if (self.internal.current_offset as u64) + (next_size as u64) > 0x8000_0000u64 {
            let delta = self.internal.current_offset.wrapping_sub((64 * KB) as u32);
            let ghost t0 = self.internal.hash_table@;
            let mut i: usize = 0;
            while i < self.internal.hash_table.len()
                invariant
                    delta == rebase_delta(old(self).internal.current_offset),
                    t0 == old(self).internal.hash_table@,
                    self.internal.hash_table@.len() == t0.len(),
                    i <= t0.len(),
                    forall|j: int| 0 <= j < i ==> self.internal.hash_table@[j] == rebased(t0, delta)[j],
                    forall|j: int| i <= j < t0.len() ==> self.internal.hash_table@[j] == t0[j],
                    self.internal.current_offset == old(self).internal.current_offset,
                    self.internal.table_type == old(self).internal.table_type,
                    self.internal.wf(),
                    self.internal.dict_ctx == old(self).internal.dict_ctx,
                    self.internal.dictionary == old(self).internal.dictionary,
                    self.internal.dict_size == old(self).internal.dict_size,
                decreases HASH_SLOTS - i,
            {
                let e = self.internal.hash_table[i];
                if e < delta {
                    self.internal.hash_table.set(i, 0);
                } else {
                    self.internal.hash_table.set(i, e - delta);
                }
                i = i + 1;
            }
            proof {
                assert(self.internal.hash_table@ =~= rebased(t0, delta));
            }
            self.internal.current_offset = (64 * KB) as u32;
            if self.internal.dict_size > (64 * KB) as u32 {
                self.internal.dict_size = (64 * KB) as u32;
            }
        }
    }

    /// Compresses `src` as the next block of the stream into `dst`, with
    /// acceleration `acceleration` (clamped to `1 ..= LZ4_ACCELERATION_MAX`).
    ///
    /// Returns the compressed length, or 0 when `src` exceeds
    /// `LZ4_MAX_INPUT_SIZE` or the block does not fit in `dst` (it always
    /// fits in `compress_bound(src.len())` bytes).  The block decodes with the
    /// stream's history as dictionary to `src`, which then becomes the
    /// history (its last 64 KiB).
    pub fn compress_fast_continue(&mut self, src: &[u8], dst: &mut [u8], acceleration: i32) -> (r:
        i32)
        requires
            old(self).wf(),
        ensures
            final(self).wf(),
            final(dst)@.len() == old(dst)@.len(),
            0 <= r <= old(dst)@.len(),
            r == 0 ==> src@.len() > LZ4_MAX_INPUT_SIZE || old(dst)@.len() < bound_of(
                src@.len() as int,
            ),
            r > 0 ==> final(dst)@.subrange(0, r as int) == old(self).stream_block(src@, acceleration),
            r > 0 ==> kept_from(final(dst)@, old(dst)@, r as int),
            (r > 0) <==> (src@.len() <= LZ4_MAX_INPUT_SIZE && old(self).stream_fits(
                src@,
                acceleration,
                old(dst)@.len() as int,
            )),
            src@.len() <= LZ4_MAX_INPUT_SIZE ==> final(self).dictionary() == window_tail(src@)
                && final(self).dict_size() == src@.len(),
            src@.len() <= LZ4_MAX_INPUT_SIZE ==> {
                &&& old(dst)@.len() >= bound_of(src@.len() as int) ==> r > 0
                &&& r > 0 ==> decodes_to(
                    final(dst)@.subrange(0, r as int),
                    old(self).history(),
                    src@,
                )
                &&& src@.len() > 0 ==> final(self).history() == (if src@.len() < 4 {
                    Seq::<u8>::empty()
                } else {
                    window_tail(src@)
                })
            },
    {
        proof {
            reveal(stream_block_of);
            reveal(stream_fits_of);
        }
        if src.len() > LZ4_MAX_INPUT_SIZE as usize {
            return 0;
        }
        let n = src.len();
        let ghost hist = self.history();
        self.renorm_dict(n as i32);
        if self.internal.dict_size < 4 && self.internal.dict_ctx.is_none() {
            self.internal.dict_size = 0;
            self.internal.dictionary = Vec::new();
        }
        let bound = bound_of_exec(n);
        let dir = if dst.len() >= bound {
            LimitedOutputDirective::NotLimited
        } else {
            LimitedOutputDirective::LimitedOutput
        };
        let mut mode = DictDirective::UsingExtDict;
        let mut copy: Option<StreamStateInternal> = None;
        if let Some(dc) = &self.internal.dict_ctx {
            if n > 4 * KB && (dc.current_offset as u64) + (n as u64) <= 0xFFFF_FFFFu64 {
                copy = Some(copy_state(dc));
            } else {
                mode = DictDirective::UsingDictCtx;
            }
        }
        if let Some(c) = copy {
            self.internal = c;
        }
        proof {
            assert(self.internal.current_offset + n <= u32::MAX);
            assert(preceding(&self.internal, mode) == hist);
        }
        let res = compress_generic(
            &mut self.internal,
            src,
            dst,
            dir,
            TableType::ByU32,
            mode,
            acceleration,
        );
        self.internal.dictionary = tail_copy(src);
        self.internal.dict_size = n as u32;
        match res {
            Ok((written, consumed)) => {
                proof {
                    assert(src@.subrange(0, consumed as int) =~= src@);
                }
                written as i32
            },
            Err(_) => 0,
        }
    }

    /// Compresses `src` as the next block of the stream with its history as
    /// an external dictionary, whatever the stream's state.  Returns the
    /// compressed length, or 0 on failure; see `compress_fast_continue`.
    pub fn compress_force_ext_dict(&mut self, src: &[u8], dst: &mut [u8]) -> (r: i32)
        requires
            old(self).wf(),
        ensures
            final(self).wf(),
            final(dst)@.len() == old(dst)@.len(),
            0 <= r <= old(dst)@.len(),
            r > 0 ==> final(dst)@.subrange(0, r as int) == old(self).ext_dict_block(src@),
            r > 0 ==> kept_from(final(dst)@, old(dst)@, r as int),
            (r > 0) <==> (src@.len() <= LZ4_MAX_INPUT_SIZE && old(self).ext_dict_fits(
                src@,
                old(dst)@.len() as int,
            )),
            src@.len() <= LZ4_MAX_INPUT_SIZE ==> final(self).dictionary() == window_tail(src@)
                && final(self).dict_size() == src@.len(),
            src@.len() <= LZ4_MAX_INPUT_SIZE ==> {
                &&& old(dst)@.len() >= bound_of(src@.len() as int) ==> r > 0
                &&& r > 0 ==> decodes_to(
                    final(dst)@.subrange(0, r as int),
                    old(self).dictionary(),
                    src@,
                )
            },
    {
        if src.len() > LZ4_MAX_INPUT_SIZE as usize {
            return 0;
        }
        let n = src.len();
        self.renorm_dict(n as i32);
        let ghost dict = self.internal.dictionary@;
        let bound = bound_of_exec(n);
        let dir = if dst.len() >= bound {
            LimitedOutputDirective::NotLimited
        } else {
            LimitedOutputDirective::LimitedOutput
        };
        let res = compress_generic(
            &mut self.internal,
            src,
            dst,
            dir,
            TableType::ByU32,
            DictDirective::UsingExtDict,
            1,
        );
        self.internal.dictionary = tail_copy(src);
        self.internal.dict_size = n as u32;
        match res {
            Ok((written, consumed)) => {
                proof {
                    assert(src@.subrange(0, consumed as int) =~= src@);
                }
                written as i32
            },
            Err(_) => 0,
        }
    }

    /// Copies the last bytes of the stream's history (at most 64 KiB, and
    /// at most `safe_buffer.len()`) into `safe_buffer`, which they then
    /// stand for.  Returns how many bytes were saved.
    pub fn save_dict(&mut self, safe_buffer: &mut [u8]) -> (r: i32)
        requires
            old(self).wf(),
        ensures
            final(self).wf(),
            final(safe_buffer)@.len() == old(safe_buffer)@.len(),
            0 <= r <= old(safe_buffer)@.len(),
            r == vstd::math::min(
                vstd::math::min(old(safe_buffer)@.len() as int, 65536),
                old(self).dict_size() as int,
            ),
            r <= old(self).dictionary().len() ==> {
                &&& final(safe_buffer)@.subrange(0, r as int) == old(self).dictionary().subrange(
                    old(self).dictionary().len() - r,
                    old(self).dictionary().len() as int,
                )
                &&& final(self).dictionary() == final(safe_buffer)@.subrange(0, r as int)
                &&& final(self).dict_size() == r
            },
    {
        let cap = if safe_buffer.len() < 65536 {
            safe_buffer.len()
        } else {
            65536
        };
        let mut k = if (cap as u32) > self.internal.dict_size {
            self.internal.dict_size as usize
        } else {
            cap
        };
        let have = self.internal.dictionary.len();
        if k <= have {
            let from = have - k;
            let mut i: usize = 0;
            while i < k
                invariant
                    i <= k,
                    from + k == have,
                    have == self.internal.dictionary@.len(),
                    k <= safe_buffer@.len(),
                    safe_buffer@.len() == old(safe_buffer)@.len(),
                    forall|j: int|
                        0 <= j < i ==> #[trigger] safe_buffer@[j]
                            == self.internal.dictionary@[from + j],
                decreases k - i,
            {
                safe_buffer[i] = self.internal.dictionary[from + i];
                i = i + 1;
            }
            proof {
                assert(safe_buffer@.subrange(0, k as int) =~= self.internal.dictionary@.subrange(
                    from as int,
                    have as int,
                ));
            }
            let kept = copy_bytes(self.internal.dictionary.as_slice(), from);
            self.internal.dictionary = kept;
            self.internal.dict_size = k as u32;
        }
        k as i32
    }
}

/// `bound_of` for an input length within range.
fn bound_of_exec(n: usize) -> (b: usize)
    requires
        n <= LZ4_MAX_INPUT_SIZE,
    ensures
        b == bound_of(n as int),
{
    n + n / 255 + 16
}

/// `a` ends `b`.
pub open spec fn is_suffix(a: Seq<u8>, b: Seq<u8>) -> bool {
    a.len() <= b.len() && b.subrange(b.len() - a.len(), b.len() as int) == a
}

/// Streaming law: a block that a stream compressed decodes to its source
/// with any decoder history that ends with the stream's history (such as
/// that of a decoder that decoded the same blocks before), and after both
/// sides take the block, the stream's history still ends the decoder's.
pub proof fn lemma_stream_step(
    block: Seq<u8>,
    enc_hist: Seq<u8>,
    dec_hist: Seq<u8>,
    src: Seq<u8>,
    cap: int,
)
    requires
        decodes_to(block, enc_hist, src),
        is_suffix(enc_hist, dec_hist),
        src.len() <= cap,
    ensures
        lz4_decode(block, dec_hist, cap, false) == Some(src),
        is_suffix(
            if src.len() < 4 {
                Seq::<u8>::empty()
            } else {
                window_tail(src)
            },
            window_tail(dec_hist + src),
        ),
{
    let pre = dec_hist.subrange(0, dec_hist.len() - enc_hist.len());
    assert(pre + enc_hist =~= dec_hist);
    assert(lz4_decode(block, enc_hist, cap, false) == Some(src));
    lemma_decode_longer_dict(block, pre, enc_hist, cap, false);
    let all = dec_hist + src;
    let t = window_tail(all);
    if src.len() >= 4 {
        let e = window_tail(src);
        assert(t.subrange(t.len() - e.len(), t.len() as int) =~= e);
    } else {
        assert(t.subrange(t.len() - 0, t.len() as int) =~= Seq::<u8>::empty());
    }
}

} // verus!
