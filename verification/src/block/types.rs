//! LZ4 block constants, directive enumerations, hash functions and the
//! compression state that the block encoder works on.

use vstd::prelude::*;
use vstd::std_specs::bits::u64_trailing_zeros;

verus! {

/// Minimum match length encoded in an LZ4 block.
pub const MINMATCH: usize = 4;

/// Wildcard-copy granularity.
pub const WILDCOPYLENGTH: usize = 8;

/// The last `LASTLITERALS` bytes of a block are always literals.
pub const LASTLITERALS: usize = 5;

/// A match must start at least `MFLIMIT` bytes before the end of the block.
pub const MFLIMIT: usize = 12;

/// Margin kept free at the end of the output by the decoder's match copy.
pub const MATCH_SAFEGUARD_DISTANCE: usize = 12;

/// Minimum distance from the end of the fast decoding region.
pub const FASTLOOP_SAFE_DISTANCE: usize = 64;

/// Inputs shorter than this are emitted as a single literal run.
pub const LZ4_MIN_LENGTH: usize = 13;

pub const KB: usize = 1024;
pub const MB: usize = 1048576;
pub const GB: usize = 1073741824;

/// Largest back-reference distance of the format.
pub const LZ4_DISTANCE_ABSOLUTE_MAX: u32 = 65535;

/// Largest back-reference distance produced by the encoder.
pub const LZ4_DISTANCE_MAX: u32 = 65535;

pub const ML_BITS: u32 = 4;
pub const ML_MASK: u32 = 15;
pub const RUN_BITS: u32 = 4;
pub const RUN_MASK: u32 = 15;

/// Log2 of the hash table's size in bytes.
pub const LZ4_MEMORY_USAGE: u32 = 14;

/// Number of hash bits kept for 32-bit table entries.
pub const LZ4_HASHLOG: u32 = 12;

/// Hash table size in bytes.
pub const LZ4_HASHTABLESIZE: usize = 16384;

/// Number of 32-bit entries in the hash table.
pub const LZ4_HASH_SIZE_U32: usize = 4096;

/// Number of slots the table holds: the 16-bit layout has twice as many
/// entries as the 32-bit one.
pub const HASH_SLOTS: usize = 8192;

/// Inputs below this size may use 16-bit table entries.
pub const LZ4_64KLIMIT: usize = 65547;

/// Higher values skip faster over incompressible data.
pub const LZ4_SKIP_TRIGGER: u32 = 6;

/// How the encoder treats the capacity of its output buffer.
#[derive(Clone, Copy, PartialEq, Eq, Debug, Structural)]
pub enum LimitedOutputDirective {
    /// The output buffer holds the worst case; no check is needed.
    NotLimited,
    /// Fail as soon as the output buffer is full.
    LimitedOutput,
    /// Compress as much input as fits in the output buffer.
    FillOutput,
}

/// What the hash table's entries hold.
#[derive(Clone, Copy, PartialEq, Eq, Debug, Structural)]
pub enum TableType {
    /// The table holds no entries.
    ClearedTable,
    /// Entries are positions in memory (a layout of 32-bit hosts, not used here).
    ByPtr,
    /// Entries are 32-bit indices.
    ByU32,
    /// Entries are 16-bit indices.
    ByU16,
}

/// Number of a table type, as stored in the compression state.
pub open spec fn table_type_code(t: TableType) -> u32 {
    match t {
        TableType::ClearedTable => 0,
        TableType::ByPtr => 1,
        TableType::ByU32 => 2,
        TableType::ByU16 => 3,
    }
}

/// Table type of a stored number; unknown numbers denote a cleared table.
pub open spec fn table_type_of(v: u32) -> TableType {
    if v == 1 {
        TableType::ByPtr
    } else if v == 2 {
        TableType::ByU32
    } else if v == 3 {
        TableType::ByU16
    } else {
        TableType::ClearedTable
    }
}

impl From<u32> for TableType {
    fn from(v: u32) -> (t: TableType) {
        if v == 1 {
            TableType::ByPtr
        } else if v == 2 {
            TableType::ByU32
        } else if v == 3 {
            TableType::ByU16
        } else {
            TableType::ClearedTable
        }
    }
}

impl vstd::std_specs::convert::FromSpecImpl<u32> for TableType {
    open spec fn obeys_from_spec() -> bool {
        true
    }

    open spec fn from_spec(v: u32) -> TableType {
        table_type_of(v)
    }
}

/// Stored number of a table type.
pub fn table_type_code_of(t: TableType) -> (r: u32)
    ensures
        r == table_type_code(t),
        table_type_of(r) == t,
{
    match t {
        TableType::ClearedTable => 0,
        TableType::ByPtr => 1,
        TableType::ByU32 => 2,
        TableType::ByU16 => 3,
    }
}

/// Where the content preceding the input lies.
#[derive(Clone, Copy, PartialEq, Eq, Debug, Structural)]
pub enum DictDirective {
    /// No preceding content.
    NoDict,
    /// The preceding content immediately precedes the input.
    WithPrefix64k,
    /// The preceding content is the state's own dictionary.
    UsingExtDict,
    /// The preceding content is described by an attached dictionary state.
    UsingDictCtx,
}

/// Whether the dictionary is shorter than the index range before the input.
#[derive(Clone, Copy, PartialEq, Eq, Debug, Structural)]
pub enum DictIssueDirective {
    NoDictIssue,
    DictSmall,
}

/// Number of hash bits for a table type.
pub open spec fn hash_log(table_type: TableType) -> u32 {
    if table_type == TableType::ByU16 {
        13
    } else {
        12
    }
}

/// Multiplicative hash of a 4-byte sequence.
pub open spec fn spec_hash4(sequence: u32, table_type: TableType) -> u32 {
    sequence.wrapping_mul(2654435761u32) >> ((32 - hash_log(table_type)) as u32)
}

/// Multiplicative hash of the low 5 bytes of an 8-byte little-endian word.
pub open spec fn spec_hash5(sequence: u64, table_type: TableType) -> u32 {
    ((sequence << 24u64).wrapping_mul(889523592379u64) >> ((64 - hash_log(table_type)) as u64)) as u32
}

/// 4-byte Knuth multiplicative hash of a match candidate.
pub fn hash4(sequence: u32, table_type: TableType) -> (h: u32)
    ensures
        h == spec_hash4(sequence, table_type),
        h < (if table_type == TableType::ByU16 { 8192u32 } else { 4096u32 }),
{
    let log: u32 = if table_type == TableType::ByU16 { 13 } else { 12 };
    let m = sequence.wrapping_mul(2654435761u32);
    let r = m >> (32 - log);
    assert(m >> 19u32 < 8192u32) by (bit_vector);
    assert(m >> 20u32 < 4096u32) by (bit_vector);
    r
}

/// 5-byte hash of a match candidate, taken from the low five bytes of an
/// 8-byte little-endian word.
pub fn hash5(sequence: u64, table_type: TableType) -> (h: u32)
    ensures
        h == spec_hash5(sequence, table_type),
        h < (if table_type == TableType::ByU16 { 8192u32 } else { 4096u32 }),
{
    let log: u64 = if table_type == TableType::ByU16 { 13 } else { 12 };
    let m = (sequence << 24u64).wrapping_mul(889523592379u64);
    let r = m >> (64 - log);
    assert(m >> 51u64 < 8192u64) by (bit_vector);
    assert(m >> 52u64 < 4096u64) by (bit_vector);
    r as u32
}

/// Little-endian value of the 4 bytes of `s` starting at `i`.
pub open spec fn le32_at(s: Seq<u8>, i: int) -> u32 {
    (s[i] as u32) | ((s[i + 1] as u32) << 8u32) | ((s[i + 2] as u32) << 16u32) | ((s[i + 3] as u32)
        << 24u32)
}

/// Little-endian value of the 8 bytes of `s` starting at `i`.
pub open spec fn le64_at(s: Seq<u8>, i: int) -> u64 {
    (le32_at(s, i) as u64) | ((le32_at(s, i + 4) as u64) << 32u64)
}

/// Hash of the content at position `i`: the 5-byte hash of the 8-byte word
/// there, or the 4-byte hash for 16-bit tables.
pub open spec fn spec_hash_position(s: Seq<u8>, i: int, table_type: TableType) -> u32 {
    if table_type != TableType::ByU16 {
        spec_hash5(le64_at(s, i), table_type)
    } else {
        spec_hash4(le32_at(s, i), table_type)
    }
}

/// Reads the little-endian 32-bit word at `i`.
pub fn read_le32(s: &[u8], i: usize) -> (r: u32)
    requires
        i + 4 <= s.len(),
    ensures
        r == le32_at(s@, i as int),
{
    (s[i] as u32) | ((s[i + 1] as u32) << 8u32) | ((s[i + 2] as u32) << 16u32) | ((s[i + 3] as u32)
        << 24u32)
}

/// Reads the little-endian 64-bit word at `i`.
pub fn read_le64(s: &[u8], i: usize) -> (r: u64)
    requires
        i + 8 <= s.len(),
    ensures
        r == le64_at(s@, i as int),
{
    (read_le32(s, i) as u64) | ((read_le32(s, i + 4) as u64) << 32u64)
}

/// Hash of the content of `s` at position `i`.
pub fn hash_position(s: &[u8], i: usize, table_type: TableType) -> (h: u32)
    requires
        i + 8 <= s.len(),
    ensures
        h == spec_hash_position(s@, i as int, table_type),
        h < (if table_type == TableType::ByU16 { 8192u32 } else { 4096u32 }),
{
    if table_type != TableType::ByU16 {
        hash5(read_le64(s, i), table_type)
    } else {
        hash4(read_le32(s, i), table_type)
    }
}

/// Number of low-order zero bytes of a non-zero word.
pub fn nb_common_bytes(val: usize) -> (r: u32)
    requires
        val != 0,
    ensures
        r == u64_trailing_zeros(val as u64) / 8,
        r < 8,
{
    broadcast use vstd::std_specs::bits::axiom_u64_trailing_zeros;
    let v = val as u64;
    assert(v != 0);
    let t = v.trailing_zeros();
    assert(t < 64);
    assert(t >> 3u32 == t / 8) by (bit_vector);
    t >> 3u32
}

/// Compression state: the hash table of the encoder, the content preceding
/// the next input, and the index of the next input's first byte.
///
/// Entries of the hash table are indices; index `current_offset` denotes the
/// first byte of the next input, and the bytes of `dictionary` carry the
/// indices just below it.
pub struct StreamStateInternal {
    /// Hash table: 4096 entries are used for 32-bit indices, 8192 for 16-bit ones.
    pub hash_table: Vec<u32>,
    /// The last (at most 64 KiB) bytes of the content preceding the next input.
    pub dictionary: Vec<u8>,
    /// Length of the content preceding the next input, which may exceed what
    /// `dictionary` keeps of it.
    pub dict_size: u32,
    /// Index of the next input's first byte.
    pub current_offset: u32,
    /// Stored number of the table type that the entries were written with.
    pub table_type: u32,
    /// An attached dictionary state whose table is consulted for the content
    /// preceding the input.
    pub dict_ctx: Option<Box<StreamStateInternal>>,
}

impl StreamStateInternal {
    /// A state is well formed when its table has all its slots and its
    /// dictionary is no longer than the format's window.
    pub open spec fn wf(&self) -> bool {
        &&& self.hash_table@.len() == HASH_SLOTS
        &&& self.dictionary@.len() <= 65536
        &&& match self.dict_ctx {
            Some(d) => d.hash_table@.len() == HASH_SLOTS && d.dictionary@.len() <= 65536
                && d.dict_ctx is None,
            None => true,
        }
    }

    /// A zero-initialised state: an empty table, no dictionary, offset 0.
    pub open spec fn is_fresh(&self) -> bool {
        &&& self.wf()
        &&& forall|i: int| 0 <= i < self.hash_table@.len() ==> self.hash_table@[i] == 0
        &&& self.dictionary@.len() == 0
        &&& self.dict_size == 0
        &&& self.current_offset == 0
        &&& self.table_type == 0
        &&& self.dict_ctx is None
    }

    /// Create a zero-initialised state.
    pub fn new() -> (s: Self)
        ensures
            s.is_fresh(),
    {
        StreamStateInternal {
            hash_table: vec![0u32; HASH_SLOTS],
            dictionary: Vec::new(),
            dict_size: 0,
            current_offset: 0,
            table_type: 0,
            dict_ctx: None,
        }
    }
}

/// Whether preparing a table of type `t` for an input of `input_size` bytes
/// must clear the table first.
pub open spec fn needs_reset(s: &StreamStateInternal, input_size: int, t: TableType) -> bool {
    let cur = table_type_of(s.table_type);
    &&& cur != TableType::ClearedTable
    &&& {
        ||| cur != t
        ||| (t == TableType::ByU16 && s.current_offset + input_size >= 0xFFFF)
        ||| (t == TableType::ByU32 && s.current_offset > GB)
        ||| t == TableType::ByPtr
        ||| input_size >= 4096
    }
}

/// Prepares the state for compressing an input of `input_size` bytes with a
/// table of type `table_type`: clears the table when its entries cannot be
/// reused, leaves a 64 KiB gap after earlier 32-bit entries, and forgets the
/// history.
pub fn prepare_table(cctx: &mut StreamStateInternal, input_size: i32, table_type: TableType)
    requires
        old(cctx).wf(),
        input_size >= 0,
    ensures
        final(cctx).wf(),
        final(cctx).dict_ctx is None,
        final(cctx).dictionary@.len() == 0,
        final(cctx).dict_size == 0,
        needs_reset(old(cctx), input_size as int, table_type) ==> {
            &&& forall|i: int| 0 <= i < HASH_SLOTS ==> final(cctx).hash_table@[i] == 0
            &&& final(cctx).table_type == 0
            &&& final(cctx).current_offset == 0
        },
        !needs_reset(old(cctx), input_size as int, table_type) ==> {
            &&& final(cctx).hash_table@ == old(cctx).hash_table@
            &&& final(cctx).table_type == old(cctx).table_type
            &&& final(cctx).current_offset == (old(cctx).current_offset + (if old(
                cctx,
            ).current_offset != 0 && table_type == TableType::ByU32 {
                65536int
            } else {
                0int
            })) % 0x1_0000_0000
        },
{
    let current_type = TableType::from(cctx.table_type);
    if current_type != TableType::ClearedTable {
        let need_reset = current_type != table_type || (table_type == TableType::ByU16 && (
        cctx.current_offset as u64) + (input_size as u64) >= 0xFFFFu64) || (table_type
            == TableType::ByU32 && cctx.current_offset > (GB as u32)) || table_type
            == TableType::ByPtr || input_size >= (4 * KB) as i32;
        if need_reset {
            cctx.hash_table = vec![0u32; HASH_SLOTS];
            cctx.current_offset = 0;
            cctx.table_type = 0;
        }
    }
    if cctx.current_offset != 0 && table_type == TableType::ByU32 {
        cctx.current_offset = cctx.current_offset.wrapping_add((64 * KB) as u32);
    }
    cctx.dict_ctx = None;
    cctx.dictionary = Vec::new();
    cctx.dict_size = 0;
}

} // verus!
