//! LZ4 block compression: the encoder and the one-shot entry points.
//!
//! The encoder works on a window `w`: the content that precedes the input
//! (a dictionary, possibly empty) followed by the input itself, the input
//! starting at `start`.  It finds back-references with a hash table, and
//! writes a series of sequences followed by a final literal run.
//!
//! Every accepted match is checked against the window's bytes, so whatever
//! the hash table holds, the output decodes, with the window's first
//! `start` bytes as dictionary, to the input it covers (`lemma_decode_encoded`).

use vstd::prelude::*;
use crate::block::spec::{
    content_len, enc_last, enc_seq, enc_seqs, len_ext, length_field_max, lit_ext, lz4_decode,
    match_ext, seq_valid, seqs_valid, token_of, SeqRec,
};
use crate::block::lemmas::{lemma_decode_encoded, lemma_len_ext_len};
use crate::block::types::{
    hash_position, le32_at, needs_reset, prepare_table, read_le32, spec_hash_position, table_type_code,
    table_type_code_of, table_type_of, DictDirective, LimitedOutputDirective, StreamStateInternal,
    TableType, HASH_SLOTS, LZ4_64KLIMIT, LZ4_MIN_LENGTH, GB,
};

verus! {

/// Largest input a block can describe (2 113 929 216 bytes).
pub const LZ4_MAX_INPUT_SIZE: u32 = 2113929216;

/// Default acceleration: every position is tried.
pub const LZ4_ACCELERATION_DEFAULT: i32 = 1;

/// Largest acceleration factor.
pub const LZ4_ACCELERATION_MAX: i32 = 65537;

/// Errors of the block compressor.
#[derive(Debug, Clone, Copy, PartialEq, Eq, Structural)]
pub enum Lz4Error {
    /// The output buffer is too small to hold the compressed data.
    OutputTooSmall,
    /// The input exceeds `LZ4_MAX_INPUT_SIZE`.
    InputTooLarge,
}

/// Worst-case size of a block holding `n` input bytes; 0 when `n` is out of
/// range.
pub open spec fn bound_of(n: int) -> int {
    if n < 0 || n > LZ4_MAX_INPUT_SIZE {
        0
    } else {
        n + n / 255 + 16
    }
}

/// Worst-case compressed size for a given input size, or 0 when the size is
/// negative or larger than `LZ4_MAX_INPUT_SIZE`.
pub fn compress_bound(input_size: i32) -> (r: i32)
    ensures
        r == bound_of(input_size as int),
{
    if input_size < 0 || (input_size as u32) > LZ4_MAX_INPUT_SIZE {
        0
    } else {
        input_size + (input_size / 255) + 16
    }
}

/// The `len` bytes at `p` repeat the bytes at `m`.
pub open spec fn same_bytes(w: Seq<u8>, p: int, m: int, len: int) -> bool {
    forall|i: int| 0 <= i < len ==> #[trigger] w[p + i] == w[m + i]
}

/// How many bytes from `p` on, before `limit`, equal those from `m` on.
pub open spec fn count_spec(w: Seq<u8>, p: int, m: int, limit: int) -> nat
    decreases limit - p,
{
    if p < limit && w[m] == w[p] {
        1 + count_spec(w, p + 1, m + 1, limit)
    } else {
        0
    }
}

/// Number of bytes from `p` and `m` on that agree, stopping at `limit`.
fn count(w: &[u8], p: usize, m: usize, limit: usize) -> (c: usize)
    requires
        limit <= w@.len(),
        p <= limit ==> m + (limit - p) <= w@.len(),
    ensures
        c == count_spec(w@, p as int, m as int, limit as int),
        p <= limit ==> p + c <= limit,
        p > limit ==> c == 0,
        same_bytes(w@, p as int, m as int, c as int),
        p + c < limit ==> w@[p + c] != w@[m + c],
{
    if p > limit {
        return 0;
    }
    let mut c: usize = 0;
    let len: usize = w.len();
    while p + c < limit && w[m + c] == w[p + c]
        invariant
            len == w@.len(),
            m + (limit - p) <= w@.len(),
            p <= limit <= w@.len(),
            p + c <= limit,
            same_bytes(w@, p as int, m as int, c as int),
            count_spec(w@, p as int, m as int, limit as int) == c + count_spec(
                w@,
                p + c,
                m + c,
                limit as int,
            ),
        decreases limit - (p + c),
    {
        proof {
            assert forall|i: int| 0 <= i < c + 1 implies #[trigger] w@[p + i] == w@[m + i] by {
                if i < c {
                    assert(w@[p + i] == w@[m + i]);
                }
            }
        }
        c = c + 1;
    }
    c
}

/// `a` and `b` hold the same bytes from position `x` on.
pub open spec fn kept_from(a: Seq<u8>, b: Seq<u8>, x: int) -> bool {
    &&& a.len() == b.len()
    &&& forall|i: int| x <= i < a.len() ==> #[trigger] a[i] == b[i]
}

/// Bytes kept from `x` on, then from `y >= x` on, are kept from `y` on.
proof fn lemma_kept_trans(a: Seq<u8>, b: Seq<u8>, c: Seq<u8>, x: int, y: int)
    requires
        kept_from(b, a, x),
        kept_from(c, b, y),
        x <= y,
    ensures
        kept_from(c, a, y),
{
    assert forall|i: int| y <= i < c.len() implies #[trigger] c[i] == a[i] by {
        assert(c[i] == b[i]);
        assert(b[i] == a[i]);
    }
}

/// Writes the extension bytes of a length field holding `v` at `op`.
fn write_len_ext(dst: &mut [u8], op: usize, v: usize) -> (op2: usize)
    requires
        op + v / 255 + 1 <= old(dst)@.len(),
    ensures
        final(dst)@.len() == old(dst)@.len(),
        op2 == op + len_ext(v as nat).len(),
        final(dst)@.subrange(0, op2 as int) == old(dst)@.subrange(0, op as int) + len_ext(
            v as nat,
        ),
        kept_from(final(dst)@, old(dst)@, op2 as int),
{
    let ghost before = dst@;
    proof {
        lemma_len_ext_len(v as nat);
    }
    let mut o = op;
    let mut rem = v;
    while rem >= 255
        invariant
            op <= o,
            o - op + rem / 255 == v / 255,
            o + rem / 255 + 1 <= dst@.len(),
            dst@.len() == before.len(),
            before.subrange(0, op as int) + len_ext(v as nat) == dst@.subrange(0, o as int)
                + len_ext(rem as nat),
            kept_from(dst@, before, o as int),
        decreases rem,
    {
        let ghost prev = dst@;
        dst[o] = 255u8;
        proof {
            assert(len_ext(rem as nat) == seq![255u8] + len_ext((rem - 255) as nat));
            assert(dst@.subrange(0, o + 1) =~= prev.subrange(0, o as int) + seq![255u8]);
            assert(dst@.subrange(0, o + 1) + len_ext((rem - 255) as nat) =~= prev.subrange(
                0,
                o as int,
            ) + len_ext(rem as nat));
        }
        o = o + 1;
        rem = rem - 255;
    }
    let ghost prev = dst@;
    dst[o] = rem as u8;
    proof {
        assert(len_ext(rem as nat) == seq![rem as u8]);
        assert(dst@.subrange(0, o + 1) =~= prev.subrange(0, o as int) + seq![rem as u8]);
        lemma_len_ext_len(rem as nat);
        assert(o + 1 == op + len_ext(v as nat).len()) by {
            assert((before.subrange(0, op as int) + len_ext(v as nat)).len() == (prev.subrange(
                0,
                o as int,
            ) + len_ext(rem as nat)).len());
        }
    }
    o + 1
}

/// Writes `len` bytes of `w` from `from` at `op`.
fn write_bytes(dst: &mut [u8], op: usize, w: &[u8], from: usize, len: usize)
    requires
        op + len <= old(dst)@.len(),
        from + len <= w@.len(),
    ensures
        final(dst)@.len() == old(dst)@.len(),
        final(dst)@.subrange(0, op + len) == old(dst)@.subrange(0, op as int) + w@.subrange(
            from as int,
            from + len,
        ),
        kept_from(final(dst)@, old(dst)@, op + len),
{
    let ghost before = dst@;
    let dl = dst.len();
    let wl = w.len();
    let mut k: usize = 0;
    while k < len
        invariant
            k <= len,
            dl == dst@.len(),
            wl == w@.len(),
            op + len <= dst@.len(),
            from + len <= w@.len(),
            dst@.len() == before.len(),
            forall|j: int| 0 <= j < op ==> dst@[j] == before[j],
            forall|j: int| 0 <= j < k ==> #[trigger] dst@[op + j] == w@[from + j],
            kept_from(dst@, before, op + k),
        decreases len - k,
    {
        dst[op + k] = w[from + k];
        k = k + 1;
    }
    proof {
        assert forall|i: int| op <= i < op + len implies dst@[i] == w@[from + (i - op)] by {
            assert(dst@[op + (i - op)] == w@[from + (i - op)]);
        }
        assert(dst@.subrange(0, op + len) =~= before.subrange(0, op as int) + w@.subrange(
            from as int,
            from + len,
        ));
    }
}

/// Token byte of a sequence with `ll` literals and match code `mc`.
fn token_byte(ll: usize, mc: usize) -> (t: u8)
    ensures
        t == token_of(ll as nat, mc as nat),
{
    let hi: usize = if ll >= 15 {
        15
    } else {
        ll
    };
    let lo: usize = if mc >= 15 {
        15
    } else {
        mc
    };
    (hi * 16 + lo) as u8
}

/// Largest window the encoder works on: a 64 KiB dictionary and the largest input.
pub open spec fn window_max() -> int {
    LZ4_MAX_INPUT_SIZE + 65536
}

/// What a table slot holds for the index `idx`: its low 16 bits in 16-bit
/// tables, else the index itself.
pub open spec fn slot_value(idx: u32, table_type: TableType) -> u32 {
    if table_type == TableType::ByU16 {
        idx & 0xFFFFu32
    } else {
        idx
    }
}

/// The window position that the table entry `idx` (for a table whose index
/// `base_index` denotes window position `start`) names for a match at `p`,
/// when it lies before `p` and within the format's reach of it.
pub open spec fn window_pos_spec(idx: u32, base_index: u32, start: int, p: int) -> Option<int> {
    let x = idx - base_index + start;
    if 0 <= x < p && p - x <= 65535 {
        Some(x)
    } else {
        None
    }
}

/// The match candidate for position `p` hashed to slot `h`: from the
/// dictionary's table when the slot's entry lies before the input and a
/// dictionary state is attached, else from the table itself.
pub open spec fn candidate_spec(
    table: Seq<u32>,
    dict_table: Seq<u32>,
    h: int,
    start: int,
    start_index: u32,
    dict_index: u32,
    use_dict_ctx: bool,
    p: int,
) -> Option<int> {
    let idx = table[h];
    if use_dict_ctx && idx < start_index {
        window_pos_spec(dict_table[h], dict_index, start, p)
    } else {
        window_pos_spec(idx, start_index, start, p)
    }
}

/// The candidate `c` is a match for `p`: their first four bytes agree.
pub open spec fn confirmed(w: Seq<u8>, c: Option<int>, p: int) -> Option<int> {
    match c {
        Some(m) => if le32_at(w, m) == le32_at(w, p) {
            Some(m)
        } else {
            None
        },
        None => None,
    }
}

/// The match search from `fwd` on, `step` and `nb` being the skip state:
/// each position is hashed, its slot gives a candidate and then takes the
/// position's index; the search stops at the first candidate whose bytes
/// agree, or when the next position would be too close to the end.  Gives
/// the match found (position, candidate) and the table after the search.
pub open spec fn search_spec(
    table: Seq<u32>,
    dict_table: Seq<u32>,
    w: Seq<u8>,
    start: int,
    start_index: u32,
    dict_index: u32,
    table_type: TableType,
    use_dict_ctx: bool,
    fwd: int,
    step: int,
    nb: int,
) -> (Option<(int, int)>, Seq<u32>)
    decreases w.len() - fwd,
    when step >= 1 && nb >= 64
{
    let ip = fwd;
    let h = spec_hash_position(w, ip, table_type) as int;
    let fwd2 = ip + step;
    if fwd2 > w.len() - 11 {
        (None, table)
    } else {
        let cand = candidate_spec(table, dict_table, h, start, start_index, dict_index, use_dict_ctx, ip);
        let t2 = table.update(h, slot_value((start_index + (ip - start)) as u32, table_type));
        match confirmed(w, cand, ip) {
            Some(m) => (Some((ip, m)), t2),
            None => search_spec(
                t2,
                dict_table,
                w,
                start,
                start_index,
                dict_index,
                table_type,
                use_dict_ctx,
                fwd2,
                nb / 64,
                nb + 1,
            ),
        }
    }
}

/// The sequences found from the match `(p, m)` on, whose literals start at
/// `anchor`, appended to `s` (outside fill mode): the match is counted out,
/// and when the block's end is not near, `p`'s end is probed for a match
/// that follows right away.  Gives the sequences, the new anchor, where the
/// search goes on (`None`: near the block's end) and the table.
pub open spec fn chain_spec(
    table: Seq<u32>,
    dict_table: Seq<u32>,
    w: Seq<u8>,
    start: int,
    start_index: u32,
    dict_index: u32,
    table_type: TableType,
    ext_dict: bool,
    use_dict_ctx: bool,
    s: Seq<SeqRec>,
    anchor: int,
    p: int,
    m: int,
) -> (Seq<SeqRec>, int, Option<int>, Seq<u32>)
    decreases w.len() - p,
{
    let c = ml_spec(w, start, p, m, ext_dict);
    let s2 = s.push(SeqRec { ll: (p - anchor) as nat, off: (p - m) as nat, ml: (c + 4) as nat });
    let ipe = p + 4 + c;
    if ipe >= w.len() - 11 {
        (s2, ipe, None, table)
    } else {
        let t1 = table.update(
            spec_hash_position(w, ipe - 2, table_type) as int,
            slot_value((start_index + (ipe - 2 - start)) as u32, table_type),
        );
        let h = spec_hash_position(w, ipe, table_type) as int;
        let cand = candidate_spec(t1, dict_table, h, start, start_index, dict_index, use_dict_ctx, ipe);
        let t2 = t1.update(h, slot_value((start_index + (ipe - start)) as u32, table_type));
        match confirmed(w, cand, ipe) {
            Some(m2) => chain_spec(
                t2,
                dict_table,
                w,
                start,
                start_index,
                dict_index,
                table_type,
                ext_dict,
                use_dict_ctx,
                s2,
                ipe,
                ipe,
                m2,
            ),
            None => (s2, ipe, Some(ipe + 1), t2),
        }
    }
}

/// The sequences of the block from the anchor `anchor` on (outside fill
/// mode), appended to `s`: a match is searched from `anchor + 1`, extended
/// backwards, and the sequences from it on are taken; then again from
/// their end.  Gives the sequences, the final anchor and the table.
pub open spec fn seqs_loop_spec(
    table: Seq<u32>,
    dict_table: Seq<u32>,
    w: Seq<u8>,
    start: int,
    start_index: u32,
    dict_index: u32,
    table_type: TableType,
    ext_dict: bool,
    use_dict_ctx: bool,
    acceleration: int,
    s: Seq<SeqRec>,
    anchor: int,
) -> (Seq<SeqRec>, int, Seq<u32>)
    decreases w.len() - anchor,
{
    let found = search_spec(
        table,
        dict_table,
        w,
        start,
        start_index,
        dict_index,
        table_type,
        use_dict_ctx,
        anchor + 1,
        1,
        acceleration * 64,
    );
    match found.0 {
        None => (s, anchor, found.1),
        Some((p, m)) => {
            let low = if ext_dict && m >= start {
                start
            } else {
                0
            };
            let back = catch_spec(w, p, m, anchor, low);
            let ch = chain_spec(
                found.1,
                dict_table,
                w,
                start,
                start_index,
                dict_index,
                table_type,
                ext_dict,
                use_dict_ctx,
                s,
                anchor,
                back.0,
                back.1,
            );
            // Each round moves the anchor forward (the chain ends past it).
            if ch.2 is Some && anchor < ch.1 <= w.len() {
                seqs_loop_spec(
                    ch.3,
                    dict_table,
                    w,
                    start,
                    start_index,
                    dict_index,
                    table_type,
                    ext_dict,
                    use_dict_ctx,
                    acceleration,
                    ch.0,
                    ch.1,
                )
            } else {
                (ch.0, ch.1, ch.3)
            }
        },
    }
}

/// The sequences of the block compressed from `w[start..]` (outside fill
/// mode), its final anchor and the table after it: inputs shorter than
/// `LZ4_MIN_LENGTH` get none; else the first position is indexed and the
/// search starts right after it.
pub open spec fn block_seqs_spec(
    table: Seq<u32>,
    dict_table: Seq<u32>,
    w: Seq<u8>,
    start: int,
    start_index: u32,
    dict_index: u32,
    table_type: TableType,
    ext_dict: bool,
    use_dict_ctx: bool,
    acceleration: int,
) -> (Seq<SeqRec>, int, Seq<u32>) {
    if w.len() - start < LZ4_MIN_LENGTH {
        (Seq::empty(), start, table)
    } else {
        seqs_loop_spec(
            table.update(
                spec_hash_position(w, start, table_type) as int,
                slot_value(start_index, table_type),
            ),
            dict_table,
            w,
            start,
            start_index,
            dict_index,
            table_type,
            ext_dict,
            use_dict_ctx,
            acceleration,
            Seq::empty(),
            start,
        )
    }
}

/// The block compressed from `w[start..]` (outside fill mode): its
/// sequences, then the rest of the input as the final literal run.
#[verifier::opaque]
pub open spec fn block_spec(
    table: Seq<u32>,
    dict_table: Seq<u32>,
    w: Seq<u8>,
    start: int,
    start_index: u32,
    dict_index: u32,
    table_type: TableType,
    ext_dict: bool,
    use_dict_ctx: bool,
    acceleration: int,
) -> Seq<u8> {
    let b = block_seqs_spec(
        table,
        dict_table,
        w,
        start,
        start_index,
        dict_index,
        table_type,
        ext_dict,
        use_dict_ctx,
        acceleration,
    );
    enc_seqs(w, start, b.0) + enc_last(w, b.1, (w.len() - b.1) as nat)
}

/// Whether, in limited mode with `dlen` bytes of output, the room checks
/// pass for the sequences `chain_spec` takes from the match `(p, m)` on
/// (the sequences `s` being written already): before the first of a chain
/// (`first`), room for its literals; before each match, room for its
/// offset and length bytes.
pub open spec fn chain_fits(
    table: Seq<u32>,
    dict_table: Seq<u32>,
    w: Seq<u8>,
    start: int,
    start_index: u32,
    dict_index: u32,
    table_type: TableType,
    ext_dict: bool,
    use_dict_ctx: bool,
    s: Seq<SeqRec>,
    anchor: int,
    p: int,
    m: int,
    first: bool,
    dlen: int,
) -> bool
    decreases w.len() - p,
{
    let tok = enc_seqs(w, start, s).len() as int;
    let ll = p - anchor;
    let c = ml_spec(w, start, p, m, ext_dict);
    let op = tok + 1 + lit_ext(ll as nat).len() + ll;
    let s2 = s.push(SeqRec { ll: ll as nat, off: (p - m) as nat, ml: (c + 4) as nat });
    let ipe = p + 4 + c;
    &&& (first ==> dlen - tok >= 9 + ll + ll / 255)
    &&& dlen - (op + 2) >= 6 + (c + 240) / 255
    &&& (ipe < w.len() - 11 ==> {
        let t1 = table.update(
            spec_hash_position(w, ipe - 2, table_type) as int,
            slot_value((start_index + (ipe - 2 - start)) as u32, table_type),
        );
        let h = spec_hash_position(w, ipe, table_type) as int;
        let cand = candidate_spec(t1, dict_table, h, start, start_index, dict_index, use_dict_ctx, ipe);
        let t2 = t1.update(h, slot_value((start_index + (ipe - start)) as u32, table_type));
        match confirmed(w, cand, ipe) {
            Some(m2) => chain_fits(t2, dict_table, w, start, start_index, dict_index, table_type, ext_dict, use_dict_ctx, s2, ipe, ipe, m2, false, dlen),
            None => true,
        }
    })
}

/// Whether, in limited mode with `dlen` bytes of output, the room checks
/// pass for the sequences `seqs_loop_spec` finds from `anchor` on.
pub open spec fn seqs_fits(
    table: Seq<u32>,
    dict_table: Seq<u32>,
    w: Seq<u8>,
    start: int,
    start_index: u32,
    dict_index: u32,
    table_type: TableType,
    ext_dict: bool,
    use_dict_ctx: bool,
    acceleration: int,
    s: Seq<SeqRec>,
    anchor: int,
    dlen: int,
) -> bool
    decreases w.len() - anchor,
{
    let found = search_spec(
        table,
        dict_table,
        w,
        start,
        start_index,
        dict_index,
        table_type,
        use_dict_ctx,
        anchor + 1,
        1,
        acceleration * 64,
    );
    match found.0 {
        None => true,
        Some((p, m)) => {
            let low = if ext_dict && m >= start {
                start
            } else {
                0
            };
            let back = catch_spec(w, p, m, anchor, low);
            let ch = chain_spec(found.1, dict_table, w, start, start_index, dict_index, table_type, ext_dict, use_dict_ctx, s, anchor, back.0, back.1);
            &&& chain_fits(found.1, dict_table, w, start, start_index, dict_index, table_type, ext_dict, use_dict_ctx, s, anchor, back.0, back.1, true, dlen)
            &&& (ch.2 is Some && anchor < ch.1 <= w.len() ==> seqs_fits(
                ch.3,
                dict_table, w, start, start_index, dict_index, table_type, ext_dict, use_dict_ctx,
                acceleration,
                ch.0,
                ch.1,
                dlen,
            ))
        },
    }
}

/// Whether, in limited mode with `dlen` bytes of output, the room checks
/// pass for the sequences of `block_seqs_spec`.
pub open spec fn block_seqs_fit(
    table: Seq<u32>,
    dict_table: Seq<u32>,
    w: Seq<u8>,
    start: int,
    start_index: u32,
    dict_index: u32,
    table_type: TableType,
    ext_dict: bool,
    use_dict_ctx: bool,
    acceleration: int,
    dlen: int,
) -> bool {
    w.len() - start < LZ4_MIN_LENGTH || seqs_fits(
        table.update(
            spec_hash_position(w, start, table_type) as int,
            slot_value(start_index, table_type),
        ),
        dict_table, w, start, start_index, dict_index, table_type, ext_dict, use_dict_ctx,
        acceleration,
        Seq::empty(),
        start,
        dlen,
    )
}

/// Whether the block of `block_spec` is written in limited mode with `dlen`
/// bytes of output: the room checks pass for its sequences and for its
/// final literal run.
#[verifier::opaque]
pub open spec fn block_fits(
    table: Seq<u32>,
    dict_table: Seq<u32>,
    w: Seq<u8>,
    start: int,
    start_index: u32,
    dict_index: u32,
    table_type: TableType,
    ext_dict: bool,
    use_dict_ctx: bool,
    acceleration: int,
    dlen: int,
) -> bool {
    let b = block_seqs_spec(table, dict_table, w, start, start_index, dict_index, table_type, ext_dict, use_dict_ctx, acceleration);
    let op = enc_seqs(w, start, b.0).len() as int;
    let full = w.len() - b.1;
    &&& block_seqs_fit(table, dict_table, w, start, start_index, dict_index, table_type, ext_dict, use_dict_ctx, acceleration, dlen)
    &&& dlen - op >= 1 + full + (full + 240) / 255
}

/// The table `t` with the slots of the positions `q ..= last` of `w`
/// cleared, in order.
pub open spec fn cleared_spec(t: Seq<u32>, w: Seq<u8>, table_type: TableType, q: int, last: int) -> Seq<u32>
    decreases last + 1 - q,
{
    if q <= last {
        cleared_spec(t.update(spec_hash_position(w, q, table_type) as int, 0u32), w, table_type, q + 1, last)
    } else {
        t
    }
}

/// In fill mode with `dlen` bytes of output, the sequences taken from the
/// match `(p, m)` on (as `chain_spec`): the chain stops before a sequence
/// whose literals (for the first of the chain, with room for a final run)
/// or whose offset would not fit; a match whose length bytes would not fit
/// is cut to what does, and the slots of the positions it gives back (up to
/// `filled`, the chain's first position) are cleared.
pub open spec fn fill_chain_spec(
    table: Seq<u32>,
    dict_table: Seq<u32>,
    w: Seq<u8>,
    start: int,
    start_index: u32,
    dict_index: u32,
    table_type: TableType,
    ext_dict: bool,
    use_dict_ctx: bool,
    s: Seq<SeqRec>,
    anchor: int,
    p: int,
    m: int,
    first: bool,
    dlen: int,
    filled: int,
) -> (Seq<SeqRec>, int, Option<int>, Seq<u32>)
    decreases w.len() - p,
{
    let tok = enc_seqs(w, start, s).len() as int;
    let ll = p - anchor;
    let op = tok + 1 + lit_ext(ll as nat).len() + ll;
    if (first && dlen - tok < 12 + (ll + 240) / 255 + ll) || dlen - op < 11 {
        (s, anchor, None, table)
    } else {
        let c0 = ml_spec(w, start, p, m, ext_dict) as int;
        let op3 = op + 2;
        let short = 14 + (dlen - op3 - 6) * 255;
        let cut = dlen - op3 < 6 + (c0 + 240) / 255 && short < c0;
        let c = if cut {
            short
        } else {
            c0
        };
        let t0 = if cut && p + 4 + c <= filled {
            cleared_spec(table, w, table_type, p + 4 + c, filled)
        } else {
            table
        };
        let s2 = s.push(SeqRec { ll: ll as nat, off: (p - m) as nat, ml: (c + 4) as nat });
        let ipe = p + 4 + c;
        if ipe >= w.len() - 11 {
            (s2, ipe, None, t0)
        } else {
            let t1 = t0.update(
                spec_hash_position(w, ipe - 2, table_type) as int,
                slot_value((start_index + (ipe - 2 - start)) as u32, table_type),
            );
            let h = spec_hash_position(w, ipe, table_type) as int;
            let cand = candidate_spec(t1, dict_table, h, start, start_index, dict_index, use_dict_ctx, ipe);
            let t2 = t1.update(h, slot_value((start_index + (ipe - start)) as u32, table_type));
            match confirmed(w, cand, ipe) {
                Some(m2) => fill_chain_spec(t2, dict_table, w, start, start_index, dict_index, table_type, ext_dict, use_dict_ctx, s2, ipe, ipe, m2, false, dlen, filled),
                None => (s2, ipe, Some(ipe + 1), t2),
            }
        }
    }
}

/// In fill mode with `dlen` bytes of output, the sequences found from
/// `anchor` on (as `seqs_loop_spec`, each chain as `fill_chain_spec`).
pub open spec fn fill_seqs_spec(
    table: Seq<u32>,
    dict_table: Seq<u32>,
    w: Seq<u8>,
    start: int,
    start_index: u32,
    dict_index: u32,
    table_type: TableType,
    ext_dict: bool,
    use_dict_ctx: bool,
    acceleration: int,
    s: Seq<SeqRec>,
    anchor: int,
    dlen: int,
) -> (Seq<SeqRec>, int, Seq<u32>)
    decreases w.len() - anchor,
{
    let found = search_spec(
        table,
        dict_table,
        w,
        start,
        start_index,
        dict_index,
        table_type,
        use_dict_ctx,
        anchor + 1,
        1,
        acceleration * 64,
    );
    match found.0 {
        None => (s, anchor, found.1),
        Some((p, m)) => {
            let low = if ext_dict && m >= start {
                start
            } else {
                0
            };
            let back = catch_spec(w, p, m, anchor, low);
            let ch = fill_chain_spec(found.1, dict_table, w, start, start_index, dict_index, table_type, ext_dict, use_dict_ctx, s, anchor, back.0, back.1, true, dlen, back.0);
            if ch.2 is Some && anchor < ch.1 <= w.len() {
                fill_seqs_spec(ch.3, dict_table, w, start, start_index, dict_index, table_type, ext_dict, use_dict_ctx, acceleration, ch.0, ch.1, dlen)
            } else {
                (ch.0, ch.1, ch.3)
            }
        },
    }
}

/// In fill mode with `dlen` bytes of output, the sequences of the block
/// compressed from `w[start..]`, its final anchor and the table.
pub open spec fn fill_block_seqs_spec(
    table: Seq<u32>,
    dict_table: Seq<u32>,
    w: Seq<u8>,
    start: int,
    start_index: u32,
    dict_index: u32,
    table_type: TableType,
    ext_dict: bool,
    use_dict_ctx: bool,
    acceleration: int,
    dlen: int,
) -> (Seq<SeqRec>, int, Seq<u32>) {
    if w.len() - start < LZ4_MIN_LENGTH {
        (Seq::empty(), start, table)
    } else {
        fill_seqs_spec(
            table.update(
                spec_hash_position(w, start, table_type) as int,
                slot_value(start_index, table_type),
            ),
            dict_table, w, start, start_index, dict_index, table_type, ext_dict, use_dict_ctx,
            acceleration,
            Seq::empty(),
            start,
            dlen,
        )
    }
}

/// Length of the final literal run in fill mode, `op` bytes being written
/// and `full` bytes of input left: all of them when they fit, else as many
/// as the room left takes with their length bytes.
pub open spec fn fill_last_len(dlen: int, op: int, full: int) -> int {
    if dlen - op < 1 + full + (full + 240) / 255 {
        let l = dlen - op - 1;
        l - (l + 241) / 256
    } else {
        full
    }
}

/// In fill mode with `dlen` bytes of output, the block compressed from
/// `w[start..]` and how much of the input it covers.
#[verifier::opaque]
pub open spec fn fill_block(
    table: Seq<u32>,
    dict_table: Seq<u32>,
    w: Seq<u8>,
    start: int,
    start_index: u32,
    dict_index: u32,
    table_type: TableType,
    ext_dict: bool,
    use_dict_ctx: bool,
    acceleration: int,
    dlen: int,
) -> (Seq<u8>, int) {
    let b = fill_block_seqs_spec(table, dict_table, w, start, start_index, dict_index, table_type, ext_dict, use_dict_ctx, acceleration, dlen);
    let op = enc_seqs(w, start, b.0).len() as int;
    let lr = fill_last_len(dlen, op, w.len() - b.1);
    (enc_seqs(w, start, b.0) + enc_last(w, b.1, lr as nat), b.1 - start + lr)
}

/// Stores the index `idx` in slot `h`; 16-bit tables keep its low 16 bits.
fn put_index(table: &mut Vec<u32>, h: u32, idx: u32, table_type: TableType)
    requires
        old(table)@.len() == HASH_SLOTS,
        h < HASH_SLOTS,
    ensures
        final(table)@.len() == HASH_SLOTS,
        final(table)@ == old(table)@.update(h as int, slot_value(idx, table_type)),
{
    let v: u32 = if table_type == TableType::ByU16 {
        idx & 0xFFFFu32
    } else {
        idx
    };
    table.set(h as usize, v);
}

/// Window position of the entry `idx` of a table whose index `base_index`
/// denotes window position `start`, when it lies before `p` and within the
/// format's reach of it.
fn window_pos(idx: u32, base_index: u32, start: usize, p: usize) -> (r: Option<usize>)
    requires
        start <= p,
    ensures
        match r {
            Some(x) => window_pos_spec(idx, base_index, start as int, p as int) == Some(x as int),
            None => window_pos_spec(idx, base_index, start as int, p as int) is None,
        },
        match r {
            Some(x) => x == idx - base_index + start && x < p && p - x <= 65535,
            None => !(0 <= idx - base_index + start < p && p - (idx - base_index + start)
                <= 65535),
        },
{
    if idx >= base_index {
        let d = (idx - base_index) as usize;
        if d < p - start {
            let x = start + d;
            if p - x <= 65535 {
                return Some(x);
            }
        }
        None
    } else {
        let d = (base_index - idx) as usize;
        if d <= start {
            let x = start - d;
            if p - x <= 65535 {
                return Some(x);
            }
        }
        None
    }
}

/// Searches for a match from `ip0` on: each position is hashed, the table
/// gives a candidate and is updated with the position, and the search skips
/// ahead faster the longer it fails.  `None` when the search reaches the
/// last position where a match may start.
fn find_match(
    table: &mut Vec<u32>,
    dict_table: &[u32],
    w: &[u8],
    start: usize,
    start_index: u32,
    dict_index: u32,
    table_type: TableType,
    use_dict_ctx: bool,
    ip0: usize,
    acceleration: usize,
) -> (r: Option<(usize, usize)>)
    requires
        old(table)@.len() == HASH_SLOTS,
        use_dict_ctx ==> dict_table@.len() == HASH_SLOTS,
        start <= ip0,
        ip0 + 11 <= w@.len(),
        w@.len() <= window_max(),
        start_index + (w@.len() - start) <= u32::MAX,
        1 <= acceleration <= 65537,
    ensures
        final(table)@.len() == HASH_SLOTS,
        match r {
            Some((p, m)) => ip0 <= p && p + 12 <= w@.len() && m < p && p - m <= 65535
                && same_bytes(w@, p as int, m as int, 4),
            None => true,
        },
        ({
            let res = search_spec(
                old(table)@,
                dict_table@,
                w@,
                start as int,
                start_index,
                dict_index,
                table_type,
                use_dict_ctx,
                ip0 as int,
                1,
                acceleration * 64,
            );
            &&& final(table)@ == res.1
            &&& match r {
                Some((p, m)) => res.0 == Some((p as int, m as int)),
                None => res.0 is None,
            }
        }),
{
    let ghost goal = search_spec(
        table@,
        dict_table@,
        w@,
        start as int,
        start_index,
        dict_index,
        table_type,
        use_dict_ctx,
        ip0 as int,
        1,
        acceleration * 64,
    );
    let n = w.len();
    let mut fwd = ip0;
    let mut step: usize = 1;
    let mut nb: usize = acceleration * 64;
    loop
        invariant
            goal == search_spec(
                old(table)@,
                dict_table@,
                w@,
                start as int,
                start_index,
                dict_index,
                table_type,
                use_dict_ctx,
                ip0 as int,
                1,
                acceleration * 64,
            ),
            goal == search_spec(
                table@,
                dict_table@,
                w@,
                start as int,
                start_index,
                dict_index,
                table_type,
                use_dict_ctx,
                fwd as int,
                step as int,
                nb as int,
            ),
            n == w@.len(),
            table@.len() == HASH_SLOTS,
            use_dict_ctx ==> dict_table@.len() == HASH_SLOTS,
            start <= ip0 <= fwd,
            fwd + 11 <= n,
            n <= window_max(),
            start_index + (n - start) <= u32::MAX,
            1 <= acceleration <= 65537,
            1 <= step <= nb,
            64 <= nb <= acceleration * 64 + fwd,
        decreases n - fwd,
    {
        let ghost t0 = table@;
        let ghost here = search_spec(
            t0,
            dict_table@,
            w@,
            start as int,
            start_index,
            dict_index,
            table_type,
            use_dict_ctx,
            fwd as int,
            step as int,
            nb as int,
        );
        let ip = fwd;
        let h = hash_position(w, ip, table_type);
        let current = start_index + ((ip - start) as u32);
        let idx = table[h as usize];
        fwd = ip + step;
        step = nb >> 6u32;
        assert(nb >> 6u32 == nb / 64) by (bit_vector);
        nb = nb + 1;
        if fwd > n - 11 {
            assert(here == (None::<(int, int)>, t0));
            return None;
        }
        let cand = if use_dict_ctx && idx < start_index {
            let j = dict_table[h as usize];
            window_pos(j, dict_index, start, ip)
        } else {
            window_pos(idx, start_index, start, ip)
        };
        let ghost cs = candidate_spec(
            t0,
            dict_table@,
            h as int,
            start as int,
            start_index,
            dict_index,
            use_dict_ctx,
            ip as int,
        );
        assert(match cand {
            Some(x) => cs == Some(x as int),
            None => cs is None,
        });
        put_index(table, h, current, table_type);
        assert(current == (start_index + (ip - start)) as u32);
        if let Some(m) = cand {
            if read_le32(w, m) == read_le32(w, ip) {
                proof {
                    lemma_le32_eq(w@, ip as int, m as int);
                    assert(confirmed(w@, cs, ip as int) == Some(m as int));
                    assert(here == (Some((ip as int, m as int)), table@));
                }
                return Some((ip, m));
            }
        }
        assert(confirmed(w@, cs, ip as int) is None);
        assert(here == search_spec(
            table@,
            dict_table@,
            w@,
            start as int,
            start_index,
            dict_index,
            table_type,
            use_dict_ctx,
            fwd as int,
            step as int,
            nb as int,
        ));
    }
}

/// Equal little-endian words are equal bytes.
proof fn lemma_le32_eq(w: Seq<u8>, p: int, m: int)
    requires
        0 <= m,
        0 <= p,
        p + 4 <= w.len(),
        m + 4 <= w.len(),
        le32_at(w, p) == le32_at(w, m),
    ensures
        same_bytes(w, p, m, 4),
{
    let (a0, a1, a2, a3) = (w[p], w[p + 1], w[p + 2], w[p + 3]);
    let (b0, b1, b2, b3) = (w[m], w[m + 1], w[m + 2], w[m + 3]);
    assert(a0 == b0 && a1 == b1 && a2 == b2 && a3 == b3) by (bit_vector)
        requires
            (a0 as u32) | ((a1 as u32) << 8u32) | ((a2 as u32) << 16u32) | ((a3 as u32) << 24u32)
                == (b0 as u32) | ((b1 as u32) << 8u32) | ((b2 as u32) << 16u32) | ((b3 as u32)
                << 24u32),
    ;
    assert forall|i: int| 0 <= i < 4 implies #[trigger] w[p + i] == w[m + i] by {
        if i == 0 {
        } else if i == 1 {
        } else if i == 2 {
        } else {
        }
    }
}

/// Extends a match backwards while the preceding bytes agree, staying at or
/// after `anchor` in the input and at or after `low` in the window.
/// The match `(p, m)` extended backwards while the bytes before agree,
/// down to `anchor` for `p` and `low` for `m`.
pub open spec fn catch_spec(w: Seq<u8>, p: int, m: int, anchor: int, low: int) -> (int, int)
    decreases p - anchor,
{
    if p > anchor && m > low && w[p - 1] == w[m - 1] {
        catch_spec(w, p - 1, m - 1, anchor, low)
    } else {
        (p, m)
    }
}

fn catch_up(w: &[u8], p: usize, m: usize, anchor: usize, low: usize) -> (r: (usize, usize))
    requires
        low <= m < p,
        anchor <= p,
        p + 4 <= w@.len(),
        same_bytes(w@, p as int, m as int, 4),
    ensures
        (r.0 as int, r.1 as int) == catch_spec(w@, p as int, m as int, anchor as int, low as int),
        anchor <= r.0 <= p,
        low <= r.1,
        p - m == r.0 - r.1,
        same_bytes(w@, r.0 as int, r.1 as int, p - r.0 + 4),
{
    let mut ip = p;
    let mut mp = m;
    while ip > anchor && mp > low && w[ip - 1] == w[mp - 1]
        invariant
            catch_spec(w@, p as int, m as int, anchor as int, low as int) == catch_spec(
                w@,
                ip as int,
                mp as int,
                anchor as int,
                low as int,
            ),
            low <= mp < ip,
            anchor <= ip <= p,
            p - m == ip - mp,
            p + 4 <= w@.len(),
            same_bytes(w@, ip as int, mp as int, p - ip + 4),
        decreases ip,
    {
        proof {
            assert forall|i: int| 0 <= i < p - (ip - 1) + 4 implies #[trigger] w@[(ip - 1) + i]
                == w@[(mp - 1) + i] by {
                if i > 0 {
                    assert(w@[ip + (i - 1)] == w@[mp + (i - 1)]);
                }
            }
        }
        ip = ip - 1;
        mp = mp - 1;
    }
    (ip, mp)
}

/// Extension bytes of a length field above 15: `(v + 240) / 255` of them.
proof fn lemma_lit_ext_len(v: nat)
    ensures
        lit_ext(v).len() == (v + 240) / 255,
        match_ext(v + 4) == lit_ext(v),
{
    if v >= 15 {
        lemma_len_ext_len((v - 15) as nat);
        assert((v - 15) as int / 255 + 1 == (v + 240) / 255) by (nonlinear_arith)
            requires
                v >= 15,
        ;
    }
}

/// Floors of sums by 255.
proof fn lemma_floor_add(x: int, y: int)
    requires
        x >= 0,
        y >= 0,
    ensures
        x / 255 + y / 255 <= (x + y) / 255,
        (x + y) / 255 <= x / 255 + y / 255 + 1,
{
    assert(x / 255 + y / 255 <= (x + y) / 255) by (nonlinear_arith)
        requires
            x >= 0,
            y >= 0,
    ;
    assert((x + y) / 255 <= x / 255 + y / 255 + 1) by (nonlinear_arith)
        requires
            x >= 0,
            y >= 0,
    ;
}

/// Floors by 255 are monotone.
proof fn lemma_floor_mono(x: int, y: int)
    requires
        0 <= x <= y,
    ensures
        x / 255 <= y / 255,
{
    assert(x / 255 <= y / 255) by (nonlinear_arith)
        requires
            0 <= x <= y,
    ;
}

/// A sequence costs at most its content plus one byte in 255 of the content:
/// the output stays within `a + a / 255` after content `a`.
proof fn lemma_cost(a: int, tok: int, ll: nat, c: nat)
    requires
        0 <= a,
        0 <= tok <= a + a / 255,
    ensures
        tok + 1 + lit_ext(ll).len() + ll + 2 + lit_ext(c).len() <= (a + ll + c + 4) + (a + ll
            + c + 4) / 255,
{
    lemma_lit_ext_len(ll);
    lemma_lit_ext_len(c);
    lemma_floor_add(a, ll as int);
    lemma_floor_add(a + ll, c + 4int);
    lemma_floor_add(ll as int, 240);
    lemma_floor_add(c as int, 240);
    lemma_floor_mono(c as int, c + 4int);
    if ll < 15 {
        assert((ll + 240) / 255 == 0);
    } else {
        assert((ll + 240) / 255 <= ll / 255 + 1);
    }
    if c < 15 {
        assert((c + 240) / 255 == 0);
    }
}

/// The last literal run of a block, after content `a` written within the
/// cost bound, fits in `bound_of(n)` bytes.
proof fn lemma_last_room(a: int, op: int, n: int)
    requires
        0 <= a <= n,
        0 <= op <= a + a / 255,
    ensures
        op + (n - a) + 1 + ((n - a) + 240) / 255 <= n + n / 255 + 16,
{
    lemma_floor_add(a, n - a);
    lemma_floor_add(n - a, 240);
}

/// Shrinking the last literal run to a room of `room` bytes: the run and its
/// length field fit, the run is shorter than one that did not fit, and it is
/// long enough after a match when the room allows.
proof fn lemma_shrink(room: int, full: int)
    requires
        room >= 1,
        full >= 0,
        full + 1 + (full + 240) / 255 > room,
    ensures
        ({
            let l = room - 1;
            let lr = l - (l + 241) / 256;
            &&& 0 <= lr < full
            &&& lr + 1 + (lr + 240) / 255 <= room
            &&& room >= 9 ==> lr >= 8
            &&& room >= 6 ==> lr >= 5
        }),
{
    let l = room - 1;
    let k = (l + 241) / 256;
    let lr = l - k;
    assert(0 <= k <= l / 256 + 1) by (nonlinear_arith)
        requires
            l >= 0,
            k == (l + 241) / 256,
    ;
    assert(256 * k > l - 15) by (nonlinear_arith)
        requires
            l >= 0,
            k == (l + 241) / 256,
    ;
    assert((lr + 240) / 255 <= k) by (nonlinear_arith)
        requires
            256 * k > l - 15,
            lr == l - k,
            k >= 0,
    ;
    if l <= 14 {
        assert(k == 0);
    }
    assert(lr >= 0) by (nonlinear_arith)
        requires
            lr == l - k,
            0 <= k <= l / 256 + 1,
            l <= 14 ==> k == 0,
            l >= 0,
    ;
    if lr >= full {
        lemma_floor_mono(full + 240, lr + 240);
    }
    if room >= 9 {
        assert(lr >= 8) by (nonlinear_arith)
            requires
                lr == l - k,
                0 <= k <= l / 256 + 1,
                l >= 8,
                l <= 14 ==> k == 0,
        ;
    }
    if room >= 6 {
        assert(lr >= 5) by (nonlinear_arith)
            requires
                lr == l - k,
                0 <= k <= l / 256 + 1,
                l >= 5,
                l <= 14 ==> k == 0,
        ;
    }
}

/// A match cut to `14 + (space - 6) * 255` leaves exactly six bytes of room.
proof fn lemma_cut(space: int)
    requires
        space >= 6,
    ensures
        (14 + (space - 6) * 255 + 240) / 255 == space - 6,
{
    assert((14 + (space - 6) * 255 + 240) / 255 == space - 6) by (nonlinear_arith)
        requires
            space >= 6,
    ;
}

/// The first `op` bytes of `out` encode the sequences `s`, which cover the
/// window from `start` to `anchor`: each is faithful to the window, and the
/// output stays within one byte in 255 of the content it covers.
pub open spec fn written_ok(
    out: Seq<u8>,
    op: int,
    w: Seq<u8>,
    start: int,
    anchor: int,
    s: Seq<SeqRec>,
) -> bool {
    let a = anchor - start;
    &&& 0 <= start <= anchor <= w.len()
    &&& 0 <= op <= out.len()
    &&& out.subrange(0, op) == enc_seqs(w, start, s)
    &&& content_len(s) == a
    &&& seqs_valid(w, start, s, w.len() - start)
    &&& op <= a + a / 255
}

/// In fill mode, the room left after the last sequence lets the final
/// literal run be long enough for the decoder.
pub open spec fn room_ok(
    out_dir: LimitedOutputDirective,
    dlen: int,
    op: int,
    s: Seq<SeqRec>,
) -> bool {
    out_dir == LimitedOutputDirective::FillOutput && s.len() > 0 ==> (dlen - op >= 9 || (dlen - op
        >= 6 && s.last().ml >= 18))
}

/// Index of window position `p`, `start` having index `start_index`.
fn index_of(start_index: u32, start: usize, p: usize) -> (r: u32)
    requires
        start <= p,
        start_index + (p - start) <= u32::MAX,
    ensures
        r == start_index + (p - start),
{
    start_index + ((p - start) as u32)
}

/// Length of the match `(p, m)` beyond its first four bytes, counted up to
/// `LASTLITERALS` bytes before the window's end.  A match that starts in the
/// dictionary is counted up to the dictionary's end first, then on into the
/// input from its start.
/// Length of the match `(p, m)` beyond its first four bytes, as the encoder
/// counts it (see `match_length`).
pub open spec fn ml_spec(w: Seq<u8>, start: int, p: int, m: int, ext_dict: bool) -> nat {
    let matchlimit = w.len() - 5;
    if ext_dict && m < start {
        let lim = if p + (start - m) > matchlimit {
            matchlimit
        } else {
            p + (start - m)
        };
        let c = count_spec(w, p + 4, m + 4, lim);
        if p + 4 + c == lim {
            c + count_spec(w, lim, start, matchlimit)
        } else {
            c
        }
    } else {
        count_spec(w, p + 4, m + 4, matchlimit)
    }
}

fn match_length(w: &[u8], start: usize, p: usize, m: usize, ext_dict: bool) -> (c: usize)
    requires
        w@.len() <= window_max(),
        m < p,
        start <= p,
        p + 12 <= w@.len(),
        same_bytes(w@, p as int, m as int, 4),
    ensures
        p + 4 + c <= w@.len() - 5,
        same_bytes(w@, p as int, m as int, c + 4),
        c == ml_spec(w@, start as int, p as int, m as int, ext_dict),
        ext_dict && m < start && start < m + 4 ==> c == 0,
        !(ext_dict && m < start && start < m + 4) ==> (p + 4 + c == w@.len() - 5 || w@[p + 4
            + c] != w@[m + 4 + c]),
{
    let n = w.len();
    let matchlimit = n - 5;
    let mut c: usize;
    if ext_dict && m < start {
        let lim = if p + (start - m) > matchlimit {
            matchlimit
        } else {
            p + (start - m)
        };
        c = count(w, p + 4, m + 4, lim);
        if p + 4 + c == lim {
            let more = count(w, lim, start, matchlimit);
            proof {
                if lim == matchlimit {
                    assert(more == 0);
                } else {
                    assert(start == m + 4 + c);
                }
                assert forall|i: int| 0 <= i < c + more implies #[trigger] w@[(p + 4) + i] == w@[(m
                    + 4) + i] by {
                    if i >= c {
                        assert(w@[lim + (i - c)] == w@[start + (i - c)]);
                    }
                }
            }
            c = c + more;
        }
    } else {
        c = count(w, p + 4, m + 4, matchlimit);
    }
    proof {
        assert forall|i: int| 0 <= i < c + 4 implies #[trigger] w@[p + i] == w@[m + i] by {
            if i >= 4 {
                assert(w@[(p + 4) + (i - 4)] == w@[(m + 4) + (i - 4)]);
            }
        }
    }
    c
}

/// Checks that the match length's extension bytes leave room for a final
/// literal run: in limited mode fails when they do not, in fill mode cuts
/// the match so that they do, clearing the table slots of the positions the
/// cut gives back.
fn fit_match(
    table: &mut Vec<u32>,
    w: &[u8],
    dlen: usize,
    op3: usize,
    c: usize,
    p: usize,
    filled_ip: usize,
    out_dir: LimitedOutputDirective,
    table_type: TableType,
) -> (r: Result<usize, Lz4Error>)
    requires
        old(table)@.len() == HASH_SLOTS,
        op3 <= dlen,
        p + 4 + c <= w@.len(),
        w@.len() <= window_max(),
        filled_ip + 12 <= w@.len(),
        out_dir == LimitedOutputDirective::FillOutput ==> op3 + 9 <= dlen,
    ensures
        final(table)@.len() == HASH_SLOTS,
        out_dir != LimitedOutputDirective::FillOutput ==> final(table)@ == old(table)@,
        out_dir != LimitedOutputDirective::FillOutput && r is Ok ==> r == Ok::<usize, Lz4Error>(c),
        out_dir == LimitedOutputDirective::FillOutput ==> {
            let short = 14 + (dlen - op3 - 6) * 255;
            let cut = dlen - op3 < 6 + (c + 240) / 255 && short < c;
            &&& r == Ok::<usize, Lz4Error>(if cut { short as usize } else { c })
            &&& final(table)@ == (if cut && p + 4 + short <= filled_ip {
                cleared_spec(old(table)@, w@, table_type, p + 4 + short, filled_ip as int)
            } else {
                old(table)@
            })
        },
        match r {
            Ok(c2) => {
                &&& c2 <= c
                &&& out_dir == LimitedOutputDirective::NotLimited ==> c2 == c
                &&& out_dir != LimitedOutputDirective::NotLimited ==> op3 + 6 + (c2 + 240) / 255
                    <= dlen
                &&& out_dir == LimitedOutputDirective::FillOutput ==> (c2 >= 14 || op3 + 9 + (c2
                    + 240) / 255 <= dlen)
            },
            Err(e) => {
                &&& e == Lz4Error::OutputTooSmall
                &&& out_dir == LimitedOutputDirective::LimitedOutput
                &&& op3 + 6 + (c + 240) / 255 > dlen
            },
        },
{
    let n = w.len();
    if out_dir != LimitedOutputDirective::NotLimited && dlen - op3 < 6 + (c + 240) / 255 {
        if out_dir == LimitedOutputDirective::FillOutput {
            let space = dlen - op3;
            proof {
                lemma_floor_mono(c + 240, n + 240);
                assert(space * 255 <= (7 + (n + 240) / 255) * 255) by (nonlinear_arith)
                    requires
                        space < 6 + (c + 240) / 255,
                        (c + 240) / 255 <= (n + 240) / 255,
                ;
                assert((7 + (n + 240) / 255) * 255 <= n + 2100) by (nonlinear_arith)
                    requires
                        n >= 0,
                ;
                lemma_cut(space as int);
            }
            let new_c = 14 + (space - 6) * 255;
            if new_c < c {
                let ipe = p + 4 + new_c;
                if ipe <= filled_ip {
                    let ghost t0 = table@;
                    let mut q = ipe;
                    while q <= filled_ip
                        invariant
                            cleared_spec(t0, w@, table_type, ipe as int, filled_ip as int) == cleared_spec(
                                table@,
                                w@,
                                table_type,
                                q as int,
                                filled_ip as int,
                            ),
                            ipe <= q <= filled_ip + 1,
                            n == w@.len(),
                            table@.len() == HASH_SLOTS,
                            filled_ip + 12 <= n,
                        decreases filled_ip + 1 - q,
                    {
                        let h = hash_position(w, q, table_type);
                        table.set(h as usize, 0);
                        q = q + 1;
                    }
                }
                return Ok(new_c);
            }
            proof {
                lemma_floor_mono(c + 240, new_c + 240);
            }
            return Ok(c);
        } else {
            return Err(Lz4Error::OutputTooSmall);
        }
    }
    proof {
        if c < 14 {
            assert((c + 240) / 255 == 0);
        }
    }
    Ok(c)
}

/// Writes the offset, the match length's extension bytes and the token of
/// the pending sequence, whose token slot is `tok` and whose literals end at
/// `op`; the sequence joins `s`.
fn write_match(
    dst: &mut [u8],
    w: &[u8],
    start: usize,
    tok: usize,
    op: usize,
    anchor: usize,
    p: usize,
    m: usize,
    c: usize,
    Ghost(s): Ghost<Seq<SeqRec>>,
) -> (r: (usize, Ghost<Seq<SeqRec>>))
    requires
        written_ok(old(dst)@, tok as int, w@, start as int, anchor as int, s),
        anchor <= p,
        m < p,
        p - m <= 65535,
        p + 12 <= w@.len(),
        p + 4 + c <= w@.len() - 5,
        w@.len() <= window_max(),
        same_bytes(w@, p as int, m as int, c + 4),
        op == tok + 1 + lit_ext((p - anchor) as nat).len() + (p - anchor),
        old(dst)@.subrange(0, op as int) == enc_seqs(w@, start as int, s) + seq![
            old(dst)@[tok as int],
        ] + lit_ext((p - anchor) as nat) + w@.subrange(anchor as int, p as int),
        op + 2 + (c + 240) / 255 <= old(dst)@.len(),
    ensures
        final(dst)@.len() == old(dst)@.len(),
        r.0 == op + 2 + (c + 240) / 255,
        r.1@.len() == s.len() + 1,
        r.1@.last().ml == c + 4,
        r.1@ == s.push(SeqRec { ll: (p - anchor) as nat, off: (p - m) as nat, ml: (c + 4) as nat }),
        written_ok(final(dst)@, r.0 as int, w@, start as int, (p + 4 + c) as int, r.1@),
        kept_from(final(dst)@, old(dst)@, r.0 as int),
{
    let ghost nsrc = w@.len() - start;
    let ghost a = (anchor - start) as int;
    let ll = p - anchor;
    let off = p - m;
    let ghost pre_off = dst@;
    dst[op] = (off % 256) as u8;
    dst[op + 1] = (off / 256) as u8;
    let op3 = op + 2;
    proof {
        lemma_lit_ext_len(c as nat);
        assert(dst@.subrange(0, op3 as int) =~= pre_off.subrange(0, op as int) + seq![
            (off % 256) as u8,
            (off / 256) as u8,
        ]);
    }
    let ghost pre_ext = dst@;
    let op4 = if c >= 15 {
        write_len_ext(dst, op3, c - 15)
    } else {
        op3
    };
    proof {
        assert(dst@.subrange(0, op4 as int) =~= pre_ext.subrange(0, op3 as int) + lit_ext(
            c as nat,
        ));
    }
    let ghost pre_tok = dst@;
    let t = token_byte(ll, c);
    dst[tok] = t;
    let ghost r = SeqRec { ll: ll as nat, off: off as nat, ml: (c + 4) as nat };
    let ghost s2 = s.push(r);
    proof {
        let e = enc_seqs(w@, start as int, s);
        let lits = w@.subrange(anchor as int, p as int);
        let me = lit_ext(c as nat);
        let x = pre_off[tok as int];
        assert(pre_tok.subrange(0, op4 as int) =~= e + seq![x] + lit_ext(ll as nat) + lits + seq![
            (off % 256) as u8,
            (off / 256) as u8,
        ] + me);
        assert(dst@.subrange(0, op4 as int) =~= pre_tok.subrange(0, op4 as int).update(
            tok as int,
            t,
        ));
        lemma_lit_ext_len(c as nat);
        assert(enc_seq(w@, anchor as int, r) =~= seq![t] + lit_ext(ll as nat) + lits + seq![
            (off % 256) as u8,
            (off / 256) as u8,
        ] + me);
        assert(e.len() == tok);
        assert(dst@.subrange(0, op4 as int) =~= e + enc_seq(w@, anchor as int, r));
        assert(s2.drop_last() =~= s);
        assert(s2.last() == r);
        assert(enc_seqs(w@, start as int, s2) == e + enc_seq(w@, start + content_len(s), r));
        assert forall|i: int| 0 <= i < r.ml implies #[trigger] w@[p + i] == w@[p - r.off + i] by {
            assert(w@[p + i] == w@[m + i]);
        }
        assert(seq_valid(w@, start as int, content_len(s) as int, r, nsrc as int));
        assert(seqs_valid(w@, start as int, s2, nsrc as int));
        lemma_cost(a, tok as int, ll as nat, c as nat);
    }
    (op4, Ghost(s2))
}

/// Fills the table at `ipe - 2` and at `ipe`, and tests whether the bytes at
/// `ipe` repeat those at the position the table held for them.
fn probe_next(
    table: &mut Vec<u32>,
    dict_table: &[u32],
    w: &[u8],
    start: usize,
    start_index: u32,
    dict_index: u32,
    table_type: TableType,
    use_dict_ctx: bool,
    ipe: usize,
) -> (r: Option<usize>)
    requires
        old(table)@.len() == HASH_SLOTS,
        use_dict_ctx ==> dict_table@.len() == HASH_SLOTS,
        start + 4 <= ipe,
        ipe + 12 <= w@.len(),
        start_index + (w@.len() - start) <= u32::MAX,
    ensures
        final(table)@.len() == HASH_SLOTS,
        r matches Some(m) ==> m < ipe && ipe - m <= 65535 && same_bytes(w@, ipe as int, m as int, 4),
        ({
            let t1 = old(table)@.update(
                spec_hash_position(w@, ipe - 2, table_type) as int,
                slot_value((start_index + (ipe - 2 - start)) as u32, table_type),
            );
            let h = spec_hash_position(w@, ipe as int, table_type) as int;
            let cand = candidate_spec(
                t1,
                dict_table@,
                h,
                start as int,
                start_index,
                dict_index,
                use_dict_ctx,
                ipe as int,
            );
            &&& final(table)@ == t1.update(h, slot_value((start_index + (ipe - start)) as u32, table_type))
            &&& match r {
                Some(m) => confirmed(w@, cand, ipe as int) == Some(m as int),
                None => confirmed(w@, cand, ipe as int) is None,
            }
        }),
{
    let h2 = hash_position(w, ipe - 2, table_type);
    put_index(table, h2, index_of(start_index, start, ipe - 2), table_type);
    let h = hash_position(w, ipe, table_type);
    let current = index_of(start_index, start, ipe);
    let idx = table[h as usize];
    let cand = if use_dict_ctx && idx < start_index {
        let j = dict_table[h as usize];
        window_pos(j, dict_index, start, ipe)
    } else {
        window_pos(idx, start_index, start, ipe)
    };
    put_index(table, h, current, table_type);
    if let Some(m) = cand {
        if read_le32(w, m) == read_le32(w, ipe) {
            proof {
                lemma_le32_eq(w@, ipe as int, m as int);
            }
            return Some(m);
        }
    }
    None
}

#[verifier::rlimit(100)]
#[verifier::spinoff_prover]
/// Encodes the sequence of the match `(p0, m0)` found after `anchor0`, then
/// the sequences of the matches found right at its end, if any.  Returns the
/// output length, the new anchor and where the search goes on (`None`: the
/// block's end is near, or, in fill mode, the output is full).
fn encode_chain(
    table: &mut Vec<u32>,
    dict_table: &[u32],
    w: &[u8],
    start: usize,
    dst: &mut [u8],
    start_index: u32,
    dict_index: u32,
    out_dir: LimitedOutputDirective,
    table_type: TableType,
    ext_dict: bool,
    use_dict_ctx: bool,
    op0: usize,
    anchor0: usize,
    p0: usize,
    m0: usize,
    Ghost(s0): Ghost<Seq<SeqRec>>,
) -> (r: Result<(usize, usize, Option<usize>, Ghost<Seq<SeqRec>>), Lz4Error>)
    requires
        old(table)@.len() == HASH_SLOTS,
        use_dict_ctx ==> dict_table@.len() == HASH_SLOTS,
        w@.len() <= window_max(),
        start_index + (w@.len() - start) <= u32::MAX,
        written_ok(old(dst)@, op0 as int, w@, start as int, anchor0 as int, s0),
        room_ok(out_dir, old(dst)@.len() as int, op0 as int, s0),
        out_dir == LimitedOutputDirective::NotLimited ==> old(dst)@.len() >= (w@.len() - start) + (
        w@.len() - start) / 255 + 16,
        anchor0 <= p0,
        m0 < p0,
        p0 - m0 <= 65535,
        p0 + 12 <= w@.len(),
        same_bytes(w@, p0 as int, m0 as int, 4),
    ensures
        final(table)@.len() == HASH_SLOTS,
        final(dst)@.len() == old(dst)@.len(),
        out_dir == LimitedOutputDirective::LimitedOutput ==> (r is Ok <==> chain_fits(
            old(table)@,
            dict_table@,
            w@,
            start as int,
            start_index,
            dict_index,
            table_type,
            ext_dict,
            use_dict_ctx,
            s0,
            anchor0 as int,
            p0 as int,
            m0 as int,
            true,
            old(dst)@.len() as int,
        )),
        match r {
            Ok((op, anchor, next, gs)) => {
                &&& written_ok(final(dst)@, op as int, w@, start as int, anchor as int, gs@)
                &&& room_ok(out_dir, old(dst)@.len() as int, op as int, gs@)
                &&& anchor0 <= anchor
                &&& op0 <= op
                &&& (next matches Some(ip) ==> anchor0 < anchor <= ip && p0 < ip && ip + 11
                    <= w@.len() && ip == anchor + 1)
                &&& out_dir == LimitedOutputDirective::FillOutput ==> {
                    let cs = fill_chain_spec(
                        old(table)@,
                        dict_table@,
                        w@,
                        start as int,
                        start_index,
                        dict_index,
                        table_type,
                        ext_dict,
                        use_dict_ctx,
                        s0,
                        anchor0 as int,
                        p0 as int,
                        m0 as int,
                        true,
                        old(dst)@.len() as int,
                        p0 as int,
                    );
                    &&& gs@ == cs.0
                    &&& anchor == cs.1
                    &&& final(table)@ == cs.3
                    &&& match next {
                        Some(ip) => cs.2 == Some(ip as int),
                        None => cs.2 is None,
                    }
                }
                &&& out_dir != LimitedOutputDirective::FillOutput ==> kept_from(
                    final(dst)@,
                    old(dst)@,
                    op as int,
                )
                &&& out_dir != LimitedOutputDirective::FillOutput ==> {
                    let cs = chain_spec(
                        old(table)@,
                        dict_table@,
                        w@,
                        start as int,
                        start_index,
                        dict_index,
                        table_type,
                        ext_dict,
                        use_dict_ctx,
                        s0,
                        anchor0 as int,
                        p0 as int,
                        m0 as int,
                    );
                    &&& gs@ == cs.0
                    &&& anchor == cs.1
                    &&& final(table)@ == cs.3
                    &&& match next {
                        Some(ip) => cs.2 == Some(ip as int),
                        None => cs.2 is None,
                    }
                }
            },
            Err(e) => {
                &&& e == Lz4Error::OutputTooSmall
                &&& out_dir == LimitedOutputDirective::LimitedOutput
                &&& old(dst)@.len() < (w@.len() - start) + (w@.len() - start) / 255 + 16
            },
        },
{
    let ghost goal_f = fill_chain_spec(
        table@,
        dict_table@,
        w@,
        start as int,
        start_index,
        dict_index,
        table_type,
        ext_dict,
        use_dict_ctx,
        s0,
        anchor0 as int,
        p0 as int,
        m0 as int,
        true,
        dst@.len() as int,
        p0 as int,
    );
    let ghost goal = chain_spec(
        table@,
        dict_table@,
        w@,
        start as int,
        start_index,
        dict_index,
        table_type,
        ext_dict,
        use_dict_ctx,
        s0,
        anchor0 as int,
        p0 as int,
        m0 as int,
    );
    let ghost goal_fits = chain_fits(
        table@,
        dict_table@,
        w@,
        start as int,
        start_index,
        dict_index,
        table_type,
        ext_dict,
        use_dict_ctx,
        s0,
        anchor0 as int,
        p0 as int,
        m0 as int,
        true,
        dst@.len() as int,
    );
    let n = w.len();
    let dlen = dst.len();
    let ghost nsrc = n - start;
    let fill = out_dir == LimitedOutputDirective::FillOutput;
    let limited = out_dir == LimitedOutputDirective::LimitedOutput;
    let ghost mut s = s0;
    let mut tok = op0;
    let mut anchor = anchor0;
    let mut p = p0;
    let mut m = m0;
    let filled_ip = p0;
    // Literal run of the first sequence.
    let mut ll = p - anchor;
    proof {
        lemma_lit_ext_len(ll as nat);
        lemma_cost((anchor - start) as int, tok as int, ll as nat, 0);
        lemma_floor_add((anchor - start) as int, ll as int);
        lemma_floor_add(ll as int, 240);
        lemma_floor_mono((anchor - start + ll) as int, nsrc as int);
        lemma_floor_mono((anchor - start + ll + 4) as int, nsrc as int);
    }
    if limited && dlen - tok < 9 + ll + ll / 255 {
        return Err(Lz4Error::OutputTooSmall);
    }
    if fill && dlen - tok < 12 + (ll + 240) / 255 + ll {
        proof {
            assert(goal_f == (s, anchor as int, None::<int>, table@));
        }
        return Ok((tok, anchor, None, Ghost(s)));
    }
    let ghost pre_lits = dst@;
    let op1 = if ll >= 15 {
        write_len_ext(dst, tok + 1, ll - 15)
    } else {
        tok + 1
    };
    write_bytes(dst, op1, w, anchor, ll);
    let mut op = op1 + ll;
    proof {
        assert(dst@.subrange(0, tok as int) =~= pre_lits.subrange(0, tok as int));
        assert(dst@.subrange(0, op as int) =~= pre_lits.subrange(0, tok + 1) + lit_ext(ll as nat)
            + w@.subrange(anchor as int, p as int));
        assert(pre_lits.subrange(0, tok + 1) =~= pre_lits.subrange(0, tok as int) + seq![
            pre_lits[tok as int],
        ]);
        assert(dst@[tok as int] == pre_lits[tok as int]) by {
            assert(dst@.subrange(0, op as int)[tok as int] == pre_lits.subrange(
                0,
                tok + 1,
            )[tok as int]);
        }
    }
    loop
        invariant
            goal == chain_spec(
                old(table)@,
                dict_table@,
                w@,
                start as int,
                start_index,
                dict_index,
                table_type,
                ext_dict,
                use_dict_ctx,
                s0,
                anchor0 as int,
                p0 as int,
                m0 as int,
            ),
            !fill ==> goal == chain_spec(
                table@,
                dict_table@,
                w@,
                start as int,
                start_index,
                dict_index,
                table_type,
                ext_dict,
                use_dict_ctx,
                s,
                anchor as int,
                p as int,
                m as int,
            ),
            !fill ==> kept_from(dst@, old(dst)@, op as int),
            op0 <= tok,
            goal_f == fill_chain_spec(
                old(table)@,
                dict_table@,
                w@,
                start as int,
                start_index,
                dict_index,
                table_type,
                ext_dict,
                use_dict_ctx,
                s0,
                anchor0 as int,
                p0 as int,
                m0 as int,
                true,
                old(dst)@.len() as int,
                p0 as int,
            ),
            filled_ip == p0,
            fill ==> goal_f == fill_chain_spec(
                table@,
                dict_table@,
                w@,
                start as int,
                start_index,
                dict_index,
                table_type,
                ext_dict,
                use_dict_ctx,
                s,
                anchor as int,
                p as int,
                m as int,
                false,
                dlen as int,
                filled_ip as int,
            ),
            goal_fits == chain_fits(
                old(table)@,
                dict_table@,
                w@,
                start as int,
                start_index,
                dict_index,
                table_type,
                ext_dict,
                use_dict_ctx,
                s0,
                anchor0 as int,
                p0 as int,
                m0 as int,
                true,
                old(dst)@.len() as int,
            ),
            limited ==> (goal_fits <==> chain_fits(
                table@,
                dict_table@,
                w@,
                start as int,
                start_index,
                dict_index,
                table_type,
                ext_dict,
                use_dict_ctx,
                s,
                anchor as int,
                p as int,
                m as int,
                false,
                dlen as int,
            )),
            n == w@.len(),
            dlen == dst@.len(),
            dlen == old(dst)@.len(),
            nsrc == n - start,
            fill == (out_dir == LimitedOutputDirective::FillOutput),
            limited == (out_dir == LimitedOutputDirective::LimitedOutput),
            table@.len() == HASH_SLOTS,
            use_dict_ctx ==> dict_table@.len() == HASH_SLOTS,
            n <= window_max(),
            start_index + (n - start) <= u32::MAX,
            out_dir == LimitedOutputDirective::NotLimited ==> dlen >= nsrc + nsrc / 255 + 16,
            written_ok(dst@, tok as int, w@, start as int, anchor as int, s),
            room_ok(out_dir, dlen as int, tok as int, s),
            anchor0 <= anchor,
            p0 <= p,
            p == anchor + ll,
            m < p,
            p - m <= 65535,
            p + 12 <= n,
            same_bytes(w@, p as int, m as int, 4),
            filled_ip + 12 <= n,
            op == tok + 1 + lit_ext(ll as nat).len() + ll,
            dst@.subrange(0, op as int) == enc_seqs(w@, start as int, s) + seq![dst@[tok as int]]
                + lit_ext(ll as nat) + w@.subrange(anchor as int, p as int),
            out_dir != LimitedOutputDirective::NotLimited ==> op + 5 <= dlen,
        decreases n - p,
    {
        if fill && dlen - op < 11 {
            return Ok((tok, anchor, None, Ghost(s)));
        }
        let ghost here_f = fill_chain_spec(
            table@,
            dict_table@,
            w@,
            start as int,
            start_index,
            dict_index,
            table_type,
            ext_dict,
            use_dict_ctx,
            s,
            anchor as int,
            p as int,
            m as int,
            false,
            dlen as int,
            filled_ip as int,
        );
        let ghost a = (anchor - start) as int;
        let c0 = match_length(w, start, p, m, ext_dict);
        proof {
            lemma_lit_ext_len(ll as nat);
            lemma_lit_ext_len(c0 as nat);
            lemma_cost(a, tok as int, ll as nat, c0 as nat);
            lemma_floor_mono(a + ll + c0 + 4, nsrc as int);
            lemma_floor_add(a, nsrc - a);
        }
        let c = match fit_match(table, w, dlen, op + 2, c0, p, filled_ip, out_dir, table_type) {
            Ok(c) => c,
            Err(e) => {
                return Err(e);
            },
        };
        proof {
            lemma_lit_ext_len(c as nat);
            lemma_cost(a, tok as int, ll as nat, c as nat);
            assert forall|i: int| 0 <= i < c + 4 implies #[trigger] w@[p + i] == w@[m + i] by {
                assert(w@[p + i] == w@[m + i]);
            }
        }
        let ghost here_fits = chain_fits(
            table@,
            dict_table@,
            w@,
            start as int,
            start_index,
            dict_index,
            table_type,
            ext_dict,
            use_dict_ctx,
            s,
            anchor as int,
            p as int,
            m as int,
            false,
            dlen as int,
        );
        let ghost here = chain_spec(
            table@,
            dict_table@,
            w@,
            start as int,
            start_index,
            dict_index,
            table_type,
            ext_dict,
            use_dict_ctx,
            s,
            anchor as int,
            p as int,
            m as int,
        );
        let (op4, gs2) = write_match(dst, w, start, tok, op, anchor, p, m, c, Ghost(s));
        proof {
            s = gs2@;
        }
        let ipe = p + 4 + c;
        anchor = ipe;
        if ipe >= n - 11 {
            assert(!fill ==> here == (s, ipe as int, None::<int>, table@));
            assert(fill ==> here_f == (s, ipe as int, None::<int>, table@));
            return Ok((op4, anchor, None, Ghost(s)));
        }
        match probe_next(
            table,
            dict_table,
            w,
            start,
            start_index,
            dict_index,
            table_type,
            use_dict_ctx,
            ipe,
        ) {
            Some(m2) => {
                let ghost pre_zero = dst@;
                tok = op4;
                dst[tok] = 0;
                op = tok + 1;
                p = ipe;
                m = m2;
                ll = 0;
                proof {
                    assert(fill ==> here_f == fill_chain_spec(
                        table@,
                        dict_table@,
                        w@,
                        start as int,
                        start_index,
                        dict_index,
                        table_type,
                        ext_dict,
                        use_dict_ctx,
                        s,
                        anchor as int,
                        p as int,
                        m as int,
                        false,
                        dlen as int,
                        filled_ip as int,
                    ));
                    assert(!fill ==> here == chain_spec(
                        table@,
                        dict_table@,
                        w@,
                        start as int,
                        start_index,
                        dict_index,
                        table_type,
                        ext_dict,
                        use_dict_ctx,
                        s,
                        anchor as int,
                        p as int,
                        m as int,
                    ));
                    lemma_lit_ext_len(0);
                    assert(dst@.subrange(0, tok as int) =~= pre_zero.subrange(0, tok as int));
                    assert(w@.subrange(anchor as int, p as int) =~= Seq::<u8>::empty());
                    assert(dst@.subrange(0, op as int) =~= enc_seqs(w@, start as int, s) + seq![
                        dst@[tok as int],
                    ] + lit_ext(0) + w@.subrange(anchor as int, p as int));
                }
            },
            None => {
                assert(!fill ==> here == (s, ipe as int, Some(ipe + 1), table@));
                assert(fill ==> here_f == (s, ipe as int, Some(ipe + 1), table@));
                return Ok((op4, anchor, Some(ipe + 1), Ghost(s)));
            },
        }
    }
}

/// Faithful sequences stay faithful for a larger or smaller capacity, as long
/// as the last one starts its match 12 bytes and ends it 5 bytes before it.
pub proof fn lemma_seqs_valid_cap(w: Seq<u8>, base: int, s: Seq<SeqRec>, cap1: int, cap2: int)
    requires
        seqs_valid(w, base, s, cap1),
        s.len() > 0 ==> content_len(s.drop_last()) + s.last().ll + 12 <= cap2,
        s.len() > 0 ==> content_len(s) + 5 <= cap2,
    ensures
        seqs_valid(w, base, s, cap2),
    decreases s.len(),
{
    if s.len() > 0 {
        let t = s.drop_last();
        assert(seqs_valid(w, base, t, cap1));
        if t.len() > 0 {
            assert(content_len(t) == content_len(t.drop_last()) + t.last().ll + t.last().ml);
            assert(seq_valid(w, base, content_len(t.drop_last()) as int, t.last(), cap1));
        }
        lemma_seqs_valid_cap(w, base, t, cap1, cap2);
    }
}

/// The last sequence of a faithful list ends its match 5 bytes before the
/// capacity.
proof fn lemma_valid_tail(w: Seq<u8>, base: int, s: Seq<SeqRec>, cap: int)
    requires
        seqs_valid(w, base, s, cap),
        s.len() > 0,
    ensures
        content_len(s) + 5 <= cap,
        content_len(s.drop_last()) + s.last().ll + 12 <= cap,
        content_len(s) == content_len(s.drop_last()) + s.last().ll + s.last().ml,
        s.last().ml >= 4,
{
}

/// A block of faithful sequences and a final literal run decodes, for every
/// capacity from the content's length on, to that content.
pub proof fn lemma_block_decodes(w: Seq<u8>, start: int, s: Seq<SeqRec>, r: nat, cap: int)
    requires
        0 <= start,
        seqs_valid(w, start, s, (content_len(s) + r) as int),
        s.len() > 0 ==> r >= 5,
        r <= length_field_max(),
        start + content_len(s) + r <= w.len(),
        content_len(s) + r <= cap,
    ensures
        lz4_decode(
            enc_seqs(w, start, s) + enc_last(w, start + content_len(s), r),
            w.subrange(0, start),
            cap,
            false,
        ) == Some(w.subrange(start, start + content_len(s) + r)),
{
    if s.len() > 0 {
        lemma_valid_tail(w, start, s, (content_len(s) + r) as int);
    }
    lemma_seqs_valid_cap(w, start, s, (content_len(s) + r) as int, cap);
    lemma_decode_encoded(w, start, s, r, cap);
}

/// Writes the final literal run: `lr` bytes of the window from `anchor`.
fn write_last(dst: &mut [u8], w: &[u8], op: usize, anchor: usize, lr: usize) -> (end: usize)
    requires
        op + 1 + (lr + 240) / 255 + lr <= old(dst)@.len(),
        anchor + lr <= w@.len(),
    ensures
        final(dst)@.len() == old(dst)@.len(),
        end == op + 1 + (lr + 240) / 255 + lr,
        final(dst)@.subrange(0, end as int) == old(dst)@.subrange(0, op as int) + enc_last(
            w@,
            anchor as int,
            lr as nat,
        ),
        kept_from(final(dst)@, old(dst)@, end as int),
{
    proof {
        lemma_lit_ext_len(lr as nat);
    }
    let ghost pre = dst@;
    dst[op] = token_byte(lr, 0);
    let ghost mid = dst@;
    let op1 = if lr >= 15 {
        write_len_ext(dst, op + 1, lr - 15)
    } else {
        op + 1
    };
    write_bytes(dst, op1, w, anchor, lr);
    proof {
        assert(mid.subrange(0, op + 1) =~= pre.subrange(0, op as int) + seq![token_of(lr as nat, 0)]);
        assert(dst@.subrange(0, op1 + lr) =~= pre.subrange(0, op as int) + enc_last(
            w@,
            anchor as int,
            lr as nat,
        ));
    }
    op1 + lr
}

/// The sequences of a block: searches for matches from the input's start
/// and encodes them until the search reaches the block's end, or, in fill
/// mode, the output is full.  Returns the output length, the anchor (how far
/// the sequences cover the window) and the sequences.
#[verifier::rlimit(100)]
#[verifier::spinoff_prover]
fn encode_sequences(
    table: &mut Vec<u32>,
    dict_table: &[u32],
    w: &[u8],
    start: usize,
    dst: &mut [u8],
    start_index: u32,
    dict_index: u32,
    out_dir: LimitedOutputDirective,
    table_type: TableType,
    ext_dict: bool,
    use_dict_ctx: bool,
    acceleration: usize,
) -> (r: Result<(usize, usize, Ghost<Seq<SeqRec>>), Lz4Error>)
    requires
        old(table)@.len() == HASH_SLOTS,
        use_dict_ctx ==> dict_table@.len() == HASH_SLOTS,
        start < w@.len() <= window_max(),
        start_index + (w@.len() - start) <= u32::MAX,
        1 <= acceleration <= 65537,
        out_dir == LimitedOutputDirective::NotLimited ==> old(dst)@.len() >= (w@.len() - start) + (
        w@.len() - start) / 255 + 16,
    ensures
        final(table)@.len() == HASH_SLOTS,
        final(dst)@.len() == old(dst)@.len(),
        out_dir == LimitedOutputDirective::LimitedOutput ==> (r is Ok <==> block_seqs_fit(
            old(table)@,
            dict_table@,
            w@,
            start as int,
            start_index,
            dict_index,
            table_type,
            ext_dict,
            use_dict_ctx,
            acceleration as int,
            old(dst)@.len() as int,
        )),
        match r {
            Ok((op, anchor, gs)) => {
                &&& written_ok(final(dst)@, op as int, w@, start as int, anchor as int, gs@)
                &&& room_ok(out_dir, old(dst)@.len() as int, op as int, gs@)
                &&& out_dir != LimitedOutputDirective::FillOutput ==> kept_from(
                    final(dst)@,
                    old(dst)@,
                    op as int,
                )
                &&& out_dir == LimitedOutputDirective::FillOutput ==> fill_block_seqs_spec(
                    old(table)@,
                    dict_table@,
                    w@,
                    start as int,
                    start_index,
                    dict_index,
                    table_type,
                    ext_dict,
                    use_dict_ctx,
                    acceleration as int,
                    old(dst)@.len() as int,
                ) == (gs@, anchor as int, final(table)@)
                &&& out_dir != LimitedOutputDirective::FillOutput ==> block_seqs_spec(
                old(table)@,
                dict_table@,
                w@,
                start as int,
                start_index,
                dict_index,
                table_type,
                ext_dict,
                use_dict_ctx,
                acceleration as int,
                ) == (gs@, anchor as int, final(table)@)
            },
            Err(e) => {
                &&& e == Lz4Error::OutputTooSmall
                &&& out_dir == LimitedOutputDirective::LimitedOutput
                &&& old(dst)@.len() < (w@.len() - start) + (w@.len() - start) / 255 + 16
            },
        },
{
    let ghost goal = block_seqs_spec(
        table@,
        dict_table@,
        w@,
        start as int,
        start_index,
        dict_index,
        table_type,
        ext_dict,
        use_dict_ctx,
        acceleration as int,
    );
    let ghost fill = out_dir == LimitedOutputDirective::FillOutput;
    let ghost goal_f = fill_block_seqs_spec(
        table@,
        dict_table@,
        w@,
        start as int,
        start_index,
        dict_index,
        table_type,
        ext_dict,
        use_dict_ctx,
        acceleration as int,
        dst@.len() as int,
    );
    let ghost limited = out_dir == LimitedOutputDirective::LimitedOutput;
    let ghost goal_ok = block_seqs_fit(
        table@,
            dict_table@,
            w@,
            start as int,
            start_index,
            dict_index,
            table_type,
            ext_dict,
            use_dict_ctx,
            acceleration as int,
        dst@.len() as int,
    );
    let n = w.len();
    let dlen = dst.len();
    let ghost nsrc = n - start;
    let mut op: usize = 0;
    let mut anchor = start;
    let ghost mut s: Seq<SeqRec> = Seq::empty();
    proof {
        assert(dst@.subrange(0, 0) =~= enc_seqs(w@, start as int, s));
    }
    if n - start < LZ4_MIN_LENGTH {
        return Ok((op, anchor, Ghost(s)));
    }
    let h0 = hash_position(w, start, table_type);
    put_index(table, h0, start_index, table_type);
    let mut ip = start + 1;
    let mut searching = true;
    assert(fill ==> goal_f == fill_seqs_spec(
        table@,
        dict_table@,
        w@,
        start as int,
        start_index,
        dict_index,
        table_type,
        ext_dict,
        use_dict_ctx,
        acceleration as int,
        s,
        anchor as int,
        dst@.len() as int,
    ));
    assert(!fill ==> goal == seqs_loop_spec(
                table@,
                dict_table@,
                w@,
                start as int,
                start_index,
                dict_index,
                table_type,
                ext_dict,
                use_dict_ctx,
                acceleration as int,
                s,
                anchor as int,
    ));
    while searching
        invariant
            fill == (out_dir == LimitedOutputDirective::FillOutput),
            goal == block_seqs_spec(
                old(table)@,
                dict_table@,
                w@,
                start as int,
                start_index,
                dict_index,
                table_type,
                ext_dict,
                use_dict_ctx,
                acceleration as int,
            ),
            !fill && searching ==> ip == anchor + 1 && goal == seqs_loop_spec(
                table@,
                dict_table@,
                w@,
                start as int,
                start_index,
                dict_index,
                table_type,
                ext_dict,
                use_dict_ctx,
                acceleration as int,
                s,
                anchor as int,
            ),
            !fill && !searching ==> goal == (s, anchor as int, table@),
            !fill ==> kept_from(dst@, old(dst)@, op as int),
            limited == (out_dir == LimitedOutputDirective::LimitedOutput),
            goal_f == fill_block_seqs_spec(
                old(table)@,
                dict_table@,
                w@,
                start as int,
                start_index,
                dict_index,
                table_type,
                ext_dict,
                use_dict_ctx,
                acceleration as int,
                old(dst)@.len() as int,
            ),
            fill && searching ==> ip == anchor + 1 && goal_f == fill_seqs_spec(
                table@,
                dict_table@,
                w@,
                start as int,
                start_index,
                dict_index,
                table_type,
                ext_dict,
                use_dict_ctx,
                acceleration as int,
                s,
                anchor as int,
                dlen as int,
            ),
            fill && !searching ==> goal_f == (s, anchor as int, table@),
            goal_ok == block_seqs_fit(
                old(table)@,
                dict_table@,
                w@,
                start as int,
                start_index,
                dict_index,
                table_type,
                ext_dict,
                use_dict_ctx,
                acceleration as int,
                old(dst)@.len() as int,
            ),
            limited && searching ==> (goal_ok <==> seqs_fits(
                table@,
                dict_table@,
                w@,
                start as int,
                start_index,
                dict_index,
                table_type,
                ext_dict,
                use_dict_ctx,
                acceleration as int,
                s,
                anchor as int,
                dlen as int,
            )),
            limited && !searching ==> goal_ok,
            n == w@.len(),
            dlen == dst@.len(),
            dlen == old(dst)@.len(),
            nsrc == n - start,
            nsrc >= 13,
            table@.len() == HASH_SLOTS,
            use_dict_ctx ==> dict_table@.len() == HASH_SLOTS,
            n <= window_max(),
            start_index + (n - start) <= u32::MAX,
            1 <= acceleration <= 65537,
            out_dir == LimitedOutputDirective::NotLimited ==> dlen >= nsrc + nsrc / 255 + 16,
            written_ok(dst@, op as int, w@, start as int, anchor as int, s),
            room_ok(out_dir, dlen as int, op as int, s),
            searching ==> anchor <= ip && ip + 11 <= n && start <= ip,
        decreases n - anchor + (if searching {
            1int
        } else {
            0int
        }),
    {
        let ghost here_f = fill_seqs_spec(
            table@,
            dict_table@,
            w@,
            start as int,
            start_index,
            dict_index,
            table_type,
            ext_dict,
            use_dict_ctx,
            acceleration as int,
            s,
            anchor as int,
            dlen as int,
        );
        let ghost here = seqs_loop_spec(
                table@,
                dict_table@,
                w@,
                start as int,
                start_index,
                dict_index,
                table_type,
                ext_dict,
                use_dict_ctx,
                acceleration as int,
                s,
                anchor as int,
        );
        match find_match(
            table,
            dict_table,
            w,
            start,
            start_index,
            dict_index,
            table_type,
            use_dict_ctx,
            ip,
            acceleration,
        ) {
            None => {
                searching = false;
            },
            Some((p, m)) => {
                let low = if ext_dict && m >= start {
                    start
                } else {
                    0
                };
                let (p2, m2) = catch_up(w, p, m, anchor, low);
                let ghost pre_chain = dst@;
                match encode_chain(
                    table,
                    dict_table,
                    w,
                    start,
                    dst,
                    start_index,
                    dict_index,
                    out_dir,
                    table_type,
                    ext_dict,
                    use_dict_ctx,
                    op,
                    anchor,
                    p2,
                    m2,
                    Ghost(s),
                ) {
                    Err(e) => {
                        return Err(e);
                    },
                    Ok((op2, anchor2, next, gs)) => {
                        proof {
                            if !fill {
                                lemma_kept_trans(old(dst)@, pre_chain, dst@, op as int, op2 as int);
                            }
                        }
                        op = op2;
                        anchor = anchor2;
                        proof {
                            s = gs@;
                        }
                        match next {
                            Some(ip2) => {
                                ip = ip2;
                                assert(fill ==> here_f == fill_seqs_spec(
                                    table@,
                                    dict_table@,
                                    w@,
                                    start as int,
                                    start_index,
                                    dict_index,
                                    table_type,
                                    ext_dict,
                                    use_dict_ctx,
                                    acceleration as int,
                                    s,
                                    anchor as int,
                                    dlen as int,
                                ));
                                assert(!fill ==> here == seqs_loop_spec(
                table@,
                dict_table@,
                w@,
                start as int,
                start_index,
                dict_index,
                table_type,
                ext_dict,
                use_dict_ctx,
                acceleration as int,
                s,
                anchor as int,
                                ));
                            },
                            None => {
                                searching = false;
                                assert(!fill ==> here == (s, anchor as int, table@));
                                assert(fill ==> here_f == (s, anchor as int, table@));
                            },
                        }
                    },
                }
            },
        }
    }
    Ok((op, anchor, Ghost(s)))
}

#[verifier::rlimit(40)]
/// Appends the final literal run to the sequences `s` written in
/// `dst[..op]`: the rest of the input, or in fill mode as much of it as fits.
fn finish_block(
    dst: &mut [u8],
    w: &[u8],
    start: usize,
    op: usize,
    anchor: usize,
    out_dir: LimitedOutputDirective,
    Ghost(s): Ghost<Seq<SeqRec>>,
) -> (r: Result<(usize, usize), Lz4Error>)
    requires
        written_ok(old(dst)@, op as int, w@, start as int, anchor as int, s),
        room_ok(out_dir, old(dst)@.len() as int, op as int, s),
        w@.len() <= window_max(),
        out_dir == LimitedOutputDirective::NotLimited ==> old(dst)@.len() >= (w@.len() - start) + (
        w@.len() - start) / 255 + 16,
        out_dir == LimitedOutputDirective::FillOutput ==> old(dst)@.len() >= op + 1,
    ensures
        final(dst)@.len() == old(dst)@.len(),
        out_dir == LimitedOutputDirective::LimitedOutput ==> (r is Ok <==> old(dst)@.len() - op >= 1
            + (w@.len() - anchor) + (w@.len() - anchor + 240) / 255),
        match r {
            Ok((written, consumed)) => {
                &&& 1 <= written <= old(dst)@.len()
                &&& op < written
                &&& written <= (w@.len() - start) + (w@.len() - start) / 255 + 16
                &&& consumed <= w@.len() - start
                &&& out_dir != LimitedOutputDirective::FillOutput ==> consumed == w@.len() - start
                &&& out_dir == LimitedOutputDirective::FillOutput ==> {
                    let lr = fill_last_len(old(dst)@.len() as int, op as int, w@.len() - anchor);
                    &&& final(dst)@.subrange(0, written as int) == enc_seqs(w@, start as int, s)
                        + enc_last(w@, anchor as int, lr as nat)
                    &&& consumed == anchor - start + lr
                }
                &&& out_dir != LimitedOutputDirective::FillOutput ==> kept_from(
                    final(dst)@,
                    old(dst)@,
                    written as int,
                )
                &&& out_dir != LimitedOutputDirective::FillOutput ==> final(dst)@.subrange(
                    0,
                    written as int,
                ) == enc_seqs(w@, start as int, s) + enc_last(
                    w@,
                    anchor as int,
                    (w@.len() - anchor) as nat,
                )
                &&& forall|cap: int|
                    consumed <= cap ==> #[trigger] lz4_decode(
                        final(dst)@.subrange(0, written as int),
                        w@.subrange(0, start as int),
                        cap,
                        false,
                    ) == Some(w@.subrange(start as int, start + consumed))
            },
            Err(e) => {
                &&& e == Lz4Error::OutputTooSmall
                &&& out_dir == LimitedOutputDirective::LimitedOutput
                &&& old(dst)@.len() < (w@.len() - start) + (w@.len() - start) / 255 + 16
            },
        },
{
    let n = w.len();
    let dlen = dst.len();
    let ghost nsrc = n - start;
    let ghost a = (anchor - start) as int;
    let full = n - anchor;
    proof {
        lemma_lit_ext_len(full as nat);
        lemma_last_room(a, op as int, nsrc as int);
        if s.len() > 0 {
            lemma_valid_tail(w@, start as int, s, nsrc as int);
        }
    }
    let mut lr = full;
    if out_dir != LimitedOutputDirective::NotLimited && dlen - op < 1 + full + (full + 240) / 255 {
        if out_dir == LimitedOutputDirective::FillOutput {
            let l = dlen - op - 1;
            lr = l - (l + 241) / 256;
            proof {
                lemma_shrink((dlen - op) as int, full as int);
            }
        } else {
            return Err(Lz4Error::OutputTooSmall);
        }
    }
    proof {
        lemma_lit_ext_len(lr as nat);
        lemma_floor_mono(lr + 240, full + 240);
    }
    let end = write_last(dst, w, op, anchor, lr);
    let consumed = anchor - start + lr;
    proof {
        let b = enc_seqs(w@, start as int, s) + enc_last(w@, start + content_len(s), lr as nat);
        assert(dst@.subrange(0, end as int) =~= b);
        if s.len() > 0 {
            assert(lr >= 5);
            assert(s.last().ml + lr >= 12);
        }
        lemma_seqs_valid_cap(w@, start as int, s, nsrc as int, consumed as int);
        assert forall|cap: int| consumed <= cap implies #[trigger] lz4_decode(
            dst@.subrange(0, end as int),
            w@.subrange(0, start as int),
            cap,
            false,
        ) == Some(w@.subrange(start as int, start + consumed)) by {
            lemma_block_decodes(w@, start as int, s, lr as nat, cap);
        }
    }
    Ok((end, consumed))
}

/// Compresses the input `w[start..]`, the window's first `start` bytes being
/// the content that precedes it, into `dst`.
///
/// Returns the output length and how much of the input it covers: all of it,
/// except in fill mode, where the output holds as much as fits.  The output
/// decodes, with `w[..start]` as dictionary and any capacity from that
/// length on, to the input it covers.  In limited mode it fails only when
/// `dst` is below the worst-case bound; in unlimited mode `dst` must reach it.
fn compress_window(
    table: &mut Vec<u32>,
    dict_table: &[u32],
    w: &[u8],
    start: usize,
    dst: &mut [u8],
    start_index: u32,
    dict_index: u32,
    out_dir: LimitedOutputDirective,
    table_type: TableType,
    ext_dict: bool,
    use_dict_ctx: bool,
    acceleration: usize,
) -> (r: Result<(usize, usize), Lz4Error>)
    requires
        old(table)@.len() == HASH_SLOTS,
        use_dict_ctx ==> dict_table@.len() == HASH_SLOTS,
        start < w@.len() <= window_max(),
        start_index + (w@.len() - start) <= u32::MAX,
        1 <= acceleration <= 65537,
        out_dir == LimitedOutputDirective::NotLimited ==> old(dst)@.len() >= (w@.len() - start) + (
        w@.len() - start) / 255 + 16,
        out_dir == LimitedOutputDirective::FillOutput ==> old(dst)@.len() >= 1,
    ensures
        final(table)@.len() == HASH_SLOTS,
        final(dst)@.len() == old(dst)@.len(),
        out_dir == LimitedOutputDirective::LimitedOutput ==> (r is Ok <==> block_fits(
            old(table)@,
            dict_table@,
            w@,
            start as int,
            start_index,
            dict_index,
            table_type,
            ext_dict,
            use_dict_ctx,
            acceleration as int,
            old(dst)@.len() as int,
        )),
        match r {
            Ok((written, consumed)) => {
                &&& 1 <= written <= old(dst)@.len()
                &&& written <= (w@.len() - start) + (w@.len() - start) / 255 + 16
                &&& consumed <= w@.len() - start
                &&& out_dir != LimitedOutputDirective::FillOutput ==> consumed == w@.len() - start
                &&& out_dir == LimitedOutputDirective::FillOutput ==> {
                    &&& final(dst)@.subrange(0, written as int) == fill_block(
                    old(table)@,
                    dict_table@,
                    w@,
                    start as int,
                    start_index,
                    dict_index,
                    table_type,
                    ext_dict,
                    use_dict_ctx,
                    acceleration as int,
                    old(dst)@.len() as int,
                ).0
                    &&& consumed == fill_block(
                    old(table)@,
                    dict_table@,
                    w@,
                    start as int,
                    start_index,
                    dict_index,
                    table_type,
                    ext_dict,
                    use_dict_ctx,
                    acceleration as int,
                    old(dst)@.len() as int,
                ).1
                    &&& final(table)@ == fill_block_seqs_spec(
                    old(table)@,
                    dict_table@,
                    w@,
                    start as int,
                    start_index,
                    dict_index,
                    table_type,
                    ext_dict,
                    use_dict_ctx,
                    acceleration as int,
                    old(dst)@.len() as int,
                ).2
                }
                &&& out_dir != LimitedOutputDirective::FillOutput ==> kept_from(
                    final(dst)@,
                    old(dst)@,
                    written as int,
                )
                &&& out_dir != LimitedOutputDirective::FillOutput ==> final(dst)@.subrange(
                    0,
                    written as int,
                ) == block_spec(
                    old(table)@,
                    dict_table@,
                    w@,
                    start as int,
                    start_index,
                    dict_index,
                    table_type,
                    ext_dict,
                    use_dict_ctx,
                    acceleration as int,
                )
                &&& out_dir != LimitedOutputDirective::FillOutput ==> final(table)@ == block_seqs_spec(
                    old(table)@,
                    dict_table@,
                    w@,
                    start as int,
                    start_index,
                    dict_index,
                    table_type,
                    ext_dict,
                    use_dict_ctx,
                    acceleration as int,
                ).2
                &&& forall|cap: int|
                    consumed <= cap ==> #[trigger] lz4_decode(
                        final(dst)@.subrange(0, written as int),
                        w@.subrange(0, start as int),
                        cap,
                        false,
                    ) == Some(w@.subrange(start as int, start + consumed))
            },
            Err(e) => {
                &&& e == Lz4Error::OutputTooSmall
                &&& out_dir == LimitedOutputDirective::LimitedOutput
                &&& old(dst)@.len() < (w@.len() - start) + (w@.len() - start) / 255 + 16
            },
        },
{
    proof {
        reveal(block_spec);
        reveal(block_fits);
        reveal(fill_block);
    }
    match encode_sequences(
        table,
        dict_table,
        w,
        start,
        dst,
        start_index,
        dict_index,
        out_dir,
        table_type,
        ext_dict,
        use_dict_ctx,
        acceleration,
    ) {
        Err(e) => Err(e),
        Ok((op, anchor, gs)) => {
            let ghost mid = dst@;
            let r = finish_block(dst, w, start, op, anchor, out_dir, gs);
            proof {
                if out_dir != LimitedOutputDirective::FillOutput {
                    if let Ok((written, _)) = r {
                        lemma_kept_trans(old(dst)@, mid, dst@, op as int, written as int);
                    }
                }
            }
            r
        },
    }
}

/// `out` is a block that decodes, with dictionary `d` and any output
/// capacity from `content.len()` on, to `content`.
pub open spec fn decodes_to(out: Seq<u8>, d: Seq<u8>, content: Seq<u8>) -> bool {
    forall|cap: int| content.len() <= cap ==> #[trigger] lz4_decode(out, d, cap, false) == Some(content)
}

/// The content that precedes the input of a compression with directive
/// `dict_directive`: nothing, the attached state's dictionary, or the
/// state's own dictionary.
pub open spec fn preceding(cctx: &StreamStateInternal, dict_directive: DictDirective) -> Seq<u8> {
    match dict_directive {
        DictDirective::NoDict => Seq::empty(),
        DictDirective::UsingDictCtx => match cctx.dict_ctx {
            Some(c) => c.dictionary@,
            None => cctx.dictionary@,
        },
        _ => cctx.dictionary@,
    }
}

/// An acceleration factor clamped to `1 ..= LZ4_ACCELERATION_MAX`.
pub open spec fn clamped(acceleration: i32) -> int {
    if acceleration < 1 {
        1
    } else if acceleration > 65537 {
        65537
    } else {
        acceleration as int
    }
}

/// The block (outside fill mode) and the table that compressing `src` with
/// no preceding content gives, from the table `t` and the offset `si`: the
/// one-byte empty block for an empty input.
pub open spec fn nodict_block(
    t: Seq<u32>,
    si: u32,
    src: Seq<u8>,
    table_type: TableType,
    acceleration: i32,
) -> (Seq<u8>, Seq<u32>) {
    let acc = clamped(acceleration);
    if src.len() == 0 {
        (seq![0u8], t)
    } else {
        (
            block_spec(t, Seq::empty(), src, 0, si, 0, table_type, false, false, acc),
            block_seqs_spec(t, Seq::empty(), src, 0, si, 0, table_type, false, false, acc).2,
        )
    }
}

/// Whether, in limited mode with `dlen` bytes of output, the block of
/// `nodict_block` is written (the empty input needs one byte).
pub open spec fn nodict_fits(
    t: Seq<u32>,
    si: u32,
    src: Seq<u8>,
    table_type: TableType,
    acceleration: i32,
    dlen: int,
) -> bool {
    if src.len() == 0 {
        dlen >= 1
    } else {
        block_fits(t, Seq::empty(), src, 0, si, 0, table_type, false, false, clamped(acceleration), dlen)
    }
}

/// In fill mode with `dlen` bytes of output (at least one), the block
/// that compressing `src` with no preceding content gives from the table
/// `t` and the offset `si`, how much of `src` it covers, and the table
/// after it: the one-byte empty block for an empty input.
#[verifier::opaque]
pub open spec fn nodict_fill(
    t: Seq<u32>,
    si: u32,
    src: Seq<u8>,
    table_type: TableType,
    acceleration: i32,
    dlen: int,
) -> (Seq<u8>, int, Seq<u32>) {
    let acc = clamped(acceleration);
    if src.len() == 0 {
        (seq![0u8], 0, t)
    } else {
        let f = fill_block(t, Seq::empty(), src, 0, si, 0, table_type, false, false, acc, dlen);
        (f.0, f.1, fill_block_seqs_spec(t, Seq::empty(), src, 0, si, 0, table_type, false, false, acc, dlen).2)
    }
}

/// The block `compress_dest_size` writes into `dlen` bytes (at least one)
/// and how much of `src` it covers: the whole one-shot block when `dlen`
/// reaches the worst-case bound, else the fill-mode block from a
/// zero-initialised state.
pub open spec fn dest_size_block(src: Seq<u8>, acceleration: i32, dlen: int) -> (Seq<u8>, int) {
    if dlen >= bound_of(src.len() as int) {
        (one_shot_block(src, acceleration).0, src.len() as int)
    } else {
        let f = nodict_fill(fresh_table(), 0, src, one_shot_type(src.len() as int), acceleration, dlen);
        (f.0, f.1)
    }
}

/// The table of a zero-initialised state.
pub open spec fn fresh_table() -> Seq<u32> {
    Seq::new(HASH_SLOTS as nat, |i: int| 0u32)
}

/// The table type a one-shot compression of `n` bytes uses.
pub open spec fn one_shot_type(n: int) -> TableType {
    if n < LZ4_64KLIMIT {
        TableType::ByU16
    } else {
        TableType::ByU32
    }
}

/// The block (outside fill mode) and the table of the one-shot compression
/// of `src` from a zero-initialised state.
pub open spec fn one_shot_block(src: Seq<u8>, acceleration: i32) -> (Seq<u8>, Seq<u32>) {
    nodict_block(fresh_table(), 0, src, one_shot_type(src.len() as int), acceleration)
}

/// Whether a one-shot compression of `src` from a zero-initialised state
/// succeeds with `dlen` bytes of output: always from the worst-case bound
/// on (no room checks then), else when the room checks pass.
pub open spec fn one_shot_fits(src: Seq<u8>, acceleration: i32, dlen: int) -> bool {
    dlen >= bound_of(src.len() as int) || nodict_fits(
        fresh_table(),
        0,
        src,
        one_shot_type(src.len() as int),
        acceleration,
        dlen,
    )
}

/// `st` is the state a one-shot compression of `src` leaves.
pub open spec fn one_shot_state(st: &StreamStateInternal, src: Seq<u8>, acceleration: i32) -> bool {
    &&& st.wf()
    &&& st.hash_table@ == one_shot_block(src, acceleration).1
    &&& st.dictionary@.len() == 0
    &&& st.dict_ctx is None
    &&& st.current_offset == src.len()
    &&& st.dict_size == src.len()
    &&& st.table_type == (if src.len() == 0 {
        0
    } else {
        table_type_code(one_shot_type(src.len() as int))
    })
}

/// The block (outside fill mode) and the table that compressing `src`
/// gives from the table `t` at offset `si`, the input following the content
/// that `dict_directive` designates: `d`, or with an attached state `ctx`
/// (its content, table and offset) that state's content.  An empty input
/// gives the one-byte empty block.
pub open spec fn dict_block(
    t: Seq<u32>,
    si: u32,
    d: Seq<u8>,
    ctx: Option<(Seq<u8>, Seq<u32>, u32)>,
    src: Seq<u8>,
    table_type: TableType,
    dict_directive: DictDirective,
    acceleration: i32,
) -> (Seq<u8>, Seq<u32>) {
    let acc = clamped(acceleration);
    if src.len() == 0 {
        (seq![0u8], t)
    } else {
        match dict_directive {
            DictDirective::NoDict => nodict_block(t, si, src, table_type, acceleration),
            DictDirective::WithPrefix64k => (
                block_spec(t, Seq::empty(), d + src, d.len() as int, si, 0, table_type, false, false, acc),
                block_seqs_spec(t, Seq::empty(), d + src, d.len() as int, si, 0, table_type, false, false, acc).2,
            ),
            DictDirective::UsingDictCtx if ctx is Some => {
                let (cd, ct, co) = ctx->0;
                let w = cd + src;
                let st = cd.len() as int;
                (
                    block_spec(t, ct, w, st, si, co, table_type, true, true, acc),
                    block_seqs_spec(t, ct, w, st, si, co, table_type, true, true, acc).2,
                )
            },
            _ => (
                block_spec(t, Seq::empty(), d + src, d.len() as int, si, 0, table_type, true, false, acc),
                block_seqs_spec(t, Seq::empty(), d + src, d.len() as int, si, 0, table_type, true, false, acc).2,
            ),
        }
    }
}

/// Whether, in limited mode with `dlen` bytes of output, the block of
/// `dict_block` is written (the empty input needs one byte).
pub open spec fn dict_fits(
    t: Seq<u32>,
    si: u32,
    d: Seq<u8>,
    ctx: Option<(Seq<u8>, Seq<u32>, u32)>,
    src: Seq<u8>,
    table_type: TableType,
    dict_directive: DictDirective,
    acceleration: i32,
    dlen: int,
) -> bool {
    let acc = clamped(acceleration);
    if src.len() == 0 {
        dlen >= 1
    } else {
        match dict_directive {
            DictDirective::NoDict => nodict_fits(t, si, src, table_type, acceleration, dlen),
            DictDirective::WithPrefix64k => block_fits(
                t,
                Seq::empty(),
                d + src,
                d.len() as int,
                si,
                0,
                table_type,
                false,
                false,
                acc,
                dlen,
            ),
            DictDirective::UsingDictCtx if ctx is Some => {
                let (cd, ct, co) = ctx->0;
                block_fits(t, ct, cd + src, cd.len() as int, si, co, table_type, true, true, acc, dlen)
            },
            _ => block_fits(t, Seq::empty(), d + src, d.len() as int, si, 0, table_type, true, false, acc, dlen),
        }
    }
}

/// `dict_fits` for the state `cctx`.
pub open spec fn generic_fits(
    cctx: &StreamStateInternal,
    src: Seq<u8>,
    table_type: TableType,
    dict_directive: DictDirective,
    acceleration: i32,
    dlen: int,
) -> bool {
    dict_fits(
        cctx.hash_table@,
        cctx.current_offset,
        cctx.dictionary@,
        ctx_parts(cctx.dict_ctx),
        src,
        table_type,
        dict_directive,
        acceleration,
        dlen,
    )
}

/// What an attached state contributes: its content, table and offset.
pub open spec fn ctx_parts(c: Option<Box<StreamStateInternal>>) -> Option<(Seq<u8>, Seq<u32>, u32)> {
    match c {
        Some(dc) => Some((dc.dictionary@, dc.hash_table@, dc.current_offset)),
        None => None,
    }
}

/// The block (outside fill mode) and the table that compressing `src` with
/// the state `cctx` gives, the input following the content that
/// `dict_directive` designates.
pub open spec fn generic_block(
    cctx: &StreamStateInternal,
    src: Seq<u8>,
    table_type: TableType,
    dict_directive: DictDirective,
    acceleration: i32,
) -> (Seq<u8>, Seq<u32>) {
    dict_block(
        cctx.hash_table@,
        cctx.current_offset,
        cctx.dictionary@,
        ctx_parts(cctx.dict_ctx),
        src,
        table_type,
        dict_directive,
        acceleration,
    )
}

/// Clamps an acceleration factor to `1 ..= LZ4_ACCELERATION_MAX`.
pub fn clamp_acceleration(acceleration: i32) -> (r: usize)
    ensures
        1 <= r <= 65537,
        r == (if acceleration < 1 {
            1
        } else if acceleration > 65537 {
            65537
        } else {
            acceleration as int
        }),
{
    if acceleration < LZ4_ACCELERATION_DEFAULT {
        1
    } else if acceleration > LZ4_ACCELERATION_MAX {
        65537
    } else {
        acceleration as usize
    }
}

/// The bytes of `d` followed by those of `src`.
fn join(d: &[u8], src: &[u8]) -> (w: Vec<u8>)
    ensures
        w@ == d@ + src@,
{
    let mut w: Vec<u8> = Vec::new();
    let mut i: usize = 0;
    while i < d.len()
        invariant
            i <= d@.len(),
            w@ == d@.subrange(0, i as int),
        decreases d@.len() - i,
    {
        w.push(d[i]);
        i = i + 1;
        proof {
            assert(w@ =~= d@.subrange(0, i as int));
        }
    }
    let mut j: usize = 0;
    while j < src.len()
        invariant
            j <= src@.len(),
            i == d@.len(),
            w@ == d@ + src@.subrange(0, j as int),
        decreases src@.len() - j,
    {
        w.push(src[j]);
        j = j + 1;
        proof {
            assert(w@ =~= d@ + src@.subrange(0, j as int));
        }
    }
    proof {
        assert(src@.subrange(0, j as int) =~= src@);
    }
    w
}

/// Compresses `src` into `dst` with the state `cctx`, the input following
/// the content that `dict_directive` designates.
///
/// Returns the output length and how many input bytes it covers (all of
/// them, except in fill mode, where the output holds as much as fits).  The
/// output decodes, with that preceding content as dictionary, to the input
/// it covers.  An empty input gives the one-byte empty block.  In limited
/// mode the call succeeds exactly when the encoder's room checks pass; in
/// fill mode without preceding content the block and the input it covers
/// are those of `nodict_fill`.  The state
/// then counts the input as compressed: its offset and history length grow
/// by the input's length, and an attached state is released.
#[verifier::rlimit(100)]
#[verifier::spinoff_prover]
pub fn compress_generic(
    cctx: &mut StreamStateInternal,
    src: &[u8],
    dst: &mut [u8],
    output_directive: LimitedOutputDirective,
    table_type: TableType,
    dict_directive: DictDirective,
    acceleration: i32,
) -> (r: Result<(usize, usize), Lz4Error>)
    requires
        old(cctx).wf(),
        old(cctx).current_offset + src@.len() <= u32::MAX,
        output_directive == LimitedOutputDirective::NotLimited && src@.len() <= LZ4_MAX_INPUT_SIZE
            ==> old(dst)@.len() >= bound_of(src@.len() as int),
    ensures
        final(dst)@.len() == old(dst)@.len(),
        final(cctx).wf(),
        (r == Err::<(usize, usize), Lz4Error>(Lz4Error::InputTooLarge)) <==> src@.len()
            > LZ4_MAX_INPUT_SIZE,
        match r {
            Ok((written, consumed)) => {
                &&& 1 <= written <= old(dst)@.len()
                &&& written <= bound_of(src@.len() as int)
                &&& consumed <= src@.len()
                &&& output_directive != LimitedOutputDirective::FillOutput ==> consumed
                    == src@.len()
                &&& decodes_to(
                    final(dst)@.subrange(0, written as int),
                    preceding(old(cctx), dict_directive),
                    src@.subrange(0, consumed as int),
                )
                &&& output_directive != LimitedOutputDirective::FillOutput ==> {
                    let g = generic_block(old(cctx), src@, table_type, dict_directive, acceleration);
                    &&& final(dst)@.subrange(0, written as int) == g.0
                    &&& kept_from(final(dst)@, old(dst)@, written as int)
                    &&& final(cctx).hash_table@ == g.1
                }
            },
            Err(e) => e == Lz4Error::OutputTooSmall ==> {
                &&& output_directive != LimitedOutputDirective::NotLimited
                &&& old(dst)@.len() < bound_of(src@.len() as int)
                &&& (output_directive == LimitedOutputDirective::FillOutput ==> old(dst)@.len()
                    == 0)
            },
        },
        output_directive == LimitedOutputDirective::FillOutput && src@.len()
            <= LZ4_MAX_INPUT_SIZE ==> (r is Err <==> old(dst)@.len() == 0),
        output_directive == LimitedOutputDirective::LimitedOutput && src@.len()
            <= LZ4_MAX_INPUT_SIZE && old(dst)@.len() >= bound_of(src@.len() as int) ==> r is Ok,
        output_directive == LimitedOutputDirective::LimitedOutput && src@.len()
            <= LZ4_MAX_INPUT_SIZE ==> (r is Ok <==> generic_fits(
            old(cctx),
            src@,
            table_type,
            dict_directive,
            acceleration,
            old(dst)@.len() as int,
        )),
        output_directive == LimitedOutputDirective::NotLimited && src@.len()
            <= LZ4_MAX_INPUT_SIZE ==> r is Ok,
        output_directive == LimitedOutputDirective::FillOutput && dict_directive == DictDirective::NoDict
            && src@.len() <= LZ4_MAX_INPUT_SIZE && old(dst)@.len() > 0 ==> {
            let f = nodict_fill(
                old(cctx).hash_table@,
                old(cctx).current_offset,
                src@,
                table_type,
                acceleration,
                old(dst)@.len() as int,
            );
            &&& r matches Ok((written, consumed))
            &&& final(dst)@.subrange(0, written as int) == f.0
            &&& consumed == f.1
            &&& final(cctx).hash_table@ == f.2
        },
        ({
            let touched = 0 < src@.len() <= LZ4_MAX_INPUT_SIZE && !(output_directive
                == LimitedOutputDirective::FillOutput && old(dst)@.len() == 0);
            &&& touched ==> {
                &&& final(cctx).current_offset == old(cctx).current_offset + src@.len()
                &&& final(cctx).table_type == table_type_code(table_type)
                &&& final(cctx).dictionary@ == old(cctx).dictionary@
                &&& dict_directive == DictDirective::UsingDictCtx ==> final(cctx).dict_ctx is None
                    && final(cctx).dict_size == src@.len()
                &&& dict_directive != DictDirective::UsingDictCtx ==> final(cctx).dict_ctx == old(
                    cctx,
                ).dict_ctx && final(cctx).dict_size == (old(cctx).dict_size + src@.len())
                    % 0x1_0000_0000
            }
            &&& !touched ==> *final(cctx) == *old(cctx)
        }),
{
    if src.len() > LZ4_MAX_INPUT_SIZE as usize {
        return Err(Lz4Error::InputTooLarge);
    }
    let n = src.len();
    if n == 0 {
        if output_directive != LimitedOutputDirective::NotLimited && dst.len() == 0 {
            return Err(Lz4Error::OutputTooSmall);
        }
        dst[0] = 0;
        proof {
            reveal(nodict_fill);
            assert(dst@.subrange(0, 1) =~= seq![0u8]);
            assert(src@.subrange(0, 0) =~= Seq::<u8>::empty());
            assert forall|cap: int| 0 <= cap implies #[trigger] lz4_decode(
                dst@.subrange(0, 1),
                preceding(old(cctx), dict_directive),
                cap,
                false,
            ) == Some(src@.subrange(0, 0)) by {
                lemma_empty_block(preceding(old(cctx), dict_directive), cap);
            }
        }
        return Ok((1, 0));
    }
    if output_directive == LimitedOutputDirective::FillOutput && dst.len() == 0 {
        return Err(Lz4Error::OutputTooSmall);
    }
    let acc = clamp_acceleration(acceleration);
    let start_index = cctx.current_offset;
    let dctx = cctx.dict_ctx.take();
    let no_table: Vec<u32> = Vec::new();
    let res = match dict_directive {
        DictDirective::NoDict => {
            let r0 = compress_window(
                &mut cctx.hash_table,
                no_table.as_slice(),
                src,
                0,
                dst,
                start_index,
                0,
                output_directive,
                table_type,
                false,
                false,
                acc,
            );
            proof {
                if let Ok((wr, co)) = r0 {
                    lemma_window_decodes(dst@.subrange(0, wr as int), Seq::empty(), src@, src@, co as int);
                }
                if output_directive == LimitedOutputDirective::FillOutput {
                    reveal(nodict_fill);
                    let f = nodict_fill(
                        old(cctx).hash_table@,
                        old(cctx).current_offset,
                        src@,
                        table_type,
                        acceleration,
                        old(dst)@.len() as int,
                    );
                    assert(r0 matches Ok((wr, co)) && dst@.subrange(0, wr as int) == f.0 && co
                        == f.1 && cctx.hash_table@ == f.2);
                }
            }
            r0
        },
        DictDirective::WithPrefix64k => {
            let w = join(cctx.dictionary.as_slice(), src);
            let r0 = compress_window(
                &mut cctx.hash_table,
                no_table.as_slice(),
                w.as_slice(),
                cctx.dictionary.len(),
                dst,
                start_index,
                0,
                output_directive,
                table_type,
                false,
                false,
                acc,
            );
            proof {
                if let Ok((wr, co)) = r0 {
                    lemma_window_decodes(dst@.subrange(0, wr as int), cctx.dictionary@, src@, w@, co as int);
                }
            }
            r0
        },
        DictDirective::UsingExtDict => {
            let w = join(cctx.dictionary.as_slice(), src);
            let r0 = compress_window(
                &mut cctx.hash_table,
                no_table.as_slice(),
                w.as_slice(),
                cctx.dictionary.len(),
                dst,
                start_index,
                0,
                output_directive,
                table_type,
                true,
                false,
                acc,
            );
            proof {
                if let Ok((wr, co)) = r0 {
                    lemma_window_decodes(dst@.subrange(0, wr as int), cctx.dictionary@, src@, w@, co as int);
                }
            }
            r0
        },
        DictDirective::UsingDictCtx => match &dctx {
            Some(dc) => {
                let w = join(dc.dictionary.as_slice(), src);
                let r0 = compress_window(
                    &mut cctx.hash_table,
                    dc.hash_table.as_slice(),
                    w.as_slice(),
                    dc.dictionary.len(),
                    dst,
                    start_index,
                    dc.current_offset,
                    output_directive,
                    table_type,
                    true,
                    true,
                    acc,
                );
                proof {
                    if let Ok((wr, co)) = r0 {
                        lemma_window_decodes(dst@.subrange(0, wr as int), dc.dictionary@, src@, w@, co as int);
                    }
                }
                r0
            },
            None => {
                let w = join(cctx.dictionary.as_slice(), src);
                let r0 = compress_window(
                    &mut cctx.hash_table,
                    no_table.as_slice(),
                    w.as_slice(),
                    cctx.dictionary.len(),
                    dst,
                    start_index,
                    0,
                    output_directive,
                    table_type,
                    true,
                    false,
                    acc,
                );
                proof {
                    if let Ok((wr, co)) = r0 {
                        lemma_window_decodes(dst@.subrange(0, wr as int), cctx.dictionary@, src@, w@, co as int);
                    }
                }
                r0
            },
        },
    };
    if dict_directive == DictDirective::UsingDictCtx {
        cctx.dict_ctx = None;
        cctx.dict_size = n as u32;
    } else {
        cctx.dict_ctx = dctx;
        cctx.dict_size = cctx.dict_size.wrapping_add(n as u32);
    }
    cctx.current_offset = start_index + (n as u32);
    cctx.table_type = table_type_code_of(table_type);
    res
}

/// A block compressed from a window of the preceding content `d` and the
/// input `src` decodes with `d` as dictionary.
proof fn lemma_window_decodes(out: Seq<u8>, d: Seq<u8>, src: Seq<u8>, w: Seq<u8>, co: int)
    requires
        w == d + src,
        0 <= co <= src.len(),
        forall|cap: int|
            co <= cap ==> #[trigger] lz4_decode(out, w.subrange(0, d.len() as int), cap, false)
                == Some(w.subrange(d.len() as int, d.len() + co)),
    ensures
        decodes_to(out, d, src.subrange(0, co)),
{
    assert(w.subrange(0, d.len() as int) =~= d);
    assert(w.subrange(d.len() as int, d.len() + co) =~= src.subrange(0, co));
    assert forall|cap: int| src.subrange(0, co).len() <= cap implies #[trigger] lz4_decode(
        out,
        d,
        cap,
        false,
    ) == Some(src.subrange(0, co)) by {
        assert(lz4_decode(out, w.subrange(0, d.len() as int), cap, false) == Some(
            w.subrange(d.len() as int, d.len() + co),
        ));
    }
}

/// The one-byte empty block decodes to nothing.
proof fn lemma_empty_block(d: Seq<u8>, cap: int)
    requires
        0 <= cap,
    ensures
        lz4_decode(seq![0u8], d, cap, false) == Some(Seq::<u8>::empty()),
{
    let s: Seq<SeqRec> = Seq::empty();
    let w = d;
    lemma_decode_encoded(w, d.len() as int, s, 0, cap);
    assert(enc_seqs(w, d.len() as int, s) =~= Seq::<u8>::empty());
    assert(enc_last(w, d.len() as int, 0) =~= seq![0u8]);
    assert(w.subrange(0, d.len() as int) =~= d);
    assert(Seq::<u8>::empty() + seq![0u8] =~= seq![0u8]);
}

/// Table type for a one-shot compression: 16-bit entries for inputs below
/// `LZ4_64KLIMIT`, 32-bit ones above.
fn one_shot_table_type(n: usize) -> (t: TableType)
    ensures
        t == (if n < LZ4_64KLIMIT {
            TableType::ByU16
        } else {
            TableType::ByU32
        }),
{
    if n < LZ4_64KLIMIT {
        TableType::ByU16
    } else {
        TableType::ByU32
    }
}

/// Compresses `src` into `dst` with the caller's state, which is
/// re-initialised first.
///
/// Succeeds whenever `dst` holds `compress_bound(src.len())` bytes; with less
/// room it fails with `OutputTooSmall` when the compressed block does not
/// fit.  The block decodes to `src`.
pub fn compress_fast_ext_state(
    state: &mut StreamStateInternal,
    src: &[u8],
    dst: &mut [u8],
    acceleration: i32,
) -> (r: Result<usize, Lz4Error>)
    ensures
        final(dst)@.len() == old(dst)@.len(),
        final(state).wf(),
        src@.len() <= LZ4_MAX_INPUT_SIZE ==> (r is Ok <==> one_shot_fits(
            src@,
            acceleration,
            old(dst)@.len() as int,
        )),
        r matches Ok(k) ==> kept_from(final(dst)@, old(dst)@, k as int),
        r matches Ok(k) ==> 1 <= k,
        r matches Ok(k) ==> final(dst)@.subrange(0, k as int) == one_shot_block(src@, acceleration).0
            && one_shot_state(final(state), src@, acceleration),
        (r == Err::<usize, Lz4Error>(Lz4Error::InputTooLarge)) <==> src@.len()
            > LZ4_MAX_INPUT_SIZE,
        src@.len() <= LZ4_MAX_INPUT_SIZE && old(dst)@.len() >= bound_of(src@.len() as int) ==> r is Ok,
        match r {
            Ok(k) => k <= old(dst)@.len() && k <= bound_of(src@.len() as int) && decodes_to(
                final(dst)@.subrange(0, k as int),
                Seq::empty(),
                src@,
            ),
            Err(e) => e == Lz4Error::OutputTooSmall ==> old(dst)@.len() < bound_of(
                src@.len() as int,
            ),
        },
{
    *state = StreamStateInternal::new();
    proof {
        assert(state.hash_table@ =~= fresh_table());
    }
    if src.len() > LZ4_MAX_INPUT_SIZE as usize {
        return Err(Lz4Error::InputTooLarge);
    }
    let n = src.len();
    let bound = compress_bound(n as i32);
    let table_type = one_shot_table_type(n);
    let dir = if dst.len() >= bound as usize {
        LimitedOutputDirective::NotLimited
    } else {
        LimitedOutputDirective::LimitedOutput
    };
    match compress_generic(state, src, dst, dir, table_type, DictDirective::NoDict, acceleration) {
        Ok((written, consumed)) => {
            proof {
                assert(src@.subrange(0, consumed as int) =~= src@);
            }
            Ok(written)
        },
        Err(e) => Err(e),
    }
}

/// Like `compress_fast_ext_state`, but prepares the state instead of
/// re-initialising it: its table is kept when its entries can be reused.
/// A state whose table is marked cleared must carry an offset of at most
/// 1 GiB, as every state made by this library's operations does.
#[verifier::rlimit(60)]
#[verifier::spinoff_prover]
pub fn compress_fast_ext_state_fast_reset(
    state: &mut StreamStateInternal,
    src: &[u8],
    dst: &mut [u8],
    acceleration: i32,
) -> (r: Result<usize, Lz4Error>)
    requires
        old(state).wf(),
        table_type_of(old(state).table_type) == TableType::ClearedTable ==> old(
            state,
        ).current_offset <= GB,
    ensures
        final(dst)@.len() == old(dst)@.len(),
        final(state).wf(),
        r matches Ok(k) ==> kept_from(final(dst)@, old(dst)@, k as int),
        r matches Ok(k) ==> 1 <= k,
        src@.len() <= LZ4_MAX_INPUT_SIZE ==> {
            let n = src@.len() as int;
            let tt = one_shot_type(n);
            let reused = !needs_reset(old(state), n, tt);
            let t = if reused {
                old(state).hash_table@
            } else {
                fresh_table()
            };
            let si = if reused {
                ((old(state).current_offset + (if old(state).current_offset != 0 && tt
                    == TableType::ByU32 {
                    65536int
                } else {
                    0int
                })) % 0x1_0000_0000) as u32
            } else {
                0u32
            };
            r is Ok <==> (old(dst)@.len() >= bound_of(n) || nodict_fits(
                t,
                si,
                src@,
                tt,
                acceleration,
                old(dst)@.len() as int,
            ))
        },
        old(state).is_fresh() && src@.len() <= LZ4_MAX_INPUT_SIZE ==> (r is Ok <==> one_shot_fits(
            src@,
            acceleration,
            old(dst)@.len() as int,
        )),
        r matches Ok(k) ==> {
            let n = src@.len() as int;
            let tt = one_shot_type(n);
            let reused = !needs_reset(old(state), n, tt);
            let t = if reused {
                old(state).hash_table@
            } else {
                fresh_table()
            };
            let si = if reused {
                ((old(state).current_offset + (if old(state).current_offset != 0 && tt
                    == TableType::ByU32 {
                    65536int
                } else {
                    0int
                })) % 0x1_0000_0000) as u32
            } else {
                0u32
            };
            &&& final(dst)@.subrange(0, k as int) == nodict_block(t, si, src@, tt, acceleration).0
            &&& final(state).hash_table@ == nodict_block(t, si, src@, tt, acceleration).1
        },
        old(state).is_fresh() ==> (r matches Ok(k) ==> final(dst)@.subrange(0, k as int)
            == one_shot_block(src@, acceleration).0 && one_shot_state(final(state), src@, acceleration)),
        (r == Err::<usize, Lz4Error>(Lz4Error::InputTooLarge)) <==> src@.len()
            > LZ4_MAX_INPUT_SIZE,
        src@.len() <= LZ4_MAX_INPUT_SIZE && old(dst)@.len() >= bound_of(src@.len() as int) ==> r is Ok,
        match r {
            Ok(k) => k <= old(dst)@.len() && k <= bound_of(src@.len() as int) && decodes_to(
                final(dst)@.subrange(0, k as int),
                Seq::empty(),
                src@,
            ),
            Err(e) => e == Lz4Error::OutputTooSmall ==> old(dst)@.len() < bound_of(
                src@.len() as int,
            ),
        },
{
    if src.len() > LZ4_MAX_INPUT_SIZE as usize {
        return Err(Lz4Error::InputTooLarge);
    }
    let n = src.len();
    let bound = compress_bound(n as i32);
    let table_type = one_shot_table_type(n);
    let ghost fresh0 = state.is_fresh();
    prepare_table(state, n as i32, table_type);
    proof {
        if fresh0 {
            assert(old(state).hash_table@ =~= fresh_table());
            assert(state.hash_table@ =~= fresh_table());
        }
        if needs_reset(old(state), n as int, table_type) {
            assert(state.hash_table@ =~= fresh_table());
        }
    }
    proof {
        assert(state.current_offset + n <= u32::MAX) by {
            if !needs_reset(old(state), n as int, table_type) {
                if table_type_of(old(state).table_type) != TableType::ClearedTable {
                    assert(table_type_of(old(state).table_type) == table_type);
                }
            }
        }
    }
    let dir = if dst.len() >= bound as usize {
        LimitedOutputDirective::NotLimited
    } else {
        LimitedOutputDirective::LimitedOutput
    };
    match compress_generic(state, src, dst, dir, table_type, DictDirective::NoDict, acceleration) {
        Ok((written, consumed)) => {
            proof {
                assert(src@.subrange(0, consumed as int) =~= src@);
            }
            Ok(written)
        },
        Err(e) => Err(e),
    }
}

/// Compresses `src` into `dst` with acceleration `acceleration` (clamped to
/// `1 ..= LZ4_ACCELERATION_MAX`; higher is faster and compresses less).
///
/// Returns the compressed length.  Succeeds whenever `dst` holds
/// `compress_bound(src.len())` bytes; fails with `InputTooLarge` exactly
/// when `src` exceeds `LZ4_MAX_INPUT_SIZE`, and with `OutputTooSmall` when
/// the block does not fit.  The block decodes back to `src`.
pub fn compress_fast(src: &[u8], dst: &mut [u8], acceleration: i32) -> (r: Result<usize, Lz4Error>)
    ensures
        final(dst)@.len() == old(dst)@.len(),
        src@.len() <= LZ4_MAX_INPUT_SIZE ==> (r is Ok <==> one_shot_fits(
            src@,
            acceleration,
            old(dst)@.len() as int,
        )),
        r matches Ok(k) ==> kept_from(final(dst)@, old(dst)@, k as int),
        r matches Ok(k) ==> 1 <= k,
        r matches Ok(k) ==> final(dst)@.subrange(0, k as int) == one_shot_block(src@, acceleration).0,
        (r == Err::<usize, Lz4Error>(Lz4Error::InputTooLarge)) <==> src@.len()
            > LZ4_MAX_INPUT_SIZE,
        src@.len() <= LZ4_MAX_INPUT_SIZE && old(dst)@.len() >= bound_of(src@.len() as int) ==> r is Ok,
        match r {
            Ok(k) => k <= old(dst)@.len() && k <= bound_of(src@.len() as int) && decodes_to(
                final(dst)@.subrange(0, k as int),
                Seq::empty(),
                src@,
            ),
            Err(e) => e == Lz4Error::OutputTooSmall ==> old(dst)@.len() < bound_of(
                src@.len() as int,
            ),
        },
{
    if src.len() > LZ4_MAX_INPUT_SIZE as usize {
        return Err(Lz4Error::InputTooLarge);
    }
    let mut ctx = StreamStateInternal::new();
    compress_fast_ext_state(&mut ctx, src, dst, acceleration)
}

/// Compresses `src` into `dst` with the default acceleration; see
/// `compress_fast`.
pub fn compress_default(src: &[u8], dst: &mut [u8]) -> (r: Result<usize, Lz4Error>)
    ensures
        final(dst)@.len() == old(dst)@.len(),
        src@.len() <= LZ4_MAX_INPUT_SIZE ==> (r is Ok <==> one_shot_fits(
            src@,
            1i32,
            old(dst)@.len() as int,
        )),
        r matches Ok(k) ==> kept_from(final(dst)@, old(dst)@, k as int),
        r matches Ok(k) ==> 1 <= k,
        r matches Ok(k) ==> final(dst)@.subrange(0, k as int) == one_shot_block(src@, 1i32).0,
        (r == Err::<usize, Lz4Error>(Lz4Error::InputTooLarge)) <==> src@.len()
            > LZ4_MAX_INPUT_SIZE,
        src@.len() <= LZ4_MAX_INPUT_SIZE && old(dst)@.len() >= bound_of(src@.len() as int) ==> r is Ok,
        match r {
            Ok(k) => k <= old(dst)@.len() && k <= bound_of(src@.len() as int) && decodes_to(
                final(dst)@.subrange(0, k as int),
                Seq::empty(),
                src@,
            ),
            Err(e) => e == Lz4Error::OutputTooSmall ==> old(dst)@.len() < bound_of(
                src@.len() as int,
            ),
        },
{
    compress_fast(src, dst, 1)
}

/// Compresses as much of `src` as fits into `dst`, with the caller's state,
/// which is re-initialised first and left in use.
fn compress_dest_size_ext_state_internal(
    state: &mut StreamStateInternal,
    src: &[u8],
    dst: &mut [u8],
    acceleration: i32,
) -> (r: Result<(usize, usize), Lz4Error>)
    ensures
        final(dst)@.len() == old(dst)@.len(),
        final(state).wf(),
        (r == Err::<(usize, usize), Lz4Error>(Lz4Error::InputTooLarge)) <==> src@.len()
            > LZ4_MAX_INPUT_SIZE,
        (r == Err::<(usize, usize), Lz4Error>(Lz4Error::OutputTooSmall)) <==> (src@.len()
            <= LZ4_MAX_INPUT_SIZE && old(dst)@.len() == 0),
        src@.len() <= LZ4_MAX_INPUT_SIZE && old(dst)@.len() > 0 ==> {
            let b = dest_size_block(src@, acceleration, old(dst)@.len() as int);
            &&& r matches Ok((consumed, written))
            &&& final(dst)@.subrange(0, written as int) == b.0
            &&& consumed == b.1
        },
        match r {
            Ok((consumed, written)) => {
                &&& consumed <= src@.len()
                &&& written <= old(dst)@.len()
                &&& old(dst)@.len() >= bound_of(src@.len() as int) ==> consumed == src@.len()
                &&& decodes_to(
                    final(dst)@.subrange(0, written as int),
                    Seq::empty(),
                    src@.subrange(0, consumed as int),
                )
            },
            Err(_) => true,
        },
{
    *state = StreamStateInternal::new();
    proof {
        assert(state.hash_table@ =~= fresh_table());
    }
    if src.len() > LZ4_MAX_INPUT_SIZE as usize {
        return Err(Lz4Error::InputTooLarge);
    }
    let n = src.len();
    let bound = compress_bound(n as i32);
    if dst.len() >= bound as usize {
        match compress_fast_ext_state(state, src, dst, acceleration) {
            Ok(written) => {
                proof {
                    assert(src@.subrange(0, n as int) =~= src@);
                }
                Ok((n, written))
            },
            Err(e) => Err(e),
        }
    } else {
        let table_type = one_shot_table_type(n);
        match compress_generic(
            state,
            src,
            dst,
            LimitedOutputDirective::FillOutput,
            table_type,
            DictDirective::NoDict,
            acceleration,
        ) {
            Ok((written, consumed)) => Ok((consumed, written)),
            Err(e) => Err(e),
        }
    }
}

/// Compresses as much of `src` as fits into `dst`, with the caller's state,
/// which is re-initialised before and after.
///
/// Returns how many input bytes were consumed and the compressed length; the
/// block decodes to the consumed input.  All of `src` is consumed whenever
/// `dst` holds `compress_bound(src.len())` bytes, and the block is then the
/// one-shot block; below that bound it is the fill-mode block, which takes
/// input sequence by sequence while the room checks pass.  Fails with
/// `OutputTooSmall` exactly when `dst` is empty, and with `InputTooLarge`
/// exactly when `src` exceeds `LZ4_MAX_INPUT_SIZE`.
pub fn compress_dest_size_ext_state(
    state: &mut StreamStateInternal,
    src: &[u8],
    dst: &mut [u8],
    acceleration: i32,
) -> (r: Result<(usize, usize), Lz4Error>)
    ensures
        final(dst)@.len() == old(dst)@.len(),
        final(state).is_fresh(),
        (r == Err::<(usize, usize), Lz4Error>(Lz4Error::InputTooLarge)) <==> src@.len()
            > LZ4_MAX_INPUT_SIZE,
        (r == Err::<(usize, usize), Lz4Error>(Lz4Error::OutputTooSmall)) <==> (src@.len()
            <= LZ4_MAX_INPUT_SIZE && old(dst)@.len() == 0),
        src@.len() <= LZ4_MAX_INPUT_SIZE && old(dst)@.len() > 0 ==> {
            let b = dest_size_block(src@, acceleration, old(dst)@.len() as int);
            &&& r matches Ok((consumed, written))
            &&& final(dst)@.subrange(0, written as int) == b.0
            &&& consumed == b.1
        },
        match r {
            Ok((consumed, written)) => {
                &&& consumed <= src@.len()
                &&& written <= old(dst)@.len()
                &&& old(dst)@.len() >= bound_of(src@.len() as int) ==> consumed == src@.len()
                &&& decodes_to(
                    final(dst)@.subrange(0, written as int),
                    Seq::empty(),
                    src@.subrange(0, consumed as int),
                )
            },
            Err(_) => true,
        },
{
    let r = compress_dest_size_ext_state_internal(state, src, dst, acceleration);
    *state = StreamStateInternal::new();
    r
}

/// Compresses as much of `src` as fits into `dst`; see
/// `compress_dest_size_ext_state`.
pub fn compress_dest_size(src: &[u8], dst: &mut [u8]) -> (r: Result<(usize, usize), Lz4Error>)
    ensures
        final(dst)@.len() == old(dst)@.len(),
        (r == Err::<(usize, usize), Lz4Error>(Lz4Error::InputTooLarge)) <==> src@.len()
            > LZ4_MAX_INPUT_SIZE,
        (r == Err::<(usize, usize), Lz4Error>(Lz4Error::OutputTooSmall)) <==> (src@.len()
            <= LZ4_MAX_INPUT_SIZE && old(dst)@.len() == 0),
        src@.len() <= LZ4_MAX_INPUT_SIZE && old(dst)@.len() > 0 ==> {
            let b = dest_size_block(src@, 1i32, old(dst)@.len() as int);
            &&& r matches Ok((consumed, written))
            &&& final(dst)@.subrange(0, written as int) == b.0
            &&& consumed == b.1
        },
        match r {
            Ok((consumed, written)) => {
                &&& consumed <= src@.len()
                &&& written <= old(dst)@.len()
                &&& old(dst)@.len() >= bound_of(src@.len() as int) ==> consumed == src@.len()
                &&& decodes_to(
                    final(dst)@.subrange(0, written as int),
                    Seq::empty(),
                    src@.subrange(0, consumed as int),
                )
            },
            Err(_) => true,
        },
{
    let mut ctx = StreamStateInternal::new();
    compress_dest_size_ext_state_internal(&mut ctx, src, dst, 1)
}

/// Compresses as much of the first `*src_size` bytes of `src` as fits into
/// `dst`; `*src_size` then holds how many were consumed.  Returns the
/// compressed length; see `compress_dest_size`.
pub fn compress_dest_size_raw(src: &[u8], dst: &mut [u8], src_size: &mut usize) -> (r: Result<
    usize,
    Lz4Error,
>)
    requires
        *old(src_size) <= src@.len(),
    ensures
        final(dst)@.len() == old(dst)@.len(),
        (r == Err::<usize, Lz4Error>(Lz4Error::InputTooLarge)) <==> *old(src_size)
            > LZ4_MAX_INPUT_SIZE,
        (r == Err::<usize, Lz4Error>(Lz4Error::OutputTooSmall)) <==> (*old(src_size)
            <= LZ4_MAX_INPUT_SIZE && old(dst)@.len() == 0),
        *old(src_size) <= LZ4_MAX_INPUT_SIZE && old(dst)@.len() > 0 ==> {
            let b = dest_size_block(src@.subrange(0, *old(src_size) as int), 1i32, old(dst)@.len() as int);
            &&& r matches Ok(written)
            &&& final(dst)@.subrange(0, written as int) == b.0
            &&& *final(src_size) == b.1
        },
        match r {
            Ok(written) => {
                &&& *final(src_size) <= *old(src_size)
                &&& written <= old(dst)@.len()
                &&& old(dst)@.len() >= bound_of(*old(src_size) as int) ==> *final(src_size) == *old(
                    src_size,
                )
                &&& decodes_to(
                    final(dst)@.subrange(0, written as int),
                    Seq::empty(),
                    src@.subrange(0, *final(src_size) as int),
                )
            },
            Err(_) => *final(src_size) == *old(src_size),
        },
{
    let input = vstd::slice::slice_subrange(src, 0, *src_size);
    match compress_dest_size(input, dst) {
        Ok((consumed, written)) => {
            proof {
                assert(input@.subrange(0, consumed as int) =~= src@.subrange(0, consumed as int));
            }
            *src_size = consumed;
            Ok(written)
        },
        Err(e) => Err(e),
    }
}

} // verus!
