//! LZ4 block decoder: one-shot, partial, dictionary and streaming decoding.
//!
//! Every entry point is proved to produce exactly what `lz4_decode` (the
//! block format's meaning, in `spec.rs`) says, and to reject exactly the
//! blocks that it rejects.

use vstd::prelude::*;
use vstd::arithmetic::div_mod::lemma_mod_add_multiples_vanish;
use crate::block::spec::{
    dec_fast, dec_fast_step, dec_lits, dec_match, dec_run, dec_slow, dec_step, le16_at, length_field_max, lz4_decode, match_bytes,
    read_var, var_tail, DecStep,
};

verus! {

/// Largest input accepted by the block functions.
pub const LZ4_MAX_INPUT_SIZE: usize = 2113929216;

/// Error of the block decoder.
#[derive(Debug, Clone, Copy, PartialEq, Eq, Structural)]
pub enum DecompressError {
    /// The block is malformed or does not fit the output buffer.
    MalformedInput,
}

/// Result of decoding one sequence: failure, end of block with the output
/// length, or the next token's position with the output length.
enum StepOut {
    Fail,
    Done(usize),
    Next(usize, usize),
}

/// The decoder's outcome for a step, compared with the exec outcome `r`
/// reached from the output `out_before` (its first `op` bytes) to `after`.
spec fn step_matches(s: DecStep, r: StepOut, after: Seq<u8>, ip: int, n: int, cap: int) -> bool {
    match r {
        StepOut::Fail => s is Fail,
        StepOut::Done(o) => o <= cap && o <= after.len() && s == DecStep::Done(
            after.subrange(0, o as int),
        ),
        StepOut::Next(i2, o2) => ip < i2 <= n && o2 <= cap && o2 <= after.len() && s
            == DecStep::Next(i2 as int, after.subrange(0, o2 as int)),
    }
}

/// Reads a length field's extension bytes; mirrors `read_var`.
fn read_variable_length(src: &[u8], ip: usize, limit: usize, initial_check: bool) -> (r: Option<
    (usize, usize),
>)
    requires
        limit <= src@.len(),
    ensures
        match r {
            Some((v, q)) => read_var(src@, ip as int, limit as int, initial_check) == Some(
                (v as int, q as int),
            ) && v <= length_field_max() && ip < q <= limit,
            None => read_var(src@, ip as int, limit as int, initial_check) is None,
        },
{
    if initial_check && ip >= limit {
        return None;
    }
    let half: usize = usize::MAX / 2;
    let mut p = ip;
    let mut acc: usize = 0;
    loop
        invariant
            limit <= src@.len(),
            acc <= half,
            p >= ip,
            half == length_field_max(),
            read_var(src@, ip as int, limit as int, initial_check) == var_tail(
                src@,
                p as int,
                limit as int,
                acc as int,
            ),
        decreases src@.len() - p,
    {
        if p >= src.len() {
            return None;
        }
        let s = src[p] as usize;
        let p2 = p + 1;
        if p2 > limit {
            return None;
        }
        if acc + s > half {
            return None;
        }
        acc = acc + s;
        if s != 255 {
            return Some((acc, p2));
        }
        p = p2;
    }
}

/// Appends `len` bytes of `src` starting at `ip` to the output at `op`.
fn copy_literals(dst: &mut [u8], op: usize, src: &[u8], ip: usize, len: usize)
    requires
        op + len <= old(dst).len(),
        ip + len <= src.len(),
    ensures
        final(dst)@.len() == old(dst)@.len(),
        final(dst)@.subrange(0, op + len) == old(dst)@.subrange(0, op as int) + src@.subrange(
            ip as int,
            ip + len,
        ),
{
    let ghost before = dst@;
    let dl = dst.len();
    let sl = src.len();
    let mut k: usize = 0;
    while k < len
        invariant
            k <= len,
            dl == dst@.len(),
            sl == src@.len(),
            op + len <= dl,
            ip + len <= sl,
            dst@.len() == before.len(),
            forall|j: int| 0 <= j < op ==> dst@[j] == before[j],
            forall|j: int| 0 <= j < k ==> #[trigger] dst@[op + j] == src@[ip + j],
        decreases len - k,
    {
        dst[op + k] = src[ip + k];
        k = k + 1;
    }
    proof {
        assert forall|i: int| op <= i < op + len implies dst@[i] == src@[ip + (i - op)] by {
            assert(dst@[op + (i - op)] == src@[ip + (i - op)]);
        }
        assert(dst@.subrange(0, op + len) =~= before.subrange(0, op as int) + src@.subrange(
            ip as int,
            ip + len,
        ));
    }
}

/// Appends a match of `len` bytes at distance `off` to the output at `op`,
/// reading through the dictionary when the match reaches before the output.
fn copy_match(dst: &mut [u8], op: usize, dict: &[u8], off: usize, len: usize)
    requires
        op + len <= old(dst).len(),
        1 <= off <= op + dict@.len(),
    ensures
        final(dst)@.len() == old(dst)@.len(),
        final(dst)@.subrange(0, op + len) == old(dst)@.subrange(0, op as int) + match_bytes(
            dict@,
            old(dst)@.subrange(0, op as int),
            off as int,
            len as int,
        ),
{
    let ghost out0 = dst@.subrange(0, op as int);
    let ghost w = dict@ + out0;
    let ghost mb = match_bytes(dict@, out0, off as int, len as int);
    let ghost before = dst@;
    let dlen = dict.len();
    let dl = dst.len();
    let mut k: usize = 0;
    while k < len
        invariant
            k <= len,
            dl == dst@.len(),
            op + len <= dl,
            1 <= off <= op + dict@.len(),
            dlen == dict@.len(),
            dst@.len() == before.len(),
            out0 == before.subrange(0, op as int),
            w == dict@ + out0,
            mb == match_bytes(dict@, out0, off as int, len as int),
            dst@.subrange(0, op as int) == out0,
            forall|j: int| 0 <= j < k ==> #[trigger] dst@[op + j] == mb[j],
        decreases len - k,
    {
        let byte: u8 = if off <= op + k {
            dst[op + k - off]
        } else {
            dict[dlen - (off - (op + k))]
        };
        proof {
            let idx = dlen + op - off + k;
            let p = w.len() - off;
            assert(mb[k as int] == w[p + (k as int) % (off as int)]);
            if idx < dlen {
                assert((k as int) < off);
                assert((k as int) % (off as int) == k as int) by {
                    vstd::arithmetic::div_mod::lemma_small_mod(k as nat, off as nat);
                }
                assert(w[p + k] == dict@[idx]);
            } else if (k as int) < off {
                assert((k as int) % (off as int) == k as int) by {
                    vstd::arithmetic::div_mod::lemma_small_mod(k as nat, off as nat);
                }
                assert(dst@[idx - dlen] == out0[idx - dlen]);
                assert(w[p + k] == out0[idx - dlen]);
            } else {
                let j = k - off;
                assert(dst@[op + j] == mb[j]);
                assert(idx - dlen == op + j);
                lemma_mod_add_multiples_vanish(j as int, off as int);
                assert((off as int + j) % (off as int) == (j as int) % (off as int));
            }
        }
        dst[op + k] = byte;
        k = k + 1;
    }
    proof {
        assert forall|i: int| op <= i < op + len implies dst@[i] == mb[i - op] by {
            assert(dst@[op + (i - op)] == mb[i - op]);
        }
        assert(dst@.subrange(0, op + len) =~= out0 + mb);
    }
}

/// Decodes the match part of a sequence; mirrors `dec_match`.
fn decode_match(
    src: &[u8],
    dst: &mut [u8],
    cap: usize,
    partial: bool,
    dict: &[u8],
    ip: usize,
    op: usize,
    off: usize,
    mlc: usize,
) -> (r: StepOut)
    requires
        ip <= src@.len(),
        op <= cap <= old(dst)@.len(),
        mlc < 16,
    ensures
        final(dst)@.len() == old(dst)@.len(),
        step_matches(
            dec_match(
                src@,
                dict@,
                cap as int,
                partial,
                ip as int,
                old(dst)@.subrange(0, op as int),
                off as int,
                mlc as int,
            ),
            r,
            final(dst)@,
            ip as int - 1,
            src@.len() as int,
            cap as int,
        ),
{
    let n = src.len();
    let ilimit: usize = if n >= 5 { n - 4 } else { 0 };
    let ml: usize;
    let ip2: usize;
    if mlc == 15 {
        match read_variable_length(src, ip, ilimit, false) {
            None => { return StepOut::Fail; },
            Some((v, q)) => {
                ml = v + 19;
                ip2 = q;
            },
        }
    } else {
        ml = mlc + 4;
        ip2 = ip;
    }
    let ghost out = dst@.subrange(0, op as int);
    if off == 0 || (off > op && off - op > dict.len()) {
        return StepOut::Fail;
    }
    if off > op {
        let len = if ml + 5 > cap - op {
            if partial {
                if cap - op < ml { cap - op } else { ml }
            } else {
                return StepOut::Fail;
            }
        } else {
            ml
        };
        copy_match(dst, op, dict, off, len);
        return StepOut::Next(ip2, op + len);
    }
    if partial && ml + 12 > cap - op {
        let len = if cap - op < ml { cap - op } else { ml };
        copy_match(dst, op, dict, off, len);
        if op + len == cap {
            return StepOut::Done(op + len);
        } else {
            return StepOut::Next(ip2, op + len);
        }
    }
    if ml + 5 > cap - op {
        return StepOut::Fail;
    }
    copy_match(dst, op, dict, off, ml);
    StepOut::Next(ip2, op + ml)
}

/// Decodes a sequence through the short-sequence shortcut (`dec_fast` holds).
fn decode_fast(
    src: &[u8],
    dst: &mut [u8],
    cap: usize,
    partial: bool,
    dict: &[u8],
    ip: usize,
    op: usize,
) -> (r: StepOut)
    requires
        ip < src@.len(),
        op <= cap <= old(dst)@.len(),
        dec_fast(src@, cap as int, ip as int, old(dst)@.subrange(0, op as int)),
    ensures
        final(dst)@.len() == old(dst)@.len(),
        step_matches(
            dec_fast_step(src@, dict@, cap as int, partial, ip as int, old(dst)@.subrange(0, op as int)),
            r,
            final(dst)@,
            ip as int,
            src@.len() as int,
            cap as int,
        ),
{
    let token = src[ip];
    let ll0 = (token >> 4u8) as usize;
    let mlc = (token & 15u8) as usize;
    proof {
        assert(token >> 4u8 == token / 16) by (bit_vector);
        assert(token & 15u8 == token % 16) by (bit_vector);
    }
    let ip1 = ip + 1;
    copy_literals(dst, op, src, ip1, ll0);
    let ip2 = ip1 + ll0;
    let op1 = op + ll0;
    let off = src[ip2] as usize + 256 * (src[ip2 + 1] as usize);
    assert(off == le16_at(src@, ip2 as int));
    if mlc != 15 && off >= 8 && off <= op1 {
        copy_match(dst, op1, dict, off, mlc + 4);
        assert(dst@.subrange(0, op1 + mlc + 4) == old(dst)@.subrange(0, op as int) + src@.subrange(
            ip1 as int, ip2 as int) + match_bytes(dict@, old(dst)@.subrange(0, op as int) + src@.subrange(
            ip1 as int, ip2 as int), off as int, mlc as int + 4));
        StepOut::Next(ip2 + 2, op1 + mlc + 4)
    } else {
        decode_match(src, dst, cap, partial, dict, ip2 + 2, op1, off, mlc)
    }
}

/// Decodes a literal run of `ll` bytes at `ipl` and what follows; mirrors `dec_lits`.
fn decode_lits(
    src: &[u8],
    dst: &mut [u8],
    cap: usize,
    partial: bool,
    dict: &[u8],
    op: usize,
    ll: usize,
    ipl: usize,
    mlc: usize,
    ip: Ghost<int>,
) -> (r: StepOut)
    requires
        ip@ < ipl <= src@.len(),
        op <= cap <= old(dst)@.len(),
        mlc < 16,
        ll <= length_field_max() + 15,
    ensures
        final(dst)@.len() == old(dst)@.len(),
        step_matches(
            dec_lits(
                src@,
                dict@,
                cap as int,
                partial,
                old(dst)@.subrange(0, op as int),
                ll as int,
                ipl as int,
                mlc as int,
            ),
            r,
            final(dst)@,
            ip@,
            src@.len() as int,
            cap as int,
        ),
{
    let n = src.len();
    if ll + 12 > cap - op || ll + 8 > n - ipl {
        if partial {
            let ll1 = if ll > n - ipl { n - ipl } else { ll };
            let ll2 = if ll1 > cap - op { cap - op } else { ll1 };
            copy_literals(dst, op, src, ipl, ll2);
            let ip2 = ipl + ll2;
            let op1 = op + ll2;
            if op1 == cap || n - ip2 <= 2 {
                return StepOut::Done(op1);
            }
            let off = src[ip2] as usize + 256 * (src[ip2 + 1] as usize);
            assert(off == le16_at(src@, ip2 as int));
            decode_match(src, dst, cap, partial, dict, ip2 + 2, op1, off, mlc)
        } else {
            if ll != n - ipl || ll > cap - op {
                return StepOut::Fail;
            }
            copy_literals(dst, op, src, ipl, ll);
            StepOut::Done(op + ll)
        }
    } else {
        copy_literals(dst, op, src, ipl, ll);
        let ip2 = ipl + ll;
        let off = src[ip2] as usize + 256 * (src[ip2 + 1] as usize);
        assert(off == le16_at(src@, ip2 as int));
        decode_match(src, dst, cap, partial, dict, ip2 + 2, op + ll, off, mlc)
    }
}

/// Decodes a sequence outside the shortcut (`dec_fast` does not hold).
fn decode_slow(
    src: &[u8],
    dst: &mut [u8],
    cap: usize,
    partial: bool,
    dict: &[u8],
    ip: usize,
    op: usize,
) -> (r: StepOut)
    requires
        ip < src@.len(),
        op <= cap <= old(dst)@.len(),
    ensures
        final(dst)@.len() == old(dst)@.len(),
        step_matches(
            dec_slow(src@, dict@, cap as int, partial, ip as int, old(dst)@.subrange(0, op as int)),
            r,
            final(dst)@,
            ip as int,
            src@.len() as int,
            cap as int,
        ),
{
    let n = src.len();
    let token = src[ip];
    let ll0 = (token >> 4u8) as usize;
    let mlc = (token & 15u8) as usize;
    proof {
        assert(token >> 4u8 == token / 16) by (bit_vector);
        assert(token & 15u8 == token % 16) by (bit_vector);
    }
    let ip1 = ip + 1;
    let lim: usize = if n >= 15 { n - 15 } else { 0 };
    if ll0 == 15 {
        match read_variable_length(src, ip1, lim, true) {
            None => StepOut::Fail,
            Some((v, q)) => decode_lits(src, dst, cap, partial, dict, op, v + 15, q, mlc, Ghost(ip as int)),
        }
    } else {
        decode_lits(src, dst, cap, partial, dict, op, ll0, ip1, mlc, Ghost(ip as int))
    }
}

/// Decodes the sequence whose token is at `ip`; mirrors `dec_step`.
fn decode_step(
    src: &[u8],
    dst: &mut [u8],
    cap: usize,
    partial: bool,
    dict: &[u8],
    ip: usize,
    op: usize,
) -> (r: StepOut)
    requires
        ip < src@.len(),
        op <= cap <= old(dst)@.len(),
    ensures
        final(dst)@.len() == old(dst)@.len(),
        step_matches(
            dec_step(src@, dict@, cap as int, partial, ip as int, old(dst)@.subrange(0, op as int)),
            r,
            final(dst)@,
            ip as int,
            src@.len() as int,
            cap as int,
        ),
{
    let n = src.len();
    let token = src[ip];
    let ll0 = (token >> 4u8) as usize;
    proof {
        assert(token >> 4u8 == token / 16) by (bit_vector);
    }
    let ip1 = ip + 1;
    if ll0 != 15 && n > 17 && ip1 < n - 16 && cap >= 32 && op <= cap - 32 {
        decode_fast(src, dst, cap, partial, dict, ip, op)
    } else {
        decode_slow(src, dst, cap, partial, dict, ip, op)
    }
}

/// Decodes block `src` into the first `output_size` bytes of `dst`, with
/// `dict` as the content preceding the output.  In partial mode decoding
/// stops once `output_size` bytes are produced.
///
/// The result is exactly what `lz4_decode` prescribes: `Ok(n)` with the
/// decoded bytes in `dst[..n]` when it accepts the block, an error when it
/// rejects it.
pub fn decompress_generic(
    src: &[u8],
    dst: &mut [u8],
    output_size: usize,
    partial_decoding: bool,
    dict: &[u8],
) -> (r: Result<usize, DecompressError>)
    requires
        output_size <= old(dst)@.len(),
    ensures
        final(dst)@.len() == old(dst)@.len(),
        match r {
            Ok(n) => n <= output_size && lz4_decode(
                src@,
                dict@,
                output_size as int,
                partial_decoding,
            ) == Some(final(dst)@.subrange(0, n as int)),
            Err(_) => lz4_decode(src@, dict@, output_size as int, partial_decoding) is None,
        },
{
    let n = src.len();
    let cap = output_size;
    if cap == 0 {
        if partial_decoding || (n == 1 && src[0] == 0) {
            assert(dst@.subrange(0, 0) =~= Seq::<u8>::empty());
            return Ok(0);
        }
        return Err(DecompressError::MalformedInput);
    }
    if n == 0 {
        return Err(DecompressError::MalformedInput);
    }
    let mut ip: usize = 0;
    let mut op: usize = 0;
    assert(dst@.subrange(0, 0) =~= Seq::<u8>::empty());
    loop
        invariant
            n == src@.len(),
            cap == output_size,
            0 < cap <= dst@.len(),
            0 < n,
            dst@.len() == old(dst)@.len(),
            op <= cap,
            lz4_decode(src@, dict@, cap as int, partial_decoding) == dec_run(
                src@,
                dict@,
                cap as int,
                partial_decoding,
                ip as int,
                dst@.subrange(0, op as int),
            ),
        decreases n - ip,
    {
        if ip >= n {
            return Err(DecompressError::MalformedInput);
        }
        match decode_step(src, dst, cap, partial_decoding, dict, ip, op) {
            StepOut::Fail => {
                return Err(DecompressError::MalformedInput);
            },
            StepOut::Done(o) => {
                return Ok(o);
            },
            StepOut::Next(i2, o2) => {
                ip = i2;
                op = o2;
            },
        }
    }
}

/// `r` reports the decoder's verdict `expected`: `Ok(n)` with the decoded
/// bytes in `after[..n]` when a block is accepted, an error when it is rejected.
pub open spec fn decoded_as(
    r: Result<usize, DecompressError>,
    expected: Option<Seq<u8>>,
    after: Seq<u8>,
) -> bool {
    match r {
        Ok(n) => n <= after.len() && expected == Some(after.subrange(0, n as int)),
        Err(_) => expected is None,
    }
}

/// The last 64 KiB of `s` (all of it when shorter): the part of decoded
/// content that later blocks can refer to.
pub open spec fn window_tail(s: Seq<u8>) -> Seq<u8> {
    if s.len() <= 65536 {
        s
    } else {
        s.subrange(s.len() - 65536, s.len() as int)
    }
}

/// Decodes a full block with no dictionary into `dst`, whose length is the
/// output capacity.
pub fn decompress_safe(src: &[u8], dst: &mut [u8]) -> (r: Result<usize, DecompressError>)
    ensures
        final(dst)@.len() == old(dst)@.len(),
        decoded_as(
            r,
            lz4_decode(src@, Seq::empty(), old(dst)@.len() as int, false),
            final(dst)@,
        ),
{
    let none: Vec<u8> = Vec::new();
    let cap = dst.len();
    decompress_generic(src, dst, cap, false, none.as_slice())
}

/// Decodes at most `target_output_size` bytes (and no more than `dst`
/// holds) from the start of a block with no dictionary.
pub fn decompress_safe_partial(src: &[u8], dst: &mut [u8], target_output_size: usize) -> (r: Result<
    usize,
    DecompressError,
>)
    ensures
        final(dst)@.len() == old(dst)@.len(),
        decoded_as(
            r,
            lz4_decode(
                src@,
                Seq::empty(),
                if target_output_size < old(dst)@.len() {
                    target_output_size as int
                } else {
                    old(dst)@.len() as int
                },
                true,
            ),
            final(dst)@,
        ),
{
    let none: Vec<u8> = Vec::new();
    let cap = if target_output_size < dst.len() { target_output_size } else { dst.len() };
    decompress_generic(src, dst, cap, true, none.as_slice())
}

/// Decodes a full block whose matches may reach into `dict`, the content
/// that preceded it.
pub fn decompress_safe_using_dict(src: &[u8], dst: &mut [u8], dict: &[u8]) -> (r: Result<
    usize,
    DecompressError,
>)
    ensures
        final(dst)@.len() == old(dst)@.len(),
        decoded_as(r, lz4_decode(src@, dict@, old(dst)@.len() as int, false), final(dst)@),
{
    if dict.len() == 0 {
        assert(dict@ =~= Seq::<u8>::empty());
        return decompress_safe(src, dst);
    }
    let cap = dst.len();
    decompress_generic(src, dst, cap, false, dict)
}

/// Partial decoding of a block whose matches may reach into `dict`.
pub fn decompress_safe_partial_using_dict(
    src: &[u8],
    dst: &mut [u8],
    target_output_size: usize,
    dict: &[u8],
) -> (r: Result<usize, DecompressError>)
    ensures
        final(dst)@.len() == old(dst)@.len(),
        decoded_as(
            r,
            lz4_decode(
                src@,
                dict@,
                if target_output_size < old(dst)@.len() {
                    target_output_size as int
                } else {
                    old(dst)@.len() as int
                },
                true,
            ),
            final(dst)@,
        ),
{
    let cap = if target_output_size < dst.len() { target_output_size } else { dst.len() };
    decompress_generic(src, dst, cap, true, dict)
}

/// Decodes a full block against an external dictionary, also when the
/// dictionary is empty.
pub fn decompress_safe_force_ext_dict(src: &[u8], dst: &mut [u8], dict: &[u8]) -> (r: Result<
    usize,
    DecompressError,
>)
    ensures
        final(dst)@.len() == old(dst)@.len(),
        decoded_as(r, lz4_decode(src@, dict@, old(dst)@.len() as int, false), final(dst)@),
{
    let cap = dst.len();
    decompress_generic(src, dst, cap, false, dict)
}

/// Partial decoding against an external dictionary.
pub fn decompress_safe_partial_force_ext_dict(
    src: &[u8],
    dst: &mut [u8],
    target_output_size: usize,
    dict: &[u8],
) -> (r: Result<usize, DecompressError>)
    ensures
        final(dst)@.len() == old(dst)@.len(),
        decoded_as(
            r,
            lz4_decode(
                src@,
                dict@,
                if target_output_size < old(dst)@.len() {
                    target_output_size as int
                } else {
                    old(dst)@.len() as int
                },
                true,
            ),
            final(dst)@,
        ),
{
    let cap = if target_output_size < dst.len() { target_output_size } else { dst.len() };
    decompress_generic(src, dst, cap, true, dict)
}

/// Streaming decoding context: holds the last 64 KiB of the content decoded
/// so far, which the next block's matches may refer to.
pub struct Lz4StreamDecode {
    history: Vec<u8>,
}

impl Lz4StreamDecode {
    /// The content that the next block may refer to.
    pub closed spec fn history(&self) -> Seq<u8> {
        self.history@
    }

    /// A context with no preceding content.
    pub fn new() -> (s: Self)
        ensures
            s.history() == Seq::<u8>::empty(),
    {
        Lz4StreamDecode { history: Vec::new() }
    }
}

impl Default for Lz4StreamDecode {
    fn default() -> (s: Self)
        ensures
            s.history() == Seq::<u8>::empty(),
    {
        Lz4StreamDecode::new()
    }
}

/// The last 64 KiB of `old ++ data`, as a new vector.
pub(crate) fn joined_window(old: &[u8], data: &[u8]) -> (r: Vec<u8>)
    ensures
        r@ == window_tail(old@ + data@),
{
    let ghost all = old@ + data@;
    let total_old = old.len();
    let total_new = data.len();
    let mut r: Vec<u8> = Vec::new();
    if total_new >= 65536 {
        let s0 = total_new - 65536;
        let mut k = s0;
        while k < total_new
            invariant
                total_new == data@.len(),
                s0 <= k <= total_new,
                r@ == data@.subrange(s0 as int, k as int),
            decreases total_new - k,
        {
            r.push(data[k]);
            assert(r@ =~= data@.subrange(s0 as int, k + 1));
            k = k + 1;
        }
        assert(window_tail(all) =~= data@.subrange(s0 as int, total_new as int));
        return r;
    }
    let keep = 65536 - total_new;
    let mut k = if total_old > keep { total_old - keep } else { 0 };
    let start = k;
    while k < total_old
        invariant
            total_old == old@.len(),
            start <= k <= total_old,
            r@ == old@.subrange(start as int, k as int),
        decreases total_old - k,
    {
        r.push(old[k]);
        assert(r@ =~= old@.subrange(start as int, k + 1));
        k = k + 1;
    }
    let mut j: usize = 0;
    while j < total_new
        invariant
            total_new == data@.len(),
            total_old == old@.len(),
            j <= total_new,
            r@ == old@.subrange(start as int, total_old as int) + data@.subrange(0, j as int),
        decreases total_new - j,
    {
        r.push(data[j]);
        assert(r@ =~= old@.subrange(start as int, total_old as int) + data@.subrange(0, j + 1));
        j = j + 1;
    }
    assert(data@.subrange(0, total_new as int) =~= data@);
    assert(window_tail(all) =~= old@.subrange(start as int, total_old as int) + data@);
    r
}

/// Sets the content that precedes the next block (an empty slice resets the
/// context).  Always succeeds.
pub fn set_stream_decode(ctx: &mut Lz4StreamDecode, dict: &[u8]) -> (r: bool)
    ensures
        r,
        final(ctx).history() == window_tail(dict@),
{
    let none: Vec<u8> = Vec::new();
    let h = joined_window(none.as_slice(), dict);
    assert(Seq::<u8>::empty() + dict@ =~= dict@);
    ctx.history = h;
    true
}

/// Decodes the next block of a stream into `dst`: its matches may refer to
/// the content decoded before.  On success the decoded bytes join the
/// context's history; on failure the context is unchanged.
pub fn decompress_safe_continue(ctx: &mut Lz4StreamDecode, src: &[u8], dst: &mut [u8]) -> (r: Result<
    usize,
    DecompressError,
>)
    ensures
        final(dst)@.len() == old(dst)@.len(),
        decoded_as(
            r,
            lz4_decode(src@, old(ctx).history(), old(dst)@.len() as int, false),
            final(dst)@,
        ),
        match r {
            Ok(n) => final(ctx).history() == window_tail(
                old(ctx).history() + final(dst)@.subrange(0, n as int),
            ),
            Err(_) => final(ctx).history() == old(ctx).history(),
        },
{
    let cap = dst.len();
    let r = decompress_generic(src, dst, cap, false, ctx.history.as_slice());
    match r {
        Ok(n) => {
            let produced = vstd::slice::slice_subrange(dst, 0, n);
            let h = joined_window(ctx.history.as_slice(), produced);
            ctx.history = h;
            Ok(n)
        },
        Err(e) => Err(e),
    }
}

/// Size of a ring buffer that lets streaming decoding keep its 64 KiB
/// history for blocks of up to `max_block_size` bytes; `None` when the
/// block size exceeds the format's limit.
pub fn decoder_ring_buffer_size(max_block_size: usize) -> (r: Option<usize>)
    ensures
        r == (if max_block_size > LZ4_MAX_INPUT_SIZE {
            None
        } else {
            Some(
                (65536 + 14 + (if max_block_size < 16 {
                    16
                } else {
                    max_block_size as int
                })) as usize,
            )
        }),
{
    if max_block_size > LZ4_MAX_INPUT_SIZE {
        return None;
    }
    let block = if max_block_size < 16 { 16 } else { max_block_size };
    Some(65536 + 14 + block)
}

} // verus!
