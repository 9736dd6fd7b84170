//! The meaning of an LZ4 block.
//!
//! A block is a series of sequences.  Each sequence holds a token, the
//! literal length's extension bytes, the literals, a 2-byte little-endian
//! match offset and the match length's extension bytes; the last sequence
//! stops after its literals.  A match copies `length` bytes starting
//! `offset` bytes back in the content decoded so far, which may reach into a
//! dictionary that precedes the output.
//!
//! `lz4_decode` is the safe decoder's behaviour on every input: which blocks
//! it accepts for a given output capacity, and what it writes, in full-block
//! and in partial mode.  `enc_seqs` / `enc_last` is what the encoder writes,
//! and `lemma_decode_encoded` shows that decoding it gives the content back.

use vstd::prelude::*;

verus! {

/// Bound on a length field: half the address space.
pub open spec fn length_field_max() -> int {
    usize::MAX as int / 2
}

/// Little-endian 16-bit value of the bytes at `i`.
pub open spec fn le16_at(s: Seq<u8>, i: int) -> int {
    s[i] as int + 256 * (s[i + 1] as int)
}

/// Reads the extension bytes of a length field starting at `ip`: bytes are
/// added up until one differs from 255.  Reading must not pass `limit`.
/// Yields the sum (plus `acc`) and the position after the last byte read.
pub open spec fn var_tail(b: Seq<u8>, ip: int, limit: int, acc: int) -> Option<(int, int)>
    decreases b.len() - ip,
{
    if ip < 0 || ip >= b.len() {
        None
    } else {
        let s = b[ip] as int;
        let ip2 = ip + 1;
        let acc2 = acc + s;
        if ip2 > limit {
            None
        } else if acc2 > length_field_max() {
            None
        } else if s != 255 {
            Some((acc2, ip2))
        } else {
            var_tail(b, ip2, limit, acc2)
        }
    }
}

/// Reads a length field's extension; with `initial_check`, there must be a
/// byte before `limit` to read at all.
pub open spec fn read_var(b: Seq<u8>, ip: int, limit: int, initial_check: bool) -> Option<(int, int)> {
    if initial_check && ip >= limit {
        None
    } else {
        var_tail(b, ip, limit, 0)
    }
}

/// Bytes produced by a match of `len` bytes at distance `off`, when `d` is the
/// dictionary and `out` the output so far: the match repeats the `off` bytes
/// that precede it.
pub open spec fn match_bytes(d: Seq<u8>, out: Seq<u8>, off: int, len: int) -> Seq<u8> {
    let w = d + out;
    let p = w.len() - off;
    Seq::new(len as nat, |i: int| w[p + i % off])
}

/// Outcome of decoding one sequence.
pub enum DecStep {
    /// The block is malformed (or does not fit the output).
    Fail,
    /// Decoding ends with this output.
    Done(Seq<u8>),
    /// Decoding goes on at this input position with this output.
    Next(int, Seq<u8>),
}

/// The match part of a sequence: `mlc` is the token's low nibble, `ip` the
/// position after the offset.
pub open spec fn dec_match(
    b: Seq<u8>,
    d: Seq<u8>,
    cap: int,
    partial: bool,
    ip: int,
    out: Seq<u8>,
    off: int,
    mlc: int,
) -> DecStep {
    let n = b.len() as int;
    let ilimit = if n >= 5 {
        n - 4
    } else {
        0
    };
    let rv = read_var(b, ip, ilimit, false);
    if mlc == 15 && rv is None {
        DecStep::Fail
    } else {
        let (ml, ip2) = match rv {
            Some((v, q)) if mlc == 15 => (v + 19, q),
            _ => (mlc + 4, ip),
        };
        let op = out.len() as int;
        if off == 0 || off > op + d.len() {
            DecStep::Fail
        } else if off > op {
            // The match starts in the dictionary.
            if op + ml > cap - 5 {
                if partial {
                    let len = if cap - op < ml {
                        cap - op
                    } else {
                        ml
                    };
                    DecStep::Next(ip2, out + match_bytes(d, out, off, len))
                } else {
                    DecStep::Fail
                }
            } else {
                DecStep::Next(ip2, out + match_bytes(d, out, off, ml))
            }
        } else if partial && op + ml > cap - 12 {
            let len = if cap - op < ml {
                cap - op
            } else {
                ml
            };
            let out2 = out + match_bytes(d, out, off, len);
            if out2.len() == cap {
                DecStep::Done(out2)
            } else {
                DecStep::Next(ip2, out2)
            }
        } else if op + ml > cap - 5 {
            DecStep::Fail
        } else {
            DecStep::Next(ip2, out + match_bytes(d, out, off, ml))
        }
    }
}

/// Whether the short-sequence shortcut applies at this token: a literal
/// run below 15, at least 16 input bytes after the token, and 32 bytes of
/// room in the output.
pub open spec fn dec_fast(b: Seq<u8>, cap: int, ip: int, out: Seq<u8>) -> bool {
    let token = b[ip] as int;
    &&& token / 16 != 15
    &&& ip + 1 < b.len() - 16
    &&& out.len() + 32 <= cap
}

/// A sequence through the short-sequence shortcut.
pub open spec fn dec_fast_step(
    b: Seq<u8>,
    d: Seq<u8>,
    cap: int,
    partial: bool,
    ip: int,
    out: Seq<u8>,
) -> DecStep {
    let token = b[ip] as int;
    let ll0 = token / 16;
    let mlc = token % 16;
    let ip1 = ip + 1;
    let out1 = out + b.subrange(ip1, ip1 + ll0);
    let ip2 = ip1 + ll0;
    let off = le16_at(b, ip2);
    let op1 = out.len() + ll0;
    if mlc != 15 && off >= 8 && off <= op1 {
        DecStep::Next(ip2 + 2, out1 + match_bytes(d, out1, off, mlc + 4))
    } else {
        dec_match(b, d, cap, partial, ip2 + 2, out1, off, mlc)
    }
}

/// The literal run of `ll` bytes at `ipl` and what follows it, outside the
/// shortcut.
pub open spec fn dec_lits(
    b: Seq<u8>,
    d: Seq<u8>,
    cap: int,
    partial: bool,
    out: Seq<u8>,
    ll: int,
    ipl: int,
    mlc: int,
) -> DecStep {
    let n = b.len() as int;
    let op = out.len() as int;
    if op + ll > cap - 12 || ipl + ll > n - 8 {
        if partial {
            let ll1 = if ipl + ll > n {
                n - ipl
            } else {
                ll
            };
            let ll2 = if op + ll1 > cap {
                cap - op
            } else {
                ll1
            };
            let out1 = out + b.subrange(ipl, ipl + ll2);
            let ip2 = ipl + ll2;
            if out1.len() == cap || ip2 >= n - 2 {
                DecStep::Done(out1)
            } else {
                dec_match(b, d, cap, partial, ip2 + 2, out1, le16_at(b, ip2), mlc)
            }
        } else if ipl + ll != n || op + ll > cap {
            DecStep::Fail
        } else {
            DecStep::Done(out + b.subrange(ipl, n))
        }
    } else {
        let out1 = out + b.subrange(ipl, ipl + ll);
        let ip2 = ipl + ll;
        dec_match(b, d, cap, partial, ip2 + 2, out1, le16_at(b, ip2), mlc)
    }
}

/// A sequence outside the shortcut: reads the literal length, then goes on
/// with `dec_lits`.
pub open spec fn dec_slow(
    b: Seq<u8>,
    d: Seq<u8>,
    cap: int,
    partial: bool,
    ip: int,
    out: Seq<u8>,
) -> DecStep {
    let n = b.len() as int;
    let token = b[ip] as int;
    let ll0 = token / 16;
    let mlc = token % 16;
    let lim = if n >= 15 {
        n - 15
    } else {
        0
    };
    let rv = read_var(b, ip + 1, lim, true);
    if ll0 == 15 && rv is None {
        DecStep::Fail
    } else {
        let (ll, ipl) = match rv {
            Some((v, q)) if ll0 == 15 => (v + 15, q),
            _ => (ll0, ip + 1),
        };
        dec_lits(b, d, cap, partial, out, ll, ipl, mlc)
    }
}

/// Decodes the sequence whose token is at `ip`.
pub open spec fn dec_step(
    b: Seq<u8>,
    d: Seq<u8>,
    cap: int,
    partial: bool,
    ip: int,
    out: Seq<u8>,
) -> DecStep {
    if dec_fast(b, cap, ip, out) {
        dec_fast_step(b, d, cap, partial, ip, out)
    } else {
        dec_slow(b, d, cap, partial, ip, out)
    }
}

/// Runs the decoder from the token at `ip` with output `out`.
pub open spec fn dec_run(
    b: Seq<u8>,
    d: Seq<u8>,
    cap: int,
    partial: bool,
    ip: int,
    out: Seq<u8>,
) -> Option<Seq<u8>>
    decreases b.len() - ip,
{
    if ip < 0 || ip >= b.len() {
        None
    } else {
        match dec_step(b, d, cap, partial, ip, out) {
            DecStep::Fail => None,
            DecStep::Done(o) => Some(o),
            DecStep::Next(ip2, o) => if ip < ip2 <= b.len() {
                dec_run(b, d, cap, partial, ip2, o)
            } else {
                None
            },
        }
    }
}

/// What the safe decoder produces from block `b` with dictionary `d` and an
/// output capacity of `cap` bytes; `None` when it rejects the block.  In
/// partial mode it stops once `cap` bytes are decoded.
pub open spec fn lz4_decode(b: Seq<u8>, d: Seq<u8>, cap: int, partial: bool) -> Option<Seq<u8>> {
    if cap == 0 {
        if partial || (b.len() == 1 && b[0] == 0) {
            Some(Seq::empty())
        } else {
            None
        }
    } else if b.len() == 0 {
        None
    } else {
        dec_run(b, d, cap, partial, 0, Seq::empty())
    }
}

// ─────────────────────────────────────────────────────────────────────────
// What the encoder writes
// ─────────────────────────────────────────────────────────────────────────

/// Extension bytes of a length field holding `v`: 255s then the remainder.
pub open spec fn len_ext(v: nat) -> Seq<u8>
    decreases v,
{
    if v < 255 {
        seq![v as u8]
    } else {
        seq![255u8] + len_ext((v - 255) as nat)
    }
}

/// Extension bytes of a literal length.
pub open spec fn lit_ext(ll: nat) -> Seq<u8> {
    if ll >= 15 {
        len_ext((ll - 15) as nat)
    } else {
        Seq::empty()
    }
}

/// Extension bytes of a match length.
pub open spec fn match_ext(ml: nat) -> Seq<u8> {
    if ml >= 19 {
        len_ext((ml - 19) as nat)
    } else {
        Seq::empty()
    }
}

/// Token of a sequence: literal length nibble, then match length nibble.
pub open spec fn token_of(ll: nat, mlc: nat) -> u8 {
    ((if ll >= 15 {
        15
    } else {
        ll
    }) * 16 + (if mlc >= 15 {
        15
    } else {
        mlc
    })) as u8
}

/// A sequence: `ll` literals, then a match of `ml` bytes at distance `off`.
pub struct SeqRec {
    pub ll: nat,
    pub off: nat,
    pub ml: nat,
}

/// Bytes of a sequence whose literals are `w[start .. start + ll]`.
pub open spec fn enc_seq(w: Seq<u8>, start: int, r: SeqRec) -> Seq<u8> {
    seq![token_of(r.ll, (r.ml - 4) as nat)] + lit_ext(r.ll) + w.subrange(start, start + r.ll) + seq![
        (r.off % 256) as u8,
        (r.off / 256) as u8,
    ] + match_ext(r.ml)
}

/// Bytes of the last sequence: `r` literals taken from `w[start ..]`.
pub open spec fn enc_last(w: Seq<u8>, start: int, r: nat) -> Seq<u8> {
    seq![token_of(r, 0)] + lit_ext(r) + w.subrange(start, start + r)
}

/// Content covered by a list of sequences.
pub open spec fn content_len(s: Seq<SeqRec>) -> nat
    decreases s.len(),
{
    if s.len() == 0 {
        0
    } else {
        content_len(s.drop_last()) + s.last().ll + s.last().ml
    }
}

/// Bytes of a list of sequences taking their content from `w`, starting at `base`.
pub open spec fn enc_seqs(w: Seq<u8>, base: int, s: Seq<SeqRec>) -> Seq<u8>
    decreases s.len(),
{
    if s.len() == 0 {
        Seq::empty()
    } else {
        enc_seqs(w, base, s.drop_last()) + enc_seq(w, base + content_len(s.drop_last()), s.last())
    }
}

/// A sequence at content offset `c` (relative to `base`) is faithful to `w`:
/// its match repeats earlier bytes, lies within reach, and leaves the end
/// margins that the decoder needs for a capacity of `cap`.
pub open spec fn seq_valid(w: Seq<u8>, base: int, c: int, r: SeqRec, cap: int) -> bool {
    let p = base + c + r.ll;
    &&& r.ml >= 4
    &&& 1 <= r.off <= 65535
    &&& r.off <= p
    &&& p + r.ml <= w.len()
    &&& forall|i: int| 0 <= i < r.ml ==> #[trigger] w[p + i] == w[p - r.off + i]
    &&& c + r.ll + 12 <= cap
    &&& c + r.ll + r.ml + 5 <= cap
    &&& r.ll + r.ml <= length_field_max()
}

/// Every sequence of the list is faithful.
pub open spec fn seqs_valid(w: Seq<u8>, base: int, s: Seq<SeqRec>, cap: int) -> bool
    decreases s.len(),
{
    if s.len() == 0 {
        true
    } else {
        seqs_valid(w, base, s.drop_last(), cap) && seq_valid(
            w,
            base,
            content_len(s.drop_last()) as int,
            s.last(),
            cap,
        )
    }
}

} // verus!
