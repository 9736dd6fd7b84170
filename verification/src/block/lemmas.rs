//! Proof that the decoder gives back what the encoder wrote.
//!
//! `lemma_decode_encoded` is the block format's round-trip law: a list of
//! faithful sequences followed by a final literal run decodes, with the
//! content preceding the input as dictionary, to exactly the content that
//! the sequences describe.

use vstd::prelude::*;
use crate::block::spec::{
    content_len, dec_fast, dec_fast_step, dec_lits, dec_match, dec_run, dec_slow, dec_step,
    enc_last, enc_seq, enc_seqs, le16_at, len_ext, length_field_max, lit_ext, lz4_decode,
    match_bytes, match_ext, read_var, seq_valid, seqs_valid, token_of, var_tail, DecStep, SeqRec,
};

verus! {

/// Length of a length field's extension bytes.
pub proof fn lemma_len_ext_len(v: nat)
    ensures
        len_ext(v).len() == v / 255 + 1,
    decreases v,
{
    if v >= 255 {
        lemma_len_ext_len((v - 255) as nat);
    }
}

/// The extension bytes of `v`, found at `p`, read back as `v`.
pub proof fn lemma_len_ext_parse(b: Seq<u8>, p: int, limit: int, acc: int, v: nat)
    requires
        0 <= p,
        0 <= acc,
        p + len_ext(v).len() <= limit <= b.len(),
        b.subrange(p, p + len_ext(v).len()) == len_ext(v),
        acc + v <= length_field_max(),
    ensures
        var_tail(b, p, limit, acc) == Some((acc + v, p + len_ext(v).len())),
    decreases v,
{
    let e = len_ext(v);
    assert(b[p] == e[0]) by {
        assert(b.subrange(p, p + e.len())[0] == b[p]);
    }
    if v >= 255 {
        let rest = len_ext((v - 255) as nat);
        assert(e == seq![255u8] + rest);
        assert(b.subrange(p + 1, p + 1 + rest.len()) =~= rest) by {
            assert forall|i: int| 0 <= i < rest.len() implies b.subrange(
                p + 1,
                p + 1 + rest.len(),
            )[i] == rest[i] by {
                assert(b.subrange(p, p + e.len())[i + 1] == e[i + 1]);
            }
        }
        lemma_len_ext_parse(b, p + 1, limit, acc + 255, (v - 255) as nat);
    }
}

/// A match whose bytes repeat those `off` positions earlier copies exactly
/// the content that follows.
pub proof fn lemma_match_bytes_copy(w: Seq<u8>, d: Seq<u8>, out: Seq<u8>, p: int, off: int, ml: int)
    requires
        1 <= off <= p,
        0 <= ml,
        p + ml <= w.len(),
        d + out == w.subrange(0, p),
        forall|i: int| 0 <= i < ml ==> #[trigger] w[p + i] == w[p - off + i],
    ensures
        match_bytes(d, out, off, ml) == w.subrange(p, p + ml),
{
    let pre = d + out;
    assert forall|i: int| 0 <= i < ml implies #[trigger] w[p + i] == pre[p - off + i % off] by {
        lemma_periodic(w, p, off, ml, i);
    }
    assert forall|i: int| 0 <= i < ml implies #[trigger] match_bytes(d, out, off, ml)[i]
        == w.subrange(p, p + ml)[i] by {
        assert(w.subrange(p, p + ml)[i] == w[p + i]);
        assert(pre.len() == p);
    }
    assert(match_bytes(d, out, off, ml) =~= w.subrange(p, p + ml));
}

proof fn lemma_periodic(w: Seq<u8>, p: int, off: int, ml: int, i: int)
    requires
        1 <= off <= p,
        0 <= i < ml,
        p + ml <= w.len(),
        forall|j: int| 0 <= j < ml ==> #[trigger] w[p + j] == w[p - off + j],
    ensures
        w[p + i] == w.subrange(0, p)[p - off + i % off],
    decreases i,
{
    if i < off {
        vstd::arithmetic::div_mod::lemma_small_mod(i as nat, off as nat);
        assert(w[p + i] == w[p - off + i]);
    } else {
        lemma_periodic(w, p, off, ml, i - off);
        vstd::arithmetic::div_mod::lemma_mod_add_multiples_vanish(i - off, off);
        assert(w[p + i] == w[p - off + i]);
        assert(p - off + i == p + (i - off));
    }
    vstd::arithmetic::div_mod::lemma_mod_pos_bound(i, off);
}

/// The token's nibbles give back the literal run and match code it encodes.
proof fn lemma_token(ll: nat, mlc: nat)
    ensures
        token_of(ll, mlc) as int / 16 == (if ll >= 15 {
            15
        } else {
            ll as int
        }),
        token_of(ll, mlc) as int % 16 == (if mlc >= 15 {
            15
        } else {
            mlc as int
        }),
{
}

/// The match part of an encoded sequence decodes to the repeated bytes.
proof fn lemma_match_step(
    b: Seq<u8>,
    w: Seq<u8>,
    base: int,
    c: int,
    r: SeqRec,
    cap: int,
    ipm: int,
)
    requires
        0 <= base,
        0 <= c,
        0 <= ipm,
        seq_valid(w, base, c, r, cap),
        ipm + match_ext(r.ml).len() + 6 <= b.len(),
        b.subrange(ipm, ipm + match_ext(r.ml).len()) == match_ext(r.ml),
    ensures
        dec_match(
            b,
            w.subrange(0, base),
            cap,
            false,
            ipm,
            w.subrange(base, base + c + r.ll),
            r.off as int,
            if r.ml >= 19 {
                15
            } else {
                r.ml - 4
            },
        ) == DecStep::Next(
            ipm + match_ext(r.ml).len(),
            w.subrange(base, base + c + r.ll + r.ml),
        ),
{
    let n = b.len() as int;
    let d = w.subrange(0, base);
    let out1 = w.subrange(base, base + c + r.ll);
    let p = base + c + r.ll;
    if r.ml >= 19 {
        lemma_len_ext_parse(b, ipm, n - 4, 0, (r.ml - 19) as nat);
        assert(read_var(b, ipm, n - 4, false) == Some(
            ((r.ml - 19) as int, ipm + match_ext(r.ml).len()),
        ));
    }
    assert(d + out1 =~= w.subrange(0, p));
    lemma_match_bytes_copy(w, d, out1, p, r.off as int, r.ml as int);
    assert(out1 + w.subrange(p, p + r.ml) =~= w.subrange(base, base + c + r.ll + r.ml));
}

/// Where the pieces of an encoded sequence lie in the block.
proof fn lemma_seq_pieces(b: Seq<u8>, w: Seq<u8>, start: int, r: SeqRec, ip: int)
    requires
        0 <= ip,
        0 <= start,
        start + r.ll <= w.len(),
        ip + enc_seq(w, start, r).len() <= b.len(),
        b.subrange(ip, ip + enc_seq(w, start, r).len()) == enc_seq(w, start, r),
        r.ml >= 4,
        r.off <= 65535,
    ensures
        ({
            let le = lit_ext(r.ll);
            let me = match_ext(r.ml);
            let ipl = ip + 1 + le.len();
            let ipo = ipl + r.ll;
            let ipm = ipo + 2;
            &&& enc_seq(w, start, r).len() == 1 + le.len() + r.ll + 2 + me.len()
            &&& b[ip] == token_of(r.ll, (r.ml - 4) as nat)
            &&& b.subrange(ip + 1, ipl) == le
            &&& b.subrange(ipl, ipo) == w.subrange(start, start + r.ll)
            &&& le16_at(b, ipo) == r.off
            &&& b.subrange(ipm, ipm + me.len()) == me
        }),
{
    let e = enc_seq(w, start, r);
    let le = lit_ext(r.ll);
    let lits = w.subrange(start, start + r.ll);
    let me = match_ext(r.ml);
    let tok = token_of(r.ll, (r.ml - 4) as nat);
    let ipl = ip + 1 + le.len();
    let ipo = ipl + r.ll;
    let ipm = ipo + 2;
    let be = b.subrange(ip, ip + e.len());
    assert(e =~= seq![tok] + le + lits + seq![(r.off % 256) as u8, (r.off / 256) as u8] + me);
    assert(b[ip] == tok) by {
        assert(be[0] == b[ip]);
    }
    assert(b.subrange(ip + 1, ipl) =~= le) by {
        assert forall|i: int| 0 <= i < le.len() implies b.subrange(ip + 1, ipl)[i] == le[i] by {
            assert(be[1 + i] == e[1 + i]);
        }
    }
    assert(b.subrange(ipl, ipo) =~= lits) by {
        assert forall|i: int| 0 <= i < r.ll implies b.subrange(ipl, ipo)[i] == lits[i] by {
            assert(be[1 + le.len() + i] == e[1 + le.len() + i]);
        }
    }
    assert(le16_at(b, ipo) == r.off) by {
        assert(be[ipo - ip] == e[ipo - ip]);
        assert(be[ipo - ip + 1] == e[ipo - ip + 1]);
        assert(b[ipo] == (r.off % 256) as u8);
        assert(b[ipo + 1] == (r.off / 256) as u8);
    }
    assert(b.subrange(ipm, ipm + me.len()) =~= me) by {
        assert forall|i: int| 0 <= i < me.len() implies b.subrange(ipm, ipm + me.len())[i]
            == me[i] by {
            assert(be[ipm - ip + i] == e[ipm - ip + i]);
        }
    }
}

/// An encoded sequence decodes to its literals followed by its match.
pub proof fn lemma_seq_step(b: Seq<u8>, w: Seq<u8>, base: int, c: int, r: SeqRec, cap: int, ip: int)
    requires
        0 <= base,
        0 <= c,
        0 <= ip,
        seq_valid(w, base, c, r, cap),
        ip + enc_seq(w, base + c, r).len() + 6 <= b.len(),
        b.subrange(ip, ip + enc_seq(w, base + c, r).len()) == enc_seq(w, base + c, r),
    ensures
        dec_step(b, w.subrange(0, base), cap, false, ip, w.subrange(base, base + c))
            == DecStep::Next(
            ip + enc_seq(w, base + c, r).len(),
            w.subrange(base, base + c + r.ll + r.ml),
        ),
{
    lemma_seq_pieces(b, w, base + c, r, ip);
    lemma_token(r.ll, (r.ml - 4) as nat);
    let out = w.subrange(base, base + c);
    if dec_fast(b, cap, ip, out) {
        lemma_seq_fast(b, w, base, c, r, cap, ip);
    } else {
        lemma_seq_slow(b, w, base, c, r, cap, ip);
    }
}

proof fn lemma_seq_fast(b: Seq<u8>, w: Seq<u8>, base: int, c: int, r: SeqRec, cap: int, ip: int)
    requires
        0 <= base,
        0 <= c,
        0 <= ip,
        seq_valid(w, base, c, r, cap),
        ip + enc_seq(w, base + c, r).len() + 6 <= b.len(),
        ({
            let le = lit_ext(r.ll);
            let me = match_ext(r.ml);
            let ipl = ip + 1 + le.len();
            let ipo = ipl + r.ll;
            let ipm = ipo + 2;
            &&& enc_seq(w, base + c, r).len() == 1 + le.len() + r.ll + 2 + me.len()
            &&& b[ip] == token_of(r.ll, (r.ml - 4) as nat)
            &&& b.subrange(ip + 1, ipl) == le
            &&& b.subrange(ipl, ipo) == w.subrange(base + c, base + c + r.ll)
            &&& le16_at(b, ipo) == r.off
            &&& b.subrange(ipm, ipm + me.len()) == me
        }),
        b[ip] as int / 16 == (if r.ll >= 15 {
            15
        } else {
            r.ll as int
        }),
        b[ip] as int % 16 == (if r.ml - 4 >= 15 {
            15
        } else {
            r.ml - 4
        }),
        dec_fast(b, cap, ip, w.subrange(base, base + c)),
    ensures
        dec_step(b, w.subrange(0, base), cap, false, ip, w.subrange(base, base + c))
            == DecStep::Next(
            ip + enc_seq(w, base + c, r).len(),
            w.subrange(base, base + c + r.ll + r.ml),
        ),
{
    let d = w.subrange(0, base);
    let out = w.subrange(base, base + c);
    let lits = w.subrange(base + c, base + c + r.ll);
    let out1 = out + lits;
    let p = base + c + r.ll;
    assert(r.ll < 15);
    assert(lit_ext(r.ll).len() == 0);
    let ipm = ip + 1 + r.ll + 2;
    assert(out1 =~= w.subrange(base, p));
    assert(b.subrange(ip + 1, ip + 1 + r.ll) == lits);
    lemma_match_step(b, w, base, c, r, cap, ipm);
    if r.ml < 19 {
        assert(match_ext(r.ml).len() == 0);
        assert(d + out1 =~= w.subrange(0, p));
        lemma_match_bytes_copy(w, d, out1, p, r.off as int, r.ml as int);
        assert(out1 + w.subrange(p, p + r.ml) =~= w.subrange(base, p + r.ml));
    }
    assert(dec_fast_step(b, d, cap, false, ip, out) == dec_step(b, d, cap, false, ip, out));
}

proof fn lemma_seq_slow(b: Seq<u8>, w: Seq<u8>, base: int, c: int, r: SeqRec, cap: int, ip: int)
    requires
        0 <= base,
        0 <= c,
        0 <= ip,
        seq_valid(w, base, c, r, cap),
        ip + enc_seq(w, base + c, r).len() + 6 <= b.len(),
        ({
            let le = lit_ext(r.ll);
            let me = match_ext(r.ml);
            let ipl = ip + 1 + le.len();
            let ipo = ipl + r.ll;
            let ipm = ipo + 2;
            &&& enc_seq(w, base + c, r).len() == 1 + le.len() + r.ll + 2 + me.len()
            &&& b[ip] == token_of(r.ll, (r.ml - 4) as nat)
            &&& b.subrange(ip + 1, ipl) == le
            &&& b.subrange(ipl, ipo) == w.subrange(base + c, base + c + r.ll)
            &&& le16_at(b, ipo) == r.off
            &&& b.subrange(ipm, ipm + me.len()) == me
        }),
        b[ip] as int / 16 == (if r.ll >= 15 {
            15
        } else {
            r.ll as int
        }),
        b[ip] as int % 16 == (if r.ml - 4 >= 15 {
            15
        } else {
            r.ml - 4
        }),
        !dec_fast(b, cap, ip, w.subrange(base, base + c)),
    ensures
        dec_step(b, w.subrange(0, base), cap, false, ip, w.subrange(base, base + c))
            == DecStep::Next(
            ip + enc_seq(w, base + c, r).len(),
            w.subrange(base, base + c + r.ll + r.ml),
        ),
{
    let n = b.len() as int;
    let d = w.subrange(0, base);
    let out = w.subrange(base, base + c);
    let lits = w.subrange(base + c, base + c + r.ll);
    let out1 = out + lits;
    let le = lit_ext(r.ll);
    let ipl = ip + 1 + le.len();
    let ipm = ipl + r.ll + 2;
    let mlc = if r.ml >= 19 {
        15
    } else {
        r.ml - 4
    };
    assert(out1 =~= w.subrange(base, base + c + r.ll));
    if r.ll >= 15 {
        lemma_len_ext_parse(b, ip + 1, n - 15, 0, (r.ll - 15) as nat);
        assert(read_var(b, ip + 1, n - 15, true) == Some(((r.ll - 15) as int, ipl)));
    }
    lemma_match_step(b, w, base, c, r, cap, ipm);
    assert(dec_lits(b, d, cap, false, out, r.ll as int, ipl, mlc) == dec_match(
        b,
        d,
        cap,
        false,
        ipm,
        out1,
        r.off as int,
        mlc,
    ));
    assert(dec_slow(b, d, cap, false, ip, out) == dec_step(b, d, cap, false, ip, out));
}

/// The final literal run ends decoding with the whole content.
pub proof fn lemma_last_step(b: Seq<u8>, w: Seq<u8>, base: int, c: int, r: nat, cap: int, ip: int)
    requires
        0 <= base,
        0 <= c,
        0 <= ip,
        base + c + r <= w.len(),
        c + r <= cap,
        r <= length_field_max(),
        ip + enc_last(w, base + c, r).len() == b.len(),
        b.subrange(ip, b.len() as int) == enc_last(w, base + c, r),
    ensures
        dec_step(b, w.subrange(0, base), cap, false, ip, w.subrange(base, base + c))
            == DecStep::Done(w.subrange(base, base + c + r)),
{
    let n = b.len() as int;
    let d = w.subrange(0, base);
    let out = w.subrange(base, base + c);
    let e = enc_last(w, base + c, r);
    let le = lit_ext(r);
    let lits = w.subrange(base + c, base + c + r);
    let tok = token_of(r, 0);
    let ipl = ip + 1 + le.len();
    assert(e =~= seq![tok] + le + lits);
    assert(b[ip] == tok) by {
        assert(b.subrange(ip, n)[0] == b[ip]);
    }
    lemma_token(r, 0);
    assert(b.subrange(ip + 1, ipl) =~= le) by {
        assert forall|i: int| 0 <= i < le.len() implies b.subrange(ip + 1, ipl)[i] == le[i] by {
            assert(b.subrange(ip, n)[1 + i] == e[1 + i]);
        }
    }
    assert(b.subrange(ipl, n) =~= lits) by {
        assert forall|i: int| 0 <= i < r implies b.subrange(ipl, n)[i] == lits[i] by {
            assert(b.subrange(ip, n)[1 + le.len() + i] == e[1 + le.len() + i]);
        }
    }
    if r >= 15 {
        lemma_len_ext_len((r - 15) as nat);
        lemma_len_ext_parse(b, ip + 1, n - 15, 0, (r - 15) as nat);
        assert(read_var(b, ip + 1, n - 15, true) == Some(((r - 15) as int, ipl)));
    }
    assert(!dec_fast(b, cap, ip, out));
    assert(out + lits =~= w.subrange(base, base + c + r));
    assert(dec_lits(b, d, cap, false, out, r as int, ipl, 0) == DecStep::Done(
        w.subrange(base, base + c + r),
    ));
}

/// The encoding of the first `k` sequences is a prefix of the encoding of all.
pub proof fn lemma_enc_prefix(w: Seq<u8>, base: int, s: Seq<SeqRec>, k: int)
    requires
        0 <= k <= s.len(),
    ensures
        enc_seqs(w, base, s.take(k)).len() <= enc_seqs(w, base, s).len(),
        enc_seqs(w, base, s).subrange(0, enc_seqs(w, base, s.take(k)).len() as int) == enc_seqs(
            w,
            base,
            s.take(k),
        ),
    decreases s.len(),
{
    if k == s.len() {
        assert(s.take(k) =~= s);
    } else {
        let t = s.drop_last();
        assert(t.take(k) =~= s.take(k));
        lemma_enc_prefix(w, base, t, k);
        let a = enc_seqs(w, base, t);
        let x = enc_seqs(w, base, s.take(k));
        assert(enc_seqs(w, base, s) == a + enc_seq(w, base + content_len(t), s.last()));
        assert((a + enc_seq(w, base + content_len(t), s.last())).subrange(0, x.len() as int)
            =~= a.subrange(0, x.len() as int));
    }
}

/// The encoding of the first `k + 1` sequences adds sequence `k`.
pub proof fn lemma_enc_step(w: Seq<u8>, base: int, s: Seq<SeqRec>, k: int)
    requires
        0 <= k < s.len(),
    ensures
        enc_seqs(w, base, s.take(k + 1)) == enc_seqs(w, base, s.take(k)) + enc_seq(
            w,
            base + content_len(s.take(k)),
            s[k],
        ),
        content_len(s.take(k + 1)) == content_len(s.take(k)) + s[k].ll + s[k].ml,
{
    assert(s.take(k + 1).drop_last() =~= s.take(k));
    assert(s.take(k + 1).last() == s[k]);
}

/// Every sequence of a faithful list is faithful at its own content offset.
pub proof fn lemma_valid_at(w: Seq<u8>, base: int, s: Seq<SeqRec>, cap: int, k: int)
    requires
        0 <= k < s.len(),
        seqs_valid(w, base, s, cap),
    ensures
        seq_valid(w, base, content_len(s.take(k)) as int, s[k], cap),
    decreases s.len(),
{
    if k == s.len() - 1 {
        assert(s.drop_last() =~= s.take(k));
    } else {
        let t = s.drop_last();
        assert(t.take(k) =~= s.take(k));
        assert(t[k] == s[k]);
        lemma_valid_at(w, base, t, cap, k);
    }
}

/// Content covered by the first `k` sequences is at most all of it.
pub proof fn lemma_content_prefix(s: Seq<SeqRec>, k: int)
    requires
        0 <= k <= s.len(),
    ensures
        content_len(s.take(k)) <= content_len(s),
    decreases s.len(),
{
    if k == s.len() {
        assert(s.take(k) =~= s);
    } else {
        let t = s.drop_last();
        assert(t.take(k) =~= s.take(k));
        lemma_content_prefix(t, k);
    }
}

proof fn lemma_run_from(w: Seq<u8>, base: int, s: Seq<SeqRec>, r: nat, cap: int, k: int)
    requires
        0 <= base,
        0 <= k <= s.len(),
        seqs_valid(w, base, s, cap),
        base + content_len(s) + r <= w.len(),
        content_len(s) + r <= cap,
        s.len() > 0 ==> r >= 5,
        r <= length_field_max(),
    ensures
        dec_run(
            enc_seqs(w, base, s) + enc_last(w, base + content_len(s), r),
            w.subrange(0, base),
            cap,
            false,
            enc_seqs(w, base, s.take(k)).len() as int,
            w.subrange(base, base + content_len(s.take(k))),
        ) == Some(w.subrange(base, base + content_len(s) + r)),
    decreases s.len() - k,
{
    let es = enc_seqs(w, base, s);
    let el = enc_last(w, base + content_len(s), r);
    let b = es + el;
    let d = w.subrange(0, base);
    let pk = enc_seqs(w, base, s.take(k)).len() as int;
    lemma_enc_prefix(w, base, s, k);
    lemma_content_prefix(s, k);
    if k == s.len() {
        assert(s.take(k) =~= s);
        assert(b.subrange(pk, b.len() as int) =~= el);
        lemma_last_step(b, w, base, content_len(s) as int, r, cap, pk);
    } else {
        lemma_run_step(w, base, s, r, cap, k);
        lemma_run_from(w, base, s, r, cap, k + 1);
    }
}

proof fn lemma_run_step(w: Seq<u8>, base: int, s: Seq<SeqRec>, r: nat, cap: int, k: int)
    requires
        0 <= base,
        0 <= k < s.len(),
        seqs_valid(w, base, s, cap),
        base + content_len(s) + r <= w.len(),
        content_len(s) + r <= cap,
        r >= 5,
    ensures
        ({
            let b = enc_seqs(w, base, s) + enc_last(w, base + content_len(s), r);
            let pk = enc_seqs(w, base, s.take(k)).len() as int;
            let pk1 = enc_seqs(w, base, s.take(k + 1)).len() as int;
            &&& pk < pk1 <= b.len()
            &&& dec_step(
                b,
                w.subrange(0, base),
                cap,
                false,
                pk,
                w.subrange(base, base + content_len(s.take(k))),
            ) == DecStep::Next(pk1, w.subrange(base, base + content_len(s.take(k + 1))))
        }),
{
    let es = enc_seqs(w, base, s);
    let el = enc_last(w, base + content_len(s), r);
    let b = es + el;
    let pk = enc_seqs(w, base, s.take(k)).len() as int;
    lemma_enc_step(w, base, s, k);
    lemma_enc_prefix(w, base, s, k + 1);
    lemma_valid_at(w, base, s, cap, k);
    lemma_content_prefix(s, k + 1);
    let ck = content_len(s.take(k)) as int;
    let e = enc_seq(w, base + ck, s[k]);
    let x = enc_seqs(w, base, s.take(k));
    lemma_slice_in_prefix(es, x, e, el);
    assert(el.len() >= 6);
    lemma_seq_step(b, w, base, ck, s[k], cap, pk);
}

/// When `x + e` begins `a`, the bytes of `e` stand right after `x` in `a + t`.
proof fn lemma_slice_in_prefix(a: Seq<u8>, x: Seq<u8>, e: Seq<u8>, t: Seq<u8>)
    requires
        x.len() + e.len() <= a.len(),
        a.subrange(0, (x.len() + e.len()) as int) == x + e,
    ensures
        (a + t).subrange(x.len() as int, (x.len() + e.len()) as int) == e,
{
    let n = x.len() as int;
    assert forall|i: int| 0 <= i < e.len() implies (a + t).subrange(n, n + e.len())[i] == e[i] by {
        assert(a.subrange(0, n + e.len())[n + i] == (x + e)[n + i]);
    }
    assert((a + t).subrange(n, n + e.len()) =~= e);
}

/// Round-trip law of the block format: faithful sequences followed by a
/// final literal run decode, with the preceding content `w[..base]` as
/// dictionary, to exactly the content they describe.
pub proof fn lemma_decode_encoded(w: Seq<u8>, base: int, s: Seq<SeqRec>, r: nat, cap: int)
    requires
        0 <= base,
        seqs_valid(w, base, s, cap),
        base + content_len(s) + r <= w.len(),
        content_len(s) + r <= cap,
        s.len() > 0 ==> r >= 5,
        r <= length_field_max(),
    ensures
        lz4_decode(
            enc_seqs(w, base, s) + enc_last(w, base + content_len(s), r),
            w.subrange(0, base),
            cap,
            false,
        ) == Some(w.subrange(base, base + content_len(s) + r)),
{
    let b = enc_seqs(w, base, s) + enc_last(w, base + content_len(s), r);
    if s.len() > 0 {
        lemma_valid_at(w, base, s, cap, s.len() - 1);
        lemma_content_prefix(s, s.len() - 1);
        lemma_enc_step(w, base, s, s.len() - 1);
        assert(s.take(s.len() as int) =~= s);
    }
    if cap == 0 {
        assert(s.len() == 0);
        assert(s =~= Seq::<SeqRec>::empty());
        assert(b =~= seq![0u8]);
        assert(w.subrange(base, base) =~= Seq::<u8>::empty());
    } else {
        assert(s.take(0) =~= Seq::<SeqRec>::empty());
        assert(w.subrange(base, base) =~= Seq::<u8>::empty());
        lemma_run_from(w, base, s, r, cap, 0);
    }
}

/// A match reaching no further back than `d` copies the same bytes when more
/// content precedes `d`.
proof fn lemma_match_bytes_suffix(pre: Seq<u8>, d: Seq<u8>, out: Seq<u8>, off: int, len: int)
    requires
        1 <= off <= out.len() + d.len(),
    ensures
        match_bytes(pre + d, out, off, len) == match_bytes(d, out, off, len),
{
    let w = d + out;
    let w2 = (pre + d) + out;
    let p = w.len() - off;
    let n = len as nat;
    assert forall|i: int| 0 <= i < n implies #[trigger] match_bytes(pre + d, out, off, len)[i]
        == match_bytes(d, out, off, len)[i] by {
        let k = p + i % off;
        vstd::arithmetic::div_mod::lemma_mod_pos_bound(i, off);
        assert(w2[pre.len() + k] == w[k]);
        assert(w2.len() - off == pre.len() + p);
    }
    assert(match_bytes(pre + d, out, off, len) =~= match_bytes(d, out, off, len));
}

/// The match part of a sequence decodes alike when more content precedes
/// the dictionary, unless it fails.
proof fn lemma_dec_match_suffix(
    b: Seq<u8>,
    pre: Seq<u8>,
    d: Seq<u8>,
    cap: int,
    partial: bool,
    ip: int,
    out: Seq<u8>,
    off: int,
    mlc: int,
)
    requires
        0 <= off,
        !(dec_match(b, d, cap, partial, ip, out, off, mlc) is Fail),
    ensures
        dec_match(b, pre + d, cap, partial, ip, out, off, mlc) == dec_match(
            b,
            d,
            cap,
            partial,
            ip,
            out,
            off,
            mlc,
        ),
{
    let n = b.len() as int;
    let ilimit = if n >= 5 {
        n - 4
    } else {
        0
    };
    let rv = read_var(b, ip, ilimit, false);
    let (ml, ip2) = match rv {
        Some((v, q)) if mlc == 15 => (v + 19, q),
        _ => (mlc + 4, ip),
    };
    let op = out.len() as int;
    assert(1 <= off <= op + d.len());
    let len = if cap - op < ml {
        cap - op
    } else {
        ml
    };
    lemma_match_bytes_suffix(pre, d, out, off, len);
    lemma_match_bytes_suffix(pre, d, out, off, ml);
}

/// One decoding step is the same when more content precedes the dictionary,
/// unless it fails.
proof fn lemma_dec_step_suffix(
    b: Seq<u8>,
    pre: Seq<u8>,
    d: Seq<u8>,
    cap: int,
    partial: bool,
    ip: int,
    out: Seq<u8>,
)
    requires
        0 <= ip < b.len(),
        !(dec_step(b, d, cap, partial, ip, out) is Fail),
    ensures
        dec_step(b, pre + d, cap, partial, ip, out) == dec_step(b, d, cap, partial, ip, out),
{
    let d2 = pre + d;
    let n = b.len() as int;
    if dec_fast(b, cap, ip, out) {
        let token = b[ip] as int;
        let ll0 = token / 16;
        let mlc = token % 16;
        let ip1 = ip + 1;
        let out1 = out + b.subrange(ip1, ip1 + ll0);
        let ip2 = ip1 + ll0;
        let off = le16_at(b, ip2);
        let op1 = out.len() + ll0;
        if mlc != 15 && off >= 8 && off <= op1 {
            lemma_match_bytes_suffix(pre, d, out1, off, mlc + 4);
        } else {
            lemma_dec_match_suffix(b, pre, d, cap, partial, ip2 + 2, out1, off, mlc);
        }
        assert(dec_fast_step(b, d2, cap, partial, ip, out) == dec_fast_step(
            b,
            d,
            cap,
            partial,
            ip,
            out,
        ));
    } else {
        let token = b[ip] as int;
        let ll0 = token / 16;
        let mlc = token % 16;
        let lim = if n >= 15 {
            n - 15
        } else {
            0
        };
        let rv = read_var(b, ip + 1, lim, true);
        if !(ll0 == 15 && rv is None) {
            let (ll, ipl) = match rv {
                Some((v, q)) if ll0 == 15 => (v + 15, q),
                _ => (ll0, ip + 1),
            };
            let op = out.len() as int;
            if op + ll > cap - 12 || ipl + ll > n - 8 {
                if partial {
                    let ll1 = if ipl + ll > n {
                        n - ipl
                    } else {
                        ll
                    };
                    let ll2 = if op + ll1 > cap {
                        cap - op
                    } else {
                        ll1
                    };
                    let out1 = out + b.subrange(ipl, ipl + ll2);
                    let ip2 = ipl + ll2;
                    if !(out1.len() == cap || ip2 >= n - 2) {
                        lemma_dec_match_suffix(
                            b,
                            pre,
                            d,
                            cap,
                            partial,
                            ip2 + 2,
                            out1,
                            le16_at(b, ip2),
                            mlc,
                        );
                    }
                }
            } else {
                let out1 = out + b.subrange(ipl, ipl + ll);
                let ip2 = ipl + ll;
                lemma_dec_match_suffix(b, pre, d, cap, partial, ip2 + 2, out1, le16_at(b, ip2), mlc);
            }
            assert(dec_lits(b, d2, cap, partial, out, ll, ipl, mlc) == dec_lits(
                b,
                d,
                cap,
                partial,
                out,
                ll,
                ipl,
                mlc,
            ));
        }
        assert(dec_slow(b, d2, cap, partial, ip, out) == dec_slow(b, d, cap, partial, ip, out));
    }
}

proof fn lemma_dec_run_suffix(
    b: Seq<u8>,
    pre: Seq<u8>,
    d: Seq<u8>,
    cap: int,
    partial: bool,
    ip: int,
    out: Seq<u8>,
)
    requires
        dec_run(b, d, cap, partial, ip, out) is Some,
    ensures
        dec_run(b, pre + d, cap, partial, ip, out) == dec_run(b, d, cap, partial, ip, out),
    decreases b.len() - ip,
{
    lemma_dec_step_suffix(b, pre, d, cap, partial, ip, out);
    match dec_step(b, d, cap, partial, ip, out) {
        DecStep::Next(ip2, o) => {
            lemma_dec_run_suffix(b, pre, d, cap, partial, ip2, o);
        },
        _ => {},
    }
}

/// A block that decodes with dictionary `d` decodes to the same content
/// when more content precedes `d`: a decoder may keep a longer history than
/// the encoder's.
pub proof fn lemma_decode_longer_dict(
    b: Seq<u8>,
    pre: Seq<u8>,
    d: Seq<u8>,
    cap: int,
    partial: bool,
)
    requires
        lz4_decode(b, d, cap, partial) is Some,
    ensures
        lz4_decode(b, pre + d, cap, partial) == lz4_decode(b, d, cap, partial),
{
    if cap != 0 && b.len() != 0 {
        lemma_dec_run_suffix(b, pre, d, cap, partial, 0, Seq::empty());
    }
}

} // verus!
