//! The laws of the codec, proved against the grammar model.
//!
//! The encoder's output parses back to exactly the payload it was given
//! ([`lemma_parse_encoded_frame`], [`lemma_round_trip`]); every proper
//! prefix of an encoded frame is classified as incomplete, never as a frame
//! and never as an error, and a known shortfall is exact
//! ([`lemma_prefix_incomplete`]); and a well-formed `Content-Type` header
//! changes nothing about the payload a frame carries
//! ([`lemma_content_type_plain`], [`lemma_content_type_charset`]).

use vstd::prelude::*;
use vstd::utf8::{decode_utf8, encode_utf8, encode_utf8_decode_utf8, encode_utf8_valid_utf8,
    valid_utf8};

use crate::codec::lemma_encode_utf8_empty;
use crate::grammar::{ct_text_pred, dec_digits, digit_pred, digits_val, encoded_frame,
    is_ct_text_byte, is_digit_byte, lemma_dec_digits, lemma_run_end, lemma_run_end_is,
    lit_charset, lit_content_length, lit_content_type, lit_crlf, lit_utf8, lit_utf_hyphen_8,
    match_at, run_end, space_pred, spec_ct, spec_parse,
    CtParsed, LitMatch, SpecParsed};

verus! {

/// A header block whose optional `Content-Type` line is abstracted as the
/// byte sequence `ctl` (empty when the header is absent), followed by the
/// blank line and the payload.
pub open spec fn framed_with(ctl: Seq<u8>, p: Seq<u8>) -> Seq<u8> {
    lit_content_length() + dec_digits(p.len()) + lit_crlf() + ctl + lit_crlf() + p
}

/// A literal that stands in full at `pos` matches there.
proof fn lemma_match_here(buf: Seq<u8>, pos: int, pat: Seq<u8>)
    requires
        0 <= pos,
        pos + pat.len() <= buf.len(),
        forall|i: int| 0 <= i < pat.len() ==> buf[pos + i] == pat[i],
    ensures
        match_at(buf, pos, pat) == LitMatch::Hit(pos + pat.len()),
{
}

/// A literal one of whose bytes disagrees with the buffer fails to match.
proof fn lemma_match_miss(buf: Seq<u8>, pos: int, pat: Seq<u8>, w: int)
    requires
        0 <= w < pat.len(),
        0 <= pos,
        pos + w < buf.len(),
        buf[pos + w] != pat[w],
    ensures
        match_at(buf, pos, pat) == LitMatch::Miss,
{
}

/// Where every byte of [`framed_with`] comes from.
proof fn lemma_framed_with_index(ctl: Seq<u8>, p: Seq<u8>)
    ensures
        ({
            let d = dec_digits(p.len()).len() as int;
            let cl = ctl.len() as int;
            let f = framed_with(ctl, p);
            &&& f.len() == 20 + d + cl + p.len()
            &&& forall|i: int| 0 <= i < 16 ==> f[i] == lit_content_length()[i]
            &&& forall|i: int| 0 <= i < d ==> f[16 + i] == dec_digits(p.len())[i]
            &&& f[16 + d] == 13
            &&& f[17 + d] == 10
            &&& forall|i: int| 0 <= i < cl ==> f[18 + d + i] == ctl[i]
            &&& f[18 + d + cl] == 13
            &&& f[19 + d + cl] == 10
            &&& forall|i: int| 0 <= i < p.len() ==> f[20 + d + cl + i] == p[i]
        }),
{
    let d = dec_digits(p.len()).len() as int;
    let cl = ctl.len() as int;
    let f = framed_with(ctl, p);
    assert(lit_content_length().len() == 16);
    assert(lit_crlf().len() == 2);
    assert(lit_crlf()[0] == 13 && lit_crlf()[1] == 10);
    assert(f.len() == 20 + d + cl + p.len());
}

/// In a [`framed_with`] buffer, the digit run after the length literal is
/// exactly the rendered length.
proof fn lemma_framed_digit_run(ctl: Seq<u8>, p: Seq<u8>)
    ensures
        run_end(framed_with(ctl, p), 16, digit_pred()) == 16 + dec_digits(p.len()).len(),
        is_digit_byte(framed_with(ctl, p)[16]),
        framed_with(ctl, p).subrange(16, 16 + dec_digits(p.len()).len() as int) == dec_digits(
            p.len(),
        ),
        digits_val(framed_with(ctl, p).subrange(16, 16 + dec_digits(p.len()).len() as int))
            == p.len(),
{
    let d = dec_digits(p.len()).len() as int;
    let f = framed_with(ctl, p);
    let p2 = 16 + d;
    lemma_framed_with_index(ctl, p);
    lemma_dec_digits(p.len());
    assert forall|i: int| 16 <= i < p2 implies digit_pred()(f[i]) by {
        assert(f[i] == dec_digits(p.len())[i - 16]);
        assert(is_digit_byte(f[i]));
    }
    assert(!digit_pred()(f[p2]));
    lemma_run_end_is(f, 16, p2, digit_pred());
    assert(f.subrange(16, p2) =~= dec_digits(p.len()));
}

/// In a [`framed_with`] buffer, the three fixed literals match where the
/// layout puts them, and the payload is the buffer's tail.
proof fn lemma_framed_lits(ctl: Seq<u8>, p: Seq<u8>)
    ensures
        ({
            let d = dec_digits(p.len()).len() as int;
            let f = framed_with(ctl, p);
            let p5 = 20 + d + ctl.len() as int;
            &&& f.len() == p5 + p.len()
            &&& match_at(f, 0, lit_content_length()) == LitMatch::Hit(16)
            &&& match_at(f, 16 + d, lit_crlf()) == LitMatch::Hit(18 + d)
            &&& match_at(f, p5 - 2, lit_crlf()) == LitMatch::Hit(p5)
            &&& f.subrange(p5, f.len() as int) == p
        }),
{
    let d = dec_digits(p.len()).len() as int;
    let cl = ctl.len() as int;
    let f = framed_with(ctl, p);
    let p5 = 20 + d + cl;
    lemma_framed_with_index(ctl, p);
    lemma_match_here(f, 0, lit_content_length());
    assert forall|i: int| 0 <= i < 2 implies f[16 + d + i] == lit_crlf()[i] by {
        if i == 0 {
            assert(f[16 + d] == 13);
        } else {
            assert(f[17 + d] == 10);
        }
    }
    lemma_match_here(f, 16 + d, lit_crlf());
    assert forall|i: int| 0 <= i < 2 implies f[18 + d + cl + i] == lit_crlf()[i] by {
        if i == 0 {
            assert(f[18 + d + cl] == 13);
        } else {
            assert(f[19 + d + cl] == 10);
        }
    }
    lemma_match_here(f, 18 + d + cl, lit_crlf());
    assert(f.subrange(p5, f.len() as int) =~= p);
}

/// Evaluate [`spec_parse`] on a buffer each of whose header stages is
/// already known: the result is a complete frame.
proof fn lemma_spec_parse_eval(buf: Seq<u8>, d: int, ct_end: int)
    requires
        match_at(buf, 0, lit_content_length()) == LitMatch::Hit(16),
        16 < buf.len(),
        is_digit_byte(buf[16]),
        d >= 1,
        run_end(buf, 16, digit_pred()) == 16 + d,
        16 + d < buf.len(),
        match_at(buf, 16 + d, lit_crlf()) == LitMatch::Hit(18 + d),
        spec_ct(buf, 18 + d) == CtParsed::CtDone(ct_end),
        match_at(buf, ct_end, lit_crlf()) == LitMatch::Hit(ct_end + 2),
        digits_val(buf.subrange(16, 16 + d)) <= usize::MAX,
        buf.len() - (ct_end + 2) >= digits_val(buf.subrange(16, 16 + d)),
    ensures
        spec_parse(buf) == (SpecParsed::Frame {
            header_len: ct_end + 2,
            body_len: digits_val(buf.subrange(16, 16 + d)) as int,
        }),
{
}

/// Parsing a frame whose `Content-Type` line `ctl` the grammar accepts
/// yields exactly the frame's payload and consumes the whole frame.
proof fn lemma_parse_framed_with(ctl: Seq<u8>, p: Seq<u8>)
    requires
        1 <= p.len() <= usize::MAX,
        spec_ct(framed_with(ctl, p), 18 + dec_digits(p.len()).len() as int) == CtParsed::CtDone(
            18 + dec_digits(p.len()).len() + ctl.len() as int,
        ),
    ensures
        ({
            let f = framed_with(ctl, p);
            let hl = f.len() - p.len();
            &&& spec_parse(f) == SpecParsed::Frame { header_len: hl, body_len: p.len() as int }
            &&& f.subrange(hl, f.len() as int) == p
        }),
{
    let d = dec_digits(p.len()).len() as int;
    let f = framed_with(ctl, p);
    let p5 = 20 + d + ctl.len() as int;
    lemma_dec_digits(p.len());
    lemma_framed_digit_run(ctl, p);
    lemma_framed_lits(ctl, p);
    lemma_spec_parse_eval(f, d, p5 - 2);
}

/// Parsing the encoder's output yields exactly the payload that was
/// encoded, consuming the whole frame.
pub proof fn lemma_parse_encoded_frame(p: Seq<u8>)
    requires
        1 <= p.len() <= usize::MAX,
    ensures
        ({
            let f = encoded_frame(p);
            let hl = f.len() - p.len();
            &&& spec_parse(f) == SpecParsed::Frame { header_len: hl, body_len: p.len() as int }
            &&& f.subrange(hl, f.len() as int) == p
            &&& f.len() == 20 + dec_digits(p.len()).len() + p.len()
        }),
{
    let d = dec_digits(p.len()).len() as int;
    let f = framed_with(Seq::<u8>::empty(), p);
    assert(encoded_frame(p) =~= f);
    lemma_framed_with_index(Seq::<u8>::empty(), p);
    let p3 = 18 + d;
    assert(f[p3] == 13);
    assert(lit_content_type()[0] == 67);
    assert(p3 < f.len());
    lemma_match_miss(f, p3, lit_content_type(), 0);
    assert(spec_ct(f, p3) == CtParsed::CtDone(p3));
    lemma_parse_framed_with(Seq::<u8>::empty(), p);
}

/// A run of `n` spaces.
pub open spec fn space_bytes(n: nat) -> Seq<u8> {
    Seq::new(n, |i: int| 32u8)
}

/// A whole `Content-Type` header line: the literal, the media-type text
/// `t`, a charset suffix `tail` (empty when there is none), and `\r\n`.
pub open spec fn content_type_line(t: Seq<u8>, tail: Seq<u8>) -> Seq<u8> {
    lit_content_type() + t + tail + lit_crlf()
}

/// A charset suffix: `;`, `pad` spaces, `charset=`, and the token `utf-8`
/// (when `hyphen` holds) or `utf8`.
pub open spec fn charset_suffix(pad: nat, hyphen: bool) -> Seq<u8> {
    seq![59u8] + space_bytes(pad) + lit_charset() + (if hyphen {
        lit_utf_hyphen_8()
    } else {
        lit_utf8()
    })
}

/// Where every byte of [`content_type_line`] comes from.
proof fn lemma_ct_line_index(t: Seq<u8>, tail: Seq<u8>)
    ensures
        ({
            let cl = content_type_line(t, tail);
            let tl = t.len() as int;
            let al = tail.len() as int;
            &&& cl.len() == 15 + tl + al
            &&& forall|i: int| 0 <= i < 13 ==> cl[i] == lit_content_type()[i]
            &&& forall|i: int| 0 <= i < tl ==> cl[13 + i] == t[i]
            &&& forall|i: int| 0 <= i < al ==> cl[13 + tl + i] == tail[i]
            &&& cl[13 + tl + al] == 13
            &&& cl[14 + tl + al] == 10
        }),
{
    assert(lit_content_type().len() == 13);
    assert(lit_crlf().len() == 2);
    assert(lit_crlf()[0] == 13 && lit_crlf()[1] == 10);
}

/// Where every byte of [`charset_suffix`] comes from.
proof fn lemma_charset_suffix_index(pad: nat, hyphen: bool)
    ensures
        ({
            let a = charset_suffix(pad, hyphen);
            let tok = if hyphen {
                lit_utf_hyphen_8()
            } else {
                lit_utf8()
            };
            &&& a.len() == 9 + pad + tok.len()
            &&& a[0] == 59
            &&& forall|i: int| 0 <= i < pad ==> #[trigger] a[1 + i] == 32
            &&& forall|i: int| 0 <= i < 8 ==> a[1 + pad + i] == lit_charset()[i]
            &&& forall|i: int| 0 <= i < tok.len() ==> a[9 + pad + i] == tok[i]
        }),
{
    assert(lit_charset().len() == 8);
    assert(space_bytes(pad).len() == pad);
}

/// Evaluate the `Content-Type` rule when the header has no charset suffix
/// and each of its stages is already known.
proof fn lemma_spec_ct_eval_plain(buf: Seq<u8>, pos: int, e: int)
    requires
        match_at(buf, pos, lit_content_type()) == LitMatch::Hit(pos + 13),
        pos + 13 < buf.len(),
        is_ct_text_byte(buf[pos + 13]),
        run_end(buf, pos + 13, ct_text_pred()) == e,
        e < buf.len(),
        buf[e] != 59,
        match_at(buf, e, lit_crlf()) == LitMatch::Hit(e + 2),
    ensures
        spec_ct(buf, pos) == CtParsed::CtDone(e + 2),
{
}

/// Evaluate the `Content-Type` rule when the header carries a charset
/// suffix and each of its stages is already known.
proof fn lemma_spec_ct_eval_charset(buf: Seq<u8>, pos: int, e: int, q: int, hyphen: bool)
    requires
        match_at(buf, pos, lit_content_type()) == LitMatch::Hit(pos + 13),
        pos + 13 < buf.len(),
        is_ct_text_byte(buf[pos + 13]),
        run_end(buf, pos + 13, ct_text_pred()) == e,
        e < buf.len(),
        buf[e] == 59,
        run_end(buf, e + 1, space_pred()) == q,
        q < buf.len(),
        match_at(buf, q, lit_charset()) == LitMatch::Hit(q + 8),
        hyphen ==> match_at(buf, q + 8, lit_utf_hyphen_8()) == LitMatch::Hit(q + 13),
        hyphen ==> match_at(buf, q + 13, lit_crlf()) == LitMatch::Hit(q + 15),
        !hyphen ==> match_at(buf, q + 8, lit_utf_hyphen_8()) is Miss,
        !hyphen ==> match_at(buf, q + 8, lit_utf8()) == LitMatch::Hit(q + 12),
        !hyphen ==> match_at(buf, q + 12, lit_crlf()) == LitMatch::Hit(q + 14),
    ensures
        spec_ct(buf, pos) == CtParsed::CtDone(
            if hyphen {
                q + 15
            } else {
                q + 14
            },
        ),
{
}

/// The `Content-Type` line region of a [`framed_with`] buffer, indexed from
/// the buffer's own positions.
proof fn lemma_framed_ctl_region(ctl: Seq<u8>, p: Seq<u8>)
    ensures
        ({
            let d = dec_digits(p.len()).len() as int;
            let f = framed_with(ctl, p);
            &&& f.len() == 20 + d + ctl.len() + p.len()
            &&& forall|j: int|
                18 + d <= j < 18 + d + ctl.len() ==> #[trigger] f[j] == ctl[j - (18 + d)]
        }),
{
    let d = dec_digits(p.len()).len() as int;
    let f = framed_with(ctl, p);
    lemma_framed_with_index(ctl, p);
    assert forall|j: int| 18 + d <= j < 18 + d + ctl.len() implies #[trigger] f[j] == ctl[j - (18
        + d)] by {
        assert(f[18 + d + (j - (18 + d))] == ctl[j - (18 + d)]);
    }
}

/// The regions of a [`framed_with`] buffer whose `Content-Type` line has
/// media text `t` and suffix `tail`, each byte given from the buffer's own
/// positions.
proof fn lemma_framed_ct_regions(t: Seq<u8>, tail: Seq<u8>, p: Seq<u8>)
    ensures
        ({
            let d = dec_digits(p.len()).len() as int;
            let tl = t.len() as int;
            let al = tail.len() as int;
            let f = framed_with(content_type_line(t, tail), p);
            let s0 = 18 + d;
            &&& f.len() == 35 + d + tl + al + p.len()
            &&& forall|j: int| s0 <= j < s0 + 13 ==> #[trigger] f[j] == lit_content_type()[j - s0]
            &&& forall|j: int| s0 + 13 <= j < s0 + 13 + tl ==> #[trigger] f[j] == t[j - s0 - 13]
            &&& forall|j: int|
                s0 + 13 + tl <= j < s0 + 13 + tl + al ==> #[trigger] f[j] == tail[j - s0 - 13
                    - tl]
            &&& f[s0 + 13 + tl + al] == 13
            &&& f[s0 + 14 + tl + al] == 10
        }),
{
    let d = dec_digits(p.len()).len() as int;
    let tl = t.len() as int;
    let al = tail.len() as int;
    let cl = content_type_line(t, tail);
    let f = framed_with(cl, p);
    let s0 = 18 + d;
    lemma_ct_line_index(t, tail);
    lemma_framed_ctl_region(cl, p);
    assert(cl.len() == 15 + tl + al);
    assert forall|j: int| s0 <= j < s0 + 13 implies #[trigger] f[j] == lit_content_type()[j
        - s0] by {
        assert(f[j] == cl[j - s0]);
    }
    assert forall|j: int| s0 + 13 <= j < s0 + 13 + tl implies #[trigger] f[j] == t[j - s0
        - 13] by {
        assert(f[j] == cl[j - s0]);
        assert(cl[13 + (j - s0 - 13)] == t[j - s0 - 13]);
    }
    assert forall|j: int| s0 + 13 + tl <= j < s0 + 13 + tl + al implies #[trigger] f[j] == tail[j
        - s0 - 13 - tl] by {
        assert(f[j] == cl[j - s0]);
        assert(cl[13 + tl + (j - s0 - 13 - tl)] == tail[j - s0 - 13 - tl]);
    }
    assert(f[s0 + (13 + tl + al)] == cl[13 + tl + al]);
    assert(f[s0 + (14 + tl + al)] == cl[14 + tl + al]);
}

/// The grammar accepts a `Content-Type` line without a charset suffix,
/// ending where the line ends.
proof fn lemma_ct_accepted_plain(p: Seq<u8>, t: Seq<u8>)
    requires
        1 <= t.len(),
        forall|i: int| 0 <= i < t.len() ==> is_ct_text_byte(t[i]),
    ensures
        ({
            let cl = content_type_line(t, Seq::<u8>::empty());
            let d = dec_digits(p.len()).len() as int;
            spec_ct(framed_with(cl, p), 18 + d) == CtParsed::CtDone(18 + d + cl.len() as int)
        }),
{
    let cl = content_type_line(t, Seq::<u8>::empty());
    let d = dec_digits(p.len()).len() as int;
    let f = framed_with(cl, p);
    let p3 = 18 + d;
    let tl = t.len() as int;
    let e = p3 + 13 + tl;
    lemma_framed_ct_regions(t, Seq::<u8>::empty(), p);
    assert(cl.len() == 15 + tl);
    assert forall|i: int| 0 <= i < 13 implies f[p3 + i] == lit_content_type()[i] by {
        assert(f[p3 + i] == lit_content_type()[p3 + i - p3]);
    }
    lemma_match_here(f, p3, lit_content_type());
    assert(f[p3 + 13] == t[0]);
    assert(is_ct_text_byte(f[p3 + 13]));
    assert forall|i: int| p3 + 13 <= i < e implies ct_text_pred()(f[i]) by {
        assert(f[i] == t[i - p3 - 13]);
        assert(is_ct_text_byte(f[i]));
    }
    assert(f[e] == 13);
    assert(!ct_text_pred()(f[e]));
    lemma_run_end_is(f, p3 + 13, e, ct_text_pred());
    assert(f[e + 1] == 10);
    assert forall|i: int| 0 <= i < 2 implies f[e + i] == lit_crlf()[i] by {
        if i == 0 {
            assert(f[e] == 13);
        } else {
            assert(f[e + 1] == 10);
        }
    }
    lemma_match_here(f, e, lit_crlf());
    lemma_spec_ct_eval_plain(f, p3, e);
}

/// The grammar accepts a `Content-Type` line with a `utf-8` or `utf8`
/// charset suffix, ending where the line ends.
#[verifier::rlimit(60)]
proof fn lemma_ct_accepted_charset(p: Seq<u8>, t: Seq<u8>, pad: nat, hyphen: bool)
    requires
        1 <= t.len(),
        forall|i: int| 0 <= i < t.len() ==> is_ct_text_byte(t[i]),
    ensures
        ({
            let cl = content_type_line(t, charset_suffix(pad, hyphen));
            let d = dec_digits(p.len()).len() as int;
            spec_ct(framed_with(cl, p), 18 + d) == CtParsed::CtDone(18 + d + cl.len() as int)
        }),
{
    let tail = charset_suffix(pad, hyphen);
    let tok = if hyphen {
        lit_utf_hyphen_8()
    } else {
        lit_utf8()
    };
    let cl = content_type_line(t, tail);
    let d = dec_digits(p.len()).len() as int;
    let f = framed_with(cl, p);
    let p3 = 18 + d;
    let tl = t.len() as int;
    let al = tail.len() as int;
    let e = p3 + 13 + tl;
    let q = e + 1 + pad;
    lemma_charset_suffix_index(pad, hyphen);
    lemma_framed_ct_regions(t, tail, p);
    assert(al == 9 + pad + tok.len());
    assert(cl.len() == 15 + tl + al);
    assert forall|i: int| 0 <= i < 13 implies f[p3 + i] == lit_content_type()[i] by {
        assert(f[p3 + i] == lit_content_type()[p3 + i - p3]);
    }
    lemma_match_here(f, p3, lit_content_type());
    assert(f[p3 + 13] == t[0]);
    assert(is_ct_text_byte(f[p3 + 13]));
    assert forall|i: int| p3 + 13 <= i < e implies ct_text_pred()(f[i]) by {
        assert(f[i] == t[i - p3 - 13]);
        assert(is_ct_text_byte(f[i]));
    }
    assert(f[e] == tail[0]);
    assert(f[e] == 59);
    assert(!ct_text_pred()(f[e]));
    lemma_run_end_is(f, p3 + 13, e, ct_text_pred());
    assert forall|i: int| e + 1 <= i < q implies space_pred()(f[i]) by {
        assert(f[i] == tail[i - e]);
        assert(tail[1 + (i - e - 1)] == 32);
    }
    assert(f[q] == tail[1 + pad as int + 0]);
    assert(tail[1 + pad as int + 0] == lit_charset()[0]);
    assert(f[q] == 99);
    assert(!space_pred()(f[q]));
    lemma_run_end_is(f, e + 1, q, space_pred());
    assert forall|i: int| 0 <= i < 8 implies f[q + i] == lit_charset()[i] by {
        assert(f[q + i] == tail[q + i - e]);
        assert(tail[1 + pad as int + i] == lit_charset()[i]);
    }
    lemma_match_here(f, q, lit_charset());
    assert forall|i: int| 0 <= i < tok.len() implies f[q + 8 + i] == tok[i] by {
        assert(f[q + 8 + i] == tail[q + 8 + i - e]);
        assert(tail[9 + pad as int + i] == tok[i]);
    }
    let z = q + 8 + tok.len() as int;
    assert(z == p3 + 13 + tl + al);
    assert forall|i: int| 0 <= i < 2 implies f[z + i] == lit_crlf()[i] by {
        if i == 0 {
            assert(f[p3 + 13 + tl + al] == 13);
        } else {
            assert(f[p3 + 14 + tl + al] == 10);
        }
    }
    lemma_match_here(f, z, lit_crlf());
    if hyphen {
        lemma_match_here(f, q + 8, lit_utf_hyphen_8());
        lemma_spec_ct_eval_charset(f, p3, e, q, true);
    } else {
        lemma_match_here(f, q + 8, lit_utf8());
        assert(f[q + 8 + 3] == lit_utf8()[3]);
        assert(lit_utf8()[3] == 56);
        assert(lit_utf_hyphen_8()[3] == 45);
        lemma_match_miss(f, q + 8, lit_utf_hyphen_8(), 3);
        lemma_spec_ct_eval_charset(f, p3, e, q, false);
    }
}

/// A frame that carries a `Content-Type` header without a charset suffix
/// parses to exactly the same payload as one without the header, consuming
/// the whole frame.
pub proof fn lemma_content_type_plain(p: Seq<u8>, t: Seq<u8>)
    requires
        1 <= p.len() <= usize::MAX,
        1 <= t.len(),
        forall|i: int| 0 <= i < t.len() ==> is_ct_text_byte(t[i]),
    ensures
        ({
            let f = framed_with(content_type_line(t, Seq::<u8>::empty()), p);
            let hl = f.len() - p.len();
            &&& spec_parse(f) == SpecParsed::Frame { header_len: hl, body_len: p.len() as int }
            &&& f.subrange(hl, f.len() as int) == p
        }),
{
    lemma_ct_accepted_plain(p, t);
    lemma_parse_framed_with(content_type_line(t, Seq::<u8>::empty()), p);
}

/// A frame that carries a `Content-Type` header with charset `utf-8` or
/// `utf8`, with any number of spaces after the `;`, parses to exactly the
/// same payload as one without the header, consuming the whole frame.
pub proof fn lemma_content_type_charset(p: Seq<u8>, t: Seq<u8>, pad: nat, hyphen: bool)
    requires
        1 <= p.len() <= usize::MAX,
        1 <= t.len(),
        forall|i: int| 0 <= i < t.len() ==> is_ct_text_byte(t[i]),
    ensures
        ({
            let f = framed_with(content_type_line(t, charset_suffix(pad, hyphen)), p);
            let hl = f.len() - p.len();
            &&& spec_parse(f) == SpecParsed::Frame { header_len: hl, body_len: p.len() as int }
            &&& f.subrange(hl, f.len() as int) == p
        }),
{
    lemma_ct_accepted_charset(p, t, pad, hyphen);
    lemma_parse_framed_with(content_type_line(t, charset_suffix(pad, hyphen)), p);
}

/// Truncating a buffer in which a literal matches leaves the match, or cuts
/// it short.
proof fn lemma_match_take(buf: Seq<u8>, k: int, pos: int, pat: Seq<u8>)
    requires
        0 <= pos <= k <= buf.len(),
        match_at(buf, pos, pat) is Hit,
    ensures
        match_at(buf.take(k), pos, pat) == (if pos + pat.len() <= k {
            LitMatch::Hit(pos + pat.len())
        } else {
            LitMatch::Short
        }),
{
    let t = buf.take(k);
    assert(buf.len() >= pos + pat.len());
    assert forall|i: int| 0 <= i < pat.len() && pos + i < t.len() implies t[pos + i] == pat[i] by {
        assert(buf[pos + i] == pat[i]);
    }
}

/// Truncating a buffer cuts a byte run at the cut, or leaves it whole.
proof fn lemma_run_end_take(buf: Seq<u8>, k: int, pos: int, pred: spec_fn(u8) -> bool)
    requires
        0 <= pos <= k <= buf.len(),
    ensures
        run_end(buf.take(k), pos, pred) == (if run_end(buf, pos, pred) < k {
            run_end(buf, pos, pred)
        } else {
            k
        }),
{
    let e = run_end(buf, pos, pred);
    lemma_run_end(buf, pos, pred);
    let t = buf.take(k);
    if e < k {
        assert forall|i: int| pos <= i < e implies pred(t[i]) by {
            assert(t[i] == buf[i]);
        }
        assert(!pred(t[e]));
        lemma_run_end_is(t, pos, e, pred);
    } else {
        assert forall|i: int| pos <= i < k implies pred(t[i]) by {
            assert(t[i] == buf[i]);
        }
        lemma_run_end_is(t, pos, k, pred);
    }
}

/// Evaluate [`spec_parse`] when the length literal itself is cut short.
proof fn lemma_eval_short_literal(buf: Seq<u8>)
    requires
        match_at(buf, 0, lit_content_length()) is Short,
    ensures
        spec_parse(buf) is NeedUnknown,
{
}

/// Evaluate [`spec_parse`] when the buffer ends right after the length
/// literal.
proof fn lemma_eval_short_at_digits(buf: Seq<u8>)
    requires
        match_at(buf, 0, lit_content_length()) == LitMatch::Hit(16),
        buf.len() <= 16,
    ensures
        spec_parse(buf) is NeedUnknown,
{
}

/// Evaluate [`spec_parse`] when the digit run reaches the end of the
/// buffer.
proof fn lemma_eval_short_in_digits(buf: Seq<u8>)
    requires
        match_at(buf, 0, lit_content_length()) == LitMatch::Hit(16),
        16 < buf.len(),
        is_digit_byte(buf[16]),
        run_end(buf, 16, digit_pred()) >= buf.len(),
    ensures
        spec_parse(buf) is NeedUnknown,
{
}

/// Evaluate [`spec_parse`] when the buffer ends inside the line break
/// after the digits.
proof fn lemma_eval_short_after_digits(buf: Seq<u8>, e: int)
    requires
        match_at(buf, 0, lit_content_length()) == LitMatch::Hit(16),
        16 < buf.len(),
        is_digit_byte(buf[16]),
        run_end(buf, 16, digit_pred()) == e,
        e < buf.len(),
        match_at(buf, e, lit_crlf()) is Short,
    ensures
        spec_parse(buf) is NeedUnknown,
{
}

/// Evaluate [`spec_parse`] when the buffer ends inside the optional
/// `Content-Type` header.
proof fn lemma_eval_short_in_ct(buf: Seq<u8>, e: int)
    requires
        match_at(buf, 0, lit_content_length()) == LitMatch::Hit(16),
        16 < buf.len(),
        is_digit_byte(buf[16]),
        run_end(buf, 16, digit_pred()) == e,
        e < buf.len(),
        match_at(buf, e, lit_crlf()) == LitMatch::Hit(e + 2),
        spec_ct(buf, e + 2) is CtShort,
    ensures
        spec_parse(buf) is NeedUnknown,
{
}

/// Evaluate [`spec_parse`] when the buffer ends inside the blank line.
proof fn lemma_eval_short_in_blank(buf: Seq<u8>, e: int, c: int)
    requires
        match_at(buf, 0, lit_content_length()) == LitMatch::Hit(16),
        16 < buf.len(),
        is_digit_byte(buf[16]),
        run_end(buf, 16, digit_pred()) == e,
        e < buf.len(),
        match_at(buf, e, lit_crlf()) == LitMatch::Hit(e + 2),
        spec_ct(buf, e + 2) == CtParsed::CtDone(c),
        match_at(buf, c, lit_crlf()) is Short,
    ensures
        spec_parse(buf) is NeedUnknown,
{
}

/// Evaluate [`spec_parse`] when the header block is complete but payload
/// bytes are missing: the shortfall is known exactly.
proof fn lemma_eval_need_bytes(buf: Seq<u8>, e: int, c: int)
    requires
        match_at(buf, 0, lit_content_length()) == LitMatch::Hit(16),
        16 < buf.len(),
        is_digit_byte(buf[16]),
        run_end(buf, 16, digit_pred()) == e,
        e < buf.len(),
        match_at(buf, e, lit_crlf()) == LitMatch::Hit(e + 2),
        spec_ct(buf, e + 2) == CtParsed::CtDone(c),
        match_at(buf, c, lit_crlf()) == LitMatch::Hit(c + 2),
        digits_val(buf.subrange(16, e)) <= usize::MAX,
        buf.len() - (c + 2) < digits_val(buf.subrange(16, e)),
    ensures
        spec_parse(buf) == (SpecParsed::NeedBytes {
            missing: digits_val(buf.subrange(16, e)) - (buf.len() - (c + 2)),
        }),
{
}

/// Chunked delivery: every proper prefix of an encoded frame is classified
/// as incomplete input, never as a complete frame and never as an error;
/// and when the classification names an exact shortfall, that shortfall is
/// exactly what is missing of the frame.
pub proof fn lemma_prefix_incomplete(p: Seq<u8>, k: int)
    requires
        1 <= p.len() <= usize::MAX,
        0 <= k < encoded_frame(p).len(),
    ensures
        ({
            let t = encoded_frame(p).take(k);
            &&& (spec_parse(t) is NeedUnknown || spec_parse(t) is NeedBytes)
            &&& (spec_parse(t) matches SpecParsed::NeedBytes { missing } ==> k + missing
                == encoded_frame(p).len())
        }),
{
    let d = dec_digits(p.len()).len() as int;
    let f = framed_with(Seq::<u8>::empty(), p);
    assert(encoded_frame(p) =~= f);
    let t = f.take(k);
    assert(encoded_frame(p).take(k) =~= t);
    let p2 = 16 + d;
    let p3 = 18 + d;
    let p5 = 20 + d;
    lemma_dec_digits(p.len());
    lemma_framed_with_index(Seq::<u8>::empty(), p);
    lemma_framed_digit_run(Seq::<u8>::empty(), p);
    lemma_framed_lits(Seq::<u8>::empty(), p);
    lemma_match_take(f, k, 0, lit_content_length());
    if k < 16 {
        lemma_eval_short_literal(t);
    } else if k == 16 {
        lemma_eval_short_at_digits(t);
    } else {
        assert(t[16] == f[16]);
        lemma_run_end_take(f, k, 16, digit_pred());
        if k <= p2 {
            lemma_eval_short_in_digits(t);
        } else {
            assert(run_end(t, 16, digit_pred()) == p2);
            lemma_match_take(f, k, p2, lit_crlf());
            if k < p3 {
                lemma_eval_short_after_digits(t, p2);
            } else {
                assert(match_at(t, p2, lit_crlf()) == LitMatch::Hit(p3));
                if k == p3 {
                    assert(t.len() == p3);
                    assert(match_at(t, p3, lit_content_type()) is Short);
                    assert(spec_ct(t, p3) is CtShort);
                    lemma_eval_short_in_ct(t, p2);
                } else {
                    assert(t[p3] == f[p3]);
                    assert(f[p3] == 13);
                    lemma_match_miss(t, p3, lit_content_type(), 0);
                    assert(spec_ct(t, p3) == CtParsed::CtDone(p3));
                    lemma_match_take(f, k, p3, lit_crlf());
                    if k < p5 {
                        lemma_eval_short_in_blank(t, p2, p3);
                    } else {
                        assert(match_at(t, p3, lit_crlf()) == LitMatch::Hit(p5));
                        assert(t.subrange(16, p2) =~= f.subrange(16, p2));
                        assert(digits_val(t.subrange(16, p2)) == p.len());
                        assert(t.len() - p5 == k - p5 < p.len());
                        lemma_eval_need_bytes(t, p2, p3);
                        assert(k + (p.len() - (k - p5)) == f.len());
                    }
                }
            }
        }
    }
}

/// Round trip: the wire frame of any non-empty string parses back to a
/// complete frame whose payload bytes spell exactly that string, and the
/// frame is consumed in full.
pub proof fn lemma_round_trip(s: Seq<char>)
    requires
        1 <= s.len(),
        encode_utf8(s).len() <= usize::MAX,
    ensures
        ({
            let f = encoded_frame(encode_utf8(s));
            let hl = f.len() - encode_utf8(s).len();
            &&& spec_parse(f) == SpecParsed::Frame {
                header_len: hl,
                body_len: encode_utf8(s).len() as int,
            }
            &&& valid_utf8(f.subrange(hl, f.len() as int))
            &&& decode_utf8(f.subrange(hl, f.len() as int)) == s
        }),
{
    lemma_encode_utf8_empty(s);
    lemma_parse_encoded_frame(encode_utf8(s));
    encode_utf8_valid_utf8(s);
    encode_utf8_decode_utf8(s);
}

/// Feeding an empty buffer to the grammar asks for more input: it is
/// neither a frame nor an error.
pub proof fn lemma_empty_input_incomplete()
    ensures
        spec_parse(Seq::<u8>::empty()) is NeedUnknown,
{
}

/// The wire frame of a valid UTF-8 payload is itself valid UTF-8: the
/// header block is ASCII.  With this, a decoder fed exactly one encoded
/// frame takes the path that returns the frame's payload.
pub proof fn lemma_encoded_frame_utf8(p: Seq<u8>)
    requires
        valid_utf8(p),
    ensures
        valid_utf8(encoded_frame(p)),
{
    let d = dec_digits(p.len()).len() as int;
    let f = framed_with(Seq::<u8>::empty(), p);
    let hlen = 20 + d;
    assert(encoded_frame(p) =~= f);
    lemma_framed_with_index(Seq::<u8>::empty(), p);
    lemma_dec_digits(p.len());
    assert forall|i: int| 0 <= i < hlen implies vstd::utf8::is_leading_byte_width_1(f[i]) by {
        if i < 16 {
            assert(f[i] == lit_content_length()[i]);
        } else if i < 16 + d {
            assert(f[i] == dec_digits(p.len())[i - 16]);
            assert(is_digit_byte(f[i]));
        } else if i == 16 + d || i == 18 + d {
            assert(f[i] == 13);
        } else {
            assert(f[i] == 10);
        }
    }
    assert(f.subrange(0, 0) =~= Seq::<u8>::empty());
    assert(valid_utf8(Seq::<u8>::empty()));
    assert(vstd::utf8::partial_valid_utf8(f, 0));
    vstd::utf8::partial_valid_utf8_extend_ascii_block(f, 0, hlen);
    assert(valid_utf8(f.subrange(0, hlen)));
    vstd::utf8::valid_utf8_concat(f.subrange(0, hlen), p);
    assert(f.subrange(0, hlen) + p =~= f);
}

} // verus!
