//! Executable header parser, proved equal to the grammar model.

use vstd::prelude::*;

use crate::grammar::{
    ct_text_pred, dec_digits, digit_pred, digits_val, is_digit_byte,
    lemma_digits_val_append, lemma_digits_val_take_le, lemma_run_end, lit_charset,
    lit_content_length, lit_content_type, lit_crlf, lit_utf8, lit_utf_hyphen_8, match_at,
    run_end, space_pred, spec_ct, spec_ct_line_end, spec_parse, CtParsed, LitMatch, SpecParsed,
};

verus! {

/// Executable counterpart of [`LitMatch`].
pub enum LitRes {
    Hit(usize),
    Short,
    Miss,
}

/// Whether the executable literal-match result agrees with the model's.
pub open spec fn lit_res_matches(r: LitRes, s: LitMatch) -> bool {
    match (r, s) {
        (LitRes::Hit(a), LitMatch::Hit(b)) => a == b,
        (LitRes::Short, LitMatch::Short) => true,
        (LitRes::Miss, LitMatch::Miss) => true,
        _ => false,
    }
}

/// Match the literal `pat` against `buf` at position `pos`.
pub fn match_lit(buf: &[u8], pos: usize, pat: &[u8]) -> (r: LitRes)
    requires
        pos <= buf@.len(),
    ensures
        lit_res_matches(r, match_at(buf@, pos as int, pat@)),
{
    let blen = buf.len();
    let plen = pat.len();
    let mut i: usize = 0;
    while i < plen && i < blen - pos
        invariant
            blen == buf@.len(),
            plen == pat@.len(),
            pos <= blen,
            i <= plen,
            pos + i <= blen,
            forall|j: int| 0 <= j < i ==> buf@[pos + j] == pat@[j],
        decreases plen - i,
    {
        if buf[pos + i] != pat[i] {
            return LitRes::Miss;
        }
        i = i + 1;
    }
    if i < plen {
        LitRes::Short
    } else {
        LitRes::Hit(pos + plen)
    }
}

/// Executable counterpart of [`SpecParsed`].
pub enum Parsed {
    /// A complete frame: the header block's byte length and the declared
    /// payload byte length.
    Frame { header_len: usize, body_len: usize },
    /// Incomplete input; how much is missing is not known.
    NeedUnknown,
    /// Incomplete input; exactly `missing` more bytes complete the frame.
    NeedBytes { missing: usize },
    /// The `Content-Length` value is not a decimal number that fits the
    /// machine.
    BadLength,
    /// The `Content-Type` header is malformed or names another charset.
    BadType,
    /// No well-formed `Content-Length` header, or the header block is not
    /// terminated correctly.
    BadHeader,
}

/// Whether the executable parse result agrees with the model's.
pub open spec fn parsed_matches(r: Parsed, s: SpecParsed) -> bool {
    match (r, s) {
        (
            Parsed::Frame { header_len: a, body_len: b },
            SpecParsed::Frame { header_len: c, body_len: d },
        ) => a == c && b == d,
        (Parsed::NeedUnknown, SpecParsed::NeedUnknown) => true,
        (Parsed::NeedBytes { missing: a }, SpecParsed::NeedBytes { missing: b }) => a == b,
        (Parsed::BadLength, SpecParsed::BadLength) => true,
        (Parsed::BadType, SpecParsed::BadType) => true,
        (Parsed::BadHeader, SpecParsed::BadHeader) => true,
        _ => false,
    }
}

/// Executable counterpart of [`CtParsed`].
pub enum CtRes {
    /// The header is absent or complete; the position just past it.
    Done(usize),
    /// The buffer ends inside the header.
    Short,
    /// The header is present but malformed.
    Bad,
}

/// Whether the executable `Content-Type` result agrees with the model's.
pub open spec fn ct_res_matches(r: CtRes, s: CtParsed) -> bool {
    match (r, s) {
        (CtRes::Done(a), CtParsed::CtDone(b)) => a == b,
        (CtRes::Short, CtParsed::CtShort) => true,
        (CtRes::Bad, CtParsed::CtBad) => true,
        _ => false,
    }
}

/// Scan the run of decimal digits starting at `pos`.
pub fn scan_digits(buf: &[u8], pos: usize) -> (r: usize)
    requires
        pos <= buf@.len(),
    ensures
        r == run_end(buf@, pos as int, digit_pred()),
        pos <= r <= buf@.len(),
{
    let blen = buf.len();
    let mut i = pos;
    while i < blen && 48 <= buf[i] && buf[i] <= 57
        invariant
            blen == buf@.len(),
            pos <= i <= blen,
            run_end(buf@, pos as int, digit_pred()) == run_end(buf@, i as int, digit_pred()),
        decreases blen - i,
    {
        proof {
            assert(digit_pred()(buf@[i as int]));
        }
        i = i + 1;
    }
    proof {
        assert(run_end(buf@, i as int, digit_pred()) == i);
    }
    i
}

/// Scan the run of media-type text bytes (anything but `;` and `\r`)
/// starting at `pos`.
pub fn scan_ct_text(buf: &[u8], pos: usize) -> (r: usize)
    requires
        pos <= buf@.len(),
    ensures
        r == run_end(buf@, pos as int, ct_text_pred()),
        pos <= r <= buf@.len(),
{
    let blen = buf.len();
    let mut i = pos;
    while i < blen && buf[i] != 59 && buf[i] != 13
        invariant
            blen == buf@.len(),
            pos <= i <= blen,
            run_end(buf@, pos as int, ct_text_pred()) == run_end(buf@, i as int, ct_text_pred()),
        decreases blen - i,
    {
        proof {
            assert(ct_text_pred()(buf@[i as int]));
        }
        i = i + 1;
    }
    proof {
        assert(run_end(buf@, i as int, ct_text_pred()) == i);
    }
    i
}

/// Scan the run of spaces starting at `pos`.
pub fn scan_spaces(buf: &[u8], pos: usize) -> (r: usize)
    requires
        pos <= buf@.len(),
    ensures
        r == run_end(buf@, pos as int, space_pred()),
        pos <= r <= buf@.len(),
{
    let blen = buf.len();
    let mut i = pos;
    while i < blen && buf[i] == 32
        invariant
            blen == buf@.len(),
            pos <= i <= blen,
            run_end(buf@, pos as int, space_pred()) == run_end(buf@, i as int, space_pred()),
        decreases blen - i,
    {
        proof {
            assert(space_pred()(buf@[i as int]));
        }
        i = i + 1;
    }
    proof {
        assert(run_end(buf@, i as int, space_pred()) == i);
    }
    i
}

/// Read the digit run `buf[start..end]` as a `usize`, or report that its
/// value does not fit one.
pub fn digits_to_len(buf: &[u8], start: usize, end: usize) -> (r: Option<usize>)
    requires
        start <= end <= buf@.len(),
        forall|i: int| start <= i < end ==> is_digit_byte(buf@[i]),
    ensures
        match r {
            Some(v) => v == digits_val(buf@.subrange(start as int, end as int)),
            None => digits_val(buf@.subrange(start as int, end as int)) > usize::MAX,
        },
{
    let ghost all = buf@.subrange(start as int, end as int);
    let mut acc: usize = 0;
    let mut i = start;
    while i < end
        invariant
            start <= i <= end <= buf@.len(),
            forall|j: int| start <= j < end ==> is_digit_byte(buf@[j]),
            all == buf@.subrange(start as int, end as int),
            acc == digits_val(buf@.subrange(start as int, i as int)),
        decreases end - i,
    {
        let d = buf[i] - 48;
        let ghost pre = buf@.subrange(start as int, i as int);
        proof {
            lemma_digits_val_append(pre, buf@[i as int]);
            assert(buf@.subrange(start as int, i + 1) =~= pre + seq![buf@[i as int]]);
        }
        if acc > (usize::MAX - (d as usize)) / 10 {
            proof {
                vstd::arithmetic::div_mod::lemma_fundamental_div_mod(
                    (usize::MAX - d) as int,
                    10,
                );
                assert(acc * 10 + d > usize::MAX);
                assert(digits_val(buf@.subrange(start as int, i + 1)) > usize::MAX);
                lemma_digits_val_take_le(all, i + 1 - start);
                assert(all.take(i + 1 - start) =~= buf@.subrange(start as int, i + 1));
            }
            return None;
        }
        proof {
            vstd::arithmetic::div_mod::lemma_fundamental_div_mod((usize::MAX - d) as int, 10);
            assert(acc * 10 + d <= usize::MAX);
        }
        acc = acc * 10 + (d as usize);
        i = i + 1;
    }
    Some(acc)
}

/// The decimal digits of `n`, most significant first, as bytes.
pub fn render_dec(n: usize) -> (v: Vec<u8>)
    ensures
        v@ == dec_digits(n as nat),
    decreases n,
{
    if n < 10 {
        let mut v: Vec<u8> = Vec::new();
        v.push((n as u8) + 48);
        proof {
            assert(v@ =~= dec_digits(n as nat));
        }
        v
    } else {
        let mut v = render_dec(n / 10);
        v.push(((n % 10) as u8) + 48);
        proof {
            assert(v@ =~= dec_digits(n as nat));
        }
        v
    }
}

/// The literal `Content-Length: ` as a byte vector.
pub fn vec_content_length() -> (v: Vec<u8>)
    ensures
        v@ == lit_content_length(),
{
    let mut v: Vec<u8> = Vec::new();
    v.push(67);
    v.push(111);
    v.push(110);
    v.push(116);
    v.push(101);
    v.push(110);
    v.push(116);
    v.push(45);
    v.push(76);
    v.push(101);
    v.push(110);
    v.push(103);
    v.push(116);
    v.push(104);
    v.push(58);
    v.push(32);
    proof {
        assert(v@ =~= lit_content_length());
    }
    v
}

/// The literal `Content-Type:` as a byte vector.
pub fn vec_content_type() -> (v: Vec<u8>)
    ensures
        v@ == lit_content_type(),
{
    let mut v: Vec<u8> = Vec::new();
    v.push(67);
    v.push(111);
    v.push(110);
    v.push(116);
    v.push(101);
    v.push(110);
    v.push(116);
    v.push(45);
    v.push(84);
    v.push(121);
    v.push(112);
    v.push(101);
    v.push(58);
    proof {
        assert(v@ =~= lit_content_type());
    }
    v
}

/// The literal `charset=` as a byte vector.
pub fn vec_charset() -> (v: Vec<u8>)
    ensures
        v@ == lit_charset(),
{
    let mut v: Vec<u8> = Vec::new();
    v.push(99);
    v.push(104);
    v.push(97);
    v.push(114);
    v.push(115);
    v.push(101);
    v.push(116);
    v.push(61);
    proof {
        assert(v@ =~= lit_charset());
    }
    v
}

/// The literal `utf-8` as a byte vector.
pub fn vec_utf_hyphen_8() -> (v: Vec<u8>)
    ensures
        v@ == lit_utf_hyphen_8(),
{
    let mut v: Vec<u8> = Vec::new();
    v.push(117);
    v.push(116);
    v.push(102);
    v.push(45);
    v.push(56);
    proof {
        assert(v@ =~= lit_utf_hyphen_8());
    }
    v
}

/// The literal `utf8` as a byte vector.
pub fn vec_utf8() -> (v: Vec<u8>)
    ensures
        v@ == lit_utf8(),
{
    let mut v: Vec<u8> = Vec::new();
    v.push(117);
    v.push(116);
    v.push(102);
    v.push(56);
    proof {
        assert(v@ =~= lit_utf8());
    }
    v
}

/// The line terminator `\r\n` as a byte vector.
pub fn vec_crlf() -> (v: Vec<u8>)
    ensures
        v@ == lit_crlf(),
{
    let mut v: Vec<u8> = Vec::new();
    v.push(13);
    v.push(10);
    proof {
        assert(v@ =~= lit_crlf());
    }
    v
}

/// The `\r\n` that ends a `Content-Type` header line.
fn ct_line_end(buf: &[u8], pos: usize) -> (r: CtRes)
    requires
        pos <= buf@.len(),
    ensures
        ct_res_matches(r, spec_ct_line_end(buf@, pos as int)),
        match r {
            CtRes::Done(p) => pos <= p <= buf@.len(),
            _ => true,
        },
{
    let crlf = vec_crlf();
    match match_lit(buf, pos, crlf.as_slice()) {
        LitRes::Hit(p) => CtRes::Done(p),
        LitRes::Short => CtRes::Short,
        LitRes::Miss => CtRes::Bad,
    }
}

/// The optional `Content-Type` header at position `pos`.
fn parse_ct(buf: &[u8], pos: usize) -> (r: CtRes)
    requires
        pos <= buf@.len(),
    ensures
        ct_res_matches(r, spec_ct(buf@, pos as int)),
        match r {
            CtRes::Done(p) => pos <= p <= buf@.len(),
            _ => true,
        },
{
    let blen = buf.len();
    let ct = vec_content_type();
    match match_lit(buf, pos, ct.as_slice()) {
        LitRes::Miss => CtRes::Done(pos),
        LitRes::Short => CtRes::Short,
        LitRes::Hit(q0) => {
            if q0 >= blen {
                CtRes::Short
            } else if buf[q0] == 59 || buf[q0] == 13 {
                CtRes::Bad
            } else {
                let q1 = scan_ct_text(buf, q0);
                if q1 >= blen {
                    CtRes::Short
                } else if buf[q1] == 59 {
                    let q2 = scan_spaces(buf, q1 + 1);
                    if q2 >= blen {
                        CtRes::Short
                    } else {
                        let cs = vec_charset();
                        match match_lit(buf, q2, cs.as_slice()) {
                            LitRes::Miss => CtRes::Bad,
                            LitRes::Short => CtRes::Short,
                            LitRes::Hit(q3) => {
                                let u1 = vec_utf_hyphen_8();
                                match match_lit(buf, q3, u1.as_slice()) {
                                    LitRes::Hit(q4) => ct_line_end(buf, q4),
                                    LitRes::Short => CtRes::Short,
                                    LitRes::Miss => {
                                        let u2 = vec_utf8();
                                        match match_lit(buf, q3, u2.as_slice()) {
                                            LitRes::Hit(q4) => ct_line_end(buf, q4),
                                            LitRes::Short => CtRes::Short,
                                            LitRes::Miss => CtRes::Bad,
                                        }
                                    },
                                }
                            },
                        }
                    }
                } else {
                    ct_line_end(buf, q1)
                }
            }
        },
    }
}

/// Run the header grammar against the whole buffer.
///
/// The result is exactly the model's classification of the buffer's bytes.
pub fn parse_message(buf: &[u8]) -> (r: Parsed)
    ensures
        parsed_matches(r, spec_parse(buf@)),
        match r {
            Parsed::Frame { header_len, body_len } => header_len + body_len <= buf@.len(),
            _ => true,
        },
{
    let blen = buf.len();
    let cl = vec_content_length();
    match match_lit(buf, 0, cl.as_slice()) {
        LitRes::Miss => Parsed::BadHeader,
        LitRes::Short => Parsed::NeedUnknown,
        LitRes::Hit(p1) => {
            if p1 >= blen {
                Parsed::NeedUnknown
            } else if !(48 <= buf[p1] && buf[p1] <= 57) {
                Parsed::BadLength
            } else {
                let p2 = scan_digits(buf, p1);
                if p2 >= blen {
                    Parsed::NeedUnknown
                } else {
                    let crlf = vec_crlf();
                    match match_lit(buf, p2, crlf.as_slice()) {
                        LitRes::Miss => Parsed::BadHeader,
                        LitRes::Short => Parsed::NeedUnknown,
                        LitRes::Hit(p3) => match parse_ct(buf, p3) {
                            CtRes::Short => Parsed::NeedUnknown,
                            CtRes::Bad => Parsed::BadType,
                            CtRes::Done(p4) => {
                                let crlf2 = vec_crlf();
                                match match_lit(buf, p4, crlf2.as_slice()) {
                                    LitRes::Miss => Parsed::BadHeader,
                                    LitRes::Short => Parsed::NeedUnknown,
                                    LitRes::Hit(p5) => {
                                        proof {
                                            lemma_run_end(buf@, p1 as int, digit_pred());
                                            assert forall|i: int| p1 <= i < p2 implies is_digit_byte(
                                                buf@[i],
                                            ) by {
                                                assert(digit_pred()(buf@[i]));
                                            }
                                        }
                                        match digits_to_len(buf, p1, p2) {
                                            None => Parsed::BadLength,
                                            Some(n) => {
                                                if blen - p5 < n {
                                                    Parsed::NeedBytes { missing: n - (blen - p5) }
                                                } else {
                                                    Parsed::Frame { header_len: p5, body_len: n }
                                                }
                                            },
                                        }
                                    },
                                }
                            },
                        },
                    }
                }
            }
        },
    }
}

} // verus!
