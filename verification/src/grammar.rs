//! Mathematical model of the header grammar.
//!
//! A frame is `Content-Length: <digits>\r\n`, an optional `Content-Type`
//! header line, a blank line `\r\n`, and exactly `<digits>` payload bytes.
//! [`spec_parse`] classifies any byte sequence as a complete frame, as
//! incomplete input (with the exact shortfall when it is known), or as one of
//! three structural failures.  The executable parser is proved to return
//! exactly this classification.

use vstd::prelude::*;

verus! {

/// Outcome of matching one fixed literal at a position of the buffer.
pub enum LitMatch {
    /// The whole literal is present; the value is the position just past it.
    Hit(int),
    /// The buffer ends before the literal does, and agrees with it so far.
    Short,
    /// Some byte of the buffer differs from the literal.
    Miss,
}

/// Classification of a buffer by the header grammar.
pub enum SpecParsed {
    /// A complete frame: `header_len` bytes of headers followed by
    /// `body_len` payload bytes.
    Frame { header_len: int, body_len: int },
    /// The buffer is a proper prefix of some frame; how much is missing is
    /// not known.
    NeedUnknown,
    /// The headers are complete and `missing` more bytes are needed to
    /// complete the declared payload.
    NeedBytes { missing: int },
    /// The `Content-Length` value is not a decimal number that fits the
    /// machine.
    BadLength,
    /// A `Content-Type` header is present but malformed, or its charset is
    /// neither `utf-8` nor `utf8`.
    BadType,
    /// No well-formed `Content-Length` header, or the header block is not
    /// terminated correctly.
    BadHeader,
}

/// Outcome of the optional `Content-Type` header at a position of the buffer.
pub enum CtParsed {
    /// The header is absent or complete; the value is the position just past
    /// it (unchanged when absent).
    CtDone(int),
    /// The buffer ends inside the header.
    CtShort,
    /// The header is present but malformed.
    CtBad,
}

/// The bytes of the literal `Content-Length: `.
pub open spec fn lit_content_length() -> Seq<u8> {
    seq![67u8, 111u8, 110u8, 116u8, 101u8, 110u8, 116u8, 45u8, 76u8, 101u8, 110u8, 103u8, 116u8, 104u8, 58u8, 32u8]
}

/// The bytes of the literal `Content-Type:`.
pub open spec fn lit_content_type() -> Seq<u8> {
    seq![67u8, 111u8, 110u8, 116u8, 101u8, 110u8, 116u8, 45u8, 84u8, 121u8, 112u8, 101u8, 58u8]
}

/// The bytes of the literal `charset=`.
pub open spec fn lit_charset() -> Seq<u8> {
    seq![99u8, 104u8, 97u8, 114u8, 115u8, 101u8, 116u8, 61u8]
}

/// The bytes of the literal `utf-8`.
pub open spec fn lit_utf_hyphen_8() -> Seq<u8> {
    seq![117u8, 116u8, 102u8, 45u8, 56u8]
}

/// The bytes of the literal `utf8`.
pub open spec fn lit_utf8() -> Seq<u8> {
    seq![117u8, 116u8, 102u8, 56u8]
}

/// The bytes of the line terminator `\r\n`.
pub open spec fn lit_crlf() -> Seq<u8> {
    seq![13u8, 10u8]
}

/// Whether `b` is an ASCII decimal digit.
pub open spec fn is_digit_byte(b: u8) -> bool {
    48 <= b <= 57
}

/// Whether `b` may appear in the media-type text of a `Content-Type` header:
/// anything but `;` and `\r`.
pub open spec fn is_ct_text_byte(b: u8) -> bool {
    b != 59 && b != 13
}

/// Whether `b` is an ASCII space.
pub open spec fn is_space_byte(b: u8) -> bool {
    b == 32
}

/// [`is_digit_byte`] as a function value, for byte runs.
pub open spec fn digit_pred() -> spec_fn(u8) -> bool {
    |b: u8| is_digit_byte(b)
}

/// [`is_ct_text_byte`] as a function value, for byte runs.
pub open spec fn ct_text_pred() -> spec_fn(u8) -> bool {
    |b: u8| is_ct_text_byte(b)
}

/// [`is_space_byte`] as a function value, for byte runs.
pub open spec fn space_pred() -> spec_fn(u8) -> bool {
    |b: u8| is_space_byte(b)
}

/// Match the literal `pat` against `buf` at position `pos`.
pub open spec fn match_at(buf: Seq<u8>, pos: int, pat: Seq<u8>) -> LitMatch
    recommends
        0 <= pos <= buf.len(),
{
    if exists|i: int| 0 <= i < pat.len() && pos + i < buf.len() && buf[pos + i] != pat[i] {
        LitMatch::Miss
    } else if buf.len() < pos + pat.len() {
        LitMatch::Short
    } else {
        LitMatch::Hit(pos + pat.len())
    }
}

/// First position at or after `pos` whose byte fails `pred`, or the end of
/// the buffer if every byte from `pos` on satisfies it.
pub open spec fn run_end(buf: Seq<u8>, pos: int, pred: spec_fn(u8) -> bool) -> int
    recommends
        0 <= pos <= buf.len(),
    decreases buf.len() - pos when 0 <= pos <= buf.len()
{
    if pos < buf.len() && pred(buf[pos]) {
        run_end(buf, pos + 1, pred)
    } else {
        pos
    }
}

/// Value of a run of ASCII digits read as a base-10 number.
pub open spec fn digits_val(s: Seq<u8>) -> nat
    recommends
        forall|i: int| 0 <= i < s.len() ==> is_digit_byte(s[i]),
    decreases s.len(),
{
    if s.len() == 0 {
        0
    } else {
        digits_val(s.drop_last()) * 10 + ((s.last() - 48) as nat)
    }
}

/// The base-10 digits of `n`, most significant first.
pub open spec fn dec_digits(n: nat) -> Seq<u8>
    decreases n,
{
    if n < 10 {
        seq![(n + 48) as u8]
    } else {
        dec_digits(n / 10) + seq![((n % 10) + 48) as u8]
    }
}

/// The charset suffix of a `Content-Type` header, from the `;` on:
/// `; <spaces>charset=` followed by `utf-8` or `utf8`, then the line's
/// `\r\n`.  `pos` points just past the `;`.
pub open spec fn spec_charset(buf: Seq<u8>, pos: int) -> CtParsed
    recommends
        0 <= pos <= buf.len(),
{
    let q = run_end(buf, pos, space_pred());
    if q >= buf.len() {
        CtParsed::CtShort
    } else {
        match match_at(buf, q, lit_charset()) {
            LitMatch::Miss => CtParsed::CtBad,
            LitMatch::Short => CtParsed::CtShort,
            LitMatch::Hit(q1) => match match_at(buf, q1, lit_utf_hyphen_8()) {
                LitMatch::Hit(q2) => spec_ct_line_end(buf, q2),
                LitMatch::Short => CtParsed::CtShort,
                LitMatch::Miss => match match_at(buf, q1, lit_utf8()) {
                    LitMatch::Hit(q2) => spec_ct_line_end(buf, q2),
                    LitMatch::Short => CtParsed::CtShort,
                    LitMatch::Miss => CtParsed::CtBad,
                },
            },
        }
    }
}

/// The `\r\n` that ends a `Content-Type` header line.
pub open spec fn spec_ct_line_end(buf: Seq<u8>, pos: int) -> CtParsed
    recommends
        0 <= pos <= buf.len(),
{
    match match_at(buf, pos, lit_crlf()) {
        LitMatch::Hit(p) => CtParsed::CtDone(p),
        LitMatch::Short => CtParsed::CtShort,
        LitMatch::Miss => CtParsed::CtBad,
    }
}

/// The optional `Content-Type` header at position `pos`: absent when the
/// literal `Content-Type:` does not start there; otherwise media-type text,
/// an optional charset suffix, and the line's `\r\n`.
pub open spec fn spec_ct(buf: Seq<u8>, pos: int) -> CtParsed
    recommends
        0 <= pos <= buf.len(),
{
    match match_at(buf, pos, lit_content_type()) {
        LitMatch::Miss => CtParsed::CtDone(pos),
        LitMatch::Short => CtParsed::CtShort,
        LitMatch::Hit(q0) => {
            if q0 >= buf.len() {
                CtParsed::CtShort
            } else if !is_ct_text_byte(buf[q0]) {
                CtParsed::CtBad
            } else {
                let q1 = run_end(buf, q0, ct_text_pred());
                if q1 >= buf.len() {
                    CtParsed::CtShort
                } else if buf[q1] == 59 {
                    spec_charset(buf, q1 + 1)
                } else {
                    spec_ct_line_end(buf, q1)
                }
            }
        },
    }
}

/// Classify `buf` by the header grammar, from its start.
///
/// The stages are, in order: the literal `Content-Length: `, a run of one or
/// more digits, `\r\n`, the optional `Content-Type` header, the blank line
/// `\r\n`, and then the declared number of payload bytes.  A digit run whose
/// value does not fit a `usize` is a length failure, found once the header
/// block is complete.  A buffer that ends inside a stage is incomplete; only
/// when the header block is complete is the shortfall known exactly.
pub open spec fn spec_parse(buf: Seq<u8>) -> SpecParsed {
    match match_at(buf, 0, lit_content_length()) {
        LitMatch::Miss => SpecParsed::BadHeader,
        LitMatch::Short => SpecParsed::NeedUnknown,
        LitMatch::Hit(p1) => {
            if p1 >= buf.len() {
                SpecParsed::NeedUnknown
            } else if !is_digit_byte(buf[p1]) {
                SpecParsed::BadLength
            } else {
                let p2 = run_end(buf, p1, digit_pred());
                if p2 >= buf.len() {
                    SpecParsed::NeedUnknown
                } else {
                    match match_at(buf, p2, lit_crlf()) {
                        LitMatch::Miss => SpecParsed::BadHeader,
                        LitMatch::Short => SpecParsed::NeedUnknown,
                        LitMatch::Hit(p3) => match spec_ct(buf, p3) {
                            CtParsed::CtShort => SpecParsed::NeedUnknown,
                            CtParsed::CtBad => SpecParsed::BadType,
                            CtParsed::CtDone(p4) => match match_at(buf, p4, lit_crlf()) {
                                LitMatch::Miss => SpecParsed::BadHeader,
                                LitMatch::Short => SpecParsed::NeedUnknown,
                                LitMatch::Hit(p5) => {
                                    let n = digits_val(buf.subrange(p1, p2));
                                    if n > usize::MAX {
                                        SpecParsed::BadLength
                                    } else if buf.len() - p5 < n {
                                        SpecParsed::NeedBytes { missing: n - (buf.len() - p5) }
                                    } else {
                                        SpecParsed::Frame { header_len: p5, body_len: n as int }
                                    }
                                },
                            },
                        },
                    }
                }
            }
        },
    }
}

/// The wire bytes of one frame carrying the payload `p`: the length header,
/// the blank line, and the payload itself.
pub open spec fn encoded_frame(p: Seq<u8>) -> Seq<u8> {
    lit_content_length() + dec_digits(p.len()) + lit_crlf() + lit_crlf() + p
}

/// Ten to the power `k`.
pub open spec fn pow10(k: nat) -> nat
    decreases k,
{
    if k == 0 {
        1
    } else {
        10 * pow10((k - 1) as nat)
    }
}

/// Where a byte run ends: every byte before the end satisfies the predicate
/// and the byte at the end, if any, does not.
pub proof fn lemma_run_end(buf: Seq<u8>, pos: int, pred: spec_fn(u8) -> bool)
    requires
        0 <= pos <= buf.len(),
    ensures
        pos <= run_end(buf, pos, pred) <= buf.len(),
        forall|i: int| pos <= i < run_end(buf, pos, pred) ==> pred(buf[i]),
        run_end(buf, pos, pred) < buf.len() ==> !pred(buf[run_end(buf, pos, pred)]),
    decreases buf.len() - pos,
{
    if pos < buf.len() && pred(buf[pos]) {
        lemma_run_end(buf, pos + 1, pred);
    }
}

/// A position with those two properties is where the byte run ends.
pub proof fn lemma_run_end_is(buf: Seq<u8>, pos: int, end: int, pred: spec_fn(u8) -> bool)
    requires
        0 <= pos <= end <= buf.len(),
        forall|i: int| pos <= i < end ==> pred(buf[i]),
        end < buf.len() ==> !pred(buf[end]),
    ensures
        run_end(buf, pos, pred) == end,
    decreases end - pos,
{
    if pos < end {
        lemma_run_end_is(buf, pos + 1, end, pred);
    }
}

/// Appending one digit multiplies the value by ten and adds the digit.
pub proof fn lemma_digits_val_append(s: Seq<u8>, d: u8)
    ensures
        digits_val(s + seq![d]) == digits_val(s) * 10 + ((d - 48) as nat),
{
    assert((s + seq![d]).drop_last() =~= s);
    assert((s + seq![d]).last() == d);
}

/// Dropping digits from the back can only shrink the value.
pub proof fn lemma_digits_val_take_le(s: Seq<u8>, k: int)
    requires
        0 <= k <= s.len(),
    ensures
        digits_val(s.take(k)) <= digits_val(s),
    decreases s.len() - k,
{
    if k == s.len() {
        assert(s.take(k) =~= s);
    } else {
        lemma_digits_val_take_le(s, k + 1);
        assert(s.take(k + 1).drop_last() =~= s.take(k));
        assert(digits_val(s.take(k + 1)) == digits_val(s.take(k)) * 10 + ((s.take(k + 1).last()
            - 48) as nat));
        assert(digits_val(s.take(k)) <= digits_val(s.take(k)) * 10);
    }
}

/// The decimal digits of `n` are digits, there is at least one of them, and
/// they read back as `n`.
pub proof fn lemma_dec_digits(n: nat)
    ensures
        dec_digits(n).len() >= 1,
        forall|i: int| 0 <= i < dec_digits(n).len() ==> is_digit_byte(#[trigger] dec_digits(n)[i]),
        digits_val(dec_digits(n)) == n,
    decreases n,
{
    if n < 10 {
        assert(seq![((n + 48) as u8)].drop_last() =~= Seq::<u8>::empty());
        assert(digits_val(Seq::<u8>::empty()) == 0);
        assert(seq![((n + 48) as u8)].last() == ((n + 48) as u8));
        assert((((n + 48) as u8) - 48) as nat == n);
        assert(digits_val(dec_digits(n)) == n);
    } else {
        lemma_dec_digits(n / 10);
        lemma_digits_val_append(dec_digits(n / 10), (((n % 10) + 48) as u8));
        assert(digits_val(dec_digits(n)) == (n / 10) * 10 + n % 10);
        assert((n / 10) * 10 + n % 10 == n) by {
            vstd::arithmetic::div_mod::lemma_fundamental_div_mod(n as int, 10);
        }
        assert forall|i: int| 0 <= i < dec_digits(n).len() implies is_digit_byte(
            #[trigger] dec_digits(n)[i],
        ) by {
            if i < dec_digits(n / 10).len() {
                assert(dec_digits(n)[i] == dec_digits(n / 10)[i]);
            } else {
                assert(dec_digits(n)[i] == (((n % 10) + 48) as u8));
            }
        }
    }
}

/// A number below `pow10(k)` has at most `k` decimal digits.
pub proof fn lemma_dec_digits_len(n: nat, k: nat)
    requires
        1 <= k,
        n < pow10(k),
    ensures
        dec_digits(n).len() <= k,
    decreases n,
{
    if n < 10 {
    } else {
        assert(pow10(k) == 10 * pow10((k - 1) as nat));
        assert(k >= 2) by {
            if k == 1 {
                assert(pow10(1nat) == 10);
            }
        }
        assert(n / 10 < pow10((k - 1) as nat)) by {
            vstd::arithmetic::div_mod::lemma_fundamental_div_mod(n as int, 10);
        }
        lemma_dec_digits_len(n / 10, (k - 1) as nat);
    }
}

/// A `usize` has at most twenty decimal digits.
pub proof fn lemma_dec_digits_len_usize(n: nat)
    requires
        n <= usize::MAX,
    ensures
        dec_digits(n).len() <= 20,
{
    assert(pow10(20) == 100000000000000000000) by {
        reveal_with_fuel(pow10, 21);
    }
    lemma_dec_digits_len(n, 20);
}

} // verus!
