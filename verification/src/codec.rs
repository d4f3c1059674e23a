//! The codec: a frame encoder and an incremental frame decoder.

use vstd::prelude::*;
use vstd::slice::slice_subrange;
use vstd::utf8::{decode_utf8, encode_scalar, encode_utf8, valid_utf8};

use crate::buffer::{buf_advance, buf_as_slice, buf_extend, buf_len, buf_reserve, bytes_view};
use crate::grammar::{encoded_frame, lemma_dec_digits_len_usize, spec_parse, SpecParsed};
use crate::parse::{parse_message, render_dec, vec_content_length, vec_crlf, Parsed};

verus! {

#[verifier::external_type_specification]
#[verifier::external_body]
pub struct ExIoError(std::io::Error);

#[verifier::external_type_specification]
#[verifier::external_body]
pub struct ExUtf8Error(std::str::Utf8Error);

/// Errors that can occur while a message is framed or unframed.
#[derive(Debug)]
pub enum ParseError {
    /// The input lacks the required `Content-Length` header.
    MissingHeader,
    /// The length value in the `Content-Length` header is invalid.
    InvalidLength,
    /// The media type in the `Content-Type` header is invalid.
    InvalidType,
    /// Writing the encoded message failed.
    Encode(std::io::Error),
    /// The input contains invalid UTF-8.
    Utf8(std::str::Utf8Error),
}

impl From<std::io::Error> for ParseError {
    fn from(error: std::io::Error) -> (r: Self) {
        ParseError::Encode(error)
    }
}

impl vstd::std_specs::convert::FromSpecImpl<std::io::Error> for ParseError {
    open spec fn obeys_from_spec() -> bool {
        true
    }

    open spec fn from_spec(error: std::io::Error) -> Self {
        ParseError::Encode(error)
    }
}

impl From<std::str::Utf8Error> for ParseError {
    fn from(error: std::str::Utf8Error) -> (r: Self) {
        ParseError::Utf8(error)
    }
}

impl vstd::std_specs::convert::FromSpecImpl<std::str::Utf8Error> for ParseError {
    open spec fn obeys_from_spec() -> bool {
        true
    }

    open spec fn from_spec(error: std::str::Utf8Error) -> Self {
        ParseError::Utf8(error)
    }
}

/// Encodes and decodes framed messages.
///
/// Encoding a message of length zero is deliberately skipped: no bytes are
/// produced.  The one piece of decoder state, the number of bytes the last
/// attempt found still missing, is a short-circuit hint only; decoding is
/// correct whatever its value.
#[derive(Clone, Debug)]
pub struct LanguageServerCodec {
    remaining_msg_bytes: usize,
}

impl LanguageServerCodec {
    /// The decoder's hint: how many more bytes the last decode attempt knew
    /// it still needed, or zero when unknown or satisfied.
    pub closed spec fn spec_hint(&self) -> nat {
        self.remaining_msg_bytes as nat
    }
}

impl Default for LanguageServerCodec {
    /// A codec at rest: no bytes are known to be missing.
    fn default() -> (r: Self)
        ensures
            r.spec_hint() == 0,
    {
        LanguageServerCodec { remaining_msg_bytes: 0 }
    }
}

/// A non-empty character sequence encodes to a non-empty byte sequence, and
/// the empty one to the empty one.
pub proof fn lemma_encode_utf8_empty(s: Seq<char>)
    ensures
        encode_utf8(s).len() == 0 <==> s.len() == 0,
{
    if s.len() > 0 {
        assert(encode_utf8(s) == encode_scalar(s[0] as u32) + encode_utf8(s.drop_first()));
        assert(encode_scalar(s[0] as u32).len() >= 1);
    }
}

/// Relies on `std::str::from_utf8`: it succeeds exactly on valid UTF-8, and
/// the returned string reads the given bytes as UTF-8.
#[verifier::external_body]
fn try_utf8(b: &[u8]) -> (r: Result<&str, std::str::Utf8Error>)
    ensures
        r is Ok <==> valid_utf8(b@),
        r matches Ok(s) ==> s@ == decode_utf8(b@),
{
    std::str::from_utf8(b)
}

/// What one decode call does, given the codec and buffer before the call
/// (`pre`, `buf0`) and after it (`post`, `buf1`).
///
/// When the hint says the buffer is still too short, nothing is parsed.
/// Otherwise a buffer that is not UTF-8 is a `Utf8` error, and the grammar's
/// classification of the bytes decides: a complete frame is removed from the
/// front of the buffer and its payload returned (a `Utf8` error if the
/// payload's own bytes are not UTF-8), incomplete input returns nothing and
/// records the known shortfall, and each structural failure maps to its
/// error.  Every outcome but "incomplete, shortfall known" leaves the codec
/// at rest; the buffer changes only when a frame is returned.
pub open spec fn decode_post(
    pre: LanguageServerCodec,
    post: LanguageServerCodec,
    buf0: Seq<u8>,
    buf1: Seq<u8>,
    r: Result<Option<String>, ParseError>,
) -> bool {
    if pre.spec_hint() > 0 && buf0.len() < pre.spec_hint() {
        &&& r == Ok::<Option<String>, ParseError>(None)
        &&& buf1 == buf0
        &&& post.spec_hint() == 0
    } else if !valid_utf8(buf0) {
        &&& r matches Err(e) && e is Utf8
        &&& buf1 == buf0
        &&& post.spec_hint() == 0
    } else {
        match spec_parse(buf0) {
            SpecParsed::Frame { header_len, body_len } => {
                let body = buf0.subrange(header_len, header_len + body_len);
                if valid_utf8(body) {
                    &&& r matches Ok(m) && m matches Some(s) && s@ == decode_utf8(body)
                    &&& buf1 == buf0.skip(header_len + body_len)
                    &&& post.spec_hint() == 0
                } else {
                    &&& r matches Err(e) && e is Utf8
                    &&& buf1 == buf0
                    &&& post.spec_hint() == 0
                }
            },
            SpecParsed::NeedBytes { missing } => {
                &&& r == Ok::<Option<String>, ParseError>(None)
                &&& buf1 == buf0
                &&& post.spec_hint() == missing
            },
            SpecParsed::NeedUnknown => {
                &&& r == Ok::<Option<String>, ParseError>(None)
                &&& buf1 == buf0
                &&& post.spec_hint() == pre.spec_hint()
            },
            SpecParsed::BadLength => {
                &&& r == Err::<Option<String>, ParseError>(ParseError::InvalidLength)
                &&& buf1 == buf0
                &&& post.spec_hint() == 0
            },
            SpecParsed::BadType => {
                &&& r == Err::<Option<String>, ParseError>(ParseError::InvalidType)
                &&& buf1 == buf0
                &&& post.spec_hint() == 0
            },
            SpecParsed::BadHeader => {
                &&& r == Err::<Option<String>, ParseError>(ParseError::MissingHeader)
                &&& buf1 == buf0
                &&& post.spec_hint() == 0
            },
        }
    }
}

impl LanguageServerCodec {
    /// Append the wire frame for `item` to `dst`: the `Content-Length`
    /// header with the payload's byte length, a blank line, and the
    /// payload's bytes.  A message of length zero is skipped: no bytes are
    /// appended.  Nothing else can fail, so the result is always `Ok`.
    pub fn encode(&mut self, item: String, dst: &mut bytes::BytesMut) -> (r: Result<
        (),
        ParseError,
    >)
        requires
            bytes_view(*old(dst)).len() + encode_utf8(item@).len() + 40 <= usize::MAX,
        ensures
            final(self).spec_hint() == old(self).spec_hint(),
            r is Ok,
            item@.len() == 0 ==> bytes_view(*final(dst)) == bytes_view(*old(dst)),
            item@.len() > 0 ==> bytes_view(*final(dst)) == bytes_view(*old(dst)) + encoded_frame(
                encode_utf8(item@),
            ),
    {
        let s = item.as_str();
        let plen = s.len();
        proof {
            lemma_encode_utf8_empty(item@);
        }
        if plen != 0 {
            buf_reserve(dst, plen + 30);
            let header = vec_content_length();
            buf_extend(dst, header.as_slice());
            let digits = render_dec(plen);
            proof {
                lemma_dec_digits_len_usize(plen as nat);
            }
            buf_extend(dst, digits.as_slice());
            let crlf = vec_crlf();
            buf_extend(dst, crlf.as_slice());
            buf_extend(dst, crlf.as_slice());
            buf_extend(dst, s.as_bytes());
            proof {
                assert(bytes_view(*dst) =~= bytes_view(*old(dst)) + encoded_frame(
                    encode_utf8(item@),
                ));
            }
        }
        Ok(())
    }

    /// Try to remove one complete frame from the front of `src` and return
    /// its payload; see [`decode_post`] for the full case split.  Returning
    /// `Ok(None)` means only that no complete frame has arrived yet; the
    /// call may be repeated as more bytes are appended.
    pub fn decode(&mut self, src: &mut bytes::BytesMut) -> (r: Result<Option<String>, ParseError>)
        ensures
            decode_post(*old(self), *final(self), bytes_view(*old(src)), bytes_view(*final(src)), r),
    {
        let buflen = buf_len(src);
        if self.remaining_msg_bytes > 0 && buflen < self.remaining_msg_bytes {
            self.remaining_msg_bytes = 0;
            return Ok(None);
        }
        let slice = buf_as_slice(src);
        match try_utf8(slice) {
            Err(e) => {
                self.remaining_msg_bytes = 0;
                return Err(ParseError::Utf8(e));
            },
            Ok(_) => {},
        }
        match parse_message(slice) {
            Parsed::NeedUnknown => Ok(None),
            Parsed::NeedBytes { missing } => {
                self.remaining_msg_bytes = missing;
                Ok(None)
            },
            Parsed::BadLength => {
                self.remaining_msg_bytes = 0;
                Err(ParseError::InvalidLength)
            },
            Parsed::BadType => {
                self.remaining_msg_bytes = 0;
                Err(ParseError::InvalidType)
            },
            Parsed::BadHeader => {
                self.remaining_msg_bytes = 0;
                Err(ParseError::MissingHeader)
            },
            Parsed::Frame { header_len, body_len } => {
                let body = slice_subrange(slice, header_len, header_len + body_len);
                match try_utf8(body) {
                    Err(e) => {
                        self.remaining_msg_bytes = 0;
                        Err(ParseError::Utf8(e))
                    },
                    Ok(text) => {
                        let msg = text.to_owned();
                        buf_advance(src, header_len + body_len);
                        self.remaining_msg_bytes = 0;
                        Ok(Some(msg))
                    },
                }
            },
        }
    }
}

} // verus!
