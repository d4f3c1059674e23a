//! Message framing for a header-delimited RPC wire protocol.
//!
//! Each message on the wire is a `Content-Length` header, an optional
//! `Content-Type` header, a blank line, and exactly `Content-Length` bytes of
//! UTF-8 payload.  The crate offers an encoder from payload strings to wire
//! bytes and an incremental decoder from a growing byte buffer to payload
//! strings, both specified against a mathematical model of the header grammar.

pub mod buffer;
pub mod codec;
pub mod grammar;
pub mod laws;
pub mod parse;

pub use codec::LanguageServerCodec;
pub use codec::ParseError;
