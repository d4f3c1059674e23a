use bytes::BytesMut;

use lsp_codec::{LanguageServerCodec, ParseError};

#[test]
fn encode_and_decode() {
    let decoded = r#"{"jsonrpc":"2.0","method":"exit"}"#.to_string();
    let encoded = format!("Content-Length: {}\r\n\r\n{}", decoded.len(), decoded);

    let mut codec = LanguageServerCodec::default();
    let mut buffer = BytesMut::new();
    codec.encode(decoded.clone(), &mut buffer).unwrap();
    assert_eq!(buffer, BytesMut::from(encoded.clone()));

    let mut buffer = BytesMut::from(encoded);
    let message = codec.decode(&mut buffer).unwrap();
    assert_eq!(message, Some(decoded));
}

#[test]
fn skip_encoding_empty_message() {
    let mut codec = LanguageServerCodec::default();
    let mut buffer = BytesMut::new();
    codec.encode("".to_string(), &mut buffer).unwrap();
    assert_eq!(buffer, BytesMut::new());
}

#[test]
fn decodes_optional_content_type() {
    let decoded = r#"{"jsonrpc":"2.0","method":"exit"}"#.to_string();
    let content_len = format!("Content-Length: {}", decoded.len());
    let content_type = "Content-Type: application/vscode-jsonrpc; charset=utf-8".to_string();
    let encoded = format!("{}\r\n{}\r\n\r\n{}", content_len, content_type, decoded);

    let mut codec = LanguageServerCodec::default();
    let mut buffer = BytesMut::from(encoded);
    let message = codec.decode(&mut buffer).unwrap();
    assert_eq!(message, Some(decoded));
}

#[test]
fn decodes_content_type_without_hyphen_charset() {
    let decoded = "hi".to_string();
    let encoded = format!(
        "Content-Length: {}\r\nContent-Type: text/plain;charset=utf8\r\n\r\n{}",
        decoded.len(),
        decoded
    );

    let mut codec = LanguageServerCodec::default();
    let mut buffer = BytesMut::from(encoded);
    let message = codec.decode(&mut buffer).unwrap();
    assert_eq!(message, Some(decoded));
    assert!(buffer.is_empty());
}

#[test]
fn decode_of_empty_buffer_is_not_an_error() {
    let mut codec = LanguageServerCodec::default();
    let mut buffer = BytesMut::new();
    let message = codec.decode(&mut buffer).unwrap();
    assert_eq!(message, None);
}

#[test]
fn chunked_delivery_yields_message_exactly_once() {
    let decoded = r#"{"jsonrpc":"2.0","method":"exit"}"#.to_string();
    let encoded = format!("Content-Length: {}\r\n\r\n{}", decoded.len(), decoded);
    let bytes = encoded.as_bytes();

    for split in 0..bytes.len() {
        let mut codec = LanguageServerCodec::default();
        let mut buffer = BytesMut::new();

        buffer.extend_from_slice(&bytes[..split]);
        let first = codec.decode(&mut buffer).unwrap();
        assert_eq!(first, None, "premature message at split {}", split);

        buffer.extend_from_slice(&bytes[split..]);
        let second = codec.decode(&mut buffer).unwrap();
        assert_eq!(second, Some(decoded.clone()), "no message at split {}", split);
        assert!(buffer.is_empty());

        let third = codec.decode(&mut buffer).unwrap();
        assert_eq!(third, None, "duplicated message at split {}", split);
    }
}

#[test]
fn byte_by_byte_delivery_yields_message_on_final_byte() {
    let decoded = "hello".to_string();
    let encoded = format!("Content-Length: {}\r\n\r\n{}", decoded.len(), decoded);
    let bytes = encoded.as_bytes();

    let mut codec = LanguageServerCodec::default();
    let mut buffer = BytesMut::new();
    for (i, b) in bytes.iter().enumerate() {
        buffer.extend_from_slice(&[*b]);
        let message = codec.decode(&mut buffer).unwrap();
        if i + 1 < bytes.len() {
            assert_eq!(message, None, "premature message after {} bytes", i + 1);
        } else {
            assert_eq!(message, Some(decoded.clone()));
        }
    }
}

#[test]
fn rejects_non_numeric_length() {
    let mut codec = LanguageServerCodec::default();
    let mut buffer = BytesMut::from("Content-Length: abc\r\n\r\nX");
    let err = codec.decode(&mut buffer).unwrap_err();
    assert!(matches!(err, ParseError::InvalidLength));
}

#[test]
fn rejects_overlarge_length() {
    let mut codec = LanguageServerCodec::default();
    let mut buffer = BytesMut::from("Content-Length: 99999999999999999999999999\r\n\r\nX");
    let err = codec.decode(&mut buffer).unwrap_err();
    assert!(matches!(err, ParseError::InvalidLength));
}

#[test]
fn rejects_foreign_charset() {
    let mut codec = LanguageServerCodec::default();
    let mut buffer =
        BytesMut::from("Content-Length: 1\r\nContent-Type: text/plain; charset=latin1\r\n\r\nX");
    let err = codec.decode(&mut buffer).unwrap_err();
    assert!(matches!(err, ParseError::InvalidType));
}

#[test]
fn rejects_missing_length_header() {
    let mut codec = LanguageServerCodec::default();
    let mut buffer = BytesMut::from("Content-Age: 3\r\n\r\nabc");
    let err = codec.decode(&mut buffer).unwrap_err();
    assert!(matches!(err, ParseError::MissingHeader));
}

#[test]
fn rejects_invalid_utf8_buffer() {
    let mut codec = LanguageServerCodec::default();
    let mut buffer = BytesMut::from(&b"Content-Length: 1\r\n\r\n\xff"[..]);
    let err = codec.decode(&mut buffer).unwrap_err();
    assert!(matches!(err, ParseError::Utf8(_)));
}

#[test]
fn rejects_length_that_splits_a_character() {
    // The buffer as a whole is valid UTF-8, but the declared length cuts the
    // two-byte character in half, so the payload alone is not.
    let mut codec = LanguageServerCodec::default();
    let mut buffer = BytesMut::from("Content-Length: 1\r\n\r\n\u{e9}");
    let err = codec.decode(&mut buffer).unwrap_err();
    assert!(matches!(err, ParseError::Utf8(_)));
}

#[test]
fn decodes_literal_exit_notification() {
    let payload = r#"{"jsonrpc":"2.0","method":"exit"}"#;
    let encoded = format!("Content-Length: {}\r\n\r\n{}", payload.len(), payload);

    let mut codec = LanguageServerCodec::default();
    let mut buffer = BytesMut::from(encoded);
    let message = codec.decode(&mut buffer).unwrap();
    assert_eq!(message, Some(payload.to_string()));
    assert!(buffer.is_empty());
}

#[test]
fn decodes_two_frames_back_to_back() {
    let first = "one".to_string();
    let second = "twenty-two".to_string();
    let mut codec = LanguageServerCodec::default();
    let mut buffer = BytesMut::new();
    codec.encode(first.clone(), &mut buffer).unwrap();
    codec.encode(second.clone(), &mut buffer).unwrap();

    assert_eq!(codec.decode(&mut buffer).unwrap(), Some(first));
    assert_eq!(codec.decode(&mut buffer).unwrap(), Some(second));
    assert_eq!(codec.decode(&mut buffer).unwrap(), None);
}

#[test]
fn encode_measures_length_in_bytes_not_characters() {
    let decoded = "caf\u{e9}".to_string();
    assert_eq!(decoded.chars().count(), 4);
    assert_eq!(decoded.len(), 5);

    let mut codec = LanguageServerCodec::default();
    let mut buffer = BytesMut::new();
    codec.encode(decoded.clone(), &mut buffer).unwrap();
    let expected = format!("Content-Length: 5\r\n\r\n{}", decoded);
    assert_eq!(buffer, BytesMut::from(expected));

    let message = codec.decode(&mut buffer).unwrap();
    assert_eq!(message, Some(decoded));
}

#[test]
fn error_does_not_poison_the_decoder() {
    let mut codec = LanguageServerCodec::default();
    let mut buffer = BytesMut::from("Content-Length: abc\r\n\r\n");
    assert!(codec.decode(&mut buffer).is_err());

    let decoded = "fresh".to_string();
    let mut buffer = BytesMut::new();
    codec.encode(decoded.clone(), &mut buffer).unwrap();
    assert_eq!(codec.decode(&mut buffer).unwrap(), Some(decoded));
}
