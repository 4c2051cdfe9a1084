//! The wire format on literal bytes.

use bytes::BytesMut;
use iridium_stomp::codec::{CodecError, StompCodec, StompItem};
use iridium_stomp::escape::{escape_header_value, unescape_header_value, EscapeError};
use iridium_stomp::parser::ParseError;
use iridium_stomp::stream::drain_buffer;
use iridium_stomp::Frame;

fn encode(item: StompItem) -> Vec<u8> {
    let mut codec = StompCodec::new();
    let mut dst = BytesMut::new();
    codec.encode(item, &mut dst).expect("encode");
    dst.to_vec()
}

fn decode_error(bytes: &[u8]) -> CodecError {
    let mut codec = StompCodec::new();
    let mut buf = BytesMut::from(bytes);
    match codec.decode(&mut buf) {
        Err(e) => e,
        Ok(other) => panic!("expected an error, got {:?}", other),
    }
}

#[test]
fn minimal_send_on_the_wire() {
    let frame = Frame::new("SEND")
        .header("destination", "/q/a")
        .set_body(b"hi".to_vec());
    assert_eq!(encode(StompItem::Frame(frame)), b"SEND\ndestination:/q/a\n\nhi\0".to_vec());
}

#[test]
fn binary_body_gets_content_length() {
    let frame = Frame::new("SEND")
        .header("destination", "/q/a")
        .set_body(vec![0x00, 0x01, 0x02]);
    assert_eq!(
        encode(StompItem::Frame(frame)),
        b"SEND\ndestination:/q/a\ncontent-length:3\n\n\x00\x01\x02\0".to_vec()
    );
}

#[test]
fn invalid_utf8_body_gets_content_length() {
    let frame = Frame::new("SEND").set_body(vec![0xFF, 0xFE]);
    assert_eq!(
        encode(StompItem::Frame(frame)),
        b"SEND\ncontent-length:2\n\n\xFF\xFE\0".to_vec()
    );
}

#[test]
fn present_content_length_is_not_repeated() {
    let frame = Frame::new("SEND")
        .header("Content-Length", "3")
        .set_body(vec![0x00, 0x01, 0x02]);
    assert_eq!(
        encode(StompItem::Frame(frame)),
        b"SEND\nContent-Length:3\n\n\x00\x01\x02\0".to_vec()
    );
}

#[test]
fn escaped_header_on_the_wire_and_back() {
    let value = "C:\\Users\\me\nnext";
    let frame = Frame::new("SEND").header("path", value);
    let wire = encode(StompItem::Frame(frame.clone()));
    assert_eq!(wire, b"SEND\npath:C\\c\\\\Users\\\\me\\nnext\n\n\0".to_vec());

    let mut codec = StompCodec::new();
    let mut buf = BytesMut::from(&wire[..]);
    let item = codec.decode(&mut buf).expect("decode").expect("item");
    assert_eq!(item, StompItem::Frame(frame));
    assert!(buf.is_empty());
}

#[test]
fn escape_table() {
    assert_eq!(escape_header_value("a\\b"), b"a\\\\b".to_vec());
    assert_eq!(escape_header_value("a\rb"), b"a\\rb".to_vec());
    assert_eq!(escape_header_value("a\nb"), b"a\\nb".to_vec());
    assert_eq!(escape_header_value("a:b"), b"a\\cb".to_vec());
    assert_eq!(escape_header_value("plain"), b"plain".to_vec());
    assert_eq!(escape_header_value(""), Vec::<u8>::new());
}

#[test]
fn unescape_table_and_errors() {
    assert_eq!(unescape_header_value(b"a\\\\b"), Ok(b"a\\b".to_vec()));
    assert_eq!(unescape_header_value(b"a\\rb"), Ok(b"a\rb".to_vec()));
    assert_eq!(unescape_header_value(b"a\\nb"), Ok(b"a\nb".to_vec()));
    assert_eq!(unescape_header_value(b"a\\cb"), Ok(b"a:b".to_vec()));
    assert_eq!(unescape_header_value(b"a\\tb"), Err(EscapeError::Invalid));
    assert_eq!(unescape_header_value(b"a\\"), Err(EscapeError::Incomplete));
    assert_eq!(unescape_header_value(b"\\x\\"), Err(EscapeError::Invalid));
}

#[test]
fn escape_then_unescape_gives_the_text_back() {
    let texts = ["", "plain", "\\", "\\\\n", ":\r\n\\", "caf\u{e9} \u{2028} \u{1F600}:x", "\\c\\n\\r"];
    for t in texts {
        let wire = escape_header_value(t);
        assert!(!wire.contains(&b'\n'));
        assert!(!wire.contains(&b'\r'));
        assert!(!wire.contains(&b':'));
        assert_eq!(unescape_header_value(&wire), Ok(t.as_bytes().to_vec()));
    }
}

#[test]
fn heartbeats_between_frames() {
    let mut codec = StompCodec::new();
    let mut buf = BytesMut::from(&b"\nSEND\n\nhi\0\n\nMESSAGE\nmessage-id:1\n\nbody\0\n\n"[..]);
    let (items, error) = drain_buffer(&mut codec, &mut buf);
    assert_eq!(error, None);
    assert_eq!(
        items,
        vec![
            StompItem::Heartbeat,
            StompItem::Frame(Frame::new("SEND").set_body(b"hi".to_vec())),
            StompItem::Heartbeat,
            StompItem::Frame(
                Frame::new("MESSAGE")
                    .header("message-id", "1")
                    .set_body(b"body".to_vec())
            ),
            StompItem::Heartbeat,
        ]
    );
    assert!(buf.is_empty());
}

fn sample_stream() -> (Vec<StompItem>, Vec<u8>) {
    let items = vec![
        StompItem::Heartbeat,
        StompItem::Heartbeat,
        StompItem::Frame(
            Frame::new("SEND")
                .header("destination", "/queue/a:b")
                .header("note", "line1\nline2\\")
                .set_body(b"hello".to_vec()),
        ),
        StompItem::Frame(Frame::new("SEND").set_body(vec![0, 1, 2, 0, 10, 10])),
        StompItem::Frame(Frame::new("DISCONNECT")),
        StompItem::Frame(
            Frame::new("MESSAGE")
                .header("content-length", " 4 ")
                .set_body(b"a\0\n\n".to_vec()),
        ),
    ];
    let mut wire = Vec::new();
    for item in items.iter().cloned() {
        wire.extend_from_slice(&encode(item));
    }
    (items, wire)
}

fn normalized(items: &[StompItem]) -> Vec<StompItem> {
    let mut out = Vec::new();
    for item in items {
        match item {
            StompItem::Heartbeat => out.push(StompItem::Heartbeat),
            StompItem::Frame(f) => {
                let has = f
                    .headers
                    .iter()
                    .any(|(k, _)| k.eq_ignore_ascii_case("content-length"));
                let binary = f.body.contains(&0) || std::str::from_utf8(&f.body).is_err();
                let mut g = f.clone();
                if !has && binary {
                    g = g.header("content-length", f.body.len().to_string());
                }
                out.push(StompItem::Frame(g));
            }
        }
    }
    out
}

fn feed_in_windows(wire: &[u8], window: usize) -> Vec<StompItem> {
    let mut codec = StompCodec::new();
    let mut buf = BytesMut::new();
    let mut out = Vec::new();
    let mut at = 0usize;
    while at < wire.len() {
        let end = (at + window).min(wire.len());
        buf.extend_from_slice(&wire[at..end]);
        let (items, error) = drain_buffer(&mut codec, &mut buf);
        assert_eq!(error, None);
        out.extend(items);
        at = end;
    }
    assert!(buf.is_empty());
    out
}

#[test]
fn roundtrip_of_a_stream() {
    let (items, wire) = sample_stream();
    assert_eq!(feed_in_windows(&wire, wire.len()), normalized(&items));
}

#[test]
fn chunk_size_does_not_matter() {
    let (items, wire) = sample_stream();
    let expected = normalized(&items);
    for window in [1usize, 2, 3, 5, 7, 16, 64] {
        assert_eq!(feed_in_windows(&wire, window), expected, "window {}", window);
    }
}

#[test]
fn line_feed_after_a_frame_depends_on_arrival() {
    // A heartbeat directly after a frame is taken as the frame's own line
    // feed when both arrive together, and as a heartbeat when it arrives
    // later.
    let wire = b"SEND\n\nhi\0\n";
    assert_eq!(feed_in_windows(wire, wire.len()).len(), 1);
    assert_eq!(feed_in_windows(wire, 1).len(), 2);
}

#[test]
fn empty_buffer_needs_more() {
    let mut codec = StompCodec::new();
    let mut buf = BytesMut::new();
    assert_eq!(codec.decode(&mut buf), Ok(None));
}

#[test]
fn content_length_zero_is_an_empty_body() {
    let mut codec = StompCodec::new();
    let mut buf = BytesMut::from(&b"SEND\ncontent-length:0\n\n\0rest"[..]);
    let item = codec.decode(&mut buf).expect("decode").expect("item");
    assert_eq!(
        item,
        StompItem::Frame(Frame::new("SEND").header("content-length", "0"))
    );
    assert_eq!(&buf[..], b"rest");
}

#[test]
fn duplicate_headers_stay_in_order() {
    let mut codec = StompCodec::new();
    let mut buf = BytesMut::from(&b"MESSAGE\nk:first\nk:second\n\n\0"[..]);
    match codec.decode(&mut buf).expect("decode").expect("item") {
        StompItem::Frame(f) => {
            assert_eq!(f.headers.len(), 2);
            assert_eq!(f.get_header("k"), Some("first"));
            assert_eq!(f.headers[1].1, "second");
        }
        StompItem::Heartbeat => panic!("expected a frame"),
    }
}

#[test]
fn bytes_without_line_feed_up_to_nul_are_a_body() {
    let mut codec = StompCodec::new();
    let mut buf = BytesMut::from(&b"sg-1\0"[..]);
    let item = codec.decode(&mut buf).expect("decode").expect("item");
    assert_eq!(item, StompItem::Frame(Frame::new("").set_body(b"sg-1".to_vec())));
}

#[test]
fn error_empty_frame() {
    assert_eq!(decode_error(b"\0"), CodecError::EmptyFrame);
    assert_eq!(decode_error(b"\0SEND\n\n\0").to_string(), "empty frame");
}

#[test]
fn error_empty_command() {
    assert_eq!(decode_error(b"\r\n\n\0"), CodecError::EmptyCommand);
    assert_eq!(CodecError::EmptyCommand.to_string(), "empty command");
}

#[test]
fn error_malformed_header() {
    let e = decode_error(b"SEND\nno colon here\n\n\0");
    assert_eq!(e, CodecError::Parse(ParseError::MalformedHeader));
    assert_eq!(e.to_string(), "parse error: malformed header line");
}

#[test]
fn error_content_length_not_text() {
    let e = decode_error(b"SEND\ncontent-length:\xFF\n\n\0");
    assert_eq!(e, CodecError::Parse(ParseError::LengthNotText));
    assert_eq!(e.to_string(), "parse error: content-length not utf8");
}

#[test]
fn error_content_length_empty() {
    let e = decode_error(b"SEND\ncontent-length: \t \n\n\0");
    assert_eq!(e, CodecError::Parse(ParseError::EmptyLength));
    assert_eq!(e.to_string(), "parse error: empty content-length");
}

#[test]
fn error_content_length_invalid() {
    for bad in ["-1", "1x", "+", "1 2", "18446744073709551616", "0x10"] {
        let wire = format!("SEND\ncontent-length:{}\n\n\0", bad);
        let e = decode_error(wire.as_bytes());
        assert_eq!(e, CodecError::Parse(ParseError::InvalidLength), "value {:?}", bad);
    }
    assert_eq!(
        CodecError::Parse(ParseError::InvalidLength).to_string(),
        "parse error: invalid content-length"
    );
}

#[test]
fn content_length_accepts_sign_zeros_and_wide_space() {
    for good in ["+5", "005", "\u{a0}5\u{2003}", " 5\r"] {
        let wire = format!("SEND\ncontent-length:{}\n\nhello\0", good);
        let mut codec = StompCodec::new();
        let mut buf = BytesMut::from(wire.as_bytes());
        match codec.decode(&mut buf).expect("decode").expect("item") {
            StompItem::Frame(f) => assert_eq!(f.body, b"hello", "value {:?}", good),
            StompItem::Heartbeat => panic!("expected a frame"),
        }
    }
}

#[test]
fn huge_content_length_needs_more() {
    let mut codec = StompCodec::new();
    let mut buf = BytesMut::from(&b"SEND\ncontent-length:18446744073709551615\n\nhello\0"[..]);
    assert_eq!(codec.decode(&mut buf), Ok(None));
    assert_eq!(buf.len(), 48);
}

#[test]
fn error_missing_terminator() {
    let e = decode_error(b"SEND\ncontent-length:2\n\nabX");
    assert_eq!(e, CodecError::Parse(ParseError::MissingTerminator));
    assert_eq!(
        e.to_string(),
        "parse error: missing NUL terminator after content-length body"
    );
}

#[test]
fn error_command_not_text() {
    let e = decode_error(b"SE\xFFND\n\n\0");
    assert_eq!(e, CodecError::CommandNotText);
    assert_eq!(e.to_string(), "invalid utf8 in command");
}

#[test]
fn error_key_escape() {
    let e = decode_error(b"SEND\nk\\qey:v\n\n\0");
    assert_eq!(e, CodecError::KeyEscape(EscapeError::Invalid));
    assert_eq!(e.to_string(), "invalid escape in header key: invalid escape sequence");
}

#[test]
fn error_key_not_text() {
    let e = decode_error(b"SEND\nk\xFF:v\n\n\0");
    assert_eq!(e, CodecError::KeyNotText);
    assert_eq!(e.to_string(), "invalid utf8 in header key");
}

#[test]
fn error_value_escape() {
    let e = decode_error(b"SEND\nk:v\\\n\n\0");
    assert_eq!(e, CodecError::ValueEscape(EscapeError::Incomplete));
    assert_eq!(
        e.to_string(),
        "invalid escape in header value: incomplete escape sequence"
    );
}

#[test]
fn error_value_not_text() {
    let e = decode_error(b"SEND\nk:\xC3\n\n\0");
    assert_eq!(e, CodecError::ValueNotText);
    assert_eq!(e.to_string(), "invalid utf8 in header value");
}

#[test]
fn parse_error_leaves_the_buffer_and_later_errors_pass_the_frame() {
    let mut codec = StompCodec::new();
    let mut buf = BytesMut::from(&b"SEND\nbad\n\n\0"[..]);
    assert!(codec.decode(&mut buf).is_err());
    assert_eq!(buf.len(), 11);

    let mut buf = BytesMut::from(&b"SEND\nk:\\x\n\n\0NEXT"[..]);
    assert!(codec.decode(&mut buf).is_err());
    assert_eq!(&buf[..], b"NEXT");
}

#[test]
fn drain_stops_at_an_error() {
    let mut codec = StompCodec::new();
    let mut buf = BytesMut::from(&b"\nSEND\n\nok\0\0tail"[..]);
    let (items, error) = drain_buffer(&mut codec, &mut buf);
    assert_eq!(items.len(), 2);
    assert_eq!(error, Some(CodecError::EmptyFrame));
    assert_eq!(&buf[..], b"\0tail");
}
