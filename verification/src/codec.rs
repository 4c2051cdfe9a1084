//! The wire codec: frames and heartbeats to bytes and back.

use vstd::prelude::*;
use vstd::string::*;
use vstd::utf8::*;
use bytes::BytesMut;
use crate::buffer::{buffer_advance, buffer_bytes, buffer_extend, buffer_put, buffered};
use crate::escape::{escape, escape_header_value, unescape, unescape_header_value, EscapeError};
use crate::frame::{headers_view, Frame, FrameView};
use crate::number::{decimal, decimal_bytes};
use crate::parser::{length_name, length_name_bytes, parse_frame, parse_raw, raw_headers, raw_view, ParseError, Parsed,
    RawFrame, RawParts};
use crate::scan::{eq_ignore_case, find_byte, has_byte, lemma_has_byte, same_name, COLON, CR, LF,
    NUL};
use crate::text::{str_from_utf8, string_from_utf8};

verus! {

/// What travels on the wire: a frame, or a heartbeat, which is one line feed.
#[derive(Debug, Clone, PartialEq, Eq)]
pub enum StompItem {
    Frame(Frame),
    Heartbeat,
}

/// The mathematical content of an item.
pub enum ItemView {
    Frame(FrameView),
    Heartbeat,
}

impl View for StompItem {
    type V = ItemView;

    open spec fn view(&self) -> ItemView {
        match self {
            StompItem::Frame(f) => ItemView::Frame(f@),
            StompItem::Heartbeat => ItemView::Heartbeat,
        }
    }
}

/// Why bytes could not be decoded.
#[derive(Debug, Clone, Copy, PartialEq, Eq, Structural)]
pub enum CodecError {
    /// The buffer starts with the NUL that ends a frame.
    EmptyFrame,
    /// The command line is empty.
    EmptyCommand,
    /// The bytes are not a frame.
    Parse(ParseError),
    /// The command is not UTF-8.
    CommandNotText,
    /// A header name holds a bad escape sequence.
    KeyEscape(EscapeError),
    /// A header name is not UTF-8.
    KeyNotText,
    /// A header value holds a bad escape sequence.
    ValueEscape(EscapeError),
    /// A header value is not UTF-8.
    ValueNotText,
}

impl CodecError {
    /// The wording of each error.
    pub open spec fn text(self) -> Seq<char> {
        match self {
            CodecError::EmptyFrame => "empty frame"@,
            CodecError::EmptyCommand => "empty command"@,
            CodecError::Parse(e) => "parse error: "@ + e.text(),
            CodecError::CommandNotText => "invalid utf8 in command"@,
            CodecError::KeyEscape(e) => "invalid escape in header key: "@ + e.text(),
            CodecError::KeyNotText => "invalid utf8 in header key"@,
            CodecError::ValueEscape(e) => "invalid escape in header value: "@ + e.text(),
            CodecError::ValueNotText => "invalid utf8 in header value"@,
        }
    }

    /// Renders the error for a diagnostic.
    pub fn to_string(&self) -> (s: String)
        ensures
            s@ == self.text(),
    {
        match self {
            CodecError::EmptyFrame => "empty frame".to_owned(),
            CodecError::EmptyCommand => "empty command".to_owned(),
            CodecError::Parse(e) => "parse error: ".to_owned().concat(e.message().as_str()),
            CodecError::CommandNotText => "invalid utf8 in command".to_owned(),
            CodecError::KeyEscape(e) => "invalid escape in header key: ".to_owned().concat(
                e.message().as_str(),
            ),
            CodecError::KeyNotText => "invalid utf8 in header key".to_owned(),
            CodecError::ValueEscape(e) => "invalid escape in header value: ".to_owned().concat(
                e.message().as_str(),
            ),
            CodecError::ValueNotText => "invalid utf8 in header value".to_owned(),
        }
    }
}

/// One header on the wire: escaped name, colon, escaped value, line feed.
pub open spec fn header_line(h: (Seq<char>, Seq<char>)) -> Seq<u8> {
    escape(encode_utf8(h.0)) + seq![COLON] + escape(encode_utf8(h.1)) + seq![LF]
}

/// The header lines of a list, in order.
pub open spec fn header_block(hs: Seq<(Seq<char>, Seq<char>)>) -> Seq<u8>
    decreases hs.len(),
{
    if hs.len() == 0 {
        Seq::empty()
    } else {
        header_line(hs[0]) + header_block(hs.skip(1))
    }
}

/// Whether some header is named `content-length`, whatever its case.
pub open spec fn has_length_header(hs: Seq<(Seq<char>, Seq<char>)>) -> bool {
    exists|i: int| 0 <= i < hs.len() && same_name(encode_utf8(#[trigger] hs[i].0), length_name())
}

/// Whether the encoder adds a `content-length` header: none is there, and
/// the body holds a NUL or is not UTF-8.
pub open spec fn needs_length(f: FrameView) -> bool {
    !has_length_header(f.headers) && (has_byte(f.body, NUL) || !valid_utf8(f.body))
}

/// The line of the `content-length` header that the encoder adds.
pub open spec fn length_line(n: nat) -> Seq<u8> {
    length_name() + seq![COLON] + decimal(n) + seq![LF]
}

/// A frame on the wire.
pub open spec fn wire_frame(f: FrameView) -> Seq<u8> {
    encode_utf8(f.command) + seq![LF] + header_block(f.headers) + (if needs_length(f) {
        length_line(f.body.len())
    } else {
        Seq::empty()
    }) + seq![LF] + f.body + seq![NUL]
}

/// An item on the wire.
pub open spec fn wire(item: ItemView) -> Seq<u8> {
    match item {
        ItemView::Heartbeat => seq![LF],
        ItemView::Frame(f) => wire_frame(f),
    }
}

/// What a buffer holds at its start.
pub enum Decoded {
    /// No complete item yet.
    NeedMore,
    /// An item, and the number of bytes it takes.
    Item { item: ItemView, consumed: int },
    /// A protocol error, and the number of bytes passed over.
    Error { error: CodecError, consumed: int },
}

/// Unescapes and decodes one raw header: name first, then value.
pub open spec fn decode_header(h: (Seq<u8>, Seq<u8>)) -> Result<(Seq<char>, Seq<char>), CodecError> {
    match unescape(h.0) {
        Err(e) => Err(CodecError::KeyEscape(e)),
        Ok(k) => if !valid_utf8(k) {
            Err(CodecError::KeyNotText)
        } else {
            match unescape(h.1) {
                Err(e) => Err(CodecError::ValueEscape(e)),
                Ok(v) => if !valid_utf8(v) {
                    Err(CodecError::ValueNotText)
                } else {
                    Ok((decode_utf8(k), decode_utf8(v)))
                },
            }
        },
    }
}

/// Puts headers in front of a successful result; an error passes through.
pub open spec fn join_front(
    front: Seq<(Seq<char>, Seq<char>)>,
    rest: Result<Seq<(Seq<char>, Seq<char>)>, CodecError>,
) -> Result<Seq<(Seq<char>, Seq<char>)>, CodecError> {
    match rest {
        Ok(r) => Ok(front + r),
        Err(e) => Err(e),
    }
}

/// Unescapes and decodes raw headers in order; the first error wins.
pub open spec fn decode_headers(raw: Seq<(Seq<u8>, Seq<u8>)>) -> Result<
    Seq<(Seq<char>, Seq<char>)>,
    CodecError,
>
    decreases raw.len(),
{
    if raw.len() == 0 {
        Ok(Seq::empty())
    } else {
        match decode_header(raw[0]) {
            Err(e) => Err(e),
            Ok(h) => join_front(seq![h], decode_headers(raw.skip(1))),
        }
    }
}

/// Turns a raw frame into a frame: the command must be UTF-8, each header
/// is unescaped and decoded, and a missing body is the empty one.
pub open spec fn decode_raw(raw: RawFrame) -> Result<FrameView, CodecError> {
    if !valid_utf8(raw.command) {
        Err(CodecError::CommandNotText)
    } else {
        match decode_headers(raw.headers) {
            Err(e) => Err(e),
            Ok(headers) => Ok(
                FrameView {
                    command: decode_utf8(raw.command),
                    headers,
                    body: match raw.body {
                        Some(b) => b,
                        None => Seq::empty(),
                    },
                },
            ),
        }
    }
}

/// What one decoding step finds in `buf`. A leading line feed is a
/// heartbeat. A leading NUL is an empty frame, and a leading CR LF an empty
/// command: both are errors. Otherwise the parser decides; errors found
/// after parsing pass over the frame's bytes.
pub open spec fn decode(buf: Seq<u8>) -> Decoded {
    if buf.len() == 0 {
        Decoded::NeedMore
    } else if buf[0] == LF {
        Decoded::Item { item: ItemView::Heartbeat, consumed: 1 }
    } else if buf[0] == NUL {
        Decoded::Error { error: CodecError::EmptyFrame, consumed: 0 }
    } else if buf.len() >= 2 && buf[0] == CR && buf[1] == LF {
        Decoded::Error { error: CodecError::EmptyCommand, consumed: 0 }
    } else {
        match parse_frame(buf) {
            Parsed::NeedMore => Decoded::NeedMore,
            Parsed::Error(e) => Decoded::Error { error: CodecError::Parse(e), consumed: 0 },
            Parsed::Frame(raw) => match decode_raw(raw) {
                Ok(f) => Decoded::Item { item: ItemView::Frame(f), consumed: raw.consumed },
                Err(e) => Decoded::Error { error: e, consumed: raw.consumed },
            },
        }
    }
}

fn convert_header(h: &(Vec<u8>, Vec<u8>)) -> (r: Result<(String, String), CodecError>)
    ensures
        match r {
            Ok(p) => decode_header((h.0@, h.1@)) == Ok::<(Seq<char>, Seq<char>), CodecError>(
                (p.0@, p.1@),
            ),
            Err(e) => decode_header((h.0@, h.1@)) == Err::<(Seq<char>, Seq<char>), CodecError>(e),
        },
{
    let k = match unescape_header_value(h.0.as_slice()) {
        Ok(k) => k,
        Err(e) => {
            return Err(CodecError::KeyEscape(e));
        },
    };
    let ks = match string_from_utf8(k.as_slice()) {
        Some(s) => s,
        None => {
            return Err(CodecError::KeyNotText);
        },
    };
    let v = match unescape_header_value(h.1.as_slice()) {
        Ok(v) => v,
        Err(e) => {
            return Err(CodecError::ValueEscape(e));
        },
    };
    let vs = match string_from_utf8(v.as_slice()) {
        Some(s) => s,
        None => {
            return Err(CodecError::ValueNotText);
        },
    };
    Ok((ks, vs))
}

fn convert_headers(raw: &Vec<(Vec<u8>, Vec<u8>)>) -> (r: Result<Vec<(String, String)>, CodecError>)
    ensures
        match r {
            Ok(hs) => decode_headers(raw_headers(raw@)) == Ok::<
                Seq<(Seq<char>, Seq<char>)>,
                CodecError,
            >(headers_view(hs@)),
            Err(e) => decode_headers(raw_headers(raw@)) == Err::<
                Seq<(Seq<char>, Seq<char>)>,
                CodecError,
            >(e),
        },
{
    let ghost all = raw_headers(raw@);
    let mut out: Vec<(String, String)> = Vec::new();
    let mut i: usize = 0;
    assert(all.skip(0) =~= all);
    assert(headers_view(out@) =~= Seq::empty());
    assert(join_front(headers_view(out@), decode_headers(all)) == decode_headers(all)) by {
        match decode_headers(all) {
            Ok(r) => {
                assert(Seq::<(Seq<char>, Seq<char>)>::empty() + r =~= r);
            },
            Err(_) => {},
        }
    }
    while i < raw.len()
        invariant
            0 <= i <= raw@.len(),
            all == raw_headers(raw@),
            decode_headers(all) == join_front(
                headers_view(out@),
                decode_headers(all.skip(i as int)),
            ),
        decreases raw@.len() - i,
    {
        let ghost rest = all.skip(i as int);
        assert(rest[0] == (raw@[i as int].0@, raw@[i as int].1@));
        assert(rest.skip(1) =~= all.skip(i + 1));
        let ghost before = headers_view(out@);
        match convert_header(&raw[i]) {
            Err(e) => {
                return Err(e);
            },
            Ok(p) => {
                let ghost one = seq![(p.0@, p.1@)];
                out.push(p);
                proof {
                    assert(headers_view(out@) =~= before + one);
                    match decode_headers(rest.skip(1)) {
                        Ok(r) => {
                            assert(before + (one + r) =~= (before + one) + r);
                        },
                        Err(_) => {},
                    }
                }
            },
        }
        i = i + 1;
    }
    assert(headers_view(out@) + Seq::<(Seq<char>, Seq<char>)>::empty() =~= headers_view(out@));
    Ok(out)
}

/// Turns parsed parts into a frame.
fn build_frame(parts: RawParts) -> (r: Result<Frame, CodecError>)
    ensures
        match r {
            Ok(f) => decode_raw(raw_view(parts)) == Ok::<FrameView, CodecError>(f@),
            Err(e) => decode_raw(raw_view(parts)) == Err::<FrameView, CodecError>(e),
        },
{
    let (cmd, raw, body, _consumed) = parts;
    let command = match string_from_utf8(cmd.as_slice()) {
        Some(c) => c,
        None => {
            return Err(CodecError::CommandNotText);
        },
    };
    let headers = match convert_headers(&raw) {
        Ok(h) => h,
        Err(e) => {
            return Err(e);
        },
    };
    let body = match body {
        Some(b) => b,
        None => Vec::new(),
    };
    Ok(Frame { command, headers, body })
}

/// The codec. It keeps nothing between calls.
pub struct StompCodec {}

impl Default for StompCodec {
    fn default() -> (r: StompCodec) {
        StompCodec {  }
    }
}

impl StompCodec {
    pub fn new() -> (r: StompCodec) {
        StompCodec {  }
    }

    /// Appends the wire form of `item` to `dst`.
    #[verifier::rlimit(40)]
    pub fn encode(&mut self, item: StompItem, dst: &mut BytesMut) -> (r: Result<(), CodecError>)
        ensures
            r is Ok,
            buffered(*final(dst)) == buffered(*old(dst)) + wire(item@),
    {
        let ghost start = buffered(*dst);
        match item {
            StompItem::Heartbeat => {
                buffer_put(dst, LF);
                assert(buffered(*dst) =~= start + wire(item@));
            },
            StompItem::Frame(frame) => {
                let ghost f = frame@;
                buffer_extend(dst, frame.command.as_str().as_bytes());
                buffer_put(dst, LF);
                let n = frame.headers.len();
                let mut has_length = false;
                let mut i: usize = 0;
                let ghost mut lines: Seq<u8> = Seq::empty();
                let name = length_name_bytes();
                assert(f.headers.skip(0) =~= f.headers);
                while i < n
                    invariant
                        0 <= i <= n,
                        n == frame.headers@.len(),
                        f == frame@,
                        name@ == length_name(),
                        buffered(*dst) == start + encode_utf8(f.command) + seq![LF] + lines,
                        header_block(f.headers) == lines + header_block(f.headers.skip(i as int)),
                        has_length == (exists|j: int|
                            0 <= j < i && same_name(
                                encode_utf8(#[trigger] f.headers[j].0),
                                length_name(),
                            )),
                    decreases n - i,
                {
                    let ghost rest = f.headers.skip(i as int);
                    let ghost h = f.headers[i as int];
                    assert(rest[0] == h);
                    assert(rest.skip(1) =~= f.headers.skip(i + 1));
                    let key = frame.headers[i].0.as_str();
                    let val = frame.headers[i].1.as_str();
                    assert(key@ == h.0 && val@ == h.1);
                    if eq_ignore_case(key.as_bytes(), name.as_slice()) {
                        has_length = true;
                    }
                    let k = escape_header_value(key);
                    let v = escape_header_value(val);
                    let ghost before = buffered(*dst);
                    buffer_extend(dst, k.as_slice());
                    buffer_put(dst, COLON);
                    buffer_extend(dst, v.as_slice());
                    buffer_put(dst, LF);
                    proof {
                        assert(buffered(*dst) =~= before + header_line(h));
                        let old_lines = lines;
                        lines = lines + header_line(h);
                        assert(buffered(*dst) =~= start + encode_utf8(f.command) + seq![LF]
                            + lines);
                        assert(old_lines + (header_line(h) + header_block(rest.skip(1))) =~= lines
                            + header_block(rest.skip(1)));
                    }
                    i = i + 1;
                }
                assert(lines + header_block(f.headers.skip(n as int)) =~= lines);
                assert(has_length == has_length_header(f.headers));
                let mut add_length = false;
                if !has_length {
                    let body = frame.body.as_slice();
                    proof {
                        lemma_has_byte(body@, NUL);
                    }
                    if find_byte(body, NUL, 0) < body.len() || str_from_utf8(body).is_none() {
                        add_length = true;
                    }
                }
                assert(add_length == needs_length(f));
                let ghost before = buffered(*dst);
                if add_length {
                    let digits = decimal_bytes(frame.body.len() as u64);
                    buffer_extend(dst, name.as_slice());
                    buffer_put(dst, COLON);
                    buffer_extend(dst, digits.as_slice());
                    buffer_put(dst, LF);
                    assert(buffered(*dst) =~= before + length_line(f.body.len()));
                }
                buffer_put(dst, LF);
                buffer_extend(dst, frame.body.as_slice());
                buffer_put(dst, NUL);
                assert(buffered(*dst) =~= start + wire_frame(f));
            },
        }
        Ok(())
    }

    /// Takes one item off the front of `src`, if a whole one is there.
    pub fn decode(&mut self, src: &mut BytesMut) -> (r: Result<Option<StompItem>, CodecError>)
        ensures
            match decode(buffered(*old(src))) {
                Decoded::NeedMore => r matches Ok(None) && buffered(*final(src)) == buffered(
                    *old(src),
                ),
                Decoded::Item { item, consumed } => r matches Ok(Some(it)) && it@ == item
                    && 0 < consumed <= buffered(*old(src)).len() && buffered(*final(src))
                    == buffered(*old(src)).skip(consumed),
                Decoded::Error { error, consumed } => r == Err::<Option<StompItem>, CodecError>(
                    error,
                ) && 0 <= consumed <= buffered(*old(src)).len() && buffered(*final(src))
                    == buffered(*old(src)).skip(consumed),
            },
    {
        let ghost buf = buffered(*src);
        assert(buf.skip(0) =~= buf);
        let chunk = buffer_bytes(src);
        if chunk.len() == 0 {
            return Ok(None);
        }
        if chunk[0] == LF {
            buffer_advance(src, 1);
            return Ok(Some(StompItem::Heartbeat));
        }
        if chunk[0] == NUL {
            return Err(CodecError::EmptyFrame);
        }
        if chunk.len() >= 2 && chunk[0] == CR && chunk[1] == LF {
            return Err(CodecError::EmptyCommand);
        }
        match parse_raw(chunk) {
            Err(e) => Err(CodecError::Parse(e)),
            Ok(None) => Ok(None),
            Ok(Some(parts)) => {
                buffer_advance(src, parts.3);
                match build_frame(parts) {
                    Ok(f) => Ok(Some(StompItem::Frame(f))),
                    Err(e) => Err(e),
                }
            },
        }
    }
}

} // verus!
