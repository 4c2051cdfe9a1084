//! What the decoder makes of encoded frames: proofs that connect the
//! encoder's wire form with the parser.

use vstd::prelude::*;
use vstd::utf8::*;
use crate::codec::{decode, decode_header, decode_headers, has_length_header, header_block,
    header_line, length_line, needs_length, wire_frame, CodecError, Decoded, ItemView};
use crate::frame::FrameView;
use crate::escape::{escape, is_special, lemma_escape_clean, lemma_escape_marks,
    lemma_escape_plain, lemma_escape_roundtrip, unescape, EscapeError};
use crate::number::{decimal, is_digit, lemma_decimal, space_ahead, space_behind, trim_end,
    trim_start, trimmed};
use crate::parser::{content_length, length_name, length_value, parse_frame, scan_headers, sized,
    skip_lf, some_unless_empty, strip_cr, trailing, until_nul, HeaderScan, ParseError, Parsed,
    RawFrame};
use crate::scan::{find_from, has_byte, lemma_find_from_is, lower, same_name, BACKSLASH, COLON,
    CR, LF, NUL};
use crate::text::{all_ascii, ascii_text, lemma_ascii_text, lemma_decimal_ascii};

verus! {

/// Whether `x` holds no line feed, carriage return or colon.
pub open spec fn clean(x: Seq<u8>) -> bool {
    forall|i: int| 0 <= i < x.len() ==> x[i] != LF && x[i] != CR && x[i] != COLON
}

/// Whether every name and value of a raw header list is clean.
pub open spec fn all_clean(raw: Seq<(Seq<u8>, Seq<u8>)>) -> bool {
    forall|i: int| 0 <= i < raw.len() ==> clean(#[trigger] raw[i].0) && clean(raw[i].1)
}

/// One raw header as a line.
pub open spec fn raw_line(h: (Seq<u8>, Seq<u8>)) -> Seq<u8> {
    h.0 + seq![COLON] + h.1 + seq![LF]
}

/// The lines of a raw header list.
pub open spec fn raw_block(raw: Seq<(Seq<u8>, Seq<u8>)>) -> Seq<u8>
    decreases raw.len(),
{
    if raw.len() == 0 {
        Seq::empty()
    } else {
        raw_line(raw[0]) + raw_block(raw.skip(1))
    }
}

/// Whether `s` holds `x` from `pos` on, as far as `s` goes.
pub open spec fn agrees(s: Seq<u8>, pos: int, x: Seq<u8>) -> bool {
    0 <= pos && forall|i: int| pos <= i < s.len() && i < pos + x.len() ==> s[i] == x[i - pos]
}

/// Agreement with a concatenation is agreement with both parts.
pub proof fn lemma_agrees_split(s: Seq<u8>, pos: int, a: Seq<u8>, b: Seq<u8>)
    requires
        agrees(s, pos, a + b),
    ensures
        agrees(s, pos, a),
        agrees(s, pos + a.len(), b),
{
    assert forall|i: int| pos <= i < s.len() && i < pos + a.len() implies s[i] == a[i - pos] by {
        assert((a + b)[i - pos] == a[i - pos]);
    }
    assert forall|i: int|
        pos + a.len() <= i < s.len() && i < pos + a.len() + b.len() implies s[i] == b[i - (pos
            + a.len())] by {
        assert((a + b)[i - pos] == b[i - pos - a.len()]);
    }
}

/// A block of clean header lines followed by a blank line is scanned as
/// its header list when `s` holds all of it, and asks for more bytes when
/// `s` ends inside it.
#[verifier::rlimit(40)]
pub proof fn lemma_scan_block(s: Seq<u8>, pos: int, raw: Seq<(Seq<u8>, Seq<u8>)>)
    requires
        all_clean(raw),
        0 <= pos <= s.len(),
        agrees(s, pos, raw_block(raw) + seq![LF]),
    ensures
        s.len() >= pos + raw_block(raw).len() + 1 ==> scan_headers(s, pos) == (HeaderScan::Done {
            headers: raw,
            next: pos + raw_block(raw).len() + 1,
        }),
        s.len() < pos + raw_block(raw).len() + 1 ==> scan_headers(s, pos) is NeedMore,
    decreases raw.len(),
{
    let x = raw_block(raw) + seq![LF];
    if pos >= s.len() {
    } else if raw.len() == 0 {
        assert(x[0] == LF);
        assert(s[pos] == x[pos - pos]);
        assert(raw =~= Seq::empty());
    } else {
        let k = raw[0].0;
        let v = raw[0].1;
        let line = k + seq![COLON] + v;
        let l0 = raw_line(raw[0]);
        let rest = raw.skip(1);
        let tail = raw_block(rest) + seq![LF];
        assert(l0 =~= line + seq![LF]);
        assert(x =~= l0 + tail);
        assert(clean(k) && clean(v));
        assert forall|i: int| 0 <= i < line.len() implies line[i] != LF by {
            if i < k.len() {
                assert(line[i] == k[i]);
            } else if i > k.len() {
                assert(line[i] == v[i - k.len() - 1]);
            }
        }
        lemma_agrees_split(s, pos, l0, tail);
        assert(s[pos] == l0[0]);
        assert(l0[0] == line[0]);
        let stop = pos + line.len();
        if s.len() <= stop {
            // The line's end is not there yet.
            assert forall|j: int| pos <= j < s.len() implies s[j] != LF by {
                assert(s[j] == l0[j - pos]);
                assert(l0[j - pos] == line[j - pos]);
            }
            lemma_find_from_is(s, LF, pos, s.len() as int);
        } else {
            assert forall|j: int| pos <= j < stop implies s[j] != LF by {
                assert(s[j] == l0[j - pos]);
                assert(l0[j - pos] == line[j - pos]);
            }
            assert(s[stop] == l0[stop - pos]);
            assert(l0[line.len() as int] == LF);
            lemma_find_from_is(s, LF, pos, stop);
            let got = s.subrange(pos, stop);
            assert(got =~= line) by {
                assert forall|j: int| 0 <= j < line.len() implies got[j] == line[j] by {
                    assert(s[pos + j] == l0[j]);
                    assert(l0[j] == line[j]);
                }
            }
            assert(line.last() != CR) by {
                if v.len() > 0 {
                    assert(line.last() == v[v.len() - 1]);
                } else {
                    assert(line.last() == COLON);
                }
            }
            assert(strip_cr(got) == line);
            assert forall|j: int| 0 <= j < k.len() implies line[j] != COLON by {
                assert(line[j] == k[j]);
            }
            assert(line[k.len() as int] == COLON);
            lemma_find_from_is(line, COLON, 0, k.len() as int);
            assert(line.take(k.len() as int) =~= k);
            assert(line.skip(k.len() as int + 1) =~= v);
            assert forall|i: int| 0 <= i < rest.len() implies clean(#[trigger] rest[i].0)
                && clean(rest[i].1) by {
                assert(rest[i] == raw[i + 1]);
            }
            lemma_scan_block(s, stop + 1, rest);
            assert(raw_block(raw).len() == l0.len() + raw_block(rest).len());
            assert(seq![(k, v)] + rest =~= raw);
        }
    }
}

/// Every byte of the name `content-length` is a small letter or a hyphen.
pub proof fn lemma_length_name()
    ensures
        length_name().len() == 14,
        forall|j: int|
            0 <= j < 14 ==> (0x61 <= #[trigger] length_name()[j] <= 0x7A) || length_name()[j]
                == 0x2D,
{
    let n = length_name();
    assert(n[0] == 0x63 && n[1] == 0x6F && n[2] == 0x6E && n[3] == 0x74 && n[4] == 0x65 && n[5]
        == 0x6E && n[6] == 0x74);
    assert(n[7] == 0x2D && n[8] == 0x6C && n[9] == 0x65 && n[10] == 0x6E && n[11] == 0x67 && n[12]
        == 0x74 && n[13] == 0x68);
}

/// A name is `content-length` up to case exactly when its wire form is.
#[verifier::rlimit(40)]
pub proof fn lemma_escaped_name(k: Seq<u8>)
    ensures
        same_name(escape(k), length_name()) == same_name(k, length_name()),
{
    lemma_length_name();
    if exists|p: int| 0 <= p < k.len() && is_special(k[p]) {
        let p = choose|p: int| 0 <= p < k.len() && is_special(k[p]);
        lemma_escape_marks(k, p);
        let j = choose|j: int| 0 <= j < escape(k).len() && escape(k)[j] == BACKSLASH;
        if same_name(escape(k), length_name()) {
            assert(lower(escape(k)[j]) == lower(length_name()[j]));
        }
        if same_name(k, length_name()) {
            assert(lower(k[p]) == lower(length_name()[p]));
        }
    } else {
        lemma_escape_plain(k);
    }
}

/// The number that the decimal writing of `n` states as a length is `n`.
pub proof fn lemma_length_of_decimal(n: nat)
    requires
        n <= usize::MAX,
    ensures
        length_value(decimal(n)) == Ok::<nat, ParseError>(n),
{
    let d = decimal(n);
    lemma_decimal(n);
    lemma_decimal_ascii(n);
    lemma_ascii_text(d);
    assert(is_digit(d[0]));
    assert(is_digit(d[d.len() - 1]));
    assert(space_ahead(d, 0, d.len() as int) == 0);
    assert(trim_start(d, 0) == 0);
    assert(space_behind(d, 0, d.len() as int) == 0);
    assert(trim_end(d, 0, d.len() as int) == d.len());
    assert(trimmed(d) =~= d);
}

/// Headers of other names in front do not change the stated length.
pub proof fn lemma_content_length_behind(a: Seq<(Seq<u8>, Seq<u8>)>, b: Seq<(Seq<u8>, Seq<u8>)>)
    requires
        forall|i: int| 0 <= i < a.len() ==> !same_name(#[trigger] a[i].0, length_name()),
    ensures
        content_length(a + b) == content_length(b),
    decreases a.len(),
{
    if a.len() == 0 {
        assert(a + b =~= b);
    } else {
        assert((a + b)[0] == a[0]);
        assert((a + b).skip(1) =~= a.skip(1) + b);
        assert forall|i: int| 0 <= i < a.skip(1).len() implies !same_name(
            #[trigger] a.skip(1)[i].0,
            length_name(),
        ) by {
            assert(a.skip(1)[i] == a[i + 1]);
        }
        lemma_content_length_behind(a.skip(1), b);
    }
}

/// The raw headers that a header list becomes on the wire.
pub open spec fn raw_of(hs: Seq<(Seq<char>, Seq<char>)>) -> Seq<(Seq<u8>, Seq<u8>)> {
    Seq::new(hs.len(), |i: int| (escape(encode_utf8(hs[i].0)), escape(encode_utf8(hs[i].1))))
}

/// The header lines of a list are the lines of its raw headers, which are
/// clean.
pub proof fn lemma_raw_of(hs: Seq<(Seq<char>, Seq<char>)>)
    ensures
        header_block(hs) == raw_block(raw_of(hs)),
        all_clean(raw_of(hs)),
    decreases hs.len(),
{
    assert forall|i: int| 0 <= i < raw_of(hs).len() implies clean(#[trigger] raw_of(hs)[i].0)
        && clean(raw_of(hs)[i].1) by {
        lemma_escape_clean(encode_utf8(hs[i].0));
        lemma_escape_clean(encode_utf8(hs[i].1));
    }
    if hs.len() > 0 {
        lemma_raw_of(hs.skip(1));
        assert(raw_of(hs).skip(1) =~= raw_of(hs.skip(1)));
        assert(header_line(hs[0]) == raw_line(raw_of(hs)[0]));
    }
}

/// The lines of two lists in a row.
pub proof fn lemma_raw_block_concat(a: Seq<(Seq<u8>, Seq<u8>)>, b: Seq<(Seq<u8>, Seq<u8>)>)
    ensures
        raw_block(a + b) == raw_block(a) + raw_block(b),
    decreases a.len(),
{
    if a.len() == 0 {
        assert(a + b =~= b);
        assert(raw_block(a) + raw_block(b) =~= raw_block(b));
    } else {
        lemma_raw_block_concat(a.skip(1), b);
        assert((a + b).skip(1) =~= a.skip(1) + b);
        assert((a + b)[0] == a[0]);
        assert(raw_line(a[0]) + (raw_block(a.skip(1)) + raw_block(b)) =~= (raw_line(a[0])
            + raw_block(a.skip(1))) + raw_block(b));
    }
}

/// A header list has a `content-length` header exactly when its raw
/// headers have one.
pub proof fn lemma_raw_has_length(hs: Seq<(Seq<char>, Seq<char>)>)
    ensures
        has_length_header(hs) == (exists|i: int|
            0 <= i < raw_of(hs).len() && same_name(#[trigger] raw_of(hs)[i].0, length_name())),
{
    if has_length_header(hs) {
        let i = choose|i: int|
            0 <= i < hs.len() && same_name(encode_utf8(#[trigger] hs[i].0), length_name());
        lemma_escaped_name(encode_utf8(hs[i].0));
        assert(same_name(raw_of(hs)[i].0, length_name()));
    }
    if exists|i: int|
        0 <= i < raw_of(hs).len() && same_name(#[trigger] raw_of(hs)[i].0, length_name()) {
        let i = choose|i: int|
            0 <= i < raw_of(hs).len() && same_name(#[trigger] raw_of(hs)[i].0, length_name());
        lemma_escaped_name(encode_utf8(hs[i].0));
        assert(same_name(encode_utf8(hs[i].0), length_name()));
    }
}

/// Without a `content-length` header the raw headers state no length.
pub proof fn lemma_no_length(hs: Seq<(Seq<char>, Seq<char>)>)
    requires
        !has_length_header(hs),
    ensures
        content_length(raw_of(hs)) == Ok::<Option<nat>, ParseError>(None),
        forall|i: int| 0 <= i < raw_of(hs).len() ==> !same_name(#[trigger] raw_of(hs)[i].0, length_name()),
{
    lemma_raw_has_length(hs);
    lemma_content_length_behind(raw_of(hs), Seq::empty());
    assert(raw_of(hs) + Seq::<(Seq<u8>, Seq<u8>)>::empty() =~= raw_of(hs));
}

/// Decoding raw headers made from text gives the text back; raw headers
/// that follow are decoded on their own.
pub proof fn lemma_decode_raw_of(
    hs: Seq<(Seq<char>, Seq<char>)>,
    more: Seq<(Seq<u8>, Seq<u8>)>,
    more_text: Seq<(Seq<char>, Seq<char>)>,
)
    requires
        decode_headers(more) == Ok::<Seq<(Seq<char>, Seq<char>)>, CodecError>(more_text),
    ensures
        decode_headers(raw_of(hs) + more) == Ok::<Seq<(Seq<char>, Seq<char>)>, CodecError>(
            hs + more_text,
        ),
    decreases hs.len(),
{
    let all = raw_of(hs) + more;
    if hs.len() == 0 {
        assert(all =~= more);
        assert(hs + more_text =~= more_text);
    } else {
        let kb = encode_utf8(hs[0].0);
        let vb = encode_utf8(hs[0].1);
        lemma_escape_roundtrip(kb);
        lemma_escape_roundtrip(vb);
        encode_utf8_valid_utf8(hs[0].0);
        encode_utf8_valid_utf8(hs[0].1);
        encode_utf8_decode_utf8(hs[0].0);
        encode_utf8_decode_utf8(hs[0].1);
        assert(all[0] == (escape(kb), escape(vb)));
        assert(decode_header(all[0]) == Ok::<(Seq<char>, Seq<char>), CodecError>(hs[0]));
        assert(all.skip(1) =~= raw_of(hs.skip(1)) + more);
        lemma_decode_raw_of(hs.skip(1), more, more_text);
        assert(seq![hs[0]] + (hs.skip(1) + more_text) =~= hs + more_text);
    }
}

/// A byte string without special bytes is its own raw form.
pub proof fn lemma_unescape_plain(x: Seq<u8>)
    requires
        forall|i: int| 0 <= i < x.len() ==> !is_special(x[i]),
    ensures
        unescape(x) == Ok::<Seq<u8>, EscapeError>(x),
{
    lemma_escape_plain(x);
    lemma_escape_roundtrip(x);
}

/// A frame that the decoder gives back as it was encoded: the command is
/// not empty, holds no line feed and no NUL and does not end in a carriage
/// return; and a `content-length` header, if the frame has one, states
/// the length of the body.
pub open spec fn valid_frame(f: FrameView) -> bool {
    let c = encode_utf8(f.command);
    &&& c.len() > 0
    &&& forall|i: int| 0 <= i < c.len() ==> c[i] != LF && c[i] != NUL
    &&& c.last() != CR
    &&& f.body.len() <= usize::MAX
    &&& has_length_header(f.headers) ==> content_length(raw_of(f.headers)) == Ok::<
        Option<nat>,
        ParseError,
    >(Some(f.body.len()))
}

/// The `content-length` header that the encoder adds, as text.
pub open spec fn length_header(n: nat) -> (Seq<char>, Seq<char>) {
    (ascii_text(length_name()), ascii_text(decimal(n)))
}

/// A frame with the header that the encoder adds, if it adds one.
pub open spec fn normalized(f: FrameView) -> FrameView {
    FrameView {
        headers: if needs_length(f) {
            f.headers.push(length_header(f.body.len()))
        } else {
            f.headers
        },
        ..f
    }
}

/// The raw headers of a frame on the wire.
pub open spec fn working_raw(f: FrameView) -> Seq<(Seq<u8>, Seq<u8>)> {
    if needs_length(f) {
        raw_of(f.headers).push((length_name(), decimal(f.body.len())))
    } else {
        raw_of(f.headers)
    }
}

/// The body of a frame as the parser finds it.
pub open spec fn wire_body(f: FrameView) -> Option<Seq<u8>> {
    if needs_length(f) || has_length_header(f.headers) {
        Some(f.body)
    } else {
        some_unless_empty(f.body)
    }
}

/// The wire form of a frame in parts: command, line feed, the lines of the
/// raw headers, blank line, body, NUL.
#[verifier::rlimit(40)]
pub proof fn lemma_wire_shape(f: FrameView)
    ensures
        wire_frame(f) == (encode_utf8(f.command) + seq![LF]) + ((raw_block(working_raw(f))
            + seq![LF]) + (f.body + seq![NUL])),
        all_clean(working_raw(f)),
{
    lemma_raw_of(f.headers);
    let one = seq![(length_name(), decimal(f.body.len()))];
    if needs_length(f) {
        lemma_raw_block_concat(raw_of(f.headers), one);
        assert(working_raw(f) =~= raw_of(f.headers) + one);
        assert(one.skip(1) =~= Seq::empty());
        assert(raw_block(one.skip(1)) =~= Seq::empty());
        assert(raw_line(one[0]) =~= length_line(f.body.len()));
        assert(raw_block(one) =~= length_line(f.body.len()));
        lemma_length_name();
        lemma_decimal(f.body.len());
        assert(clean(length_name())) by {
            assert forall|i: int| 0 <= i < length_name().len() implies length_name()[i] != LF
                && length_name()[i] != CR && length_name()[i] != COLON by {
                assert((0x61 <= length_name()[i] <= 0x7A) || length_name()[i] == 0x2D);
            }
        }
        assert(clean(decimal(f.body.len()))) by {
            assert forall|i: int| 0 <= i < decimal(f.body.len()).len() implies decimal(
                f.body.len(),
            )[i] != LF && decimal(f.body.len())[i] != CR && decimal(f.body.len())[i] != COLON by {
                assert(is_digit(decimal(f.body.len())[i]));
            }
        }
        assert forall|i: int| 0 <= i < working_raw(f).len() implies clean(
            #[trigger] working_raw(f)[i].0,
        ) && clean(working_raw(f)[i].1) by {
            if i < raw_of(f.headers).len() {
                assert(working_raw(f)[i] == raw_of(f.headers)[i]);
            }
        }
    }
    assert(wire_frame(f) =~= (encode_utf8(f.command) + seq![LF]) + ((raw_block(working_raw(f))
        + seq![LF]) + (f.body + seq![NUL])));
}

/// The length that the raw headers of a valid frame state.
pub proof fn lemma_wire_length(f: FrameView)
    requires
        valid_frame(f),
    ensures
        content_length(working_raw(f)) == (if needs_length(f) || has_length_header(f.headers) {
            Ok::<Option<nat>, ParseError>(Some(f.body.len()))
        } else {
            Ok::<Option<nat>, ParseError>(None)
        }),
{
    if needs_length(f) {
        let one = seq![(length_name(), decimal(f.body.len()))];
        lemma_no_length(f.headers);
        lemma_content_length_behind(raw_of(f.headers), one);
        assert(working_raw(f) =~= raw_of(f.headers) + one);
        lemma_length_of_decimal(f.body.len());
        assert(same_name(length_name(), length_name()));
        assert(one[0].0 == length_name());
    } else if !has_length_header(f.headers) {
        lemma_no_length(f.headers);
    }
}

/// Bytes that hold a command and its line feed: the parser finds the
/// command there. Bytes that end inside the command hold no frame yet.
pub proof fn lemma_command_line(s: Seq<u8>, c: Seq<u8>)
    requires
        c.len() > 0,
        forall|i: int| 0 <= i < c.len() ==> c[i] != LF && c[i] != NUL,
        c.last() != CR,
        agrees(s, 0, c + seq![LF]),
    ensures
        skip_lf(s, 0) == 0,
        s.len() <= c.len() ==> find_from(s, LF, 0) == s.len() && find_from(s, NUL, 0) == s.len(),
        s.len() > c.len() ==> find_from(s, LF, 0) == c.len() && strip_cr(
            s.subrange(0, c.len() as int),
        ) == c,
{
    lemma_agrees_split(s, 0, c, seq![LF]);
    if s.len() == 0 {
    } else {
        assert(s[0] == c[0]);
        if s.len() <= c.len() {
            assert forall|j: int| 0 <= j < s.len() implies s[j] != LF && s[j] != NUL by {
                assert(s[j] == c[j]);
            }
            lemma_find_from_is(s, LF, 0, s.len() as int);
            lemma_find_from_is(s, NUL, 0, s.len() as int);
        } else {
            assert forall|j: int| 0 <= j < c.len() implies s[j] != LF by {
                assert(s[j] == c[j]);
            }
            assert(s[c.len() as int] == seq![LF][0]);
            lemma_find_from_is(s, LF, 0, c.len() as int);
            let got = s.subrange(0, c.len() as int);
            assert(got =~= c) by {
                assert forall|j: int| 0 <= j < c.len() implies got[j] == c[j] by {
                    assert(s[j] == c[j]);
                }
            }
        }
    }
}

/// Bytes that hold a body and its NUL from `from` on: a sized read waits
/// for the NUL and then takes the body.
pub proof fn lemma_sized_body(
    s: Seq<u8>,
    command: Seq<u8>,
    headers: Seq<(Seq<u8>, Seq<u8>)>,
    from: int,
    body: Seq<u8>,
)
    requires
        0 <= from <= s.len(),
        agrees(s, from, body + seq![NUL]),
    ensures
        s.len() < from + body.len() + 1 ==> sized(s, command, headers, from, body.len()) is NeedMore,
        s.len() >= from + body.len() + 1 ==> sized(s, command, headers, from, body.len())
            == Parsed::Frame(
            RawFrame {
                command,
                headers,
                body: Some(body),
                consumed: trailing(s, from + body.len() + 1),
            },
        ),
{
    lemma_agrees_split(s, from, body, seq![NUL]);
    if s.len() >= from + body.len() + 1 {
        assert(s[from + body.len()] == seq![NUL][0]);
        assert(s.subrange(from, from + body.len()) =~= body) by {
            assert forall|j: int| 0 <= j < body.len() implies s[from + j] == body[j] by {}
        }
    }
}

/// Bytes that hold a body without NUL and then a NUL from `from` on: a
/// read up to the first NUL waits for it and then takes the body.
pub proof fn lemma_open_body(
    s: Seq<u8>,
    command: Seq<u8>,
    headers: Seq<(Seq<u8>, Seq<u8>)>,
    from: int,
    body: Seq<u8>,
)
    requires
        0 <= from <= s.len(),
        !has_byte(body, NUL),
        agrees(s, from, body + seq![NUL]),
    ensures
        s.len() < from + body.len() + 1 ==> until_nul(s, command, headers, from) is NeedMore,
        s.len() >= from + body.len() + 1 ==> until_nul(s, command, headers, from) == Parsed::Frame(
            RawFrame {
                command,
                headers,
                body: some_unless_empty(body),
                consumed: trailing(s, from + body.len() + 1),
            },
        ),
{
    lemma_agrees_split(s, from, body, seq![NUL]);
    if s.len() >= from + body.len() + 1 {
        assert(s[from + body.len()] == seq![NUL][0]);
        assert forall|j: int| from <= j < from + body.len() implies s[j] != NUL by {
            assert(s[j] == body[j - from]);
        }
        lemma_find_from_is(s, NUL, from, from + body.len());
        assert(s.subrange(from, from + body.len()) =~= body) by {
            assert forall|j: int| 0 <= j < body.len() implies s[from + j] == body[j] by {}
        }
    } else {
        assert forall|j: int| from <= j < s.len() implies s[j] != NUL by {
            assert(s[j] == body[j - from]);
        }
        lemma_find_from_is(s, NUL, from, s.len() as int);
    }
}

/// What the parser makes of bytes that hold the wire form of a valid frame
/// as far as they go: nothing before the last byte is there, and then the
/// frame's raw parts. One line feed after the frame is taken with it.
#[verifier::rlimit(40)]
pub proof fn lemma_parse_wire(f: FrameView, s: Seq<u8>)
    requires
        valid_frame(f),
        agrees(s, 0, wire_frame(f)),
    ensures
        s.len() < wire_frame(f).len() ==> parse_frame(s) is NeedMore,
        s.len() >= wire_frame(f).len() ==> parse_frame(s) == Parsed::Frame(
            RawFrame {
                command: encode_utf8(f.command),
                headers: working_raw(f),
                body: wire_body(f),
                consumed: trailing(s, wire_frame(f).len() as int),
            },
        ),
{
    let c = encode_utf8(f.command);
    let raw = working_raw(f);
    let hb = raw_block(raw);
    let body = f.body;
    lemma_wire_shape(f);
    lemma_wire_length(f);
    let first = c + seq![LF];
    let mid = hb + seq![LF];
    let last = body + seq![NUL];
    lemma_agrees_split(s, 0, first, mid + last);
    lemma_agrees_split(s, first.len() as int, mid, last);
    let h0 = c.len() as int + 1;
    let b0 = h0 + hb.len() + 1;
    assert(wire_frame(f).len() == b0 + body.len() + 1);
    lemma_command_line(s, c);
    if s.len() > c.len() {
        lemma_scan_block(s, h0, raw);
        if s.len() >= b0 {
            if needs_length(f) || has_length_header(f.headers) {
                lemma_sized_body(s, c, raw, b0, body);
            } else {
                lemma_open_body(s, c, raw, b0, body);
            }
        }
    }
}

/// What the decoder makes of bytes that hold the wire form of a valid
/// frame as far as they go: it waits until the whole frame is there, and
/// then gives the frame with the header that the encoder added, if any.
#[verifier::rlimit(40)]
pub proof fn lemma_decode_wire(f: FrameView, s: Seq<u8>)
    requires
        valid_frame(f),
        agrees(s, 0, wire_frame(f)),
    ensures
        s.len() < wire_frame(f).len() ==> decode(s) is NeedMore,
        s.len() >= wire_frame(f).len() ==> decode(s) == (Decoded::Item {
            item: ItemView::Frame(normalized(f)),
            consumed: trailing(s, wire_frame(f).len() as int),
        }),
{
    let c = encode_utf8(f.command);
    lemma_parse_wire(f, s);
    lemma_wire_shape(f);
    lemma_agrees_split(s, 0, c + seq![LF], (raw_block(working_raw(f)) + seq![LF]) + (f.body
        + seq![NUL]));
    lemma_agrees_split(s, 0, c, seq![LF]);
    if s.len() > 0 {
        assert(s[0] == c[0]);
        if s.len() >= 2 && s[0] == CR {
            if c.len() >= 2 {
                assert(s[1] == c[1]);
            }
        }
        if s.len() >= wire_frame(f).len() {
            encode_utf8_valid_utf8(f.command);
            encode_utf8_decode_utf8(f.command);
            let n = f.body.len();
            if needs_length(f) {
                let more = seq![(length_name(), decimal(n))];
                let more_text = seq![length_header(n)];
                lemma_length_name();
                lemma_decimal(n);
                lemma_decimal_ascii(n);
                assert(all_ascii(length_name())) by {
                    assert forall|i: int| 0 <= i < length_name().len() implies
                        #[trigger] length_name()[i] < 0x80 by {
                        assert((0x61 <= length_name()[i] <= 0x7A) || length_name()[i] == 0x2D);
                    }
                }
                lemma_ascii_text(length_name());
                lemma_ascii_text(decimal(n));
                assert forall|i: int| 0 <= i < length_name().len() implies !is_special(
                    length_name()[i],
                ) by {
                    assert((0x61 <= length_name()[i] <= 0x7A) || length_name()[i] == 0x2D);
                }
                assert forall|i: int| 0 <= i < decimal(n).len() implies !is_special(
                    decimal(n)[i],
                ) by {
                    assert(is_digit(decimal(n)[i]));
                }
                lemma_unescape_plain(length_name());
                lemma_unescape_plain(decimal(n));
                assert(decode_header(more[0]) == Ok::<(Seq<char>, Seq<char>), CodecError>(
                    length_header(n),
                ));
                assert(more.skip(1) =~= Seq::empty());
                assert(more_text + Seq::<(Seq<char>, Seq<char>)>::empty() =~= more_text);
                assert(decode_headers(more) == Ok::<Seq<(Seq<char>, Seq<char>)>, CodecError>(
                    more_text,
                ));
                lemma_decode_raw_of(f.headers, more, more_text);
                assert(working_raw(f) =~= raw_of(f.headers) + more);
                assert(f.headers + more_text =~= f.headers.push(length_header(n)));
            } else {
                let none = Seq::<(Seq<u8>, Seq<u8>)>::empty();
                lemma_decode_raw_of(f.headers, none, Seq::empty());
                assert(raw_of(f.headers) + none =~= raw_of(f.headers));
                assert(f.headers + Seq::<(Seq<char>, Seq<char>)>::empty() =~= f.headers);
                if f.body.len() == 0 {
                    assert(f.body =~= Seq::<u8>::empty());
                }
            }
        }
    }
}

/// Decoding the wire form of a valid frame gives the frame back, with the
/// `content-length` header that the encoder added, if it added one, and
/// takes every byte.
pub proof fn lemma_roundtrip(f: FrameView)
    requires
        valid_frame(f),
    ensures
        decode(wire_frame(f)) == (Decoded::Item {
            item: ItemView::Frame(normalized(f)),
            consumed: wire_frame(f).len() as int,
        }),
{
    lemma_decode_wire(f, wire_frame(f));
}

} // verus!
