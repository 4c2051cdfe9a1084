//! The frame parser: finds one frame at the start of a byte slice.

use vstd::prelude::*;
use vstd::slice::*;
use vstd::utf8::*;
use crate::number::{parse_u64, parse_unsigned, trim_bounds, trimmed};
use crate::scan::{eq_ignore_case, copy_range, find_byte, find_from, lemma_find_from_is,
    same_name, COLON, CR, LF, NUL};
use crate::text::str_from_utf8;

verus! {

/// Why bytes are not a frame.
#[derive(Debug, Clone, Copy, PartialEq, Eq, Structural)]
pub enum ParseError {
    /// A header line has no colon.
    MalformedHeader,
    /// The `content-length` value is not UTF-8.
    LengthNotText,
    /// The `content-length` value is empty or white space only.
    EmptyLength,
    /// The `content-length` value is not an unsigned number in range.
    InvalidLength,
    /// The byte after a sized body is not NUL.
    MissingTerminator,
}

impl ParseError {
    /// The fixed wording of each error.
    pub open spec fn text(self) -> Seq<char> {
        match self {
            ParseError::MalformedHeader => "malformed header line"@,
            ParseError::LengthNotText => "content-length not utf8"@,
            ParseError::EmptyLength => "empty content-length"@,
            ParseError::InvalidLength => "invalid content-length"@,
            ParseError::MissingTerminator => "missing NUL terminator after content-length body"@,
        }
    }

    /// Renders the error for a diagnostic.
    pub fn message(&self) -> (s: String)
        ensures
            s@ == self.text(),
    {
        match self {
            ParseError::MalformedHeader => "malformed header line".to_owned(),
            ParseError::LengthNotText => "content-length not utf8".to_owned(),
            ParseError::EmptyLength => "empty content-length".to_owned(),
            ParseError::InvalidLength => "invalid content-length".to_owned(),
            ParseError::MissingTerminator => "missing NUL terminator after content-length body"
                .to_owned(),
        }
    }
}

/// A frame as it stands on the wire, before unescaping and decoding.
pub struct RawFrame {
    pub command: Seq<u8>,
    pub headers: Seq<(Seq<u8>, Seq<u8>)>,
    pub body: Option<Seq<u8>>,
    pub consumed: int,
}

/// What a byte slice holds at its start.
pub enum Parsed {
    /// No complete frame yet.
    NeedMore,
    /// A complete frame.
    Frame(RawFrame),
    /// Bytes that no frame starts with.
    Error(ParseError),
}

/// What scanning the header block gives.
pub enum HeaderScan {
    NeedMore,
    Malformed,
    Done { headers: Seq<(Seq<u8>, Seq<u8>)>, next: int },
}

/// The name `content-length` in bytes.
pub open spec fn length_name() -> Seq<u8> {
    seq![0x63, 0x6F, 0x6E, 0x74, 0x65, 0x6E, 0x74, 0x2D, 0x6C, 0x65, 0x6E, 0x67, 0x74, 0x68]
}

/// The first index at or after `i` that does not hold a line feed.
pub open spec fn skip_lf(s: Seq<u8>, i: int) -> int
    decreases s.len() - i,
{
    if 0 <= i < s.len() && s[i] == LF {
        skip_lf(s, i + 1)
    } else {
        i
    }
}

/// A line without its trailing carriage return, if it has one.
pub open spec fn strip_cr(line: Seq<u8>) -> Seq<u8> {
    if line.len() > 0 && line.last() == CR {
        line.drop_last()
    } else {
        line
    }
}

/// Puts headers in front of those a scan found.
pub open spec fn with_front(front: Seq<(Seq<u8>, Seq<u8>)>, scan: HeaderScan) -> HeaderScan {
    match scan {
        HeaderScan::Done { headers, next } => HeaderScan::Done { headers: front + headers, next },
        other => other,
    }
}

/// Reads header lines from `pos` up to and including the blank line. Each
/// line is split at its first colon.
pub open spec fn scan_headers(s: Seq<u8>, pos: int) -> HeaderScan
    decreases s.len() - pos,
{
    if pos < 0 || pos >= s.len() {
        HeaderScan::NeedMore
    } else if s[pos] == LF {
        HeaderScan::Done { headers: Seq::empty(), next: pos + 1 }
    } else {
        let end = find_from(s, LF, pos);
        if end < pos || end >= s.len() {
            HeaderScan::NeedMore
        } else {
            let line = strip_cr(s.subrange(pos, end));
            let colon = find_from(line, COLON, 0);
            if colon >= line.len() {
                HeaderScan::Malformed
            } else {
                with_front(
                    seq![(line.take(colon), line.skip(colon + 1))],
                    scan_headers(s, end + 1),
                )
            }
        }
    }
}

/// The number that a `content-length` value states.
pub open spec fn length_value(v: Seq<u8>) -> Result<nat, ParseError> {
    if !valid_utf8(v) {
        Err(ParseError::LengthNotText)
    } else if trimmed(v).len() == 0 {
        Err(ParseError::EmptyLength)
    } else {
        match parse_unsigned(trimmed(v), usize::MAX as nat) {
            Some(n) => Ok(n),
            None => Err(ParseError::InvalidLength),
        }
    }
}

/// The body length that the first `content-length` header states, if any
/// header has that name.
pub open spec fn content_length(headers: Seq<(Seq<u8>, Seq<u8>)>) -> Result<
    Option<nat>,
    ParseError,
>
    decreases headers.len(),
{
    if headers.len() == 0 {
        Ok(None)
    } else if same_name(headers[0].0, length_name()) {
        match length_value(headers[0].1) {
            Ok(n) => Ok(Some(n)),
            Err(e) => Err(e),
        }
    } else {
        content_length(headers.skip(1))
    }
}

/// The position after an optional line feed at `pos`.
pub open spec fn trailing(s: Seq<u8>, pos: int) -> int {
    if 0 <= pos < s.len() && s[pos] == LF {
        pos + 1
    } else {
        pos
    }
}

/// A body, or nothing when it is empty.
pub open spec fn some_unless_empty(b: Seq<u8>) -> Option<Seq<u8>> {
    if b.len() == 0 {
        None
    } else {
        Some(b)
    }
}

/// The frame that ends at the first NUL at or after `from`.
pub open spec fn until_nul(
    s: Seq<u8>,
    command: Seq<u8>,
    headers: Seq<(Seq<u8>, Seq<u8>)>,
    from: int,
) -> Parsed {
    let nul = find_from(s, NUL, from);
    if nul >= s.len() {
        Parsed::NeedMore
    } else {
        Parsed::Frame(
            RawFrame {
                command,
                headers,
                body: some_unless_empty(s.subrange(from, nul)),
                consumed: trailing(s, nul + 1),
            },
        )
    }
}

/// The frame whose body is the `n` bytes from `from`.
pub open spec fn sized(
    s: Seq<u8>,
    command: Seq<u8>,
    headers: Seq<(Seq<u8>, Seq<u8>)>,
    from: int,
    n: nat,
) -> Parsed {
    if from + n + 1 > s.len() {
        Parsed::NeedMore
    } else if s[from + n] != NUL {
        Parsed::Error(ParseError::MissingTerminator)
    } else {
        Parsed::Frame(
            RawFrame {
                command,
                headers,
                body: Some(s.subrange(from, from + n)),
                consumed: trailing(s, from + n + 1),
            },
        )
    }
}

/// What `s` holds at its start: leading line feeds are passed over; the
/// command runs to the first line feed; headers run to a blank line; the
/// body is sized by `content-length` or runs to the first NUL; one line
/// feed after the NUL belongs to the frame. Without any line feed, bytes up
/// to a NUL are a body without command or headers.
pub open spec fn parse_frame(s: Seq<u8>) -> Parsed {
    let start = skip_lf(s, 0);
    let cmd_end = find_from(s, LF, start);
    if cmd_end >= s.len() {
        until_nul(s, Seq::empty(), Seq::empty(), start)
    } else {
        let command = strip_cr(s.subrange(start, cmd_end));
        match scan_headers(s, cmd_end + 1) {
            HeaderScan::NeedMore => Parsed::NeedMore,
            HeaderScan::Malformed => Parsed::Error(ParseError::MalformedHeader),
            HeaderScan::Done { headers, next } => match content_length(headers) {
                Err(e) => Parsed::Error(e),
                Ok(Some(n)) => sized(s, command, headers, next, n),
                Ok(None) => until_nul(s, command, headers, next),
            },
        }
    }
}

/// The executable form of a raw frame: command, headers, body, and the
/// number of bytes it took.
pub type RawParts = (Vec<u8>, Vec<(Vec<u8>, Vec<u8>)>, Option<Vec<u8>>, usize);

/// Views executable headers as pairs of byte sequences.
pub open spec fn raw_headers(h: Seq<(Vec<u8>, Vec<u8>)>) -> Seq<(Seq<u8>, Seq<u8>)> {
    Seq::new(h.len(), |i: int| (h[i].0@, h[i].1@))
}

/// Views an executable body.
pub open spec fn raw_body(b: Option<Vec<u8>>) -> Option<Seq<u8>> {
    match b {
        Some(v) => Some(v@),
        None => None,
    }
}

/// Views the executable form of a raw frame.
pub open spec fn raw_view(t: RawParts) -> RawFrame {
    RawFrame {
        command: t.0@,
        headers: raw_headers(t.1@),
        body: raw_body(t.2),
        consumed: t.3 as int,
    }
}

pub(crate) fn length_name_bytes() -> (r: Vec<u8>)
    ensures
        r@ == length_name(),
{
    let r = vec![0x63u8, 0x6F, 0x6E, 0x74, 0x65, 0x6E, 0x74, 0x2D, 0x6C, 0x65, 0x6E, 0x67, 0x74, 0x68];
    assert(r@ =~= length_name());
    r
}

/// Searches `s[from..to]` for `b`; gives `to` when it is absent.
fn find_in(s: &[u8], b: u8, from: usize, to: usize) -> (r: usize)
    requires
        from <= to <= s@.len(),
    ensures
        from <= r <= to,
        r - from == find_from(s@.subrange(from as int, to as int), b, 0),
{
    let mut i: usize = from;
    while i < to && s[i] != b
        invariant
            from <= i <= to <= s@.len(),
            forall|j: int| from <= j < i ==> s@[j] != b,
        decreases to - i,
    {
        i = i + 1;
    }
    proof {
        lemma_find_from_is(s@.subrange(from as int, to as int), b, 0, i - from);
    }
    i
}

fn read_length(v: &[u8]) -> (r: Result<usize, ParseError>)
    ensures
        match r {
            Ok(n) => length_value(v@) == Ok::<nat, ParseError>(n as nat),
            Err(e) => length_value(v@) == Err::<nat, ParseError>(e),
        },
{
    if str_from_utf8(v).is_none() {
        return Err(ParseError::LengthNotText);
    }
    let (a, b) = trim_bounds(v);
    if a == b {
        return Err(ParseError::EmptyLength);
    }
    let t = slice_subrange(v, a, b);
    match parse_u64(t) {
        Some(n) => {
            if n > usize::MAX as u64 {
                Err(ParseError::InvalidLength)
            } else {
                Ok(n as usize)
            }
        },
        None => {
            proof {
                if parse_unsigned(t@, usize::MAX as nat) is Some {
                    assert(parse_unsigned(t@, u64::MAX as nat) is Some);
                }
            }
            Err(ParseError::InvalidLength)
        },
    }
}

/// Extracts the body length that the headers state.
pub fn get_content_length(headers: &[(Vec<u8>, Vec<u8>)]) -> (r: Result<Option<usize>, ParseError>)
    ensures
        match r {
            Ok(Some(n)) => content_length(raw_headers(headers@)) == Ok::<Option<nat>, ParseError>(
                Some(n as nat),
            ),
            Ok(None) => content_length(raw_headers(headers@)) == Ok::<Option<nat>, ParseError>(None),
            Err(e) => content_length(raw_headers(headers@)) == Err::<Option<nat>, ParseError>(e),
        },
{
    let name = length_name_bytes();
    let ghost all = raw_headers(headers@);
    let mut i: usize = 0;
    assert(all.skip(0) =~= all);
    while i < headers.len()
        invariant
            0 <= i <= headers@.len(),
            all == raw_headers(headers@),
            name@ == length_name(),
            content_length(all) == content_length(all.skip(i as int)),
        decreases headers@.len() - i,
    {
        let ghost rest = all.skip(i as int);
        assert(rest[0] == all[i as int]);
        assert(rest.skip(1) =~= all.skip(i + 1));
        if eq_ignore_case(headers[i].0.as_slice(), name.as_slice()) {
            return match read_length(headers[i].1.as_slice()) {
                Ok(n) => Ok(Some(n)),
                Err(e) => Err(e),
            };
        }
        i = i + 1;
    }
    Ok(None)
}

fn take_until_nul(input: &[u8], command: Vec<u8>, headers: Vec<(Vec<u8>, Vec<u8>)>, from: usize) -> (r:
    Option<RawParts>)
    requires
        from <= input@.len(),
    ensures
        match r {
            Some(t) => until_nul(input@, command@, raw_headers(headers@), from as int)
                == Parsed::Frame(raw_view(t)),
            None => until_nul(input@, command@, raw_headers(headers@), from as int)
                is NeedMore,
        },
        r matches Some(t) ==> 0 < t.3 <= input@.len(),
{
    let len = input.len();
    let nul = find_byte(input, NUL, from);
    if nul >= len {
        return None;
    }
    let body = copy_range(input, from, nul);
    let mut pos: usize = nul + 1;
    if pos < len && input[pos] == LF {
        pos = pos + 1;
    }
    let body_opt = if body.len() == 0 {
        None
    } else {
        Some(body)
    };
    Some((command, headers, body_opt, pos))
}

/// Finds one frame at the start of `input`, with typed errors.
#[verifier::rlimit(40)]
pub fn parse_raw(input: &[u8]) -> (r: Result<Option<RawParts>, ParseError>)
    ensures
        match r {
            Ok(Some(t)) => parse_frame(input@) == Parsed::Frame(raw_view(t)),
            Ok(None) => parse_frame(input@) is NeedMore,
            Err(e) => parse_frame(input@) == Parsed::Error(e),
        },
        r matches Ok(Some(t)) ==> 0 < t.3 <= input@.len(),
{
    let len = input.len();
    let mut start: usize = 0;
    while start < len && input[start] == LF
        invariant
            0 <= start <= len,
            len == input@.len(),
            skip_lf(input@, 0) == skip_lf(input@, start as int),
        decreases len - start,
    {
        start = start + 1;
    }
    let cmd_end = find_byte(input, LF, start);
    if cmd_end >= len {
        let empty_headers: Vec<(Vec<u8>, Vec<u8>)> = Vec::new();
        assert(raw_headers(empty_headers@) =~= Seq::empty());
        return Ok(take_until_nul(input, Vec::new(), empty_headers, start));
    }
    let cmd_stop: usize = if cmd_end > start && input[cmd_end - 1] == CR {
        (cmd_end - 1) as usize
    } else {
        cmd_end
    };
    let command = copy_range(input, start, cmd_stop);
    proof {
        let line = input@.subrange(start as int, cmd_end as int);
        if cmd_end > start {
            assert(line.last() == input@[cmd_end - 1]);
        }
        assert(command@ =~= strip_cr(line));
    }
    let first: usize = cmd_end + 1;
    let mut pos: usize = first;
    let mut headers: Vec<(Vec<u8>, Vec<u8>)> = Vec::new();
    assert(raw_headers(headers@) =~= Seq::empty());
    assert(with_front(raw_headers(headers@), scan_headers(input@, pos as int)) == scan_headers(
        input@,
        first as int,
    )) by {
        match scan_headers(input@, pos as int) {
            HeaderScan::Done { headers: h, next } => {
                assert(Seq::<(Seq<u8>, Seq<u8>)>::empty() + h =~= h);
            },
            _ => {},
        }
    }
    loop
        invariant_except_break
            first <= pos <= len,
            len == input@.len(),
            scan_headers(input@, first as int) == with_front(
                raw_headers(headers@),
                scan_headers(input@, pos as int),
            ),
        invariant
            start == skip_lf(input@, 0),
            cmd_end == find_from(input@, LF, start as int),
            cmd_end < len,
            first == cmd_end + 1,
        ensures
            first <= pos <= len,
            len == input@.len(),
            scan_headers(input@, first as int) == (HeaderScan::Done {
                headers: raw_headers(headers@),
                next: pos as int,
            }),
        decreases len - pos,
    {
        if pos >= len {
            return Ok(None);
        }
        if input[pos] == LF {
            pos = pos + 1;
            assert(raw_headers(headers@) + Seq::<(Seq<u8>, Seq<u8>)>::empty() =~= raw_headers(
                headers@,
            ));
            break ;
        }
        let end = find_byte(input, LF, pos);
        if end >= len {
            return Ok(None);
        }
        let stop: usize = if end > pos && input[end - 1] == CR {
            (end - 1) as usize
        } else {
            end
        };
        let colon = find_in(input, COLON, pos, stop);
        let ghost whole = input@.subrange(pos as int, end as int);
        let ghost line = strip_cr(whole);
        proof {
            if end > pos {
                assert(whole.last() == input@[end - 1]);
            }
            assert(line =~= input@.subrange(pos as int, stop as int));
        }
        if colon >= stop {
            return Err(ParseError::MalformedHeader);
        }
        let key = copy_range(input, pos, colon);
        let val = copy_range(input, colon + 1, stop);
        proof {
            assert(key@ =~= line.take(colon - pos));
            assert(val@ =~= line.skip(colon - pos + 1));
        }
        let ghost before = raw_headers(headers@);
        headers.push((key, val));
        proof {
            let one = seq![(key@, val@)];
            assert(raw_headers(headers@) =~= before + one);
            match scan_headers(input@, end + 1) {
                HeaderScan::Done { headers: h, next } => {
                    assert(before + (one + h) =~= (before + one) + h);
                },
                _ => {},
            }
        }
        pos = end + 1;
    }
    match get_content_length(headers.as_slice()) {
        Err(e) => Err(e),
        Ok(Some(n)) => {
            if n >= len - pos {
                Ok(None)
            } else {
                let body = copy_range(input, pos, pos + n);
                let mut after: usize = pos + n;
                if input[after] != NUL {
                    Err(ParseError::MissingTerminator)
                } else {
                    after = after + 1;
                    if after < len && input[after] == LF {
                        after = after + 1;
                    }
                    Ok(Some((command, headers, Some(body), after)))
                }
            }
        },
        Ok(None) => Ok(take_until_nul(input, command, headers, pos)),
    }
}

/// Finds one frame at the start of `input`: `Ok(Some(..))` with the command,
/// the headers, the body and the number of bytes taken; `Ok(None)` when more
/// bytes are needed; `Err` with the error's wording on bytes that are no frame.
pub fn parse_frame_slice(input: &[u8]) -> (r: Result<Option<RawParts>, String>)
    ensures
        match r {
            Ok(Some(t)) => parse_frame(input@) == Parsed::Frame(raw_view(t)),
            Ok(None) => parse_frame(input@) is NeedMore,
            Err(e) => parse_frame(input@) matches Parsed::Error(k) && e@ == k.text(),
        },
        r matches Ok(Some(t)) ==> 0 < t.3 <= input@.len(),
{
    match parse_raw(input) {
        Ok(t) => Ok(t),
        Err(e) => Err(e.message()),
    }
}

} // verus!
