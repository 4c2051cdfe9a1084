//! Header escaping: backslash, carriage return, line feed and colon travel
//! as two-byte sequences that start with a backslash.

use vstd::prelude::*;
use vstd::string::*;
use vstd::utf8::*;
use crate::scan::{BACKSLASH, COLON, CR, LF};

verus! {

/// Why a wire value could not be unescaped.
#[derive(Debug, Clone, Copy, PartialEq, Eq, Structural)]
pub enum EscapeError {
    /// A backslash is followed by a byte that names no sequence.
    Invalid,
    /// A backslash is the last byte.
    Incomplete,
}

impl EscapeError {
    /// The fixed wording of each error.
    pub open spec fn text(self) -> Seq<char> {
        match self {
            EscapeError::Invalid => "invalid escape sequence"@,
            EscapeError::Incomplete => "incomplete escape sequence"@,
        }
    }

    /// Renders the error for a diagnostic.
    pub fn message(&self) -> (s: String)
        ensures
            s@ == self.text(),
    {
        match self {
            EscapeError::Invalid => "invalid escape sequence".to_owned(),
            EscapeError::Incomplete => "incomplete escape sequence".to_owned(),
        }
    }
}

/// Whether a raw byte must be escaped on the wire.
pub open spec fn is_special(b: u8) -> bool {
    b == BACKSLASH || b == CR || b == LF || b == COLON
}

/// The letter that follows the backslash for a special byte.
pub open spec fn escape_letter(b: u8) -> u8 {
    if b == BACKSLASH {
        BACKSLASH
    } else if b == CR {
        0x72
    } else if b == LF {
        0x6E
    } else {
        0x63
    }
}

/// The wire form of one raw byte.
pub open spec fn escape_byte(b: u8) -> Seq<u8> {
    if is_special(b) {
        seq![BACKSLASH, escape_letter(b)]
    } else {
        seq![b]
    }
}

/// The wire form of a raw byte string.
pub open spec fn escape(s: Seq<u8>) -> Seq<u8>
    decreases s.len(),
{
    if s.len() == 0 {
        Seq::empty()
    } else {
        escape_byte(s[0]) + escape(s.skip(1))
    }
}

/// The raw byte that a letter after a backslash stands for, if any.
pub open spec fn unescape_letter(b: u8) -> Option<u8> {
    if b == BACKSLASH {
        Some(BACKSLASH)
    } else if b == 0x72 {
        Some(CR)
    } else if b == 0x6E {
        Some(LF)
    } else if b == 0x63 {
        Some(COLON)
    } else {
        None
    }
}

/// Puts `b` in front of a successful result; an error passes through.
pub open spec fn cons(b: u8, rest: Result<Seq<u8>, EscapeError>) -> Result<Seq<u8>, EscapeError> {
    match rest {
        Ok(r) => Ok(seq![b] + r),
        Err(e) => Err(e),
    }
}

/// The raw form of a wire byte string, or the first error met from the left.
pub open spec fn unescape(s: Seq<u8>) -> Result<Seq<u8>, EscapeError>
    decreases s.len(),
{
    if s.len() == 0 {
        Ok(Seq::empty())
    } else if s[0] != BACKSLASH {
        cons(s[0], unescape(s.skip(1)))
    } else if s.len() == 1 {
        Err(EscapeError::Incomplete)
    } else {
        match unescape_letter(s[1]) {
            Some(b) => cons(b, unescape(s.skip(2))),
            None => Err(EscapeError::Invalid),
        }
    }
}

/// Unescaping an escaped byte string gives the byte string back.
pub proof fn lemma_escape_roundtrip(s: Seq<u8>)
    ensures
        unescape(escape(s)) == Ok::<Seq<u8>, EscapeError>(s),
    decreases s.len(),
{
    if s.len() > 0 {
        let rest = escape(s.skip(1));
        let e = escape(s);
        lemma_escape_roundtrip(s.skip(1));
        if is_special(s[0]) {
            assert(e.skip(2) =~= rest);
        } else {
            assert(e.skip(1) =~= rest);
        }
        assert(seq![s[0]] + s.skip(1) =~= s);
        assert(e[0] == (if is_special(s[0]) { BACKSLASH } else { s[0] }));
        if is_special(s[0]) {
            assert(e[1] == escape_letter(s[0]));
            assert(unescape_letter(e[1]) == Some(s[0]));
        }
    } else {
        assert(s =~= Seq::<u8>::empty());
    }
}

/// For every text, unescaping its escaped form gives its bytes back, and
/// they decode to the text.
pub proof fn lemma_text_roundtrip(t: Seq<char>)
    ensures
        unescape(escape(encode_utf8(t))) == Ok::<Seq<u8>, EscapeError>(encode_utf8(t)),
        valid_utf8(encode_utf8(t)),
        decode_utf8(encode_utf8(t)) == t,
{
    lemma_escape_roundtrip(encode_utf8(t));
    encode_utf8_valid_utf8(t);
    encode_utf8_decode_utf8(t);
}

/// Escaped text holds no line feed, carriage return or colon.
pub proof fn lemma_escape_clean(s: Seq<u8>)
    ensures
        forall|i: int|
            0 <= i < escape(s).len() ==> escape(s)[i] != LF && escape(s)[i] != CR && escape(s)[i]
                != COLON,
    decreases s.len(),
{
    if s.len() > 0 {
        lemma_escape_clean(s.skip(1));
        let head = escape_byte(s[0]);
        let rest = escape(s.skip(1));
        assert forall|i: int| 0 <= i < escape(s).len() implies escape(s)[i] != LF && escape(s)[i]
            != CR && escape(s)[i] != COLON by {
            if i >= head.len() {
                assert(escape(s)[i] == rest[i - head.len()]);
            }
        }
    }
}

/// A byte string without special bytes is its own wire form.
pub proof fn lemma_escape_plain(s: Seq<u8>)
    requires
        forall|i: int| 0 <= i < s.len() ==> !is_special(s[i]),
    ensures
        escape(s) == s,
    decreases s.len(),
{
    if s.len() > 0 {
        lemma_escape_plain(s.skip(1));
        assert(seq![s[0]] + s.skip(1) =~= s);
    }
}

/// A byte string with a special byte has a backslash in its wire form.
pub proof fn lemma_escape_marks(s: Seq<u8>, at: int)
    requires
        0 <= at < s.len(),
        is_special(s[at]),
    ensures
        exists|j: int| 0 <= j < escape(s).len() && escape(s)[j] == BACKSLASH,
    decreases s.len(),
{
    let head = escape_byte(s[0]);
    let rest = escape(s.skip(1));
    if is_special(s[0]) {
        assert(escape(s)[0] == BACKSLASH);
    } else {
        lemma_escape_marks(s.skip(1), at - 1);
        let j = choose|j: int| 0 <= j < rest.len() && rest[j] == BACKSLASH;
        assert(escape(s)[j + 1] == rest[j]);
    }
}

/// Escapes a header name or value for the wire.
pub fn escape_header_value(input: &str) -> (out: Vec<u8>)
    ensures
        out@ == escape(input.spec_bytes()),
{
    let bytes = input.as_bytes();
    let mut out: Vec<u8> = Vec::new();
    let mut i: usize = 0;
    assert(bytes@.skip(0) =~= bytes@);
    while i < bytes.len()
        invariant
            0 <= i <= bytes@.len(),
            escape(bytes@) == out@ + escape(bytes@.skip(i as int)),
        decreases bytes@.len() - i,
    {
        let b = bytes[i];
        let ghost before = out@;
        let ghost tail = bytes@.skip(i as int);
        assert(tail.skip(1) =~= bytes@.skip(i + 1));
        assert(tail[0] == b);
        if b == BACKSLASH {
            out.push(BACKSLASH);
            out.push(BACKSLASH);
        } else if b == CR {
            out.push(BACKSLASH);
            out.push(0x72);
        } else if b == LF {
            out.push(BACKSLASH);
            out.push(0x6E);
        } else if b == COLON {
            out.push(BACKSLASH);
            out.push(0x63);
        } else {
            out.push(b);
        }
        assert(out@ =~= before + escape_byte(b));
        assert(before + (escape_byte(b) + escape(tail.skip(1))) =~= (before + escape_byte(b))
            + escape(tail.skip(1)));
        i = i + 1;
    }
    assert(out@ + escape(bytes@.skip(i as int)) =~= out@);
    out
}

/// Puts `done` in front of a successful result; an error passes through.
pub open spec fn snoc(done: Seq<u8>, rest: Result<Seq<u8>, EscapeError>) -> Result<
    Seq<u8>,
    EscapeError,
> {
    match rest {
        Ok(r) => Ok(done + r),
        Err(e) => Err(e),
    }
}

/// Reverses `escape_header_value` on wire bytes.
pub fn unescape_header_value(input: &[u8]) -> (r: Result<Vec<u8>, EscapeError>)
    ensures
        match r {
            Ok(v) => unescape(input@) == Ok::<Seq<u8>, EscapeError>(v@),
            Err(e) => unescape(input@) == Err::<Seq<u8>, EscapeError>(e),
        },
{
    let mut out: Vec<u8> = Vec::new();
    let mut i: usize = 0;
    assert(input@.skip(0) =~= input@);
    assert(snoc(out@, unescape(input@)) == unescape(input@)) by {
        match unescape(input@) {
            Ok(r) => {
                assert(out@ + r =~= r);
            },
            Err(_) => {},
        }
    }
    while i < input.len()
        invariant
            0 <= i <= input@.len(),
            unescape(input@) == snoc(out@, unescape(input@.skip(i as int))),
        decreases input@.len() - i,
    {
        let b = input[i];
        let ghost before = out@;
        let ghost tail = input@.skip(i as int);
        assert(tail[0] == b);
        if b != BACKSLASH {
            out.push(b);
            assert(tail.skip(1) =~= input@.skip(i + 1));
            assert(snoc(before, unescape(tail)) == snoc(out@, unescape(tail.skip(1)))) by {
                match unescape(tail.skip(1)) {
                    Ok(r) => {
                        assert(before + (seq![b] + r) =~= out@ + r);
                    },
                    Err(_) => {},
                }
            }
            i = i + 1;
        } else if i + 1 >= input.len() {
            assert(tail.len() == 1);
            return Err(EscapeError::Incomplete);
        } else {
            let c = input[i + 1];
            assert(tail[1] == c);
            let raw: u8 = if c == BACKSLASH {
                BACKSLASH
            } else if c == 0x72 {
                CR
            } else if c == 0x6E {
                LF
            } else if c == 0x63 {
                COLON
            } else {
                return Err(EscapeError::Invalid);
            };
            out.push(raw);
            assert(tail.skip(2) =~= input@.skip(i + 2));
            assert(snoc(before, unescape(tail)) == snoc(out@, unescape(tail.skip(2)))) by {
                match unescape(tail.skip(2)) {
                    Ok(r) => {
                        assert(before + (seq![raw] + r) =~= out@ + r);
                    },
                    Err(_) => {},
                }
            }
            i = i + 2;
        }
    }
    assert(out@ + Seq::<u8>::empty() =~= out@);
    Ok(out)
}

} // verus!
