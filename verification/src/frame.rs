//! The frame value: a command, an ordered header list and a body.

use vstd::prelude::*;
use vstd::string::*;
use vstd::utf8::*;
use crate::number::{decimal, decimal_bytes, lemma_decimal, is_digit};
use crate::scan::{copy_range, eq_ignore_case, same_name};
use crate::text::{all_ascii, ascii_string, ascii_text, str_eq};

verus! {

/// Anything that can be handed over where owned text is wanted.
pub trait IntoText: Sized {
    /// The characters this value stands for.
    spec fn text(self) -> Seq<char>;

    /// Gives the owned string with exactly those characters.
    fn into_text(self) -> (s: String)
        ensures
            s@ == self.text(),
    ;
}

impl<'a> IntoText for &'a str {
    open spec fn text(self) -> Seq<char> {
        self@
    }

    fn into_text(self) -> (s: String) {
        self.to_owned()
    }
}

impl IntoText for String {
    open spec fn text(self) -> Seq<char> {
        self@
    }

    fn into_text(self) -> (s: String) {
        self
    }
}

impl<'a> IntoText for &'a String {
    open spec fn text(self) -> Seq<char> {
        self@
    }

    fn into_text(self) -> (s: String) {
        self.clone()
    }
}

/// One protocol unit. Headers keep insertion order and may repeat.
#[derive(Debug, Clone, PartialEq, Eq)]
pub struct Frame {
    pub command: String,
    pub headers: Vec<(String, String)>,
    pub body: Vec<u8>,
}

/// The mathematical content of a frame.
pub struct FrameView {
    pub command: Seq<char>,
    pub headers: Seq<(Seq<char>, Seq<char>)>,
    pub body: Seq<u8>,
}

/// Views a header list as pairs of character sequences.
pub open spec fn headers_view(h: Seq<(String, String)>) -> Seq<(Seq<char>, Seq<char>)> {
    Seq::new(h.len(), |i: int| (h[i].0@, h[i].1@))
}

impl View for Frame {
    type V = FrameView;

    open spec fn view(&self) -> FrameView {
        FrameView { command: self.command@, headers: headers_view(self.headers@), body: self.body@ }
    }
}

/// The value of the first header named exactly `key`.
pub open spec fn first_value(hs: Seq<(Seq<char>, Seq<char>)>, key: Seq<char>) -> Option<Seq<char>>
    decreases hs.len(),
{
    if hs.len() == 0 {
        None
    } else if hs[0].0 == key {
        Some(hs[0].1)
    } else {
        first_value(hs.skip(1), key)
    }
}

/// Whether `key` is `name` up to ASCII case.
pub open spec fn named(key: Seq<char>, name: Seq<char>) -> bool {
    same_name(encode_utf8(key), encode_utf8(name))
}

/// Compares a header name with `name` without regard to ASCII case.
pub fn is_named(key: &str, name: &str) -> (r: bool)
    ensures
        r == named(key@, name@),
{
    eq_ignore_case(key.as_bytes(), name.as_bytes())
}

/// The value of the first header whose name is `name` up to ASCII case.
pub open spec fn first_named(hs: Seq<(Seq<char>, Seq<char>)>, name: Seq<char>) -> Option<
    Seq<char>,
>
    decreases hs.len(),
{
    if hs.len() == 0 {
        None
    } else if named(hs[0].0, name) {
        Some(hs[0].1)
    } else {
        first_named(hs.skip(1), name)
    }
}

/// The diagnostic lines of a header list: `name: value` and a line feed each.
pub open spec fn header_lines(hs: Seq<(Seq<char>, Seq<char>)>) -> Seq<char>
    decreases hs.len(),
{
    if hs.len() == 0 {
        Seq::empty()
    } else {
        hs[0].0 + ": "@ + hs[0].1 + "\n"@ + header_lines(hs.skip(1))
    }
}

/// The diagnostic rendering of a frame.
pub open spec fn frame_text(f: FrameView) -> Seq<char> {
    "Command: "@ + f.command + "\n"@ + header_lines(f.headers) + "Body ("@ + ascii_text(
        decimal(f.body.len()),
    ) + " bytes)\n"@
}

/// Copies a header list.
pub fn copy_headers(hs: &Vec<(String, String)>) -> (r: Vec<(String, String)>)
    ensures
        headers_view(r@) == headers_view(hs@),
{
    let mut r: Vec<(String, String)> = Vec::new();
    let mut i: usize = 0;
    while i < hs.len()
        invariant
            0 <= i <= hs@.len(),
            r@.len() == i,
            forall|j: int| 0 <= j < i ==> r@[j].0@ == hs@[j].0@ && r@[j].1@ == hs@[j].1@,
        decreases hs@.len() - i,
    {
        r.push((hs[i].0.clone(), hs[i].1.clone()));
        i = i + 1;
    }
    assert(headers_view(r@) =~= headers_view(hs@));
    r
}

impl Frame {
    /// A frame with the given command, no headers and an empty body.
    pub fn new(command: impl IntoText) -> (r: Frame)
        ensures
            r@.command == command.text(),
            r@.headers == Seq::<(Seq<char>, Seq<char>)>::empty(),
            r@.body == Seq::<u8>::empty(),
    {
        let r = Frame { command: command.into_text(), headers: Vec::new(), body: Vec::new() };
        assert(r@.headers =~= Seq::<(Seq<char>, Seq<char>)>::empty());
        r
    }

    /// Appends a header; earlier headers, also of the same name, stay.
    pub fn header(self, key: impl IntoText, value: impl IntoText) -> (r: Frame)
        ensures
            r@.command == self@.command,
            r@.headers == self@.headers.push((key.text(), value.text())),
            r@.body == self@.body,
    {
        let mut f = self;
        f.headers.push((key.into_text(), value.into_text()));
        assert(f@.headers =~= self@.headers.push((key.text(), value.text())));
        f
    }

    /// Replaces the body.
    pub fn set_body(self, body: Vec<u8>) -> (r: Frame)
        ensures
            r@.command == self@.command,
            r@.headers == self@.headers,
            r@.body == body@,
    {
        let mut f = self;
        f.body = body;
        f
    }

    /// Asks for a receipt: appends a `receipt` header with the given id.
    pub fn receipt(self, id: impl IntoText) -> (r: Frame)
        ensures
            r@.command == self@.command,
            r@.headers == self@.headers.push(("receipt"@, id.text())),
            r@.body == self@.body,
    {
        self.header("receipt", id)
    }

    /// The value of the first header named exactly `key`.
    pub fn get_header(&self, key: &str) -> (r: Option<&str>)
        ensures
            match r {
                Some(v) => first_value(self@.headers, key@) == Some(v@),
                None => first_value(self@.headers, key@) is None,
            },
    {
        let ghost all = self@.headers;
        let mut i: usize = 0;
        assert(all.skip(0) =~= all);
        while i < self.headers.len()
            invariant
                0 <= i <= self.headers@.len(),
                all == self@.headers,
                first_value(all, key@) == first_value(all.skip(i as int), key@),
            decreases self.headers@.len() - i,
        {
            let ghost rest = all.skip(i as int);
            assert(rest[0] == all[i as int]);
            assert(rest.skip(1) =~= all.skip(i + 1));
            if str_eq(self.headers[i].0.as_str(), key) {
                return Some(self.headers[i].1.as_str());
            }
            i = i + 1;
        }
        None
    }

    /// The value of the first header whose name is `name` up to ASCII case.
    pub fn header_named(&self, name: &str) -> (r: Option<&str>)
        ensures
            match r {
                Some(v) => first_named(self@.headers, name@) == Some(v@),
                None => first_named(self@.headers, name@) is None,
            },
    {
        let ghost all = self@.headers;
        let mut i: usize = 0;
        assert(all.skip(0) =~= all);
        while i < self.headers.len()
            invariant
                0 <= i <= self.headers@.len(),
                all == self@.headers,
                first_named(all, name@) == first_named(all.skip(i as int), name@),
            decreases self.headers@.len() - i,
        {
            let ghost rest = all.skip(i as int);
            assert(rest[0] == all[i as int]);
            assert(rest.skip(1) =~= all.skip(i + 1));
            if is_named(self.headers[i].0.as_str(), name) {
                return Some(self.headers[i].1.as_str());
            }
            i = i + 1;
        }
        None
    }

    /// A frame with the same content.
    pub fn copy(&self) -> (r: Frame)
        ensures
            r@ == self@,
    {
        let body = copy_range(self.body.as_slice(), 0, self.body.len());
        assert(body@ =~= self.body@);
        Frame { command: self.command.clone(), headers: copy_headers(&self.headers), body }
    }

    /// Renders the frame for a diagnostic: the command, each header, and
    /// the length of the body.
    pub fn to_string(&self) -> (s: String)
        ensures
            s@ == frame_text(self@),
    {
        let ghost all = self@.headers;
        let mut s = "Command: ".to_owned();
        s.append(self.command.as_str());
        s.append("\n");
        let ghost head = s@;
        let ghost mut lines: Seq<char> = Seq::empty();
        let mut i: usize = 0;
        assert(all.skip(0) =~= all);
        assert(head + lines =~= head);
        while i < self.headers.len()
            invariant
                0 <= i <= self.headers@.len(),
                all == self@.headers,
                s@ == head + lines,
                header_lines(all) == lines + header_lines(all.skip(i as int)),
            decreases self.headers@.len() - i,
        {
            let ghost rest = all.skip(i as int);
            assert(rest[0] == all[i as int]);
            assert(rest.skip(1) =~= all.skip(i + 1));
            s.append(self.headers[i].0.as_str());
            s.append(": ");
            s.append(self.headers[i].1.as_str());
            s.append("\n");
            proof {
                let line = rest[0].0 + ": "@ + rest[0].1 + "\n"@;
                let before = lines;
                lines = lines + line;
                assert(s@ =~= head + lines);
                assert(before + (line + header_lines(rest.skip(1))) =~= lines + header_lines(
                    rest.skip(1),
                ));
            }
            i = i + 1;
        }
        assert(lines + header_lines(all.skip(i as int)) =~= lines);
        let digits = decimal_bytes(self.body.len() as u64);
        proof {
            lemma_decimal(self.body@.len());
            assert(all_ascii(digits@)) by {
                assert forall|j: int| 0 <= j < digits@.len() implies #[trigger] digits@[j]
                    < 0x80 by {
                    assert(is_digit(digits@[j]));
                }
            }
        }
        let count = ascii_string(digits.as_slice());
        s.append("Body (");
        s.append(count.as_str());
        s.append(" bytes)\n");
        assert(s@ =~= frame_text(self@));
        s
    }
}

} // verus!
