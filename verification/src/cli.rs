//! Decisions of the command-line client that need no terminal: exit codes,
//! the wording of connection errors, the heartbeat indicator and the
//! command history.

use vstd::prelude::*;
use vstd::string::*;
use vstd::utf8::*;
use crate::error::{io_error_text, ConnError};
use crate::scan::{eq_bytes, find_byte, find_from};
use vstd::slice::slice_subrange;

verus! {

/// Exit code of a run without error.
pub const SUCCESS: u8 = 0;

/// Exit code of a network error.
pub const NETWORK_ERROR: u8 = 1;

/// Exit code of a refusal by the server.
pub const AUTH_ERROR: u8 = 2;

/// Exit code of a protocol error.
pub const PROTOCOL_ERROR: u8 = 3;

/// What a command did.
#[derive(Debug)]
pub enum CommandResult {
    /// It ran.
    Done,
    /// It asks to leave.
    Quit,
    /// It has something to say.
    Info(String),
    /// It failed.
    Error(String),
}

/// What was counted for one destination.
#[derive(Debug, Clone)]
pub struct SubStats {
    /// The number of messages received.
    pub message_count: u64,
}

impl Default for SubStats {
    fn default() -> (r: SubStats)
        ensures
            r.message_count == 0,
    {
        SubStats { message_count: 0 }
    }
}

/// The kinds of transport error that get a wording of their own.
#[derive(Debug, Clone, Copy, PartialEq, Eq, Structural)]
pub enum IoKind {
    Refused,
    TimedOut,
    Other,
}

/// `std::io::Error::kind`, reduced to the kinds told apart here.
#[verifier::external_body]
pub(crate) fn io_error_kind(e: &std::io::Error) -> (k: IoKind) {
    match e.kind() {
        std::io::ErrorKind::ConnectionRefused => IoKind::Refused,
        std::io::ErrorKind::TimedOut => IoKind::TimedOut,
        _ => IoKind::Other,
    }
}

/// The exit code that goes with a connection error.
pub open spec fn exit_code(err: ConnError) -> u8 {
    match err {
        ConnError::Io(_) => NETWORK_ERROR,
        ConnError::ServerRejected(_) => AUTH_ERROR,
        ConnError::Protocol(_) => PROTOCOL_ERROR,
        ConnError::ReceiptTimeout(_) => PROTOCOL_ERROR,
    }
}

/// Whether `s` words the error for the user. A transport error is worded
/// by its kind: refused or timed out with the address, or failed with the
/// transport's own wording.
pub open spec fn user_wording(err: ConnError, address: Seq<char>, s: Seq<char>) -> bool {
    match err {
        ConnError::Io(_) => {
            ||| s == "Connection refused: "@ + address
            ||| s == "Connection timed out: "@ + address
            ||| "Connection failed: "@.is_prefix_of(s)
        },
        ConnError::ServerRejected(e) => s == "Authentication failed: "@ + e.message@ + (match e.body {
            Some(b) => " ("@ + b@ + ")"@,
            None => Seq::empty(),
        }),
        ConnError::Protocol(m) => s == "Protocol error: "@ + m@,
        ConnError::ReceiptTimeout(id) => s == "Receipt timeout: "@ + id@,
    }
}

/// Words a connection error for the user and picks the exit code.
pub fn format_connection_error_pub(err: &ConnError, address: &str) -> (r: (String, u8))
    ensures
        r.1 == exit_code(*err),
        user_wording(*err, address@, r.0@),
{
    match err {
        ConnError::Io(e) => {
            let message = match io_error_kind(e) {
                IoKind::Refused => {
                    let mut s = "Connection refused: ".to_owned();
                    s.append(address);
                    s
                },
                IoKind::TimedOut => {
                    let mut s = "Connection timed out: ".to_owned();
                    s.append(address);
                    s
                },
                IoKind::Other => {
                    let mut s = "Connection failed: ".to_owned();
                    let t = io_error_text(e);
                    s.append(t.as_str());
                    assert(s@.subrange(0, "Connection failed: "@.len() as int)
                        =~= "Connection failed: "@);
                    s
                },
            };
            (message, NETWORK_ERROR)
        },
        ConnError::ServerRejected(e) => {
            let mut s = "Authentication failed: ".to_owned();
            s.append(e.message.as_str());
            match &e.body {
                Some(b) => {
                    let ghost head = s@;
                    s.append(" (");
                    s.append(b.as_str());
                    s.append(")");
                    assert(s@ =~= head + (" ("@ + b@ + ")"@));
                },
                None => {
                    assert(s@ + Seq::<char>::empty() =~= s@);
                },
            }
            (s, AUTH_ERROR)
        },
        ConnError::Protocol(m) => {
            let mut s = "Protocol error: ".to_owned();
            s.append(m.as_str());
            (s, PROTOCOL_ERROR)
        },
        ConnError::ReceiptTimeout(id) => {
            let mut s = "Receipt timeout: ".to_owned();
            s.append(id.as_str());
            (s, PROTOCOL_ERROR)
        },
    }
}

/// Words a connection error for the user and picks the exit code.
pub fn format_connection_error(err: &ConnError, address: &str) -> (r: (String, u8))
    ensures
        r.1 == exit_code(*err),
        user_wording(*err, address@, r.0@),
{
    format_connection_error_pub(err, address)
}

/// The heartbeat indicator and whether it pulses: a star for a second
/// after a heartbeat, a diamond while heartbeats are on time, a warning
/// once twice the interval has passed, a circle before the first one.
pub fn heartbeat_indicator(elapsed_ms: Option<u32>, interval_ms: u32) -> (r: (&'static str, bool))
    ensures
        match elapsed_ms {
            None => r.0@ == "\u{25cb}"@ && !r.1,
            Some(e) => if e < 1000 {
                r.0@ == "\u{2726}"@ && r.1
            } else if e < 2 * interval_ms {
                r.0@ == "\u{25c7}"@ && !r.1
            } else {
                r.0@ == "!"@ && !r.1
            },
        },
{
    match elapsed_ms {
        None => ("\u{25cb}", false),
        Some(e) => {
            if e < 1000 {
                ("\u{2726}", true)
            } else if (e as u64) < 2 * (interval_ms as u64) {
                ("\u{25c7}", false)
            } else {
                ("!", false)
            }
        },
    }
}

/// Text cut down for a column of `max_len` bytes: the text itself when it
/// fits, dots alone for a column of three bytes or less, and else the
/// first `max_len - 3` bytes and three dots.
pub open spec fn truncated(s: Seq<u8>, max_len: int) -> Seq<u8> {
    if s.len() <= max_len {
        s
    } else if max_len <= 3 {
        Seq::new(max_len as nat, |i: int| 0x2Eu8)
    } else {
        s.subrange(0, max_len - 3) + seq![0x2Eu8, 0x2Eu8, 0x2Eu8]
    }
}

/// Cuts text down to `max_len` bytes, with three dots where it was cut.
/// The cut may not fall inside a character.
pub fn truncate_str(s: &str, max_len: usize) -> (r: String)
    requires
        s.spec_bytes().len() > max_len && max_len > 3 ==> s.is_char_boundary(
            (max_len - 3) as usize,
        ),
    ensures
        encode_utf8(r@) == truncated(s.spec_bytes(), max_len as int),
{
    if s.as_bytes().len() <= max_len {
        s.to_owned()
    } else if max_len <= 3 {
        let mut r = String::new();
        let mut i: usize = 0;
        proof {
            reveal_strlit(".");
            assert("."@ =~= seq!['.']);
            assert(encode_utf8(Seq::<char>::empty()) =~= Seq::<u8>::empty());
        }
        while i < max_len
            invariant
                0 <= i <= max_len,
                r@ == Seq::new(i as nat, |j: int| '.'),
                "."@ == seq!['.'],
            decreases max_len - i,
        {
            r.append(".");
            assert(r@ =~= Seq::new((i + 1) as nat, |j: int| '.'));
            i = i + 1;
        }
        proof {
            let dots = Seq::new(max_len as nat, |j: int| '.');
            assert(r@ =~= dots);
            assert(is_ascii_chars(dots));
            is_ascii_chars_encode_utf8(dots);
            assert forall|j: int| 0 <= j < max_len implies encode_utf8(dots)[j] == 0x2E by {
                assert(dots[j] as u8 == encode_utf8(dots)[j]);
            }
            assert(encode_utf8(dots) =~= truncated(s.spec_bytes(), max_len as int));
        }
        r
    } else {
        let (head, _) = s.split_at(max_len - 3);
        let mut r = head.to_owned();
        r.append("...");
        proof {
            reveal_strlit("...");
            let dots = "..."@;
            assert(dots =~= seq!['.', '.', '.']);
            assert(is_ascii_chars(dots));
            is_ascii_chars_encode_utf8(dots);
            assert(dots[0] as u8 == 0x2E && dots[1] as u8 == 0x2E && dots[2] as u8 == 0x2E);
            assert(encode_utf8(dots) =~= seq![0x2Eu8, 0x2Eu8, 0x2Eu8]);
            lemma_encode_concat(head@, dots);
            assert(r@ == head@ + dots);
            assert(head.spec_bytes() == encode_utf8(head@));
            assert(encode_utf8(r@) =~= truncated(s.spec_bytes(), max_len as int));
        }
        r
    }
}

/// The encoding of two pieces of text in a row.
pub proof fn lemma_encode_concat(a: Seq<char>, b: Seq<char>)
    ensures
        encode_utf8(a + b) == encode_utf8(a) + encode_utf8(b),
    decreases a.len(),
{
    if a.len() == 0 {
        assert(a + b =~= b);
        assert(encode_utf8(a) + encode_utf8(b) =~= encode_utf8(b));
    } else {
        lemma_encode_concat(a.drop_first(), b);
        assert((a + b).drop_first() =~= a.drop_first() + b);
        assert((a + b)[0] == a[0]);
        assert(encode_scalar(a[0] as u32) + (encode_utf8(a.drop_first()) + encode_utf8(b))
            =~= (encode_scalar(a[0] as u32) + encode_utf8(a.drop_first())) + encode_utf8(b));
    }
}

/// The commands entered so far and the place in them while browsing.
pub struct History {
    /// The commands, oldest first.
    pub entries: Vec<String>,
    /// The entry shown while browsing.
    pub index: Option<usize>,
    /// The input as it was before browsing began.
    pub saved: String,
}

/// Views a list of commands.
pub open spec fn commands_view(v: Seq<String>) -> Seq<Seq<char>> {
    Seq::new(v.len(), |i: int| v[i]@)
}

impl History {
    /// While browsing, the index names an entry.
    pub open spec fn wf(&self) -> bool {
        match self.index {
            Some(i) => i < self.entries@.len(),
            None => true,
        }
    }

    /// An empty history.
    pub fn new() -> (r: History)
        ensures
            r.wf(),
            r.entries@.len() == 0,
            r.index is None,
            r.saved@.len() == 0,
    {
        History { entries: Vec::new(), index: None, saved: String::new() }
    }

    /// Records a command, unless it is empty or repeats the last one, and
    /// ends browsing.
    pub fn add_to_history(&mut self, cmd: &str)
        requires
            old(self).wf(),
        ensures
            final(self).wf(),
            final(self).index is None,
            final(self).saved@.len() == 0,
            commands_view(final(self).entries@) == (if cmd@.len() == 0 || (old(
                self,
            ).entries@.len() > 0 && old(self).entries@.last()@ == cmd@) {
                commands_view(old(self).entries@)
            } else {
                commands_view(old(self).entries@).push(cmd@)
            }),
    {
        let n = self.entries.len();
        let ghost before = commands_view(self.entries@);
        if !cmd.is_empty() {
            let repeats = n > 0 && crate::text::str_eq(self.entries[n - 1].as_str(), cmd);
            if !repeats {
                self.entries.push(cmd.to_owned());
                assert(commands_view(self.entries@) =~= before.push(cmd@));
            }
        }
        self.index = None;
        self.saved = String::new();
    }

    /// Steps back to the previous command. The first step keeps the
    /// current input aside. Gives the input to show, or nothing at the
    /// oldest entry or without entries.
    pub fn history_prev(&mut self, input: &str) -> (shown: Option<String>)
        requires
            old(self).wf(),
        ensures
            final(self).wf(),
            final(self).entries == old(self).entries,
            match old(self).index {
                None => if old(self).entries@.len() == 0 {
                    shown is None && final(self).index is None && final(self).saved == old(
                        self,
                    ).saved
                } else {
                    &&& final(self).index == Some((old(self).entries@.len() - 1) as usize)
                    &&& final(self).saved@ == input@
                    &&& shown matches Some(s) && s@ == old(self).entries@.last()@
                },
                Some(i) => if i > 0 {
                    &&& final(self).index == Some((i - 1) as usize)
                    &&& final(self).saved == old(self).saved
                    &&& shown matches Some(s) && s@ == old(self).entries@[i - 1]@
                } else {
                    shown is None && final(self).index == Some(0usize) && final(self).saved
                        == old(self).saved
                },
            },
    {
        if self.entries.len() == 0 {
            return None;
        }
        match self.index {
            None => {
                self.saved = input.to_owned();
                let at = self.entries.len() - 1;
                self.index = Some(at);
                Some(self.entries[at].clone())
            },
            Some(i) => {
                if i > 0 {
                    self.index = Some(i - 1);
                    Some(self.entries[i - 1].clone())
                } else {
                    None
                }
            },
        }
    }

    /// Steps forward to the next command, or past the newest one back to
    /// the input kept aside. Gives the input to show, or nothing when not
    /// browsing.
    pub fn history_next(&mut self) -> (shown: Option<String>)
        requires
            old(self).wf(),
        ensures
            final(self).wf(),
            final(self).entries == old(self).entries,
            final(self).saved == old(self).saved,
            match old(self).index {
                None => shown is None && final(self).index is None,
                Some(i) => if i + 1 < old(self).entries@.len() {
                    &&& final(self).index == Some((i + 1) as usize)
                    &&& shown matches Some(s) && s@ == old(self).entries@[i + 1]@
                } else {
                    &&& final(self).index is None
                    &&& shown matches Some(s) && s@ == old(self).saved@
                },
            },
    {
        match self.index {
            None => None,
            Some(i) => {
                assert(i < self.entries@.len());
                if self.entries.len() - i > 1 {
                    self.index = Some(i + 1);
                    Some(self.entries[i + 1].clone())
                } else {
                    self.index = None;
                    Some(self.saved.clone())
                }
            },
        }
    }
}

pub const SPACE: u8 = 0x20;

/// What the first word of a line asks for.
#[derive(Debug, Clone, Copy, PartialEq, Eq, Structural)]
pub enum Verb {
    Nothing,
    Quit,
    Send,
    Subscribe,
    About,
    Summary,
    Report,
    Clear,
    Help,
    Unknown,
}

/// A range of bytes of the line.
#[derive(Debug, Clone, Copy, PartialEq, Eq, Structural)]
pub struct Span {
    pub start: usize,
    pub end: usize,
}

/// A line of input, understood.
#[derive(Debug, Clone, Copy, PartialEq, Eq, Structural)]
pub enum Command {
    /// An empty line.
    Nothing,
    /// Leave.
    Quit,
    /// Send the message to the destination; `common` tells whether the
    /// destination starts like the usual ones.
    Send { destination: Span, message: Span, common: bool },
    /// Subscribe to the destination.
    Subscribe { destination: Span, common: bool },
    /// Show version and license.
    About,
    /// Show the session summary, or write it to the file named.
    Summary(Option<Span>),
    /// Show the full report, or write it to the file named.
    Report(Option<Span>),
    /// Forget the messages shown.
    Clear,
    /// Show the commands.
    Help,
    /// `send` or `sub` without what it needs.
    Usage(Verb),
    /// A destination that does not start with a slash.
    BadDestination(Span),
    /// A word that is no command.
    Unknown(Span),
}

/// Whether `word` spells `name`.
pub open spec fn spells(word: Seq<u8>, name: &str) -> bool {
    word == name.spec_bytes()
}

/// The verb that a word stands for.
pub open spec fn verb_of(word: Seq<u8>) -> Verb {
    if word.len() == 0 {
        Verb::Nothing
    } else if spells(word, "quit") || spells(word, "exit") || spells(word, "q") {
        Verb::Quit
    } else if spells(word, "send") {
        Verb::Send
    } else if spells(word, "sub") || spells(word, "subscribe") {
        Verb::Subscribe
    } else if spells(word, "about") {
        Verb::About
    } else if spells(word, "summary") {
        Verb::Summary
    } else if spells(word, "report") {
        Verb::Report
    } else if spells(word, "clear") {
        Verb::Clear
    } else if spells(word, "help") || spells(word, "?") {
        Verb::Help
    } else {
        Verb::Unknown
    }
}

/// Whether `d` starts with `p`.
pub open spec fn starts_with(d: Seq<u8>, p: Seq<u8>) -> bool {
    p.len() <= d.len() && d.subrange(0, p.len() as int) == p
}

/// Whether a destination starts like the usual ones.
pub open spec fn common_destination(d: Seq<u8>) -> bool {
    ||| starts_with(d, "/topic/".spec_bytes())
    ||| starts_with(d, "/queue/".spec_bytes())
    ||| starts_with(d, "/amq/".spec_bytes())
    ||| starts_with(d, "/exchange/".spec_bytes())
}

/// The parts of a line: it is split at its first two spaces, so that the
/// third part keeps its spaces.
pub open spec fn parts_of(line: Seq<u8>) -> Seq<(int, int)> {
    let a = find_from(line, SPACE, 0);
    if a >= line.len() {
        seq![(0int, line.len() as int)]
    } else {
        let b = find_from(line, SPACE, a + 1);
        if b >= line.len() {
            seq![(0int, a), (a + 1, line.len() as int)]
        } else {
            seq![(0int, a), (a + 1, b), (b + 1, line.len() as int)]
        }
    }
}

/// A part as a span.
pub open spec fn span(p: (int, int)) -> Span {
    Span { start: p.0 as usize, end: p.1 as usize }
}

/// The bytes of a part.
pub open spec fn part(line: Seq<u8>, p: (int, int)) -> Seq<u8> {
    line.subrange(p.0, p.1)
}

/// What a line asks for. `send` needs a destination and a message, `sub` a
/// destination; a destination starts with a slash; `summary` and `report`
/// may name a file.
pub open spec fn command_of(line: Seq<u8>) -> Command {
    let parts = parts_of(line);
    match verb_of(part(line, parts[0])) {
        Verb::Nothing => Command::Nothing,
        Verb::Quit => Command::Quit,
        Verb::Send => if parts.len() < 3 {
            Command::Usage(Verb::Send)
        } else if !starts_with(part(line, parts[1]), seq![0x2Fu8]) {
            Command::BadDestination(span(parts[1]))
        } else {
            Command::Send {
                destination: span(parts[1]),
                message: span(parts[2]),
                common: common_destination(part(line, parts[1])),
            }
        },
        Verb::Subscribe => if parts.len() < 2 {
            Command::Usage(Verb::Subscribe)
        } else if !starts_with(part(line, parts[1]), seq![0x2Fu8]) {
            Command::BadDestination(span(parts[1]))
        } else {
            Command::Subscribe {
                destination: span(parts[1]),
                common: common_destination(part(line, parts[1])),
            }
        },
        Verb::About => Command::About,
        Verb::Summary => Command::Summary(
            if parts.len() >= 2 {
                Some(span(parts[1]))
            } else {
                None
            },
        ),
        Verb::Report => Command::Report(
            if parts.len() >= 2 {
                Some(span(parts[1]))
            } else {
                None
            },
        ),
        Verb::Clear => Command::Clear,
        Verb::Help => Command::Help,
        Verb::Unknown => Command::Unknown(span(parts[0])),
    }
}

fn is_word(word: &[u8], name: &str) -> (r: bool)
    ensures
        r == spells(word@, name),
{
    eq_bytes(word, name.as_bytes())
}

/// Tells the verb of a word.
pub fn classify(word: &[u8]) -> (v: Verb)
    ensures
        v == verb_of(word@),
{
    if word.len() == 0 {
        Verb::Nothing
    } else if is_word(word, "quit") || is_word(word, "exit") || is_word(word, "q") {
        Verb::Quit
    } else if is_word(word, "send") {
        Verb::Send
    } else if is_word(word, "sub") || is_word(word, "subscribe") {
        Verb::Subscribe
    } else if is_word(word, "about") {
        Verb::About
    } else if is_word(word, "summary") {
        Verb::Summary
    } else if is_word(word, "report") {
        Verb::Report
    } else if is_word(word, "clear") {
        Verb::Clear
    } else if is_word(word, "help") || is_word(word, "?") {
        Verb::Help
    } else {
        Verb::Unknown
    }
}

/// Tests whether `d` starts with `p`.
pub fn has_prefix(d: &[u8], p: &[u8]) -> (r: bool)
    ensures
        r == starts_with(d@, p@),
{
    if p.len() > d.len() {
        return false;
    }
    eq_bytes(slice_subrange(d, 0, p.len()), p)
}

/// Tests whether a destination starts like the usual ones.
pub fn is_common_destination(d: &[u8]) -> (r: bool)
    ensures
        r == common_destination(d@),
{
    has_prefix(d, "/topic/".as_bytes()) || has_prefix(d, "/queue/".as_bytes()) || has_prefix(
        d,
        "/amq/".as_bytes(),
    ) || has_prefix(d, "/exchange/".as_bytes())
}

/// Understands one line of input, given without white space around it.
pub fn parse_command(line: &[u8]) -> (c: Command)
    ensures
        c == command_of(line@),
{
    let n = line.len();
    let a = find_byte(line, SPACE, 0);
    let first = Span { start: 0, end: a };
    let mut count: usize = 1;
    let mut second = Span { start: 0, end: 0 };
    let mut third = Span { start: 0, end: 0 };
    if a < n {
        let b = find_byte(line, SPACE, a + 1);
        if b < n {
            second = Span { start: a + 1, end: b };
            third = Span { start: b + 1, end: n };
            count = 3;
        } else {
            second = Span { start: a + 1, end: n };
            count = 2;
        }
    }
    let ghost parts = parts_of(line@);
    assert(parts.len() == count);
    assert(span(parts[0]) == first);
    assert(count >= 2 ==> span(parts[1]) == second);
    assert(count >= 3 ==> span(parts[2]) == third);
    let slash: [u8; 1] = [0x2F];
    assert(slash@ =~= seq![0x2Fu8]);
    match classify(slice_subrange(line, first.start, first.end)) {
        Verb::Nothing => Command::Nothing,
        Verb::Quit => Command::Quit,
        Verb::Send => {
            if count < 3 {
                Command::Usage(Verb::Send)
            } else {
                let d = slice_subrange(line, second.start, second.end);
                if !has_prefix(d, slash.as_slice()) {
                    Command::BadDestination(second)
                } else {
                    Command::Send {
                        destination: second,
                        message: third,
                        common: is_common_destination(d),
                    }
                }
            }
        },
        Verb::Subscribe => {
            if count < 2 {
                Command::Usage(Verb::Subscribe)
            } else {
                let d = slice_subrange(line, second.start, second.end);
                if !has_prefix(d, slash.as_slice()) {
                    Command::BadDestination(second)
                } else {
                    Command::Subscribe { destination: second, common: is_common_destination(d) }
                }
            }
        },
        Verb::About => Command::About,
        Verb::Summary => Command::Summary(
            if count >= 2 {
                Some(second)
            } else {
                None
            },
        ),
        Verb::Report => Command::Report(
            if count >= 2 {
                Some(second)
            } else {
                None
            },
        ),
        Verb::Clear => Command::Clear,
        Verb::Help => Command::Help,
        Verb::Unknown => Command::Unknown(first),
    }
}

} // verus!
