//! Errors that the server reports and errors of connection operations.

use vstd::prelude::*;
use vstd::string::*;
use vstd::utf8::*;
use vstd::std_specs::convert::FromSpecImpl;
use crate::frame::{first_named, first_value, Frame};
use crate::text::string_from_utf8;

verus! {

/// `std::io::Error`, as an opaque value that is carried through.
#[verifier::external_type_specification]
#[verifier::external_body]
pub struct ExIoError(std::io::Error);

/// `ToString::to_string` of `std::io::Error`: the error's own wording,
/// of which nothing is claimed.
#[verifier::external_body]
pub(crate) fn io_error_text(e: &std::io::Error) -> (s: String) {
    e.to_string()
}

/// What an `ERROR` frame says.
#[derive(Debug, Clone, PartialEq, Eq)]
pub struct ServerError {
    /// The `message` header, or `unknown error` without one.
    pub message: String,
    /// The body as text, when it is not empty and is UTF-8.
    pub body: Option<String>,
    /// The `receipt-id` header, when the frame has one.
    pub receipt_id: Option<String>,
    /// The frame itself.
    pub frame: Frame,
}

/// The text of an optional string.
pub open spec fn opt_text(o: Option<String>) -> Option<Seq<char>> {
    match o {
        Some(s) => Some(s@),
        None => None,
    }
}

/// The message that a header list carries.
pub open spec fn error_message(f: crate::frame::FrameView) -> Seq<char> {
    match first_value(f.headers, "message"@) {
        Some(m) => m,
        None => "unknown error"@,
    }
}

/// The body of a frame as text, when there is any.
pub open spec fn error_body(f: crate::frame::FrameView) -> Option<Seq<char>> {
    if f.body.len() > 0 && valid_utf8(f.body) {
        Some(decode_utf8(f.body))
    } else {
        None
    }
}

impl ServerError {
    /// Whether this is what the frame `f` says.
    pub open spec fn describes(self, f: crate::frame::FrameView) -> bool {
        &&& self.message@ == error_message(f)
        &&& opt_text(self.body) == error_body(f)
        &&& opt_text(self.receipt_id) == first_named(f.headers, "receipt-id"@)
        &&& self.frame@ == f
    }

    /// Reads an `ERROR` frame.
    pub fn from_frame(frame: Frame) -> (r: ServerError)
        ensures
            r.describes(frame@),
    {
        let message = match frame.get_header("message") {
            Some(m) => m.to_owned(),
            None => "unknown error".to_owned(),
        };
        let body = if frame.body.len() == 0 {
            None
        } else {
            string_from_utf8(frame.body.as_slice())
        };
        let receipt_id = match frame.header_named("receipt-id") {
            Some(v) => Some(v.to_owned()),
            None => None,
        };
        ServerError { message, body, receipt_id, frame }
    }

    /// The wording of the error: the message, then the body if any.
    pub open spec fn text(self) -> Seq<char> {
        match self.body {
            Some(b) => "STOMP server error: "@ + self.message@ + ": "@ + b@,
            None => "STOMP server error: "@ + self.message@,
        }
    }

    /// Renders the error for a diagnostic.
    pub fn to_string(&self) -> (s: String)
        ensures
            s@ == self.text(),
    {
        let mut s = "STOMP server error: ".to_owned();
        s.append(self.message.as_str());
        match &self.body {
            Some(b) => {
                s.append(": ");
                s.append(b.as_str());
            },
            None => {},
        }
        s
    }
}

/// What the inbound channel hands out.
#[derive(Debug, Clone, PartialEq, Eq)]
pub enum ReceivedFrame {
    /// An ordinary frame.
    Frame(Frame),
    /// An `ERROR` frame, read.
    Error(ServerError),
}

impl ReceivedFrame {
    pub fn is_error(&self) -> (r: bool)
        ensures
            r == (self is Error),
    {
        match self {
            ReceivedFrame::Error(_) => true,
            ReceivedFrame::Frame(_) => false,
        }
    }

    pub fn is_frame(&self) -> (r: bool)
        ensures
            r == (self is Frame),
    {
        match self {
            ReceivedFrame::Frame(_) => true,
            ReceivedFrame::Error(_) => false,
        }
    }

    /// The frame, unless this is an error.
    pub fn into_frame(self) -> (r: Option<Frame>)
        ensures
            match self {
                ReceivedFrame::Frame(f) => r == Some(f),
                ReceivedFrame::Error(_) => r is None,
            },
    {
        match self {
            ReceivedFrame::Frame(f) => Some(f),
            ReceivedFrame::Error(_) => None,
        }
    }

    /// The error, unless this is a frame.
    pub fn into_error(self) -> (r: Option<ServerError>)
        ensures
            match self {
                ReceivedFrame::Error(e) => r == Some(e),
                ReceivedFrame::Frame(_) => r is None,
            },
    {
        match self {
            ReceivedFrame::Error(e) => Some(e),
            ReceivedFrame::Frame(_) => None,
        }
    }
}

/// Why a connection operation failed.
#[derive(Debug)]
pub enum ConnError {
    /// The transport failed.
    Io(std::io::Error),
    /// The peer or the manager broke the protocol.
    Protocol(String),
    /// No `RECEIPT` came in time for this receipt id.
    ReceiptTimeout(String),
    /// The server answered `CONNECT` with an `ERROR` frame.
    ServerRejected(ServerError),
}

impl ConnError {
    /// Whether `s` is the wording of this error. The wording of a transport
    /// error is the transport's own, after `io error: `.
    pub open spec fn worded(self, s: Seq<char>) -> bool {
        match self {
            ConnError::Io(_) => "io error: "@.is_prefix_of(s),
            ConnError::Protocol(m) => s == "protocol error: "@ + m@,
            ConnError::ReceiptTimeout(id) => s == "receipt timeout: no RECEIPT received for '"@
                + id@ + "' within timeout"@,
            ConnError::ServerRejected(e) => s == "server rejected connection: "@ + e.text(),
        }
    }

    /// Renders the error for a diagnostic.
    pub fn to_string(&self) -> (s: String)
        ensures
            self.worded(s@),
    {
        match self {
            ConnError::Io(e) => {
                let mut s = "io error: ".to_owned();
                let t = io_error_text(e);
                s.append(t.as_str());
                assert(s@.subrange(0, "io error: "@.len() as int) =~= "io error: "@);
                s
            },
            ConnError::Protocol(m) => {
                let mut s = "protocol error: ".to_owned();
                s.append(m.as_str());
                s
            },
            ConnError::ReceiptTimeout(id) => {
                let mut s = "receipt timeout: no RECEIPT received for '".to_owned();
                s.append(id.as_str());
                s.append("' within timeout");
                s
            },
            ConnError::ServerRejected(e) => {
                let mut s = "server rejected connection: ".to_owned();
                let t = e.to_string();
                s.append(t.as_str());
                s
            },
        }
    }
}

impl From<std::io::Error> for ConnError {
    fn from(e: std::io::Error) -> (r: ConnError) {
        ConnError::Io(e)
    }
}

impl FromSpecImpl<std::io::Error> for ConnError {
    open spec fn obeys_from_spec() -> bool {
        true
    }

    open spec fn from_spec(e: std::io::Error) -> ConnError {
        ConnError::Io(e)
    }
}

} // verus!
