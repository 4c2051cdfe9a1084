//! Heartbeat settings: the `cx,cy` header and the negotiated intervals.

use vstd::prelude::*;
use vstd::string::*;
use core::time::Duration;
use crate::number::{decimal, decimal_bytes, lemma_decimal, parse_u64, parse_unsigned, trim_bounds,
    trimmed};
use crate::scan::{find_byte, find_from};
use crate::text::{all_ascii, ascii_string, ascii_text};
use vstd::slice::slice_subrange;

verus! {

pub const COMMA: u8 = 0x2C;

/// The whole milliseconds that a duration lasts.
pub uninterp spec fn duration_millis(d: Duration) -> nat;

/// `Duration::from_millis`: the duration of that many milliseconds.
#[verifier::external_body]
pub(crate) fn duration_from_millis(ms: u64) -> (d: Duration)
    ensures
        duration_millis(d) == ms,
{
    Duration::from_millis(ms)
}

/// `Duration::as_millis`: the whole milliseconds in the duration.
#[verifier::external_body]
pub(crate) fn duration_as_millis(d: &Duration) -> (ms: u128)
    ensures
        ms == duration_millis(*d),
{
    d.as_millis()
}

/// The client's heartbeat wishes, in milliseconds; 0 turns a direction off.
#[derive(Debug, Clone, Copy, PartialEq, Eq, Structural)]
pub struct Heartbeat {
    /// How often the client can send.
    pub send_ms: u32,
    /// How often the client wants to receive.
    pub receive_ms: u32,
}

/// The header value `send,receive` in bytes.
pub open spec fn heartbeat_bytes(send: nat, receive: nat) -> Seq<u8> {
    decimal(send) + seq![COMMA] + decimal(receive)
}

impl Heartbeat {
    pub fn new(send_ms: u32, receive_ms: u32) -> (r: Heartbeat)
        ensures
            r.send_ms == send_ms,
            r.receive_ms == receive_ms,
    {
        Heartbeat { send_ms, receive_ms }
    }

    /// No heartbeats in either direction.
    pub fn disabled() -> (r: Heartbeat)
        ensures
            r.send_ms == 0,
            r.receive_ms == 0,
    {
        Heartbeat { send_ms: 0, receive_ms: 0 }
    }

    /// The same interval both ways; intervals beyond the range of the
    /// fields are held at the largest value.
    pub fn from_duration(interval: Duration) -> (r: Heartbeat)
        ensures
            r.send_ms == r.receive_ms,
            r.send_ms == (if duration_millis(interval) > u32::MAX {
                u32::MAX as nat
            } else {
                duration_millis(interval)
            }),
    {
        let ms = duration_as_millis(&interval);
        let held: u32 = if ms > u32::MAX as u128 {
            u32::MAX
        } else {
            ms as u32
        };
        Heartbeat { send_ms: held, receive_ms: held }
    }

    /// The header text `send,receive`.
    pub open spec fn text(self) -> Seq<char> {
        ascii_text(heartbeat_bytes(self.send_ms as nat, self.receive_ms as nat))
    }

    /// Renders the header value.
    pub fn to_string(&self) -> (s: String)
        ensures
            s@ == self.text(),
    {
        let mut out = decimal_bytes(self.send_ms as u64);
        let second = decimal_bytes(self.receive_ms as u64);
        proof {
            lemma_decimal(self.send_ms as nat);
            lemma_decimal(self.receive_ms as nat);
        }
        out.push(COMMA);
        let mut i: usize = 0;
        let ghost head = out@;
        while i < second.len()
            invariant
                0 <= i <= second@.len(),
                out@ == head + second@.take(i as int),
            decreases second@.len() - i,
        {
            out.push(second[i]);
            assert(out@ =~= head + second@.take(i + 1));
            i = i + 1;
        }
        assert(out@ =~= heartbeat_bytes(self.send_ms as nat, self.receive_ms as nat));
        assert(all_ascii(out@)) by {
            let a = decimal(self.send_ms as nat);
            let b = decimal(self.receive_ms as nat);
            assert forall|j: int| 0 <= j < out@.len() implies #[trigger] out@[j] < 0x80 by {
                if j < a.len() {
                    assert(crate::number::is_digit(a[j]));
                } else if j > a.len() {
                    assert(crate::number::is_digit(b[j - a.len() - 1]));
                }
            }
        }
        ascii_string(out.as_slice())
    }
}

impl Default for Heartbeat {
    fn default() -> (r: Heartbeat)
        ensures
            r.send_ms == 10000,
            r.receive_ms == 10000,
    {
        Heartbeat { send_ms: 10000, receive_ms: 10000 }
    }
}

/// The number that one field of the header states; 0 when it states none.
pub open spec fn field_value(f: Seq<u8>) -> nat {
    match parse_unsigned(trimmed(f), u64::MAX as nat) {
        Some(n) => n,
        None => 0,
    }
}

/// The first field: everything before the first comma.
pub open spec fn first_field(b: Seq<u8>) -> Seq<u8> {
    b.subrange(0, find_from(b, COMMA, 0))
}

/// The second field: what stands between the first comma and the next, or
/// nothing when there is no comma.
pub open spec fn second_field(b: Seq<u8>) -> Seq<u8> {
    let c = find_from(b, COMMA, 0);
    if c >= b.len() {
        Seq::empty()
    } else {
        b.subrange(c + 1, find_from(b, COMMA, c + 1))
    }
}

fn read_field(b: &[u8], from: usize, to: usize) -> (r: u64)
    requires
        from <= to <= b@.len(),
    ensures
        r == field_value(b@.subrange(from as int, to as int)),
{
    let f = slice_subrange(b, from, to);
    let (x, y) = trim_bounds(f);
    match parse_u64(slice_subrange(f, x, y)) {
        Some(n) => n,
        None => 0,
    }
}

/// Reads a `cx,cy` header value. A field that is missing or is no number
/// counts as 0; fields after the second are ignored.
pub fn parse_heartbeat_header(header: &str) -> (r: (u64, u64))
    ensures
        r.0 == field_value(first_field(header.spec_bytes())),
        r.1 == field_value(second_field(header.spec_bytes())),
{
    let b = header.as_bytes();
    let c = find_byte(b, COMMA, 0);
    let cx = read_field(b, 0, c);
    if c >= b.len() {
        proof {
            let e = Seq::<u8>::empty();
            assert(e.subrange(0, 0) =~= e);
            assert(crate::number::trim_start(e, 0) == 0);
            assert(crate::number::trim_end(e, 0, 0) == 0);
            assert(trimmed(e) =~= e);
        }
        return (cx, 0);
    }
    let d = find_byte(b, COMMA, c + 1);
    let cy = read_field(b, c + 1, d);
    (cx, cy)
}

/// The larger of two intervals.
pub open spec fn agreed(a: u64, b: u64) -> u64 {
    if a >= b {
        a
    } else {
        b
    }
}

/// The settled interval is the larger of the two wishes, and a direction is
/// off exactly when both sides ask for 0.
pub proof fn lemma_agreed(a: u64, b: u64)
    ensures
        agreed(a, b) >= a,
        agreed(a, b) >= b,
        agreed(a, b) == a || agreed(a, b) == b,
        agreed(a, b) == 0 <==> (a == 0 && b == 0),
{
}

/// Settles the intervals between client and server: outgoing is the larger
/// of what the client sends and what the server wants, incoming the larger
/// of what the client wants and what the server sends. An interval of 0 is
/// no heartbeat in that direction.
pub fn negotiate_heartbeats(client_out: u64, client_in: u64, server_out: u64, server_in: u64) -> (r: (
    Option<Duration>,
    Option<Duration>,
))
    ensures
        agreed(client_out, server_in) == 0 <==> r.0 is None,
        r.0 matches Some(d) ==> duration_millis(d) == agreed(client_out, server_in),
        agreed(client_in, server_out) == 0 <==> r.1 is None,
        r.1 matches Some(d) ==> duration_millis(d) == agreed(client_in, server_out),
{
    let out_ms = if client_out >= server_in {
        client_out
    } else {
        server_in
    };
    let in_ms = if client_in >= server_out {
        client_in
    } else {
        server_out
    };
    let outgoing = if out_ms == 0 {
        None
    } else {
        Some(duration_from_millis(out_ms))
    };
    let incoming = if in_ms == 0 {
        None
    } else {
        Some(duration_from_millis(in_ms))
    };
    (outgoing, incoming)
}

} // verus!
