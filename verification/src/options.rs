//! Options of connecting and subscribing.

use vstd::prelude::*;
use vstd::string::*;
use crate::frame::{headers_view, IntoText};
use tokio::sync::mpsc::Sender;

verus! {

/// `tokio::sync::mpsc::Sender`, as an opaque value that is carried through.
#[verifier::external_type_specification]
#[verifier::external_body]
#[verifier::reject_recursive_types(T)]
pub struct ExSender<T>(tokio::sync::mpsc::Sender<T>);

/// How the server is told of processed messages.
#[derive(Debug, Clone, Copy, PartialEq, Eq, Structural)]
pub enum AckMode {
    /// The server takes delivery as acknowledgement.
    Auto,
    /// An acknowledgement covers every earlier message of the subscription.
    Client,
    /// An acknowledgement covers one message.
    ClientIndividual,
}

impl AckMode {
    /// The value of the `ack` header.
    pub open spec fn text(self) -> Seq<char> {
        match self {
            AckMode::Auto => "auto"@,
            AckMode::Client => "client"@,
            AckMode::ClientIndividual => "client-individual"@,
        }
    }

    /// The value of the `ack` header.
    pub fn as_str(&self) -> (s: &'static str)
        ensures
            s@ == self.text(),
    {
        match self {
            AckMode::Auto => "auto",
            AckMode::Client => "client",
            AckMode::ClientIndividual => "client-individual",
        }
    }
}

/// What `CONNECT` may carry besides login, passcode and heartbeat.
#[derive(Debug, Clone)]
pub struct ConnectOptions {
    /// The `accept-version` header; `1.2` when unset.
    pub accept_version: Option<String>,
    /// The `client-id` header; left out when unset.
    pub client_id: Option<String>,
    /// The `host` header; `/` when unset.
    pub host: Option<String>,
    /// Further headers, in order.
    pub headers: Vec<(String, String)>,
    /// Where each heartbeat received is announced.
    pub heartbeat_tx: Option<Sender<()>>,
}

impl ConnectOptions {
    /// Options with nothing set.
    pub fn new() -> (r: ConnectOptions)
        ensures
            r.accept_version is None,
            r.client_id is None,
            r.host is None,
            r.headers@.len() == 0,
            r.heartbeat_tx is None,
    {
        ConnectOptions {
            accept_version: None,
            client_id: None,
            host: None,
            headers: Vec::new(),
            heartbeat_tx: None,
        }
    }

    /// Sets the versions that the client accepts.
    pub fn accept_version(self, version: impl IntoText) -> (r: ConnectOptions)
        ensures
            r.accept_version matches Some(v) && v@ == version.text(),
            r.client_id == self.client_id,
            r.host == self.host,
            r.headers == self.headers,
            r.heartbeat_tx == self.heartbeat_tx,
    {
        let mut o = self;
        o.accept_version = Some(version.into_text());
        o
    }

    /// Sets the client id.
    pub fn client_id(self, id: impl IntoText) -> (r: ConnectOptions)
        ensures
            r.client_id matches Some(v) && v@ == id.text(),
            r.accept_version == self.accept_version,
            r.host == self.host,
            r.headers == self.headers,
            r.heartbeat_tx == self.heartbeat_tx,
    {
        let mut o = self;
        o.client_id = Some(id.into_text());
        o
    }

    /// Sets the virtual host.
    pub fn host(self, host: impl IntoText) -> (r: ConnectOptions)
        ensures
            r.host matches Some(v) && v@ == host.text(),
            r.accept_version == self.accept_version,
            r.client_id == self.client_id,
            r.headers == self.headers,
            r.heartbeat_tx == self.heartbeat_tx,
    {
        let mut o = self;
        o.host = Some(host.into_text());
        o
    }

    /// Appends a header.
    pub fn header(self, key: impl IntoText, value: impl IntoText) -> (r: ConnectOptions)
        ensures
            headers_view(r.headers@) == headers_view(self.headers@).push(
                (key.text(), value.text()),
            ),
            r.accept_version == self.accept_version,
            r.client_id == self.client_id,
            r.host == self.host,
            r.heartbeat_tx == self.heartbeat_tx,
    {
        let mut o = self;
        o.headers.push((key.into_text(), value.into_text()));
        assert(headers_view(o.headers@) =~= headers_view(self.headers@).push(
            (key.text(), value.text()),
        ));
        o
    }

    /// Sets where heartbeats are announced.
    pub fn with_heartbeat_notify(self, tx: Sender<()>) -> (r: ConnectOptions)
        ensures
            r.heartbeat_tx == Some(tx),
            r.accept_version == self.accept_version,
            r.client_id == self.client_id,
            r.host == self.host,
            r.headers == self.headers,
    {
        let mut o = self;
        o.heartbeat_tx = Some(tx);
        o
    }
}

impl Default for ConnectOptions {
    fn default() -> (r: ConnectOptions)
        ensures
            r.accept_version is None,
            r.client_id is None,
            r.host is None,
            r.headers@.len() == 0,
            r.heartbeat_tx is None,
    {
        ConnectOptions::new()
    }
}

/// What a subscription may carry besides destination and ack mode.
#[derive(Debug, Clone)]
pub struct SubscriptionOptions {
    /// Further headers, kept for resubscribing.
    pub headers: Vec<(String, String)>,
    /// When set, the destination that goes on the wire.
    pub durable_queue: Option<String>,
}

impl Default for SubscriptionOptions {
    fn default() -> (r: SubscriptionOptions)
        ensures
            r.headers@.len() == 0,
            r.durable_queue is None,
    {
        SubscriptionOptions { headers: Vec::new(), durable_queue: None }
    }
}

} // verus!
