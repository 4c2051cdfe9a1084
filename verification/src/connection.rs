//! The connection manager's bookkeeping: what it decides from its own state
//! and from what arrives, leaving transport and timers to the caller.

use vstd::prelude::*;
use vstd::string::*;
use crate::codec::StompItem;
use crate::error::{opt_text, ServerError};
pub use crate::error::ConnError;
use crate::frame::{first_named, first_value, headers_view, is_named, named, Frame, FrameView};
use crate::heartbeat::{agreed, duration_as_millis, field_value, first_field,
    negotiate_heartbeats, parse_heartbeat_header, second_field};
use crate::options::{ConnectOptions, SubscriptionOptions};
pub use crate::options::AckMode;
use crate::pending::{acknowledged, lemma_individual_ack, position, Delivery, PendingMap};
use crate::text::{decimal_string, decimal_text, lemma_decimal_text_injective, str_eq};

verus! {

/// A subscription as the manager keeps it for dispatch and resubscribing.
pub struct SubscriptionEntry {
    /// The number the id was made from.
    pub number: u64,
    /// The local id.
    pub id: String,
    /// The destination that went on the wire.
    pub destination: String,
    /// The acknowledgement mode.
    pub ack: AckMode,
    /// The further headers that went on the wire.
    pub headers: Vec<(String, String)>,
}

/// The mathematical content of a subscription.
pub struct SubscriptionView {
    pub id: Seq<char>,
    pub destination: Seq<char>,
    pub ack: AckMode,
    pub headers: Seq<(Seq<char>, Seq<char>)>,
}

impl View for SubscriptionEntry {
    type V = SubscriptionView;

    open spec fn view(&self) -> SubscriptionView {
        SubscriptionView {
            id: self.id@,
            destination: self.destination@,
            ack: self.ack,
            headers: headers_view(self.headers@),
        }
    }
}

/// The manager's state as contracts see it.
pub struct ConnectionView {
    /// The subscriptions, oldest first.
    pub subscriptions: Seq<SubscriptionView>,
    /// The pending deliveries of every subscription id.
    pub pending: Map<Seq<char>, Seq<Delivery>>,
    /// The receipt ids that are awaited.
    pub receipts: Set<Seq<char>>,
    /// The number of the next subscription id.
    pub next_subscription: nat,
    /// The number of the next receipt id.
    pub next_receipt: nat,
    /// The interval between heartbeats sent, in milliseconds; 0 for none.
    pub outgoing_ms: nat,
    /// The interval between heartbeats expected, in milliseconds; 0 for none.
    pub incoming_ms: nat,
    /// When something was last sent, in milliseconds.
    pub last_sent: nat,
    /// When something was last received, in milliseconds.
    pub last_received: nat,
    /// The wait before the next connection attempt, in seconds.
    pub backoff_secs: nat,
}

/// The `SUBSCRIBE` frame of a subscription.
pub open spec fn subscribe_frame(e: SubscriptionView) -> FrameView {
    FrameView {
        command: "SUBSCRIBE"@,
        headers: seq![("id"@, e.id), ("destination"@, e.destination), ("ack"@, e.ack.text())]
            + e.headers,
        body: Seq::empty(),
    }
}

/// A `SUBSCRIBE` frame shows the subscription it was made from: the id,
/// the destination and the acknowledgement mode are its first headers of
/// those names, and the further headers follow in order.
pub proof fn lemma_subscribe_frame(e: SubscriptionView)
    ensures
        first_value(subscribe_frame(e).headers, "id"@) == Some(e.id),
        first_value(subscribe_frame(e).headers, "destination"@) == Some(e.destination),
        first_value(subscribe_frame(e).headers, "ack"@) == Some(e.ack.text()),
        subscribe_frame(e).headers.skip(3) == e.headers,
{
    let h = subscribe_frame(e).headers;
    reveal_strlit("id");
    reveal_strlit("destination");
    reveal_strlit("ack");
    assert("id"@ != "destination"@) by {
        assert("id"@.len() != "destination"@.len());
    }
    assert("id"@ != "ack"@) by {
        assert("id"@.len() != "ack"@.len());
    }
    assert("destination"@ != "ack"@) by {
        assert("destination"@.len() != "ack"@.len());
    }
    assert(h[0] == ("id"@, e.id));
    assert(h.skip(1)[0] == ("destination"@, e.destination));
    assert(h.skip(1).skip(1)[0] == ("ack"@, e.ack.text()));
    assert(h.skip(1).skip(1) =~= h.skip(2));
    assert(first_value(h, "destination"@) == first_value(h.skip(1), "destination"@));
    assert(first_value(h, "ack"@) == first_value(h.skip(1), "ack"@));
    assert(first_value(h.skip(1), "ack"@) == first_value(h.skip(2), "ack"@));
    assert(h.skip(3) =~= e.headers);
}

/// Two subscriptions with the same `SUBSCRIBE` frame are the same.
pub proof fn lemma_subscribe_frame_injective(a: SubscriptionView, b: SubscriptionView)
    requires
        subscribe_frame(a) == subscribe_frame(b),
    ensures
        a.id == b.id,
        a.destination == b.destination,
        a.ack.text() == b.ack.text(),
        a.headers == b.headers,
{
    lemma_subscribe_frame(a);
    lemma_subscribe_frame(b);
}

/// A frame of one command and one header, without body.
pub open spec fn one_header_frame(command: Seq<char>, key: Seq<char>, value: Seq<char>) -> FrameView {
    FrameView { command, headers: seq![(key, value)], body: Seq::empty() }
}

/// An `ACK` or `NACK` frame.
pub open spec fn ack_frame(command: Seq<char>, message_id: Seq<char>, subscription: Seq<char>) -> FrameView {
    FrameView {
        command,
        headers: seq![("id"@, message_id), ("subscription"@, subscription)],
        body: Seq::empty(),
    }
}

/// The index of the first subscription with the given id, or the length.
pub open spec fn subscription_index(subs: Seq<SubscriptionView>, id: Seq<char>) -> int
    decreases subs.len(),
{
    if subs.len() == 0 {
        0
    } else if subs[0].id == id {
        0
    } else {
        1 + subscription_index(subs.skip(1), id)
    }
}

/// Whether an acknowledgement for subscription `id` is cumulative: it is
/// in `client` mode, and also where the subscription is not known.
pub open spec fn cumulative(subs: Seq<SubscriptionView>, id: Seq<char>) -> bool {
    let i = subscription_index(subs, id);
    i >= subs.len() || subs[i].ack == AckMode::Client
}

/// An index that holds the id with none before it is the first.
pub proof fn lemma_subscription_index_is(subs: Seq<SubscriptionView>, id: Seq<char>, at: int)
    requires
        0 <= at <= subs.len(),
        at < subs.len() ==> subs[at].id == id,
        forall|i: int| 0 <= i < at ==> subs[i].id != id,
    ensures
        subscription_index(subs, id) == at,
    decreases subs.len(),
{
    if at > 0 {
        assert(subs[0].id != id);
        assert forall|i: int| 0 <= i < at - 1 implies subs.skip(1)[i].id != id by {
            assert(subs.skip(1)[i] == subs[i + 1]);
        }
        lemma_subscription_index_is(subs.skip(1), id, at - 1);
    }
}

/// What an acknowledgement leaves of the pending deliveries.
pub open spec fn pending_after_ack(
    pending: Map<Seq<char>, Seq<Delivery>>,
    subs: Seq<SubscriptionView>,
    id: Seq<char>,
    message_id: Seq<char>,
) -> Map<Seq<char>, Seq<Delivery>> {
    pending.insert(id, acknowledged(pending[id], message_id, cumulative(subs, id)))
}

/// Cumulative acknowledgement: after an acknowledgement of a pending
/// message on a subscription in `client` mode, the queue of that
/// subscription holds exactly what arrived after the message, so every
/// delivery at or before it is gone; other subscriptions keep theirs.
pub proof fn lemma_ack_client(
    pending: Map<Seq<char>, Seq<Delivery>>,
    subs: Seq<SubscriptionView>,
    id: Seq<char>,
    message_id: Seq<char>,
)
    requires
        pending.dom().contains(id),
        subscription_index(subs, id) < subs.len(),
        subs[subscription_index(subs, id)].ack == AckMode::Client,
        position(pending[id], message_id) < pending[id].len(),
    ensures
        pending_after_ack(pending, subs, id, message_id)[id] == pending[id].skip(
            position(pending[id], message_id) + 1,
        ),
        forall|k: Seq<char>|
            k != id && pending.dom().contains(k) ==> pending_after_ack(
                pending,
                subs,
                id,
                message_id,
            )[k] == pending[k],
{
}

/// Individual acknowledgement: after an acknowledgement of a pending
/// message on a subscription in `client-individual` mode, that delivery
/// alone is gone: the deliveries before it keep their place, those after
/// it move up by one, and other subscriptions keep theirs.
pub proof fn lemma_ack_individual(
    pending: Map<Seq<char>, Seq<Delivery>>,
    subs: Seq<SubscriptionView>,
    id: Seq<char>,
    message_id: Seq<char>,
)
    requires
        pending.dom().contains(id),
        subscription_index(subs, id) < subs.len(),
        subs[subscription_index(subs, id)].ack == AckMode::ClientIndividual,
        position(pending[id], message_id) < pending[id].len(),
    ensures
        pending_after_ack(pending, subs, id, message_id)[id] == pending[id].remove(
            position(pending[id], message_id),
        ),
        pending_after_ack(pending, subs, id, message_id)[id].len() == pending[id].len() - 1,
        forall|j: int|
            0 <= j < position(pending[id], message_id) ==> pending_after_ack(
                pending,
                subs,
                id,
                message_id,
            )[id][j] == pending[id][j],
        forall|j: int|
            position(pending[id], message_id) <= j < pending[id].len() - 1 ==> pending_after_ack(
                pending,
                subs,
                id,
                message_id,
            )[id][j] == pending[id][j + 1],
        forall|k: Seq<char>|
            k != id && pending.dom().contains(k) ==> pending_after_ack(
                pending,
                subs,
                id,
                message_id,
            )[k] == pending[k],
{
    lemma_individual_ack(pending[id], message_id);
}

/// Whether a header name is one that `CONNECT` sets itself.
pub open spec fn reserved(k: Seq<char>) -> bool {
    ||| named(k, "accept-version"@)
    ||| named(k, "host"@)
    ||| named(k, "login"@)
    ||| named(k, "passcode"@)
    ||| named(k, "heart-beat"@)
    ||| named(k, "client-id"@)
}

/// The headers of a list whose names are not reserved, in order.
pub open spec fn unreserved(hs: Seq<(Seq<char>, Seq<char>)>) -> Seq<(Seq<char>, Seq<char>)>
    decreases hs.len(),
{
    if hs.len() == 0 {
        Seq::empty()
    } else if reserved(hs.last().0) {
        unreserved(hs.drop_last())
    } else {
        unreserved(hs.drop_last()).push(hs.last())
    }
}

/// The text of an option, or a default.
pub open spec fn text_or(o: Option<Seq<char>>, default: Seq<char>) -> Seq<char> {
    match o {
        Some(s) => s,
        None => default,
    }
}

/// The `CONNECT` frame: version (`1.2` unless given), host (`/` unless
/// given), login, passcode and heartbeat, the client id when there is one,
/// then the caller's headers whose names are not reserved.
pub open spec fn connect_frame(
    login: Seq<char>,
    passcode: Seq<char>,
    heartbeat: Seq<char>,
    accept_version: Option<Seq<char>>,
    host: Option<Seq<char>>,
    client_id: Option<Seq<char>>,
    extra: Seq<(Seq<char>, Seq<char>)>,
) -> FrameView {
    FrameView {
        command: "CONNECT"@,
        headers: seq![
            ("accept-version"@, text_or(accept_version, "1.2"@)),
            ("host"@, text_or(host, "/"@)),
            ("login"@, login),
            ("passcode"@, passcode),
            ("heart-beat"@, heartbeat),
        ] + (match client_id {
            Some(c) => seq![("client-id"@, c)],
            None => Seq::empty(),
        }) + unreserved(extra),
        body: Seq::empty(),
    }
}

/// What the manager does with an item that arrives before `CONNECTED`.
pub enum Handshake {
    /// Keep reading.
    Wait,
    /// The server accepted; its `heart-beat` value, `0,0` without one.
    Connected(String),
    /// The server refused.
    Rejected(ServerError),
}

/// Whether a subscription gets a message: by the message's subscription
/// id when it has one, else by its destination.
pub open spec fn is_target(e: SubscriptionView, sub: Option<Seq<char>>, dest: Option<Seq<char>>) -> bool {
    match sub {
        Some(s) => e.id == s,
        None => match dest {
            Some(d) => e.destination == d,
            None => false,
        },
    }
}

/// The ids of the subscriptions that get a message, in table order.
pub open spec fn targets(
    subs: Seq<SubscriptionView>,
    sub: Option<Seq<char>>,
    dest: Option<Seq<char>>,
) -> Seq<Seq<char>>
    decreases subs.len(),
{
    if subs.len() == 0 {
        Seq::empty()
    } else if is_target(subs.last(), sub, dest) {
        targets(subs.drop_last(), sub, dest).push(subs.last().id)
    } else {
        targets(subs.drop_last(), sub, dest)
    }
}

/// Whether the subscription at `j` gets the message, awaits
/// acknowledgements and has the id `k`.
pub open spec fn tracks(
    subs: Seq<SubscriptionView>,
    sub: Option<Seq<char>>,
    dest: Option<Seq<char>>,
    k: Seq<char>,
    j: int,
) -> bool {
    0 <= j < subs.len() && is_target(subs[j], sub, dest) && subs[j].ack != AckMode::Auto
        && subs[j].id == k
}

/// Whether a subscription before position `i` tracks the message for `k`.
pub open spec fn awaited_below(
    subs: Seq<SubscriptionView>,
    sub: Option<Seq<char>>,
    dest: Option<Seq<char>>,
    k: Seq<char>,
    i: int,
) -> bool {
    exists|j: int| j < i && tracks(subs, sub, dest, k, j)
}

/// One more position adds exactly what that position tracks.
pub proof fn lemma_awaited_step(
    subs: Seq<SubscriptionView>,
    sub: Option<Seq<char>>,
    dest: Option<Seq<char>>,
    k: Seq<char>,
    i: int,
)
    ensures
        awaited_below(subs, sub, dest, k, i + 1) == (awaited_below(subs, sub, dest, k, i)
            || tracks(subs, sub, dest, k, i)),
{
    if awaited_below(subs, sub, dest, k, i + 1) {
        let j = choose|j: int| j < i + 1 && tracks(subs, sub, dest, k, j);
        if j < i {
            assert(awaited_below(subs, sub, dest, k, i));
        }
    }
    if awaited_below(subs, sub, dest, k, i) {
        let j = choose|j: int| j < i && tracks(subs, sub, dest, k, j);
        assert(j < i + 1 && tracks(subs, sub, dest, k, j));
    }
    if tracks(subs, sub, dest, k, i) {
        assert(i < i + 1 && tracks(subs, sub, dest, k, i));
    }
}

/// A queue with one more delivery when `more` holds.
pub open spec fn grown(q: Seq<Delivery>, more: bool, d: Delivery) -> Seq<Delivery> {
    if more {
        q.push(d)
    } else {
        q
    }
}

/// Whether the message becomes pending for subscription id `k`.
pub open spec fn awaited(
    subs: Seq<SubscriptionView>,
    sub: Option<Seq<char>>,
    dest: Option<Seq<char>>,
    k: Seq<char>,
) -> bool {
    exists|j: int| tracks(subs, sub, dest, k, j)
}

/// The pending deliveries after a `MESSAGE` frame: with a message id, the
/// frame joins the queue of every subscription that gets it and awaits
/// acknowledgements.
pub open spec fn pending_after(
    pending: Map<Seq<char>, Seq<Delivery>>,
    subs: Seq<SubscriptionView>,
    f: FrameView,
) -> Map<Seq<char>, Seq<Delivery>> {
    let sub = first_named(f.headers, "subscription"@);
    let dest = first_named(f.headers, "destination"@);
    let mid = first_named(f.headers, "message-id"@);
    Map::total(
        |k: Seq<char>|
            if mid is Some && awaited(subs, sub, dest, k) {
                pending[k].push((mid->0, f))
            } else {
                pending[k]
            },
    )
}

/// What the manager does with a frame that arrives in steady state.
pub enum Routing {
    /// A `MESSAGE`: hand a copy of the frame to each of these subscriptions.
    Deliver { frame: Frame, targets: Vec<String> },
    /// A `RECEIPT`: resolve the notifier of this id, if one is given.
    Receipt(Option<String>),
    /// An `ERROR`: hand the error to the inbound channel.
    Failure(ServerError),
    /// Any other frame: hand it to the inbound channel.
    Forward(Frame),
}

/// The text of an optional string slice.
pub open spec fn opt_str_view(o: Option<&str>) -> Option<Seq<char>> {
    match o {
        Some(s) => Some(s@),
        None => None,
    }
}

/// Views a list of ids.
pub open spec fn ids_view(v: Seq<String>) -> Seq<Seq<char>> {
    Seq::new(v.len(), |i: int| v[i]@)
}

/// Whether `r` and the state `after` are what routing the frame `f` in the
/// state `before` gives.
pub open spec fn routed(before: ConnectionView, f: FrameView, r: Routing, after: ConnectionView) -> bool {
    if f.command == "MESSAGE"@ {
        &&& r matches Routing::Deliver { frame: out, targets: to } && out@ == f && ids_view(to@)
            == targets(
            before.subscriptions,
            first_named(f.headers, "subscription"@),
            first_named(f.headers, "destination"@),
        )
        &&& after == (ConnectionView {
            pending: pending_after(before.pending, before.subscriptions, f),
            ..before
        })
    } else if f.command == "RECEIPT"@ {
        let id = first_named(f.headers, "receipt-id"@);
        &&& r matches Routing::Receipt(known) && opt_text(known) == (if id is Some
            && before.receipts.contains(id->0) {
            id
        } else {
            None
        })
        &&& after == (match id {
            Some(i) => ConnectionView { receipts: before.receipts.remove(i), ..before },
            None => before,
        })
    } else if f.command == "ERROR"@ {
        &&& r matches Routing::Failure(e) && e.describes(f)
        &&& after == before
    } else {
        &&& r matches Routing::Forward(out) && out@ == f
        &&& after == before
    }
}

/// What happens in steady state.
pub enum Event {
    /// The application asks to shut down.
    Shutdown,
    /// The application has an item for the wire.
    Outbound(StompItem),
    /// An item has arrived.
    Inbound(StompItem),
    /// The heartbeat timer has ticked.
    Tick,
    /// The watchdog timer has fired.
    Watchdog,
}

/// What the manager does about an event.
pub enum Action {
    /// Close the transport and stop.
    Close,
    /// Write the item to the transport.
    Write(StompItem),
    /// A heartbeat has arrived: tell whoever listens for them.
    Alive,
    /// A frame has arrived: carry out its routing.
    Routed(Routing),
    /// Nothing to do.
    Idle,
    /// The peer is silent: close the transport and connect again.
    Disconnect,
}

/// The later of a clock's reading and a new time: a clock never goes back.
pub open spec fn later(reading: nat, now: nat) -> nat {
    if now > reading {
        now
    } else {
        reading
    }
}

/// Whether a heartbeat is due at `now`.
pub open spec fn due(state: ConnectionView, now: nat) -> bool {
    state.outgoing_ms > 0 && now >= state.last_sent + state.outgoing_ms
}

/// Whether the peer has been silent for too long at `now`.
pub open spec fn silent(state: ConnectionView, now: nat) -> bool {
    state.incoming_ms > 0 && now > state.last_received + 2 * state.incoming_ms
}

/// Whether `action` and the state `after` are what the event at time `now`
/// gives in the state `before`: a shutdown closes; an outbound item is
/// written and stamps the sending clock; an inbound item stamps the
/// receiving clock, and a frame is then routed; a tick writes a heartbeat
/// when one is due; the watchdog disconnects when the peer is silent.
pub open spec fn stepped(
    before: ConnectionView,
    event: Event,
    now: nat,
    action: Action,
    after: ConnectionView,
) -> bool {
    match event {
        Event::Shutdown => action is Close && after == before,
        Event::Outbound(item) => action == Action::Write(item) && after == (ConnectionView {
            last_sent: later(before.last_sent, now),
            ..before
        }),
        Event::Inbound(StompItem::Heartbeat) => action is Alive && after == (ConnectionView {
            last_received: later(before.last_received, now),
            ..before
        }),
        Event::Inbound(StompItem::Frame(f)) => action matches Action::Routed(r) && routed(
            ConnectionView { last_received: later(before.last_received, now), ..before },
            f@,
            r,
            after,
        ),
        Event::Tick => if due(before, now) {
            action == Action::Write(StompItem::Heartbeat) && after == (ConnectionView {
                last_sent: later(before.last_sent, now),
                ..before
            })
        } else {
            action is Idle && after == before
        },
        Event::Watchdog => after == before && (if silent(before, now) {
            action is Disconnect
        } else {
            action is Idle
        }),
    }
}

/// The id of the `n`-th receipt.
pub open spec fn receipt_text(n: nat) -> Seq<char> {
    "rcpt-"@ + decimal_text(n)
}

/// The wait after one more failure: doubled, and thirty seconds at most.
pub open spec fn doubled(secs: nat) -> nat {
    if 2 * secs >= 30 {
        30
    } else {
        2 * secs
    }
}

/// Views a subscription table.
pub open spec fn table_view(t: Seq<SubscriptionEntry>) -> Seq<SubscriptionView> {
    Seq::new(t.len(), |i: int| t[i]@)
}

/// The manager's state. It owns the subscription table, the pending
/// deliveries, the awaited receipts, the heartbeat schedule and the backoff.
pub struct Connection {
    subscriptions: Vec<SubscriptionEntry>,
    pending: PendingMap,
    receipts: Vec<String>,
    next_subscription: u64,
    next_receipt: u64,
    outgoing_ms: u64,
    incoming_ms: u64,
    last_sent: u64,
    last_received: u64,
    backoff_secs: u64,
}

impl View for Connection {
    type V = ConnectionView;

    closed spec fn view(&self) -> ConnectionView {
        ConnectionView {
            subscriptions: table_view(self.subscriptions@),
            pending: Map::total(|k: Seq<char>| self.pending.get(k)),
            receipts: Set::new(
                |k: Seq<char>| exists|i: int| 0 <= i < self.receipts@.len() && self.receipts@[i]@ == k,
            ),
            next_subscription: self.next_subscription as nat,
            next_receipt: self.next_receipt as nat,
            outgoing_ms: self.outgoing_ms as nat,
            incoming_ms: self.incoming_ms as nat,
            last_sent: self.last_sent as nat,
            last_received: self.last_received as nat,
            backoff_secs: self.backoff_secs as nat,
        }
    }
}

impl Connection {
    /// The header value that turns heartbeats off.
    pub const NO_HEARTBEAT: &'static str = "0,0";

    /// The header value for ten seconds both ways.
    pub const DEFAULT_HEARTBEAT: &'static str = "10000,10000";

    /// Subscription ids are the numbers below the counter, in rising order;
    /// the pending queues are well formed; the backoff is within its range.
    pub closed spec fn wf(&self) -> bool {
        &&& self.pending.wf()
        &&& forall|i: int|
            0 <= i < self.subscriptions@.len() ==> self.subscriptions@[i].id@ == decimal_text(
                self.subscriptions@[i].number as nat,
            ) && self.subscriptions@[i].number < self.next_subscription
        &&& forall|i: int, j: int|
            0 <= i < j < self.subscriptions@.len() ==> self.subscriptions@[i].number
                < self.subscriptions@[j].number
        &&& forall|i: int, j: int|
            0 <= i < j < self.receipts@.len() ==> self.receipts@[i]@ != self.receipts@[j]@
        &&& 1 <= self.backoff_secs <= 30
        &&& 1 <= self.next_subscription
        &&& 1 <= self.next_receipt
    }

    /// A manager that has never connected: no subscriptions, nothing
    /// pending, no heartbeats, ids from 1, a backoff of one second.
    pub fn new() -> (r: Connection)
        ensures
            r.wf(),
            r@.subscriptions == Seq::<SubscriptionView>::empty(),
            r@.pending == Map::total(|k: Seq<char>| Seq::<Delivery>::empty()),
            r@.receipts == Set::<Seq<char>>::empty(),
            r@.next_subscription == 1,
            r@.next_receipt == 1,
            r@.outgoing_ms == 0,
            r@.incoming_ms == 0,
            r@.last_sent == 0,
            r@.last_received == 0,
            r@.backoff_secs == 1,
    {
        let r = Connection {
            subscriptions: Vec::new(),
            pending: PendingMap::new(),
            receipts: Vec::new(),
            next_subscription: 1,
            next_receipt: 1,
            outgoing_ms: 0,
            incoming_ms: 0,
            last_sent: 0,
            last_received: 0,
            backoff_secs: 1,
        };
        assert(r@.subscriptions =~= Seq::<SubscriptionView>::empty());
        assert(r@.pending =~= Map::total(|k: Seq<char>| Seq::<Delivery>::empty()));
        assert(r@.receipts =~= Set::<Seq<char>>::empty());
        r
    }

    fn find_subscription(&self, id: &str) -> (i: usize)
        ensures
            i == subscription_index(self@.subscriptions, id@),
            i <= self.subscriptions@.len(),
    {
        let mut i: usize = 0;
        while i < self.subscriptions.len() && !str_eq(self.subscriptions[i].id.as_str(), id)
            invariant
                0 <= i <= self.subscriptions@.len(),
                forall|j: int| 0 <= j < i ==> self.subscriptions@[j].id@ != id@,
            decreases self.subscriptions@.len() - i,
        {
            i = i + 1;
        }
        proof {
            lemma_subscription_index_is(self@.subscriptions, id@, i as int);
        }
        i
    }

    /// Records a subscription and gives its id and its `SUBSCRIBE` frame.
    /// The id is the decimal writing of the counter, which then moves on.
    /// It fails, changing nothing, only when the counter is at its end.
    pub fn subscribe_with_headers(
        &mut self,
        destination: &str,
        ack: AckMode,
        extra_headers: Vec<(String, String)>,
    ) -> (r: Result<(String, Frame), ConnError>)
        requires
            old(self).wf(),
        ensures
            final(self).wf(),
            r is Err <==> old(self)@.next_subscription == u64::MAX,
            r is Err ==> final(self)@ == old(self)@,
            r matches Ok((id, frame)) ==> {
                let entry = SubscriptionView {
                    id: decimal_text(old(self)@.next_subscription),
                    destination: destination@,
                    ack,
                    headers: headers_view(extra_headers@),
                };
                &&& id@ == entry.id
                &&& frame@ == subscribe_frame(entry)
                &&& final(self)@ == (ConnectionView {
                    subscriptions: old(self)@.subscriptions.push(entry),
                    next_subscription: old(self)@.next_subscription + 1,
                    ..old(self)@
                })
            },
    {
        if self.next_subscription == u64::MAX {
            return Err(ConnError::Protocol("subscription ids exhausted".to_owned()));
        }
        let number = self.next_subscription;
        let id = decimal_string(number);
        let entry = SubscriptionEntry {
            number,
            id: id.clone(),
            destination: destination.to_owned(),
            ack,
            headers: extra_headers,
        };
        let frame = subscription_frame(&entry);
        let ghost before = self.subscriptions@;
        let ghost view = entry@;
        self.subscriptions.push(entry);
        self.next_subscription = number + 1;
        proof {
            assert(table_view(self.subscriptions@) =~= table_view(before).push(view));
        }
        Ok((id, frame))
    }

    /// Subscribes without further headers.
    pub fn subscribe(&mut self, destination: &str, ack: AckMode) -> (r: Result<
        (String, Frame),
        ConnError,
    >)
        requires
            old(self).wf(),
        ensures
            final(self).wf(),
            r is Err <==> old(self)@.next_subscription == u64::MAX,
            r is Err ==> final(self)@ == old(self)@,
            r matches Ok((id, frame)) ==> {
                let entry = SubscriptionView {
                    id: decimal_text(old(self)@.next_subscription),
                    destination: destination@,
                    ack,
                    headers: Seq::empty(),
                };
                &&& id@ == entry.id
                &&& frame@ == subscribe_frame(entry)
                &&& final(self)@ == (ConnectionView {
                    subscriptions: old(self)@.subscriptions.push(entry),
                    next_subscription: old(self)@.next_subscription + 1,
                    ..old(self)@
                })
            },
    {
        let none: Vec<(String, String)> = Vec::new();
        assert(headers_view(none@) =~= Seq::empty());
        self.subscribe_with_headers(destination, ack, none)
    }

    /// Subscribes with options: a durable queue, when set, takes the place
    /// of the destination; the options' headers go along.
    pub fn subscribe_with_options(
        &mut self,
        destination: &str,
        ack: AckMode,
        options: SubscriptionOptions,
    ) -> (r: Result<(String, Frame), ConnError>)
        requires
            old(self).wf(),
        ensures
            final(self).wf(),
            r is Err <==> old(self)@.next_subscription == u64::MAX,
            r is Err ==> final(self)@ == old(self)@,
            r matches Ok((id, frame)) ==> {
                let entry = SubscriptionView {
                    id: decimal_text(old(self)@.next_subscription),
                    destination: match options.durable_queue {
                        Some(q) => q@,
                        None => destination@,
                    },
                    ack,
                    headers: headers_view(options.headers@),
                };
                &&& id@ == entry.id
                &&& frame@ == subscribe_frame(entry)
                &&& final(self)@ == (ConnectionView {
                    subscriptions: old(self)@.subscriptions.push(entry),
                    next_subscription: old(self)@.next_subscription + 1,
                    ..old(self)@
                })
            },
    {
        let SubscriptionOptions { headers, durable_queue } = options;
        match durable_queue {
            Some(q) => self.subscribe_with_headers(q.as_str(), ack, headers),
            None => self.subscribe_with_headers(destination, ack, headers),
        }
    }

    /// Forgets the subscription with the given id and gives its
    /// `UNSUBSCRIBE` frame. An unknown id is an error and changes nothing.
    pub fn unsubscribe(&mut self, subscription_id: &str) -> (r: Result<Frame, ConnError>)
        requires
            old(self).wf(),
        ensures
            final(self).wf(),
            ({
                let subs = old(self)@.subscriptions;
                let i = subscription_index(subs, subscription_id@);
                if i < subs.len() {
                    &&& r matches Ok(frame) && frame@ == one_header_frame(
                        "UNSUBSCRIBE"@,
                        "id"@,
                        subscription_id@,
                    )
                    &&& final(self)@ == (ConnectionView {
                        subscriptions: subs.remove(i),
                        ..old(self)@
                    })
                } else {
                    &&& r matches Err(ConnError::Protocol(m)) && m@ == "subscription id not found"@
                    &&& final(self)@ == old(self)@
                }
            }),
    {
        let i = self.find_subscription(subscription_id);
        if i >= self.subscriptions.len() {
            return Err(ConnError::Protocol("subscription id not found".to_owned()));
        }
        let ghost before = self.subscriptions@;
        self.subscriptions.remove(i);
        proof {
            let after = self.subscriptions@;
            assert(after =~= before.remove(i as int));
            assert(table_view(after) =~= table_view(before).remove(i as int));
            assert forall|x: int| 0 <= x < after.len() implies after[x].id@ == decimal_text(
                after[x].number as nat,
            ) && after[x].number < self.next_subscription by {
                let bx = if x < i {
                    x
                } else {
                    x + 1
                };
                assert(after[x] == before[bx]);
            }
            assert forall|x: int, y: int| 0 <= x < y < after.len() implies after[x].number
                < after[y].number by {
                let bx = if x < i {
                    x
                } else {
                    x + 1
                };
                let by_ = if y < i {
                    y
                } else {
                    y + 1
                };
                assert(after[x] == before[bx]);
                assert(after[y] == before[by_]);
            }
        }
        Ok(Frame::new("UNSUBSCRIBE").header("id", subscription_id))
    }

    fn settle(&mut self, command: &'static str, subscription_id: &str, message_id: &str) -> (frame:
        Frame)
        requires
            old(self).wf(),
        ensures
            final(self).wf(),
            frame@ == ack_frame(command@, message_id@, subscription_id@),
            final(self)@ == (ConnectionView {
                pending: pending_after_ack(
                    old(self)@.pending,
                    old(self)@.subscriptions,
                    subscription_id@,
                    message_id@,
                ),
                ..old(self)@
            }),
    {
        let i = self.find_subscription(subscription_id);
        let all = i >= self.subscriptions.len() || self.subscriptions[i].ack == AckMode::Client;
        let ghost before = self@;
        let _ = self.pending.acknowledge(subscription_id, message_id, all);
        proof {
            assert(self@.pending =~= before.pending.insert(
                subscription_id@,
                acknowledged(before.pending[subscription_id@], message_id@, all),
            ));
        }
        let frame = Frame::new(command).header("id", message_id).header(
            "subscription",
            subscription_id,
        );
        assert(frame@.headers =~= seq![("id"@, message_id@), ("subscription"@, subscription_id@)]);
        frame
    }

    /// Takes the application's acknowledgement of a message: the pending
    /// queue of the subscription loses the message and, in `client` mode or
    /// for an unknown subscription, everything before it. The `ACK` frame
    /// is given whether or not the message was pending.
    pub fn ack(&mut self, subscription_id: &str, message_id: &str) -> (frame: Frame)
        requires
            old(self).wf(),
        ensures
            final(self).wf(),
            frame@ == ack_frame("ACK"@, message_id@, subscription_id@),
            final(self)@ == (ConnectionView {
                pending: pending_after_ack(
                    old(self)@.pending,
                    old(self)@.subscriptions,
                    subscription_id@,
                    message_id@,
                ),
                ..old(self)@
            }),
    {
        self.settle("ACK", subscription_id, message_id)
    }

    /// Takes the application's refusal of a message. The pending queue
    /// changes as for `ack`; the frame is a `NACK`.
    pub fn nack(&mut self, subscription_id: &str, message_id: &str) -> (frame: Frame)
        requires
            old(self).wf(),
        ensures
            final(self).wf(),
            frame@ == ack_frame("NACK"@, message_id@, subscription_id@),
            final(self)@ == (ConnectionView {
                pending: pending_after_ack(
                    old(self)@.pending,
                    old(self)@.subscriptions,
                    subscription_id@,
                    message_id@,
                ),
                ..old(self)@
            }),
    {
        self.settle("NACK", subscription_id, message_id)
    }

    /// The `BEGIN` frame of a transaction.
    pub fn begin(&self, transaction_id: &str) -> (frame: Frame)
        ensures
            frame@ == one_header_frame("BEGIN"@, "transaction"@, transaction_id@),
    {
        transaction_frame("BEGIN", transaction_id)
    }

    /// The `COMMIT` frame of a transaction.
    pub fn commit(&self, transaction_id: &str) -> (frame: Frame)
        ensures
            frame@ == one_header_frame("COMMIT"@, "transaction"@, transaction_id@),
    {
        transaction_frame("COMMIT", transaction_id)
    }

    /// The `ABORT` frame of a transaction.
    pub fn abort(&self, transaction_id: &str) -> (frame: Frame)
        ensures
            frame@ == one_header_frame("ABORT"@, "transaction"@, transaction_id@),
    {
        transaction_frame("ABORT", transaction_id)
    }

    /// The `CONNECT` frame without options.
    pub fn connect(login: &str, passcode: &str, client_hb: &str) -> (frame: Frame)
        ensures
            frame@ == connect_frame(
                login@,
                passcode@,
                client_hb@,
                None,
                None,
                None,
                Seq::empty(),
            ),
    {
        let options = ConnectOptions::new();
        Connection::connect_with_options(login, passcode, client_hb, &options)
    }

    /// The `CONNECT` frame. Headers of the caller whose names are reserved
    /// are left out.
    #[verifier::rlimit(40)]
    pub fn connect_with_options(
        login: &str,
        passcode: &str,
        client_hb: &str,
        options: &ConnectOptions,
    ) -> (frame: Frame)
        ensures
            frame@ == connect_frame(
                login@,
                passcode@,
                client_hb@,
                opt_text(options.accept_version),
                opt_text(options.host),
                opt_text(options.client_id),
                headers_view(options.headers@),
            ),
    {
        let mut f = Frame::new("CONNECT");
        f = match &options.accept_version {
            Some(v) => f.header("accept-version", v),
            None => f.header("accept-version", "1.2"),
        };
        f = match &options.host {
            Some(h) => f.header("host", h),
            None => f.header("host", "/"),
        };
        f = f.header("login", login).header("passcode", passcode).header("heart-beat", client_hb);
        f = match &options.client_id {
            Some(c) => f.header("client-id", c),
            None => f,
        };
        let ghost head = f@.headers;
        let ghost extra = headers_view(options.headers@);
        assert(head =~= seq![
            ("accept-version"@, text_or(opt_text(options.accept_version), "1.2"@)),
            ("host"@, text_or(opt_text(options.host), "/"@)),
            ("login"@, login@),
            ("passcode"@, passcode@),
            ("heart-beat"@, client_hb@),
        ] + (match options.client_id {
            Some(c) => seq![("client-id"@, c@)],
            None => Seq::empty(),
        }));
        let mut i: usize = 0;
        assert(extra.take(0) =~= Seq::empty());
        assert(head + unreserved(extra.take(0)) =~= head);
        while i < options.headers.len()
            invariant
                0 <= i <= options.headers@.len(),
                extra == headers_view(options.headers@),
                f@.command == "CONNECT"@,
                f@.body == Seq::<u8>::empty(),
                f@.headers == head + unreserved(extra.take(i as int)),
            decreases options.headers@.len() - i,
        {
            let key = options.headers[i].0.as_str();
            assert(extra.take(i + 1).drop_last() =~= extra.take(i as int));
            assert(extra.take(i + 1).last() == extra[i as int]);
            let taken = is_named(key, "accept-version") || is_named(key, "host") || is_named(
                key,
                "login",
            ) || is_named(key, "passcode") || is_named(key, "heart-beat") || is_named(
                key,
                "client-id",
            );
            if !taken {
                f = f.header(&options.headers[i].0, &options.headers[i].1);
                assert(f@.headers =~= head + unreserved(extra.take(i + 1)));
            }
            i = i + 1;
        }
        assert(extra.take(i as int) =~= extra);
        f
    }

    /// Judges an item that arrives before the connection stands: a
    /// `CONNECTED` frame ends the handshake, an `ERROR` frame is the
    /// server's refusal, anything else is passed over.
    pub fn handshake(item: StompItem) -> (r: Handshake)
        ensures
            match item@ {
                crate::codec::ItemView::Heartbeat => r is Wait,
                crate::codec::ItemView::Frame(f) => if f.command == "CONNECTED"@ {
                    r matches Handshake::Connected(hb) && hb@ == (match first_named(
                        f.headers,
                        "heart-beat"@,
                    ) {
                        Some(v) => v,
                        None => "0,0"@,
                    })
                } else if f.command == "ERROR"@ {
                    r matches Handshake::Rejected(e) && e.describes(f)
                } else {
                    r is Wait
                },
            },
    {
        match item {
            StompItem::Heartbeat => Handshake::Wait,
            StompItem::Frame(f) => {
                if str_eq(f.command.as_str(), "CONNECTED") {
                    match f.header_named("heart-beat") {
                        Some(v) => Handshake::Connected(v.to_owned()),
                        None => Handshake::Connected("0,0".to_owned()),
                    }
                } else if str_eq(f.command.as_str(), "ERROR") {
                    Handshake::Rejected(ServerError::from_frame(f))
                } else {
                    Handshake::Wait
                }
            },
        }
    }

    /// The error of a stream that ends before `CONNECTED`.
    pub fn closed_before_connected() -> (e: ConnError)
        ensures
            e matches ConnError::Protocol(m) && m@ == "connection closed before CONNECTED"@,
    {
        ConnError::Protocol("connection closed before CONNECTED".to_owned())
    }

    /// The error of an operation on a manager that has shut down.
    pub fn channel_closed() -> (e: ConnError)
        ensures
            e matches ConnError::Protocol(m) && m@ == "send channel closed"@,
    {
        ConnError::Protocol("send channel closed".to_owned())
    }

    /// Enters steady state after `CONNECTED`: settles the heartbeat
    /// intervals from both headers, forgets every pending delivery, stamps
    /// both clocks, resets the backoff, and gives the `SUBSCRIBE` frame of
    /// every subscription, oldest first.
    pub fn established(&mut self, client_hb: &str, server_hb: &str, now: u64) -> (frames: Vec<
        Frame,
    >)
        requires
            old(self).wf(),
        ensures
            final(self).wf(),
            final(self)@ == (ConnectionView {
                pending: Map::total(|k: Seq<char>| Seq::<Delivery>::empty()),
                outgoing_ms: agreed(
                    field_value(first_field(client_hb.spec_bytes())) as u64,
                    field_value(second_field(server_hb.spec_bytes())) as u64,
                ) as nat,
                incoming_ms: agreed(
                    field_value(second_field(client_hb.spec_bytes())) as u64,
                    field_value(first_field(server_hb.spec_bytes())) as u64,
                ) as nat,
                last_sent: now as nat,
                last_received: now as nat,
                backoff_secs: 1,
                ..old(self)@
            }),
            frames@.len() == old(self)@.subscriptions.len(),
            forall|i: int|
                0 <= i < frames@.len() ==> (#[trigger] frames@[i])@ == subscribe_frame(
                    old(self)@.subscriptions[i],
                ),
    {
        let (cx, cy) = parse_heartbeat_header(client_hb);
        let (sx, sy) = parse_heartbeat_header(server_hb);
        let (outgoing, incoming) = negotiate_heartbeats(cx, cy, sx, sy);
        self.outgoing_ms = match outgoing {
            Some(d) => duration_as_millis(&d) as u64,
            None => 0,
        };
        self.incoming_ms = match incoming {
            Some(d) => duration_as_millis(&d) as u64,
            None => 0,
        };
        self.last_sent = now;
        self.last_received = now;
        self.backoff_secs = 1;
        self.pending.clear();
        let mut frames: Vec<Frame> = Vec::new();
        let mut i: usize = 0;
        while i < self.subscriptions.len()
            invariant
                0 <= i <= self.subscriptions@.len(),
                frames@.len() == i,
                forall|j: int|
                    0 <= j < i ==> (#[trigger] frames@[j])@ == subscribe_frame(
                        self.subscriptions@[j]@,
                    ),
            decreases self.subscriptions@.len() - i,
        {
            frames.push(subscription_frame(&self.subscriptions[i]));
            i = i + 1;
        }
        proof {
            assert(self@.pending =~= Map::total(|k: Seq<char>| Seq::<Delivery>::empty()));
        }
        frames
    }

    /// Stamps the clock of the last item sent. The clock never goes back.
    pub fn sent(&mut self, now: u64)
        requires
            old(self).wf(),
        ensures
            final(self).wf(),
            final(self)@ == (ConnectionView {
                last_sent: later(old(self)@.last_sent, now as nat),
                ..old(self)@
            }),
            final(self)@.last_sent >= old(self)@.last_sent,
    {
        if now > self.last_sent {
            self.last_sent = now;
        }
    }

    /// Stamps the clock of the last item received. The clock never goes
    /// back.
    pub fn received(&mut self, now: u64)
        requires
            old(self).wf(),
        ensures
            final(self).wf(),
            final(self)@ == (ConnectionView {
                last_received: later(old(self)@.last_received, now as nat),
                ..old(self)@
            }),
            final(self)@.last_received >= old(self)@.last_received,
    {
        if now > self.last_received {
            self.last_received = now;
        }
    }

    /// Whether a heartbeat is to be sent at a tick: heartbeats go out, and
    /// the outgoing interval has passed since the last item sent.
    pub fn heartbeat_due(&self, now: u64) -> (r: bool)
        ensures
            r == due(self@, now as nat),
    {
        self.outgoing_ms > 0 && now >= self.last_sent && now - self.last_sent >= self.outgoing_ms
    }

    /// Whether the watchdog gives the connection up: heartbeats are
    /// expected, and more than twice the incoming interval has passed since
    /// the last item received.
    pub fn watchdog_expired(&self, now: u64) -> (r: bool)
        ensures
            r == silent(self@, now as nat),
    {
        if self.incoming_ms == 0 || now < self.last_received {
            false
        } else {
            let elapsed = now - self.last_received;
            elapsed / 2 > self.incoming_ms || (elapsed / 2 == self.incoming_ms && elapsed % 2
                == 1)
        }
    }

    /// The time between heartbeat ticks, when heartbeats go out.
    pub fn heartbeat_period(&self) -> (r: Option<u64>)
        ensures
            match r {
                Some(ms) => ms > 0 && ms == self@.outgoing_ms,
                None => self@.outgoing_ms == 0,
            },
    {
        if self.outgoing_ms == 0 {
            None
        } else {
            Some(self.outgoing_ms)
        }
    }

    /// The time between watchdog checks, half the incoming interval, when
    /// heartbeats are expected.
    pub fn watchdog_period(&self) -> (r: Option<u64>)
        ensures
            match r {
                Some(ms) => self@.incoming_ms > 0 && ms == self@.incoming_ms / 2,
                None => self@.incoming_ms == 0,
            },
    {
        if self.incoming_ms == 0 {
            None
        } else {
            Some(self.incoming_ms / 2)
        }
    }

    /// Takes note of a failed attempt or a lost connection: gives the
    /// seconds to wait now and doubles the wait for the next time, up to
    /// thirty seconds.
    pub fn backoff(&mut self) -> (wait: u64)
        requires
            old(self).wf(),
        ensures
            final(self).wf(),
            wait == old(self)@.backoff_secs,
            1 <= wait <= 30,
            final(self)@ == (ConnectionView {
                backoff_secs: doubled(old(self)@.backoff_secs),
                ..old(self)@
            }),
    {
        let wait = self.backoff_secs;
        self.backoff_secs = if wait >= 15 {
            30
        } else {
            wait * 2
        };
        wait
    }

    fn find_receipt(&self, id: &str) -> (i: usize)
        ensures
            i <= self.receipts@.len(),
            i < self.receipts@.len() ==> self.receipts@[i as int]@ == id@,
            forall|j: int| 0 <= j < i ==> self.receipts@[j]@ != id@,
            (i < self.receipts@.len()) == self@.receipts.contains(id@),
    {
        let mut i: usize = 0;
        while i < self.receipts.len() && !str_eq(self.receipts[i].as_str(), id)
            invariant
                0 <= i <= self.receipts@.len(),
                forall|j: int| 0 <= j < i ==> self.receipts@[j]@ != id@,
            decreases self.receipts@.len() - i,
        {
            i = i + 1;
        }
        i
    }

    /// Starts to await the receipt `id`.
    #[verifier::rlimit(40)]
    pub fn register_receipt(&mut self, id: &str)
        requires
            old(self).wf(),
        ensures
            final(self).wf(),
            final(self)@ == (ConnectionView {
                receipts: old(self)@.receipts.insert(id@),
                ..old(self)@
            }),
    {
        let i = self.find_receipt(id);
        let ghost before = self.receipts@;
        if i >= self.receipts.len() {
            self.receipts.push(id.to_owned());
            proof {
                let after = self.receipts@;
                assert(forall|j: int| 0 <= j < before.len() ==> after[j] == before[j]);
                assert(after[before.len() as int]@ == id@);
                assert(self@.receipts =~= old(self)@.receipts.insert(id@)) by {
                    assert forall|k: Seq<char>| self@.receipts.contains(k) == old(
                        self,
                    )@.receipts.insert(id@).contains(k) by {
                        if old(self)@.receipts.contains(k) {
                            let j = choose|j: int| 0 <= j < before.len() && before[j]@ == k;
                            assert(after[j]@ == k);
                        }
                        if self@.receipts.contains(k) && k != id@ {
                            let j = choose|j: int| 0 <= j < after.len() && after[j]@ == k;
                            assert(before[j]@ == k);
                        }
                    }
                }
            }
        } else {
            assert(self@.receipts =~= old(self)@.receipts.insert(id@));
        }
    }

    /// Stops awaiting the receipt `id`; reports whether it was awaited.
    #[verifier::rlimit(40)]
    pub fn resolve_receipt(&mut self, id: &str) -> (known: bool)
        requires
            old(self).wf(),
        ensures
            final(self).wf(),
            known == old(self)@.receipts.contains(id@),
            final(self)@ == (ConnectionView {
                receipts: old(self)@.receipts.remove(id@),
                ..old(self)@
            }),
    {
        let i = self.find_receipt(id);
        let ghost before = self.receipts@;
        if i >= self.receipts.len() {
            assert(self@.receipts =~= old(self)@.receipts.remove(id@));
            return false;
        }
        self.receipts.remove(i);
        proof {
            let after = self.receipts@;
            assert(after =~= before.remove(i as int));
            assert forall|x: int, y: int| 0 <= x < y < after.len() implies after[x]@
                != after[y]@ by {
                let bx = if x < i {
                    x
                } else {
                    x + 1
                };
                let by_ = if y < i {
                    y
                } else {
                    y + 1
                };
                assert(after[x] == before[bx]);
                assert(after[y] == before[by_]);
            }
            assert(self@.receipts =~= old(self)@.receipts.remove(id@)) by {
                assert forall|k: Seq<char>| self@.receipts.contains(k) == old(
                    self,
                )@.receipts.remove(id@).contains(k) by {
                    if self@.receipts.contains(k) {
                        let j = choose|j: int| 0 <= j < after.len() && after[j]@ == k;
                        let bj = if j < i {
                            j
                        } else {
                            j + 1
                        };
                        assert(after[j] == before[bj]);
                        assert(before[bj]@ == k);
                        assert(bj != i);
                        assert(k != id@);
                    }
                    if old(self)@.receipts.contains(k) && k != id@ {
                        let j = choose|j: int| 0 <= j < before.len() && before[j]@ == k;
                        let aj = if j < i {
                            j
                        } else {
                            j - 1
                        };
                        assert(after[aj] == before[j]);
                    }
                }
            }
        }
        true
    }

    /// Whether the receipt `id` is awaited.
    pub fn is_receipt_pending(&self, id: &str) -> (r: bool)
        ensures
            r == self@.receipts.contains(id@),
    {
        let i = self.find_receipt(id);
        i < self.receipts.len()
    }

    /// Prepares a frame that asks for a receipt: makes the next receipt id,
    /// awaits it, and appends the `receipt` header. It fails, changing
    /// nothing, only when the counter is at its end.
    pub fn send_frame_with_receipt(&mut self, frame: Frame) -> (r: Result<(String, Frame), ConnError>)
        requires
            old(self).wf(),
        ensures
            final(self).wf(),
            r is Err <==> old(self)@.next_receipt == u64::MAX,
            r is Err ==> final(self)@ == old(self)@,
            r matches Ok((id, out)) ==> {
                &&& id@ == receipt_text(old(self)@.next_receipt)
                &&& out@ == (FrameView {
                    headers: frame@.headers.push(("receipt"@, id@)),
                    ..frame@
                })
                &&& final(self)@ == (ConnectionView {
                    receipts: old(self)@.receipts.insert(id@),
                    next_receipt: old(self)@.next_receipt + 1,
                    ..old(self)@
                })
            },
    {
        if self.next_receipt == u64::MAX {
            return Err(ConnError::Protocol("receipt ids exhausted".to_owned()));
        }
        let number = self.next_receipt;
        let mut id = "rcpt-".to_owned();
        let digits = decimal_string(number);
        id.append(digits.as_str());
        self.register_receipt(id.as_str());
        self.next_receipt = number + 1;
        let out = frame.receipt(&id);
        Ok((id, out))
    }

    /// Gives up awaiting the receipt `id` after its time has run out.
    pub fn receipt_timed_out(&mut self, id: &str) -> (e: ConnError)
        requires
            old(self).wf(),
        ensures
            final(self).wf(),
            e matches ConnError::ReceiptTimeout(m) && m@ == id@,
            final(self)@ == (ConnectionView {
                receipts: old(self)@.receipts.remove(id@),
                ..old(self)@
            }),
    {
        let _ = self.resolve_receipt(id);
        ConnError::ReceiptTimeout(id.to_owned())
    }

    /// Stops awaiting every receipt, as the connection is lost.
    pub fn drop_receipts(&mut self)
        requires
            old(self).wf(),
        ensures
            final(self).wf(),
            final(self)@ == (ConnectionView { receipts: Set::empty(), ..old(self)@ }),
    {
        self.receipts = Vec::new();
        assert(self@.receipts =~= Set::<Seq<char>>::empty());
    }

    /// The error of a receipt whose notifier went away with the connection.
    pub fn receipt_channel_closed() -> (e: ConnError)
        ensures
            e matches ConnError::Protocol(m) && m@ == "receipt channel closed unexpectedly"@,
    {
        ConnError::Protocol("receipt channel closed unexpectedly".to_owned())
    }

    /// Decides what to do about one event of the steady state.
    pub fn step(&mut self, event: Event, now: u64) -> (action: Action)
        requires
            old(self).wf(),
        ensures
            final(self).wf(),
            stepped(old(self)@, event, now as nat, action, final(self)@),
    {
        match event {
            Event::Shutdown => Action::Close,
            Event::Outbound(item) => {
                self.sent(now);
                Action::Write(item)
            },
            Event::Inbound(StompItem::Heartbeat) => {
                self.received(now);
                Action::Alive
            },
            Event::Inbound(StompItem::Frame(f)) => {
                self.received(now);
                Action::Routed(self.route(f))
            },
            Event::Tick => {
                if self.heartbeat_due(now) {
                    self.sent(now);
                    Action::Write(StompItem::Heartbeat)
                } else {
                    Action::Idle
                }
            },
            Event::Watchdog => {
                if self.watchdog_expired(now) {
                    Action::Disconnect
                } else {
                    Action::Idle
                }
            },
        }
    }

    /// Decides what happens to a frame that arrives in steady state.
    ///
    /// A `MESSAGE` goes to every subscription that its `subscription` header
    /// names or, without that header, that listens on its `destination`;
    /// with a `message-id` it also becomes pending for those of them that
    /// await acknowledgements. A `RECEIPT` ends the wait for its
    /// `receipt-id`. An `ERROR` is read and handed on as an error. Any
    /// other frame is handed on as it is.
    pub fn route(&mut self, frame: Frame) -> (r: Routing)
        requires
            old(self).wf(),
        ensures
            final(self).wf(),
            routed(old(self)@, frame@, r, final(self)@),
    {
        if str_eq(frame.command.as_str(), "MESSAGE") {
            let targets = self.dispatch(&frame);
            Routing::Deliver { frame, targets }
        } else if str_eq(frame.command.as_str(), "RECEIPT") {
            match frame.header_named("receipt-id") {
                Some(id) => {
                    if self.resolve_receipt(id) {
                        Routing::Receipt(Some(id.to_owned()))
                    } else {
                        Routing::Receipt(None)
                    }
                },
                None => Routing::Receipt(None),
            }
        } else if str_eq(frame.command.as_str(), "ERROR") {
            Routing::Failure(ServerError::from_frame(frame))
        } else {
            Routing::Forward(frame)
        }
    }

    #[verifier::rlimit(40)]
    fn dispatch(&mut self, frame: &Frame) -> (to: Vec<String>)
        requires
            old(self).wf(),
        ensures
            final(self).wf(),
            ids_view(to@) == targets(
                old(self)@.subscriptions,
                first_named(frame@.headers, "subscription"@),
                first_named(frame@.headers, "destination"@),
            ),
            final(self)@ == (ConnectionView {
                pending: pending_after(old(self)@.pending, old(self)@.subscriptions, frame@),
                ..old(self)@
            }),
    {
        let sub = frame.header_named("subscription");
        let dest = frame.header_named("destination");
        let mid = frame.header_named("message-id");
        let ghost gsub = first_named(frame@.headers, "subscription"@);
        let ghost gdest = first_named(frame@.headers, "destination"@);
        let ghost gmid = first_named(frame@.headers, "message-id"@);
        let ghost subs = self@.subscriptions;
        let ghost start = *self;
        let ghost d: Delivery = (
            match gmid {
                Some(m) => m,
                None => Seq::empty(),
            },
            frame@,
        );
        let mut to: Vec<String> = Vec::new();
        let n = self.subscriptions.len();
        let mut i: usize = 0;
        assert(subs.take(0) =~= Seq::empty());
        assert(ids_view(to@) =~= Seq::empty());
        assert forall|k: Seq<char>| !awaited_below(subs, gsub, gdest, k, 0) by {}
        while i < n
            invariant
                0 <= i <= n,
                n == self.subscriptions@.len(),
                start.wf(),
                self.wf(),
                self.subscriptions == start.subscriptions,
                self.receipts == start.receipts,
                self.next_subscription == start.next_subscription,
                self.next_receipt == start.next_receipt,
                self.outgoing_ms == start.outgoing_ms,
                self.incoming_ms == start.incoming_ms,
                self.last_sent == start.last_sent,
                self.last_received == start.last_received,
                self.backoff_secs == start.backoff_secs,
                subs == table_view(self.subscriptions@),
                subs == start@.subscriptions,
                gsub == opt_str_view(sub),
                gdest == opt_str_view(dest),
                gmid == opt_str_view(mid),
                gmid matches Some(m) ==> d == (m, frame@),
                ids_view(to@) == targets(subs.take(i as int), gsub, gdest),
                forall|k: Seq<char>| #[trigger]
                    self.pending.get(k) == grown(
                        start.pending.get(k),
                        gmid is Some && awaited_below(subs, gsub, gdest, k, i as int),
                        d,
                    ),
            decreases n - i,
        {
            let ghost ev = subs[i as int];
            assert(ev == self.subscriptions@[i as int]@);
            assert(subs.take(i + 1).drop_last() =~= subs.take(i as int));
            assert(subs.take(i + 1).last() == ev);
            let hit = match sub {
                Some(s) => str_eq(self.subscriptions[i].id.as_str(), s),
                None => match dest {
                    Some(d) => str_eq(self.subscriptions[i].destination.as_str(), d),
                    None => false,
                },
            };
            assert(hit == is_target(ev, gsub, gdest));
            let ghost prior = self.pending;
            let mut pushed = false;
            if hit {
                let ghost before_to = ids_view(to@);
                to.push(self.subscriptions[i].id.clone());
                assert(ids_view(to@) =~= before_to.push(ev.id));
                let auto = match self.subscriptions[i].ack {
                    AckMode::Auto => true,
                    _ => false,
                };
                if !auto {
                    match mid {
                        Some(m) => {
                            let key = self.subscriptions[i].id.clone();
                            self.pending.push(key.as_str(), m.to_owned(), frame.copy());
                            pushed = true;
                        },
                        None => {},
                    }
                }
            }
            proof {
                assert forall|k: Seq<char>| #[trigger]
                    self.pending.get(k) == grown(
                        start.pending.get(k),
                        gmid is Some && awaited_below(subs, gsub, gdest, k, i + 1),
                        d,
                    ) by {
                    lemma_awaited_step(subs, gsub, gdest, k, i as int);
                    assert(prior.get(k) == grown(
                        start.pending.get(k),
                        gmid is Some && awaited_below(subs, gsub, gdest, k, i as int),
                        d,
                    ));
                    if pushed && k == ev.id {
                        if awaited_below(subs, gsub, gdest, k, i as int) {
                            let j = choose|j: int| j < i && tracks(subs, gsub, gdest, k, j);
                            start.lemma_ids_differ(j, i as int);
                        }
                        assert(tracks(subs, gsub, gdest, k, i as int));
                    } else if pushed {
                        assert(self.pending.get(k) == prior.get(k));
                        assert(!tracks(subs, gsub, gdest, k, i as int));
                    } else {
                        assert(gmid is None || !tracks(subs, gsub, gdest, k, i as int));
                    }
                }
            }
            i = i + 1;
        }
        proof {
            assert(subs.take(n as int) =~= subs);
            assert(self@.pending =~= pending_after(start@.pending, subs, frame@)) by {
                assert forall|k: Seq<char>| #[trigger]
                    self@.pending[k] == pending_after(start@.pending, subs, frame@)[k] by {
                    assert(self@.pending[k] == self.pending.get(k));
                    assert(start@.pending[k] == start.pending.get(k));
                    if awaited(subs, gsub, gdest, k) {
                        let j = choose|j: int| tracks(subs, gsub, gdest, k, j);
                        assert(j < n && tracks(subs, gsub, gdest, k, j));
                    }
                    if awaited_below(subs, gsub, gdest, k, n as int) {
                        let j = choose|j: int| j < n && tracks(subs, gsub, gdest, k, j);
                        assert(tracks(subs, gsub, gdest, k, j));
                    }
                }
            }
        }
        to
    }

    /// Forgets the subscription with the given id, as its receiving end
    /// is gone; reports whether it was known.
    pub fn prune(&mut self, subscription_id: &str) -> (known: bool)
        requires
            old(self).wf(),
        ensures
            final(self).wf(),
            ({
                let subs = old(self)@.subscriptions;
                let i = subscription_index(subs, subscription_id@);
                &&& known == (i < subs.len())
                &&& final(self)@ == (if i < subs.len() {
                    ConnectionView { subscriptions: subs.remove(i), ..old(self)@ }
                } else {
                    old(self)@
                })
            }),
    {
        match self.unsubscribe(subscription_id) {
            Ok(_) => true,
            Err(_) => false,
        }
    }

    /// The message ids pending for a subscription, oldest first.
    pub fn pending_ids(&self, subscription_id: &str) -> (r: Vec<String>)
        ensures
            r@.len() == self@.pending[subscription_id@].len(),
            forall|j: int| 0 <= j < r@.len() ==> r@[j]@ == self@.pending[subscription_id@][j].0,
    {
        self.pending.message_ids(subscription_id)
    }

    /// The ids of the subscriptions, oldest first.
    pub fn subscription_ids(&self) -> (r: Vec<String>)
        ensures
            r@.len() == self@.subscriptions.len(),
            forall|j: int| 0 <= j < r@.len() ==> r@[j]@ == self@.subscriptions[j].id,
    {
        let mut r: Vec<String> = Vec::new();
        let mut i: usize = 0;
        while i < self.subscriptions.len()
            invariant
                0 <= i <= self.subscriptions@.len(),
                r@.len() == i,
                forall|j: int| 0 <= j < i ==> r@[j]@ == self.subscriptions@[j].id@,
            decreases self.subscriptions@.len() - i,
        {
            r.push(self.subscriptions[i].id.clone());
            i = i + 1;
        }
        r
    }

    /// The seconds to wait before the next attempt.
    pub fn backoff_secs(&self) -> (r: u64)
        ensures
            r == self@.backoff_secs,
    {
        self.backoff_secs
    }

    /// The subscription ids are all different.
    pub proof fn lemma_ids_differ(&self, i: int, j: int)
        requires
            self.wf(),
            0 <= i < self@.subscriptions.len(),
            0 <= j < self@.subscriptions.len(),
            i != j,
        ensures
            self@.subscriptions[i].id != self@.subscriptions[j].id,
    {
        let a = self.subscriptions@[i];
        let b = self.subscriptions@[j];
        if a.id@ == b.id@ {
            lemma_decimal_text_injective(a.number as nat, b.number as nat);
        }
    }
}

/// Builds the `SUBSCRIBE` frame of an entry.
pub fn subscription_frame(e: &SubscriptionEntry) -> (frame: Frame)
    ensures
        frame@ == subscribe_frame(e@),
{
    let mut f = Frame::new("SUBSCRIBE").header("id", &e.id).header(
        "destination",
        &e.destination,
    ).header("ack", e.ack.as_str());
    let ghost head = f@.headers;
    let ghost extra = headers_view(e.headers@);
    assert(head =~= seq![("id"@, e.id@), ("destination"@, e.destination@), ("ack"@, e.ack.text())]);
    let mut i: usize = 0;
    assert(head + extra.take(0) =~= head);
    while i < e.headers.len()
        invariant
            0 <= i <= e.headers@.len(),
            extra == headers_view(e.headers@),
            f@.command == "SUBSCRIBE"@,
            f@.body == Seq::<u8>::empty(),
            f@.headers == head + extra.take(i as int),
        decreases e.headers@.len() - i,
    {
        f = f.header(&e.headers[i].0, &e.headers[i].1);
        assert(f@.headers =~= head + extra.take(i + 1));
        i = i + 1;
    }
    assert(extra.take(i as int) =~= extra);
    f
}

/// A frame of `command` with a `transaction` header.
fn transaction_frame(command: &'static str, transaction_id: &str) -> (frame: Frame)
    ensures
        frame@ == one_header_frame(command@, "transaction"@, transaction_id@),
{
    Frame::new(command).header("transaction", transaction_id)
}

} // verus!
