//! A STOMP 1.2 client core: frames, the wire codec, heartbeat negotiation and
//! the connection manager's bookkeeping, with machine-checked contracts.

pub mod buffer;
pub mod cli;
pub mod codec;
pub mod connection;
pub mod error;
pub mod escape;
pub mod frame;
pub mod heartbeat;
pub mod number;
pub mod options;
pub mod parser;
pub mod pending;
pub mod scan;
pub mod stream;
pub mod text;
pub mod wire;

pub use codec::{CodecError, StompCodec, StompItem};
pub use connection::{Action, Connection, Event, Handshake, Routing};
pub use error::{ConnError, ReceivedFrame, ServerError};
pub use frame::Frame;
pub use heartbeat::{negotiate_heartbeats, parse_heartbeat_header, Heartbeat};
pub use options::{AckMode, ConnectOptions, SubscriptionOptions};
