//! Core of a publish/subscribe messaging client.
//!
//! - `queue`: the FIFO delivery queue of one subscription, closable.
//! - `registry`: maps subscription identifiers to their queues.
//! - `request`: request-reply over a transient inbox subscription.
//! - `drain`, `flush`: graceful unsubscribe and PING/PONG matching.
//! - `connection`: the connection lifecycle state machine and backoff.
//! - `outbox`: writes held during an outage, replayed after reconnecting.
//! - `proto`, `parse`, `reader`: the wire codec and what the reader does
//!   with each decoded frame.

pub mod message;
pub mod queue;
pub mod registry;
pub mod request;
pub mod drain;
pub mod flush;
pub mod connection;
pub mod proto;
pub mod outbox;
pub mod parse;
pub mod reader;
