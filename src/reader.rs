use vstd::prelude::*;
use crate::connection::Event;
use crate::message::Message;
use crate::parse::{Inbound, classify_error, is_fatal_reason};

verus! {

/// What the reader task does with one decoded frame.
#[derive(Debug)]
pub enum ReaderStep {
    /// Route the message to the queue of subscription `sid`.
    Deliver { sid: u64, message: Message },
    /// Answer the server's PING with a PONG.
    SendPong,
    /// Hand the event to the connection's lifecycle.
    Lifecycle(Event),
    /// Record the server's advertised information (a JSON document).
    ServerInfo(Vec<u8>),
    /// Nothing to do (`+OK` acknowledgements).
    Ignore,
}

/// Decides what the reader does with frame `f`.
pub fn route(f: Inbound) -> (r: ReaderStep)
    ensures
        match f {
            Inbound::Msg { subject, sid, reply, payload } => r == ReaderStep::Deliver {
                sid,
                message: Message { subject, reply, data: payload },
            },
            Inbound::Ping => r is SendPong,
            Inbound::Pong => r == ReaderStep::Lifecycle(Event::Pong),
            Inbound::Okay => r is Ignore,
            Inbound::ServerErr(reason) => r == ReaderStep::Lifecycle(
                Event::ServerError { fatal: is_fatal_reason(reason@) },
            ),
            Inbound::Info(doc) => r == ReaderStep::ServerInfo(doc),
        },
{
    match f {
        Inbound::Msg { subject, sid, reply, payload } => ReaderStep::Deliver {
            sid,
            message: Message::new(subject, reply, payload),
        },
        Inbound::Ping => ReaderStep::SendPong,
        Inbound::Pong => ReaderStep::Lifecycle(Event::Pong),
        Inbound::Okay => ReaderStep::Ignore,
        Inbound::ServerErr(reason) => {
            let fatal = classify_error(reason.as_slice());
            ReaderStep::Lifecycle(Event::ServerError { fatal })
        },
        Inbound::Info(doc) => ReaderStep::ServerInfo(doc),
    }
}

} // verus!
