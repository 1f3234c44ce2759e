//! What observers of a session are told.

use crate::codec::DecodeError;
use crate::response::{Response, ResponseView};
use vstd::prelude::*;

verus! {

/// What went wrong on the socket.
#[derive(Clone, Copy, Debug, PartialEq, Eq, Structural)]
pub enum IoFault {
    /// The peer closed the connection.
    EndOfStream,
    /// A read failed.
    ReadFailed,
    /// A write failed.
    WriteFailed,
}

/// Why a session ended, when it did not end on request.
#[derive(Clone, Copy, Debug, PartialEq, Eq, Structural)]
pub enum Fault {
    /// The peer sent a frame that is no response.
    Protocol(DecodeError),
    /// Reading or writing failed.
    Io(IoFault),
    /// A liveness probe could not be written.
    Heartbeat,
}

/// One step in the life of a connection, as published to observers.
#[derive(Debug, PartialEq, Eq)]
pub enum SessionEvent {
    /// The connection stands.
    Connected,
    /// The connection is gone; `None` after a shutdown on request.
    Disconnected { reason: Option<Fault> },
    /// The peer sent a response.
    DataReceived(Response),
}

/// An event as contracts speak of it.
pub enum EventView {
    Connected,
    Disconnected { reason: Option<Fault> },
    DataReceived(ResponseView),
}

impl View for SessionEvent {
    type V = EventView;

    open spec fn view(&self) -> EventView {
        match self {
            SessionEvent::Connected => EventView::Connected,
            SessionEvent::Disconnected { reason } => EventView::Disconnected { reason: *reason },
            SessionEvent::DataReceived(response) => EventView::DataReceived(response@),
        }
    }
}

impl Clone for SessionEvent {
    fn clone(&self) -> (r: Self)
        ensures
            r@ == self@,
    {
        match self {
            SessionEvent::Connected => SessionEvent::Connected,
            SessionEvent::Disconnected { reason } => SessionEvent::Disconnected { reason: *reason },
            SessionEvent::DataReceived(response) => SessionEvent::DataReceived(response.clone()),
        }
    }
}

/// The events of a sequence as contracts speak of them.
pub open spec fn views(events: Seq<SessionEvent>) -> Seq<EventView> {
    Seq::new(events.len(), |i: int| events[i]@)
}

} // verus!
