//! Live event stream to the browsers (WebSocket): what a client connection does
//! with each outcome of the event bus.
use vstd::prelude::*;

verus! {

/// Outcome of waiting on the event bus.
pub enum BusEvent {
    /// An event to pass on.
    Message,
    /// The client fell behind and missed events.
    Lagged,
    /// The bus is closed.
    Closed,
}

/// What the connection does next.
pub enum SocketAction {
    /// Send the event to the client.
    Forward,
    /// Keep listening; missed events are not replayed.
    Skip,
    /// Close the connection.
    Stop,
}

/// Events are forwarded, a lag is ignored, and a closed bus ends the connection.
pub fn socket_action(ev: &BusEvent) -> (a: SocketAction)
    ensures
        a == match ev {
            BusEvent::Message => SocketAction::Forward,
            BusEvent::Lagged => SocketAction::Skip,
            BusEvent::Closed => SocketAction::Stop,
        },
{
    match ev {
        BusEvent::Message => SocketAction::Forward,
        BusEvent::Lagged => SocketAction::Skip,
        BusEvent::Closed => SocketAction::Stop,
    }
}

} // verus!
