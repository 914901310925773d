//! The control-plane event identifiers exchanged between ports.

use vstd::prelude::*;

verus! {

/// One event identifier, carried over the event channel of a service.
///
/// The enumeration is a stable contract between cooperating processes: it
/// signals connection handshakes, disconnects and data-plane activity, and
/// nothing else. Payload never travels through the event channel.
#[derive(Clone, Copy, Debug, PartialEq, Eq, Structural)]
pub enum EventId {
    PublisherConnected,
    PublisherDisconnected,
    SubscriberConnected,
    SubscriberDisconnected,
    SentSample,
    SentHistory,
    ReceivedSample,
}

/// Why a notification was not delivered.
#[derive(Clone, Copy, Debug, PartialEq, Eq, Structural)]
pub enum NotifyError {
    /// The peer channel no longer exists; the notification is a no-op.
    ChannelClosed,
}

} // verus!
