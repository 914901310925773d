use ipc_pubsub::channel::{EventChannel, EventQueue};
use ipc_pubsub::event::{EventId, NotifyError};

#[test]
fn queue_keeps_arrival_order() {
    let mut q = EventQueue::new(8);
    q.push(EventId::PublisherConnected);
    q.push(EventId::SentSample);
    q.push(EventId::SentHistory);
    let drained = q.try_drain();
    assert_eq!(
        drained,
        vec![EventId::PublisherConnected, EventId::SentSample, EventId::SentHistory]
    );
}

#[test]
fn queue_overflow_drops_oldest() {
    let mut q = EventQueue::new(3);
    q.push(EventId::PublisherConnected);
    q.push(EventId::SentSample);
    q.push(EventId::SentHistory);
    q.push(EventId::ReceivedSample);
    let drained = q.try_drain();
    assert_eq!(
        drained,
        vec![EventId::SentSample, EventId::SentHistory, EventId::ReceivedSample]
    );
}

#[test]
fn try_drain_on_empty_is_idempotent() {
    let mut q = EventQueue::new(4);
    assert_eq!(q.try_drain(), Vec::<EventId>::new());
    assert_eq!(q.try_drain(), Vec::<EventId>::new());
    q.push(EventId::SentSample);
    assert_eq!(q.try_drain(), vec![EventId::SentSample]);
    assert_eq!(q.try_drain(), Vec::<EventId>::new());
    assert_eq!(q.try_drain(), Vec::<EventId>::new());
}

#[test]
fn queue_signaled_tracks_non_emptiness() {
    let mut q = EventQueue::new(4);
    assert!(!q.is_signaled());
    q.push(EventId::SentSample);
    assert!(q.is_signaled());
    let _ = q.try_drain();
    assert!(!q.is_signaled());
}

#[test]
fn zero_capacity_queue_drops_everything() {
    let mut q = EventQueue::new(0);
    q.push(EventId::SentSample);
    assert_eq!(q.len(), 0);
    assert_eq!(q.try_drain(), Vec::<EventId>::new());
}

#[test]
fn notify_broadcasts_to_every_listener() {
    let mut c = EventChannel::new(4);
    let a = c.add_listener();
    let b = c.add_listener();
    assert_eq!(c.notify(EventId::SentSample), Ok(()));
    assert!(c.is_signaled(a));
    assert!(c.is_signaled(b));
    assert_eq!(c.try_drain(a), vec![EventId::SentSample]);
    assert_eq!(c.try_drain(b), vec![EventId::SentSample]);
    assert!(!c.is_signaled(a));
}

#[test]
fn channel_drain_empty_never_errors() {
    let mut c = EventChannel::new(4);
    let a = c.add_listener();
    assert_eq!(c.try_drain(a), Vec::<EventId>::new());
    assert_eq!(c.try_drain(a), Vec::<EventId>::new());
}

#[test]
fn notify_on_closed_channel_fails_with_channel_closed() {
    let mut c = EventChannel::new(4);
    let a = c.add_listener();
    assert_eq!(c.notify(EventId::SentSample), Ok(()));
    c.close();
    assert!(!c.is_channel_open());
    assert_eq!(c.notify(EventId::SentHistory), Err(NotifyError::ChannelClosed));
    // what was queued before the teardown is still drainable
    assert_eq!(c.try_drain(a), vec![EventId::SentSample]);
}
