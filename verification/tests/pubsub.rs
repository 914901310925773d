use ipc_pubsub::name::{NameError, ServiceName};
use ipc_pubsub::service::{
    ConfigError, LoanError, PortError, Service, ServiceConfig, SubscriberStatus,
};

fn cfg(history: usize, buffer: usize, loans: usize, subs: usize) -> ServiceConfig {
    ServiceConfig {
        history_size: history,
        max_buffer_size: buffer,
        max_loans: loans,
        max_subscribers: subs,
        event_queue_capacity: 16,
    }
}

fn new_service(history: usize, buffer: usize, loans: usize, subs: usize) -> Service {
    let name = ServiceName::new(b"My/Funk/ServiceName".to_vec()).unwrap();
    Service::create(name, cfg(history, buffer, loans, subs)).unwrap()
}

#[test]
fn service_name_rules() {
    assert!(ServiceName::new(b"My/Funk/ServiceName".to_vec()).is_ok());
    assert!(ServiceName::new(b"plain-name_0.9".to_vec()).is_ok());
    assert_eq!(ServiceName::new(Vec::new()).err(), Some(NameError::InvalidName));
    assert_eq!(ServiceName::new(b"/leading".to_vec()).err(), Some(NameError::InvalidName));
    assert_eq!(ServiceName::new(b"trailing/".to_vec()).err(), Some(NameError::InvalidName));
    assert_eq!(ServiceName::new(b"a//b".to_vec()).err(), Some(NameError::InvalidName));
    assert_eq!(ServiceName::new(b"has space".to_vec()).err(), Some(NameError::InvalidName));
    assert!(ServiceName::new(vec![b'a'; 255]).is_ok());
    assert_eq!(ServiceName::new(vec![b'a'; 256]).err(), Some(NameError::InvalidName));
}

#[test]
fn config_is_validated_at_construction() {
    let name = ServiceName::new(b"svc".to_vec()).unwrap();
    assert_eq!(
        Service::create(name, cfg(4, 0, 1, 1)).err(),
        Some(ConfigError::InvalidConfig)
    );
    let name = ServiceName::new(b"svc".to_vec()).unwrap();
    assert_eq!(
        Service::create(name, cfg(4, 4, 0, 1)).err(),
        Some(ConfigError::InvalidConfig)
    );
}

#[test]
fn single_publisher_per_service() {
    let mut svc = new_service(4, 4, 2, 2);
    assert_eq!(svc.create_publisher(), Ok(()));
    assert_eq!(svc.create_publisher(), Err(PortError::AlreadyExists));
}

#[test]
fn subscriber_limit_is_enforced() {
    let mut svc = new_service(4, 4, 2, 1);
    assert_eq!(svc.create_subscriber(), Ok(0));
    assert_eq!(svc.create_subscriber(), Err(PortError::ResourceExhausted));
}

#[test]
fn ports_fail_on_closed_channel() {
    let mut svc = new_service(4, 4, 2, 2);
    svc.close_channel();
    assert!(!svc.chan_is_open());
    assert_eq!(svc.create_publisher(), Err(PortError::ChannelClosed));
    assert_eq!(svc.create_subscriber(), Err(PortError::ChannelClosed));
}

#[test]
fn in_order_delivery_no_loss_no_duplication() {
    let mut svc = new_service(8, 8, 2, 1);
    svc.create_publisher().unwrap();
    let s = svc.create_subscriber().unwrap();
    svc.handle_connections();
    assert_eq!(svc.subscriber_status(s), SubscriberStatus::Connected);
    for v in [10, 11, 12, 13, 14] {
        svc.publish(v).unwrap();
    }
    let mut got = Vec::new();
    while let Some(v) = svc.receive(s) {
        got.push(v);
    }
    assert_eq!(got, vec![10, 11, 12, 13, 14]);
    assert_eq!(svc.receive(s), None);
    assert_eq!(svc.receive(s), None);
}

#[test]
fn late_subscriber_gets_full_history_in_order() {
    let mut svc = new_service(8, 8, 2, 1);
    svc.create_publisher().unwrap();
    for v in [1, 2, 3] {
        svc.publish(v).unwrap();
    }
    let s = svc.create_subscriber().unwrap();
    svc.handle_connections();
    let got = svc.handle_events(s);
    assert_eq!(got, vec![1, 2, 3]);
}

#[test]
fn late_subscriber_beyond_capacity_gets_most_recent_history() {
    let mut svc = new_service(3, 8, 2, 1);
    svc.create_publisher().unwrap();
    for v in [1, 2, 3, 4, 5] {
        svc.publish(v).unwrap();
    }
    let s = svc.create_subscriber().unwrap();
    svc.handle_connections();
    let got = svc.handle_events(s);
    assert_eq!(got, vec![3, 4, 5]);
}

#[test]
fn lagging_subscriber_drops_oldest_not_newest() {
    let mut svc = new_service(2, 2, 1, 1);
    svc.create_publisher().unwrap();
    let s = svc.create_subscriber().unwrap();
    svc.handle_connections();
    for v in [1, 2, 3, 4] {
        svc.publish(v).unwrap();
    }
    assert_eq!(svc.receive(s), Some(3));
    assert_eq!(svc.receive(s), Some(4));
    assert_eq!(svc.receive(s), None);
}

#[test]
fn loan_pool_exhaustion_is_recoverable() {
    // pool of two slots: one history entry plus one loan
    let mut svc = new_service(1, 3, 1, 1);
    svc.create_publisher().unwrap();
    let s = svc.create_subscriber().unwrap();
    svc.handle_connections();
    svc.publish(1).unwrap();
    svc.publish(2).unwrap();
    // both slots are still referenced by the subscriber's queue
    assert_eq!(svc.publish(3), Err(LoanError::ResourceExhausted));
    // consuming a sample releases its slot; publishing works again
    assert_eq!(svc.receive(s), Some(1));
    assert_eq!(svc.publish(3), Ok(()));
}

#[test]
fn publisher_alone_never_exhausts_the_pool() {
    let mut svc = new_service(2, 2, 1, 1);
    svc.create_publisher().unwrap();
    for v in 0..100 {
        assert_eq!(svc.publish(v), Ok(()));
    }
}

#[test]
fn end_to_end_history_then_live() {
    let mut svc = new_service(20, 20, 2, 2);
    svc.create_publisher().unwrap();
    let s0 = svc.create_subscriber().unwrap();
    svc.handle_connections();
    for v in [0, 1, 2, 3, 4] {
        svc.publish(v).unwrap();
    }
    assert_eq!(svc.handle_events(s0), vec![0, 1, 2, 3, 4]);
    // a second subscriber connects after the first five values
    let s1 = svc.create_subscriber().unwrap();
    svc.handle_connections();
    svc.publish(5).unwrap();
    // replayed history first, the live sample after it
    assert_eq!(svc.handle_events(s1), vec![0, 1, 2, 3, 4, 5]);
    // the first subscriber sees only the live sample
    assert_eq!(svc.handle_events(s0), vec![5]);
}

#[test]
fn pending_subscriber_misses_sends_until_connected() {
    let mut svc = new_service(0, 4, 1, 1);
    svc.create_publisher().unwrap();
    let s = svc.create_subscriber().unwrap();
    assert_eq!(svc.subscriber_status(s), SubscriberStatus::Pending);
    // no history retained and the handshake not yet handled: this one is lost
    svc.publish(7).unwrap();
    svc.handle_connections();
    assert_eq!(svc.subscriber_status(s), SubscriberStatus::Connected);
    assert_eq!(svc.receive(s), None);
    svc.publish(8).unwrap();
    assert_eq!(svc.receive(s), Some(8));
}

#[test]
fn handle_events_without_data_event_receives_nothing() {
    let mut svc = new_service(4, 4, 1, 1);
    svc.create_publisher().unwrap();
    let s = svc.create_subscriber().unwrap();
    svc.handle_connections();
    // drain the connection-handshake noise; no data event arrived yet
    assert_eq!(svc.handle_events(s), Vec::<u64>::new());
    svc.publish(9).unwrap();
    assert_eq!(svc.handle_events(s), vec![9]);
}

#[test]
fn disconnect_is_terminal_and_best_effort() {
    let mut svc = new_service(4, 4, 1, 2);
    svc.create_publisher().unwrap();
    let s = svc.create_subscriber().unwrap();
    svc.handle_connections();
    svc.publish(1).unwrap();
    svc.disconnect_subscriber(s);
    assert_eq!(svc.subscriber_status(s), SubscriberStatus::Disconnected);
    // no longer delivered to
    svc.publish(2).unwrap();
    assert_eq!(svc.receive(s), Some(1));
    assert_eq!(svc.receive(s), None);
    // teardown after the channel is gone must not fail
    svc.close_channel();
    svc.disconnect_subscriber(s);
    svc.disconnect_publisher();
}

#[test]
fn listener_handles_signal_on_activity() {
    let mut svc = new_service(4, 4, 1, 1);
    svc.create_publisher().unwrap();
    let s = svc.create_subscriber().unwrap();
    let pl = svc.publisher_listener_handle();
    let sl = svc.subscriber_listener_handle(s);
    // the subscriber's handshake is queued for the publisher
    assert!(svc.listener_signaled(pl));
    svc.handle_connections();
    // the history replay notification reaches every listener, the
    // publisher's own included
    assert!(svc.listener_signaled(sl));
    assert!(svc.listener_signaled(pl));
    // a second pass drains the publisher's own echo; with no handshake
    // among the drained events nothing new is fired
    svc.handle_connections();
    assert!(!svc.listener_signaled(pl));
}
