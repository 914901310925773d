use ipc_pubsub::posix::fd_set;
use ipc_pubsub::waitset::{AttachError, Firing, WaitSet, WakeReason};

fn sig(fds: &[usize]) -> fd_set {
    let mut s = fd_set::new();
    for &fd in fds {
        s.insert(fd);
    }
    s
}

#[test]
fn notification_fires_exactly_on_signal() {
    let mut w = WaitSet::new();
    let g = w.attach_notification(7).unwrap();
    let fired = w.cycle(10, &sig(&[7]));
    assert_eq!(fired, vec![Firing { guard: g.id(), reason: WakeReason::Notification }]);
    let fired = w.cycle(20, &sig(&[]));
    assert_eq!(fired, Vec::<Firing>::new());
}

#[test]
fn duplicate_source_is_rejected_at_attach_time() {
    let mut w = WaitSet::new();
    let _g = w.attach_notification(7).unwrap();
    assert_eq!(w.attach_deadline(7, 100).err(), Some(AttachError::AlreadyAttached));
    assert_eq!(w.attach_notification(7).err(), Some(AttachError::AlreadyAttached));
}

#[test]
fn oversized_handle_is_rejected() {
    let mut w = WaitSet::new();
    assert_eq!(w.attach_notification(1 << 20).err(), Some(AttachError::InvalidHandle));
}

#[test]
fn deadline_fires_one_miss_per_window() {
    let mut w = WaitSet::new();
    let g = w.attach_deadline(3, 100).unwrap();
    // first window runs from attach time (clock 0): due at 100
    assert_eq!(w.cycle(50, &sig(&[])), Vec::<Firing>::new());
    let fired = w.cycle(150, &sig(&[]));
    assert_eq!(fired, vec![Firing { guard: g.id(), reason: WakeReason::MissedDeadline }]);
    // the miss reset the window to 150 + 100: no burst of misses
    assert_eq!(w.cycle(200, &sig(&[])), Vec::<Firing>::new());
    assert_eq!(w.cycle(249, &sig(&[])), Vec::<Firing>::new());
    let fired = w.cycle(250, &sig(&[]));
    assert_eq!(fired, vec![Firing { guard: g.id(), reason: WakeReason::MissedDeadline }]);
}

#[test]
fn signal_resets_deadline_window() {
    let mut w = WaitSet::new();
    let g = w.attach_deadline(3, 100).unwrap();
    let fired = w.cycle(90, &sig(&[3]));
    assert_eq!(fired, vec![Firing { guard: g.id(), reason: WakeReason::Notification }]);
    // window restarted at 90: no miss before 190
    assert_eq!(w.cycle(120, &sig(&[])), Vec::<Firing>::new());
    assert_eq!(w.cycle(189, &sig(&[])), Vec::<Firing>::new());
    let fired = w.cycle(190, &sig(&[]));
    assert_eq!(fired, vec![Firing { guard: g.id(), reason: WakeReason::MissedDeadline }]);
}

#[test]
fn interval_fires_every_period_regardless_of_signals() {
    let mut w = WaitSet::new();
    let n = w.attach_notification(4).unwrap();
    let t = w.attach_interval(100);
    // nothing due yet, with or without notification traffic
    let fired = w.cycle(50, &sig(&[4]));
    assert_eq!(fired, vec![Firing { guard: n.id(), reason: WakeReason::Notification }]);
    // tick due at 100, concurrent signal does not suppress or duplicate it
    let fired = w.cycle(100, &sig(&[4]));
    assert_eq!(
        fired,
        vec![
            Firing { guard: n.id(), reason: WakeReason::Notification },
            Firing { guard: t.id(), reason: WakeReason::IntervalTick },
        ]
    );
    // re-armed at 200; a silent cycle fires the tick alone
    assert_eq!(w.cycle(150, &sig(&[])), Vec::<Firing>::new());
    let fired = w.cycle(200, &sig(&[]));
    assert_eq!(fired, vec![Firing { guard: t.id(), reason: WakeReason::IntervalTick }]);
}

#[test]
fn detach_stops_dispatch_from_next_cycle() {
    let mut w = WaitSet::new();
    let a = w.attach_notification(1).unwrap();
    let b = w.attach_notification(2).unwrap();
    let fired = w.cycle(10, &sig(&[1, 2]));
    assert_eq!(fired.len(), 2);
    let a_id = a.id();
    w.detach(a);
    let fired = w.cycle(20, &sig(&[1, 2]));
    assert_eq!(fired, vec![Firing { guard: b.id(), reason: WakeReason::Notification }]);
    assert!(fired.iter().all(|f| f.guard != a_id));
}

#[test]
fn detached_source_can_be_attached_again() {
    let mut w = WaitSet::new();
    let a = w.attach_notification(1).unwrap();
    w.detach(a);
    assert!(w.attach_deadline(1, 100).is_ok());
}

#[test]
fn next_timeout_is_least_remaining_time() {
    let mut w = WaitSet::new();
    // nothing timed: the blocking call may wait forever
    assert_eq!(w.next_timeout(0), None);
    let _n = w.attach_notification(9).unwrap();
    assert_eq!(w.next_timeout(0), None);
    let _d = w.attach_deadline(3, 100).unwrap();
    let _t = w.attach_interval(30);
    assert_eq!(w.next_timeout(0), Some(30));
    assert_eq!(w.next_timeout(25), Some(5));
    // past due: wake immediately
    assert_eq!(w.next_timeout(40), Some(0));
}

#[test]
fn interval_alone_drives_a_periodic_loop() {
    let mut w = WaitSet::new();
    let t = w.attach_interval(10);
    let mut now = 0u64;
    let mut ticks = 0usize;
    for _ in 0..5 {
        let timeout = w.next_timeout(now).unwrap();
        now += timeout.max(1);
        for f in w.cycle(now, &sig(&[])) {
            assert_eq!(f.guard, t.id());
            assert_eq!(f.reason, WakeReason::IntervalTick);
            ticks += 1;
        }
    }
    assert_eq!(ticks, 5);
    assert_eq!(now, 50);
}
