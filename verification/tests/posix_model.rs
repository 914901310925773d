use ipc_pubsub::posix::{fd_set, sem_t, SemError, SemWaitStep, FD_SETSIZE};

#[test]
fn semaphore_post_and_try_wait() {
    let mut s = sem_t::new(0);
    assert_eq!(s.try_wait(), Err(SemError::WouldBlock));
    assert_eq!(s.post(), Ok(()));
    assert_eq!(s.post(), Ok(()));
    assert_eq!(s.try_wait(), Ok(()));
    assert_eq!(s.try_wait(), Ok(()));
    assert_eq!(s.try_wait(), Err(SemError::WouldBlock));
}

#[test]
fn semaphore_post_overflows_at_max() {
    let mut s = sem_t::new(u32::MAX);
    assert_eq!(s.post(), Err(SemError::Overflow));
    assert_eq!(s.try_wait(), Ok(()));
    assert_eq!(s.post(), Ok(()));
}

#[test]
fn timed_wait_acquires_when_count_available() {
    let mut s = sem_t::new(1);
    assert_eq!(s.timedwait_step(5, 0, 4, 0), SemWaitStep::Acquired);
}

#[test]
fn timed_wait_expires_after_absolute_timeout() {
    let mut s = sem_t::new(0);
    // not yet past the timeout: keep waiting
    assert_eq!(s.timedwait_step(4, 999, 5, 0), SemWaitStep::KeepWaiting);
    assert_eq!(s.timedwait_step(5, 0, 5, 0), SemWaitStep::KeepWaiting);
    // strictly after it, in the nanosecond field alone: expired
    assert_eq!(s.timedwait_step(5, 1, 5, 0), SemWaitStep::TimedOut);
    assert_eq!(s.timedwait_step(6, 0, 5, 0), SemWaitStep::TimedOut);
}

#[test]
fn descriptor_set_membership() {
    let mut s = fd_set::new();
    assert!(!s.contains(5));
    s.insert(5);
    s.insert(FD_SETSIZE - 1);
    assert!(s.contains(5));
    assert!(s.contains(FD_SETSIZE - 1));
    assert!(!s.contains(6));
    s.remove(5);
    assert!(!s.contains(5));
    assert!(s.contains(FD_SETSIZE - 1));
    s.clear_all();
    assert!(!s.contains(FD_SETSIZE - 1));
}
