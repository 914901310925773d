//! Models of the two OS synchronization primitives the transport's
//! backends are built on: a counting semaphore (`sem_t`) and a descriptor
//! set (`fd_set`).
//!
//! Blocking itself stays outside the crate; what is verified here is the
//! counter and membership logic every backend relies on: posting and
//! consuming the semaphore count, the expiry decision of a timed wait, and
//! the bookkeeping of which waitable handles belong to a set.

use vstd::prelude::*;

verus! {

/// Failures of the semaphore operations.
#[derive(Clone, Copy, Debug, PartialEq, Eq, Structural)]
pub enum SemError {
    /// The count is already at its maximum; posting again would overflow.
    Overflow,
    /// The count is zero; a non-blocking wait cannot take it.
    WouldBlock,
}

/// One step of a timed wait: what the caller should do next.
#[derive(Clone, Copy, Debug, PartialEq, Eq, Structural)]
pub enum SemWaitStep {
    /// The count was taken; the wait is over.
    Acquired,
    /// The absolute timeout has passed without the count becoming
    /// available.
    TimedOut,
    /// Neither: the caller sleeps briefly and retries.
    KeepWaiting,
}

/// Whether a wall-clock reading lies strictly after an absolute timeout,
/// both given as (seconds, nanoseconds) pairs.
pub open spec fn spec_deadline_passed(
    now_sec: i64,
    now_nsec: i64,
    abs_sec: i64,
    abs_nsec: i64,
) -> bool {
    now_sec > abs_sec || (now_sec == abs_sec && now_nsec > abs_nsec)
}

/// A counting semaphore: the state every semaphore-backed event channel
/// shares between its posting and its waiting side.
pub struct sem_t {
    value: u32,
}

impl sem_t {
    /// The current count.
    pub closed spec fn count(&self) -> u32 {
        self.value
    }

    pub fn new(value: u32) -> (s: sem_t)
        ensures
            s.count() == value,
    {
        sem_t { value }
    }

    /// Increments the count. Fails exactly when the count is already at
    /// `u32::MAX`, and then changes nothing.
    pub fn post(&mut self) -> (r: Result<(), SemError>)
        ensures
            old(self).count() == u32::MAX ==> r == Result::<(), SemError>::Err(SemError::Overflow)
                && final(self).count() == old(self).count(),
            old(self).count() < u32::MAX ==> r is Ok && final(self).count() == old(self).count()
                + 1,
    {
        if self.value == u32::MAX {
            return Err(SemError::Overflow);
        }
        self.value = self.value + 1;
        Ok(())
    }

    /// Takes the count without blocking. Fails exactly when the count is
    /// zero, and then changes nothing.
    pub fn try_wait(&mut self) -> (r: Result<(), SemError>)
        ensures
            old(self).count() == 0 ==> r == Result::<(), SemError>::Err(SemError::WouldBlock)
                && final(self).count() == 0,
            old(self).count() > 0 ==> r is Ok && final(self).count() == old(self).count() - 1,
    {
        if self.value == 0 {
            return Err(SemError::WouldBlock);
        }
        self.value = self.value - 1;
        Ok(())
    }

    /// One iteration of a timed wait against an absolute timeout: try to
    /// take the count; if that fails and the clock reading lies after the
    /// timeout, report expiry; otherwise the caller sleeps and retries.
    pub fn timedwait_step(
        &mut self,
        now_sec: i64,
        now_nsec: i64,
        abs_sec: i64,
        abs_nsec: i64,
    ) -> (r: SemWaitStep)
        ensures
            old(self).count() > 0 ==> r == SemWaitStep::Acquired && final(self).count() == old(
                self,
            ).count() - 1,
            old(self).count() == 0 && spec_deadline_passed(now_sec, now_nsec, abs_sec, abs_nsec)
                ==> r == SemWaitStep::TimedOut && final(self).count() == 0,
            old(self).count() == 0 && !spec_deadline_passed(now_sec, now_nsec, abs_sec, abs_nsec)
                ==> r == SemWaitStep::KeepWaiting && final(self).count() == 0,
    {
        match self.try_wait() {
            Ok(()) => SemWaitStep::Acquired,
            Err(_) => {
                if now_sec > abs_sec || (now_sec == abs_sec && now_nsec > abs_nsec) {
                    SemWaitStep::TimedOut
                } else {
                    SemWaitStep::KeepWaiting
                }
            },
        }
    }
}

/// Number of waitable handles an `fd_set` can describe.
pub const FD_SETSIZE: usize = 2048;

/// A set of waitable handles, as handed to the blocking multiplex
/// primitive: one membership bit per handle below [`FD_SETSIZE`].
pub struct fd_set {
    bits: Vec<bool>,
}

impl View for fd_set {
    type V = Set<u64>;

    closed spec fn view(&self) -> Set<u64> {
        Set::new(|f: u64| f < self.bits@.len() && self.bits@[f as int])
    }
}

impl fd_set {
    pub closed spec fn wf(&self) -> bool {
        self.bits@.len() == FD_SETSIZE
    }

    /// The empty set.
    pub fn new() -> (s: fd_set)
        ensures
            s.wf(),
            s@ == Set::<u64>::empty(),
    {
        let s = fd_set { bits: vec![false; FD_SETSIZE] };
        proof {
            assert(s@ =~= Set::<u64>::empty());
        }
        s
    }

    /// Inserts handle `fd`.
    pub fn insert(&mut self, fd: usize)
        requires
            old(self).wf(),
            fd < FD_SETSIZE,
        ensures
            final(self).wf(),
            final(self)@ == old(self)@.insert(fd as u64),
    {
        self.bits[fd] = true;
        proof {
            assert(self@ =~= old(self)@.insert(fd as u64));
        }
    }

    /// Removes handle `fd`.
    pub fn remove(&mut self, fd: usize)
        requires
            old(self).wf(),
            fd < FD_SETSIZE,
        ensures
            final(self).wf(),
            final(self)@ == old(self)@.remove(fd as u64),
    {
        self.bits[fd] = false;
        proof {
            assert(self@ =~= old(self)@.remove(fd as u64));
        }
    }

    /// Whether handle `fd` is in the set.
    pub fn contains(&self, fd: usize) -> (b: bool)
        requires
            self.wf(),
            fd < FD_SETSIZE,
        ensures
            b == self@.contains(fd as u64),
    {
        self.bits[fd]
    }

    /// Empties the set.
    pub fn clear_all(&mut self)
        requires
            old(self).wf(),
        ensures
            final(self).wf(),
            final(self)@ == Set::<u64>::empty(),
    {
        let mut i: usize = 0;
        while i < self.bits.len()
            invariant
                self.bits@.len() == FD_SETSIZE,
                i <= FD_SETSIZE,
                forall|j: int| 0 <= j < i ==> !self.bits@[j],
            decreases FD_SETSIZE - i,
        {
            self.bits[i] = false;
            i = i + 1;
        }
        proof {
            assert(self@ =~= Set::<u64>::empty());
        }
    }
}

} // verus!
