//! The event channel: bounded event queues and a broadcasting notifier.
//!
//! A channel owns one bounded queue per listener. `notify` appends an event
//! identifier to every queue and never blocks; a full queue silently drops
//! its oldest entry, a documented degradation rather than an error.
//! `try_drain` returns everything queued for one listener in arrival order
//! and never errors, in particular not on an empty queue.

use vstd::prelude::*;

use crate::event::{EventId, NotifyError};

verus! {

/// What a bounded queue holds after an entry is appended: the entry goes to
/// the back, and if the queue is already full the oldest entry is dropped.
/// A capacity of zero drops everything. The same degradation rule governs
/// the event queues here and the subscriber buffers of the data plane.
pub open spec fn bounded_push<T>(q: Seq<T>, x: T, cap: nat) -> Seq<T> {
    if q.len() < cap {
        q.push(x)
    } else if cap == 0 {
        q
    } else {
        q.skip(1).push(x)
    }
}

/// The last `cap` entries of a sequence: what a bounded queue retains
/// after everything in `q` ran through it in order.
pub open spec fn last_n<T>(q: Seq<T>, cap: nat) -> Seq<T> {
    if q.len() <= cap {
        q
    } else {
        q.skip(q.len() - cap)
    }
}

/// `n` appends of the same entry to a bounded queue.
pub open spec fn push_n<T>(q: Seq<T>, x: T, n: nat, cap: nat) -> Seq<T>
    decreases n,
{
    if n == 0 {
        q
    } else {
        bounded_push(push_n(q, x, (n - 1) as nat, cap), x, cap)
    }
}

/// Appending to a bounded queue that retains the last `cap` of `p` yields
/// the queue retaining the last `cap` of `p` with the entry appended: the
/// drop-oldest rule loses exactly the prefix.
pub proof fn lemma_bounded_push_last_n<T>(p: Seq<T>, x: T, cap: nat)
    ensures
        bounded_push(last_n(p, cap), x, cap) == last_n(p.push(x), cap),
{
    if cap == 0 {
        assert(last_n(p, 0) =~= p.skip(p.len() as int));
        assert(bounded_push(last_n(p, 0), x, 0) =~= last_n(p.push(x), 0));
    } else if p.len() < cap {
        assert(bounded_push(last_n(p, cap), x, cap) =~= last_n(p.push(x), cap));
    } else {
        assert(bounded_push(last_n(p, cap), x, cap) =~= last_n(p.push(x), cap));
    }
}

/// One listener's bounded, in-arrival-order event queue.
pub struct EventQueue {
    items: Vec<EventId>,
    capacity: usize,
}

impl View for EventQueue {
    type V = Seq<EventId>;

    closed spec fn view(&self) -> Seq<EventId> {
        self.items@
    }
}

impl EventQueue {
    /// The most entries the queue retains before dropping the oldest.
    pub closed spec fn cap(&self) -> nat {
        self.capacity as nat
    }

    /// The queue never holds more than its capacity.
    pub open spec fn wf(&self) -> bool {
        self@.len() <= self.cap()
    }

    pub fn new(capacity: usize) -> (q: EventQueue)
        ensures
            q.wf(),
            q@ == Seq::<EventId>::empty(),
            q.cap() == capacity as nat,
    {
        EventQueue { items: Vec::new(), capacity }
    }

    /// Appends an event; on overflow the oldest queued event is dropped.
    pub fn push(&mut self, id: EventId)
        requires
            old(self).wf(),
        ensures
            final(self).wf(),
            final(self).cap() == old(self).cap(),
            final(self)@ == bounded_push(old(self)@, id, old(self).cap()),
    {
        if self.items.len() == self.capacity {
            if self.capacity == 0 {
                return;
            }
            self.items.remove(0);
            assert(self.items@ =~= old(self)@.skip(1));
        }
        self.items.push(id);
    }

    /// Returns all queued events in arrival order and leaves the queue
    /// empty. Draining an empty queue returns an empty sequence; it is not
    /// an error, and draining again returns empty again.
    pub fn try_drain(&mut self) -> (r: Vec<EventId>)
        ensures
            final(self).wf(),
            final(self).cap() == old(self).cap(),
            r@ == old(self)@,
            final(self)@ == Seq::<EventId>::empty(),
    {
        let mut r: Vec<EventId> = Vec::new();
        core::mem::swap(&mut r, &mut self.items);
        r
    }

    /// Whether the listener's waitable handle reads as signaled: exactly
    /// when the queue is non-empty.
    pub fn is_signaled(&self) -> (b: bool)
        ensures
            b == (self@.len() > 0),
    {
        self.items.len() > 0
    }

    pub fn len(&self) -> (n: usize)
        ensures
            n == self@.len(),
    {
        self.items.len()
    }
}

/// A named event channel: every notification is broadcast to every
/// listener's queue. The notifying side never waits on a receiving side.
pub struct EventChannel {
    listeners: Vec<EventQueue>,
    capacity: usize,
    open: bool,
}

impl EventChannel {
    /// Queue capacity every listener of this channel is created with.
    pub closed spec fn cap(&self) -> nat {
        self.capacity as nat
    }

    /// False once the channel is torn down; notifications then fail with
    /// `ChannelClosed` and change nothing.
    pub closed spec fn is_open(&self) -> bool {
        self.open
    }

    pub closed spec fn num_listeners(&self) -> nat {
        self.listeners@.len()
    }

    /// The queue of listener `l`, oldest event first.
    pub closed spec fn queue(&self, l: int) -> Seq<EventId> {
        self.listeners@[l]@
    }

    pub closed spec fn wf(&self) -> bool {
        forall|l: int|
            0 <= l < self.listeners@.len() ==> (#[trigger] self.listeners@[l]).wf()
                && self.listeners@[l].cap() == self.capacity as nat
    }

    pub fn new(capacity: usize) -> (c: EventChannel)
        ensures
            c.wf(),
            c.is_open(),
            c.cap() == capacity as nat,
            c.num_listeners() == 0,
    {
        EventChannel { listeners: Vec::new(), capacity, open: true }
    }

    /// Registers one more listener; its queue starts out empty.
    pub fn add_listener(&mut self) -> (l: usize)
        requires
            old(self).wf(),
        ensures
            final(self).wf(),
            final(self).cap() == old(self).cap(),
            final(self).is_open() == old(self).is_open(),
            l as int == old(self).num_listeners(),
            final(self).num_listeners() == old(self).num_listeners() + 1,
            final(self).queue(l as int) == Seq::<EventId>::empty(),
            forall|j: int|
                0 <= j < old(self).num_listeners() ==> final(self).queue(j) == old(self).queue(j),
    {
        let l = self.listeners.len();
        self.listeners.push(EventQueue::new(self.capacity));
        l
    }

    /// Sends `id` to every listener. Never blocks; fails exactly when the
    /// channel is closed, and then changes nothing.
    #[verifier::loop_isolation(false)]
    pub fn notify(&mut self, id: EventId) -> (r: Result<(), NotifyError>)
        requires
            old(self).wf(),
        ensures
            final(self).wf(),
            final(self).cap() == old(self).cap(),
            final(self).is_open() == old(self).is_open(),
            final(self).num_listeners() == old(self).num_listeners(),
            old(self).is_open() ==> r is Ok && forall|l: int|
                0 <= l < old(self).num_listeners() ==> final(self).queue(l) == bounded_push(
                    old(self).queue(l),
                    id,
                    old(self).cap(),
                ),
            !old(self).is_open() ==> r == Result::<(), NotifyError>::Err(
                NotifyError::ChannelClosed,
            ) && forall|l: int|
                0 <= l < old(self).num_listeners() ==> final(self).queue(l) == old(self).queue(l),
    {
        if !self.open {
            return Err(NotifyError::ChannelClosed);
        }
        let mut i: usize = 0;
        while i < self.listeners.len()
            invariant
                self.capacity == old(self).capacity,
                self.open == old(self).open,
                self.listeners@.len() == old(self).listeners@.len(),
                i <= self.listeners@.len(),
                forall|j: int|
                    0 <= j < i ==> (#[trigger] self.listeners@[j]).wf()
                        && self.listeners@[j].cap() == self.capacity as nat
                        && self.listeners@[j]@ == bounded_push(
                        old(self).listeners@[j]@,
                        id,
                        self.capacity as nat,
                    ),
                forall|j: int|
                    i <= j < self.listeners@.len() ==> self.listeners@[j] == old(
                        self,
                    ).listeners@[j],
            decreases self.listeners@.len() - i,
        {
            assert(self.listeners@[i as int].wf());
            self.listeners[i].push(id);
            i = i + 1;
        }
        Ok(())
    }

    /// Drains listener `l`: returns its queued events in arrival order and
    /// resets the queue to empty (and hence the handle to non-signaled).
    /// Never errors; an empty queue yields an empty sequence.
    pub fn try_drain(&mut self, l: usize) -> (r: Vec<EventId>)
        requires
            old(self).wf(),
            l < old(self).num_listeners(),
        ensures
            final(self).wf(),
            final(self).cap() == old(self).cap(),
            final(self).is_open() == old(self).is_open(),
            final(self).num_listeners() == old(self).num_listeners(),
            r@ == old(self).queue(l as int),
            final(self).queue(l as int) == Seq::<EventId>::empty(),
            forall|j: int|
                0 <= j < old(self).num_listeners() && j != l ==> final(self).queue(j) == old(
                    self,
                ).queue(j),
    {
        self.listeners[l].try_drain()
    }

    /// Whether listener `l`'s waitable handle is signaled: exactly when its
    /// queue is non-empty.
    pub fn is_signaled(&self, l: usize) -> (b: bool)
        requires
            l < self.num_listeners(),
        ensures
            b == (self.queue(l as int).len() > 0),
    {
        self.listeners[l].is_signaled()
    }

    /// Whether the channel still exists.
    pub fn is_channel_open(&self) -> (b: bool)
        ensures
            b == self.is_open(),
    {
        self.open
    }

    /// Tears the channel down: later notifications fail with
    /// `ChannelClosed`. Listeners keep whatever is already queued.
    pub fn close(&mut self)
        requires
            old(self).wf(),
        ensures
            final(self).wf(),
            final(self).cap() == old(self).cap(),
            !final(self).is_open(),
            final(self).num_listeners() == old(self).num_listeners(),
            forall|j: int|
                0 <= j < old(self).num_listeners() ==> final(self).queue(j) == old(self).queue(j),
    {
        self.open = false;
    }
}

} // verus!
