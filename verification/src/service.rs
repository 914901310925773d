//! The zero-copy data plane of one named service.
//!
//! A `Service` models the shared segment both ends of a connection map: a
//! bounded slot pool, the retained history ring, every subscriber's
//! delivery queue, and the event channel used for control-plane
//! signaling. The publisher loans a slot, writes it and sends it; the
//! sample is then shared read-only between the history ring and the
//! delivery queues, and a slot returns to the free pool only once nothing
//! references it any more. Reclamation is an explicit sweep over the
//! holders (ring and queues) rather than a counter a vanished peer could
//! leave dangling; the sweep runs whenever a reference is dropped.
//!
//! Overflow policy, stated and tested rather than implicit: a full history
//! ring evicts its oldest sample, and a lagging subscriber's full delivery
//! queue drops its oldest undelivered sample. Publishing is never blocked
//! by a slow consumer.

use vstd::prelude::*;

use crate::channel::{bounded_push, last_n, lemma_bounded_push_last_n, push_n, EventChannel};
use crate::event::EventId;
use crate::name::ServiceName;

verus! {

/// Construction failures of a [`Service`]: the configuration is
/// contradictory or too large for the machine.
#[derive(Clone, Copy, Debug, PartialEq, Eq, Structural)]
pub enum ConfigError {
    InvalidConfig,
}

/// Failures of [`Service::loan`].
#[derive(Clone, Copy, Debug, PartialEq, Eq, Structural)]
pub enum LoanError {
    /// Every slot of the bounded pool is loaned or still referenced.
    /// Recoverable: the caller may retry once consumers catch up.
    ResourceExhausted,
}

/// Failures of port construction.
#[derive(Clone, Copy, Debug, PartialEq, Eq, Structural)]
pub enum PortError {
    /// The service already has its publisher.
    AlreadyExists,
    /// The subscriber limit of the service is reached.
    ResourceExhausted,
    /// The event channel is gone; the connection handshake cannot be sent.
    ChannelClosed,
}

/// Lifecycle of a subscriber port: created, then connected once the
/// publisher has answered the handshake with the history replay, then
/// disconnected for good. There is no reconnection.
#[derive(Clone, Copy, Debug, PartialEq, Eq, Structural)]
pub enum SubscriberStatus {
    Pending,
    Connected,
    Disconnected,
}

#[derive(Clone, Copy, Debug, PartialEq, Eq, Structural)]
enum SlotState {
    Free,
    Loaned,
    Published,
}

#[derive(Clone, Copy, Debug, PartialEq, Eq, Structural)]
struct Slot {
    state: SlotState,
    payload: u64,
}

struct SubPort {
    status: SubscriberStatus,
    queue: Vec<usize>,
    listener: usize,
}

/// Sizing of a service, agreed on by both ends.
#[derive(Clone, Copy, Debug, PartialEq, Eq, Structural)]
pub struct ServiceConfig {
    /// Samples the history ring retains for late subscribers.
    pub history_size: usize,
    /// Undelivered samples a subscriber's queue holds before the oldest
    /// is dropped.
    pub max_buffer_size: usize,
    /// Slots the publisher may hold loaned at once.
    pub max_loans: usize,
    /// Subscriber ports the service accepts.
    pub max_subscribers: usize,
    /// Capacity of each listener's event queue.
    pub event_queue_capacity: usize,
}

/// A configuration is valid when a subscriber queue and the loan pool
/// exist at all, and the slot pool size fits the machine.
pub open spec fn config_valid(cfg: ServiceConfig) -> bool {
    &&& cfg.max_buffer_size >= 1
    &&& cfg.max_loans >= 1
    &&& cfg.history_size + cfg.max_loans <= usize::MAX
}

/// Exclusive ownership of one loaned slot, returned by [`Service::loan`]
/// and consumed by [`Service::send`].
pub struct Loan {
    slot: usize,
}

impl Loan {
    /// The pool index of the loaned slot.
    pub closed spec fn slot_index(&self) -> int {
        self.slot as int
    }
}

/// The shared state of one named service: data plane and event channel.
pub struct Service {
    name: ServiceName,
    history_size: usize,
    max_buffer_size: usize,
    max_loans: usize,
    max_subscribers: usize,
    chan: EventChannel,
    slots: Vec<Slot>,
    ring: Vec<usize>,
    subs: Vec<SubPort>,
    publisher_created: bool,
    publisher_listener: usize,
}

impl Service {
    /// The validated name of the service.
    pub closed spec fn service_name(&self) -> Seq<u8> {
        self.name@
    }

    /// Samples retained for late subscribers.
    pub closed spec fn history_cap(&self) -> nat {
        self.history_size as nat
    }

    /// Bound of each subscriber's delivery queue.
    pub closed spec fn buffer_cap(&self) -> nat {
        self.max_buffer_size as nat
    }

    /// Subscriber ports the service accepts.
    pub closed spec fn max_subs(&self) -> nat {
        self.max_subscribers as nat
    }

    /// Slots of the bounded pool: loan capacity plus history capacity.
    pub closed spec fn pool_size(&self) -> nat {
        self.slots@.len()
    }

    /// Capacity of each listener's event queue.
    pub closed spec fn chan_cap(&self) -> nat {
        self.chan.cap()
    }

    /// Whether the event channel still exists.
    pub closed spec fn chan_open(&self) -> bool {
        self.chan.is_open()
    }

    pub closed spec fn num_listeners(&self) -> nat {
        self.chan.num_listeners()
    }

    /// The event queue of listener `l`, oldest first.
    pub closed spec fn queue(&self, l: int) -> Seq<EventId> {
        self.chan.queue(l)
    }

    pub closed spec fn has_publisher(&self) -> bool {
        self.publisher_created
    }

    /// The publisher's listener handle.
    pub closed spec fn pub_listener(&self) -> int {
        self.publisher_listener as int
    }

    pub closed spec fn num_subs(&self) -> nat {
        self.subs@.len()
    }

    pub closed spec fn sub_status(&self, s: int) -> SubscriberStatus {
        self.subs@[s].status
    }

    /// The listener handle of subscriber `s`.
    pub closed spec fn sub_listener(&self, s: int) -> int {
        self.subs@[s].listener as int
    }

    /// The payloads queued for subscriber `s`, oldest first.
    pub closed spec fn pending(&self, s: int) -> Seq<u64> {
        self.subs@[s].queue@.map_values(|i: usize| self.slots@[i as int].payload)
    }

    /// The retained history, oldest first.
    pub closed spec fn history(&self) -> Seq<u64> {
        self.ring@.map_values(|i: usize| self.slots@[i as int].payload)
    }

    /// Whether `l` is a live loan of this service.
    pub closed spec fn valid_loan(&self, l: Loan) -> bool {
        0 <= l.slot_index() < self.slots@.len() && self.slots@[l.slot_index()].state
            == SlotState::Loaned
    }

    /// Whether the pool still has an unreferenced, unloaned slot.
    pub closed spec fn has_free_slot(&self) -> bool {
        exists|i: int|
            0 <= i < self.slots@.len() && (#[trigger] self.slots@[i]).state == SlotState::Free
    }

    /// Whether slot `idx` is held by the ring or by a delivery queue.
    spec fn referenced(&self, idx: usize) -> bool {
        self.ring@.contains(idx) || exists|s: int|
            0 <= s < self.subs@.len() && (#[trigger] self.subs@[s]).queue@.contains(idx)
    }

    spec fn sub_wf(&self, s: int) -> bool {
        let p = self.subs@[s];
        &&& p.queue@.len() <= self.max_buffer_size
        &&& forall|k: int|
            0 <= k < p.queue@.len() ==> (#[trigger] p.queue@[k]) < self.slots@.len()
                && self.slots@[p.queue@[k] as int].state == SlotState::Published
        &&& p.listener < self.chan.num_listeners()
        &&& (p.status == SubscriberStatus::Pending ==> p.queue@.len() == 0)
    }

    spec fn listeners_distinct(&self) -> bool {
        &&& forall|s1: int, s2: int|
            0 <= s1 < self.subs@.len() && 0 <= s2 < self.subs@.len() && s1 != s2 ==> (
            #[trigger] self.subs@[s1].listener) != (#[trigger] self.subs@[s2].listener)
        &&& (self.publisher_created ==> forall|s: int|
            0 <= s < self.subs@.len() ==> (#[trigger] self.subs@[s].listener)
                != self.publisher_listener)
    }

    /// The invariant every operation preserves.
    pub closed spec fn wf(&self) -> bool {
        &&& self.name.wf()
        &&& self.max_buffer_size >= 1
        &&& self.max_loans >= 1
        &&& self.slots@.len() == self.history_size + self.max_loans
        &&& self.chan.wf()
        &&& self.subs@.len() <= self.max_subscribers
        &&& self.ring@.len() <= self.history_size
        &&& forall|k: int|
            0 <= k < self.ring@.len() ==> (#[trigger] self.ring@[k]) < self.slots@.len()
                && self.slots@[self.ring@[k] as int].state == SlotState::Published
        &&& forall|s: int| 0 <= s < self.subs@.len() ==> self.sub_wf(s)
        &&& (self.publisher_created ==> self.publisher_listener < self.chan.num_listeners())
        &&& self.listeners_distinct()
    }
}

/// What the history ring — and equally a connected subscriber's queue —
/// holds after a run of successful publications: every value goes
/// through the same bounded drop-oldest rule, matching the `ensures` of
/// [`Service::publish`] applied once per value.
pub open spec fn publish_all(q: Seq<u64>, vs: Seq<u64>, cap: nat) -> Seq<u64>
    decreases vs.len(),
{
    if vs.len() == 0 {
        q
    } else {
        publish_all(bounded_push(q, vs[0], cap), vs.skip(1), cap)
    }
}

/// Running a publication sequence through a bounded queue that holds the
/// last `cap` of `p` leaves it holding the last `cap` of `p` followed by
/// the run: the drop-oldest rule loses prefixes only.
pub proof fn lemma_publish_all_last_n(p: Seq<u64>, vs: Seq<u64>, cap: nat)
    ensures
        publish_all(last_n(p, cap), vs, cap) == last_n(p + vs, cap),
    decreases vs.len(),
{
    if vs.len() == 0 {
        assert(p + vs =~= p);
    } else {
        lemma_bounded_push_last_n(p, vs[0], cap);
        lemma_publish_all_last_n(p.push(vs[0]), vs.skip(1), cap);
        assert(p.push(vs[0]) + vs.skip(1) =~= p + vs);
    }
}

/// A fresh bounded queue fed a publication run retains exactly the last
/// `cap` published values, in publication order.
pub proof fn lemma_publish_all_from_empty(vs: Seq<u64>, cap: nat)
    ensures
        publish_all(Seq::<u64>::empty(), vs, cap) == last_n(vs, cap),
{
    lemma_publish_all_last_n(Seq::<u64>::empty(), vs, cap);
    assert(last_n(Seq::<u64>::empty(), cap) =~= Seq::<u64>::empty());
    assert(Seq::<u64>::empty() + vs =~= vs);
}

/// In-order delivery, no duplication, no loss: a connected subscriber
/// that starts drained and whose queue has room for the whole run is
/// delivered exactly the published values, in publication order —
/// [`Service::receive`] then yields them front first, one per call.
pub proof fn lemma_in_order_delivery(vs: Seq<u64>, cap: nat)
    requires
        vs.len() <= cap,
    ensures
        publish_all(Seq::<u64>::empty(), vs, cap) == vs,
{
    lemma_publish_all_from_empty(vs, cap);
}

/// History replay for a late subscriber, within capacity: after a run no
/// longer than the ring retains, published from a fresh service, the
/// replay of [`Service::handle_connections`] hands the subscriber
/// exactly that run, in order; a value published after the replay is
/// queued behind it, never before.
pub proof fn lemma_replay_within_history(vs: Seq<u64>, hist_cap: nat, buf_cap: nat, w: u64)
    requires
        vs.len() <= hist_cap,
        vs.len() <= buf_cap,
    ensures
        last_n(publish_all(Seq::<u64>::empty(), vs, hist_cap), buf_cap) == vs,
        vs.len() < buf_cap ==> bounded_push(vs, w, buf_cap) == vs.push(w),
{
    lemma_publish_all_from_empty(vs, hist_cap);
    assert(last_n(vs, buf_cap) =~= vs);
}

/// History replay beyond capacity: after more publications than the ring
/// retains, the replay hands a late subscriber exactly the most recent
/// `hist_cap` values, in order; the older ones are unrecoverable.
pub proof fn lemma_replay_beyond_history(vs: Seq<u64>, hist_cap: nat, buf_cap: nat)
    requires
        vs.len() > hist_cap,
        hist_cap <= buf_cap,
    ensures
        last_n(publish_all(Seq::<u64>::empty(), vs, hist_cap), buf_cap) == vs.skip(
            vs.len() - hist_cap,
        ),
{
    lemma_publish_all_from_empty(vs, hist_cap);
    assert(last_n(vs.skip(vs.len() - hist_cap), buf_cap) =~= vs.skip(vs.len() - hist_cap));
}

/// Sizing, name and channel state agree between two service states.
pub open spec fn same_shape(a: &Service, b: &Service) -> bool {
    &&& b.service_name() == a.service_name()
    &&& b.history_cap() == a.history_cap()
    &&& b.buffer_cap() == a.buffer_cap()
    &&& b.max_subs() == a.max_subs()
    &&& b.pool_size() == a.pool_size()
    &&& b.chan_cap() == a.chan_cap()
}

/// The port topology agrees between two service states: the same
/// subscribers with the same listener handles, and the same publisher.
pub open spec fn same_ports(a: &Service, b: &Service) -> bool {
    &&& b.num_subs() == a.num_subs()
    &&& b.has_publisher() == a.has_publisher()
    &&& b.num_listeners() == a.num_listeners()
    &&& (a.has_publisher() ==> b.pub_listener() == a.pub_listener())
    &&& forall|s: int| 0 <= s < a.num_subs() ==> #[trigger] b.sub_listener(s) == a.sub_listener(s)
}

impl Service {
    proof fn lemma_wf_from_parts(&self, other: &Service)
        requires
            other.wf(),
            self.name == other.name,
            self.history_size == other.history_size,
            self.max_buffer_size == other.max_buffer_size,
            self.max_loans == other.max_loans,
            self.max_subscribers == other.max_subscribers,
            self.chan == other.chan,
            self.publisher_created == other.publisher_created,
            self.publisher_listener == other.publisher_listener,
            self.slots@.len() == other.slots@.len(),
            self.subs@.len() == other.subs@.len(),
            forall|s: int|
                0 <= s < other.subs@.len() ==> (#[trigger] self.subs@[s]).status
                    == other.subs@[s].status && self.subs@[s].listener == other.subs@[s].listener,
            self.ring@.len() <= self.history_size,
            forall|k: int|
                0 <= k < self.ring@.len() ==> (#[trigger] self.ring@[k]) < self.slots@.len()
                    && self.slots@[self.ring@[k] as int].state == SlotState::Published,
            forall|s: int|
                0 <= s < self.subs@.len() ==> (#[trigger] self.subs@[s]).queue@.len()
                    <= self.max_buffer_size,
            forall|s: int, k: int|
                0 <= s < self.subs@.len() && 0 <= k < self.subs@[s].queue@.len() ==> (
                #[trigger] self.subs@[s].queue@[k]) < self.slots@.len()
                    && self.slots@[self.subs@[s].queue@[k] as int].state == SlotState::Published,
            forall|s: int|
                0 <= s < self.subs@.len() && (#[trigger] self.subs@[s]).status
                    == SubscriberStatus::Pending ==> self.subs@[s].queue@.len() == 0,
        ensures
            self.wf(),
    {
        assert forall|s: int| 0 <= s < self.subs@.len() implies self.sub_wf(s) by {
            assert(other.sub_wf(s));
            assert forall|k: int|
                0 <= k < self.subs@[s].queue@.len() implies (#[trigger] self.subs@[s].queue@[k])
                < self.slots@.len() && self.slots@[self.subs@[s].queue@[k] as int].state
                == SlotState::Published by {}
        }
        assert forall|s1: int, s2: int|
            0 <= s1 < self.subs@.len() && 0 <= s2 < self.subs@.len() && s1 != s2 implies (
        self.subs@[s1].listener) != (self.subs@[s2].listener) by {
            assert(other.subs@[s1].listener != other.subs@[s2].listener);
        }
        if self.publisher_created {
            assert forall|s: int| 0 <= s < self.subs@.len() implies (self.subs@[s].listener)
                != self.publisher_listener by {
                assert(other.subs@[s].listener != other.publisher_listener);
            }
        }
    }

    proof fn data_plane_framed(&self, other: &Service)
        requires
            self.slots@ == other.slots@,
            self.ring@ == other.ring@,
            self.subs@ == other.subs@,
        ensures
            other.history() == self.history(),
            forall|s: int| 0 <= s < self.num_subs() ==> #[trigger] other.pending(s) == self.pending(s),
            forall|l: Loan| #[trigger] other.valid_loan(l) == self.valid_loan(l),
            other.has_free_slot() == self.has_free_slot(),
    {
        assert(other.history() =~= self.history());
        assert forall|s: int| 0 <= s < self.num_subs() implies #[trigger] other.pending(s)
            == self.pending(s) by {
            assert(other.pending(s) =~= self.pending(s));
        }
    }

    /// Opens a fresh service under `name`, sized by `cfg`. Succeeds
    /// exactly on a valid configuration; the new service has an empty
    /// history, no ports, and an open event channel.
    pub fn create(name: ServiceName, cfg: ServiceConfig) -> (r: Result<Service, ConfigError>)
        requires
            name.wf(),
        ensures
            r is Ok <==> config_valid(cfg),
            r is Err ==> r == Result::<Service, ConfigError>::Err(ConfigError::InvalidConfig),
            r is Ok ==> (r->Ok_0).wf(),
            r is Ok ==> (r->Ok_0).service_name() == name@,
            r is Ok ==> (r->Ok_0).history_cap() == cfg.history_size,
            r is Ok ==> (r->Ok_0).buffer_cap() == cfg.max_buffer_size,
            r is Ok ==> (r->Ok_0).max_subs() == cfg.max_subscribers,
            r is Ok ==> (r->Ok_0).pool_size() == cfg.history_size + cfg.max_loans,
            r is Ok ==> (r->Ok_0).chan_cap() == cfg.event_queue_capacity,
            r is Ok ==> (r->Ok_0).chan_open(),
            r is Ok ==> (r->Ok_0).num_listeners() == 0,
            r is Ok ==> !(r->Ok_0).has_publisher(),
            r is Ok ==> (r->Ok_0).num_subs() == 0,
            r is Ok ==> (r->Ok_0).history() == Seq::<u64>::empty(),
            r is Ok ==> (r->Ok_0).has_free_slot(),
    {
        if cfg.max_buffer_size == 0 || cfg.max_loans == 0 {
            return Err(ConfigError::InvalidConfig);
        }
        if cfg.history_size > usize::MAX - cfg.max_loans {
            return Err(ConfigError::InvalidConfig);
        }
        let pool = cfg.history_size + cfg.max_loans;
        let slots: Vec<Slot> = vec![Slot { state: SlotState::Free, payload: 0 }; pool];
        let s = Service {
            name,
            history_size: cfg.history_size,
            max_buffer_size: cfg.max_buffer_size,
            max_loans: cfg.max_loans,
            max_subscribers: cfg.max_subscribers,
            chan: EventChannel::new(cfg.event_queue_capacity),
            slots,
            ring: Vec::new(),
            subs: Vec::new(),
            publisher_created: false,
            publisher_listener: 0,
        };
        proof {
            assert(s.history() =~= Seq::<u64>::empty());
            assert(s.slots@[0].state == SlotState::Free);
        }
        Ok(s)
    }

    /// Creates the single publisher port of the service: registers its
    /// listener and eagerly broadcasts the `PublisherConnected`
    /// handshake. Fails with `AlreadyExists` if the service has its
    /// publisher, and with `ChannelClosed` if the handshake cannot be
    /// sent; a failed creation changes nothing.
    pub fn create_publisher(&mut self) -> (r: Result<(), PortError>)
        requires
            old(self).wf(),
        ensures
            final(self).wf(),
            same_shape(old(self), final(self)),
            old(self).has_publisher() ==> r == Result::<(), PortError>::Err(
                PortError::AlreadyExists,
            ) && *final(self) == *old(self),
            !old(self).has_publisher() && !old(self).chan_open() ==> r == Result::<
                (),
                PortError,
            >::Err(PortError::ChannelClosed) && *final(self) == *old(self),
            !old(self).has_publisher() && old(self).chan_open() ==> {
                &&& r is Ok
                &&& final(self).has_publisher()
                &&& final(self).chan_open()
                &&& final(self).pub_listener() == old(self).num_listeners()
                &&& final(self).num_listeners() == old(self).num_listeners() + 1
                &&& final(self).queue(final(self).pub_listener()) == bounded_push(
                    Seq::<EventId>::empty(),
                    EventId::PublisherConnected,
                    old(self).chan_cap(),
                )
                &&& forall|l: int|
                    0 <= l < old(self).num_listeners() ==> #[trigger] final(self).queue(l)
                        == bounded_push(
                        old(self).queue(l),
                        EventId::PublisherConnected,
                        old(self).chan_cap(),
                    )
                &&& final(self).num_subs() == old(self).num_subs()
                &&& forall|s: int|
                    0 <= s < old(self).num_subs() ==> #[trigger] final(self).sub_status(s) == old(
                        self,
                    ).sub_status(s) && final(self).sub_listener(s) == old(self).sub_listener(s)
                        && final(self).pending(s) == old(self).pending(s)
                &&& final(self).history() == old(self).history()
                &&& forall|lo: Loan| #[trigger]
                    final(self).valid_loan(lo) == old(self).valid_loan(lo)
                &&& final(self).has_free_slot() == old(self).has_free_slot()
            },
    {
        if self.publisher_created {
            return Err(PortError::AlreadyExists);
        }
        if !self.chan_is_open() {
            return Err(PortError::ChannelClosed);
        }
        let l = self.chan.add_listener();
        self.publisher_created = true;
        self.publisher_listener = l;
        let _ = self.chan.notify(EventId::PublisherConnected);
        proof {
            old(self).data_plane_framed(self);
            assert forall|s: int| 0 <= s < self.subs@.len() implies self.sub_wf(s) && (
            self.subs@[s].listener as int) < old(self).num_listeners() by {
                assert(old(self).sub_wf(s));
            }
            assert forall|s1: int, s2: int|
                0 <= s1 < self.subs@.len() && 0 <= s2 < self.subs@.len() && s1 != s2 implies (
            self.subs@[s1].listener) != (self.subs@[s2].listener) by {
                assert(old(self).subs@[s1].listener != old(self).subs@[s2].listener);
            }
            assert forall|s: int| 0 <= s < self.subs@.len() implies (self.subs@[s].listener)
                != self.publisher_listener by {
                assert(old(self).sub_wf(s));
                assert(self.subs@[s] == old(self).subs@[s]);
            }
        }
        Ok(())
    }

    /// Creates one more subscriber port: registers its listener and
    /// broadcasts the `SubscriberConnected` handshake. The port starts
    /// `Pending` with an empty queue; it receives the history replay and
    /// live samples once the publisher handles the handshake. Fails with
    /// `ResourceExhausted` at the subscriber limit and with
    /// `ChannelClosed` if the handshake cannot be sent; a failed creation
    /// changes nothing.
    pub fn create_subscriber(&mut self) -> (r: Result<usize, PortError>)
        requires
            old(self).wf(),
        ensures
            final(self).wf(),
            same_shape(old(self), final(self)),
            old(self).num_subs() == old(self).max_subs() ==> r == Result::<usize, PortError>::Err(
                PortError::ResourceExhausted,
            ) && *final(self) == *old(self),
            old(self).num_subs() < old(self).max_subs() && !old(self).chan_open() ==> r
                == Result::<usize, PortError>::Err(PortError::ChannelClosed) && *final(self)
                == *old(self),
            old(self).num_subs() < old(self).max_subs() && old(self).chan_open() ==> {
                &&& r == Result::<usize, PortError>::Ok(old(self).num_subs() as usize)
                &&& final(self).num_subs() == old(self).num_subs() + 1
                &&& final(self).sub_status(old(self).num_subs() as int)
                    == SubscriberStatus::Pending
                &&& final(self).pending(old(self).num_subs() as int) == Seq::<u64>::empty()
                &&& final(self).sub_listener(old(self).num_subs() as int) == old(
                    self,
                ).num_listeners()
                &&& final(self).num_listeners() == old(self).num_listeners() + 1
                &&& final(self).chan_open()
                &&& final(self).queue(final(self).sub_listener(old(self).num_subs() as int))
                    == bounded_push(
                    Seq::<EventId>::empty(),
                    EventId::SubscriberConnected,
                    old(self).chan_cap(),
                )
                &&& forall|l: int|
                    0 <= l < old(self).num_listeners() ==> #[trigger] final(self).queue(l)
                        == bounded_push(
                        old(self).queue(l),
                        EventId::SubscriberConnected,
                        old(self).chan_cap(),
                    )
                &&& final(self).has_publisher() == old(self).has_publisher()
                &&& (old(self).has_publisher() ==> final(self).pub_listener() == old(
                    self,
                ).pub_listener())
                &&& forall|s: int|
                    0 <= s < old(self).num_subs() ==> #[trigger] final(self).sub_status(s) == old(
                        self,
                    ).sub_status(s) && final(self).sub_listener(s) == old(self).sub_listener(s)
                        && final(self).pending(s) == old(self).pending(s)
                &&& final(self).history() == old(self).history()
                &&& forall|lo: Loan| #[trigger]
                    final(self).valid_loan(lo) == old(self).valid_loan(lo)
                &&& final(self).has_free_slot() == old(self).has_free_slot()
            },
    {
        if self.subs.len() == self.max_subscribers {
            return Err(PortError::ResourceExhausted);
        }
        if !self.chan_is_open() {
            return Err(PortError::ChannelClosed);
        }
        let l = self.chan.add_listener();
        let sid = self.subs.len();
        self.subs.push(SubPort { status: SubscriberStatus::Pending, queue: Vec::new(), listener: l });
        let _ = self.chan.notify(EventId::SubscriberConnected);
        proof {
            assert forall|s: int| 0 <= s < old(self).subs@.len() implies self.sub_wf(s) && (
            self.subs@[s].listener as int) < old(self).num_listeners() by {
                assert(old(self).sub_wf(s));
                assert(self.subs@[s] == old(self).subs@[s]);
            }
            assert(self.sub_wf(old(self).subs@.len() as int));
            assert forall|s1: int, s2: int|
                0 <= s1 < self.subs@.len() && 0 <= s2 < self.subs@.len() && s1 != s2 implies (
            self.subs@[s1].listener) != (self.subs@[s2].listener) by {
                if s1 < old(self).subs@.len() && s2 < old(self).subs@.len() {
                    assert(old(self).subs@[s1].listener != old(self).subs@[s2].listener);
                    assert(self.subs@[s1] == old(self).subs@[s1]);
                    assert(self.subs@[s2] == old(self).subs@[s2]);
                } else if s1 < old(self).subs@.len() {
                    assert(old(self).sub_wf(s1));
                    assert(self.subs@[s1] == old(self).subs@[s1]);
                } else {
                    assert(old(self).sub_wf(s2));
                    assert(self.subs@[s2] == old(self).subs@[s2]);
                }
            }
            assert(self.pending(sid as int) =~= Seq::<u64>::empty());
            assert(self.history() =~= old(self).history());
            assert forall|s: int| 0 <= s < old(self).num_subs() implies #[trigger] self.pending(s)
                == old(self).pending(s) by {
                assert(self.subs@[s] == old(self).subs@[s]);
                assert(self.pending(s) =~= old(self).pending(s));
            }
        }
        Ok(sid)
    }

    /// Whether slot `idx` is still held by the ring or a delivery queue,
    /// by sweeping over the holders.
    fn is_referenced(&self, idx: usize) -> (b: bool)
        ensures
            b == self.referenced(idx),
    {
        let mut k: usize = 0;
        while k < self.ring.len()
            invariant
                k <= self.ring@.len(),
                forall|j: int| 0 <= j < k ==> self.ring@[j] != idx,
            decreases self.ring@.len() - k,
        {
            if self.ring[k] == idx {
                assert(self.ring@.contains(idx));
                return true;
            }
            k = k + 1;
        }
        assert(!self.ring@.contains(idx));
        let mut s: usize = 0;
        while s < self.subs.len()
            invariant
                s <= self.subs@.len(),
                !self.ring@.contains(idx),
                forall|t: int| 0 <= t < s ==> !(#[trigger] self.subs@[t]).queue@.contains(idx),
            decreases self.subs@.len() - s,
        {
            let q = &self.subs[s].queue;
            let mut k2: usize = 0;
            while k2 < q.len()
                invariant
                    k2 <= q@.len(),
                    q@ == self.subs@[s as int].queue@,
                    s < self.subs@.len(),
                    forall|j: int| 0 <= j < k2 ==> q@[j] != idx,
                decreases q@.len() - k2,
            {
                if q[k2] == idx {
                    assert(self.subs@[s as int].queue@.contains(idx));
                    return true;
                }
                k2 = k2 + 1;
            }
            assert(!self.subs@[s as int].queue@.contains(idx));
            s = s + 1;
        }
        assert(!self.referenced(idx));
        false
    }

    /// The explicit reclamation sweep: returns slot `idx` to the free
    /// pool exactly when nothing references it any more. Tolerates a
    /// holder that vanished without releasing anything: such a slot is
    /// simply found referenced and swept again later.
    fn reclaim(&mut self, idx: usize)
        requires
            old(self).wf(),
            (idx as int) < old(self).slots@.len(),
            old(self).slots@[idx as int].state == SlotState::Published,
        ensures
            final(self).wf(),
            final(self).name == old(self).name,
            final(self).history_size == old(self).history_size,
            final(self).max_buffer_size == old(self).max_buffer_size,
            final(self).max_loans == old(self).max_loans,
            final(self).max_subscribers == old(self).max_subscribers,
            final(self).chan == old(self).chan,
            final(self).ring@ == old(self).ring@,
            final(self).subs@ == old(self).subs@,
            final(self).publisher_created == old(self).publisher_created,
            final(self).publisher_listener == old(self).publisher_listener,
            final(self).slots@.len() == old(self).slots@.len(),
            forall|j: int|
                0 <= j < old(self).slots@.len() && j != idx ==> final(self).slots@[j] == old(
                    self,
                ).slots@[j],
            final(self).slots@[idx as int].payload == old(self).slots@[idx as int].payload,
            old(self).referenced(idx) ==> final(self).slots@[idx as int] == old(
                self,
            ).slots@[idx as int],
            !old(self).referenced(idx) ==> final(self).slots@[idx as int].state == SlotState::Free,
            final(self).history() == old(self).history(),
            forall|s: int|
                0 <= s < old(self).num_subs() ==> #[trigger] final(self).pending(s) == old(
                    self,
                ).pending(s),
            forall|lo: Loan| #[trigger] final(self).valid_loan(lo) == old(self).valid_loan(lo),
    {
        if !self.is_referenced(idx) {
            self.slots[idx].state = SlotState::Free;
            proof {
                assert forall|k: int|
                    0 <= k < self.ring@.len() implies (#[trigger] self.ring@[k])
                    < self.slots@.len() && self.slots@[self.ring@[k] as int].state
                    == SlotState::Published by {
                    assert(self.ring@.contains(self.ring@[k]));
                    assert(self.ring@[k] != idx);
                }
                assert forall|s: int| 0 <= s < self.subs@.len() implies self.sub_wf(s) by {
                    assert(old(self).sub_wf(s));
                    assert forall|k: int|
                        0 <= k < self.subs@[s].queue@.len() implies (
                    #[trigger] self.subs@[s].queue@[k]) < self.slots@.len()
                        && self.slots@[self.subs@[s].queue@[k] as int].state
                        == SlotState::Published by {
                        assert(self.subs@[s].queue@.contains(self.subs@[s].queue@[k]));
                        assert(self.subs@[s].queue@[k] != idx);
                    }
                }
            }
        }
        proof {
            assert(self.history() =~= old(self).history());
            assert forall|s: int| 0 <= s < old(self).num_subs() implies #[trigger] self.pending(s)
                == old(self).pending(s) by {
                if !old(self).referenced(idx) {
                    assert(!old(self).subs@[s].queue@.contains(idx));
                }
                assert forall|k: int|
                    0 <= k < self.subs@[s].queue@.len() implies self.slots@[self.subs@[s].queue@[k] as int].payload
                    == old(self).slots@[old(self).subs@[s].queue@[k] as int].payload by {
                    assert(old(self).sub_wf(s));
                    assert(self.subs@[s].queue@.contains(self.subs@[s].queue@[k]));
                }
                assert(self.pending(s) =~= old(self).pending(s));
            }
        }
    }

    /// Loans one free slot of the bounded pool to the publisher, for
    /// exclusive writing until [`Service::send`]. Fails exactly when no
    /// slot is free — every slot is loaned or still referenced — and then
    /// changes nothing; the caller may retry once consumers catch up.
    pub fn loan(&mut self) -> (r: Result<Loan, LoanError>)
        requires
            old(self).wf(),
            old(self).has_publisher(),
        ensures
            final(self).wf(),
            same_shape(old(self), final(self)),
            same_ports(old(self), final(self)),
            r is Err <==> !old(self).has_free_slot(),
            r is Err ==> r == Result::<Loan, LoanError>::Err(LoanError::ResourceExhausted)
                && *final(self) == *old(self),
            r is Ok ==> final(self).valid_loan(r->Ok_0) && !old(self).valid_loan(r->Ok_0),
            final(self).chan_open() == old(self).chan_open(),
            final(self).history() == old(self).history(),
            forall|l: int|
                0 <= l < old(self).num_listeners() ==> #[trigger] final(self).queue(l) == old(
                    self,
                ).queue(l),
            forall|s: int|
                0 <= s < old(self).num_subs() ==> #[trigger] final(self).sub_status(s) == old(
                    self,
                ).sub_status(s) && final(self).pending(s) == old(self).pending(s),
            forall|lo: Loan|
                r is Ok && lo.slot_index() != (r->Ok_0).slot_index() ==> #[trigger] final(self).valid_loan(lo) == old(self).valid_loan(lo),
    {
        let found = self.find_free();
        match found {
            None => {
                assert(!self.has_free_slot());
                Err(LoanError::ResourceExhausted)
            },
            Some(i) => {
                self.slots[i].state = SlotState::Loaned;
                proof {
                    assert forall|k: int|
                        0 <= k < self.ring@.len() implies (#[trigger] self.ring@[k])
                        < self.slots@.len() && self.slots@[self.ring@[k] as int].state
                        == SlotState::Published by {
                        assert(old(self).slots@[old(self).ring@[k] as int].state
                            == SlotState::Published);
                    }
                    assert forall|s: int, k: int|
                        0 <= s < self.subs@.len() && 0 <= k < self.subs@[s].queue@.len() implies (
                    #[trigger] self.subs@[s].queue@[k]) < self.slots@.len()
                        && self.slots@[self.subs@[s].queue@[k] as int].state
                        == SlotState::Published by {
                        assert(old(self).sub_wf(s));
                        assert(old(self).slots@[old(self).subs@[s].queue@[k] as int].state
                            == SlotState::Published);
                    }
                    assert forall|s: int|
                        0 <= s < self.subs@.len() implies (#[trigger] self.subs@[s]).queue@.len()
                        <= self.max_buffer_size && (self.subs@[s].status
                        == SubscriberStatus::Pending ==> self.subs@[s].queue@.len() == 0) by {
                        assert(old(self).sub_wf(s));
                    }
                    self.lemma_wf_from_parts(old(self));
                    assert(self.history() =~= old(self).history());
                    assert forall|s: int| 0 <= s < old(self).num_subs() implies #[trigger] self
                        .pending(s) == old(self).pending(s) by {
                        assert(old(self).sub_wf(s));
                        assert(self.pending(s) =~= old(self).pending(s));
                    }
                }
                Ok(Loan { slot: i })
            },
        }
    }

    /// Scans the pool for a free slot.
    fn find_free(&self) -> (r: Option<usize>)
        ensures
            r is None <==> !self.has_free_slot(),
            r matches Some(i) ==> (i as int) < self.slots@.len() && self.slots@[i as int].state
                == SlotState::Free,
    {
        let mut i: usize = 0;
        while i < self.slots.len()
            invariant
                i <= self.slots@.len(),
                forall|j: int| 0 <= j < i ==> (#[trigger] self.slots@[j]).state != SlotState::Free,
            decreases self.slots@.len() - i,
        {
            if matches!(self.slots[i].state, SlotState::Free) {
                return Some(i);
            }
            i = i + 1;
        }
        None
    }

    /// Publishes the loaned slot with payload `v`: the sample enters the
    /// history ring (evicting the oldest retained sample when the ring is
    /// full) and is appended to every connected subscriber's delivery
    /// queue (a full queue drops its oldest undelivered sample). Fires
    /// `SentSample`, best-effort: a closed channel drops the notification
    /// but never the sample. Publishing never blocks and never fails.
    pub fn send(&mut self, loan: Loan, v: u64)
        requires
            old(self).wf(),
            old(self).has_publisher(),
            old(self).valid_loan(loan),
        ensures
            final(self).wf(),
            same_shape(old(self), final(self)),
            same_ports(old(self), final(self)),
            final(self).chan_open() == old(self).chan_open(),
            final(self).history() == bounded_push(
                old(self).history(),
                v,
                old(self).history_cap(),
            ),
            forall|s: int|
                0 <= s < old(self).num_subs() ==> #[trigger] final(self).sub_status(s) == old(
                    self,
                ).sub_status(s),
            forall|s: int|
                0 <= s < old(self).num_subs() && old(self).sub_status(s)
                    == SubscriberStatus::Connected ==> #[trigger] final(self).pending(s)
                    == bounded_push(old(self).pending(s), v, old(self).buffer_cap()),
            forall|s: int|
                0 <= s < old(self).num_subs() && old(self).sub_status(s)
                    != SubscriberStatus::Connected ==> #[trigger] final(self).pending(s) == old(
                    self,
                ).pending(s),
            !final(self).valid_loan(loan),
            forall|lo: Loan|
                lo.slot_index() != loan.slot_index() ==> #[trigger] final(self).valid_loan(lo)
                    == old(self).valid_loan(lo),
            old(self).chan_open() ==> forall|l: int|
                0 <= l < old(self).num_listeners() ==> #[trigger] final(self).queue(l)
                    == bounded_push(old(self).queue(l), EventId::SentSample, old(self).chan_cap()),
            !old(self).chan_open() ==> forall|l: int|
                0 <= l < old(self).num_listeners() ==> #[trigger] final(self).queue(l) == old(
                    self,
                ).queue(l),
    {
        let idx = loan.slot;
        self.slots[idx] = Slot { state: SlotState::Published, payload: v };
        proof {
            assert forall|k: int|
                0 <= k < self.ring@.len() implies (#[trigger] self.ring@[k]) < self.slots@.len()
                && self.slots@[self.ring@[k] as int].state == SlotState::Published by {
                assert(old(self).slots@[old(self).ring@[k] as int].state == SlotState::Published);
            }
            assert forall|s: int| 0 <= s < self.subs@.len() implies self.sub_wf(s)
                && !self.subs@[s].queue@.contains(idx) by {
                assert(old(self).sub_wf(s));
                assert forall|k: int|
                    0 <= k < self.subs@[s].queue@.len() implies (
                #[trigger] self.subs@[s].queue@[k]) < self.slots@.len()
                    && self.slots@[self.subs@[s].queue@[k] as int].state == SlotState::Published
                    && self.subs@[s].queue@[k] != idx by {
                    assert(old(self).slots@[old(self).subs@[s].queue@[k] as int].state
                        == SlotState::Published);
                }
                if self.subs@[s].queue@.contains(idx) {
                    let k = choose|k: int|
                        0 <= k < self.subs@[s].queue@.len() && self.subs@[s].queue@[k] == idx;
                    assert(false);
                }
            }
            assert forall|s: int| 0 <= s < self.subs@.len() implies #[trigger] self.pending(s)
                == old(self).pending(s) by {
                assert forall|k: int|
                    0 <= k < self.subs@[s].queue@.len() implies self.slots@[self.subs@[s].queue@[k] as int].payload
                    == old(self).slots@[old(self).subs@[s].queue@[k] as int].payload by {
                    assert(self.subs@[s].queue@.contains(self.subs@[s].queue@[k]));
                    assert(old(self).sub_wf(s));
                }
                assert(self.pending(s) =~= old(self).pending(s));
            }
            assert forall|s1: int, s2: int|
                0 <= s1 < self.subs@.len() && 0 <= s2 < self.subs@.len() && s1 != s2 implies (
            self.subs@[s1].listener) != (self.subs@[s2].listener) by {
                assert(old(self).subs@[s1].listener != old(self).subs@[s2].listener);
            }
            assert forall|s: int| 0 <= s < self.subs@.len() implies (self.subs@[s].listener)
                != self.publisher_listener by {
                assert(old(self).subs@[s].listener != old(self).publisher_listener);
            }
            assert(self.wf());
        }
        // the ring: retain the sample, evicting the oldest beyond capacity;
        // an evicted slot is returned to the pool by the sweep below once
        // nothing references it
        if self.history_size > 0 {
            if self.ring.len() == self.history_size {
                let evicted = self.ring.remove(0);
                assert(evicted == old(self).ring@[0]);
                self.ring.push(idx);
                proof {
                    assert(self.ring@ =~= old(self).ring@.skip(1).push(idx));
                }
            } else {
                self.ring.push(idx);
            }
        }
        proof {
            assert forall|k: int|
                0 <= k < self.ring@.len() implies (#[trigger] self.ring@[k]) < self.slots@.len()
                && self.slots@[self.ring@[k] as int].state == SlotState::Published by {
                if k < self.ring@.len() - 1 && old(self).ring@.len() == old(self).history_cap() {
                    assert(self.ring@[k] == old(self).ring@[k + 1]);
                    assert(old(self).slots@[old(self).ring@[k + 1] as int].state
                        == SlotState::Published);
                } else if self.ring@[k] != idx {
                    assert(self.ring@[k] == old(self).ring@[k]);
                    assert(old(self).slots@[old(self).ring@[k] as int].state
                        == SlotState::Published);
                }
            }
            assert forall|s: int| 0 <= s < self.subs@.len() implies self.sub_wf(s) by {
                assert(old(self).sub_wf(s));
            }
            assert(self.wf());
            assert forall|k: int|
                0 <= k < self.ring@.len() implies #[trigger] self.history()[k] == bounded_push(
                old(self).history(),
                v,
                old(self).history_cap(),
            )[k] by {
                if k == self.ring@.len() - 1 {
                    assert(self.ring@[k] == idx);
                } else if old(self).ring@.len() == old(self).history_cap() {
                    assert(self.ring@[k] == old(self).ring@[k + 1]);
                    assert(old(self).slots@[old(self).ring@[k + 1] as int].state
                        == SlotState::Published);
                    assert(self.ring@[k] != idx);
                    assert(old(self).history()[k + 1] == old(self).slots@[old(self).ring@[k
                        + 1] as int].payload);
                } else {
                    assert(self.ring@[k] == old(self).ring@[k]);
                    assert(old(self).slots@[old(self).ring@[k] as int].state
                        == SlotState::Published);
                    assert(self.ring@[k] != idx);
                    assert(old(self).history()[k] == old(self).slots@[old(self).ring@[k] as int].payload);
                }
            }
            assert(self.history() =~= bounded_push(
                old(self).history(),
                v,
                old(self).history_cap(),
            ));
        }
        let ghost mid = *self;
        proof {
            assert(mid.wf());
            assert forall|t: int|
                0 <= t < mid.subs@.len() implies !(#[trigger] mid.subs@[t]).queue@.contains(idx) by {
                assert(old(self).sub_wf(t));
                assert(mid.subs@[t].queue@ == old(self).subs@[t].queue@);
                if mid.subs@[t].queue@.contains(idx) {
                    let k = choose|k: int|
                        0 <= k < old(self).subs@[t].queue@.len() && old(self).subs@[t].queue@[k]
                            == idx;
                    assert(old(self).slots@[idx as int].state == SlotState::Published);
                    assert(false);
                }
            }
            assert(mid.slots@[idx as int].state == SlotState::Published);
        }
        // deliver to every connected subscriber, dropping the oldest
        // undelivered sample of a full queue
        let mut s: usize = 0;
        while s < self.subs.len()
            invariant
                self.wf(),
                mid.wf(),
                self.publisher_created,
                mid.slots@[idx as int].state == SlotState::Published,
                (idx as int) < mid.slots@.len(),
                s <= self.subs@.len(),
                self.subs@.len() == mid.subs@.len(),
                self.name == mid.name,
                self.history_size == mid.history_size,
                self.max_buffer_size == mid.max_buffer_size,
                self.max_loans == mid.max_loans,
                self.max_subscribers == mid.max_subscribers,
                self.chan == mid.chan,
                self.ring@ == mid.ring@,
                self.publisher_created == mid.publisher_created,
                self.publisher_listener == mid.publisher_listener,
                self.slots@ == mid.slots@,
                forall|t: int|
                    0 <= t < mid.subs@.len() ==> (#[trigger] self.subs@[t]).status
                        == mid.subs@[t].status && self.subs@[t].listener == mid.subs@[t].listener,
                forall|t: int|
                    s <= t < mid.subs@.len() ==> (#[trigger] self.subs@[t]).queue@
                        == mid.subs@[t].queue@,
                forall|t: int|
                    0 <= t < s && mid.subs@[t].status == SubscriberStatus::Connected ==> (
                    #[trigger] self.subs@[t]).queue@ == bounded_push(
                        mid.subs@[t].queue@,
                        idx,
                        mid.max_buffer_size as nat,
                    ),
                forall|t: int|
                    0 <= t < s && mid.subs@[t].status != SubscriberStatus::Connected ==> (
                    #[trigger] self.subs@[t]).queue@ == mid.subs@[t].queue@,
            decreases self.subs@.len() - s,
        {
            let connected = matches!(self.subs[s].status, SubscriberStatus::Connected);
            if connected {
                proof {
                    assert(mid.sub_wf(s as int));
                }
                if self.subs[s].queue.len() == self.max_buffer_size {
                    let dropped = self.subs[s].queue.remove(0);
                    self.subs[s].queue.push(idx);
                    proof {
                        assert(self.subs@[s as int].queue@ =~= bounded_push(
                            mid.subs@[s as int].queue@,
                            idx,
                            mid.max_buffer_size as nat,
                        ));
                    }
                } else {
                    self.subs[s].queue.push(idx);
                    proof {
                        assert(self.subs@[s as int].queue@ =~= bounded_push(
                            mid.subs@[s as int].queue@,
                            idx,
                            mid.max_buffer_size as nat,
                        ));
                    }
                }
                proof {
                    assert forall|t: int| 0 <= t < self.subs@.len() implies self.sub_wf(t) by {
                        assert(mid.sub_wf(t));
                        if t == s {
                            assert forall|k: int|
                                0 <= k < self.subs@[t].queue@.len() implies (
                            #[trigger] self.subs@[t].queue@[k]) < self.slots@.len()
                                && self.slots@[self.subs@[t].queue@[k] as int].state
                                == SlotState::Published by {
                                let q0 = mid.subs@[t].queue@;
                                let q1 = self.subs@[t].queue@;
                                if k == q1.len() - 1 {
                                    assert(q1[k] == idx);
                                } else if q0.len() < mid.max_buffer_size {
                                    assert(q1[k] == q0[k]);
                                } else {
                                    assert(q1[k] == q0[k + 1]);
                                }
                            }
                        }
                    }
                    assert forall|s1: int, s2: int|
                        0 <= s1 < self.subs@.len() && 0 <= s2 < self.subs@.len() && s1 != s2
                        implies (self.subs@[s1].listener) != (self.subs@[s2].listener) by {
                        assert(mid.subs@[s1].listener != mid.subs@[s2].listener);
                    }
                    assert forall|s2: int|
                        0 <= s2 < self.subs@.len() implies (self.subs@[s2].listener)
                        != self.publisher_listener by {
                        assert(mid.subs@[s2].listener != mid.publisher_listener);
                    }
                    assert(self.wf());
                }
            }
            s = s + 1;
        }
        // return every slot nothing references any more to the free pool
        self.sweep();
        let ghost aft = *self;
        let _ = self.chan.notify(EventId::SentSample);
        proof {
            assert(aft.wf());
            assert forall|t: int| 0 <= t < self.subs@.len() implies self.sub_wf(t) by {
                assert(aft.sub_wf(t));
            }
            assert(self.wf());
            assert(self.history() =~= mid.history());
            assert forall|t: int|
                0 <= t < old(self).num_subs() && old(self).sub_status(t)
                    == SubscriberStatus::Connected implies #[trigger] self.pending(t)
                == bounded_push(old(self).pending(t), v, old(self).buffer_cap()) by {
                assert(old(self).sub_wf(t));
                assert(mid.pending(t) =~= old(self).pending(t));
                assert(self.pending(t) =~= bounded_push(
                    mid.pending(t),
                    v,
                    old(self).buffer_cap(),
                ));
            }
            assert forall|t: int|
                0 <= t < old(self).num_subs() && old(self).sub_status(t)
                    != SubscriberStatus::Connected implies #[trigger] self.pending(t) == old(
                self,
            ).pending(t) by {
                assert(old(self).sub_wf(t));
                assert(mid.pending(t) =~= old(self).pending(t));
                assert(self.pending(t) =~= mid.pending(t));
            }
        }
    }

    /// The publisher's reclamation sweep: every slot that is published
    /// but no longer referenced by the ring or a delivery queue returns
    /// to the free pool. Run after each publication; it tolerates holders
    /// that vanished, which are simply swept once their references go.
    fn sweep(&mut self)
        requires
            old(self).wf(),
        ensures
            final(self).wf(),
            final(self).name == old(self).name,
            final(self).history_size == old(self).history_size,
            final(self).max_buffer_size == old(self).max_buffer_size,
            final(self).max_loans == old(self).max_loans,
            final(self).max_subscribers == old(self).max_subscribers,
            final(self).chan == old(self).chan,
            final(self).ring@ == old(self).ring@,
            final(self).subs@ == old(self).subs@,
            final(self).publisher_created == old(self).publisher_created,
            final(self).publisher_listener == old(self).publisher_listener,
            final(self).slots@.len() == old(self).slots@.len(),
            forall|j: int|
                0 <= j < old(self).slots@.len() ==> (#[trigger] final(self).slots@[j]).payload
                    == old(self).slots@[j].payload,
            forall|j: int|
                0 <= j < old(self).slots@.len() ==> (#[trigger] final(self).slots@[j]).state == (
                if old(self).slots@[j].state == SlotState::Published && !old(self).referenced(
                    j as usize,
                ) {
                    SlotState::Free
                } else {
                    old(self).slots@[j].state
                }),
            final(self).history() == old(self).history(),
            forall|s: int|
                0 <= s < old(self).num_subs() ==> #[trigger] final(self).pending(s) == old(
                    self,
                ).pending(s),
            forall|lo: Loan| #[trigger] final(self).valid_loan(lo) == old(self).valid_loan(lo),
    {
        let mut i: usize = 0;
        while i < self.slots.len()
            invariant
                old(self).wf(),
                i <= self.slots@.len(),
                self.name == old(self).name,
                self.history_size == old(self).history_size,
                self.max_buffer_size == old(self).max_buffer_size,
                self.max_loans == old(self).max_loans,
                self.max_subscribers == old(self).max_subscribers,
                self.chan == old(self).chan,
                self.ring@ == old(self).ring@,
                self.subs@ == old(self).subs@,
                self.publisher_created == old(self).publisher_created,
                self.publisher_listener == old(self).publisher_listener,
                self.slots@.len() == old(self).slots@.len(),
                forall|j: int| i <= j < old(self).slots@.len() ==> (#[trigger] self.slots@[j])
                    == old(self).slots@[j],
                forall|j: int|
                    0 <= j < i ==> (#[trigger] self.slots@[j]).payload
                        == old(self).slots@[j].payload,
                forall|j: int|
                    0 <= j < i ==> (#[trigger] self.slots@[j]).state == (if old(
                        self,
                    ).slots@[j].state == SlotState::Published && !old(self).referenced(j as usize) {
                        SlotState::Free
                    } else {
                        old(self).slots@[j].state
                    }),
            decreases self.slots@.len() - i,
        {
            let published = matches!(self.slots[i].state, SlotState::Published);
            if published {
                if !self.is_referenced(i) {
                    proof {
                        assert(self.referenced(i) == old(self).referenced(i));
                    }
                    self.slots[i].state = SlotState::Free;
                }
            }
            i = i + 1;
        }
        proof {
            assert forall|k: int|
                0 <= k < self.ring@.len() implies (#[trigger] self.ring@[k]) < self.slots@.len()
                && self.slots@[self.ring@[k] as int].state == SlotState::Published by {
                assert(old(self).slots@[old(self).ring@[k] as int].state == SlotState::Published);
                assert(old(self).ring@.contains(old(self).ring@[k]));
                assert(old(self).referenced(old(self).ring@[k]));
            }
            assert forall|s: int| 0 <= s < self.subs@.len() implies self.sub_wf(s) by {
                assert(old(self).sub_wf(s));
                assert forall|k: int|
                    0 <= k < self.subs@[s].queue@.len() implies (
                #[trigger] self.subs@[s].queue@[k]) < self.slots@.len()
                    && self.slots@[self.subs@[s].queue@[k] as int].state == SlotState::Published by {
                    assert(old(self).slots@[old(self).subs@[s].queue@[k] as int].state
                        == SlotState::Published);
                    assert(old(self).subs@[s].queue@.contains(old(self).subs@[s].queue@[k]));
                    assert(old(self).referenced(old(self).subs@[s].queue@[k]));
                }
            }
            assert forall|s1: int, s2: int|
                0 <= s1 < self.subs@.len() && 0 <= s2 < self.subs@.len() && s1 != s2 implies (
            self.subs@[s1].listener) != (self.subs@[s2].listener) by {
                assert(old(self).subs@[s1].listener != old(self).subs@[s2].listener);
            }
            if self.publisher_created {
                assert forall|s: int| 0 <= s < self.subs@.len() implies (self.subs@[s].listener)
                    != self.publisher_listener by {
                    assert(old(self).subs@[s].listener != old(self).publisher_listener);
                }
            }
            assert(self.wf());
            assert(self.history() =~= old(self).history());
            assert forall|s: int| 0 <= s < old(self).num_subs() implies #[trigger] self.pending(s)
                == old(self).pending(s) by {
                assert(old(self).sub_wf(s));
                assert(self.pending(s) =~= old(self).pending(s));
            }
        }
    }

    /// Receives the oldest sample not yet consumed by subscriber `s`, if
    /// any. Non-blocking: an empty queue yields `None`, which is not an
    /// error. A successful receive releases the slot reference and fires
    /// `ReceivedSample` as a best-effort diagnostic acknowledgement.
    pub fn receive(&mut self, s: usize) -> (r: Option<u64>)
        requires
            old(self).wf(),
            s < old(self).num_subs(),
        ensures
            final(self).wf(),
            same_shape(old(self), final(self)),
            same_ports(old(self), final(self)),
            final(self).chan_open() == old(self).chan_open(),
            old(self).pending(s as int).len() == 0 ==> r is None && *final(self) == *old(self),
            old(self).pending(s as int).len() > 0 ==> {
                &&& r == Option::Some(old(self).pending(s as int)[0])
                &&& final(self).pending(s as int) == old(self).pending(s as int).drop_first()
                &&& final(self).history() == old(self).history()
                &&& forall|t: int|
                    0 <= t < old(self).num_subs() && t != s ==> #[trigger] final(self).pending(t)
                        == old(self).pending(t)
                &&& forall|t: int|
                    0 <= t < old(self).num_subs() ==> #[trigger] final(self).sub_status(t) == old(
                        self,
                    ).sub_status(t)
                &&& forall|lo: Loan| #[trigger]
                    final(self).valid_loan(lo) == old(self).valid_loan(lo)
                &&& (old(self).chan_open() ==> forall|l: int|
                    0 <= l < old(self).num_listeners() ==> #[trigger] final(self).queue(l)
                        == bounded_push(
                        old(self).queue(l),
                        EventId::ReceivedSample,
                        old(self).chan_cap(),
                    ))
                &&& (!old(self).chan_open() ==> forall|l: int|
                    0 <= l < old(self).num_listeners() ==> #[trigger] final(self).queue(l) == old(
                        self,
                    ).queue(l))
            },
    {
        if self.subs[s].queue.len() == 0 {
            return None;
        }
        proof {
            assert(old(self).sub_wf(s as int));
        }
        let i = self.subs[s].queue.remove(0);
        let v = self.slots[i].payload;
        proof {
            assert(old(self).subs@[s as int].queue@[0] == i);
            assert(v == old(self).pending(s as int)[0]);
            assert forall|t: int| 0 <= t < self.subs@.len() implies self.sub_wf(t) by {
                assert(old(self).sub_wf(t));
                if t == s {
                    assert forall|k: int|
                        0 <= k < self.subs@[t].queue@.len() implies (
                    #[trigger] self.subs@[t].queue@[k]) < self.slots@.len()
                        && self.slots@[self.subs@[t].queue@[k] as int].state
                        == SlotState::Published by {
                        assert(self.subs@[t].queue@[k] == old(self).subs@[s as int].queue@[k + 1]);
                    }
                }
            }
            assert forall|s1: int, s2: int|
                0 <= s1 < self.subs@.len() && 0 <= s2 < self.subs@.len() && s1 != s2 implies (
            self.subs@[s1].listener) != (self.subs@[s2].listener) by {
                assert(old(self).subs@[s1].listener != old(self).subs@[s2].listener);
                assert(self.subs@[s1].listener == old(self).subs@[s1].listener);
                assert(self.subs@[s2].listener == old(self).subs@[s2].listener);
            }
            if self.publisher_created {
                assert forall|t: int| 0 <= t < self.subs@.len() implies (self.subs@[t].listener)
                    != self.publisher_listener by {
                    assert(old(self).subs@[t].listener != old(self).publisher_listener);
                    assert(self.subs@[t].listener == old(self).subs@[t].listener);
                }
            }
            assert(self.wf());
        }
        self.reclaim(i);
        let ghost aft = *self;
        let _ = self.chan.notify(EventId::ReceivedSample);
        proof {
            assert(aft.wf());
            assert forall|t: int| 0 <= t < self.subs@.len() implies self.sub_wf(t) by {
                assert(aft.sub_wf(t));
            }
            assert(self.wf());
            assert(self.pending(s as int) =~= old(self).pending(s as int).drop_first());
            assert(self.history() =~= old(self).history());
            assert forall|t: int|
                0 <= t < old(self).num_subs() && t != s implies #[trigger] self.pending(t) == old(
                self,
            ).pending(t) by {
                assert(old(self).sub_wf(t));
                assert(self.subs@[t].queue@ == old(self).subs@[t].queue@);
                assert(self.pending(t) =~= old(self).pending(t));
            }
        }
        Some(v)
    }

    /// Loans a slot, writes `v` and sends it: the publication path of the
    /// publisher port. Fails exactly when the pool has no free slot, and
    /// then changes nothing; on success the sample enters the history
    /// ring and every connected subscriber's queue, and `SentSample` is
    /// fired best-effort.
    pub fn publish(&mut self, v: u64) -> (r: Result<(), LoanError>)
        requires
            old(self).wf(),
            old(self).has_publisher(),
        ensures
            final(self).wf(),
            same_shape(old(self), final(self)),
            same_ports(old(self), final(self)),
            final(self).chan_open() == old(self).chan_open(),
            r is Err <==> !old(self).has_free_slot(),
            r is Err ==> r == Result::<(), LoanError>::Err(LoanError::ResourceExhausted)
                && *final(self) == *old(self),
            r is Ok ==> final(self).history() == bounded_push(
                old(self).history(),
                v,
                old(self).history_cap(),
            ),
            forall|s: int|
                0 <= s < old(self).num_subs() ==> #[trigger] final(self).sub_status(s) == old(
                    self,
                ).sub_status(s),
            r is Ok ==> forall|s: int|
                0 <= s < old(self).num_subs() && old(self).sub_status(s)
                    == SubscriberStatus::Connected ==> #[trigger] final(self).pending(s)
                    == bounded_push(old(self).pending(s), v, old(self).buffer_cap()),
            r is Ok ==> forall|s: int|
                0 <= s < old(self).num_subs() && old(self).sub_status(s)
                    != SubscriberStatus::Connected ==> #[trigger] final(self).pending(s) == old(
                    self,
                ).pending(s),
            r is Ok && old(self).chan_open() ==> forall|l: int|
                0 <= l < old(self).num_listeners() ==> #[trigger] final(self).queue(l)
                    == bounded_push(old(self).queue(l), EventId::SentSample, old(self).chan_cap()),
            r is Ok && !old(self).chan_open() ==> forall|l: int|
                0 <= l < old(self).num_listeners() ==> #[trigger] final(self).queue(l) == old(
                    self,
                ).queue(l),
    {
        let l = match self.loan() {
            Ok(l) => l,
            Err(e) => {
                return Err(e);
            },
        };
        self.send(l, v);
        Ok(())
    }

    /// The publisher's event handling: drains its listener and serves the
    /// control-plane events found there. A `SubscriberConnected`
    /// handshake connects every pending subscriber, replaying the full
    /// retained history into its queue (oldest first, the drop-oldest
    /// rule applying beyond the queue bound) and firing `SentHistory`
    /// once for the batch, best-effort. A `SubscriberDisconnected` event
    /// releases every disconnected subscriber's remaining queue, and the
    /// reclamation sweep returns the freed slots to the pool. Everything
    /// else drained is informational and ignored.
    pub fn handle_connections(&mut self)
        requires
            old(self).wf(),
            old(self).has_publisher(),
        ensures
            final(self).wf(),
            same_shape(old(self), final(self)),
            same_ports(old(self), final(self)),
            final(self).chan_open() == old(self).chan_open(),
            final(self).history() == old(self).history(),
            forall|lo: Loan| #[trigger] final(self).valid_loan(lo) == old(self).valid_loan(lo),
            ({
                let events = old(self).queue(old(self).pub_listener());
                let connected = events.contains(EventId::SubscriberConnected);
                let dropped = events.contains(EventId::SubscriberDisconnected);
                &&& forall|s: int|
                    0 <= s < old(self).num_subs() && old(self).sub_status(s)
                        == SubscriberStatus::Pending && connected ==> #[trigger] final(self).sub_status(s) == SubscriberStatus::Connected && final(self).pending(s)
                        == last_n(old(self).history(), old(self).buffer_cap())
                &&& forall|s: int|
                    0 <= s < old(self).num_subs() && old(self).sub_status(s)
                        == SubscriberStatus::Pending && !connected ==> #[trigger] final(self).sub_status(s) == SubscriberStatus::Pending && final(self).pending(s) == old(
                        self,
                    ).pending(s)
                &&& forall|s: int|
                    0 <= s < old(self).num_subs() && old(self).sub_status(s)
                        == SubscriberStatus::Connected ==> #[trigger] final(self).sub_status(s)
                        == SubscriberStatus::Connected && final(self).pending(s) == old(
                        self,
                    ).pending(s)
                &&& forall|s: int|
                    0 <= s < old(self).num_subs() && old(self).sub_status(s)
                        == SubscriberStatus::Disconnected ==> #[trigger] final(self).sub_status(s)
                        == SubscriberStatus::Disconnected && final(self).pending(s) == (if dropped {
                        Seq::<u64>::empty()
                    } else {
                        old(self).pending(s)
                    })
                &&& final(self).queue(old(self).pub_listener()) == (if connected && old(
                    self,
                ).chan_open() {
                    bounded_push(Seq::<EventId>::empty(), EventId::SentHistory, old(self).chan_cap())
                } else {
                    Seq::<EventId>::empty()
                })
                &&& forall|l: int|
                    0 <= l < old(self).num_listeners() && l != old(self).pub_listener() ==> (
                    #[trigger] final(self).queue(l)) == (if connected && old(self).chan_open() {
                        bounded_push(old(self).queue(l), EventId::SentHistory, old(self).chan_cap())
                    } else {
                        old(self).queue(l)
                    })
            }),
    {
        let events = self.chan.try_drain(self.publisher_listener);
        proof {
            assert forall|t: int| 0 <= t < self.subs@.len() implies self.sub_wf(t) by {
                assert(old(self).sub_wf(t));
            }
            assert(self.wf());
        }
        let mut any_connect = false;
        let mut any_disconnect = false;
        let mut e: usize = 0;
        while e < events.len()
            invariant
                e <= events@.len(),
                any_connect == events@.take(e as int).contains(EventId::SubscriberConnected),
                any_disconnect == events@.take(e as int).contains(
                    EventId::SubscriberDisconnected,
                ),
            decreases events@.len() - e,
        {
            proof {
                assert(events@.take(e + 1).drop_last() =~= events@.take(e as int));
                assert(events@.take(e + 1).last() == events@[e as int]);
            }
            match events[e] {
                EventId::SubscriberConnected => {
                    any_connect = true;
                },
                EventId::SubscriberDisconnected => {
                    any_disconnect = true;
                },
                _ => {},
            }
            proof {
                if events@.take(e + 1).contains(EventId::SubscriberConnected)
                    && !events@.take(e as int).contains(EventId::SubscriberConnected) {
                    assert(events@[e as int] == EventId::SubscriberConnected);
                }
                if events@.take(e + 1).contains(EventId::SubscriberDisconnected)
                    && !events@.take(e as int).contains(EventId::SubscriberDisconnected) {
                    assert(events@[e as int] == EventId::SubscriberDisconnected);
                }
                if events@.take(e as int).contains(EventId::SubscriberConnected) {
                    assert(events@.take(e + 1).contains(EventId::SubscriberConnected));
                }
                if events@.take(e as int).contains(EventId::SubscriberDisconnected) {
                    assert(events@.take(e + 1).contains(EventId::SubscriberDisconnected));
                }
            }
            e = e + 1;
        }
        proof {
            assert(events@.take(events@.len() as int) =~= events@);
        }
        let ghost mid = *self;
        proof {
            assert(mid.wf());
        }
        if any_connect {
            let mut s: usize = 0;
            while s < self.subs.len()
                invariant
                    self.wf(),
                    mid.wf(),
                    s <= self.subs@.len(),
                    self.subs@.len() == mid.subs@.len(),
                    self.name == mid.name,
                    self.history_size == mid.history_size,
                    self.max_buffer_size == mid.max_buffer_size,
                    self.max_loans == mid.max_loans,
                    self.max_subscribers == mid.max_subscribers,
                    self.chan == mid.chan,
                    self.ring@ == mid.ring@,
                    self.publisher_created == mid.publisher_created,
                    self.publisher_listener == mid.publisher_listener,
                    self.publisher_created,
                    self.slots@ == mid.slots@,
                    forall|t: int|
                        0 <= t < mid.subs@.len() ==> (#[trigger] self.subs@[t]).listener
                            == mid.subs@[t].listener,
                    forall|t: int|
                        s <= t < mid.subs@.len() ==> (#[trigger] self.subs@[t]) == mid.subs@[t],
                    forall|t: int|
                        0 <= t < s && mid.subs@[t].status == SubscriberStatus::Pending ==> (
                        #[trigger] self.subs@[t]).status == SubscriberStatus::Connected
                            && self.subs@[t].queue@ == last_n(
                            mid.ring@,
                            mid.max_buffer_size as nat,
                        ),
                    forall|t: int|
                        0 <= t < s && mid.subs@[t].status != SubscriberStatus::Pending ==> (
                        #[trigger] self.subs@[t]) == mid.subs@[t],
                decreases self.subs@.len() - s,
            {
                let pending_port = matches!(self.subs[s].status, SubscriberStatus::Pending);
                if pending_port {
                    proof {
                        assert(mid.sub_wf(s as int));
                        assert(self.subs@[s as int].queue@ =~= last_n(
                            mid.ring@.take(0),
                            mid.max_buffer_size as nat,
                        ));
                    }
                    self.subs[s].status = SubscriberStatus::Connected;
                    let ghost snap = *self;
                    proof {
                        assert forall|t: int| 0 <= t < self.subs@.len() implies self.sub_wf(t) by {
                            assert(mid.sub_wf(t));
                        }
                        assert forall|s1: int, s2: int|
                            0 <= s1 < self.subs@.len() && 0 <= s2 < self.subs@.len() && s1 != s2
                            implies (self.subs@[s1].listener) != (self.subs@[s2].listener) by {
                            assert(mid.subs@[s1].listener != mid.subs@[s2].listener);
                        }
                        assert forall|s2: int|
                            0 <= s2 < self.subs@.len() implies (self.subs@[s2].listener)
                            != self.publisher_listener by {
                            assert(mid.subs@[s2].listener != mid.publisher_listener);
                        }
                        assert(self.wf());
                    }
                    let mut k: usize = 0;
                    while k < self.ring.len()
                        invariant
                            self.wf(),
                            mid.wf(),
                            snap.wf(),
                            snap.subs@.len() == mid.subs@.len(),
                            snap.slots@ == mid.slots@,
                            snap.chan == mid.chan,
                            snap.max_buffer_size == mid.max_buffer_size,
                            forall|t: int|
                                0 <= t < mid.subs@.len() ==> (#[trigger] snap.subs@[t]).listener
                                    == mid.subs@[t].listener,
                            s < self.subs@.len(),
                            k <= self.ring@.len(),
                            self.subs@.len() == mid.subs@.len(),
                            self.name == mid.name,
                            self.history_size == mid.history_size,
                            self.max_buffer_size == mid.max_buffer_size,
                            self.max_loans == mid.max_loans,
                            self.max_subscribers == mid.max_subscribers,
                            self.chan == mid.chan,
                            self.ring@ == mid.ring@,
                            self.publisher_created == mid.publisher_created,
                            self.publisher_listener == mid.publisher_listener,
                            self.publisher_created,
                            self.slots@ == mid.slots@,
                            forall|t: int|
                                0 <= t < mid.subs@.len() && t != s ==> (#[trigger] self.subs@[t])
                                    == snap.subs@[t],
                            self.subs@[s as int].status == SubscriberStatus::Connected,
                            self.subs@[s as int].listener == mid.subs@[s as int].listener,
                            self.subs@[s as int].queue@ == last_n(
                                mid.ring@.take(k as int),
                                mid.max_buffer_size as nat,
                            ),
                        decreases self.ring@.len() - k,
                    {
                        let slot_idx = self.ring[k];
                        proof {
                            lemma_bounded_push_last_n(
                                mid.ring@.take(k as int),
                                slot_idx,
                                mid.max_buffer_size as nat,
                            );
                            assert(mid.ring@.take(k + 1) =~= mid.ring@.take(k as int).push(
                                slot_idx,
                            ));
                        }
                        if self.subs[s].queue.len() == self.max_buffer_size {
                            self.subs[s].queue.remove(0);
                            self.subs[s].queue.push(slot_idx);
                            proof {
                                assert(self.subs@[s as int].queue@ =~= bounded_push(
                                    last_n(mid.ring@.take(k as int), mid.max_buffer_size as nat),
                                    slot_idx,
                                    mid.max_buffer_size as nat,
                                ));
                            }
                        } else {
                            self.subs[s].queue.push(slot_idx);
                            proof {
                                assert(self.subs@[s as int].queue@ =~= bounded_push(
                                    last_n(mid.ring@.take(k as int), mid.max_buffer_size as nat),
                                    slot_idx,
                                    mid.max_buffer_size as nat,
                                ));
                            }
                        }
                        proof {
                            assert forall|t: int|
                                0 <= t < self.subs@.len() implies self.sub_wf(t) by {
                                assert(snap.sub_wf(t));
                                if t == s {
                                    assert forall|k2: int|
                                        0 <= k2 < self.subs@[t].queue@.len() implies (
                                    #[trigger] self.subs@[t].queue@[k2]) < self.slots@.len()
                                        && self.slots@[self.subs@[t].queue@[k2] as int].state
                                        == SlotState::Published by {
                                        let q = self.subs@[t].queue@;
                                        assert(q == last_n(
                                            mid.ring@.take(k + 1),
                                            mid.max_buffer_size as nat,
                                        ));
                                        let base = mid.ring@.take(k + 1).len() - q.len();
                                        assert(q[k2] == mid.ring@.take(k + 1)[base + k2]);
                                        assert(q[k2] == mid.ring@[base + k2]);
                                        assert(mid.slots@[mid.ring@[base + k2] as int].state
                                            == SlotState::Published);
                                    }
                                }
                            }
                            assert forall|s1: int, s2: int|
                                0 <= s1 < self.subs@.len() && 0 <= s2 < self.subs@.len() && s1
                                    != s2 implies (self.subs@[s1].listener) != (
                            self.subs@[s2].listener) by {
                                assert(mid.subs@[s1].listener != mid.subs@[s2].listener);
                            }
                            assert forall|s2: int|
                                0 <= s2 < self.subs@.len() implies (self.subs@[s2].listener)
                                != self.publisher_listener by {
                                assert(mid.subs@[s2].listener != mid.publisher_listener);
                            }
                            assert(self.wf());
                        }
                        k = k + 1;
                    }
                    proof {
                        assert(mid.ring@.take(self.ring@.len() as int) =~= mid.ring@);
                    }
                }
                s = s + 1;
            }
            let _ = self.chan.notify(EventId::SentHistory);
        }
        let ghost mid2 = *self;
        proof {
            assert(mid2.wf()) by {
                if any_connect {
                    assert forall|t: int| 0 <= t < mid2.subs@.len() implies mid2.sub_wf(t) by {
                        assert(mid.sub_wf(t));
                    }
                }
            }
        }
        if any_disconnect {
            let mut s: usize = 0;
            while s < self.subs.len()
                invariant
                    self.wf(),
                    mid2.wf(),
                    s <= self.subs@.len(),
                    self.subs@.len() == mid2.subs@.len(),
                    self.name == mid2.name,
                    self.history_size == mid2.history_size,
                    self.max_buffer_size == mid2.max_buffer_size,
                    self.max_loans == mid2.max_loans,
                    self.max_subscribers == mid2.max_subscribers,
                    self.chan == mid2.chan,
                    self.ring@ == mid2.ring@,
                    self.publisher_created == mid2.publisher_created,
                    self.publisher_listener == mid2.publisher_listener,
                    self.publisher_created,
                    self.slots@ == mid2.slots@,
                    forall|t: int|
                        0 <= t < mid2.subs@.len() ==> (#[trigger] self.subs@[t]).status
                            == mid2.subs@[t].status && self.subs@[t].listener
                            == mid2.subs@[t].listener,
                    forall|t: int|
                        s <= t < mid2.subs@.len() ==> (#[trigger] self.subs@[t]) == mid2.subs@[t],
                    forall|t: int|
                        0 <= t < s && mid2.subs@[t].status == SubscriberStatus::Disconnected ==> (
                        #[trigger] self.subs@[t]).queue@ == Seq::<usize>::empty(),
                    forall|t: int|
                        0 <= t < s && mid2.subs@[t].status != SubscriberStatus::Disconnected ==> (
                        #[trigger] self.subs@[t]) == mid2.subs@[t],
                decreases self.subs@.len() - s,
            {
                let gone = matches!(self.subs[s].status, SubscriberStatus::Disconnected);
                if gone {
                    self.subs[s].queue.clear();
                    proof {
                        assert forall|t: int| 0 <= t < self.subs@.len() implies self.sub_wf(t) by {
                            assert(mid2.sub_wf(t));
                        }
                        assert forall|s1: int, s2: int|
                            0 <= s1 < self.subs@.len() && 0 <= s2 < self.subs@.len() && s1 != s2
                            implies (self.subs@[s1].listener) != (self.subs@[s2].listener) by {
                            assert(mid2.subs@[s1].listener != mid2.subs@[s2].listener);
                        }
                        assert forall|s2: int|
                            0 <= s2 < self.subs@.len() implies (self.subs@[s2].listener)
                            != self.publisher_listener by {
                            assert(mid2.subs@[s2].listener != mid2.publisher_listener);
                        }
                        assert(self.wf());
                    }
                }
                s = s + 1;
            }
            self.sweep();
        }
        proof {
            assert(self.history() =~= mid2.history());
            assert(mid2.history() =~= mid.history());
            assert(mid.history() =~= old(self).history());
            assert forall|t: int|
                0 <= t < old(self).num_subs() && old(self).sub_status(t)
                    == SubscriberStatus::Pending && old(self).queue(
                old(self).pub_listener(),
            ).contains(EventId::SubscriberConnected) implies #[trigger] self.sub_status(t)
                == SubscriberStatus::Connected && self.pending(t) == last_n(
                old(self).history(),
                old(self).buffer_cap(),
            ) by {
                assert(old(self).sub_wf(t));
                assert(self.subs@[t].queue@ == last_n(mid.ring@, mid.max_buffer_size as nat));
                assert forall|k2: int|
                    0 <= k2 < self.subs@[t].queue@.len() implies #[trigger] self.pending(t)[k2]
                    == last_n(old(self).history(), old(self).buffer_cap())[k2] by {
                    let q = self.subs@[t].queue@;
                    let base = mid.ring@.len() - q.len();
                    assert(q[k2] == mid.ring@[base + k2]);
                    assert(mid.slots@[mid.ring@[base + k2] as int].state == SlotState::Published);
                    assert(old(self).history().len() == mid.ring@.len());
                    assert(last_n(old(self).history(), old(self).buffer_cap())[k2] == old(
                        self,
                    ).history()[base + k2]);
                }
                assert(self.pending(t) =~= last_n(old(self).history(), old(self).buffer_cap()));
            }
            assert forall|t: int|
                0 <= t < old(self).num_subs() && old(self).sub_status(t)
                    != SubscriberStatus::Pending implies #[trigger] self.sub_status(t) == old(
                self,
            ).sub_status(t) by {
                assert(old(self).sub_wf(t));
            }
            assert forall|t: int|
                0 <= t < old(self).num_subs() && (old(self).sub_status(t)
                    == SubscriberStatus::Connected || (old(self).sub_status(t)
                    == SubscriberStatus::Pending && !old(self).queue(
                    old(self).pub_listener(),
                ).contains(EventId::SubscriberConnected)) || (old(self).sub_status(t)
                    == SubscriberStatus::Disconnected && !old(self).queue(
                    old(self).pub_listener(),
                ).contains(EventId::SubscriberDisconnected))) implies #[trigger] self.pending(t)
                == old(self).pending(t) by {
                assert(old(self).sub_wf(t));
                assert(self.subs@[t].queue@ == old(self).subs@[t].queue@);
                assert(self.pending(t) =~= old(self).pending(t));
            }
            assert forall|t: int|
                0 <= t < old(self).num_subs() && old(self).sub_status(t)
                    == SubscriberStatus::Disconnected && old(self).queue(
                old(self).pub_listener(),
            ).contains(EventId::SubscriberDisconnected) implies #[trigger] self.pending(t)
                == Seq::<u64>::empty() by {
                assert(self.subs@[t].queue@ == Seq::<usize>::empty());
                assert(self.pending(t) =~= Seq::<u64>::empty());
            }
        }
    }

    /// Subscriber `s`'s event handling: drains its listener, and if a
    /// data-plane event (`SentSample` or `SentHistory`) is among the
    /// drained events, receives until the queue is empty. Both event
    /// kinds are handled identically at the data layer; they differ only
    /// as context. Returns the received payloads in order; each receive
    /// fires `ReceivedSample`, best-effort.
    pub fn handle_events(&mut self, s: usize) -> (r: Vec<u64>)
        requires
            old(self).wf(),
            s < old(self).num_subs(),
        ensures
            final(self).wf(),
            same_shape(old(self), final(self)),
            same_ports(old(self), final(self)),
            final(self).chan_open() == old(self).chan_open(),
            final(self).history() == old(self).history(),
            forall|t: int|
                0 <= t < old(self).num_subs() ==> #[trigger] final(self).sub_status(t) == old(
                    self,
                ).sub_status(t),
            forall|t: int|
                0 <= t < old(self).num_subs() && t != s ==> #[trigger] final(self).pending(t)
                    == old(self).pending(t),
            forall|lo: Loan| #[trigger] final(self).valid_loan(lo) == old(self).valid_loan(lo),
            ({
                let events = old(self).queue(old(self).sub_listener(s as int));
                let data = events.contains(EventId::SentSample) || events.contains(
                    EventId::SentHistory,
                );
                let n: nat = if data {
                    old(self).pending(s as int).len()
                } else {
                    0
                };
                &&& (data ==> r@ == old(self).pending(s as int) && final(self).pending(s as int)
                    == Seq::<u64>::empty())
                &&& (!data ==> r@ == Seq::<u64>::empty() && final(self).pending(s as int) == old(
                    self,
                ).pending(s as int))
                &&& final(self).queue(old(self).sub_listener(s as int)) == (if old(
                    self,
                ).chan_open() {
                    push_n(Seq::<EventId>::empty(), EventId::ReceivedSample, n, old(self).chan_cap())
                } else {
                    Seq::<EventId>::empty()
                })
                &&& forall|l: int|
                    0 <= l < old(self).num_listeners() && l != old(self).sub_listener(s as int)
                        ==> #[trigger] final(self).queue(l) == (if old(self).chan_open() {
                        push_n(old(self).queue(l), EventId::ReceivedSample, n, old(self).chan_cap())
                    } else {
                        old(self).queue(l)
                    })
            }),
    {
        proof {
            assert(old(self).sub_wf(s as int));
        }
        let li = self.subs[s].listener;
        let events = self.chan.try_drain(li);
        proof {
            assert forall|t: int| 0 <= t < self.subs@.len() implies self.sub_wf(t) by {
                assert(old(self).sub_wf(t));
            }
            assert(self.wf());
        }
        let mut data = false;
        let mut e: usize = 0;
        while e < events.len()
            invariant
                e <= events@.len(),
                data == (events@.take(e as int).contains(EventId::SentSample) || events@.take(
                    e as int,
                ).contains(EventId::SentHistory)),
            decreases events@.len() - e,
        {
            proof {
                assert(events@.take(e + 1).drop_last() =~= events@.take(e as int));
                assert(events@.take(e + 1).last() == events@[e as int]);
                if events@.take(e as int).contains(EventId::SentSample) {
                    assert(events@.take(e + 1).contains(EventId::SentSample));
                }
                if events@.take(e as int).contains(EventId::SentHistory) {
                    assert(events@.take(e + 1).contains(EventId::SentHistory));
                }
                if events@.take(e + 1).contains(EventId::SentSample) && !events@.take(
                    e as int,
                ).contains(EventId::SentSample) {
                    assert(events@[e as int] == EventId::SentSample);
                }
                if events@.take(e + 1).contains(EventId::SentHistory) && !events@.take(
                    e as int,
                ).contains(EventId::SentHistory) {
                    assert(events@[e as int] == EventId::SentHistory);
                }
            }
            match events[e] {
                EventId::SentSample => {
                    data = true;
                },
                EventId::SentHistory => {
                    data = true;
                },
                _ => {},
            }
            e = e + 1;
        }
        proof {
            assert(events@.take(events@.len() as int) =~= events@);
        }
        let ghost mid = *self;
        proof {
            assert(mid.wf());
            assert(mid.pending(s as int) =~= old(self).pending(s as int));
        }
        let mut r: Vec<u64> = Vec::new();
        if data {
            let k = self.subs[s].queue.len();
            while r.len() < k
                invariant
                    self.wf(),
                    mid.wf(),
                    s < mid.subs@.len(),
                    self.subs@.len() == mid.subs@.len(),
                    k == mid.pending(s as int).len(),
                    r@.len() <= k,
                    same_shape(&mid, self),
                    same_ports(&mid, self),
                    self.chan_open() == mid.chan_open(),
                    self.history() == mid.history(),
                    forall|t: int|
                        0 <= t < mid.subs@.len() ==> #[trigger] self.sub_status(t)
                            == mid.sub_status(t),
                    forall|t: int|
                        0 <= t < mid.subs@.len() && t != s ==> #[trigger] self.pending(t)
                            == mid.pending(t),
                    forall|lo: Loan| #[trigger] self.valid_loan(lo) == mid.valid_loan(lo),
                    r@ == mid.pending(s as int).take(r@.len() as int),
                    self.pending(s as int) == mid.pending(s as int).skip(r@.len() as int),
                    forall|l: int|
                        0 <= l < mid.num_listeners() ==> #[trigger] self.queue(l) == (
                        if mid.chan_open() {
                            push_n(
                                mid.queue(l),
                                EventId::ReceivedSample,
                                r@.len() as nat,
                                mid.chan_cap(),
                            )
                        } else {
                            mid.queue(l)
                        }),
                decreases k - r@.len(),
            {
                let ghost m = r@.len() as nat;
                proof {
                    assert(self.pending(s as int).len() > 0);
                }
                match self.receive(s) {
                    Some(v) => {
                        proof {
                            assert(v == mid.pending(s as int).skip(m as int)[0]);
                            assert(v == mid.pending(s as int)[m as int]);
                            assert(mid.pending(s as int).take(m + 1 as int) =~= mid.pending(
                                s as int,
                            ).take(m as int).push(v));
                            assert(self.pending(s as int) =~= mid.pending(s as int).skip(m + 1 as int));
                        }
                        r.push(v);
                    },
                    None => {
                        proof {
                            assert(false);
                        }
                    },
                }
            }
            proof {
                assert(r@ =~= mid.pending(s as int));
                assert(self.pending(s as int) =~= Seq::<u64>::empty());
            }
        }
        proof {
            assert forall|t: int|
                0 <= t < old(self).num_subs() && t != s implies #[trigger] self.pending(t) == old(
                self,
            ).pending(t) by {
                assert(old(self).sub_wf(t));
                assert(mid.pending(t) =~= old(self).pending(t));
            }
            assert(mid.history() =~= old(self).history());
        }
        r
    }

    /// Tears subscriber `s` down: the port becomes `Disconnected`, a
    /// terminal state, and `SubscriberDisconnected` is fired, best-effort
    /// — a closed channel never turns teardown into a failure. The
    /// publisher releases the port's remaining queue when it handles the
    /// disconnect event. Disconnecting twice is a no-op.
    pub fn disconnect_subscriber(&mut self, s: usize)
        requires
            old(self).wf(),
            s < old(self).num_subs(),
        ensures
            final(self).wf(),
            same_shape(old(self), final(self)),
            same_ports(old(self), final(self)),
            final(self).chan_open() == old(self).chan_open(),
            old(self).sub_status(s as int) == SubscriberStatus::Disconnected ==> *final(self)
                == *old(self),
            old(self).sub_status(s as int) != SubscriberStatus::Disconnected ==> {
                &&& final(self).sub_status(s as int) == SubscriberStatus::Disconnected
                &&& final(self).pending(s as int) == old(self).pending(s as int)
                &&& final(self).history() == old(self).history()
                &&& forall|t: int|
                    0 <= t < old(self).num_subs() && t != s ==> #[trigger] final(self).sub_status(
                        t,
                    ) == old(self).sub_status(t) && final(self).pending(t) == old(self).pending(t)
                &&& forall|lo: Loan| #[trigger]
                    final(self).valid_loan(lo) == old(self).valid_loan(lo)
                &&& (old(self).chan_open() ==> forall|l: int|
                    0 <= l < old(self).num_listeners() ==> #[trigger] final(self).queue(l)
                        == bounded_push(
                        old(self).queue(l),
                        EventId::SubscriberDisconnected,
                        old(self).chan_cap(),
                    ))
                &&& (!old(self).chan_open() ==> forall|l: int|
                    0 <= l < old(self).num_listeners() ==> #[trigger] final(self).queue(l) == old(
                        self,
                    ).queue(l))
            },
    {
        if matches!(self.subs[s].status, SubscriberStatus::Disconnected) {
            return;
        }
        self.subs[s].status = SubscriberStatus::Disconnected;
        proof {
            assert forall|t: int| 0 <= t < self.subs@.len() implies self.sub_wf(t) by {
                assert(old(self).sub_wf(t));
            }
            assert forall|s1: int, s2: int|
                0 <= s1 < self.subs@.len() && 0 <= s2 < self.subs@.len() && s1 != s2 implies (
            self.subs@[s1].listener) != (self.subs@[s2].listener) by {
                assert(old(self).subs@[s1].listener != old(self).subs@[s2].listener);
            }
            if self.publisher_created {
                assert forall|t: int| 0 <= t < self.subs@.len() implies (self.subs@[t].listener)
                    != self.publisher_listener by {
                    assert(old(self).subs@[t].listener != old(self).publisher_listener);
                }
            }
            assert(self.wf());
        }
        let ghost aft = *self;
        let _ = self.chan.notify(EventId::SubscriberDisconnected);
        proof {
            assert(aft.wf());
            assert forall|t: int| 0 <= t < self.subs@.len() implies self.sub_wf(t) by {
                assert(aft.sub_wf(t));
            }
            assert(self.wf());
            assert(self.history() =~= old(self).history());
            assert forall|t: int| 0 <= t < old(self).num_subs() implies #[trigger] self.pending(t)
                == old(self).pending(t) by {
                assert(old(self).sub_wf(t));
                assert(self.pending(t) =~= old(self).pending(t));
            }
        }
    }

    /// Tears the publisher down: the port is gone and
    /// `PublisherDisconnected` is fired, best-effort — teardown never
    /// fails, whatever the channel state. The history ring stays for the
    /// service's remaining lifetime. Without a publisher the call is a
    /// no-op.
    pub fn disconnect_publisher(&mut self)
        requires
            old(self).wf(),
        ensures
            final(self).wf(),
            same_shape(old(self), final(self)),
            !final(self).has_publisher(),
            final(self).chan_open() == old(self).chan_open(),
            final(self).num_subs() == old(self).num_subs(),
            final(self).num_listeners() == old(self).num_listeners(),
            !old(self).has_publisher() ==> *final(self) == *old(self),
            final(self).history() == old(self).history(),
            forall|t: int|
                0 <= t < old(self).num_subs() ==> #[trigger] final(self).sub_status(t) == old(
                    self,
                ).sub_status(t) && final(self).sub_listener(t) == old(self).sub_listener(t)
                    && final(self).pending(t) == old(self).pending(t),
            forall|lo: Loan| #[trigger] final(self).valid_loan(lo) == old(self).valid_loan(lo),
            old(self).has_publisher() && old(self).chan_open() ==> forall|l: int|
                0 <= l < old(self).num_listeners() ==> #[trigger] final(self).queue(l)
                    == bounded_push(
                    old(self).queue(l),
                    EventId::PublisherDisconnected,
                    old(self).chan_cap(),
                ),
            old(self).has_publisher() && !old(self).chan_open() ==> forall|l: int|
                0 <= l < old(self).num_listeners() ==> #[trigger] final(self).queue(l) == old(
                    self,
                ).queue(l),
    {
        if !self.publisher_created {
            return;
        }
        self.publisher_created = false;
        proof {
            assert forall|t: int| 0 <= t < self.subs@.len() implies self.sub_wf(t) by {
                assert(old(self).sub_wf(t));
            }
            assert forall|s1: int, s2: int|
                0 <= s1 < self.subs@.len() && 0 <= s2 < self.subs@.len() && s1 != s2 implies (
            self.subs@[s1].listener) != (self.subs@[s2].listener) by {
                assert(old(self).subs@[s1].listener != old(self).subs@[s2].listener);
            }
            assert(self.wf());
        }
        let ghost aft = *self;
        let _ = self.chan.notify(EventId::PublisherDisconnected);
        proof {
            assert(aft.wf());
            assert forall|t: int| 0 <= t < self.subs@.len() implies self.sub_wf(t) by {
                assert(aft.sub_wf(t));
            }
            assert(self.wf());
            assert(self.history() =~= old(self).history());
            assert forall|t: int| 0 <= t < old(self).num_subs() implies #[trigger] self.pending(t)
                == old(self).pending(t) by {
                assert(old(self).sub_wf(t));
                assert(self.pending(t) =~= old(self).pending(t));
            }
        }
    }

    /// Whether the event channel still exists.
    pub fn chan_is_open(&self) -> (b: bool)
        ensures
            b == self.chan_open(),
    {
        self.chan.is_channel_open()
    }

    /// Tears the event channel down, as the last port leaving does:
    /// later notifications fail with `ChannelClosed`, queued events stay.
    pub fn close_channel(&mut self)
        requires
            old(self).wf(),
        ensures
            final(self).wf(),
            same_shape(old(self), final(self)),
            same_ports(old(self), final(self)),
            !final(self).chan_open(),
            forall|l: int|
                0 <= l < old(self).num_listeners() ==> #[trigger] final(self).queue(l) == old(
                    self,
                ).queue(l),
            final(self).history() == old(self).history(),
            forall|s: int|
                0 <= s < old(self).num_subs() ==> #[trigger] final(self).sub_status(s) == old(
                    self,
                ).sub_status(s) && final(self).pending(s) == old(self).pending(s),
            forall|lo: Loan| #[trigger] final(self).valid_loan(lo) == old(self).valid_loan(lo),
            final(self).has_free_slot() == old(self).has_free_slot(),
    {
        self.chan.close();
        proof {
            old(self).data_plane_framed(self);
            assert forall|s: int| 0 <= s < self.subs@.len() implies self.sub_wf(s) by {
                assert(old(self).sub_wf(s));
            }
        }
    }

    /// The publisher's waitable listener handle, for multiplexing.
    pub fn publisher_listener_handle(&self) -> (l: usize)
        requires
            self.has_publisher(),
        ensures
            l as int == self.pub_listener(),
    {
        self.publisher_listener
    }

    /// Subscriber `s`'s waitable listener handle, for multiplexing.
    pub fn subscriber_listener_handle(&self, s: usize) -> (l: usize)
        requires
            self.wf(),
            s < self.num_subs(),
        ensures
            l as int == self.sub_listener(s as int),
    {
        self.subs[s].listener
    }

    /// Whether listener `l`'s handle is signaled: exactly when events are
    /// queued for it.
    pub fn listener_signaled(&self, l: usize) -> (b: bool)
        requires
            self.wf(),
            l < self.num_listeners(),
        ensures
            b == (self.queue(l as int).len() > 0),
    {
        self.chan.is_signaled(l)
    }

    pub fn num_subscribers(&self) -> (n: usize)
        ensures
            n == self.num_subs(),
    {
        self.subs.len()
    }

    /// The lifecycle state of subscriber `s`.
    pub fn subscriber_status(&self, s: usize) -> (st: SubscriberStatus)
        requires
            s < self.num_subs(),
        ensures
            st == self.sub_status(s as int),
    {
        self.subs[s].status
    }
}

} // verus!
