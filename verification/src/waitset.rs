//! The synchronous multiplexer: notification, deadline and interval
//! attachments over waitable handles.
//!
//! The blocking multiplex primitive itself is the OS collaborator's; what
//! is verified here is everything decided around it: which timeout the
//! blocking call gets (`next_timeout`), and which attachments fire with
//! which reason once a cycle wakes (`cycle`). The caller runs the loop:
//! block with the computed timeout on the attached handle set, read the
//! clock, hand the signaled set to `cycle`, and dispatch one callback per
//! firing. An interrupted blocking call is simply retried with a fresh
//! clock reading; nothing here changes.
//!
//! Times are nanoseconds on a monotonic clock, handed in by the caller
//! and never read here; every operation requires a reading no older than
//! the last one seen.

use vstd::prelude::*;

use crate::posix::fd_set;
use crate::posix::FD_SETSIZE;

verus! {

/// Timestamps stay below this bound, durations too: their sum then fits
/// the arithmetic everywhere. At a nanosecond resolution the bound is
/// over 140 years of uptime.
pub const MAX_TIME: u64 = 0x3FFF_FFFF_FFFF_FFFF;

/// What an attachment watches for.
#[derive(Clone, Copy, Debug, PartialEq, Eq, Structural)]
pub enum AttachmentKind {
    /// Wake whenever the source signals.
    Notification,
    /// Wake on a signal, and report a miss when a whole duration passes
    /// without one.
    Deadline,
    /// A pure timer: fire once per duration, signals play no part.
    Interval,
}

/// One registered attachment. The `due` field is the absolute time the
/// next miss (deadline) or tick (interval) is owed; it is meaningless
/// for a plain notification.
#[derive(Clone, Copy, Debug, PartialEq, Eq, Structural)]
pub struct Attachment {
    pub source: u64,
    pub kind: AttachmentKind,
    pub dur: u64,
    pub due: u64,
    pub active: bool,
}

/// Why an attachment fired in a cycle.
#[derive(Clone, Copy, Debug, PartialEq, Eq, Structural)]
pub enum WakeReason {
    /// The attachment's source signaled.
    Notification,
    /// A deadline attachment saw its whole duration pass without a
    /// signal.
    MissedDeadline,
    /// An interval attachment's period elapsed.
    IntervalTick,
}

/// One firing of one attachment: the guard identity correlates it to the
/// attachment it came from.
#[derive(Clone, Copy, Debug, PartialEq, Eq, Structural)]
pub struct Firing {
    pub guard: usize,
    pub reason: WakeReason,
}

/// Rejections at attach time.
#[derive(Clone, Copy, Debug, PartialEq, Eq, Structural)]
pub enum AttachError {
    /// The same source is already attached; duplicates are rejected.
    AlreadyAttached,
    /// The handle does not fit the descriptor set of the multiplex
    /// primitive.
    InvalidHandle,
}

/// Proof of one registration, handed back by the attach calls; consuming
/// it in [`WaitSet::detach`] ends the registration.
pub struct Guard {
    id: usize,
}

impl Guard {
    /// The attachment index this guard stands for.
    pub closed spec fn id_spec(&self) -> int {
        self.id as int
    }

    /// The guard identity, as it appears in a [`Firing`].
    pub fn id(&self) -> (r: usize)
        ensures
            r as int == self.id_spec(),
    {
        self.id
    }
}

/// Whether an attachment observes its source's handle.
pub open spec fn watches(a: Attachment) -> bool {
    a.active && a.kind != AttachmentKind::Interval
}

/// Whether an attachment takes part in timeout computation.
pub open spec fn timed(a: Attachment) -> bool {
    a.active && a.kind != AttachmentKind::Notification
}

/// Time left at `now` until an attachment's due time: the blocking call
/// must not sleep longer.
pub open spec fn remaining(a: Attachment, now: u64) -> u64 {
    if a.due <= now {
        0
    } else {
        (a.due - now) as u64
    }
}

/// Whether and why one attachment fires in a cycle at `now` with the
/// signaled handle set `sig`. A deadline's signal outranks its miss; a
/// missed deadline fires exactly when the due time has passed with no
/// signal; an interval consults the clock alone.
pub open spec fn att_fired(a: Attachment, now: u64, sig: Set<u64>) -> Option<WakeReason> {
    if !a.active {
        None
    } else {
        match a.kind {
            AttachmentKind::Notification => if sig.contains(a.source) {
                Some(WakeReason::Notification)
            } else {
                None
            },
            AttachmentKind::Deadline => if sig.contains(a.source) {
                Some(WakeReason::Notification)
            } else if now >= a.due {
                Some(WakeReason::MissedDeadline)
            } else {
                None
            },
            AttachmentKind::Interval => if now >= a.due {
                Some(WakeReason::IntervalTick)
            } else {
                None
            },
        }
    }
}

/// The attachment after a cycle: a deadline that fired (signal or miss)
/// restarts its window at `now`; an interval that ticked owes the next
/// tick one duration later; everything else is untouched.
pub open spec fn att_step(a: Attachment, now: u64, sig: Set<u64>) -> Attachment {
    match a.kind {
        AttachmentKind::Notification => a,
        AttachmentKind::Deadline => if a.active && (sig.contains(a.source) || now >= a.due) {
            Attachment { due: (now + a.dur) as u64, ..a }
        } else {
            a
        },
        AttachmentKind::Interval => if a.active && now >= a.due {
            Attachment { due: (now + a.dur) as u64, ..a }
        } else {
            a
        },
    }
}

/// Every firing of one cycle, in attachment order, one per ready
/// attachment.
pub open spec fn fired_seq(atts: Seq<Attachment>, now: u64, sig: Set<u64>) -> Seq<Firing>
    decreases atts.len(),
{
    if atts.len() == 0 {
        Seq::<Firing>::empty()
    } else {
        let pre = fired_seq(atts.drop_last(), now, sig);
        match att_fired(atts.last(), now, sig) {
            Some(why) => pre.push(
                Firing { guard: (atts.len() - 1) as usize, reason: why },
            ),
            None => pre,
        }
    }
}

/// The multiplexer: a set of attachments over waitable handles, a
/// descriptor set mirroring the watched handles, and the latest clock
/// reading seen.
pub struct WaitSet {
    attachments: Vec<Attachment>,
    handles: fd_set,
    now: u64,
}

impl WaitSet {
    /// All attachments ever made, detached ones included, in guard
    /// order.
    pub closed spec fn atts(&self) -> Seq<Attachment> {
        self.attachments@
    }

    /// The latest clock reading this set has seen.
    pub closed spec fn clock(&self) -> u64 {
        self.now
    }

    /// The watched handles, as handed to the blocking multiplex call.
    pub closed spec fn handle_set(&self) -> Set<u64> {
        self.handles@
    }

    pub closed spec fn wf(&self) -> bool {
        &&& self.handles.wf()
        &&& self.now <= MAX_TIME
        &&& forall|i: int|
            0 <= i < self.attachments@.len() ==> {
                let a = #[trigger] self.attachments@[i];
                &&& a.dur <= MAX_TIME
                &&& (a.kind != AttachmentKind::Interval ==> a.source < FD_SETSIZE as u64)
                &&& (timed(a) ==> a.due <= self.now + a.dur)
            }
        &&& forall|i: int|
            0 <= i < self.attachments@.len() && watches(#[trigger] self.attachments@[i])
                ==> self.handles@.contains(self.attachments@[i].source)
        &&& forall|f: u64|
            self.handles@.contains(f) ==> exists|i: int|
                0 <= i < self.attachments@.len() && watches(#[trigger] self.attachments@[i])
                    && self.attachments@[i].source == f
        &&& forall|i: int, j: int|
            0 <= i < self.attachments@.len() && 0 <= j < self.attachments@.len() && i != j
                && watches(#[trigger] self.attachments@[i]) && watches(
                #[trigger] self.attachments@[j],
            ) ==> self.attachments@[i].source != self.attachments@[j].source
    }

    proof fn lemma_wf_after_attach(&self, other: &WaitSet, source: u64)
        requires
            other.wf(),
            source < FD_SETSIZE as u64,
            !other.handles@.contains(source),
            self.now == other.now,
            self.handles.wf(),
            self.handles@ == other.handles@.insert(source),
            self.attachments@.len() == other.attachments@.len() + 1,
            forall|i: int|
                0 <= i < other.attachments@.len() ==> #[trigger] self.attachments@[i]
                    == other.attachments@[i],
            ({
                let a = self.attachments@[other.attachments@.len() as int];
                &&& a.source == source
                &&& a.active
                &&& a.kind != AttachmentKind::Interval
                &&& a.dur <= MAX_TIME
                &&& (timed(a) ==> a.due <= self.now + a.dur)
            }),
        ensures
            self.wf(),
    {
        let n = other.attachments@.len() as int;
        assert forall|i: int|
            0 <= i < self.attachments@.len() && watches(#[trigger] self.attachments@[i])
                implies self.handles@.contains(self.attachments@[i].source) by {
            if i < n {
                assert(watches(other.attachments@[i]));
                assert(other.handles@.contains(other.attachments@[i].source));
            }
        }
        assert forall|f: u64| self.handles@.contains(f) implies exists|i: int|
            0 <= i < self.attachments@.len() && watches(#[trigger] self.attachments@[i])
                && self.attachments@[i].source == f by {
            if f == source {
                assert(watches(self.attachments@[n]) && self.attachments@[n].source == f);
            } else {
                let i = choose|i: int|
                    0 <= i < other.attachments@.len() && watches(#[trigger] other.attachments@[i])
                        && other.attachments@[i].source == f;
                assert(watches(self.attachments@[i]) && self.attachments@[i].source == f);
            }
        }
        assert forall|i: int, j: int|
            0 <= i < self.attachments@.len() && 0 <= j < self.attachments@.len() && i != j
                && watches(#[trigger] self.attachments@[i]) && watches(
                #[trigger] self.attachments@[j],
            ) implies self.attachments@[i].source != self.attachments@[j].source by {
            if i < n && j < n {
                assert(watches(other.attachments@[i]) && watches(other.attachments@[j]));
            } else if i == n && j < n {
                assert(watches(other.attachments@[j]));
                assert(other.handles@.contains(other.attachments@[j].source));
            } else if j == n && i < n {
                assert(watches(other.attachments@[i]));
                assert(other.handles@.contains(other.attachments@[i].source));
            }
        }
        assert forall|i: int|
            0 <= i < self.attachments@.len() implies ({
                let a = #[trigger] self.attachments@[i];
                &&& a.dur <= MAX_TIME
                &&& (a.kind != AttachmentKind::Interval ==> a.source < FD_SETSIZE as u64)
                &&& (timed(a) ==> a.due <= self.now + a.dur)
            }) by {
            if i < n {
                let b = other.attachments@[i];
                assert(b.dur <= MAX_TIME && (b.kind != AttachmentKind::Interval ==> b.source
                    < FD_SETSIZE as u64) && (timed(b) ==> b.due <= other.now + b.dur));
            }
        }
    }

    /// An empty multiplexer; its clock starts at zero.
    pub fn new() -> (w: WaitSet)
        ensures
            w.wf(),
            w.atts() == Seq::<Attachment>::empty(),
            w.clock() == 0,
            w.handle_set() == Set::<u64>::empty(),
    {
        WaitSet { attachments: Vec::new(), handles: fd_set::new(), now: 0 }
    }

    /// Attaches a source for plain notifications: the cycle fires for it
    /// exactly when its handle signaled. Duplicate attachment of an
    /// already watched source is rejected, as is a handle the descriptor
    /// set cannot hold; a rejected attach changes nothing.
    pub fn attach_notification(&mut self, source: u64) -> (r: Result<Guard, AttachError>)
        requires
            old(self).wf(),
        ensures
            final(self).wf(),
            final(self).clock() == old(self).clock(),
            source >= FD_SETSIZE as u64 ==> r == Result::<Guard, AttachError>::Err(
                AttachError::InvalidHandle,
            ) && *final(self) == *old(self),
            source < FD_SETSIZE as u64 && old(self).handle_set().contains(source) ==> r
                == Result::<Guard, AttachError>::Err(AttachError::AlreadyAttached) && *final(self)
                == *old(self),
            source < FD_SETSIZE as u64 && !old(self).handle_set().contains(source) ==> {
                &&& r is Ok
                &&& (r->Ok_0).id_spec() == old(self).atts().len()
                &&& final(self).atts() == old(self).atts().push(
                    Attachment {
                        source,
                        kind: AttachmentKind::Notification,
                        dur: 0,
                        due: 0,
                        active: true,
                    },
                )
                &&& final(self).handle_set() == old(self).handle_set().insert(source)
            },
    {
        if source >= FD_SETSIZE as u64 {
            return Err(AttachError::InvalidHandle);
        }
        if self.handles.contains(source as usize) {
            return Err(AttachError::AlreadyAttached);
        }
        let id = self.attachments.len();
        self.attachments.push(
            Attachment {
                source,
                kind: AttachmentKind::Notification,
                dur: 0,
                due: 0,
                active: true,
            },
        );
        self.handles.insert(source as usize);
        proof {
            self.lemma_wf_after_attach(old(self), source);
        }
        Ok(Guard { id })
    }

    /// Attaches a source with a deadline: the cycle fires a notification
    /// on a signal, and a distinguishable miss when a whole duration
    /// passes without one; either one restarts the window. The first
    /// window starts now. Rejections are as for a plain notification.
    pub fn attach_deadline(&mut self, source: u64, dur: u64) -> (r: Result<Guard, AttachError>)
        requires
            old(self).wf(),
            dur <= MAX_TIME,
        ensures
            final(self).wf(),
            final(self).clock() == old(self).clock(),
            source >= FD_SETSIZE as u64 ==> r == Result::<Guard, AttachError>::Err(
                AttachError::InvalidHandle,
            ) && *final(self) == *old(self),
            source < FD_SETSIZE as u64 && old(self).handle_set().contains(source) ==> r
                == Result::<Guard, AttachError>::Err(AttachError::AlreadyAttached) && *final(self)
                == *old(self),
            source < FD_SETSIZE as u64 && !old(self).handle_set().contains(source) ==> {
                &&& r is Ok
                &&& (r->Ok_0).id_spec() == old(self).atts().len()
                &&& final(self).atts() == old(self).atts().push(
                    Attachment {
                        source,
                        kind: AttachmentKind::Deadline,
                        dur,
                        due: (old(self).clock() + dur) as u64,
                        active: true,
                    },
                )
                &&& final(self).handle_set() == old(self).handle_set().insert(source)
            },
    {
        if source >= FD_SETSIZE as u64 {
            return Err(AttachError::InvalidHandle);
        }
        if self.handles.contains(source as usize) {
            return Err(AttachError::AlreadyAttached);
        }
        let id = self.attachments.len();
        let due = self.now + dur;
        self.attachments.push(
            Attachment { source, kind: AttachmentKind::Deadline, dur, due, active: true },
        );
        self.handles.insert(source as usize);
        proof {
            self.lemma_wf_after_attach(old(self), source);
        }
        Ok(Guard { id })
    }

    /// Attaches a pure timer that fires once per duration, whatever else
    /// happens. The first tick is owed one duration from now. A timer
    /// watches no handle, so it can never collide with another
    /// attachment.
    pub fn attach_interval(&mut self, dur: u64) -> (g: Guard)
        requires
            old(self).wf(),
            dur <= MAX_TIME,
        ensures
            final(self).wf(),
            final(self).clock() == old(self).clock(),
            g.id_spec() == old(self).atts().len(),
            final(self).atts() == old(self).atts().push(
                Attachment {
                    source: 0,
                    kind: AttachmentKind::Interval,
                    dur,
                    due: (old(self).clock() + dur) as u64,
                    active: true,
                },
            ),
            final(self).handle_set() == old(self).handle_set(),
    {
        let id = self.attachments.len();
        let due = self.now + dur;
        self.attachments.push(
            Attachment { source: 0, kind: AttachmentKind::Interval, dur, due, active: true },
        );
        proof {
            assert forall|f: u64| self.handles@.contains(f) implies exists|i: int|
                0 <= i < self.attachments@.len() && watches(#[trigger] self.attachments@[i])
                    && self.attachments@[i].source == f by {
                let i = choose|i: int|
                    0 <= i < old(self).attachments@.len() && watches(
                        #[trigger] old(self).attachments@[i],
                    ) && old(self).attachments@[i].source == f;
                assert(self.attachments@[i] == old(self).attachments@[i]);
                assert(watches(self.attachments@[i]));
            }
        }
        Guard { id }
    }

    /// Consumes a guard and deactivates its attachment: from the next
    /// cycle on it never fires again, and its handle leaves the watched
    /// set. Detaching an already inactive attachment changes nothing.
    pub fn detach(&mut self, g: Guard)
        requires
            old(self).wf(),
            0 <= g.id_spec() < old(self).atts().len(),
        ensures
            final(self).wf(),
            final(self).clock() == old(self).clock(),
            final(self).atts().len() == old(self).atts().len(),
            !final(self).atts()[g.id_spec()].active,
            forall|i: int|
                0 <= i < old(self).atts().len() && i != g.id_spec() ==> final(self).atts()[i]
                    == old(self).atts()[i],
            !old(self).atts()[g.id_spec()].active ==> *final(self) == *old(self),
            old(self).atts()[g.id_spec()].active ==> final(self).atts()[g.id_spec()] == (
            Attachment { active: false, ..old(self).atts()[g.id_spec()] }),
            final(self).handle_set() == (if watches(old(self).atts()[g.id_spec()]) {
                old(self).handle_set().remove(old(self).atts()[g.id_spec()].source)
            } else {
                old(self).handle_set()
            }),
    {
        let id = g.id;
        if !self.attachments[id].active {
            return;
        }
        let was_watch = !matches!(self.attachments[id].kind, AttachmentKind::Interval);
        let source = self.attachments[id].source;
        self.attachments[id].active = false;
        if was_watch {
            self.handles.remove(source as usize);
            proof {
                assert forall|f: u64| self.handles@.contains(f) implies exists|i: int|
                    0 <= i < self.attachments@.len() && watches(#[trigger] self.attachments@[i])
                        && self.attachments@[i].source == f by {
                    let i = choose|i: int|
                        0 <= i < old(self).attachments@.len() && watches(
                            #[trigger] old(self).attachments@[i],
                        ) && old(self).attachments@[i].source == f;
                    assert(i != id);
                    assert(watches(self.attachments@[i]));
                }
            }
        } else {
            proof {
                assert forall|f: u64| self.handles@.contains(f) implies exists|i: int|
                    0 <= i < self.attachments@.len() && watches(#[trigger] self.attachments@[i])
                        && self.attachments@[i].source == f by {
                    let i = choose|i: int|
                        0 <= i < old(self).attachments@.len() && watches(
                            #[trigger] old(self).attachments@[i],
                        ) && old(self).attachments@[i].source == f;
                    assert(i != id);
                    assert(watches(self.attachments@[i]));
                }
            }
        }
    }

    /// The timeout for the next blocking multiplex call: the least time
    /// remaining until any active deadline or interval is due, and
    /// nothing when no attachment is timed — the call may then block
    /// indefinitely.
    pub fn next_timeout(&self, now: u64) -> (r: Option<u64>)
        requires
            self.wf(),
            now >= self.clock(),
            now <= MAX_TIME,
        ensures
            r is None <==> forall|i: int|
                0 <= i < self.atts().len() ==> !timed(#[trigger] self.atts()[i]),
            r matches Some(t) ==> (exists|i: int|
                0 <= i < self.atts().len() && timed(#[trigger] self.atts()[i]) && remaining(
                    self.atts()[i],
                    now,
                ) == t) && forall|i: int|
                0 <= i < self.atts().len() && timed(#[trigger] self.atts()[i]) ==> remaining(
                    self.atts()[i],
                    now,
                ) >= t,
    {
        let mut best: Option<u64> = None;
        let mut i: usize = 0;
        while i < self.attachments.len()
            invariant
                i <= self.atts().len(),
                best is None <==> forall|j: int|
                    0 <= j < i ==> !timed(#[trigger] self.atts()[j]),
                best matches Some(t) ==> (exists|j: int|
                    0 <= j < i && timed(#[trigger] self.atts()[j]) && remaining(
                        self.atts()[j],
                        now,
                    ) == t) && forall|j: int|
                    0 <= j < i && timed(#[trigger] self.atts()[j]) ==> remaining(
                        self.atts()[j],
                        now,
                    ) >= t,
            decreases self.atts().len() - i,
        {
            let a = self.attachments[i];
            proof {
                assert(a == self.atts()[i as int]);
            }
            let is_timed = a.active && !matches!(a.kind, AttachmentKind::Notification);
            if is_timed {
                let rem = if a.due <= now {
                    0
                } else {
                    a.due - now
                };
                best = match best {
                    None => Some(rem),
                    Some(b) => if rem < b {
                        Some(rem)
                    } else {
                        Some(b)
                    },
                };
            }
            i = i + 1;
        }
        best
    }

    /// One wake cycle at clock reading `now` with the signaled handles
    /// `sig`: returns every firing, one per ready attachment in guard
    /// order, and advances the fired deadline and interval windows. The
    /// caller dispatches its callback once per firing and stops
    /// dispatching the moment it is told to stop — the firings of one
    /// cycle are data, so stopping early loses nothing.
    pub fn cycle(&mut self, now: u64, sig: &fd_set) -> (fired: Vec<Firing>)
        requires
            old(self).wf(),
            sig.wf(),
            now >= old(self).clock(),
            now <= MAX_TIME,
        ensures
            final(self).wf(),
            final(self).clock() == now,
            final(self).handle_set() == old(self).handle_set(),
            final(self).atts().len() == old(self).atts().len(),
            fired@ == fired_seq(old(self).atts(), now, sig@),
            forall|i: int|
                0 <= i < old(self).atts().len() ==> final(self).atts()[i] == att_step(
                    old(self).atts()[i],
                    now,
                    sig@,
                ),
    {
        let mut fired: Vec<Firing> = Vec::new();
        let mut i: usize = 0;
        while i < self.attachments.len()
            invariant
                self.handles.wf(),
                sig.wf(),
                now <= MAX_TIME,
                i <= self.attachments@.len(),
                self.attachments@.len() == old(self).attachments@.len(),
                self.handles@ == old(self).handles@,
                self.now == old(self).now,
                forall|j: int|
                    i <= j < old(self).attachments@.len() ==> (#[trigger] self.attachments@[j])
                        == old(self).attachments@[j],
                forall|j: int|
                    0 <= j < i ==> (#[trigger] self.attachments@[j]) == att_step(
                        old(self).attachments@[j],
                        now,
                        sig@,
                    ),
                forall|j: int|
                    0 <= j < old(self).attachments@.len() ==> (old(self).attachments@[j].kind
                        != AttachmentKind::Interval ==> (#[trigger] old(
                        self,
                    ).attachments@[j]).source < FD_SETSIZE as u64) && old(
                        self,
                    ).attachments@[j].dur <= MAX_TIME,
                fired@ == fired_seq(old(self).attachments@.take(i as int), now, sig@),
            decreases self.attachments@.len() - i,
        {
            proof {
                assert(old(self).attachments@.take(i + 1).drop_last() =~= old(
                    self,
                ).attachments@.take(i as int));
                assert(old(self).attachments@.take(i + 1).last() == old(self).attachments@[i as int]);
            }
            let a = self.attachments[i];
            if a.active {
                match a.kind {
                    AttachmentKind::Notification => {
                        if sig.contains(a.source as usize) {
                            fired.push(Firing { guard: i, reason: WakeReason::Notification });
                        }
                    },
                    AttachmentKind::Deadline => {
                        if sig.contains(a.source as usize) {
                            fired.push(Firing { guard: i, reason: WakeReason::Notification });
                            self.attachments[i].due = now + a.dur;
                        } else if now >= a.due {
                            fired.push(Firing { guard: i, reason: WakeReason::MissedDeadline });
                            self.attachments[i].due = now + a.dur;
                        }
                    },
                    AttachmentKind::Interval => {
                        if now >= a.due {
                            fired.push(Firing { guard: i, reason: WakeReason::IntervalTick });
                            self.attachments[i].due = now + a.dur;
                        }
                    },
                }
            }
            i = i + 1;
        }
        proof {
            assert(old(self).attachments@.take(old(self).attachments@.len() as int) =~= old(
                self,
            ).attachments@);
        }
        self.now = now;
        proof {
            assert forall|f: u64| self.handles@.contains(f) implies exists|i2: int|
                0 <= i2 < self.attachments@.len() && watches(#[trigger] self.attachments@[i2])
                    && self.attachments@[i2].source == f by {
                let i2 = choose|i2: int|
                    0 <= i2 < old(self).attachments@.len() && watches(
                        #[trigger] old(self).attachments@[i2],
                    ) && old(self).attachments@[i2].source == f;
                assert(self.attachments@[i2] == att_step(old(self).attachments@[i2], now, sig@));
                assert(watches(self.attachments@[i2]));
            }
        }
        fired
    }
}


/// Every firing of a cycle is truthful: it names an attachment of the
/// set, and that attachment was ready, for the stated reason.
pub proof fn lemma_fired_guards(atts: Seq<Attachment>, now: u64, sig: Set<u64>)
    requires
        atts.len() <= usize::MAX,
    ensures
        forall|j: int|
            0 <= j < fired_seq(atts, now, sig).len() ==> 0 <= (#[trigger] fired_seq(
                atts,
                now,
                sig,
            )[j]).guard < atts.len() && att_fired(
                atts[fired_seq(atts, now, sig)[j].guard as int],
                now,
                sig,
            ) == Some(fired_seq(atts, now, sig)[j].reason),
    decreases atts.len(),
{
    if atts.len() > 0 {
        let fs = fired_seq(atts, now, sig);
        let pre_atts = atts.drop_last();
        let pre = fired_seq(pre_atts, now, sig);
        let n = atts.len() - 1;
        lemma_fired_guards(pre_atts, now, sig);
        assert forall|j: int|
            0 <= j < fs.len() implies 0 <= (#[trigger] fs[j]).guard < atts.len() && att_fired(
            atts[fs[j].guard as int],
            now,
            sig,
        ) == Some(fs[j].reason) by {
            if j < pre.len() {
                assert(fs[j] == pre[j]);
                assert(pre_atts[pre[j].guard as int] == atts[pre[j].guard as int]);
            } else {
                assert(atts.last() == atts[n]);
            }
        }
    }
}

/// No ready attachment is suppressed: whatever else fires in the same
/// cycle, every ready attachment has its own firing.
pub proof fn lemma_fired_complete(atts: Seq<Attachment>, now: u64, sig: Set<u64>)
    requires
        atts.len() <= usize::MAX,
    ensures
        forall|i: int|
            0 <= i < atts.len() && att_fired(#[trigger] atts[i], now, sig) is Some ==> exists|
                j: int,
            |
                0 <= j < fired_seq(atts, now, sig).len() && (#[trigger] fired_seq(
                    atts,
                    now,
                    sig,
                )[j]).guard == i,
    decreases atts.len(),
{
    if atts.len() > 0 {
        let fs = fired_seq(atts, now, sig);
        let pre_atts = atts.drop_last();
        let pre = fired_seq(pre_atts, now, sig);
        let n = atts.len() - 1;
        lemma_fired_complete(pre_atts, now, sig);
        assert forall|i: int|
            0 <= i < atts.len() && att_fired(#[trigger] atts[i], now, sig) is Some implies exists|
            j: int,
        | 0 <= j < fs.len() && (#[trigger] fs[j]).guard == i by {
            if i < n {
                assert(pre_atts[i] == atts[i]);
                let j = choose|j: int| 0 <= j < pre.len() && (#[trigger] pre[j]).guard == i;
                assert(fs[j] == pre[j]);
                assert(0 <= j < fs.len() && fs[j].guard == i);
            } else {
                assert(atts.last() == atts[n]);
                assert(fs[fs.len() - 1].guard == n as usize);
            }
        }
    }
}

/// No attachment fires twice in one cycle: the guard identities of a
/// cycle's firings are pairwise distinct.
pub proof fn lemma_fired_once(atts: Seq<Attachment>, now: u64, sig: Set<u64>)
    requires
        atts.len() <= usize::MAX,
    ensures
        forall|j1: int, j2: int|
            0 <= j1 < fired_seq(atts, now, sig).len() && 0 <= j2 < fired_seq(atts, now, sig).len()
                && j1 != j2 ==> (#[trigger] fired_seq(atts, now, sig)[j1]).guard != (
            #[trigger] fired_seq(atts, now, sig)[j2]).guard,
    decreases atts.len(),
{
    if atts.len() > 0 {
        let fs = fired_seq(atts, now, sig);
        let pre_atts = atts.drop_last();
        let pre = fired_seq(pre_atts, now, sig);
        let n = atts.len() - 1;
        lemma_fired_once(pre_atts, now, sig);
        lemma_fired_guards(pre_atts, now, sig);
        assert forall|j1: int, j2: int|
            0 <= j1 < fs.len() && 0 <= j2 < fs.len() && j1 != j2 implies (#[trigger] fs[j1]).guard
            != (#[trigger] fs[j2]).guard by {
            if j1 < pre.len() && j2 < pre.len() {
                assert(fs[j1] == pre[j1] && fs[j2] == pre[j2]);
            } else if j1 < pre.len() {
                assert(fs[j1] == pre[j1]);
                assert(pre[j1].guard < pre_atts.len());
            } else if j2 < pre.len() {
                assert(fs[j2] == pre[j2]);
                assert(pre[j2].guard < pre_atts.len());
            }
        }
    }
}

/// Detaching stops dispatch: an attachment no longer active — a detached
/// guard — appears in no cycle's firings, from the next cycle onward.
pub proof fn lemma_detached_never_fires(atts: Seq<Attachment>, now: u64, sig: Set<u64>, g: int)
    requires
        atts.len() <= usize::MAX,
        0 <= g < atts.len(),
        !atts[g].active,
    ensures
        forall|j: int|
            0 <= j < fired_seq(atts, now, sig).len() ==> (#[trigger] fired_seq(
                atts,
                now,
                sig,
            )[j]).guard != g,
{
    lemma_fired_guards(atts, now, sig);
    assert forall|j: int|
        0 <= j < fired_seq(atts, now, sig).len() implies (#[trigger] fired_seq(
        atts,
        now,
        sig,
    )[j]).guard != g by {
        if fired_seq(atts, now, sig)[j].guard == g {
            assert(att_fired(atts[g], now, sig) == Some(fired_seq(atts, now, sig)[j].reason));
        }
    }
}

/// An interval fires on its own clock, blind to signals: under any two
/// signaled sets its firing and its next window agree, so concurrent
/// notification activity neither suppresses nor duplicates it.
pub proof fn lemma_interval_independent(a: Attachment, now: u64, sig1: Set<u64>, sig2: Set<u64>)
    requires
        a.kind == AttachmentKind::Interval,
    ensures
        att_fired(a, now, sig1) == att_fired(a, now, sig2),
        att_step(a, now, sig1) == att_step(a, now, sig2),
{
}

/// The interval period: a tick at `t1` re-arms the timer one whole
/// duration ahead, so the next tick fires exactly when that duration has
/// passed — about every duration, come what may.
pub proof fn lemma_interval_period(a: Attachment, t1: u64, t2: u64, sig1: Set<u64>, sig2: Set<u64>)
    requires
        a.kind == AttachmentKind::Interval,
        a.active,
        t1 >= a.due,
        t1 + a.dur <= u64::MAX,
    ensures
        att_fired(a, t1, sig1) == Some(WakeReason::IntervalTick),
        att_step(a, t1, sig1).due == t1 + a.dur,
        att_fired(att_step(a, t1, sig1), t2, sig2) == (if t2 >= t1 + a.dur {
            Some(WakeReason::IntervalTick)
        } else {
            Option::<WakeReason>::None
        }),
{
}

/// One miss per deadline window, no bursts: a miss at `t1` — due time
/// passed, no signal — restarts the window, so with still no signal the
/// next miss fires exactly when one whole further duration has passed,
/// and never earlier.
pub proof fn lemma_deadline_one_miss_per_window(a: Attachment, t1: u64, t2: u64, sig2: Set<u64>)
    requires
        a.kind == AttachmentKind::Deadline,
        a.active,
        t1 >= a.due,
        t1 + a.dur <= u64::MAX,
        !sig2.contains(a.source),
    ensures
        att_fired(a, t1, Set::<u64>::empty()) == Some(WakeReason::MissedDeadline),
        att_step(a, t1, Set::<u64>::empty()).due == t1 + a.dur,
        att_fired(att_step(a, t1, Set::<u64>::empty()), t2, sig2) == (if t2 >= t1 + a.dur {
            Some(WakeReason::MissedDeadline)
        } else {
            Option::<WakeReason>::None
        }),
{
}

/// A signal resets the deadline timer: a signaled cycle at `t1` fires a
/// plain notification, never a miss, and the next miss is owed only a
/// whole duration after `t1`.
pub proof fn lemma_deadline_signal_resets(
    a: Attachment,
    t1: u64,
    t2: u64,
    sig1: Set<u64>,
    sig2: Set<u64>,
)
    requires
        a.kind == AttachmentKind::Deadline,
        a.active,
        sig1.contains(a.source),
        !sig2.contains(a.source),
        t1 + a.dur <= u64::MAX,
    ensures
        att_fired(a, t1, sig1) == Some(WakeReason::Notification),
        att_step(a, t1, sig1).due == t1 + a.dur,
        att_fired(att_step(a, t1, sig1), t2, sig2) == (if t2 >= t1 + a.dur {
            Some(WakeReason::MissedDeadline)
        } else {
            Option::<WakeReason>::None
        }),
{
}

} // verus!
