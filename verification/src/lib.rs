//! Core of a same-host, zero-copy publish/subscribe middleware.
//!
//! The crate models and verifies the three layers such a transport is built
//! from:
//!
//! * an event channel (`channel`): a notifier sends small event identifiers
//!   to every listener of a named channel; queues are bounded and drop the
//!   oldest entry on overflow,
//! * a zero-copy data plane (`service`): a publisher loans slots from a
//!   bounded pool, publishes them into a retained history ring, and every
//!   connected subscriber receives the samples in publication order; a late
//!   subscriber is served the retained history first,
//! * a synchronous multiplexer (`waitset`): notification, deadline and
//!   interval attachments over waitable handles, dispatched once per ready
//!   attachment per wake cycle.
//!
//! Blocking, shared-memory mapping and the other OS primitives stay outside
//! the crate; `posix` holds verified models of the two primitives the
//! backends are built on (a counting semaphore and a descriptor set).

#![allow(non_camel_case_types)]

pub mod channel;
pub mod event;
pub mod name;
pub mod posix;
pub mod service;
pub mod waitset;
