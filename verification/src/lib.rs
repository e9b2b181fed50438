//! A small, broker-less, staged message bus, verified with Verus.
//!
//! Work is decomposed into stages ([`Channel`]s) connected by bounded queues.
//! One shared worker pool drains every stage, and each stage has its own
//! concurrency limit, so none can monopolise the pool.
//!
//! The library holds every decision of the bus as a step on plain state: what
//! to do with an envelope offered to a full stage, which consumer gets the
//! next one, when a nacked envelope is retried and when it is dead-lettered,
//! what is left to do at shutdown. Threads, locks and clocks stay outside: a
//! runtime calls a step while it holds the bus, performs what the step asks
//! for (wait, wake, deliver, join), and reports back.

pub mod bus;
pub mod channel;
pub mod config;
pub mod consumer;
pub mod effects;
pub mod envelope;
pub mod invariants;
pub mod journey;
pub mod laws;
pub mod name_map;
pub mod pool;
pub mod queue;
pub mod runs;
pub mod state;

pub use bus::{Bus, Drain, DrainStep, InFlight, Parked, Process, Publish, Settled, Shutdown};
pub use channel::{Channel, Offer, Stats};
pub use config::{Backpressure, ChannelConfig, Delivery, FORWARD_TIMEOUT_SECS};
pub use consumer::Consumer;
pub use envelope::{
    envelope_payload, make_envelope, set_payload, target_service, DynamicRoutingSlip, Envelope,
    Route,
};
pub use name_map::NameMap;
pub use pool::{Job, Pool};
pub use state::Refusal;
