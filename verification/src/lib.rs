//! Sticky least-loaded session routing.
//!
//! The policy combines session stickiness (all requests of a session reuse one replica, and with
//! it that replica's cache) with load balancing (a *new* session goes to the replica with the
//! fewest active sessions).
//!
//! - For an existing session, requests are routed to the replica it was assigned to, while that
//!   replica is healthy.
//! - A new session is assigned to the healthy replica with the least number of active sessions.
//!   Ties are broken by rendezvous hashing, so that given the same set of least loaded replicas
//!   a session is always assigned to the same one.
//! - Sessions expire when they have not been used for a configurable time. This protects against
//!   leaked sessions that are never finished.
//! - Sessions can be released explicitly by
//!   [`finish_session`](StickyLeastLoadedPolicy::finish_session).
//!
//! Requests without a session are load-balanced too, but not recorded.
//!
//! The clock, the hash function and the way a request names its session belong to the caller:
//! they come in as arguments. What a routing decision is, is stated by
//! [`routed`](routing::routed); what follows from it stands in [`laws`], and in terms of the
//! workers, the tracked sessions and nanoseconds alone in [`guarantees`]. [`notation`] says which
//! settings spell a number, and [`calls`] what each function does when it is called.

pub mod calls;
pub mod expiration;
pub mod guarantees;
pub mod laws;
pub mod load;
pub mod model;
pub mod notation;
pub mod policy;
pub mod routing;
pub mod selection;
pub mod session;
pub mod worker;

pub use expiration::{
    expiration_secs_from_env, parse_expiration_secs, DEFAULT_SESSION_EXPIRATION_SECS,
    NANOS_PER_SEC, SESSION_EXPIRATION_ENV, SWEEP_INTERVAL_SECS,
};
pub use load::LoadCounts;
pub use policy::StickyLeastLoadedPolicy;
pub use selection::select_least_loaded;
pub use worker::Worker;
