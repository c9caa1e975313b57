# sticky_least_loaded

A session routing policy for a router in front of several replicas, written and verified in Verus.
Requests of one session stick to one replica; a new session goes to the healthy replica with the
fewest active sessions, ties broken by rendezvous hashing; unused sessions expire.

- `src/expiration.rs` - time, expiration, and the setting that configures it
- `src/model.rs` - the mathematical state: sessions, loads, sweep
- `src/session.rs` - the table of sessions
- `src/load.rs` - the counters of sessions per replica
- `src/worker.rs` - snapshot of the replicas
- `src/selection.rs` - choice of the least loaded replica
- `src/routing.rs` - what a routing decision is
- `src/policy.rs` - `StickyLeastLoadedPolicy`
- `src/laws.rs` - what holds of the policy as a whole
- `app/` - the policy behind a mutex, with system clock, environment and logging
