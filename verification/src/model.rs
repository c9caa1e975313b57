//! The mathematical model of the bookkeeping: which session sits on which replica.

use vstd::prelude::*;

use crate::expiration::SWEEP_INTERVAL_SECS;
#[allow(unused_imports)]
use crate::expiration::has_elapsed;

verus! {

/// What is known of one active session: the replica it was assigned to and when it was last used,
/// in nanoseconds of the caller's clock.
#[verifier::ext_equal]
pub struct SessionView {
    pub worker_url: Seq<char>,
    pub last_access: int,
}

/// The ids of the sessions that are assigned to the replica at `url`.
pub open spec fn sessions_on(sessions: Map<Seq<char>, SessionView>, url: Seq<char>) -> Set<
    Seq<char>,
> {
    sessions.dom().filter(|id: Seq<char>| sessions[id].worker_url == url)
}

/// The load of a replica: how many active sessions are assigned to it.
pub open spec fn load_of(sessions: Map<Seq<char>, SessionView>, url: Seq<char>) -> nat {
    sessions_on(sessions, url).len()
}

/// A new session adds one to the load of its replica and leaves the other loads alone.
pub proof fn lemma_load_insert_new(
    sessions: Map<Seq<char>, SessionView>,
    id: Seq<char>,
    entry: SessionView,
    url: Seq<char>,
)
    requires
        sessions.dom().finite(),
        !sessions.contains_key(id),
    ensures
        load_of(sessions.insert(id, entry), url) == load_of(sessions, url) + (if url
            == entry.worker_url {
            1nat
        } else {
            0nat
        }),
{
    let before = sessions_on(sessions, url);
    let after = sessions_on(sessions.insert(id, entry), url);
    sessions.dom().lemma_len_filter(|k: Seq<char>| sessions[k].worker_url == url);
    if url == entry.worker_url {
        assert(after =~= before.insert(id));
    } else {
        assert(after =~= before);
    }
}

/// Taking a session away gives back its place on its replica and leaves the other loads alone.
pub proof fn lemma_load_remove(
    sessions: Map<Seq<char>, SessionView>,
    id: Seq<char>,
    url: Seq<char>,
)
    requires
        sessions.dom().finite(),
        sessions.contains_key(id),
    ensures
        load_of(sessions, url) == load_of(sessions.remove(id), url) + (if url
            == sessions[id].worker_url {
            1nat
        } else {
            0nat
        }),
{
    let rest = sessions.remove(id);
    assert(rest.insert(id, sessions[id]) =~= sessions);
    lemma_load_insert_new(rest, id, sessions[id], url);
}

/// Replacing a session by one on the same replica changes no load.
pub proof fn lemma_load_touch(
    sessions: Map<Seq<char>, SessionView>,
    id: Seq<char>,
    entry: SessionView,
    url: Seq<char>,
)
    requires
        sessions.contains_key(id),
        sessions[id].worker_url == entry.worker_url,
    ensures
        load_of(sessions.insert(id, entry), url) == load_of(sessions, url),
{
    assert(sessions_on(sessions.insert(id, entry), url) =~= sessions_on(sessions, url));
}

/// No replica holds more sessions than there are.
pub proof fn lemma_load_bound(sessions: Map<Seq<char>, SessionView>, url: Seq<char>)
    requires
        sessions.dom().finite(),
    ensures
        load_of(sessions, url) <= sessions.dom().len(),
{
    sessions.dom().lemma_len_filter(|k: Seq<char>| sessions[k].worker_url == url);
}

/// The state of the policy as its callers see it.
#[verifier::ext_equal]
pub struct PolicyView {
    /// Session id -> assigned replica and last use.
    pub sessions: Map<Seq<char>, SessionView>,
    /// Time of the last expiration sweep.
    pub last_sweep: int,
    /// How long a session may stay unused, in seconds.
    pub expiration_secs: int,
}

impl PolicyView {
    /// No session is tracked.
    pub open spec fn fresh(expiration_secs: int, now: int) -> PolicyView {
        PolicyView { sessions: Map::empty(), last_sweep: now, expiration_secs }
    }

    /// The session was not used within the expiration window that ends at `now`.
    pub open spec fn is_expired(self, id: Seq<char>, now: int) -> bool {
        has_elapsed(self.expiration_secs, self.sessions[id].last_access, now)
    }

    /// The last sweep is long enough ago for another one.
    pub open spec fn sweep_due(self, now: int) -> bool {
        has_elapsed(SWEEP_INTERVAL_SECS as int, self.last_sweep, now)
    }

    /// After the expiration sweep at `now`: if one is due, the expired sessions are gone.
    pub open spec fn swept(self, now: int) -> PolicyView {
        if self.sweep_due(now) {
            PolicyView {
                sessions: self.sessions.restrict(
                    Set::new(|id: Seq<char>| !self.is_expired(id, now)),
                ),
                last_sweep: now,
                expiration_secs: self.expiration_secs,
            }
        } else {
            self
        }
    }

    /// Without the session `id`.
    pub open spec fn without(self, id: Seq<char>) -> PolicyView {
        PolicyView { sessions: self.sessions.remove(id), ..self }
    }

    /// With the session `id` on the replica at `url`, used at `now`.
    pub open spec fn assigned(self, id: Seq<char>, url: Seq<char>, now: int) -> PolicyView {
        PolicyView {
            sessions: self.sessions.insert(
                id,
                SessionView { worker_url: url, last_access: now },
            ),
            ..self
        }
    }
}

} // verus!
