//! What holds of the policy as a whole.

use vstd::prelude::*;

#[allow(unused_imports)]
use crate::expiration::has_elapsed;
#[allow(unused_imports)]
use crate::expiration::{NANOS_PER_SEC, SWEEP_INTERVAL_SECS};
#[allow(unused_imports)]
use crate::model::{
    lemma_load_insert_new, lemma_load_remove, lemma_load_touch, load_of, sessions_on,
};
use crate::model::{PolicyView, SessionView};
#[allow(unused_imports)]
use crate::routing::{chosen, routed, sticks, worker_loads};
#[allow(unused_imports)]
use crate::selection::{elected_by, hashes_to, least_loaded, tie_break_text};
use crate::worker::Worker;
#[allow(unused_imports)]
use crate::worker::{any_healthy, first_healthy_at, healthy, serves, worker_urls};

verus! {

/// The hash gives equal texts equal answers.
pub open spec fn deterministic<F: Fn(&str) -> u64>(hash: F) -> bool {
    forall|text: Seq<char>, v: u64, w: u64|
        hashes_to(hash, text, v) && hashes_to(hash, text, w) ==> v == w
}

/// No two healthy replicas share a url.
pub open spec fn distinct_urls(workers: Seq<Worker>) -> bool {
    forall|i: int, k: int|
        #![trigger healthy(workers).contains(i), healthy(workers).contains(k)]
        healthy(workers).contains(i) && healthy(workers).contains(k) && workers[i].url@
            == workers[k].url@ ==> i == k
}

/// The loads of any two healthy replicas differ by at most one.
pub open spec fn balanced(
    sessions: Map<Seq<char>, SessionView>,
    workers: Seq<Worker>,
) -> bool {
    forall|i: int, k: int|
        #![trigger healthy(workers).contains(i), healthy(workers).contains(k)]
        healthy(workers).contains(i) && healthy(workers).contains(k) ==> load_of(
            sessions,
            workers[i].url@,
        ) <= load_of(sessions, workers[k].url@) + 1
}

/// The loads of the replicas at `urls`, added up.
pub open spec fn total_load(
    sessions: Map<Seq<char>, SessionView>,
    urls: Seq<Seq<char>>,
) -> nat
    decreases urls.len(),
{
    if urls.len() == 0 {
        0
    } else {
        total_load(sessions, urls.drop_last()) + load_of(sessions, urls.last())
    }
}

/// The urls of the healthy replicas that carry the least load.
pub open spec fn least_loaded_urls(
    sessions: Map<Seq<char>, SessionView>,
    workers: Seq<Worker>,
) -> Set<Seq<char>> {
    Set::new(
        |url: Seq<char>|
            exists|i: int| #[trigger]
                least_loaded(healthy(workers), worker_loads(sessions, workers), i)
                    && workers[i].url@ == url,
    )
}

/// A request is routed if and only if some replica is healthy, and always to a healthy one.
pub proof fn law_routed_to_healthy<F: Fn(&str) -> u64>(
    hash: F,
    before: PolicyView,
    workers: Seq<Worker>,
    request_text: Option<Seq<char>>,
    session_id: Option<Seq<char>>,
    now: int,
    result: Option<usize>,
    after: PolicyView,
)
    requires
        routed(hash, before, workers, request_text, session_id, now, result, after),
    ensures
        result is Some <==> any_healthy(workers),
        result is Some ==> result->0 < workers.len() && workers[result->0 as int].healthy,
{
}

/// Stickiness: a request of a session whose replica is healthy, and which no sweep takes away as
/// expired, goes to that replica. The session stays there, counts as used at `now`, and no
/// session is tracked in addition.
pub proof fn law_session_sticks<F: Fn(&str) -> u64>(
    hash: F,
    before: PolicyView,
    workers: Seq<Worker>,
    request_text: Option<Seq<char>>,
    id: Seq<char>,
    now: int,
    result: Option<usize>,
    after: PolicyView,
)
    requires
        routed(hash, before, workers, request_text, Some(id), now, result, after),
        before.sessions.contains_key(id),
        serves(workers, before.sessions[id].worker_url),
        !(before.sweep_due(now) && before.is_expired(id, now)),
    ensures
        result is Some,
        workers[result->0 as int].url@ == before.sessions[id].worker_url,
        after.sessions[id] == (SessionView {
            worker_url: before.sessions[id].worker_url,
            last_access: now,
        }),
        after.sessions.dom() == before.swept(now).sessions.dom(),
{
    assert(sticks(before.swept(now), workers, id));
    assert(after.sessions.dom() =~= before.swept(now).sessions.dom());
}

/// Repeated requests of one session go to one replica: while that replica is healthy and the
/// session is not swept in between, the second request reaches the url that the first one
/// reached; over the same replicas even the same index, if none of them is listed twice or the
/// hash of the first request is deterministic. The number of tracked sessions does not grow.
pub proof fn law_repeated_request_same_replica<F: Fn(&str) -> u64, G: Fn(&str) -> u64>(
    hash1: F,
    before: PolicyView,
    workers1: Seq<Worker>,
    request_text1: Option<Seq<char>>,
    id: Seq<char>,
    now1: int,
    j1: usize,
    middle: PolicyView,
    hash2: G,
    workers2: Seq<Worker>,
    request_text2: Option<Seq<char>>,
    now2: int,
    result2: Option<usize>,
    after: PolicyView,
)
    requires
        routed(hash1, before, workers1, request_text1, Some(id), now1, Some(j1), middle),
        routed(hash2, middle, workers2, request_text2, Some(id), now2, result2, after),
        serves(workers2, workers1[j1 as int].url@),
        !(middle.sweep_due(now2) && has_elapsed(middle.expiration_secs, now1, now2)),
    ensures
        result2 is Some,
        workers2[result2->0 as int].url@ == workers1[j1 as int].url@,
        workers1 == workers2 && (distinct_urls(workers1) || deterministic(hash1)) ==> result2
            == Some(j1),
        after.sessions.dom() == middle.swept(now2).sessions.dom(),
{
    assert(any_healthy(workers1));
    law_session_sticks(hash2, middle, workers2, request_text2, id, now2, result2, after);
    if workers1 == workers2 && (distinct_urls(workers1) || deterministic(hash1)) {
        assert(healthy(workers1).contains(j1 as int));
        assert(healthy(workers1).contains(result2->0 as int));
        let state = before.swept(now1);
        if deterministic(hash1) && !sticks(state, workers1, id) {
            law_choice_is_first_at_its_url(
                hash1,
                workers1,
                state.without(id).sessions,
                id,
                j1 as int,
            );
        }
    }
}

/// With a deterministic hash, the choice is the first healthy replica at its url: of a url that is
/// listed more than once, no later entry is ever chosen.
pub proof fn law_choice_is_first_at_its_url<F: Fn(&str) -> u64>(
    hash: F,
    workers: Seq<Worker>,
    sessions: Map<Seq<char>, SessionView>,
    key: Seq<char>,
    j: int,
)
    requires
        deterministic(hash),
        chosen(hash, workers, sessions, key, j),
    ensures
        first_healthy_at(workers, workers[j].url@, j),
{
    let eligible = healthy(workers);
    let urls = worker_urls(workers);
    let loads = worker_loads(sessions, workers);
    let w = choose|w: Seq<u64>| #[trigger] elected_by(hash, eligible, urls, loads, key, w, j);
    assert(least_loaded(eligible, loads, j));
    assert forall|i: int| #[trigger]
        eligible.contains(i) && workers[i].url@ == workers[j].url@ implies j <= i by {
        assert(urls[i] == urls[j] && loads[i] == loads[j]);
        assert(least_loaded(eligible, loads, i));
        assert(hashes_to(hash, tie_break_text(key, urls[j]), w[i]));
        assert(hashes_to(hash, tie_break_text(key, urls[j]), w[j]));
    }
}

/// One thing that happens to the policy.
pub enum Event {
    /// A request was routed.
    Request {
        workers: Seq<Worker>,
        request_text: Option<Seq<char>>,
        session_id: Option<Seq<char>>,
        now: int,
        result: Option<usize>,
    },
    /// A session was finished.
    Finish { finished: Seq<char> },
}

/// The event leads from the one state to the other.
pub open spec fn happens<F: Fn(&str) -> u64>(
    hash: F,
    before: PolicyView,
    event: Event,
    after: PolicyView,
) -> bool {
    match event {
        Event::Request { workers, request_text, session_id, now, result } => routed(
            hash,
            before,
            workers,
            request_text,
            session_id,
            now,
            result,
            after,
        ),
        Event::Finish { finished } => after == before.without(finished),
    }
}

/// The event does not end the session `id`: it does not finish it, does not sweep it away as
/// expired, and does not ask for it while its replica is unhealthy.
pub open spec fn spares(state: PolicyView, event: Event, id: Seq<char>) -> bool {
    match event {
        Event::Request { workers, session_id, now, .. } => {
            &&& !(state.sweep_due(now) && state.is_expired(id, now))
            &&& session_id == Some(id) ==> serves(workers, state.sessions[id].worker_url)
        },
        Event::Finish { finished } => finished != id,
    }
}

/// If the event is a request of the session `id`, it goes to the replica at `url`.
pub open spec fn goes_to(event: Event, id: Seq<char>, url: Seq<char>) -> bool {
    match event {
        Event::Request { workers, session_id, result, .. } => session_id == Some(id) ==> {
            &&& result is Some
            &&& workers[result->0 as int].url@ == url
        },
        Event::Finish { .. } => true,
    }
}

/// All requests of a session reuse the replica that it was assigned to, whatever else happens in
/// between, as long as the session is not finished, not expired and its replica stays healthy.
pub proof fn law_sticky_over_history<F: Fn(&str) -> u64>(
    hash: F,
    states: Seq<PolicyView>,
    events: Seq<Event>,
    id: Seq<char>,
)
    requires
        states.len() == events.len() + 1,
        states[0].sessions.contains_key(id),
        forall|k: int|
            0 <= k < events.len() ==> happens(hash, states[k], #[trigger] events[k], states[k + 1]),
        forall|k: int| 0 <= k < events.len() ==> spares(states[k], #[trigger] events[k], id),
    ensures
        forall|k: int|
            0 <= k < states.len() ==> {
                &&& (#[trigger] states[k]).sessions.contains_key(id)
                &&& states[k].sessions[id].worker_url == states[0].sessions[id].worker_url
            },
        forall|k: int|
            0 <= k < events.len() ==> goes_to(
                #[trigger] events[k],
                id,
                states[0].sessions[id].worker_url,
            ),
    decreases events.len(),
{
    if events.len() > 0 {
        let n = events.len() - 1;
        let shorter = states.drop_last();
        assert forall|k: int| 0 <= k < n implies happens(
            hash,
            shorter[k],
            #[trigger] events.drop_last()[k],
            shorter[k + 1],
        ) by {
            assert(events.drop_last()[k] == events[k]);
        }
        assert forall|k: int| 0 <= k < n implies spares(
            shorter[k],
            #[trigger] events.drop_last()[k],
            id,
        ) by {
            assert(events.drop_last()[k] == events[k]);
        }
        law_sticky_over_history(hash, shorter, events.drop_last(), id);
        assert(shorter[n] == states[n]);
        assert(happens(hash, states[n], events[n], states[n + 1]));
        assert(spares(states[n], events[n], id));
        assert forall|k: int| 0 <= k < n implies goes_to(
            #[trigger] events[k],
            id,
            states[0].sessions[id].worker_url,
        ) by {
            assert(events.drop_last()[k] == events[k]);
        }
        assert forall|k: int| 0 <= k < states.len() implies {
            &&& (#[trigger] states[k]).sessions.contains_key(id)
            &&& states[k].sessions[id].worker_url == states[0].sessions[id].worker_url
        } by {
            if k <= n {
                assert(shorter[k] == states[k]);
            }
        }
    }
}

/// A request changes no session but its own, apart from the expiration sweep.
pub proof fn law_other_sessions_untouched<F: Fn(&str) -> u64>(
    hash: F,
    before: PolicyView,
    workers: Seq<Worker>,
    request_text: Option<Seq<char>>,
    session_id: Option<Seq<char>>,
    now: int,
    result: Option<usize>,
    after: PolicyView,
    other: Seq<char>,
)
    requires
        routed(hash, before, workers, request_text, session_id, now, result, after),
        any_healthy(workers),
        session_id != Some(other),
    ensures
        after.sessions.contains_key(other) <==> before.swept(now).sessions.contains_key(other),
        after.sessions.contains_key(other) ==> after.sessions[other] == before.sessions[other],
{
}

/// A request without a session tracks nothing: all it can do is the expiration sweep.
pub proof fn law_stateless_not_tracked<F: Fn(&str) -> u64>(
    hash: F,
    before: PolicyView,
    workers: Seq<Worker>,
    request_text: Option<Seq<char>>,
    now: int,
    result: Option<usize>,
    after: PolicyView,
)
    requires
        routed(hash, before, workers, request_text, None, now, result, after),
    ensures
        after.sessions.submap_of(before.sessions),
        any_healthy(workers) ==> after == before.swept(now),
        !any_healthy(workers) ==> after == before,
{
}

/// A new session goes to a healthy replica with the least number of active sessions. That replica
/// then has one session more; no other load changes.
pub proof fn law_new_session_to_least_loaded<F: Fn(&str) -> u64>(
    hash: F,
    before: PolicyView,
    workers: Seq<Worker>,
    request_text: Option<Seq<char>>,
    id: Seq<char>,
    now: int,
    j: usize,
    after: PolicyView,
    url: Seq<char>,
)
    requires
        before.sessions.dom().finite(),
        routed(hash, before, workers, request_text, Some(id), now, Some(j), after),
        !before.swept(now).sessions.contains_key(id),
    ensures
        forall|i: int| #[trigger]
            healthy(workers).contains(i) ==> load_of(
                before.swept(now).sessions,
                workers[j as int].url@,
            ) <= load_of(before.swept(now).sessions, workers[i].url@),
        load_of(after.sessions, url) == load_of(before.swept(now).sessions, url) + (if url
            == workers[j as int].url@ {
            1nat
        } else {
            0nat
        }),
        after.sessions.contains_key(id),
        after.sessions.len() == before.swept(now).sessions.len() + 1,
{
    let sessions = before.swept(now).sessions;
    assert(sessions.dom().subset_of(before.sessions.dom()));
    vstd::set_lib::lemma_len_subset(sessions.dom(), before.sessions.dom());
    assert(sessions.remove(id) =~= sessions);
    lemma_load_insert_new(sessions, id, after.sessions[id], url);
    assert(after.sessions.dom() =~= sessions.dom().insert(id));
    assert forall|i: int| #[trigger] healthy(workers).contains(i) implies load_of(
        sessions,
        workers[j as int].url@,
    ) <= load_of(sessions, workers[i].url@) by {
        let loads = worker_loads(sessions, workers);
        assert(least_loaded(healthy(workers), loads, j as int));
        assert(loads[j as int] <= loads[i]);
    }
}

/// Requests spread sessions evenly: where the loads of the healthy replicas differ by at most one
/// after the expiration sweep, they still do after the request, whether it is of a new session,
/// of a tracked one or of none.
pub proof fn law_requests_stay_balanced<F: Fn(&str) -> u64>(
    hash: F,
    before: PolicyView,
    workers: Seq<Worker>,
    request_text: Option<Seq<char>>,
    session_id: Option<Seq<char>>,
    now: int,
    result: Option<usize>,
    after: PolicyView,
)
    requires
        before.sessions.dom().finite(),
        routed(hash, before, workers, request_text, session_id, now, result, after),
        balanced(before.swept(now).sessions, workers),
    ensures
        balanced(after.sessions, workers),
{
    let state = before.swept(now);
    assert(state.sessions.dom().subset_of(before.sessions.dom()));
    vstd::set_lib::lemma_len_subset(state.sessions.dom(), before.sessions.dom());
    if any_healthy(workers) && session_id is Some {
        let id = session_id->0;
        let j = result->0 as int;
        let rest = state.without(id).sessions;
        let moved = !sticks(state, workers, id);
        let loads = worker_loads(rest, workers);
        if moved {
            assert(least_loaded(healthy(workers), loads, j));
        }
        assert forall|i: int| #[trigger] healthy(workers).contains(i) implies {
            let url = workers[i].url@;
            &&& load_of(after.sessions, url) == load_of(state.sessions, url) + (if moved && url
                == workers[j].url@ {
                1nat
            } else {
                0nat
            })
            &&& moved ==> load_of(state.sessions, workers[j].url@) <= load_of(state.sessions, url)
        } by {
            let url = workers[i].url@;
            if moved {
                lemma_load_without_unserved(state.sessions, workers, id, i);
                lemma_load_without_unserved(state.sessions, workers, id, j);
                lemma_load_insert_new(rest, id, after.sessions[id], url);
                assert(loads[j] <= loads[i]);
            } else {
                lemma_load_touch(state.sessions, id, after.sessions[id], url);
            }
        }
    }
}

/// Taking away a session that is not on a healthy replica changes no load of a healthy one.
proof fn lemma_load_without_unserved(
    sessions: Map<Seq<char>, SessionView>,
    workers: Seq<Worker>,
    id: Seq<char>,
    i: int,
)
    requires
        sessions.dom().finite(),
        !(sessions.contains_key(id) && serves(workers, sessions[id].worker_url)),
        healthy(workers).contains(i),
    ensures
        load_of(sessions.remove(id), workers[i].url@) == load_of(sessions, workers[i].url@),
{
    if sessions.contains_key(id) {
        lemma_load_remove(sessions, id, workers[i].url@);
    } else {
        assert(sessions.remove(id) =~= sessions);
    }
}

/// The event is a request over the replicas `workers` whose sweep, if one is due, takes nothing
/// away. The request may be of a new session, of a tracked one or of none.
pub open spec fn asks_over(state: PolicyView, event: Event, workers: Seq<Worker>) -> bool {
    match event {
        Event::Request { workers: listed, now, .. } => {
            &&& listed == workers
            &&& state.swept(now).sessions == state.sessions
        },
        Event::Finish { .. } => false,
    }
}

/// The event is a request of the session `id`.
pub open spec fn asks_for(event: Event, id: Seq<char>) -> bool {
    match event {
        Event::Request { session_id, .. } => session_id == Some(id),
        Event::Finish { .. } => false,
    }
}

/// The sessions that the events ask for.
pub open spec fn asked_ids(events: Seq<Event>) -> Set<Seq<char>> {
    Set::new(
        |id: Seq<char>| exists|k: int| 0 <= k < events.len() && asks_for(#[trigger] events[k], id),
    )
}

/// Every session is on a listed replica.
pub open spec fn all_listed(
    sessions: Map<Seq<char>, SessionView>,
    workers: Seq<Worker>,
) -> bool {
    forall|id: Seq<char>| #[trigger]
        sessions.contains_key(id) ==> worker_urls(workers).contains(sessions[id].worker_url)
}

/// Any number of requests over the same replicas, in any mix of new, tracked and no sessions,
/// keep the loads balanced at every time, as long as no session is swept. Where some replica is
/// healthy, the tracked sessions are then exactly those of the start and those asked for; and if
/// the sessions of the start were on listed replicas, all sessions are.
pub proof fn law_requests_balanced_over_history<F: Fn(&str) -> u64>(
    hash: F,
    states: Seq<PolicyView>,
    events: Seq<Event>,
    workers: Seq<Worker>,
)
    requires
        states.len() == events.len() + 1,
        states[0].sessions.dom().finite(),
        balanced(states[0].sessions, workers),
        forall|k: int|
            0 <= k < events.len() ==> happens(hash, states[k], #[trigger] events[k], states[k + 1]),
        forall|k: int|
            0 <= k < events.len() ==> asks_over(states[k], #[trigger] events[k], workers),
    ensures
        forall|k: int|
            0 <= k < states.len() ==> {
                &&& balanced((#[trigger] states[k]).sessions, workers)
                &&& states[k].sessions.dom().finite()
                &&& any_healthy(workers) ==> states[k].sessions.dom()
                    == states[0].sessions.dom() + asked_ids(events.take(k))
                &&& all_listed(states[0].sessions, workers) ==> all_listed(
                    states[k].sessions,
                    workers,
                )
            },
    decreases events.len(),
{
    assert(asked_ids(events.take(0)) =~= Set::empty());
    assert(states[0].sessions.dom() =~= states[0].sessions.dom() + asked_ids(events.take(0)));
    if events.len() > 0 {
        let n = events.len() - 1;
        let earlier = events.drop_last();
        let shorter = states.drop_last();
        assert(forall|k: int| 0 <= k < n ==> #[trigger] earlier[k] == events[k]);
        law_requests_balanced_over_history(hash, shorter, earlier, workers);
        assert(forall|k: int| 0 <= k <= n ==> #[trigger] shorter[k] == states[k]);
        assert(happens(hash, states[n], events[n], states[n + 1]));
        assert(asks_over(states[n], events[n], workers));
        assert(balanced(shorter[n].sessions, workers));
        assert(earlier.take(n) =~= events.take(n));
        let after = states[n + 1];
        if let Event::Request { workers: listed, request_text, session_id, now, result } =
            events[n] {
            law_requests_stay_balanced(
                hash,
                states[n],
                workers,
                request_text,
                session_id,
                now,
                result,
                after,
            );
            lemma_asked_ids_step(events, n);
            if any_healthy(workers) {
                if let Some(id) = session_id {
                    assert(after.sessions.dom() =~= states[n].sessions.dom().insert(id));
                    assert(after.sessions.dom() =~= states[0].sessions.dom() + asked_ids(
                        events.take(n + 1),
                    ));
                    let j = result->0 as int;
                    assert(healthy(workers).contains(j));
                    assert(worker_urls(workers)[j] == workers[j].url@);
                } else {
                    assert(asked_ids(events.take(n + 1)) =~= asked_ids(events.take(n)));
                }
            }
        }
        assert forall|k: int| 0 <= k < states.len() implies {
            &&& balanced((#[trigger] states[k]).sessions, workers)
            &&& states[k].sessions.dom().finite()
            &&& any_healthy(workers) ==> states[k].sessions.dom() == states[0].sessions.dom()
                + asked_ids(events.take(k))
            &&& all_listed(states[0].sessions, workers) ==> all_listed(states[k].sessions, workers)
        } by {
            if k <= n {
                assert(shorter[k] == states[k]);
                assert(earlier.take(k) =~= events.take(k));
            }
        }
    }
}

/// One more event asks for what it asks for.
proof fn lemma_asked_ids_step(events: Seq<Event>, n: int)
    requires
        0 <= n < events.len(),
    ensures
        forall|id: Seq<char>| #[trigger]
            asked_ids(events.take(n + 1)).contains(id) <==> asked_ids(events.take(n)).contains(id)
                || asks_for(events[n], id),
{
    let before = events.take(n);
    let after = events.take(n + 1);
    assert forall|id: Seq<char>| #[trigger]
        asked_ids(after).contains(id) <==> asked_ids(before).contains(id) || asks_for(
            events[n],
            id,
        ) by {
        if asked_ids(after).contains(id) {
            let k = choose|k: int| 0 <= k < after.len() && asks_for(#[trigger] after[k], id);
            if k < n {
                assert(before[k] == after[k]);
            }
        }
        if asked_ids(before).contains(id) {
            let k = choose|k: int| 0 <= k < before.len() && asks_for(#[trigger] before[k], id);
            assert(after[k] == before[k]);
        }
        assert(after[n] == events[n]);
    }
}

/// From a policy without sessions, over healthy replicas that are each listed once, any number of
/// requests give each replica its share of the sessions asked for, rounded down or up, at every
/// time before a session is swept.
pub proof fn law_requests_spread_evenly<F: Fn(&str) -> u64>(
    hash: F,
    states: Seq<PolicyView>,
    events: Seq<Event>,
    workers: Seq<Worker>,
    k: int,
    j: int,
)
    requires
        states.len() == events.len() + 1,
        states[0].sessions == Map::<Seq<char>, SessionView>::empty(),
        forall|i: int| 0 <= i < workers.len() ==> (#[trigger] workers[i]).healthy,
        distinct_urls(workers),
        forall|i: int|
            0 <= i < events.len() ==> happens(hash, states[i], #[trigger] events[i], states[i + 1]),
        forall|i: int|
            0 <= i < events.len() ==> asks_over(states[i], #[trigger] events[i], workers),
        0 <= k < states.len(),
        0 <= j < workers.len(),
    ensures
        states[k].sessions.dom() == asked_ids(events.take(k)),
        asked_ids(events.take(k)).len() / workers.len() <= load_of(
            states[k].sessions,
            workers[j].url@,
        ),
        load_of(states[k].sessions, workers[j].url@) <= (asked_ids(events.take(k)).len()
            + workers.len() - 1) / workers.len() as int,
{
    let start = states[0].sessions;
    assert forall|url: Seq<char>| #[trigger] load_of(start, url) == 0 by {
        assert(sessions_on(start, url) =~= Set::empty());
    }
    assert(healthy(workers).contains(j));
    law_requests_balanced_over_history(hash, states, events, workers);
    assert(balanced(states[k].sessions, workers));
    assert(states[k].sessions.dom() =~= asked_ids(events.take(k)));
    law_balanced_loads_are_even(states[k].sessions, workers, j);
}

/// A session whose replica is gone or unhealthy moves to a healthy replica with the least number of
/// active sessions: its old replica loses it, it is tracked on the replica that the request went
/// to, and no other load changes.
pub proof fn law_session_leaves_unhealthy_replica<F: Fn(&str) -> u64>(
    hash: F,
    before: PolicyView,
    workers: Seq<Worker>,
    request_text: Option<Seq<char>>,
    id: Seq<char>,
    now: int,
    j: usize,
    after: PolicyView,
)
    requires
        before.sessions.dom().finite(),
        routed(hash, before, workers, request_text, Some(id), now, Some(j), after),
        before.swept(now).sessions.contains_key(id),
        !serves(workers, before.sessions[id].worker_url),
    ensures
        workers[j as int].healthy,
        workers[j as int].url@ != before.sessions[id].worker_url,
        after.sessions[id].worker_url == workers[j as int].url@,
        load_of(after.sessions, before.sessions[id].worker_url) == load_of(
            before.swept(now).sessions,
            before.sessions[id].worker_url,
        ) - 1,
        load_of(after.sessions, workers[j as int].url@) == load_of(
            before.swept(now).sessions,
            workers[j as int].url@,
        ) + 1,
        forall|url: Seq<char>|
            url != before.sessions[id].worker_url && url != workers[j as int].url@ ==> #[trigger]
            load_of(after.sessions, url) == load_of(before.swept(now).sessions, url),
        forall|i: int| #[trigger]
            healthy(workers).contains(i) ==> load_of(
                before.swept(now).sessions,
                workers[j as int].url@,
            ) <= load_of(before.swept(now).sessions, workers[i].url@),
        after.sessions.dom() == before.swept(now).sessions.dom(),
{
    let sessions = before.swept(now).sessions;
    let old_url = before.sessions[id].worker_url;
    let new_url = workers[j as int].url@;
    assert(sessions.dom().subset_of(before.sessions.dom()));
    vstd::set_lib::lemma_len_subset(sessions.dom(), before.sessions.dom());
    assert(healthy(workers).contains(j as int));
    lemma_load_remove(sessions, id, old_url);
    lemma_load_remove(sessions, id, new_url);
    lemma_load_insert_new(sessions.remove(id), id, after.sessions[id], old_url);
    lemma_load_insert_new(sessions.remove(id), id, after.sessions[id], new_url);
    assert(after.sessions.dom() =~= sessions.dom());
    assert forall|url: Seq<char>| url != old_url && url != new_url implies #[trigger] load_of(
        after.sessions,
        url,
    ) == load_of(sessions, url) by {
        lemma_load_remove(sessions, id, url);
        lemma_load_insert_new(sessions.remove(id), id, after.sessions[id], url);
    }
    assert forall|i: int| #[trigger] healthy(workers).contains(i) implies load_of(
        sessions,
        new_url,
    ) <= load_of(sessions, workers[i].url@) by {
        let loads = worker_loads(sessions.remove(id), workers);
        lemma_load_without_unserved(sessions, workers, id, i);
        lemma_load_without_unserved(sessions, workers, id, j as int);
        assert(least_loaded(healthy(workers), loads, j as int));
        assert(loads[j as int] <= loads[i]);
    }
}

/// Finishing a session gives back its place: its replica has one session less, no other load
/// changes, and there is one tracked session less.
pub proof fn law_finish_releases_capacity(state: PolicyView, id: Seq<char>, url: Seq<char>)
    requires
        state.sessions.dom().finite(),
        state.sessions.contains_key(id),
    ensures
        !state.without(id).sessions.contains_key(id),
        load_of(state.sessions, url) == load_of(state.without(id).sessions, url) + (if url
            == state.sessions[id].worker_url {
            1nat
        } else {
            0nat
        }),
        state.without(id).sessions.len() + 1 == state.sessions.len(),
{
    lemma_load_remove(state.sessions, id, url);
    assert(state.without(id).sessions.dom() =~= state.sessions.dom().remove(id));
}

/// Finishing a session that is not tracked changes nothing.
pub proof fn law_finish_unknown_is_noop(state: PolicyView, id: Seq<char>)
    requires
        !state.sessions.contains_key(id),
    ensures
        state.without(id) == state,
{
    assert(state.without(id).sessions =~= state.sessions);
}

/// Finishing a session right after its first request undoes that request, apart from the
/// expiration sweep.
pub proof fn law_finish_undoes_assignment<F: Fn(&str) -> u64>(
    hash: F,
    before: PolicyView,
    workers: Seq<Worker>,
    request_text: Option<Seq<char>>,
    id: Seq<char>,
    now: int,
    j: usize,
    after: PolicyView,
)
    requires
        routed(hash, before, workers, request_text, Some(id), now, Some(j), after),
        !before.swept(now).sessions.contains_key(id),
    ensures
        after.without(id) == before.swept(now),
{
    assert(after.without(id).sessions =~= before.swept(now).sessions);
}

/// Finishing a session right after a request of it leaves what finishing it before the request
/// would have left, apart from the expiration sweep, whether the request found the session,
/// assigned it or moved it.
pub proof fn law_finish_undoes_request<F: Fn(&str) -> u64>(
    hash: F,
    before: PolicyView,
    workers: Seq<Worker>,
    request_text: Option<Seq<char>>,
    id: Seq<char>,
    now: int,
    j: usize,
    after: PolicyView,
)
    requires
        routed(hash, before, workers, request_text, Some(id), now, Some(j), after),
    ensures
        after.without(id) == before.swept(now).without(id),
{
    assert(after.without(id).sessions =~= before.swept(now).without(id).sessions);
}

/// Finishing a session undoes all of its requests, however many they were, where no sweep took
/// another session away in between: the sessions are those that finishing it before them would
/// have left, and so is the whole state where no sweep was due.
pub proof fn law_finish_undoes_all_requests<F: Fn(&str) -> u64>(
    hash: F,
    states: Seq<PolicyView>,
    events: Seq<Event>,
    id: Seq<char>,
)
    requires
        states.len() == events.len() + 1,
        forall|k: int|
            0 <= k < events.len() ==> happens(hash, states[k], #[trigger] events[k], states[k + 1]),
        forall|k: int|
            0 <= k < events.len() ==> {
                &&& (#[trigger] events[k]) is Request
                &&& events[k]->session_id == Some(id)
                &&& states[k].swept(events[k]->now).without(id).sessions == states[k].without(
                    id,
                ).sessions
            },
    ensures
        states.last().without(id).sessions == states[0].without(id).sessions,
        (forall|k: int|
            0 <= k < events.len() ==> !states[k].sweep_due((#[trigger] events[k])->now))
            ==> states.last().without(id) == states[0].without(id),
    decreases events.len(),
{
    if events.len() > 0 {
        let n = events.len() - 1;
        let earlier = events.drop_last();
        assert(forall|k: int| 0 <= k < n ==> #[trigger] earlier[k] == events[k]);
        law_finish_undoes_all_requests(hash, states.drop_last(), earlier, id);
        assert(events[n] is Request);
        assert(happens(hash, states[n], events[n], states[n + 1]));
        if let Event::Request { workers, request_text, session_id, now, result } = events[n] {
            if let Some(j) = result {
                law_finish_undoes_request(
                    hash,
                    states[n],
                    workers,
                    request_text,
                    id,
                    now,
                    j,
                    states[n + 1],
                );
            }
        }
    }
}

/// A sweep that is due takes away exactly the expired sessions and changes no other.
pub proof fn law_sweep_removes_exactly_expired(state: PolicyView, now: int, id: Seq<char>)
    requires
        state.sweep_due(now),
        state.sessions.contains_key(id),
    ensures
        state.swept(now).sessions.contains_key(id) <==> !state.is_expired(id, now),
        state.swept(now).sessions.contains_key(id) ==> state.swept(now).sessions[id]
            == state.sessions[id],
{
}

/// Sweeps run at most once per interval: after one at `now`, nothing is swept before
/// [`SWEEP_INTERVAL_SECS`] have passed.
pub proof fn law_sweeps_are_spaced(state: PolicyView, now: int, later: int)
    requires
        state.sweep_due(now),
        !has_elapsed(SWEEP_INTERVAL_SECS as int, now, later),
    ensures
        state.swept(now).swept(later) == state.swept(now),
{
}

/// An earlier sweep never changes what a later one leaves: it removes nothing that the later one
/// would keep.
pub proof fn law_earlier_sweep_leaves_no_trace(state: PolicyView, n1: int, n2: int)
    requires
        n1 >= state.last_sweep + SWEEP_INTERVAL_SECS * NANOS_PER_SEC,
        n2 >= n1 + SWEEP_INTERVAL_SECS * NANOS_PER_SEC,
    ensures
        state.swept(n1).swept(n2) == state.swept(n2),
{
    assert(state.swept(n1).swept(n2).sessions =~= state.swept(n2).sessions);
}

/// Leaked sessions do not stay: a request at a time when a sweep is due leaves no session tracked
/// that has not been used within the expiration window, unless the request is of that session.
pub proof fn law_leaked_session_goes<F: Fn(&str) -> u64>(
    hash: F,
    before: PolicyView,
    workers: Seq<Worker>,
    request_text: Option<Seq<char>>,
    session_id: Option<Seq<char>>,
    now: int,
    result: Option<usize>,
    after: PolicyView,
    leaked: Seq<char>,
)
    requires
        routed(hash, before, workers, request_text, session_id, now, result, after),
        any_healthy(workers),
        before.sweep_due(now),
        before.is_expired(leaked, now),
        session_id != Some(leaked),
    ensures
        !after.sessions.contains_key(leaked),
{
}

/// Every tracked session counts on exactly one replica: over distinct urls that cover the assigned
/// replicas, the loads add up to the number of tracked sessions.
pub proof fn law_loads_add_up(sessions: Map<Seq<char>, SessionView>, urls: Seq<Seq<char>>)
    requires
        sessions.dom().finite(),
        urls.no_duplicates(),
        forall|id: Seq<char>| #[trigger]
            sessions.contains_key(id) ==> urls.contains(sessions[id].worker_url),
    ensures
        total_load(sessions, urls) == sessions.len(),
{
    lemma_total_load(sessions, urls);
    assert(sessions.dom().filter(|id: Seq<char>| urls.contains(sessions[id].worker_url))
        =~= sessions.dom());
}

/// Over distinct urls the loads add up to the number of sessions at these urls.
proof fn lemma_total_load(sessions: Map<Seq<char>, SessionView>, urls: Seq<Seq<char>>)
    requires
        sessions.dom().finite(),
        urls.no_duplicates(),
    ensures
        total_load(sessions, urls) == sessions.dom().filter(
            |id: Seq<char>| urls.contains(sessions[id].worker_url),
        ).len(),
    decreases urls.len(),
{
    let covered = sessions.dom().filter(|id: Seq<char>| urls.contains(sessions[id].worker_url));
    if urls.len() == 0 {
        assert(covered =~= Set::empty());
    } else {
        let rest = urls.drop_last();
        let part = sessions.dom().filter(
            |id: Seq<char>| rest.contains(sessions[id].worker_url),
        );
        let last = sessions_on(sessions, urls.last());
        lemma_total_load(sessions, rest);
        sessions.dom().lemma_len_filter(|id: Seq<char>| rest.contains(sessions[id].worker_url));
        sessions.dom().lemma_len_filter(
            |id: Seq<char>| sessions[id].worker_url == urls.last(),
        );
        assert forall|url: Seq<char>| #[trigger] urls.contains(url) <==> rest.contains(url) || url
            == urls.last() by {
            if urls.contains(url) {
                let i = choose|i: int| 0 <= i < urls.len() && urls[i] == url;
                if i < urls.len() - 1 {
                    assert(rest[i] == url);
                }
            }
            if rest.contains(url) {
                let i = choose|i: int| 0 <= i < rest.len() && rest[i] == url;
                assert(urls[i] == url);
            }
            assert(urls[urls.len() - 1] == urls.last());
        }
        assert(!rest.contains(urls.last()));
        assert(part.disjoint(last));
        assert(covered =~= part + last);
        vstd::set_lib::lemma_set_disjoint_lens(part, last);
    }
}

/// Balanced loads are as even as can be: if every replica is healthy and listed once, and every
/// session is on one of them, then each replica has its share of the sessions, rounded down or
/// up.
pub proof fn law_balanced_loads_are_even(
    sessions: Map<Seq<char>, SessionView>,
    workers: Seq<Worker>,
    j: int,
)
    requires
        sessions.dom().finite(),
        forall|i: int| 0 <= i < workers.len() ==> (#[trigger] workers[i]).healthy,
        distinct_urls(workers),
        balanced(sessions, workers),
        all_listed(sessions, workers),
        0 <= j < workers.len(),
    ensures
        sessions.len() / workers.len() <= load_of(sessions, workers[j].url@),
        load_of(sessions, workers[j].url@) <= (sessions.len() + workers.len() - 1)
            / workers.len() as int,
{
    let urls = worker_urls(workers);
    assert forall|i: int, l: int|
        0 <= i < urls.len() && 0 <= l < urls.len() && i != l implies urls[i] != urls[l] by {
        assert(healthy(workers).contains(i) && healthy(workers).contains(l));
    }
    law_loads_add_up(sessions, urls);
    assert(healthy(workers).contains(j));
    assert forall|i: int| 0 <= i < urls.len() implies {
        &&& load_of(sessions, #[trigger] urls[i]) <= load_of(sessions, urls[j]) + 1
        &&& load_of(sessions, urls[j]) <= load_of(sessions, urls[i]) + 1
    } by {
        assert(healthy(workers).contains(i));
    }
    let load = load_of(sessions, urls[j]);
    let n = sessions.len();
    let m = workers.len();
    lemma_total_load_below(sessions, urls, load + 1, j);
    assert(n / m <= load) by (nonlinear_arith)
        requires
            m > 0,
            n < (load + 1) * m,
    ;
    if load > 0 {
        let less = (load - 1) as nat;
        lemma_total_load_above(sessions, urls, less, j);
        assert(less + 1 <= (n + m - 1) / m as int) by (nonlinear_arith)
            requires
                m > 0,
                n > less * m,
        ;
    } else {
        assert(0 <= (n + m - 1) / m as int) by (nonlinear_arith)
            requires
                m > 0,
        ;
    }
}

/// If no load exceeds `k` and one is below, the loads add up to less than `k` each.
proof fn lemma_total_load_below(
    sessions: Map<Seq<char>, SessionView>,
    urls: Seq<Seq<char>>,
    k: nat,
    j: int,
)
    requires
        forall|i: int| 0 <= i < urls.len() ==> load_of(sessions, #[trigger] urls[i]) <= k,
    ensures
        total_load(sessions, urls) <= k * urls.len(),
        0 <= j < urls.len() && load_of(sessions, urls[j]) < k ==> total_load(sessions, urls) < k
            * urls.len(),
    decreases urls.len(),
{
    if urls.len() > 0 {
        let n = urls.len() - 1;
        assert(forall|i: int| 0 <= i < n ==> #[trigger] urls.drop_last()[i] == urls[i]);
        lemma_total_load_below(sessions, urls.drop_last(), k, j);
        assert(urls.last() == urls[n]);
        assert(k * urls.len() == k * n + k) by (nonlinear_arith)
            requires
                urls.len() == n + 1,
        ;
    } else {
        assert(k * urls.len() == 0) by (nonlinear_arith)
            requires
                urls.len() == 0,
        ;
    }
}

/// If no load is below `k` and one exceeds it, the loads add up to more than `k` each.
proof fn lemma_total_load_above(
    sessions: Map<Seq<char>, SessionView>,
    urls: Seq<Seq<char>>,
    k: nat,
    j: int,
)
    requires
        forall|i: int| 0 <= i < urls.len() ==> load_of(sessions, #[trigger] urls[i]) >= k,
    ensures
        total_load(sessions, urls) >= k * urls.len(),
        0 <= j < urls.len() && load_of(sessions, urls[j]) > k ==> total_load(sessions, urls) > k
            * urls.len(),
    decreases urls.len(),
{
    if urls.len() > 0 {
        let n = urls.len() - 1;
        assert(forall|i: int| 0 <= i < n ==> #[trigger] urls.drop_last()[i] == urls[i]);
        lemma_total_load_above(sessions, urls.drop_last(), k, j);
        assert(urls.last() == urls[n]);
        assert(k * urls.len() == k * n + k) by (nonlinear_arith)
            requires
                urls.len() == n + 1,
        ;
    } else {
        assert(k * urls.len() == 0) by (nonlinear_arith)
            requires
                urls.len() == 0,
        ;
    }
}

/// The choice is deterministic: with a deterministic hash there is no second one.
pub proof fn law_choice_is_unique<F: Fn(&str) -> u64>(
    hash: F,
    workers: Seq<Worker>,
    sessions: Map<Seq<char>, SessionView>,
    key: Seq<char>,
    j1: int,
    j2: int,
)
    requires
        deterministic(hash),
        chosen(hash, workers, sessions, key, j1),
        chosen(hash, workers, sessions, key, j2),
    ensures
        j1 == j2,
{
    let eligible = healthy(workers);
    let urls = worker_urls(workers);
    let loads = worker_loads(sessions, workers);
    let w1 = choose|w: Seq<u64>| #[trigger] elected_by(hash, eligible, urls, loads, key, w, j1);
    let w2 = choose|w: Seq<u64>| #[trigger] elected_by(hash, eligible, urls, loads, key, w, j2);
    assert(least_loaded(eligible, loads, j1) && least_loaded(eligible, loads, j2));
    assert(hashes_to(hash, tie_break_text(key, urls[j1]), w1[j1]));
    assert(hashes_to(hash, tie_break_text(key, urls[j1]), w2[j1]));
    assert(hashes_to(hash, tie_break_text(key, urls[j2]), w1[j2]));
    assert(hashes_to(hash, tie_break_text(key, urls[j2]), w2[j2]));
}

/// Ties are broken consistently: given the same set of least loaded replicas, the same key goes to
/// the same replica, whatever the order in which the replicas are listed and whatever the others
/// carry. This holds as long as the hash tells these replicas apart.
pub proof fn law_same_least_loaded_same_choice<F: Fn(&str) -> u64>(
    hash: F,
    workers1: Seq<Worker>,
    sessions1: Map<Seq<char>, SessionView>,
    workers2: Seq<Worker>,
    sessions2: Map<Seq<char>, SessionView>,
    key: Seq<char>,
    j1: int,
    j2: int,
)
    requires
        deterministic(hash),
        least_loaded_urls(sessions1, workers1) == least_loaded_urls(sessions2, workers2),
        forall|u: Seq<char>, v: Seq<char>, w: u64|
            #![trigger
                hashes_to(hash, tie_break_text(key, u), w),
                hashes_to(hash, tie_break_text(key, v), w)
            ]
            least_loaded_urls(sessions1, workers1).contains(u) && least_loaded_urls(
                sessions1,
                workers1,
            ).contains(v) && hashes_to(hash, tie_break_text(key, u), w) && hashes_to(
                hash,
                tie_break_text(key, v),
                w,
            ) ==> u == v,
        chosen(hash, workers1, sessions1, key, j1),
        chosen(hash, workers2, sessions2, key, j2),
    ensures
        workers1[j1].url@ == workers2[j2].url@,
{
    let eligible1 = healthy(workers1);
    let urls1 = worker_urls(workers1);
    let loads1 = worker_loads(sessions1, workers1);
    let eligible2 = healthy(workers2);
    let urls2 = worker_urls(workers2);
    let loads2 = worker_loads(sessions2, workers2);
    let w1 = choose|w: Seq<u64>| #[trigger] elected_by(hash, eligible1, urls1, loads1, key, w, j1);
    let w2 = choose|w: Seq<u64>| #[trigger] elected_by(hash, eligible2, urls2, loads2, key, w, j2);
    let url1 = workers1[j1].url@;
    let url2 = workers2[j2].url@;
    let candidates = least_loaded_urls(sessions1, workers1);
    assert(least_loaded(eligible1, loads1, j1) && least_loaded(eligible2, loads2, j2));
    assert(candidates.contains(url1));
    assert(least_loaded_urls(sessions2, workers2).contains(url2));
    let i1 = choose|i: int| #[trigger]
        least_loaded(eligible1, loads1, i) && workers1[i].url@ == url2;
    assert(least_loaded_urls(sessions2, workers2).contains(url1));
    let i2 = choose|i: int| #[trigger]
        least_loaded(eligible2, loads2, i) && workers2[i].url@ == url1;
    assert(hashes_to(hash, tie_break_text(key, url1), w1[j1]));
    assert(hashes_to(hash, tie_break_text(key, url2), w1[i1]));
    assert(hashes_to(hash, tie_break_text(key, url2), w2[j2]));
    assert(hashes_to(hash, tie_break_text(key, url1), w2[i2]));
}

/// The hashing is consistent: a choice does not change when other replicas become unhealthy.
pub proof fn law_choice_survives_loss_of_others<F: Fn(&str) -> u64>(
    hash: F,
    workers: Seq<Worker>,
    remaining: Seq<Worker>,
    sessions: Map<Seq<char>, SessionView>,
    key: Seq<char>,
    j: int,
)
    requires
        worker_urls(remaining) == worker_urls(workers),
        healthy(remaining).subset_of(healthy(workers)),
        healthy(remaining).contains(j),
        chosen(hash, workers, sessions, key, j),
    ensures
        chosen(hash, remaining, sessions, key, j),
{
    let urls = worker_urls(workers);
    let loads = worker_loads(sessions, workers);
    let all = healthy(workers);
    let left = healthy(remaining);
    let w = choose|w: Seq<u64>| #[trigger] elected_by(hash, all, urls, loads, key, w, j);
    assert(least_loaded(all, loads, j));
    assert(left.contains(j));
    assert forall|i: int| #[trigger] least_loaded(left, loads, i) implies least_loaded(
        all,
        loads,
        i,
    ) by {
        assert(loads[i] <= loads[j]);
    }
    assert(least_loaded(left, loads, j)) by {
        assert forall|i: int| #[trigger] left.contains(i) implies loads[j] <= loads[i] by {
            assert(all.contains(i));
        }
    }
    assert(elected_by(hash, left, urls, loads, key, w, j));
}

} // verus!
