//! What callers can rely on, in terms of nothing but the inputs, the tracked sessions and plain
//! arithmetic: fields, urls, numbers of sessions, nanoseconds and characters.

use vstd::prelude::*;

#[allow(unused_imports)]
use crate::expiration::has_elapsed;
use crate::load::LoadCounts;
#[allow(unused_imports)]
use crate::model::load_of;
use crate::model::{PolicyView, SessionView};
#[allow(unused_imports)]
use crate::policy::lists_removed;
#[allow(unused_imports)]
use crate::routing::{chosen, routed, string_of, text_of, worker_loads};
#[allow(unused_imports)]
use crate::selection::{
    candidate_urls, counted_loads, elected, elected_by, hashes_to, least_loaded, positions,
    tie_break_text,
};
use crate::worker::Worker;
#[allow(unused_imports)]
use crate::worker::{any_healthy, are_candidates, first_healthy_at, healthy, serves, worker_urls};

verus! {

/// The load of a replica is the number of sessions whose replica it is: whatever list names
/// exactly the ids of these sessions, each once, is as long as the load is high.
pub proof fn law_load_counts_sessions(
    sessions: Map<Seq<char>, SessionView>,
    url: Seq<char>,
    ids: Seq<Seq<char>>,
)
    requires
        ids.no_duplicates(),
        forall|id: Seq<char>| #[trigger]
            ids.contains(id) <==> sessions.contains_key(id) && sessions[id].worker_url == url,
    ensures
        load_of(sessions, url) == ids.len(),
{
    ids.unique_seq_to_set();
    assert(ids.to_set() =~= crate::model::sessions_on(sessions, url));
}

/// The load as a number of sessions.
proof fn lemma_load_as_filter(sessions: Map<Seq<char>, SessionView>, url: Seq<char>)
    ensures
        load_of(sessions, url) == sessions.dom().filter(
            |id: Seq<char>| sessions[id].worker_url == url,
        ).len(),
{
    assert(crate::model::sessions_on(sessions, url) =~= sessions.dom().filter(
        |id: Seq<char>| sessions[id].worker_url == url,
    ));
}

/// A position counts as healthy if and only if a worker stands there whose field says so; the
/// other statements about health follow this field.
pub proof fn law_health_is_the_field(workers: Seq<Worker>, i: int, url: Seq<char>)
    ensures
        healthy(workers).contains(i) <==> 0 <= i < workers.len() && workers[i].healthy,
        any_healthy(workers) <==> exists|k: int|
            0 <= k < workers.len() && (#[trigger] workers[k]).healthy,
        serves(workers, url) <==> exists|k: int|
            0 <= k < workers.len() && (#[trigger] workers[k]).healthy && workers[k].url@ == url,
        first_healthy_at(workers, url, i) <==> {
            &&& 0 <= i < workers.len()
            &&& workers[i].healthy
            &&& workers[i].url@ == url
            &&& forall|k: int|
                0 <= k < i && (#[trigger] workers[k]).healthy ==> workers[k].url@ != url
        },
{
    if exists|k: int| 0 <= k < workers.len() && (#[trigger] workers[k]).healthy {
        let k = choose|k: int| 0 <= k < workers.len() && (#[trigger] workers[k]).healthy;
        assert(healthy(workers).contains(k));
    }
    if exists|k: int|
        0 <= k < workers.len() && (#[trigger] workers[k]).healthy && workers[k].url@ == url {
        let k = choose|k: int|
            0 <= k < workers.len() && (#[trigger] workers[k]).healthy && workers[k].url@ == url;
        assert(healthy(workers).contains(k));
    }
    if first_healthy_at(workers, url, i) {
        assert forall|k: int| 0 <= k < i && (#[trigger] workers[k]).healthy implies workers[k].url@
            != url by {
            assert(healthy(workers).contains(k));
        }
    }
}

/// A worker is a candidate if and only if it is healthy; candidates keep the order of the workers
/// and carry their urls.
pub proof fn law_candidates_are_the_healthy_workers(
    workers: Seq<Worker>,
    candidates: Seq<(usize, String)>,
)
    requires
        are_candidates(workers, candidates),
    ensures
        forall|i: int|
            0 <= i < workers.len() ==> ((#[trigger] workers[i]).healthy <==> exists|k: int|
                0 <= k < candidates.len() && (#[trigger] candidates[k]).0 == i),
        forall|k: int|
            0 <= k < candidates.len() ==> {
                &&& (#[trigger] candidates[k]).0 < workers.len()
                &&& candidates[k].1@ == workers[candidates[k].0 as int].url@
            },
        forall|k: int, l: int|
            0 <= k < l < candidates.len() ==> (#[trigger] candidates[k]).0 < (
            #[trigger] candidates[l]).0,
{
    assert forall|i: int| 0 <= i < workers.len() implies ((#[trigger] workers[i]).healthy
        <==> exists|k: int| 0 <= k < candidates.len() && (#[trigger] candidates[k]).0 == i) by {
        if workers[i].healthy {
            assert(healthy(workers).contains(i));
        }
    }
}

/// A request is refused only if no worker is healthy, and then nothing changes; else it goes to a
/// worker that is healthy.
pub proof fn law_refused_only_without_healthy_worker<F: Fn(&str) -> u64>(
    hash: F,
    before: PolicyView,
    workers: Seq<Worker>,
    request_text: Option<Seq<char>>,
    session_id: Option<Seq<char>>,
    now: int,
    result: Option<usize>,
    after: PolicyView,
)
    requires
        routed(hash, before, workers, request_text, session_id, now, result, after),
    ensures
        forall|i: int| 0 <= i < workers.len() && (#[trigger] workers[i]).healthy ==> result is Some,
        match result {
            Some(j) => j < workers.len() && workers[j as int].healthy,
            None => {
                &&& after.sessions == before.sessions
                &&& after.last_sweep == before.last_sweep
                &&& after.expiration_secs == before.expiration_secs
            },
        },
{
    assert forall|i: int| 0 <= i < workers.len() && (#[trigger] workers[i]).healthy implies result
        is Some by {
        assert(healthy(workers).contains(i));
    }
}

/// At least `secs` seconds have passed if and only if that many thousand million nanoseconds have;
/// where `now` is not later than `earlier`, only zero seconds have.
pub proof fn law_seconds_in_nanoseconds(secs: int, earlier: int, now: int)
    ensures
        has_elapsed(secs, earlier, now) <==> now - earlier >= secs * 1_000_000_000 || secs <= 0,
{
}

/// The sweep in nanoseconds: it is due 60 seconds after the last one. Then a session stays if and
/// only if it was used less than the expiration ago, and a session that stays is not changed.
/// Before that, nothing changes.
pub proof fn law_sweep_in_nanoseconds(state: PolicyView, now: int, id: Seq<char>)
    ensures
        state.swept(now).expiration_secs == state.expiration_secs,
        now - state.last_sweep < 60 * 1_000_000_000 ==> {
            &&& state.swept(now).sessions == state.sessions
            &&& state.swept(now).last_sweep == state.last_sweep
        },
        now - state.last_sweep >= 60 * 1_000_000_000 ==> {
            &&& state.swept(now).last_sweep == now
            &&& state.swept(now).sessions.contains_key(id) <==> state.sessions.contains_key(id) && (
            now - state.sessions[id].last_access < state.expiration_secs * 1_000_000_000 && 0
                < state.expiration_secs)
            &&& state.swept(now).sessions.contains_key(id) ==> state.swept(now).sessions[id]
                == state.sessions[id]
        },
{
}

/// Which sessions a policy tracks after a request that some worker takes. A session other than
/// that of the request is tracked as before if no sweep is due or it is not expired, and else not
/// at all. The session of the request is tracked on the worker that took it, as used now.
pub proof fn law_sessions_after_request<F: Fn(&str) -> u64>(
    hash: F,
    before: PolicyView,
    workers: Seq<Worker>,
    request_text: Option<Seq<char>>,
    session_id: Option<Seq<char>>,
    now: int,
    j: usize,
    after: PolicyView,
    id: Seq<char>,
)
    requires
        routed(hash, before, workers, request_text, session_id, now, Some(j), after),
    ensures
        session_id == Some(id) ==> {
            &&& after.sessions.contains_key(id)
            &&& after.sessions[id].worker_url == workers[j as int].url@
            &&& after.sessions[id].last_access == now
        },
        session_id != Some(id) ==> {
            &&& after.sessions.contains_key(id) <==> before.sessions.contains_key(id) && (now
                - before.last_sweep < 60 * 1_000_000_000 || (now - before.sessions[id].last_access
                < before.expiration_secs * 1_000_000_000 && 0 < before.expiration_secs))
            &&& after.sessions.contains_key(id) ==> after.sessions[id] == before.sessions[id]
        },
        after.expiration_secs == before.expiration_secs,
        after.last_sweep == (if now - before.last_sweep >= 60 * 1_000_000_000 {
            now
        } else {
            before.last_sweep
        }),
{
}

/// A session that is tracked, not swept as expired, and whose replica is healthy stays there: its
/// request goes to the first healthy worker at the url of that replica.
pub proof fn law_assigned_session_stays<F: Fn(&str) -> u64>(
    hash: F,
    before: PolicyView,
    workers: Seq<Worker>,
    request_text: Option<Seq<char>>,
    id: Seq<char>,
    now: int,
    result: Option<usize>,
    after: PolicyView,
    i: int,
)
    requires
        routed(hash, before, workers, request_text, Some(id), now, result, after),
        before.sessions.contains_key(id),
        now - before.last_sweep < 60 * 1_000_000_000 || (now - before.sessions[id].last_access
            < before.expiration_secs * 1_000_000_000 && 0 < before.expiration_secs),
        0 <= i < workers.len(),
        workers[i].healthy,
        workers[i].url@ == before.sessions[id].worker_url,
    ensures
        result is Some,
        workers[result->0 as int].url@ == before.sessions[id].worker_url,
        result->0 <= i,
        after.sessions[id].worker_url == before.sessions[id].worker_url,
        after.sessions[id].last_access == now,
{
    assert(healthy(workers).contains(i));
    assert(serves(workers, before.sessions[id].worker_url));
}

/// The choice for a key, with a hash that computes `h`: a healthy worker with no more sessions
/// than any other healthy one, and of those with as few, the one with the highest hash of key,
/// colon and url; the first one if there are several.
pub proof fn law_choice_in_plain_terms<F: Fn(&str) -> u64>(
    hash: F,
    h: spec_fn(Seq<char>) -> u64,
    workers: Seq<Worker>,
    sessions: Map<Seq<char>, SessionView>,
    key: Seq<char>,
    j: int,
)
    requires
        chosen(hash, workers, sessions, key, j),
        forall|t: &str, w: u64| #[trigger] call_ensures(hash, (t,), w) ==> w == h(t@),
    ensures
        0 <= j < workers.len(),
        workers[j].healthy,
        forall|i: int|
            0 <= i < workers.len() && (#[trigger] workers[i]).healthy ==> {
                let load_i = sessions.dom().filter(
                    |id: Seq<char>| sessions[id].worker_url == workers[i].url@,
                ).len();
                let load_j = sessions.dom().filter(
                    |id: Seq<char>| sessions[id].worker_url == workers[j].url@,
                ).len();
                let weight_i = h(key + seq![':'] + workers[i].url@);
                let weight_j = h(key + seq![':'] + workers[j].url@);
                &&& load_j <= load_i
                &&& load_j == load_i ==> weight_i <= weight_j && (i < j ==> weight_i < weight_j)
            },
{
    let eligible = healthy(workers);
    let urls = worker_urls(workers);
    let loads = worker_loads(sessions, workers);
    let w = choose|w: Seq<u64>| #[trigger] elected_by(hash, eligible, urls, loads, key, w, j);
    assert(least_loaded(eligible, loads, j));
    assert(hashes_to(hash, tie_break_text(key, urls[j]), w[j]));
    assert forall|i: int| 0 <= i < workers.len() && (#[trigger] workers[i]).healthy implies {
        let load_i = sessions.dom().filter(
            |id: Seq<char>| sessions[id].worker_url == workers[i].url@,
        ).len();
        let load_j = sessions.dom().filter(
            |id: Seq<char>| sessions[id].worker_url == workers[j].url@,
        ).len();
        let weight_i = h(key + seq![':'] + workers[i].url@);
        let weight_j = h(key + seq![':'] + workers[j].url@);
        &&& load_j <= load_i
        &&& load_j == load_i ==> weight_i <= weight_j && (i < j ==> weight_i < weight_j)
    } by {
        assert(eligible.contains(i));
        lemma_load_as_filter(sessions, workers[i].url@);
        lemma_load_as_filter(sessions, workers[j].url@);
        assert(sessions.dom().filter(
            |id: Seq<char>| sessions[id].worker_url == workers[i].url@,
        ).len() == loads[i]);
        assert(sessions.dom().filter(
            |id: Seq<char>| sessions[id].worker_url == workers[j].url@,
        ).len() == loads[j]);
        if loads[i] == loads[j] {
            assert(least_loaded(eligible, loads, i));
            assert(hashes_to(hash, tie_break_text(key, urls[i]), w[i]));
        }
    }
}

/// A request without a session goes to a healthy worker with no more tracked sessions than any
/// other healthy one; of those with as few, to the one with the highest hash of request text (the
/// empty text where there is none), colon and url, the first one if there are several. It adds
/// no session.
pub proof fn law_stateless_request_to_least_loaded<F: Fn(&str) -> u64>(
    hash: F,
    h: spec_fn(Seq<char>) -> u64,
    before: PolicyView,
    workers: Seq<Worker>,
    request_text: Option<Seq<char>>,
    now: int,
    j: usize,
    after: PolicyView,
)
    requires
        routed(hash, before, workers, request_text, None, now, Some(j), after),
        forall|t: &str, w: u64| #[trigger] call_ensures(hash, (t,), w) ==> w == h(t@),
    ensures
        forall|id: Seq<char>| #[trigger]
            after.sessions.contains_key(id) ==> before.sessions.contains_key(id),
        forall|i: int|
            0 <= i < workers.len() && (#[trigger] workers[i]).healthy ==> {
                let load_i = after.sessions.dom().filter(
                    |id: Seq<char>| after.sessions[id].worker_url == workers[i].url@,
                ).len();
                let load_j = after.sessions.dom().filter(
                    |id: Seq<char>| after.sessions[id].worker_url == workers[j as int].url@,
                ).len();
                let key = match request_text {
                    Some(text) => text,
                    None => Seq::<char>::empty(),
                };
                let weight_i = h(key + seq![':'] + workers[i].url@);
                let weight_j = h(key + seq![':'] + workers[j as int].url@);
                &&& load_j <= load_i
                &&& load_j == load_i ==> weight_i <= weight_j && (i < j ==> weight_i < weight_j)
            },
{
    let key = match request_text {
        Some(text) => text,
        None => Seq::<char>::empty(),
    };
    law_choice_in_plain_terms(hash, h, workers, after.sessions, key, j as int);
}

/// A session that is not tracked, or is swept as expired, or whose replica is not healthy goes to
/// a healthy worker with no more of the other sessions than any other healthy one; of those with
/// as few, to the one with the highest hash of session id, colon and url, the first one if there
/// are several.
pub proof fn law_unassigned_session_to_least_loaded<F: Fn(&str) -> u64>(
    hash: F,
    h: spec_fn(Seq<char>) -> u64,
    before: PolicyView,
    workers: Seq<Worker>,
    request_text: Option<Seq<char>>,
    id: Seq<char>,
    now: int,
    j: usize,
    after: PolicyView,
)
    requires
        routed(hash, before, workers, request_text, Some(id), now, Some(j), after),
        forall|t: &str, w: u64| #[trigger] call_ensures(hash, (t,), w) ==> w == h(t@),
        ({
            ||| !before.sessions.contains_key(id)
            ||| now - before.last_sweep >= 60 * 1_000_000_000 && (now
                - before.sessions[id].last_access >= before.expiration_secs * 1_000_000_000
                || before.expiration_secs <= 0)
            ||| forall|i: int|
                0 <= i < workers.len() && (#[trigger] workers[i]).healthy ==> workers[i].url@
                    != before.sessions[id].worker_url
        }),
    ensures
        forall|i: int|
            0 <= i < workers.len() && (#[trigger] workers[i]).healthy ==> {
                let others = after.sessions.remove(id);
                let load_i = others.dom().filter(
                    |other: Seq<char>| others[other].worker_url == workers[i].url@,
                ).len();
                let load_j = others.dom().filter(
                    |other: Seq<char>| others[other].worker_url == workers[j as int].url@,
                ).len();
                let weight_i = h(id + seq![':'] + workers[i].url@);
                let weight_j = h(id + seq![':'] + workers[j as int].url@);
                &&& load_j <= load_i
                &&& load_j == load_i ==> weight_i <= weight_j && (i < j ==> weight_i < weight_j)
            },
{
    let others = after.sessions.remove(id);
    assert(others =~= before.swept(now).without(id).sessions);
    law_choice_in_plain_terms(hash, h, workers, others, id, j as int);
}

/// A healthy worker at `url` has no more of the sessions than any other healthy one.
pub open spec fn has_fewest(
    workers: Seq<Worker>,
    sessions: Map<Seq<char>, SessionView>,
    url: Seq<char>,
) -> bool {
    exists|j: int|
        {
            &&& 0 <= j < workers.len()
            &&& (#[trigger] workers[j]).healthy
            &&& workers[j].url@ == url
            &&& forall|i: int|
                0 <= i < workers.len() && (#[trigger] workers[i]).healthy ==> load_of(sessions, url)
                    <= load_of(sessions, workers[i].url@)
        }
}

/// Given the same set of least loaded replicas, a session without a usable assignment is always
/// assigned to the same one: whatever other sessions are tracked, in whatever order the workers
/// are listed, and whatever the texts of the two requests. The hash must tell these replicas
/// apart.
pub proof fn law_same_session_same_replica<F: Fn(&str) -> u64>(
    hash: F,
    h: spec_fn(Seq<char>) -> u64,
    before1: PolicyView,
    workers1: Seq<Worker>,
    request_text1: Option<Seq<char>>,
    now1: int,
    j1: usize,
    after1: PolicyView,
    before2: PolicyView,
    workers2: Seq<Worker>,
    request_text2: Option<Seq<char>>,
    now2: int,
    j2: usize,
    after2: PolicyView,
    id: Seq<char>,
)
    requires
        routed(hash, before1, workers1, request_text1, Some(id), now1, Some(j1), after1),
        routed(hash, before2, workers2, request_text2, Some(id), now2, Some(j2), after2),
        forall|t: &str, w: u64| #[trigger] call_ensures(hash, (t,), w) ==> w == h(t@),
        before1.sessions.contains_key(id) ==> forall|i: int|
            0 <= i < workers1.len() && (#[trigger] workers1[i]).healthy ==> workers1[i].url@
                != before1.sessions[id].worker_url,
        before2.sessions.contains_key(id) ==> forall|i: int|
            0 <= i < workers2.len() && (#[trigger] workers2[i]).healthy ==> workers2[i].url@
                != before2.sessions[id].worker_url,
        forall|url: Seq<char>| #[trigger]
            has_fewest(workers1, after1.sessions.remove(id), url) <==> has_fewest(
                workers2,
                after2.sessions.remove(id),
                url,
            ),
        forall|u: Seq<char>, v: Seq<char>|
            has_fewest(workers1, after1.sessions.remove(id), u) && has_fewest(
                workers1,
                after1.sessions.remove(id),
                v,
            ) && #[trigger] h(id + seq![':'] + u) == #[trigger] h(id + seq![':'] + v) ==> u == v,
    ensures
        workers1[j1 as int].url@ == workers2[j2 as int].url@,
{
    let others1 = after1.sessions.remove(id);
    let others2 = after2.sessions.remove(id);
    let url1 = workers1[j1 as int].url@;
    let url2 = workers2[j2 as int].url@;
    lemma_unassigned_session(hash, h, before1, workers1, request_text1, id, now1, j1, after1);
    lemma_unassigned_session(hash, h, before2, workers2, request_text2, id, now2, j2, after2);
    assert(has_fewest(workers1, others1, url1));
    assert(has_fewest(workers2, others2, url2));
    assert(has_fewest(workers2, others2, url1));
    assert(has_fewest(workers1, others1, url2));
    assert(h(id + seq![':'] + url2) <= h(id + seq![':'] + url1));
    assert(h(id + seq![':'] + url1) <= h(id + seq![':'] + url2));
}

/// The choice for an unassigned session over loads and urls.
proof fn lemma_unassigned_session<F: Fn(&str) -> u64>(
    hash: F,
    h: spec_fn(Seq<char>) -> u64,
    before: PolicyView,
    workers: Seq<Worker>,
    request_text: Option<Seq<char>>,
    id: Seq<char>,
    now: int,
    j: usize,
    after: PolicyView,
)
    requires
        routed(hash, before, workers, request_text, Some(id), now, Some(j), after),
        forall|t: &str, w: u64| #[trigger] call_ensures(hash, (t,), w) ==> w == h(t@),
        before.sessions.contains_key(id) ==> forall|i: int|
            0 <= i < workers.len() && (#[trigger] workers[i]).healthy ==> workers[i].url@
                != before.sessions[id].worker_url,
    ensures
        has_fewest(workers, after.sessions.remove(id), workers[j as int].url@),
        forall|url: Seq<char>| #[trigger]
            has_fewest(workers, after.sessions.remove(id), url) ==> h(id + seq![':'] + url) <= h(
                id + seq![':'] + workers[j as int].url@,
            ),
{
    let others = after.sessions.remove(id);
    let url = workers[j as int].url@;
    law_unassigned_session_to_least_loaded(
        hash,
        h,
        before,
        workers,
        request_text,
        id,
        now,
        j,
        after,
    );
    law_refused_only_without_healthy_worker(
        hash,
        before,
        workers,
        request_text,
        Some(id),
        now,
        Some(j),
        after,
    );
    assert forall|i: int| 0 <= i < workers.len() && (#[trigger] workers[i]).healthy implies load_of(
        others,
        url,
    ) <= load_of(others, workers[i].url@) && (load_of(others, url) == load_of(
        others,
        workers[i].url@,
    ) ==> h(id + seq![':'] + workers[i].url@) <= h(id + seq![':'] + url)) by {
        lemma_load_as_filter(others, url);
        lemma_load_as_filter(others, workers[i].url@);
        let load_i = others.dom().filter(
            |other: Seq<char>| others[other].worker_url == workers[i].url@,
        );
        let load_j = others.dom().filter(
            |other: Seq<char>| others[other].worker_url == workers[j as int].url@,
        );
        assert(load_i.len() == load_of(others, workers[i].url@));
        assert(load_j.len() == load_of(others, url));
    }
    assert(workers[j as int].healthy);
    assert forall|u: Seq<char>| #[trigger] has_fewest(workers, others, u) implies h(
        id + seq![':'] + u,
    ) <= h(id + seq![':'] + url) by {
        let i = choose|i: int|
            {
                &&& 0 <= i < workers.len()
                &&& (#[trigger] workers[i]).healthy
                &&& workers[i].url@ == u
                &&& forall|l: int|
                    0 <= l < workers.len() && (#[trigger] workers[l]).healthy ==> load_of(others, u)
                        <= load_of(others, workers[l].url@)
            };
        assert(load_of(others, u) <= load_of(others, workers[j as int].url@));
    }
}

/// The least loaded candidate in plain terms, with a hash that computes `h`: no candidate has a
/// smaller count; of those with as small a one, it has the highest hash of key, colon and url, and
/// is the first if there are several. A url without an entry counts zero.
pub proof fn law_least_loaded_candidate<F: Fn(&str) -> u64>(
    hash: F,
    h: spec_fn(Seq<char>) -> u64,
    counts: LoadCounts,
    candidates: Seq<(usize, String)>,
    key: Seq<char>,
    j: int,
)
    requires
        elected(
            hash,
            positions(candidates.len()),
            candidate_urls(candidates),
            counted_loads(counts, candidate_urls(candidates)),
            key,
            j,
        ),
        forall|t: &str, w: u64| #[trigger] call_ensures(hash, (t,), w) ==> w == h(t@),
    ensures
        0 <= j < candidates.len(),
        forall|i: int|
            0 <= i < candidates.len() ==> {
                let url_i = (#[trigger] candidates[i]).1@;
                let url_j = candidates[j].1@;
                let count_i = if counts@.contains_key(url_i) {
                    counts@[url_i]
                } else {
                    0
                };
                let count_j = if counts@.contains_key(url_j) {
                    counts@[url_j]
                } else {
                    0
                };
                let weight_i = h(key + seq![':'] + url_i);
                let weight_j = h(key + seq![':'] + url_j);
                &&& count_j <= count_i
                &&& count_j == count_i ==> weight_i <= weight_j && (i < j ==> weight_i < weight_j)
            },
{
    let all = positions(candidates.len());
    let urls = candidate_urls(candidates);
    let loads = counted_loads(counts, urls);
    let w = choose|w: Seq<u64>| #[trigger] elected_by(hash, all, urls, loads, key, w, j);
    assert(least_loaded(all, loads, j));
    assert(hashes_to(hash, tie_break_text(key, urls[j]), w[j]));
    assert forall|i: int| 0 <= i < candidates.len() implies {
        let url_i = (#[trigger] candidates[i]).1@;
        let url_j = candidates[j].1@;
        let count_i = if counts@.contains_key(url_i) {
            counts@[url_i]
        } else {
            0
        };
        let count_j = if counts@.contains_key(url_j) {
            counts@[url_j]
        } else {
            0
        };
        let weight_i = h(key + seq![':'] + url_i);
        let weight_j = h(key + seq![':'] + url_j);
        &&& count_j <= count_i
        &&& count_j == count_i ==> weight_i <= weight_j && (i < j ==> weight_i < weight_j)
    } by {
        assert(all.contains(i));
        assert(loads[j] <= loads[i]);
        if loads[i] == loads[j] {
            assert(least_loaded(all, loads, i));
            assert(hashes_to(hash, tie_break_text(key, urls[i]), w[i]));
        }
    }
}

/// A fresh policy tracks no session, was swept at its creation, and keeps the expiration it was
/// given.
pub proof fn law_fresh_policy(expiration_secs: int, now: int)
    ensures
        forall|id: Seq<char>|
            !(#[trigger] PolicyView::fresh(expiration_secs, now).sessions.contains_key(id)),
        PolicyView::fresh(expiration_secs, now).last_sweep == now,
        PolicyView::fresh(expiration_secs, now).expiration_secs == expiration_secs,
{
}

/// Finishing a session takes that session away, and nothing else changes.
pub proof fn law_finish_takes_one_session(state: PolicyView, id: Seq<char>, other: Seq<char>)
    ensures
        !state.without(id).sessions.contains_key(id),
        other != id ==> {
            &&& state.without(id).sessions.contains_key(other) <==> state.sessions.contains_key(
                other,
            )
            &&& state.sessions.contains_key(other) ==> state.without(id).sessions[other]
                == state.sessions[other]
        },
        state.without(id).last_sweep == state.last_sweep,
        state.without(id).expiration_secs == state.expiration_secs,
{
}

/// The list of removed sessions names a session if and only if it went, never twice, and beside it
/// the url it was on.
pub proof fn law_removed_sessions_are_listed(
    before: Map<Seq<char>, SessionView>,
    after: Map<Seq<char>, SessionView>,
    removed: Seq<(String, String)>,
    id: Seq<char>,
)
    requires
        lists_removed(before, after, removed),
    ensures
        (exists|k: int| 0 <= k < removed.len() && (#[trigger] removed[k]).0@ == id) <==> (
        before.contains_key(id) && !after.contains_key(id)),
        forall|k: int|
            0 <= k < removed.len() && (#[trigger] removed[k]).0@ == id ==> removed[k].1@
                == before[id].worker_url,
        forall|k: int, l: int|
            0 <= k < removed.len() && 0 <= l < removed.len() && (#[trigger] removed[k]).0@ == (
            #[trigger] removed[l]).0@ ==> k == l,
{
}

/// A text that is there stands for its characters, one that is not there for nothing.
pub proof fn law_texts_are_their_characters(text: &str, string: String)
    ensures
        text_of(Some(text)) == Some(text@),
        text_of(None) == None::<Seq<char>>,
        string_of(Some(string)) == Some(string@),
        string_of(None) == None::<Seq<char>>,
{
}

} // verus!
