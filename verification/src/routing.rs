//! What a routing decision is, stated over the model.

use vstd::prelude::*;

use crate::load::LoadCounts;
use crate::model::{PolicyView, SessionView};
#[allow(unused_imports)]
use crate::model::load_of;
#[allow(unused_imports)]
use crate::selection::{
    candidate_urls, counted_loads, elected, elected_by, hashes_to, least_loaded, positions,
    tie_break_text,
};
use crate::worker::Worker;
#[allow(unused_imports)]
use crate::worker::{any_healthy, are_candidates, first_healthy_at, healthy, serves, worker_urls};

verus! {

/// The characters of an optional text.
pub open spec fn text_of(text: Option<&str>) -> Option<Seq<char>> {
    match text {
        Some(t) => Some(t@),
        None => None,
    }
}

/// The characters of an optional string.
pub open spec fn string_of(text: Option<String>) -> Option<Seq<char>> {
    match text {
        Some(t) => Some(t@),
        None => None,
    }
}

/// The load of each replica.
pub open spec fn worker_loads(
    sessions: Map<Seq<char>, SessionView>,
    workers: Seq<Worker>,
) -> Seq<nat> {
    worker_urls(workers).map_values(|url: Seq<char>| load_of(sessions, url))
}

/// Replica `j` is the choice for `key`: healthy, with the least load among the healthy ones, and
/// with the highest rendezvous weight among those.
pub open spec fn chosen<F: Fn(&str) -> u64>(
    hash: F,
    workers: Seq<Worker>,
    sessions: Map<Seq<char>, SessionView>,
    key: Seq<char>,
    j: int,
) -> bool {
    elected(
        hash,
        healthy(workers),
        worker_urls(workers),
        worker_loads(sessions, workers),
        key,
        j,
    )
}

/// The session is tracked and its replica is among the healthy ones.
pub open spec fn sticks(state: PolicyView, workers: Seq<Worker>, id: Seq<char>) -> bool {
    state.sessions.contains_key(id) && serves(workers, state.sessions[id].worker_url)
}

/// A request without a session goes to the choice for its text, and is not tracked.
pub open spec fn routed_stateless<F: Fn(&str) -> u64>(
    hash: F,
    before: PolicyView,
    workers: Seq<Worker>,
    request_text: Option<Seq<char>>,
    j: int,
    after: PolicyView,
) -> bool {
    let key = match request_text {
        Some(text) => text,
        None => Seq::empty(),
    };
    &&& chosen(hash, workers, before.sessions, key, j)
    &&& after == before
}

/// A request of a session goes to the replica of that session while it is healthy; else the
/// session is assigned anew, to the choice for its id among the loads without it.
pub open spec fn routed_session<F: Fn(&str) -> u64>(
    hash: F,
    before: PolicyView,
    workers: Seq<Worker>,
    id: Seq<char>,
    now: int,
    j: int,
    after: PolicyView,
) -> bool {
    if sticks(before, workers, id) {
        let url = before.sessions[id].worker_url;
        &&& first_healthy_at(workers, url, j)
        &&& after == before.assigned(id, url, now)
    } else {
        &&& chosen(hash, workers, before.without(id).sessions, id, j)
        &&& after == before.without(id).assigned(id, workers[j].url@, now)
    }
}

/// The outcome of a request at `now`: nothing happens where no replica is healthy; else the
/// expiration sweep comes first, then the request is routed.
pub open spec fn routed<F: Fn(&str) -> u64>(
    hash: F,
    before: PolicyView,
    workers: Seq<Worker>,
    request_text: Option<Seq<char>>,
    session_id: Option<Seq<char>>,
    now: int,
    result: Option<usize>,
    after: PolicyView,
) -> bool {
    if any_healthy(workers) {
        match result {
            Some(j) => match session_id {
                Some(id) => routed_session(
                    hash,
                    before.swept(now),
                    workers,
                    id,
                    now,
                    j as int,
                    after,
                ),
                None => routed_stateless(
                    hash,
                    before.swept(now),
                    workers,
                    request_text,
                    j as int,
                    after,
                ),
            },
            None => false,
        }
    } else {
        result is None && after == before
    }
}

/// The choice among the candidates is the choice among the replicas.
pub(crate) proof fn lemma_elected_candidate_is_chosen<F: Fn(&str) -> u64>(
    hash: F,
    workers: Seq<Worker>,
    sessions: Map<Seq<char>, SessionView>,
    counts: LoadCounts,
    candidates: Seq<(usize, String)>,
    key: Seq<char>,
    k: int,
)
    requires
        are_candidates(workers, candidates),
        forall|url: Seq<char>| #[trigger] counts.load(url) == load_of(sessions, url),
        0 <= k < candidates.len(),
        elected(
            hash,
            positions(candidates.len()),
            candidate_urls(candidates),
            counted_loads(counts, candidate_urls(candidates)),
            key,
            k,
        ),
    ensures
        chosen(hash, workers, sessions, key, candidates[k].0 as int),
{
    let all = positions(candidates.len());
    let urls = candidate_urls(candidates);
    let loads = counted_loads(counts, urls);
    let weights = choose|weights: Seq<u64>| #[trigger]
        elected_by(hash, all, urls, loads, key, weights, k);
    let eligible = healthy(workers);
    let all_urls = worker_urls(workers);
    let all_loads = worker_loads(sessions, workers);
    let place = |i: int|
        choose|p: int| 0 <= p < candidates.len() && (#[trigger] candidates[p]).0 == i;
    let all_weights = Seq::new(workers.len(), |i: int| weights[place(i)]);
    let j = candidates[k].0 as int;
    assert forall|p: int| 0 <= p < candidates.len() implies {
        &&& eligible.contains(#[trigger] candidates[p].0 as int)
        &&& place(candidates[p].0 as int) == p
        &&& all_urls[candidates[p].0 as int] == urls[p]
        &&& all_loads[candidates[p].0 as int] == loads[p]
        &&& all_weights[candidates[p].0 as int] == weights[p]
    } by {
        let q = place(candidates[p].0 as int);
        assert(0 <= q < candidates.len() && candidates[q].0 == candidates[p].0);
        assert(counts.load(urls[p]) == load_of(sessions, urls[p]));
    }
    assert forall|i: int| #[trigger] least_loaded(eligible, all_loads, i) implies {
        let p = place(i);
        &&& 0 <= p < candidates.len()
        &&& candidates[p].0 == i
        &&& least_loaded(all, loads, p)
    } by {
        let p = place(i);
        assert(candidates[p].0 == i);
        assert forall|q: int| #[trigger] all.contains(q) implies loads[p] <= loads[q] by {
            assert(eligible.contains(candidates[q].0 as int));
        }
    }
    assert(least_loaded(eligible, all_loads, j)) by {
        assert forall|i: int| #[trigger] eligible.contains(i) implies all_loads[j]
            <= all_loads[i] by {
            let p = place(i);
            assert(candidates[p].0 == i);
            assert(all.contains(p));
        }
    }
    assert(elected_by(hash, eligible, all_urls, all_loads, key, all_weights, j));
}

} // verus!
