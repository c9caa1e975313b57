//! What each call does, stated of the functions themselves: over the arguments they get, the
//! results they give, and the state before and after.

use vstd::prelude::*;

#[allow(unused_imports)]
use crate::expiration::{elapsed, expiration_secs_from_env, parse_expiration_secs};
#[allow(unused_imports)]
use crate::guarantees::{
    law_assigned_session_stays, law_candidates_are_the_healthy_workers, law_least_loaded_candidate,
    law_load_counts_sessions, law_refused_only_without_healthy_worker,
    law_removed_sessions_are_listed, law_sessions_after_request,
};
#[allow(unused_imports)]
use crate::laws::law_finish_releases_capacity;
use crate::load::LoadCounts;
#[allow(unused_imports)]
use crate::notation::{law_default_unless_spelled, law_number_is_configured, spells};
use crate::policy::StickyLeastLoadedPolicy;
#[allow(unused_imports)]
use crate::routing::routed;
#[allow(unused_imports)]
use crate::selection::{candidate_urls, counted_loads, elected, positions, select_least_loaded};
#[allow(unused_imports)]
use crate::worker::{healthy_candidates, Worker};

verus! {

/// Routing a request for a session is what [`routed`] says, for the characters of the texts that
/// were handed in.
pub proof fn law_select_for_session_routes<F: Fn(&str) -> u64>(
    policy: &mut StickyLeastLoadedPolicy,
    workers: &[Worker],
    request_text: Option<&str>,
    session_id: Option<&str>,
    now: u128,
    hash: &F,
    result: Option<usize>,
)
    requires
        call_ensures(
            StickyLeastLoadedPolicy::select_worker_for_session::<F>,
            (policy, workers, request_text, session_id, now, hash),
            result,
        ),
    ensures
        final(policy).wf(),
        routed(
            *hash,
            old(policy)@,
            workers@,
            match request_text {
                Some(text) => Some(text@),
                None => None,
            },
            match session_id {
                Some(id) => Some(id@),
                None => None,
            },
            now as int,
            result,
            final(policy)@,
        ),
{
}

/// Routing a request with headers is routing it for the session that the extraction found in its
/// text and headers; where no worker is healthy, nothing is done.
pub proof fn law_select_with_headers_routes<
    H,
    E: Fn(Option<&str>, Option<&H>) -> Option<String>,
    F: Fn(&str) -> u64,
>(
    policy: &mut StickyLeastLoadedPolicy,
    workers: &[Worker],
    request_text: Option<&str>,
    headers: Option<&H>,
    now: u128,
    extract_session_id: &E,
    hash: &F,
    found: Option<Seq<char>>,
    result: Option<usize>,
)
    requires
        call_ensures(
            StickyLeastLoadedPolicy::select_worker_with_headers::<H, E, F>,
            (policy, workers, request_text, headers, now, extract_session_id, hash),
            result,
        ),
        forall|s: Option<String>| #[trigger]
            call_ensures(*extract_session_id, (request_text, headers), s) ==> (match s {
                Some(id) => found == Some(id@),
                None => found is None,
            }),
    ensures
        final(policy).wf(),
        result is Some <==> exists|i: int|
            0 <= i < workers@.len() && (#[trigger] workers@[i]).healthy,
        result is None ==> final(policy)@ == old(policy)@,
        result is Some ==> routed(
            *hash,
            old(policy)@,
            workers@,
            match request_text {
                Some(text) => Some(text@),
                None => None,
            },
            found,
            now as int,
            result,
            final(policy)@,
        ),
{
}

/// A request of a session leaves that session on the worker that took it, where
/// [`replica_of`](StickyLeastLoadedPolicy::replica_of) finds it; a next request of the session
/// within the same minute goes to that url while a worker there is healthy.
pub proof fn law_session_is_found_where_it_went<F: Fn(&str) -> u64>(
    policy: &mut StickyLeastLoadedPolicy,
    workers: &[Worker],
    request_text: Option<&str>,
    id: &str,
    now: u128,
    hash: &F,
    result: Option<usize>,
    replica: Option<&str>,
    worker: int,
)
    requires
        call_ensures(
            StickyLeastLoadedPolicy::select_worker_for_session::<F>,
            (policy, workers, request_text, Some(id), now, hash),
            result,
        ),
        call_ensures(StickyLeastLoadedPolicy::replica_of, (final(policy), id), replica),
        0 <= worker < workers@.len(),
        workers@[worker].healthy,
    ensures
        result is Some,
        result->0 < workers@.len(),
        workers@[result->0 as int].healthy,
        replica is Some,
        replica->0@ == workers@[result->0 as int].url@,
        old(policy)@.sessions.contains_key(id@) && now - old(policy)@.last_sweep < 60
            * 1_000_000_000 && workers@[worker].url@ == old(policy)@.sessions[id@].worker_url
            ==> replica->0@ == workers@[worker].url@ && result->0 <= worker,
{
    let text = match request_text {
        Some(text) => Some(text@),
        None => None,
    };
    law_refused_only_without_healthy_worker(
        *hash,
        old(policy)@,
        workers@,
        text,
        Some(id@),
        now as int,
        result,
        final(policy)@,
    );
    law_sessions_after_request(
        *hash,
        old(policy)@,
        workers@,
        text,
        Some(id@),
        now as int,
        result->0,
        final(policy)@,
        id@,
    );
    if old(policy)@.sessions.contains_key(id@) && now - old(policy)@.last_sweep < 60 * 1_000_000_000
        && workers@[worker].url@ == old(policy)@.sessions[id@].worker_url {
        law_assigned_session_stays(
            *hash,
            old(policy)@,
            workers@,
            text,
            id@,
            now as int,
            result,
            final(policy)@,
            worker,
        );
    }
}

/// Finishing a session that is tracked makes the count of its replica and the number of sessions
/// smaller by one each; afterwards the session has no replica. Other replicas keep their counts.
pub proof fn law_finish_lowers_the_counts(
    policy: &mut StickyLeastLoadedPolicy,
    id: &str,
    url: &str,
    replica: Option<&str>,
    replica_after: Option<&str>,
    count: usize,
    count_after: usize,
    total: usize,
    total_after: usize,
)
    requires
        old(policy).wf(),
        call_ensures(StickyLeastLoadedPolicy::finish_session, (policy, id), ()),
        call_ensures(StickyLeastLoadedPolicy::replica_of, (old(policy), id), replica),
        call_ensures(StickyLeastLoadedPolicy::replica_of, (final(policy), id), replica_after),
        call_ensures(StickyLeastLoadedPolicy::active_count_for, (old(policy), url), count),
        call_ensures(
            StickyLeastLoadedPolicy::active_count_for,
            (final(policy), url),
            count_after,
        ),
        call_ensures(StickyLeastLoadedPolicy::active_session_count, (old(policy),), total),
        call_ensures(StickyLeastLoadedPolicy::active_session_count, (final(policy),), total_after),
    ensures
        replica_after is None,
        match replica {
            Some(at) => {
                &&& total_after + 1 == total
                &&& count_after + (if at@ == url@ {
                    1int
                } else {
                    0int
                }) == count
            },
            None => total_after == total && count_after == count,
        },
{
    let before = old(policy)@;
    (*old(policy)).lemma_sessions_finite();
    if before.sessions.contains_key(id@) {
        law_finish_releases_capacity(before, id@, url@);
        assert(before.without(id@).sessions =~= before.sessions.remove(id@));
    } else {
        assert(before.sessions.remove(id@) =~= before.sessions);
    }
}

/// The count of a replica is the number of sessions on it, and the number of sessions is how many
/// there are: lists that name exactly these, each once, are as long.
pub proof fn law_counts_count(
    policy: &StickyLeastLoadedPolicy,
    url: &str,
    count: usize,
    total: usize,
    ids_there: Seq<Seq<char>>,
    ids: Seq<Seq<char>>,
)
    requires
        call_ensures(StickyLeastLoadedPolicy::active_count_for, (policy, url), count),
        call_ensures(StickyLeastLoadedPolicy::active_session_count, (policy,), total),
        ids_there.no_duplicates(),
        forall|id: Seq<char>| #[trigger]
            ids_there.contains(id) <==> policy@.sessions.contains_key(id)
                && policy@.sessions[id].worker_url == url@,
        ids.no_duplicates(),
        forall|id: Seq<char>| #[trigger] ids.contains(id) <==> policy@.sessions.contains_key(id),
    ensures
        count == ids_there.len(),
        total == ids.len(),
{
    law_load_counts_sessions(policy@.sessions, url@, ids_there);
    ids.unique_seq_to_set();
    assert(ids.to_set() =~= policy@.sessions.dom());
}

/// A policy is created without sessions, as swept at its creation, with the expiration that was
/// given; from a setting that spells a number, with that many seconds.
pub proof fn law_created_empty(
    secs: u64,
    setting: Option<&str>,
    now: u128,
    explicit: StickyLeastLoadedPolicy,
    configured: StickyLeastLoadedPolicy,
    before: Seq<char>,
    plus: bool,
    n: nat,
    v: nat,
    behind: Seq<char>,
)
    requires
        call_ensures(StickyLeastLoadedPolicy::with_expiration_secs, (secs, now), explicit),
        call_ensures(StickyLeastLoadedPolicy::new, (setting, now), configured),
    ensures
        explicit.wf(),
        configured.wf(),
        explicit@.sessions.dom() == Set::<Seq<char>>::empty(),
        configured@.sessions.dom() == Set::<Seq<char>>::empty(),
        explicit@.last_sweep == now,
        configured@.last_sweep == now,
        explicit@.expiration_secs == secs,
        setting is None ==> configured@.expiration_secs == 7200,
        setting is Some && spells(setting->0@, before, plus, n, v, behind) && v
            <= 0xffff_ffff_ffff_ffff ==> configured@.expiration_secs == v,
        setting is Some && spells(setting->0@, before, plus, n, v, behind) && v
            > 0xffff_ffff_ffff_ffff ==> configured@.expiration_secs == 7200,
{
    if setting is Some && spells(setting->0@, before, plus, n, v, behind) {
        law_number_is_configured(setting->0@, before, plus, n, v, behind);
    }
}

/// A reset leaves no session, counts as a sweep, and keeps the expiration.
pub proof fn law_reset_empties(policy: &mut StickyLeastLoadedPolicy, now: u128)
    requires
        call_ensures(StickyLeastLoadedPolicy::reset, (policy, now), ()),
    ensures
        final(policy).wf(),
        final(policy)@.sessions.dom() == Set::<Seq<char>>::empty(),
        final(policy)@.last_sweep == now,
        final(policy)@.expiration_secs == old(policy)@.expiration_secs,
{
}

/// A sweep in nanoseconds: if the last one is less than 60 seconds ago it removes nothing; else it
/// removes and lists exactly the sessions that were not used within the expiration.
pub proof fn law_sweep_removes_and_lists(
    policy: &mut StickyLeastLoadedPolicy,
    now: u128,
    removed: Vec<(String, String)>,
    id: Seq<char>,
)
    requires
        call_ensures(StickyLeastLoadedPolicy::sweep_expired, (policy, now), removed),
        old(policy)@.sessions.contains_key(id),
    ensures
        final(policy).wf(),
        final(policy)@.expiration_secs == old(policy)@.expiration_secs,
        ({
            let due = now - old(policy)@.last_sweep >= 60 * 1_000_000_000;
            let fresh = now - old(policy)@.sessions[id].last_access < old(policy)@.expiration_secs
                * 1_000_000_000 && 0 < old(policy)@.expiration_secs;
            &&& final(policy)@.last_sweep == if due {
                now as int
            } else {
                old(policy)@.last_sweep
            }
            &&& final(policy)@.sessions.contains_key(id) <==> !due || fresh
            &&& final(policy)@.sessions.contains_key(id) ==> final(policy)@.sessions[id] == old(
                policy,
            )@.sessions[id]
            &&& (exists|k: int| 0 <= k < removed@.len() && (#[trigger] removed@[k]).0@ == id)
                <==> due && !fresh
        }),
{
    law_removed_sessions_are_listed(
        old(policy)@.sessions,
        final(policy)@.sessions,
        removed@,
        id,
    );
}

/// The configured expiration: the number that the setting spells, the default of 7200 seconds
/// where it is not set, spells none, or spells one that 64 bits do not hold.
pub proof fn law_expiration_from_env(
    value: Option<&str>,
    result: u64,
    text: &str,
    parsed: Option<u64>,
    before: Seq<char>,
    plus: bool,
    n: nat,
    v: nat,
    behind: Seq<char>,
)
    requires
        call_ensures(expiration_secs_from_env, (value,), result),
        call_ensures(parse_expiration_secs, (text,), parsed),
    ensures
        value is None ==> result == 7200,
        value is Some && spells(value->0@, before, plus, n, v, behind) ==> result == (if v
            <= 0xffff_ffff_ffff_ffff {
            v
        } else {
            7200
        }),
        value is Some && result != 7200 ==> exists|a: Seq<char>, p: bool, z: nat, b: Seq<char>|
            #[trigger] spells(value->0@, a, p, z, result as nat, b),
        spells(text@, before, plus, n, v, behind) ==> parsed == (if v <= 0xffff_ffff_ffff_ffff {
            Some(v as u64)
        } else {
            None
        }),
        parsed is Some ==> exists|a: Seq<char>, p: bool, z: nat, b: Seq<char>| #[trigger]
            spells(text@, a, p, z, parsed->0 as nat, b),
{
    if value is Some {
        law_default_unless_spelled(value->0@);
        if spells(value->0@, before, plus, n, v, behind) {
            law_number_is_configured(value->0@, before, plus, n, v, behind);
        }
    }
    law_default_unless_spelled(text@);
    if spells(text@, before, plus, n, v, behind) {
        law_number_is_configured(text@, before, plus, n, v, behind);
    }
}

/// Whether a number of seconds has passed, in nanoseconds.
pub proof fn law_elapsed_in_nanoseconds(secs: u64, earlier: u128, now: u128, result: bool)
    requires
        call_ensures(elapsed, (secs, earlier, now), result),
    ensures
        result <==> now - earlier >= secs * 1_000_000_000 || secs == 0,
{
}

/// The candidates are the healthy workers, in order and with their urls.
pub proof fn law_candidates_found(workers: &[Worker], result: Vec<(usize, String)>)
    requires
        call_ensures(healthy_candidates, (workers,), result),
    ensures
        forall|i: int|
            0 <= i < workers@.len() ==> ((#[trigger] workers@[i]).healthy <==> exists|k: int|
                0 <= k < result@.len() && (#[trigger] result@[k]).0 == i),
        forall|k: int|
            0 <= k < result@.len() ==> {
                &&& (#[trigger] result@[k]).0 < workers@.len()
                &&& result@[k].1@ == workers@[result@[k].0 as int].url@
            },
        forall|k: int, l: int|
            0 <= k < l < result@.len() ==> (#[trigger] result@[k]).0 < (#[trigger] result@[l]).0,
{
    law_candidates_are_the_healthy_workers(workers@, result@);
}

/// The selected index is that of a candidate with the smallest count; of those with as small a
/// one, it has the highest hash of key, colon and url, and is the first if there are several.
pub proof fn law_selected_candidate<F: Fn(&str) -> u64>(
    counts: &LoadCounts,
    candidates: &[(usize, String)],
    tie_break_key: &str,
    hash: &F,
    h: spec_fn(Seq<char>) -> u64,
    result: usize,
)
    requires
        call_ensures(
            select_least_loaded::<F>,
            (counts, candidates, tie_break_key, hash),
            result,
        ),
        forall|t: &str, w: u64| #[trigger] call_ensures(*hash, (t,), w) ==> w == h(t@),
    ensures
        exists|j: int|
            {
                &&& 0 <= j < candidates@.len()
                &&& result == (#[trigger] candidates@[j]).0
                &&& forall|i: int|
                    0 <= i < candidates@.len() ==> {
                        let url_i = (#[trigger] candidates@[i]).1@;
                        let url_j = candidates@[j].1@;
                        let count_i = if counts@.contains_key(url_i) {
                            counts@[url_i]
                        } else {
                            0
                        };
                        let count_j = if counts@.contains_key(url_j) {
                            counts@[url_j]
                        } else {
                            0
                        };
                        let weight_i = h(tie_break_key@ + seq![':'] + url_i);
                        let weight_j = h(tie_break_key@ + seq![':'] + url_j);
                        &&& count_j <= count_i
                        &&& count_j == count_i ==> weight_i <= weight_j && (i < j ==> weight_i
                            < weight_j)
                    }
            },
{
    let urls = candidate_urls(candidates@);
    let j = choose|j: int|
        0 <= j < candidates@.len() && result == (#[trigger] candidates@[j]).0 && elected(
            *hash,
            positions(candidates@.len()),
            urls,
            counted_loads(*counts, urls),
            tie_break_key@,
            j,
        );
    law_least_loaded_candidate(*hash, h, *counts, candidates@, tie_break_key@, j);
    assert(result == candidates@[j].0);
}

/// The counters: a new one knows no url, counting up and down changes one url by one, and a count
/// that reaches zero leaves no entry.
pub proof fn law_counters_count(
    empty: LoadCounts,
    counts: &mut LoadCounts,
    url: &str,
    other: Seq<char>,
    count: usize,
    up: usize,
)
    requires
        call_ensures(LoadCounts::new, (), empty),
        call_ensures(LoadCounts::count, (old(counts), url), count),
    ensures
        !empty@.contains_key(other),
        count == (if old(counts)@.contains_key(url@) {
            old(counts)@[url@]
        } else {
            0
        }),
        call_ensures(LoadCounts::increment, (counts, url), up) ==> {
            &&& up == count + 1
            &&& final(counts)@.contains_key(url@)
            &&& final(counts)@[url@] == up
            &&& other != url@ ==> (final(counts)@.contains_key(other) <==> old(
                counts,
            )@.contains_key(other))
            &&& other != url@ && old(counts)@.contains_key(other) ==> final(counts)@[other]
                == old(counts)@[other]
        },
        call_ensures(LoadCounts::decrement_count, (counts, url), ()) ==> {
            &&& final(counts)@.contains_key(url@) <==> count > 1
            &&& count > 1 ==> final(counts)@[url@] == count - 1
            &&& other != url@ ==> (final(counts)@.contains_key(other) <==> old(
                counts,
            )@.contains_key(other))
            &&& other != url@ && old(counts)@.contains_key(other) ==> final(counts)@[other]
                == old(counts)@[other]
        },
{
}

} // verus!
