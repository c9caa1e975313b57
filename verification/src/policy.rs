//! Sticky least-loaded session routing.

use vstd::prelude::*;

#[allow(unused_imports)]
use crate::expiration::configured_expiration;
use crate::expiration::{elapsed, expiration_secs_from_env, SWEEP_INTERVAL_SECS};
#[allow(unused_imports)]
use crate::guarantees::law_candidates_are_the_healthy_workers;
use crate::load::LoadCounts;
#[allow(unused_imports)]
use crate::model::{
    lemma_load_bound, lemma_load_insert_new, lemma_load_remove, lemma_load_touch, load_of,
    sessions_on,
};
use crate::model::{PolicyView, SessionView};
#[allow(unused_imports)]
use crate::routing::{chosen, lemma_elected_candidate_is_chosen, routed, string_of, text_of};
use crate::selection::select_least_loaded;
#[allow(unused_imports)]
use crate::selection::{candidate_urls, counted_loads, elected, positions};
use crate::session::{SessionEntry, SessionTable};
#[allow(unused_imports)]
use crate::worker::{any_healthy, are_candidates, healthy};
use crate::worker::{find_candidate, healthy_candidates, Worker};

verus! {

/// Sticky least-loaded routing policy.
///
/// Time points are nanoseconds of one clock of the caller's choice.
pub struct StickyLeastLoadedPolicy {
    /// Session id -> assigned replica.
    sessions: SessionTable,
    /// Replica url -> number of active sessions.
    active_counts: LoadCounts,
    /// Time of the last expiration sweep.
    last_sweep: u128,
    /// How long a session may stay unused.
    session_expiration_secs: u64,
}

impl View for StickyLeastLoadedPolicy {
    type V = PolicyView;

    closed spec fn view(&self) -> PolicyView {
        PolicyView {
            sessions: self.sessions@,
            last_sweep: self.last_sweep as int,
            expiration_secs: self.session_expiration_secs as int,
        }
    }
}

/// The counters hold the load of every replica, and an entry only where there is some load.
pub open spec fn counts_match(counts: LoadCounts, sessions: Map<Seq<char>, SessionView>) -> bool {
    &&& counts.no_zero_entry()
    &&& forall|url: Seq<char>| #[trigger] counts.load(url) == load_of(sessions, url)
}

/// `removed` lists the sessions that `before` has and `after` lacks, each once and with the url of
/// its replica.
pub open spec fn lists_removed(
    before: Map<Seq<char>, SessionView>,
    after: Map<Seq<char>, SessionView>,
    removed: Seq<(String, String)>,
) -> bool {
    &&& forall|k: int|
        0 <= k < removed.len() ==> {
            &&& before.contains_key((#[trigger] removed[k]).0@)
            &&& !after.contains_key(removed[k].0@)
            &&& before[removed[k].0@].worker_url == removed[k].1@
        }
    &&& forall|k: int, l: int|
        0 <= k < l < removed.len() ==> (#[trigger] removed[k]).0@ != (#[trigger] removed[l]).0@
    &&& forall|id: Seq<char>| #[trigger]
        before.contains_key(id) && !after.contains_key(id) ==> exists|k: int|
            0 <= k < removed.len() && (#[trigger] removed[k]).0@ == id
}

/// The counters still match when a session goes and the counter of its replica is decremented.
proof fn lemma_counts_after_removal(
    before: LoadCounts,
    after: LoadCounts,
    sessions: Map<Seq<char>, SessionView>,
    id: Seq<char>,
)
    requires
        sessions.dom().finite(),
        sessions.contains_key(id),
        counts_match(before, sessions),
        after@ == (if before.load(sessions[id].worker_url) > 1 {
            before@.insert(
                sessions[id].worker_url,
                (before@[sessions[id].worker_url] - 1) as usize,
            )
        } else {
            before@.remove(sessions[id].worker_url)
        }),
    ensures
        counts_match(after, sessions.remove(id)),
{
    assert forall|url: Seq<char>| #[trigger] after.load(url) == load_of(
        sessions.remove(id),
        url,
    ) by {
        lemma_load_remove(sessions, id, url);
        assert(before.load(url) == load_of(sessions, url));
    }
}

/// Without sessions, empty counters match.
proof fn lemma_no_sessions_no_load(counts: LoadCounts, sessions: Map<Seq<char>, SessionView>)
    requires
        counts@ == Map::<Seq<char>, usize>::empty(),
        sessions == Map::<Seq<char>, SessionView>::empty(),
    ensures
        counts_match(counts, sessions),
{
    assert forall|url: Seq<char>| #[trigger] counts.load(url) == load_of(sessions, url) by {
        assert(sessions_on(sessions, url) =~= Set::empty());
    }
}

impl StickyLeastLoadedPolicy {
    /// The table is well formed and the counters agree with it.
    pub closed spec fn wf(self) -> bool {
        &&& self.sessions.wf()
        &&& counts_match(self.active_counts, self.sessions@)
    }

    /// The counters: replica url -> number of active sessions.
    pub closed spec fn counters(self) -> Map<Seq<char>, usize> {
        self.active_counts@
    }

    /// The counters are exact: a replica has an entry if and only if some session is assigned to
    /// it, and the entry is the number of these sessions. Every method keeps this, as it keeps
    /// [`wf`](StickyLeastLoadedPolicy::wf).
    pub proof fn law_counters_are_exact(self)
        requires
            self.wf(),
        ensures
            forall|url: Seq<char>| #[trigger]
                self.counters().contains_key(url) <==> load_of(self@.sessions, url) > 0,
            forall|url: Seq<char>| #[trigger]
                self.counters().contains_key(url) ==> self.counters()[url] == load_of(
                    self@.sessions,
                    url,
                ),
    {
        assert forall|url: Seq<char>| #[trigger]
            self.counters().contains_key(url) <==> load_of(self@.sessions, url) > 0 by {
            assert(self.active_counts.load(url) == load_of(self@.sessions, url));
        }
        assert forall|url: Seq<char>| #[trigger]
            self.counters().contains_key(url) implies self.counters()[url] == load_of(
            self@.sessions,
            url,
        ) by {
            assert(self.active_counts.load(url) == load_of(self@.sessions, url));
        }
    }

    /// The counters carry nothing that the sessions do not say: equal sessions, equal counters.
    pub proof fn law_sessions_determine_counters(self, other: Self)
        requires
            self.wf(),
            other.wf(),
            self@.sessions == other@.sessions,
        ensures
            self.counters() == other.counters(),
    {
        self.law_counters_are_exact();
        other.law_counters_are_exact();
        assert(self.counters() =~= other.counters());
    }

    /// Only finitely many sessions are tracked.
    pub proof fn lemma_sessions_finite(self)
        requires
            self.wf(),
        ensures
            self@.sessions.dom().finite(),
    {
        self.sessions.lemma_enumerates();
    }

    /// Create a new policy with the session expiration that the environment sets: `setting` is
    /// the value of [`SESSION_EXPIRATION_ENV`](crate::SESSION_EXPIRATION_ENV), `None` where it is
    /// not set.
    pub fn new(setting: Option<&str>, now: u128) -> (result: Self)
        ensures
            result.wf(),
            result@ == PolicyView::fresh(
                configured_expiration(text_of(setting)) as int,
                now as int,
            ),
            result@.sessions == Map::<Seq<char>, SessionView>::empty(),
            result@.last_sweep == now,
    {
        Self::with_expiration_secs(expiration_secs_from_env(setting), now)
    }

    /// Create a new policy with an explicit session expiration (in seconds).
    pub fn with_expiration_secs(secs: u64, now: u128) -> (result: Self)
        ensures
            result.wf(),
            result@ == PolicyView::fresh(secs as int, now as int),
            result@.sessions == Map::<Seq<char>, SessionView>::empty(),
            result@.last_sweep == now,
            result@.expiration_secs == secs,
    {
        let result = StickyLeastLoadedPolicy {
            sessions: SessionTable::new(),
            active_counts: LoadCounts::new(),
            last_sweep: now,
            session_expiration_secs: secs,
        };
        proof {
            lemma_no_sessions_no_load(result.active_counts, result.sessions@);
        }
        result
    }

    /// Remove sessions that have not been accessed within the expiration window. Runs at most
    /// once per [`SWEEP_INTERVAL_SECS`] to bound cost. Returns the removed sessions, each with the
    /// url of its replica.
    pub fn sweep_expired(&mut self, now: u128) -> (removed: Vec<(String, String)>)
        requires
            old(self).wf(),
        ensures
            final(self).wf(),
            final(self)@ == old(self)@.swept(now as int),
            forall|id: Seq<char>| #[trigger]
                final(self)@.sessions.contains_key(id) <==> old(self)@.sessions.contains_key(id)
                    && (now - old(self)@.last_sweep < 60 * 1_000_000_000 || (now
                    - old(self)@.sessions[id].last_access < old(self)@.expiration_secs
                    * 1_000_000_000 && 0 < old(self)@.expiration_secs)),
            lists_removed(old(self)@.sessions, final(self)@.sessions, removed@),
    {
        let mut removed: Vec<(String, String)> = Vec::new();
        if !elapsed(SWEEP_INTERVAL_SECS, self.last_sweep, now) {
            return removed;
        }
        let ghost before = self@;
        let mut i: usize = 0;
        while i < self.sessions.len()
            invariant
                self.wf(),
                i <= self.sessions.spec_len(),
                before == old(self)@,
                self.session_expiration_secs as int == before.expiration_secs,
                self.sessions@.submap_of(before.sessions),
                lists_removed(before.sessions, self.sessions@, removed@),
                forall|id: Seq<char>| #[trigger]
                    before.sessions.contains_key(id) && !self.sessions@.contains_key(id)
                        ==> before.is_expired(id, now as int),
                forall|k: int|
                    0 <= k < i ==> !before.is_expired(
                        #[trigger] self.sessions.id_at(k),
                        now as int,
                    ),
            decreases self.sessions.spec_len() - i,
        {
            let ghost id = self.sessions.id_at(i as int);
            proof {
                self.sessions.lemma_enumerates();
                assert(self.sessions@.dom().contains(id));
                assert(before.sessions.dom().contains(id));
                assert(before.sessions[id] == self.sessions@[id]);
            }
            let last_access: u128 = self.sessions.entry_at(i).last_access;
            if elapsed(self.session_expiration_secs, last_access, now) {
                let ghost sessions = self.sessions@;
                let ghost counts = self.active_counts;
                let ghost listed = removed@;
                let (removed_id, entry) = self.sessions.remove_at(i);
                self.active_counts.decrement_count(entry.worker_url.as_str());
                removed.push((removed_id, entry.worker_url));
                proof {
                    lemma_counts_after_removal(counts, self.active_counts, sessions, id);
                    assert forall|gone: Seq<char>| #[trigger]
                        before.sessions.contains_key(gone) && !self.sessions@.contains_key(
                            gone,
                        ) implies exists|k: int|
                        0 <= k < removed@.len() && (#[trigger] removed@[k]).0@ == gone by {
                        if gone == id {
                            assert(removed@[listed.len() as int].0@ == gone);
                        } else {
                            assert(!sessions.contains_key(gone));
                            let k = choose|k: int|
                                0 <= k < listed.len() && (#[trigger] listed[k]).0@ == gone;
                            assert(removed@[k].0@ == gone);
                        }
                    }
                }
            } else {
                i += 1;
            }
        }
        self.last_sweep = now;
        proof {
            self.sessions.lemma_enumerates();
            let kept = before.swept(now as int).sessions;
            assert forall|id: Seq<char>| #[trigger]
                self.sessions@.contains_key(id) implies kept.contains_key(id) by {
                let k = choose|k: int|
                    0 <= k < self.sessions.spec_len() && #[trigger] self.sessions.id_at(k) == id;
                assert(!before.is_expired(self.sessions.id_at(k), now as int));
            }
            assert(self.sessions@ =~= kept);
        }
        removed
    }

    /// Take out a session and give back its place on its replica.
    fn release(&mut self, session_id: &str)
        requires
            old(self).wf(),
        ensures
            final(self).wf(),
            final(self)@ == old(self)@.without(session_id@),
    {
        let ghost sessions = self.sessions@;
        let ghost counts = self.active_counts;
        proof {
            self.sessions.lemma_enumerates();
        }
        match self.sessions.remove(session_id) {
            Some(entry) => {
                self.active_counts.decrement_count(entry.worker_url.as_str());
                proof {
                    lemma_counts_after_removal(
                        counts,
                        self.active_counts,
                        sessions,
                        session_id@,
                    );
                }
            },
            None => {
                assert(sessions.remove(session_id@) =~= sessions);
            },
        }
    }

    /// Record a session that is not tracked yet on the replica at `worker_url`.
    fn assign(&mut self, session_id: &str, worker_url: &String, now: u128)
        requires
            old(self).wf(),
            !old(self)@.sessions.contains_key(session_id@),
        ensures
            final(self).wf(),
            final(self)@ == old(self)@.assigned(session_id@, worker_url@, now as int),
    {
        let ghost sessions = self.sessions@;
        let ghost counts = self.active_counts;
        let entry = SessionEntry { worker_url: worker_url.clone(), last_access: now };
        let ghost entry_view = entry@;
        self.sessions.insert_new(session_id, entry);
        proof {
            self.sessions.lemma_enumerates();
            assert(sessions =~= self.sessions@.remove(session_id@));
            assert forall|url: Seq<char>| #[trigger] counts.load(url) == load_of(
                sessions,
                url,
            ) implies load_of(self.sessions@, url) == counts.load(url) + (if url == worker_url@ {
                1nat
            } else {
                0nat
            }) by {
                lemma_load_insert_new(sessions, session_id@, entry_view, url);
            }
            lemma_load_bound(self.sessions@, worker_url@);
            assert(counts.load(worker_url@) < usize::MAX);
        }
        self.active_counts.increment(worker_url.as_str());
        proof {
            assert forall|url: Seq<char>| #[trigger] self.active_counts.load(url) == load_of(
                self.sessions@,
                url,
            ) by {
                assert(counts.load(url) == load_of(sessions, url));
            }
        }
    }

    /// Note that a session was used at `now`.
    fn touch(&mut self, session_id: &str, now: u128)
        requires
            old(self).wf(),
            old(self)@.sessions.contains_key(session_id@),
        ensures
            final(self).wf(),
            final(self)@ == old(self)@.assigned(
                session_id@,
                old(self)@.sessions[session_id@].worker_url,
                now as int,
            ),
    {
        self.sessions.touch(session_id, now);
        proof {
            let entry = self.sessions@[session_id@];
            assert forall|url: Seq<char>| #[trigger] self.active_counts.load(url) == load_of(
                self.sessions@,
                url,
            ) by {
                lemma_load_touch(old(self).sessions@, session_id@, entry, url);
                assert(old(self).active_counts.load(url) == load_of(old(self).sessions@, url));
            }
        }
    }

    /// The choice for `key` among the healthy replicas.
    fn choose_candidate<F: Fn(&str) -> u64>(
        &self,
        workers: &[Worker],
        candidates: &Vec<(usize, String)>,
        key: &str,
        hash: &F,
    ) -> (result: usize)
        requires
            self.wf(),
            are_candidates(workers@, candidates@),
            candidates@.len() > 0,
            forall|t: &str| call_requires(*hash, (t,)),
        ensures
            result < workers@.len(),
            chosen(*hash, workers@, self@.sessions, key@, result as int),
    {
        let result: usize = select_least_loaded(
            &self.active_counts,
            candidates.as_slice(),
            key,
            hash,
        );
        proof {
            let k = choose|k: int|
                0 <= k < candidates@.len() && result == (#[trigger] candidates@[k]).0 && elected(
                    *hash,
                    positions(candidates@.len()),
                    candidate_urls(candidates@),
                    counted_loads(self.active_counts, candidate_urls(candidates@)),
                    key@,
                    k,
                );
            lemma_elected_candidate_is_chosen(
                *hash,
                workers@,
                self.sessions@,
                self.active_counts,
                candidates@,
                key@,
                k,
            );
            assert(healthy(workers@).contains(result as int));
        }
        result
    }

    /// Route a request to a replica.
    ///
    /// `extract_session_id` finds the session that a request names in its text or its headers;
    /// `hash` is the router's consistent hash. Returns the index of the chosen worker, `None`
    /// where no worker is healthy.
    pub fn select_worker_with_headers<
        H,
        E: Fn(Option<&str>, Option<&H>) -> Option<String>,
        F: Fn(&str) -> u64,
    >(
        &mut self,
        workers: &[Worker],
        request_text: Option<&str>,
        headers: Option<&H>,
        now: u128,
        extract_session_id: &E,
        hash: &F,
    ) -> (result: Option<usize>)
        requires
            old(self).wf(),
            any_healthy(workers@) ==> call_requires(*extract_session_id, (request_text, headers)),
            forall|t: &str| call_requires(*hash, (t,)),
        ensures
            final(self).wf(),
            !any_healthy(workers@) ==> result is None && final(self)@ == old(self)@,
            result is Some <==> exists|i: int|
                0 <= i < workers@.len() && (#[trigger] workers@[i]).healthy,
            match result {
                Some(j) => j < workers@.len() && workers@[j as int].healthy,
                None => final(self)@ == old(self)@,
            },
            any_healthy(workers@) ==> exists|session_id: Option<String>|
                {
                    &&& #[trigger] call_ensures(
                        *extract_session_id,
                        (request_text, headers),
                        session_id,
                    )
                    &&& routed(
                        *hash,
                        old(self)@,
                        workers@,
                        text_of(request_text),
                        string_of(session_id),
                        now as int,
                        result,
                        final(self)@,
                    )
                },
    {
        let candidates = healthy_candidates(workers);
        proof {
            law_candidates_are_the_healthy_workers(workers@, candidates@);
        }
        if candidates.len() == 0 {
            return None;
        }
        assert(healthy(workers@).contains(candidates@[0].0 as int));
        let session_id: Option<String> = extract_session_id(request_text, headers);
        let id: Option<&str> = match &session_id {
            Some(id) => Some(id.as_str()),
            None => None,
        };
        let index: usize = self.route(workers, &candidates, request_text, id, now, hash);
        assert(healthy(workers@).contains(index as int));
        Some(index)
    }

    /// Route a request to a replica, given the session that the request names, if any.
    pub fn select_worker_for_session<F: Fn(&str) -> u64>(
        &mut self,
        workers: &[Worker],
        request_text: Option<&str>,
        session_id: Option<&str>,
        now: u128,
        hash: &F,
    ) -> (result: Option<usize>)
        requires
            old(self).wf(),
            forall|t: &str| call_requires(*hash, (t,)),
        ensures
            final(self).wf(),
            routed(
                *hash,
                old(self)@,
                workers@,
                text_of(request_text),
                text_of(session_id),
                now as int,
                result,
                final(self)@,
            ),
            result is Some <==> exists|i: int|
                0 <= i < workers@.len() && (#[trigger] workers@[i]).healthy,
            match result {
                Some(j) => {
                    &&& j < workers@.len()
                    &&& workers@[j as int].healthy
                    &&& match session_id {
                        Some(id) => {
                            &&& final(self)@.sessions.contains_key(id@)
                            &&& final(self)@.sessions[id@].worker_url == workers@[j as int].url@
                            &&& final(self)@.sessions[id@].last_access == now
                        },
                        None => true,
                    }
                },
                None => final(self)@ == old(self)@,
            },
            session_id is None ==> final(self)@.sessions.dom().subset_of(old(self)@.sessions.dom()),
    {
        let candidates = healthy_candidates(workers);
        proof {
            law_candidates_are_the_healthy_workers(workers@, candidates@);
        }
        if candidates.len() == 0 {
            return None;
        }
        let index: usize = self.route(
            workers,
            &candidates,
            request_text,
            session_id,
            now,
            hash,
        );
        assert(healthy(workers@).contains(index as int));
        Some(index)
    }

    /// Route a request to one of the candidates.
    fn route<F: Fn(&str) -> u64>(
        &mut self,
        workers: &[Worker],
        candidates: &Vec<(usize, String)>,
        request_text: Option<&str>,
        session_id: Option<&str>,
        now: u128,
        hash: &F,
    ) -> (result: usize)
        requires
            old(self).wf(),
            are_candidates(workers@, candidates@),
            candidates@.len() > 0,
            forall|t: &str| call_requires(*hash, (t,)),
        ensures
            final(self).wf(),
            routed(
                *hash,
                old(self)@,
                workers@,
                text_of(request_text),
                text_of(session_id),
                now as int,
                Some(result),
                final(self)@,
            ),
    {
        assert(healthy(workers@).contains(candidates@[0].0 as int));
        self.sweep_expired(now);

        // Requests without a session id: load-balance but don't record state.
        let id: &str = match session_id {
            Some(id) => id,
            None => {
                let key: &str = match request_text {
                    Some(text) => text,
                    None => "",
                };
                proof {
                    reveal_strlit("");
                    assert(request_text is None ==> key@ =~= Seq::<char>::empty());
                }
                return self.choose_candidate(workers, candidates, key, hash);
            },
        };

        // Existing session: route to the same replica if it is still healthy.
        let assigned: Option<String> = match self.sessions.get(id) {
            Some(entry) => Some(entry.worker_url.clone()),
            None => None,
        };
        if let Some(worker_url) = assigned {
            if let Some(index) = find_candidate(candidates.as_slice(), &worker_url) {
                self.touch(id, now);
                return index;
            }
        }

        // New session, or its replica is gone: assign to the least loaded replica.
        self.release(id);
        let index: usize = self.choose_candidate(workers, candidates, id, hash);
        self.assign(id, &workers[index].url, now);
        index
    }

    /// Release a session: it is tracked no longer and its replica has one session less. A session
    /// that is not tracked is ignored.
    pub fn finish_session(&mut self, session_id: &str)
        requires
            old(self).wf(),
        ensures
            final(self).wf(),
            final(self)@ == old(self)@.without(session_id@),
            final(self)@.sessions == old(self)@.sessions.remove(session_id@),
            final(self)@.last_sweep == old(self)@.last_sweep,
            final(self)@.expiration_secs == old(self)@.expiration_secs,
    {
        self.release(session_id);
    }

    /// Forget all sessions.
    pub fn reset(&mut self, now: u128)
        ensures
            final(self).wf(),
            final(self)@ == PolicyView::fresh(old(self)@.expiration_secs, now as int),
            final(self)@.sessions == Map::<Seq<char>, SessionView>::empty(),
            final(self)@.last_sweep == now,
            final(self)@.expiration_secs == old(self)@.expiration_secs,
    {
        self.sessions.clear();
        self.active_counts.clear();
        self.last_sweep = now;
        proof {
            lemma_no_sessions_no_load(self.active_counts, self.sessions@);
        }
    }

    /// Number of currently active (tracked) sessions.
    pub fn active_session_count(&self) -> (result: usize)
        requires
            self.wf(),
        ensures
            result == self@.sessions.len(),
    {
        self.sessions.len()
    }

    /// Number of active sessions assigned to a specific replica.
    pub fn active_count_for(&self, worker_url: &str) -> (result: usize)
        requires
            self.wf(),
        ensures
            result == load_of(self@.sessions, worker_url@),
            result == self@.sessions.dom().filter(
                |id: Seq<char>| self@.sessions[id].worker_url == worker_url@,
            ).len(),
    {
        proof {
            assert(sessions_on(self@.sessions, worker_url@) =~= self@.sessions.dom().filter(
                |id: Seq<char>| self@.sessions[id].worker_url == worker_url@,
            ));
        }
        self.active_counts.count(worker_url)
    }

    /// The url of the replica that a session is assigned to, `None` where it is not tracked.
    pub fn replica_of(&self, session_id: &str) -> (result: Option<&str>)
        requires
            self.wf(),
        ensures
            match result {
                Some(url) => {
                    &&& self@.sessions.contains_key(session_id@)
                    &&& url@ == self@.sessions[session_id@].worker_url
                },
                None => !self@.sessions.contains_key(session_id@),
            },
    {
        match self.sessions.get(session_id) {
            Some(entry) => Some(entry.worker_url.as_str()),
            None => None,
        }
    }

    /// The name of the policy.
    pub fn name(&self) -> (result: &'static str)
        ensures
            result@ == "sticky_least_loaded"@,
    {
        "sticky_least_loaded"
    }

    /// The text of a request is needed: it may name the session, and breaks ties without one.
    pub fn needs_request_text(&self) -> (result: bool)
        ensures
            result,
    {
        true
    }

    /// The headers of a request are needed: they may name the session.
    pub fn needs_headers(&self) -> (result: bool)
        ensures
            result,
    {
        true
    }
}

} // verus!
