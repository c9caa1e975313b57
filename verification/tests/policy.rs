use std::cell::Cell;
use std::collections::HashMap;

use sticky_least_loaded::{
    StickyLeastLoadedPolicy, Worker, NANOS_PER_SEC, SWEEP_INTERVAL_SECS,
};

type RequestHeaders = HashMap<String, String>;

const START: u128 = 1_000_000_000_000;

fn fnv1a(text: &str) -> u64 {
    let mut hash: u64 = 0xcbf29ce484222325;
    for byte in text.bytes() {
        hash ^= byte as u64;
        hash = hash.wrapping_mul(0x100000001b3);
    }
    hash
}

/// The session that a request names: the `x-session-id` header, else the `session_id` of a flat
/// JSON body.
fn extract_session_id(
    request_text: Option<&str>,
    headers: Option<&RequestHeaders>,
) -> Option<String> {
    if let Some(id) = headers.and_then(|h| h.get("x-session-id")) {
        return Some(id.clone());
    }
    let rest = request_text?.split("\"session_id\": \"").nth(1)?;
    rest.split('"').next().map(|id| id.to_string())
}

fn make_workers(urls: &[&str]) -> Vec<Worker> {
    urls.iter().map(|url| Worker { url: url.to_string(), healthy: true }).collect()
}

fn header_with_session(session_id: &str) -> RequestHeaders {
    let mut headers: RequestHeaders = HashMap::new();
    headers.insert("x-session-id".to_string(), session_id.to_string());
    headers
}

fn select_at(
    policy: &mut StickyLeastLoadedPolicy,
    workers: &[Worker],
    request_text: Option<&str>,
    headers: Option<&RequestHeaders>,
    now: u128,
) -> Option<usize> {
    policy.select_worker_with_headers(
        workers,
        request_text,
        headers,
        now,
        &extract_session_id,
        &fnv1a,
    )
}

fn select(
    policy: &mut StickyLeastLoadedPolicy,
    workers: &[Worker],
    request_text: Option<&str>,
    headers: Option<&RequestHeaders>,
) -> Option<usize> {
    select_at(policy, workers, request_text, headers, START)
}

fn new_policy() -> StickyLeastLoadedPolicy {
    StickyLeastLoadedPolicy::new(None, START)
}

#[test]
fn test_same_session_sticky() {
    let mut policy = new_policy();
    let workers = make_workers(&["http://w1:8000", "http://w2:8000", "http://w3:8000"]);
    let headers = header_with_session("sess-1");

    let idx1 = select(&mut policy, &workers, None, Some(&headers));
    let idx2 = select(&mut policy, &workers, None, Some(&headers));
    let idx3 = select(&mut policy, &workers, None, Some(&headers));

    assert!(idx1.is_some());
    assert_eq!(idx1, idx2);
    assert_eq!(idx2, idx3);

    // Only one active session should be tracked across repeated requests.
    assert_eq!(policy.active_session_count(), 1);
}

#[test]
fn test_new_sessions_balance_across_replicas() {
    let mut policy = new_policy();
    let workers = make_workers(&["http://w1:8000", "http://w2:8000", "http://w3:8000"]);

    // Assign three distinct sessions; each should land on a distinct replica
    // because new sessions go to the least-loaded replica.
    for i in 0..3 {
        let headers = header_with_session(&format!("sess-{}", i));
        select(&mut policy, &workers, None, Some(&headers)).unwrap();
    }

    assert_eq!(policy.active_session_count(), 3);
    for w in &workers {
        assert_eq!(
            policy.active_count_for(&w.url),
            1,
            "expected each replica to hold exactly one session"
        );
    }
}

#[test]
fn test_finish_session_releases_capacity() {
    let mut policy = new_policy();
    let workers = make_workers(&["http://w1:8000", "http://w2:8000"]);

    let headers = header_with_session("sess-x");
    let idx = select(&mut policy, &workers, None, Some(&headers)).unwrap();
    let assigned_url = workers[idx].url.to_string();
    assert_eq!(policy.active_count_for(&assigned_url), 1);

    policy.finish_session("sess-x");
    assert_eq!(policy.active_session_count(), 0);
    assert_eq!(policy.active_count_for(&assigned_url), 0);
}

#[test]
fn test_finish_unknown_session_is_noop() {
    let mut policy = new_policy();
    // Should not panic and should leave state empty.
    policy.finish_session("does-not-exist");
    assert_eq!(policy.active_session_count(), 0);
}

#[test]
fn test_session_id_from_body() {
    let mut policy = new_policy();
    let workers = make_workers(&["http://w1:8000", "http://w2:8000"]);
    let body = r#"{"session_id": "body-sess", "prompt": "hi"}"#;

    let idx1 = select(&mut policy, &workers, Some(body), None);
    let idx2 = select(&mut policy, &workers, Some(body), None);
    assert_eq!(idx1, idx2);
    assert_eq!(policy.active_session_count(), 1);

    policy.finish_session("body-sess");
    assert_eq!(policy.active_session_count(), 0);
}

#[test]
fn test_stateless_requests_not_tracked() {
    let mut policy = new_policy();
    let workers = make_workers(&["http://w1:8000", "http://w2:8000"]);
    let body = r#"{"prompt": "no session here"}"#;

    let idx = select(&mut policy, &workers, Some(body), None);
    assert!(idx.is_some());
    // No session identifier -> nothing tracked.
    assert_eq!(policy.active_session_count(), 0);
}

#[test]
fn test_reassign_when_replica_unhealthy() {
    let mut policy = new_policy();
    let mut workers = make_workers(&["http://w1:8000", "http://w2:8000"]);
    let headers = header_with_session("sess-move");

    let idx = select(&mut policy, &workers, None, Some(&headers)).unwrap();
    let original_url = workers[idx].url.to_string();

    // Mark the assigned replica unhealthy; the session must be reassigned to
    // the remaining healthy replica.
    workers[idx].healthy = false;
    let new_idx = select(&mut policy, &workers, None, Some(&headers)).unwrap();
    assert_ne!(workers[new_idx].url, original_url);
    assert!(workers[new_idx].healthy);

    // Old replica should no longer hold the session.
    assert_eq!(policy.active_count_for(&original_url), 0);
    assert_eq!(policy.active_count_for(&workers[new_idx].url), 1);
}

#[test]
fn test_expired_session_is_swept() {
    // Zero expiration => any session is immediately eligible for expiry, but
    // the sweep only runs every SWEEP_INTERVAL_SECS. Force the sweep by
    // letting more than that pass since the last one.
    let mut policy = StickyLeastLoadedPolicy::with_expiration_secs(0, START);
    let workers = make_workers(&["http://w1:8000", "http://w2:8000"]);
    let headers = header_with_session("sess-ttl");

    select(&mut policy, &workers, None, Some(&headers)).unwrap();
    assert_eq!(policy.active_session_count(), 1);

    let later = START + (SWEEP_INTERVAL_SECS as u128 + 1) * NANOS_PER_SEC;

    // A subsequent request triggers the sweep, removing the expired session
    // and creating a fresh one.
    let other = header_with_session("sess-other");
    select_at(&mut policy, &workers, None, Some(&other), later).unwrap();
    // The expired session was swept; only the freshly created one remains.
    assert_eq!(policy.active_session_count(), 1);
    assert_eq!(
        policy.active_count_for("http://w1:8000") + policy.active_count_for("http://w2:8000"),
        1
    );
}

#[test]
fn no_healthy_worker_routes_nothing() {
    let mut policy = StickyLeastLoadedPolicy::with_expiration_secs(0, START);
    let mut workers = make_workers(&["a"]);
    let headers = header_with_session("s");
    assert_eq!(select(&mut policy, &[], None, Some(&headers)), None);
    assert_eq!(select(&mut policy, &workers, None, Some(&headers)), Some(0));

    // Not even the expiration sweep takes place.
    workers[0].healthy = false;
    let later = START + 1000 * NANOS_PER_SEC;
    assert_eq!(select_at(&mut policy, &workers, None, None, later), None);
    assert_eq!(policy.active_session_count(), 1);

    workers[0].healthy = true;
    assert_eq!(select_at(&mut policy, &workers, None, None, later), Some(0));
    assert_eq!(policy.active_session_count(), 0);
}

#[test]
fn session_comes_from_text_and_headers() {
    let mut policy = new_policy();
    let workers = make_workers(&["a"]);
    let extract = |text: Option<&str>, number: Option<&u32>| match (text, number) {
        (Some(text), Some(number)) => Some(format!("{}-{}", text, number)),
        _ => None,
    };
    for (text, number) in [(Some("t"), Some(&1u32)), (Some("t"), None), (None, Some(&2u32))] {
        let idx = policy
            .select_worker_with_headers(&workers, text, number, START, &extract, &fnv1a);
        assert_eq!(idx, Some(0));
    }
    assert_eq!(policy.active_session_count(), 1);
    policy.finish_session("t-1");
    assert_eq!(policy.active_session_count(), 0);
}

#[test]
fn session_is_looked_for_only_with_a_healthy_worker() {
    let mut policy = new_policy();
    let mut workers = make_workers(&["a"]);
    let calls = Cell::new(0u32);
    let extract = |_: Option<&str>, _: Option<&RequestHeaders>| {
        calls.set(calls.get() + 1);
        Some("s".to_string())
    };
    workers[0].healthy = false;
    let idx = policy.select_worker_with_headers(&workers, None, None, START, &extract, &fnv1a);
    assert_eq!(idx, None);
    assert_eq!(calls.get(), 0);
    assert_eq!(policy.active_session_count(), 0);
    workers[0].healthy = true;
    let idx = policy.select_worker_with_headers(&workers, None, None, START, &extract, &fnv1a);
    assert_eq!(idx, Some(0));
    assert_eq!(calls.get(), 1);
    assert_eq!(policy.replica_of("s"), Some("a"));
    assert_eq!(policy.replica_of("t"), None);
}

#[test]
fn sweep_lists_what_it_removes() {
    let mut policy = StickyLeastLoadedPolicy::with_expiration_secs(100, START);
    let workers = make_workers(&["a", "b"]);
    for (id, at) in [("s0", 0u128), ("s1", 10), ("s2", 50), ("s3", 20)] {
        let headers = header_with_session(id);
        let now = START + at * NANOS_PER_SEC;
        select_at(&mut policy, &workers, None, Some(&headers), now).unwrap();
    }
    assert_eq!(policy.sweep_expired(START + 59 * NANOS_PER_SEC), Vec::new());
    let expected: Vec<(String, String)> = ["s0", "s1", "s3"]
        .iter()
        .map(|id| (id.to_string(), policy.replica_of(id).unwrap().to_string()))
        .collect();
    let mut removed = policy.sweep_expired(START + 120 * NANOS_PER_SEC);
    removed.sort();
    assert_eq!(removed, expected);
    assert_eq!(policy.active_session_count(), 1);
    assert!(policy.replica_of("s2").is_some());
}

#[test]
fn earlier_sweep_leaves_no_trace() {
    let workers = make_workers(&["a", "b"]);
    let run = |sweeps: &[u128]| {
        let mut policy = StickyLeastLoadedPolicy::with_expiration_secs(100, START);
        for i in 0..50u32 {
            let headers = header_with_session(&format!("s{}", i));
            let now = START + i as u128 * NANOS_PER_SEC;
            select_at(&mut policy, &workers, None, Some(&headers), now).unwrap();
        }
        for at in sweeps {
            policy.sweep_expired(START + at * NANOS_PER_SEC);
        }
        let left: Vec<Option<String>> = (0..50u32)
            .map(|i| policy.replica_of(&format!("s{}", i)).map(|url| url.to_string()))
            .collect();
        (left, policy.active_count_for("a"), policy.active_count_for("b"))
    };
    for first in [60u128, 65, 75] {
        assert_eq!(run(&[first, 135]), run(&[135]));
    }
    assert_eq!(run(&[135]).0.iter().flatten().count(), 14);
}

#[test]
fn finish_undoes_all_requests() {
    let mut policy = new_policy();
    let mut workers = make_workers(&["a", "b"]);
    let other = header_with_session("other");
    let place = select(&mut policy, &workers, None, Some(&other)).unwrap();
    let headers = header_with_session("s");
    select(&mut policy, &workers, None, Some(&headers)).unwrap();
    workers[1 - place].healthy = false;
    select(&mut policy, &workers, None, Some(&headers)).unwrap();
    select(&mut policy, &workers, None, Some(&headers)).unwrap();
    assert_eq!(policy.active_count_for(&workers[place].url), 2);
    policy.finish_session("s");
    assert_eq!(policy.active_session_count(), 1);
    assert_eq!(policy.active_count_for(&workers[place].url), 1);
    assert_eq!(policy.active_count_for(&workers[1 - place].url), 0);
}

#[test]
fn highest_weight_wins_a_tie() {
    let mut policy = new_policy();
    let workers = make_workers(&["a", "bbb", "cc"]);
    let by_length = |text: &str| text.len() as u64;
    let idx = policy.select_worker_for_session(&workers, None, Some("s"), START, &by_length);
    assert_eq!(idx, Some(1));
    // The second session avoids the replica that already has one.
    let idx = policy.select_worker_for_session(&workers, None, Some("t"), START, &by_length);
    assert_eq!(idx, Some(2));
    let idx = policy.select_worker_for_session(&workers, None, Some("u"), START, &by_length);
    assert_eq!(idx, Some(0));
}

#[test]
fn first_of_equal_weights_wins() {
    let mut policy = new_policy();
    let mut workers = make_workers(&["a", "b", "c"]);
    workers[0].healthy = false;
    let constant = |_: &str| 7u64;
    let idx = policy.select_worker_for_session(&workers, None, Some("s"), START, &constant);
    assert_eq!(idx, Some(1));
}

#[test]
fn tie_break_key_is_session_id_or_request_text() {
    let workers = make_workers(&["a", "b"]);
    let prefers = |wanted: &'static str| move |text: &str| (text == wanted) as u64;

    let mut policy = new_policy();
    let idx = policy.select_worker_for_session(
        &workers, Some("body"), Some("id"), START, &prefers("id:b"),
    );
    assert_eq!(idx, Some(1));

    let mut policy = new_policy();
    let idx =
        policy.select_worker_for_session(&workers, Some("body"), None, START, &prefers("body:b"));
    assert_eq!(idx, Some(1));

    let mut policy = new_policy();
    let idx = policy.select_worker_for_session(&workers, None, None, START, &prefers(":b"));
    assert_eq!(idx, Some(1));
}

#[test]
fn stateless_request_goes_to_least_loaded() {
    let mut policy = new_policy();
    let workers = make_workers(&["a", "b"]);
    let headers = header_with_session("s");
    let busy = select(&mut policy, &workers, None, Some(&headers)).unwrap();
    for body in ["x", "y", "z"] {
        assert_eq!(select(&mut policy, &workers, Some(body), None), Some(1 - busy));
    }
    assert_eq!(policy.active_session_count(), 1);
}

#[test]
fn new_sessions_stay_balanced() {
    let mut policy = new_policy();
    let workers = make_workers(&["a", "b", "c", "d"]);
    for i in 0..50 {
        let headers = header_with_session(&format!("s{}", i));
        select(&mut policy, &workers, None, Some(&headers)).unwrap();
        let loads: Vec<usize> =
            workers.iter().map(|w| policy.active_count_for(&w.url)).collect();
        assert!(loads.iter().max().unwrap() - loads.iter().min().unwrap() <= 1);
        // Each replica has its share, rounded down or up.
        assert_eq!(*loads.iter().min().unwrap(), (i + 1) / 4);
        assert_eq!(*loads.iter().max().unwrap(), (i + 4) / 4);
        // The loads add up to the number of sessions.
        assert_eq!(loads.iter().sum::<usize>(), policy.active_session_count());
    }
}

#[test]
fn sessions_stick_whatever_happens_to_others() {
    let mut policy = new_policy();
    let workers = make_workers(&["a", "b", "c"]);
    let mut places: Vec<usize> = Vec::new();
    for i in 0..20 {
        let headers = header_with_session(&format!("s{}", i));
        places.push(select(&mut policy, &workers, None, Some(&headers)).unwrap());
    }
    for i in 0..10 {
        policy.finish_session(&format!("s{}", 2 * i));
    }
    for i in 0..10 {
        let headers = header_with_session(&format!("s{}", 2 * i + 1));
        let place = select(&mut policy, &workers, None, Some(&headers)).unwrap();
        assert_eq!(place, places[2 * i + 1]);
    }
    assert_eq!(policy.active_session_count(), 10);
}

#[test]
fn finish_undoes_assignment() {
    let mut policy = new_policy();
    let workers = make_workers(&["a", "b"]);
    let first = header_with_session("first");
    let second = header_with_session("second");
    let place = select(&mut policy, &workers, None, Some(&first)).unwrap();
    let other = select(&mut policy, &workers, None, Some(&second)).unwrap();
    assert_eq!(other, 1 - place);
    policy.finish_session("second");
    assert_eq!(policy.active_session_count(), 1);
    assert_eq!(policy.active_count_for(&workers[place].url), 1);
    assert_eq!(policy.active_count_for(&workers[other].url), 0);
    policy.finish_session("second");
    assert_eq!(policy.active_session_count(), 1);
}

#[test]
fn sweep_takes_expired_sessions_only() {
    let mut policy = StickyLeastLoadedPolicy::with_expiration_secs(100, START);
    let workers = make_workers(&["a", "b"]);
    let leaked = header_with_session("leaked");
    let used = header_with_session("used");
    select(&mut policy, &workers, None, Some(&leaked)).unwrap();
    let place = select(&mut policy, &workers, None, Some(&used)).unwrap();

    // One nanosecond short of the expiration of `leaked`: the sweep at this time keeps it.
    let t1 = START + 100 * NANOS_PER_SEC - 1;
    assert_eq!(select_at(&mut policy, &workers, None, Some(&used), t1), Some(place));
    assert_eq!(policy.active_session_count(), 2);

    // It is expired now, but the next sweep is not due yet.
    let t2 = t1 + 60 * NANOS_PER_SEC - 1;
    select_at(&mut policy, &workers, None, None, t2).unwrap();
    assert_eq!(policy.active_session_count(), 2);

    // The sweep is due: `leaked` goes, `used` stays.
    let t3 = t1 + 60 * NANOS_PER_SEC;
    select_at(&mut policy, &workers, None, None, t3).unwrap();
    assert_eq!(policy.active_session_count(), 1);
    assert_eq!(policy.active_count_for(&workers[place].url), 1);
    assert_eq!(policy.active_count_for(&workers[1 - place].url), 0);
}

#[test]
fn clock_that_steps_back_expires_nothing() {
    let mut policy = StickyLeastLoadedPolicy::with_expiration_secs(1, START);
    let workers = make_workers(&["a"]);
    let headers = header_with_session("s");
    select(&mut policy, &workers, None, Some(&headers)).unwrap();
    select_at(&mut policy, &workers, None, None, 0).unwrap();
    assert_eq!(policy.active_session_count(), 1);
}

#[test]
fn session_of_a_url_listed_twice_goes_to_the_first() {
    let mut policy = new_policy();
    let mut workers = make_workers(&["a", "a"]);
    let headers = header_with_session("s");
    assert_eq!(select(&mut policy, &workers, None, Some(&headers)), Some(0));
    workers[0].healthy = false;
    assert_eq!(select(&mut policy, &workers, None, Some(&headers)), Some(1));
    assert_eq!(policy.active_count_for("a"), 1);
}

#[test]
fn repeated_request_keeps_the_index_of_a_url_listed_twice() {
    let workers = make_workers(&["a", "b", "b", "a", "c", "c"]);
    for i in 0..20 {
        let mut policy = new_policy();
        let headers = header_with_session(&format!("s{}", i));
        let first = select(&mut policy, &workers, None, Some(&headers)).unwrap();
        // The choice is the first entry of its url.
        assert_eq!(workers.iter().position(|w| w.url == workers[first].url), Some(first));
        assert_eq!(select(&mut policy, &workers, None, Some(&headers)), Some(first));
    }
}

#[test]
fn mixed_requests_spread_evenly() {
    let mut policy = new_policy();
    let workers = make_workers(&["a", "b", "c"]);
    for i in 0..60u32 {
        // New, repeated and stateless requests in turn.
        let id = format!("s{}", i / 3);
        let headers = if i % 3 == 2 { None } else { Some(header_with_session(&id)) };
        select(&mut policy, &workers, Some("text"), headers.as_ref()).unwrap();
        let n: usize = i as usize / 3 + 1;
        assert_eq!(policy.active_session_count(), n);
        for w in &workers {
            let load = policy.active_count_for(&w.url);
            assert!(n / 3 <= load && load <= (n + 2) / 3);
        }
    }
}

#[test]
fn moved_session_goes_to_the_least_loaded() {
    let mut policy = new_policy();
    let mut workers = make_workers(&["a", "b", "c"]);
    for id in ["s0", "s1", "s2"] {
        select(&mut policy, &workers, None, Some(&header_with_session(id))).unwrap();
    }
    let place = |policy: &StickyLeastLoadedPolicy, id: &str| {
        let url = policy.replica_of(id).unwrap().to_string();
        ["a", "b", "c"].iter().position(|u| *u == url).unwrap()
    };
    // `s1` gives its replica free; `s0` must move there.
    let free = place(&policy, "s1");
    policy.finish_session("s1");
    workers[place(&policy, "s0")].healthy = false;
    let headers = header_with_session("s0");
    assert_eq!(select(&mut policy, &workers, None, Some(&headers)), Some(free));
    assert_eq!(policy.active_count_for(&workers[place(&policy, "s2")].url), 1);
}

#[test]
fn choice_does_not_depend_on_order_or_on_other_replicas() {
    let urls = ["http://w1:8000", "http://w2:8000", "http://w3:8000"];
    for i in 0..10 {
        let headers = header_with_session(&format!("s{}", i));
        let workers = make_workers(&urls);
        let place = select(&mut new_policy(), &workers, None, Some(&headers)).unwrap();

        let mut reversed = make_workers(&urls);
        reversed.reverse();
        let other = select(&mut new_policy(), &reversed, None, Some(&headers)).unwrap();
        assert_eq!(reversed[other].url, workers[place].url);

        let mut remaining = make_workers(&urls);
        remaining[(place + 1) % 3].healthy = false;
        assert_eq!(select(&mut new_policy(), &remaining, None, Some(&headers)), Some(place));
    }
}

#[test]
fn reset_forgets_all_sessions() {
    let mut policy = StickyLeastLoadedPolicy::with_expiration_secs(0, START);
    let workers = make_workers(&["a", "b"]);
    for i in 0..5 {
        let headers = header_with_session(&format!("s{}", i));
        select(&mut policy, &workers, None, Some(&headers)).unwrap();
    }
    let later = START + 100 * NANOS_PER_SEC;
    policy.reset(later);
    assert_eq!(policy.active_session_count(), 0);
    assert_eq!(policy.active_count_for("a"), 0);
    assert_eq!(policy.active_count_for("b"), 0);

    // The next sweep is due an interval after the reset, not before.
    let headers = header_with_session("s");
    select_at(&mut policy, &workers, None, Some(&headers), later).unwrap();
    select_at(&mut policy, &workers, None, None, later + 59 * NANOS_PER_SEC).unwrap();
    assert_eq!(policy.active_session_count(), 1);
    select_at(&mut policy, &workers, None, None, later + 60 * NANOS_PER_SEC).unwrap();
    assert_eq!(policy.active_session_count(), 0);
}

#[test]
fn expiration_comes_from_the_setting() {
    let mut policy = StickyLeastLoadedPolicy::new(Some(" 90 "), START);
    let workers = make_workers(&["a"]);
    let headers = header_with_session("s");
    select(&mut policy, &workers, None, Some(&headers)).unwrap();
    select_at(&mut policy, &workers, None, None, START + 89 * NANOS_PER_SEC).unwrap();
    assert_eq!(policy.active_session_count(), 1);
    select_at(&mut policy, &workers, None, None, START + 149 * NANOS_PER_SEC).unwrap();
    assert_eq!(policy.active_session_count(), 0);
}

#[test]
fn describes_itself() {
    let policy = new_policy();
    assert_eq!(policy.name(), "sticky_least_loaded");
    assert!(policy.needs_request_text());
    assert!(policy.needs_headers());
}
