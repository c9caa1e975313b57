//! Choice of a replica: least load first, ties broken by rendezvous hashing.

use vstd::prelude::*;

use crate::load::LoadCounts;

verus! {

/// The text whose hash is the rendezvous weight of the replica at `url` for `key`.
pub open spec fn tie_break_text(key: Seq<char>, url: Seq<char>) -> Seq<char> {
    key + seq![':'] + url
}

/// The hash function may answer `weight` for `text`.
pub open spec fn hashes_to<F: Fn(&str) -> u64>(hash: F, text: Seq<char>, weight: u64) -> bool {
    exists|t: &str| t@ == text && #[trigger] call_ensures(hash, (t,), weight)
}

/// Position `j` is eligible and no eligible position has a smaller load.
pub open spec fn least_loaded(eligible: Set<int>, loads: Seq<nat>, j: int) -> bool {
    &&& eligible.contains(j)
    &&& forall|i: int| #[trigger] eligible.contains(i) ==> loads[j] <= loads[i]
}

/// Position `j` is the first among the least loaded ones that has the highest weight.
pub open spec fn preferred(
    eligible: Set<int>,
    loads: Seq<nat>,
    weights: Seq<u64>,
    j: int,
) -> bool {
    &&& least_loaded(eligible, loads, j)
    &&& forall|i: int| #[trigger]
        least_loaded(eligible, loads, i) ==> {
            &&& weights[i] <= weights[j]
            &&& i < j ==> weights[i] < weights[j]
        }
}

/// Each least loaded position is weighed by the hash of its tie-break text, and `j` is preferred
/// under these weights.
pub open spec fn elected_by<F: Fn(&str) -> u64>(
    hash: F,
    eligible: Set<int>,
    urls: Seq<Seq<char>>,
    loads: Seq<nat>,
    key: Seq<char>,
    weights: Seq<u64>,
    j: int,
) -> bool {
    &&& weights.len() == urls.len()
    &&& forall|i: int| #[trigger]
        least_loaded(eligible, loads, i) ==> hashes_to(
            hash,
            tie_break_text(key, urls[i]),
            weights[i],
        )
    &&& preferred(eligible, loads, weights, j)
}

/// Position `j` is the choice among the eligible ones for `key`: it has the least load, and the
/// highest rendezvous weight among those that have it; the first such position if there are
/// several.
pub open spec fn elected<F: Fn(&str) -> u64>(
    hash: F,
    eligible: Set<int>,
    urls: Seq<Seq<char>>,
    loads: Seq<nat>,
    key: Seq<char>,
    j: int,
) -> bool {
    exists|weights: Seq<u64>| #[trigger] elected_by(hash, eligible, urls, loads, key, weights, j)
}

/// The positions of a sequence.
pub open spec fn positions(len: nat) -> Set<int> {
    Set::new(|i: int| 0 <= i < len)
}

/// The urls of the candidates.
pub open spec fn candidate_urls(candidates: Seq<(usize, String)>) -> Seq<Seq<char>> {
    candidates.map_values(|c: (usize, String)| c.1@)
}

/// The load of each url according to the counters.
pub open spec fn counted_loads(counts: LoadCounts, urls: Seq<Seq<char>>) -> Seq<nat> {
    urls.map_values(|url: Seq<char>| counts.load(url))
}

/// Rendezvous weight of the replica at `url` for `key`.
fn rendezvous_weight<F: Fn(&str) -> u64>(hash: &F, key: &str, url: &str) -> (weight: u64)
    requires
        forall|t: &str| call_requires(*hash, (t,)),
    ensures
        hashes_to(*hash, tie_break_text(key@, url@), weight),
{
    let mut text = key.to_owned();
    text.append(":");
    text.append(url);
    proof {
        reveal_strlit(":");
        assert(text@ =~= tie_break_text(key@, url@));
    }
    let text_ref: &str = text.as_str();
    hash(text_ref)
}

/// Smallest load among the candidates.
fn min_count(counts: &LoadCounts, candidates: &[(usize, String)]) -> (result: usize)
    requires
        candidates@.len() > 0,
    ensures
        exists|i: int|
            0 <= i < candidates@.len() && counts.load((#[trigger] candidates@[i]).1@) == result,
        forall|i: int|
            0 <= i < candidates@.len() ==> result <= counts.load((#[trigger] candidates@[i]).1@),
{
    let mut min: usize = counts.count(candidates[0].1.as_str());
    let mut i: usize = 1;
    while i < candidates.len()
        invariant
            1 <= i <= candidates@.len(),
            exists|k: int|
                0 <= k < candidates@.len() && counts.load((#[trigger] candidates@[k]).1@) == min,
            forall|k: int| 0 <= k < i ==> min <= counts.load((#[trigger] candidates@[k]).1@),
        decreases candidates@.len() - i,
    {
        let count: usize = counts.count(candidates[i].1.as_str());
        if count < min {
            min = count;
            assert(counts.load(candidates@[i as int].1@) == min);
        }
        i += 1;
    }
    min
}

/// Pick the least loaded replica among `candidates`, breaking ties with the rendezvous hash of
/// `tie_break_key`. Each candidate is a worker index and the url of that worker; returns the
/// chosen worker index.
pub fn select_least_loaded<F: Fn(&str) -> u64>(
    counts: &LoadCounts,
    candidates: &[(usize, String)],
    tie_break_key: &str,
    hash: &F,
) -> (result: usize)
    requires
        candidates@.len() > 0,
        forall|t: &str| call_requires(*hash, (t,)),
    ensures
        exists|j: int|
            0 <= j < candidates@.len() && result == (#[trigger] candidates@[j]).0 && elected(
                *hash,
                positions(candidates@.len()),
                candidate_urls(candidates@),
                counted_loads(*counts, candidate_urls(candidates@)),
                tie_break_key@,
                j,
            ),
{
    let min: usize = min_count(counts, candidates);
    let ghost eligible = positions(candidates@.len());
    let ghost urls = candidate_urls(candidates@);
    let ghost loads = counted_loads(*counts, urls);
    proof {
        let m = choose|m: int|
            0 <= m < candidates@.len() && counts.load((#[trigger] candidates@[m]).1@) == min;
        assert forall|i: int| #[trigger] least_loaded(eligible, loads, i) <==> (0 <= i
            < candidates@.len() && loads[i] == min) by {
            assert(eligible.contains(m));
            assert(loads[m] == min);
            assert forall|k: int| #[trigger] eligible.contains(k) implies min <= loads[k] by {
                assert(loads[k] == counts.load(candidates@[k].1@));
            }
        }
        assert(least_loaded(eligible, loads, m));
    }
    let mut best: Option<(usize, u64)> = None;
    let ghost mut best_at: int = -1;
    let ghost mut weights: Seq<u64> = Seq::empty();
    let mut i: usize = 0;
    while i < candidates.len()
        invariant
            0 <= i <= candidates@.len(),
            weights.len() == i,
            urls == candidate_urls(candidates@),
            loads == counted_loads(*counts, urls),
            forall|t: &str| call_requires(*hash, (t,)),
            forall|k: int|
                0 <= k < i && #[trigger] loads[k] == min ==> hashes_to(
                    *hash,
                    tie_break_text(tie_break_key@, urls[k]),
                    weights[k],
                ),
            match best {
                None => forall|k: int| 0 <= k < i ==> #[trigger] loads[k] != min,
                Some((index, weight)) => {
                    &&& 0 <= best_at < i
                    &&& loads[best_at] == min
                    &&& index == candidates@[best_at].0
                    &&& weight == weights[best_at]
                    &&& forall|k: int|
                        0 <= k < i && #[trigger] loads[k] == min ==> {
                            &&& weights[k] <= weight
                            &&& k < best_at ==> weights[k] < weight
                        }
                },
            },
        decreases candidates@.len() - i,
    {
        let index: usize = candidates[i].0;
        let url: &str = candidates[i].1.as_str();
        let ghost before = weights;
        if counts.count(url) == min {
            let weight: u64 = rendezvous_weight(hash, tie_break_key, url);
            proof {
                weights = before.push(weight);
            }
            match best {
                Some((_, best_weight)) if best_weight >= weight => {},
                _ => {
                    best = Some((index, weight));
                    proof {
                        best_at = i as int;
                    }
                },
            }
        } else {
            proof {
                weights = before.push(0);
            }
        }
        assert(loads[i as int] == counts.load(candidates@[i as int].1@));
        i += 1;
    }
    proof {
        assert(best is Some);
        assert(elected_by(*hash, eligible, urls, loads, tie_break_key@, weights, best_at));
    }
    match best {
        Some((index, _)) => index,
        None => candidates[0].0,
    }
}

} // verus!
