//! Snapshot of the replicas behind the router.

use vstd::prelude::*;

verus! {

/// What routing needs to know of a replica.
#[derive(Debug)]
pub struct Worker {
    pub url: String,
    pub healthy: bool,
}

/// The positions of the healthy replicas.
pub open spec fn healthy(workers: Seq<Worker>) -> Set<int> {
    Set::new(|i: int| 0 <= i < workers.len() && workers[i].healthy)
}

/// Some replica is healthy.
pub open spec fn any_healthy(workers: Seq<Worker>) -> bool {
    exists|i: int| #[trigger] healthy(workers).contains(i)
}

/// The urls of the replicas.
pub open spec fn worker_urls(workers: Seq<Worker>) -> Seq<Seq<char>> {
    workers.map_values(|w: Worker| w.url@)
}

/// A healthy replica answers at `url`.
pub open spec fn serves(workers: Seq<Worker>, url: Seq<char>) -> bool {
    exists|i: int| #[trigger] healthy(workers).contains(i) && workers[i].url@ == url
}

/// `j` is the first healthy replica at `url`.
pub open spec fn first_healthy_at(workers: Seq<Worker>, url: Seq<char>, j: int) -> bool {
    &&& healthy(workers).contains(j)
    &&& workers[j].url@ == url
    &&& forall|i: int| #[trigger]
        healthy(workers).contains(i) && workers[i].url@ == url ==> j <= i
}

/// The candidates are the healthy replicas with their urls, in the order of the replicas.
pub open spec fn are_candidates(workers: Seq<Worker>, candidates: Seq<(usize, String)>) -> bool {
    &&& forall|k: int|
        0 <= k < candidates.len() ==> {
            &&& healthy(workers).contains((#[trigger] candidates[k]).0 as int)
            &&& candidates[k].1@ == workers[candidates[k].0 as int].url@
        }
    &&& forall|k: int, l: int|
        0 <= k < l < candidates.len() ==> (#[trigger] candidates[k]).0 < (
        #[trigger] candidates[l]).0
    &&& forall|i: int| #[trigger]
        healthy(workers).contains(i) ==> exists|k: int|
            0 <= k < candidates.len() && (#[trigger] candidates[k]).0 == i
}

/// The healthy replicas, each with its position and url.
pub fn healthy_candidates(workers: &[Worker]) -> (result: Vec<(usize, String)>)
    ensures
        are_candidates(workers@, result@),
{
    let mut result: Vec<(usize, String)> = Vec::new();
    let mut i: usize = 0;
    while i < workers.len()
        invariant
            0 <= i <= workers@.len(),
            forall|k: int|
                0 <= k < result@.len() ==> {
                    &&& healthy(workers@).contains((#[trigger] result@[k]).0 as int)
                    &&& result@[k].1@ == workers@[result@[k].0 as int].url@
                    &&& result@[k].0 < i
                },
            forall|k: int, l: int|
                0 <= k < l < result@.len() ==> (#[trigger] result@[k]).0 < (
                #[trigger] result@[l]).0,
            forall|h: int| #[trigger]
                healthy(workers@).contains(h) && h < i ==> exists|k: int|
                    0 <= k < result@.len() && (#[trigger] result@[k]).0 == h,
        decreases workers@.len() - i,
    {
        let ghost before = result@;
        if workers[i].healthy {
            result.push((i, workers[i].url.clone()));
        }
        proof {
            assert forall|h: int| #[trigger]
                healthy(workers@).contains(h) && h < i + 1 implies exists|k: int|
                0 <= k < result@.len() && (#[trigger] result@[k]).0 == h by {
                if h < i {
                    let k = choose|k: int|
                        0 <= k < before.len() && (#[trigger] before[k]).0 == h;
                    assert(result@[k].0 == h);
                } else {
                    assert(result@[before.len() as int].0 == h);
                }
            }
        }
        i += 1;
    }
    result
}

/// Index of the first candidate at `url`.
pub fn find_candidate(candidates: &[(usize, String)], url: &String) -> (result: Option<usize>)
    ensures
        match result {
            Some(index) => exists|k: int|
                {
                    &&& 0 <= k < candidates@.len()
                    &&& index == (#[trigger] candidates@[k]).0
                    &&& candidates@[k].1@ == url@
                    &&& forall|l: int| 0 <= l < k ==> (#[trigger] candidates@[l]).1@ != url@
                },
            None => forall|k: int|
                0 <= k < candidates@.len() ==> (#[trigger] candidates@[k]).1@ != url@,
        },
{
    let mut i: usize = 0;
    while i < candidates.len()
        invariant
            0 <= i <= candidates@.len(),
            forall|k: int| 0 <= k < i ==> (#[trigger] candidates@[k]).1@ != url@,
        decreases candidates@.len() - i,
    {
        if candidates[i].1 == *url {
            return Some(candidates[i].0);
        }
        i += 1;
    }
    None
}

} // verus!
