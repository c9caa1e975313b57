//! Per-replica counters of active sessions.

use vstd::hash_map::StringHashMap;
use vstd::prelude::*;

verus! {

/// Replica url -> number of active sessions. A replica without sessions has no entry.
pub struct LoadCounts {
    counts: StringHashMap<usize>,
}

impl View for LoadCounts {
    type V = Map<Seq<char>, usize>;

    closed spec fn view(&self) -> Map<Seq<char>, usize> {
        self.counts@
    }
}

impl LoadCounts {
    /// The count kept for `url`, zero where there is no entry.
    pub open spec fn load(self, url: Seq<char>) -> nat {
        if self@.contains_key(url) {
            self@[url] as nat
        } else {
            0
        }
    }

    /// No entry holds a zero.
    pub open spec fn no_zero_entry(self) -> bool {
        forall|url: Seq<char>| #[trigger] self@.contains_key(url) ==> self@[url] > 0
    }

    /// No replica has any session.
    pub fn new() -> (result: Self)
        ensures
            result@ == Map::<Seq<char>, usize>::empty(),
    {
        LoadCounts { counts: StringHashMap::new() }
    }

    /// Number of active sessions on the replica at `url`.
    pub fn count(&self, url: &str) -> (result: usize)
        ensures
            result == self.load(url@),
    {
        match self.counts.get(url) {
            Some(count) => *count,
            None => 0,
        }
    }

    /// Count one more session on the replica at `url`; returns the new count.
    pub fn increment(&mut self, url: &str) -> (result: usize)
        requires
            old(self).load(url@) < usize::MAX,
        ensures
            result == old(self).load(url@) + 1,
            final(self)@ == old(self)@.insert(url@, result),
    {
        let count: usize = self.count(url) + 1;
        self.counts.insert(url.to_owned(), count);
        count
    }

    /// Count one session less on the replica at `url`, dropping the entry when it reaches zero.
    /// A replica without an entry stays without one.
    pub fn decrement_count(&mut self, url: &str)
        ensures
            final(self)@ == (if old(self).load(url@) > 1 {
                old(self)@.insert(url@, (old(self)@[url@] - 1) as usize)
            } else {
                old(self)@.remove(url@)
            }),
    {
        let count: usize = self.count(url);
        if count > 1 {
            self.counts.insert(url.to_owned(), count - 1);
        } else {
            self.counts.remove(url);
        }
    }

    /// Forget every count.
    pub fn clear(&mut self)
        ensures
            final(self)@ == Map::<Seq<char>, usize>::empty(),
    {
        self.counts.clear();
    }
}

} // verus!
