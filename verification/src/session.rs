//! The table of active sessions: constant-time lookup by id, and a walk over all entries by
//! position for the expiration sweep.

use vstd::hash_map::StringHashMap;
use vstd::prelude::*;

use crate::model::SessionView;

verus! {

/// Bookkeeping for a single active session.
#[derive(Debug)]
pub struct SessionEntry {
    pub worker_url: String,
    pub last_access: u128,
}

impl View for SessionEntry {
    type V = SessionView;

    open spec fn view(&self) -> SessionView {
        SessionView { worker_url: self.worker_url@, last_access: self.last_access as int }
    }
}

/// Session id -> [`SessionEntry`]. The entries stand in a vector, in no particular order;
/// `positions` says where each id stands.
pub struct SessionTable {
    entries: Vec<(String, SessionEntry)>,
    positions: StringHashMap<usize>,
}

impl View for SessionTable {
    type V = Map<Seq<char>, SessionView>;

    closed spec fn view(&self) -> Map<Seq<char>, SessionView> {
        Map::new(
            |id: Seq<char>| self.positions@.contains_key(id),
            |id: Seq<char>| self.entries@[self.positions@[id] as int].1@,
        )
    }
}

impl SessionTable {
    /// The positions are exactly those of the entries; in particular no id occurs twice.
    pub closed spec fn wf(self) -> bool {
        &&& forall|id: Seq<char>| #[trigger]
            self.positions@.contains_key(id) ==> {
                &&& self.positions@[id] < self.entries@.len()
                &&& self.entries@[self.positions@[id] as int].0@ == id
            }
        &&& forall|i: int|
            0 <= i < self.entries@.len() ==> {
                &&& self.positions@.contains_key((#[trigger] self.entries@[i]).0@)
                &&& self.positions@[self.entries@[i].0@] == i
            }
    }

    /// How many entries there are.
    pub closed spec fn spec_len(self) -> nat {
        self.entries@.len()
    }

    /// The id at a position.
    pub closed spec fn id_at(self, i: int) -> Seq<char> {
        self.entries@[i].0@
    }

    /// The positions enumerate the ids, each once.
    pub proof fn lemma_enumerates(self)
        requires
            self.wf(),
        ensures
            self@.dom().finite(),
            self@.dom().len() == self.spec_len(),
            self.spec_len() <= usize::MAX,
            forall|i: int|
                0 <= i < self.spec_len() ==> self@.contains_key(#[trigger] self.id_at(i)),
            forall|id: Seq<char>| #[trigger]
                self@.contains_key(id) ==> exists|i: int|
                    0 <= i < self.spec_len() && #[trigger] self.id_at(i) == id,
            forall|i: int, j: int|
                0 <= i < self.spec_len() && 0 <= j < self.spec_len() && i != j ==> #[trigger]
                self.id_at(i) != #[trigger] self.id_at(j),
    {
        assert(self.entries.len() == self.spec_len());
        let ids = self.entries@.map_values(|e: (String, SessionEntry)| e.0@);
        assert forall|i: int, j: int|
            0 <= i < self.spec_len() && 0 <= j < self.spec_len() && i != j implies #[trigger]
            self.id_at(i) != #[trigger] self.id_at(j) by {
            assert(self.positions@[self.entries@[i].0@] == i);
            assert(self.positions@[self.entries@[j].0@] == j);
        }
        assert(ids.no_duplicates()) by {
            assert forall|i: int, j: int|
                0 <= i < ids.len() && 0 <= j < ids.len() && i != j implies ids[i] != ids[j] by {
                assert(ids[i] == self.id_at(i) && ids[j] == self.id_at(j));
            }
        }
        assert forall|id: Seq<char>| #[trigger] self@.contains_key(id) implies exists|i: int|
            0 <= i < self.spec_len() && #[trigger] self.id_at(i) == id by {
            assert(self.id_at(self.positions@[id] as int) == id);
        }
        assert(ids.to_set() =~= self@.dom()) by {
            assert forall|id: Seq<char>| #[trigger]
                ids.to_set().contains(id) implies self@.dom().contains(id) by {
                let i = choose|i: int| 0 <= i < ids.len() && ids[i] == id;
                assert(self.entries@[i].0@ == id);
            }
            assert forall|id: Seq<char>| #[trigger]
                self@.dom().contains(id) implies ids.to_set().contains(id) by {
                assert(ids[self.positions@[id] as int] == id);
            }
        }
        ids.unique_seq_to_set();
        vstd::seq_lib::seq_to_set_is_finite(ids);
    }

    /// A table without sessions.
    pub fn new() -> (result: Self)
        ensures
            result.wf(),
            result@ == Map::<Seq<char>, SessionView>::empty(),
    {
        let result = SessionTable { entries: Vec::new(), positions: StringHashMap::new() };
        assert(result@ =~= Map::<Seq<char>, SessionView>::empty());
        result
    }

    /// Number of sessions.
    pub fn len(&self) -> (result: usize)
        requires
            self.wf(),
        ensures
            result == self.spec_len(),
            result == self@.dom().len(),
    {
        proof {
            self.lemma_enumerates();
        }
        self.entries.len()
    }

    /// The entry of a session, if it is in the table.
    pub fn get(&self, id: &str) -> (result: Option<&SessionEntry>)
        requires
            self.wf(),
        ensures
            match result {
                Some(entry) => self@.contains_key(id@) && entry@ == self@[id@],
                None => !self@.contains_key(id@),
            },
    {
        match self.positions.get(id) {
            Some(position) => Some(&self.entries[*position].1),
            None => None,
        }
    }

    /// The entry at a position.
    pub fn entry_at(&self, i: usize) -> (result: &SessionEntry)
        requires
            self.wf(),
            i < self.spec_len(),
        ensures
            result@ == self@[self.id_at(i as int)],
    {
        proof {
            assert(self.positions@[self.entries@[i as int].0@] == i);
        }
        &self.entries[i].1
    }

    /// Add a session that is not in the table yet.
    pub fn insert_new(&mut self, id: &str, entry: SessionEntry)
        requires
            old(self).wf(),
            !old(self)@.contains_key(id@),
        ensures
            final(self).wf(),
            final(self)@ == old(self)@.insert(id@, entry@),
            final(self).spec_len() == old(self).spec_len() + 1,
            final(self).id_at(old(self).spec_len() as int) == id@,
            forall|k: int|
                0 <= k < old(self).spec_len() ==> #[trigger] final(self).id_at(k) == old(
                    self,
                ).id_at(k),
    {
        let position: usize = self.entries.len();
        self.entries.push((id.to_owned(), entry));
        self.positions.insert(id.to_owned(), position);
        proof {
            assert forall|i: int| 0 <= i < self.entries@.len() implies {
                &&& self.positions@.contains_key((#[trigger] self.entries@[i]).0@)
                &&& self.positions@[self.entries@[i].0@] == i
            } by {
                if i < position {
                    assert(self.entries@[i] == old(self).entries@[i]);
                    assert(old(self).positions@.contains_key(old(self).entries@[i].0@));
                }
            }
            assert(self@ =~= old(self)@.insert(id@, entry@));
        }
    }

    /// Note that a session was used at `now`.
    pub fn touch(&mut self, id: &str, now: u128)
        requires
            old(self).wf(),
        ensures
            final(self).wf(),
            final(self)@ == (if old(self)@.contains_key(id@) {
                old(self)@.insert(
                    id@,
                    SessionView {
                        worker_url: old(self)@[id@].worker_url,
                        last_access: now as int,
                    },
                )
            } else {
                old(self)@
            }),
            final(self).spec_len() == old(self).spec_len(),
            forall|k: int|
                0 <= k < old(self).spec_len() ==> #[trigger] final(self).id_at(k) == old(
                    self,
                ).id_at(k),
    {
        match self.positions.get(id) {
            Some(position) => {
                let i: usize = *position;
                self.entries[i].1.last_access = now;
            },
            None => {},
        }
        proof {
            assert(forall|i: int|
                0 <= i < self.entries@.len() ==> (#[trigger] self.entries@[i]).0 == old(
                    self,
                ).entries@[i].0);
            assert(self@ =~= if old(self)@.contains_key(id@) {
                old(self)@.insert(
                    id@,
                    SessionView {
                        worker_url: old(self)@[id@].worker_url,
                        last_access: now as int,
                    },
                )
            } else {
                old(self)@
            });
        }
    }

    /// Take out the session at a position, with its id. The last entry moves into the gap.
    pub fn remove_at(&mut self, i: usize) -> (result: (String, SessionEntry))
        requires
            old(self).wf(),
            i < old(self).spec_len(),
        ensures
            final(self).wf(),
            result.0@ == old(self).id_at(i as int),
            result.1@ == old(self)@[old(self).id_at(i as int)],
            final(self)@ == old(self)@.remove(old(self).id_at(i as int)),
            final(self).spec_len() == old(self).spec_len() - 1,
            forall|k: int|
                0 <= k < final(self).spec_len() ==> #[trigger] final(self).id_at(k) == old(
                    self,
                ).id_at(
                    if k == i {
                        final(self).spec_len() as int
                    } else {
                        k
                    },
                ),
    {
        proof {
            self.lemma_enumerates();
        }
        let last: usize = self.entries.len() - 1;
        let (id, entry) = self.entries.swap_remove(i);
        self.positions.remove(id.as_str());
        if i < last {
            let moved: String = self.entries[i].0.clone();
            self.positions.insert(moved, i);
        }
        proof {
            let before = old(self).entries@;
            assert(forall|k: int|
                0 <= k < last && k != i ==> #[trigger] self.entries@[k] == before[k]);
            assert(i < last ==> self.entries@[i as int] == before[last as int]);
            assert forall|k: int| 0 <= k < self.entries@.len() implies {
                &&& self.positions@.contains_key((#[trigger] self.entries@[k]).0@)
                &&& self.positions@[self.entries@[k].0@] == k
            } by {
                assert(old(self).id_at(k) == before[k].0@);
                assert(old(self).id_at(i as int) == before[i as int].0@);
                assert(old(self).id_at(last as int) == before[last as int].0@);
            }
            assert forall|k: Seq<char>| #[trigger] self.positions@.contains_key(k) implies {
                &&& self.positions@[k] < self.entries@.len()
                &&& self.entries@[self.positions@[k] as int].0@ == k
            } by {
                if i < last && k == before[last as int].0@ {
                } else {
                    assert(old(self).positions@.contains_key(k));
                    let p = old(self).positions@[k] as int;
                    assert(before[p].0@ == k);
                    assert(old(self).id_at(p) == k);
                    assert(p != i && p != last);
                }
            }
            assert forall|k: Seq<char>| #[trigger] old(self)@.contains_key(k) && k != id@ implies {
                &&& self@.contains_key(k)
                &&& self@[k] == old(self)@[k]
            } by {
                let p = old(self).positions@[k] as int;
                assert(before[p].0@ == k);
                if p == last {
                    assert(self.positions@[k] == i);
                } else {
                    assert(self.entries@[p] == before[p]);
                }
            }
            assert(self@ =~= old(self)@.remove(id@));
        }
        (id, entry)
    }

    /// Take out a session, if it is in the table.
    pub fn remove(&mut self, id: &str) -> (result: Option<SessionEntry>)
        requires
            old(self).wf(),
        ensures
            final(self).wf(),
            final(self)@ == old(self)@.remove(id@),
            match result {
                Some(entry) => old(self)@.contains_key(id@) && entry@ == old(self)@[id@],
                None => !old(self)@.contains_key(id@),
            },
    {
        match self.positions.get(id) {
            Some(position) => {
                let i: usize = *position;
                Some(self.remove_at(i).1)
            },
            None => {
                assert(self@.remove(id@) =~= self@);
                None
            },
        }
    }

    /// Forget every session.
    pub fn clear(&mut self)
        ensures
            final(self).wf(),
            final(self)@ == Map::<Seq<char>, SessionView>::empty(),
    {
        self.entries.clear();
        self.positions.clear();
        assert(self@ =~= Map::<Seq<char>, SessionView>::empty());
    }
}

} // verus!
