//! The in-memory map that serves reads.
//!
//! Entries live in a vector, in a stable order that a snapshot can walk,
//! and a hash index maps each key to its position, so that reads, writes
//! and deletes take constant expected time.

use vstd::hash_map::StringHashMap;
use vstd::prelude::*;

verus! {

/// The map from key to value that a sequence of pairs denotes: later
/// pairs overwrite earlier ones.
pub open spec fn pairs_to_map(pairs: Seq<(Seq<char>, Seq<char>)>) -> Map<Seq<char>, Seq<char>>
    decreases pairs.len(),
{
    if pairs.len() == 0 {
        Map::empty()
    } else {
        pairs_to_map(pairs.drop_last()).insert(pairs.last().0, pairs.last().1)
    }
}

/// No key occurs twice among the pairs.
pub open spec fn distinct_keys(pairs: Seq<(Seq<char>, Seq<char>)>) -> bool {
    forall|i: int, j: int|
        0 <= i < pairs.len() && 0 <= j < pairs.len() && i != j ==> pairs[i].0 != pairs[j].0
}

/// Some pair carries the key `k`.
pub open spec fn has_key(pairs: Seq<(Seq<char>, Seq<char>)>, k: Seq<char>) -> bool {
    exists|i: int| 0 <= i < pairs.len() && (#[trigger] pairs[i]).0 == k
}

/// The map of a sequence of pairs has exactly the keys that occur in it.
pub proof fn lemma_pairs_to_map_keys(pairs: Seq<(Seq<char>, Seq<char>)>, k: Seq<char>)
    ensures
        pairs_to_map(pairs).contains_key(k) <==> has_key(pairs, k),
    decreases pairs.len(),
{
    if pairs.len() > 0 {
        let front = pairs.drop_last();
        lemma_pairs_to_map_keys(front, k);
        if has_key(pairs, k) {
            let i = choose|i: int| 0 <= i < pairs.len() && (#[trigger] pairs[i]).0 == k;
            if i < pairs.len() - 1 {
                assert(front[i].0 == k);
            }
        }
        if pairs_to_map(pairs).contains_key(k) && k != pairs.last().0 {
            let i = choose|i: int| 0 <= i < front.len() && (#[trigger] front[i]).0 == k;
            assert(pairs[i].0 == k);
        }
        if k == pairs.last().0 {
            assert(pairs[pairs.len() - 1].0 == k);
        }
    }
}

/// With distinct keys, the map of a sequence of pairs holds each of the pairs.
pub proof fn lemma_pairs_to_map_distinct(pairs: Seq<(Seq<char>, Seq<char>)>, i: int)
    requires
        distinct_keys(pairs),
        0 <= i < pairs.len(),
    ensures
        pairs_to_map(pairs).contains_pair(pairs[i].0, pairs[i].1),
    decreases pairs.len(),
{
    let front = pairs.drop_last();
    let last_index = pairs.len() - 1;
    if i < last_index {
        assert forall|a: int, b: int|
            0 <= a < front.len() && 0 <= b < front.len() && a != b implies front[a].0
            != front[b].0 by {
            assert(front[a] == pairs[a] && front[b] == pairs[b]);
        }
        lemma_pairs_to_map_distinct(front, i);
        assert(front[i] == pairs[i]);
        assert(pairs[i].0 != pairs[last_index].0);
    }
}

pub struct InMemoryDB {
    entries: Vec<(String, String)>,
    index: StringHashMap<usize>,
}

impl View for InMemoryDB {
    type V = Map<Seq<char>, Seq<char>>;

    /// The mapping from key to value that the store holds.
    closed spec fn view(&self) -> Map<Seq<char>, Seq<char>> {
        Map::new(
            |k: Seq<char>| self.index@.contains_key(k),
            |k: Seq<char>| self.entries@[self.index@[k] as int].1@,
        )
    }
}

impl InMemoryDB {
    /// The index and the entries agree: each entry is indexed at its own
    /// position, and each indexed key points at an entry with that key.
    pub closed spec fn wf(&self) -> bool {
        &&& forall|i: int|
            0 <= i < self.entries@.len() ==> {
                &&& self.index@.contains_key(#[trigger] self.entries@[i].0@)
                &&& self.index@[self.entries@[i].0@] == i
            }
        &&& forall|k: Seq<char>| #[trigger]
            self.index@.contains_key(k) ==> {
                &&& self.index@[k] < self.entries@.len()
                &&& self.entries@[self.index@[k] as int].0@ == k
            }
    }

    /// The pairs of the store, each key once, in the store's own order.
    pub closed spec fn pairs(&self) -> Seq<(Seq<char>, Seq<char>)> {
        self.entries.deep_view()
    }

    /// The pairs of the store are the store: no key occurs twice among
    /// them, and the map they denote is the one the store holds.
    pub proof fn lemma_pairs(&self)
        requires
            self.wf(),
        ensures
            distinct_keys(self.pairs()),
            pairs_to_map(self.pairs()) == self@,
    {
        let pairs = self.pairs();
        assert forall|j: int| 0 <= j < pairs.len() implies pairs[j] == (
            self.entries[j].0@,
            self.entries[j].1@,
        ) by {}
        assert(distinct_keys(pairs)) by {
            assert forall|a: int, b: int|
                0 <= a < pairs.len() && 0 <= b < pairs.len() && a != b implies pairs[a].0
                != pairs[b].0 by {
                assert(self.index@[self.entries@[a].0@] == a);
                assert(self.index@[self.entries@[b].0@] == b);
            }
        }
        assert(pairs_to_map(pairs) =~= self@) by {
            assert forall|k: Seq<char>| self@.contains_key(k) implies pairs_to_map(
                pairs,
            ).contains_pair(k, self@[k]) by {
                let p = self.index@[k] as int;
                assert(pairs[p].0 == k);
                lemma_pairs_to_map_distinct(pairs, p);
            }
            assert forall|k: Seq<char>| pairs_to_map(pairs).contains_key(k) implies self@.contains_key(
                k,
            ) by {
                lemma_pairs_to_map_keys(pairs, k);
                let p = choose|p: int| 0 <= p < pairs.len() && (#[trigger] pairs[p]).0 == k;
                assert(self.index@.contains_key(self.entries@[p].0@));
            }
        }
    }

    pub fn new() -> (db: Self)
        ensures
            db.wf(),
            db@ == Map::<Seq<char>, Seq<char>>::empty(),
    {
        let db = InMemoryDB { entries: Vec::new(), index: StringHashMap::new() };
        assert(db@ =~= Map::<Seq<char>, Seq<char>>::empty());
        db
    }

    /// Writes `value` under `key`, replacing what was there. Always succeeds.
    pub fn set(&mut self, key: String, value: String) -> (written: bool)
        requires
            old(self).wf(),
        ensures
            final(self).wf(),
            final(self)@ == old(self)@.insert(key@, value@),
            written,
    {
        let found = match self.index.get(key.as_str()) {
            Some(position) => Some(*position),
            None => None,
        };
        match found {
            Some(position) => {
                self.entries[position] = (key, value);
            },
            None => {
                self.index.insert(key.clone(), self.entries.len());
                self.entries.push((key, value));
            },
        }
        assert(self@ =~= old(self)@.insert(key@, value@));
        true
    }

    /// The value last written under `key`, if there is one.
    pub fn get(&self, key: &str) -> (value: Option<String>)
        requires
            self.wf(),
        ensures
            match value {
                Some(v) => self@.contains_key(key@) && v@ == self@[key@],
                None => !self@.contains_key(key@),
            },
    {
        match self.index.get(key) {
            Some(position) => Some(self.entries[*position].1.clone()),
            None => None,
        }
    }

    /// Removes `key`. Says whether it was present.
    pub fn delete(&mut self, key: &str) -> (removed: bool)
        requires
            old(self).wf(),
        ensures
            final(self).wf(),
            final(self)@ == old(self)@.remove(key@),
            removed == old(self)@.contains_key(key@),
    {
        let found = match self.index.get(key) {
            Some(position) => Some(*position),
            None => None,
        };
        match found {
            None => {
                assert(self@ =~= old(self)@.remove(key@));
                false
            },
            Some(position) => {
                let last = self.entries.len() - 1;
                self.index.remove(key);
                if position < last {
                    let moved_key = self.entries[last].0.clone();
                    self.index.insert(moved_key, position);
                }
                self.entries.swap_remove(position);
                assert(self@ =~= old(self)@.remove(key@));
                true
            },
        }
    }

    /// A copy of every pair in the store, each key once, in the store's
    /// own order.
    pub fn clone_state(&self) -> (state: Vec<(String, String)>)
        requires
            self.wf(),
        ensures
            state.deep_view() == self.pairs(),
            distinct_keys(state.deep_view()),
            pairs_to_map(state.deep_view()) == self@,
    {
        let mut state: Vec<(String, String)> = Vec::new();
        let mut i: usize = 0;
        while i < self.entries.len()
            invariant
                i <= self.entries.len(),
                state.len() == i,
                forall|j: int|
                    0 <= j < i ==> state[j].0@ == self.entries[j].0@ && state[j].1@
                        == self.entries[j].1@,
            decreases self.entries.len() - i,
        {
            let key = self.entries[i].0.clone();
            let value = self.entries[i].1.clone();
            state.push((key, value));
            i += 1;
        }
        proof {
            assert(state.deep_view() =~= self.pairs());
            self.lemma_pairs();
        }
        state
    }
}

} // verus!
