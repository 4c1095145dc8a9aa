//! The primary in-memory store: one entry per currently-live id, viewed in
//! contracts as a mathematical map from raw id to value.

use vstd::prelude::*;
use crate::types::Record;
use crate::types::Recordable;
use crate::types::UniqueId;

verus! {

/// The map described by a sequence of records, later entries overriding
/// earlier ones with the same id.
pub open spec fn seq_to_map<T>(s: Seq<Record<T>>) -> Map<u128, T>
    decreases s.len(),
{
    if s.len() == 0 {
        Map::empty()
    } else {
        seq_to_map(s.drop_last()).insert(s.last().id.raw, s.last().data)
    }
}

/// An id is in the map of a sequence exactly when some entry carries it.
pub proof fn lemma_seq_to_map_contains<T>(s: Seq<Record<T>>, k: u128)
    ensures
        seq_to_map(s).contains_key(k) <==> exists|i: int| 0 <= i < s.len() && s[i].id.raw == k,
    decreases s.len(),
{
    if s.len() > 0 {
        lemma_seq_to_map_contains(s.drop_last(), k);
        if seq_to_map(s).contains_key(k) {
            if s.last().id.raw != k {
                let i = choose|i: int| 0 <= i < s.len() - 1 && s.drop_last()[i].id.raw == k;
                assert(s[i].id.raw == k);
            }
        }
        if exists|i: int| 0 <= i < s.len() && s[i].id.raw == k {
            let i = choose|i: int| 0 <= i < s.len() && s[i].id.raw == k;
            if i < s.len() - 1 {
                assert(s.drop_last()[i].id.raw == k);
            }
        }
    }
}

/// Whether all entries of a sequence carry pairwise distinct ids.
pub open spec fn distinct_ids<T>(s: Seq<Record<T>>) -> bool {
    forall|i: int, j: int| 0 <= i < j < s.len() ==> s[i].id.raw != s[j].id.raw
}

/// With distinct ids, each entry is found in the map under its own id.
pub proof fn lemma_seq_to_map_index<T>(s: Seq<Record<T>>, i: int)
    requires
        distinct_ids(s),
        0 <= i < s.len(),
    ensures
        seq_to_map(s).contains_key(s[i].id.raw),
        seq_to_map(s)[s[i].id.raw] == s[i].data,
    decreases s.len(),
{
    if i == s.len() - 1 {
    } else {
        assert(distinct_ids(s.drop_last())) by {
            assert(forall|p: int, q: int|
                0 <= p < q < s.len() - 1 ==> s.drop_last()[p] == s[p] && s.drop_last()[q] == s[q]);
        }
        lemma_seq_to_map_index(s.drop_last(), i);
        assert(s.drop_last()[i] == s[i]);
        assert(s[i].id.raw != s.last().id.raw);
    }
}

/// Overwriting the entry that carries an id updates the map at that id.
pub proof fn lemma_seq_to_map_update<T>(s: Seq<Record<T>>, i: int, r: Record<T>)
    requires
        distinct_ids(s),
        0 <= i < s.len(),
        s[i].id.raw == r.id.raw,
    ensures
        seq_to_map(s.update(i, r)) =~= seq_to_map(s).insert(r.id.raw, r.data),
        distinct_ids(s.update(i, r)),
    decreases s.len(),
{
    let t = s.update(i, r);
    if i == s.len() - 1 {
        assert(t.drop_last() =~= s.drop_last());
    } else {
        assert(distinct_ids(s.drop_last())) by {
            assert(forall|p: int, q: int|
                0 <= p < q < s.len() - 1 ==> s.drop_last()[p] == s[p] && s.drop_last()[q] == s[q]);
        }
        lemma_seq_to_map_update(s.drop_last(), i, r);
        assert(t.drop_last() =~= s.drop_last().update(i, r));
        assert(t.last() == s.last());
        assert(s[i].id.raw != s.last().id.raw);
    }
}

/// Removing the entry that carries an id removes that id from the map.
pub proof fn lemma_seq_to_map_remove<T>(s: Seq<Record<T>>, i: int)
    requires
        distinct_ids(s),
        0 <= i < s.len(),
    ensures
        seq_to_map(s.remove(i)) =~= seq_to_map(s).remove(s[i].id.raw),
        distinct_ids(s.remove(i)),
    decreases s.len(),
{
    let t = s.remove(i);
    if i == s.len() - 1 {
        assert(t =~= s.drop_last());
        lemma_seq_to_map_contains(s.drop_last(), s[i].id.raw);
        assert(seq_to_map(s.drop_last()) =~= seq_to_map(s).remove(s[i].id.raw));
    } else {
        assert(distinct_ids(s.drop_last())) by {
            assert(forall|p: int, q: int|
                0 <= p < q < s.len() - 1 ==> s.drop_last()[p] == s[p] && s.drop_last()[q] == s[q]);
        }
        lemma_seq_to_map_remove(s.drop_last(), i);
        assert(t.drop_last() =~= s.drop_last().remove(i));
        assert(t.last() == s.last());
        assert(s[i].id.raw != s.last().id.raw);
    }
}

/// The primary store: a vector of live records with pairwise distinct ids.
pub struct PrimaryStore<T> {
    pub entries: Vec<Record<T>>,
}

impl<T: Recordable> PrimaryStore<T> {
    /// The live records, in insertion order.
    pub open spec fn seq(&self) -> Seq<Record<T>> {
        self.entries@
    }

    /// The store as a map from raw id to value.
    pub open spec fn map(&self) -> Map<u128, T> {
        seq_to_map(self.entries@)
    }

    /// Well-formedness: all ids are pairwise distinct.
    pub open spec fn inv(&self) -> bool {
        distinct_ids(self.entries@)
    }

    /// An empty store.
    pub fn new() -> (r: PrimaryStore<T>)
        ensures
            r.inv(),
            r.seq() =~= Seq::<Record<T>>::empty(),
            r.map() =~= Map::<u128, T>::empty(),
    {
        PrimaryStore { entries: Vec::new() }
    }

    /// How many records are live.
    pub fn len(&self) -> (r: usize)
        ensures
            r == self.seq().len(),
    {
        self.entries.len()
    }

    /// The record at one position of the insertion order.
    pub fn entry_at(&self, i: usize) -> (r: &Record<T>)
        requires
            i < self.seq().len(),
        ensures
            *r == self.seq()[i as int],
    {
        &self.entries[i]
    }

    /// The position of the entry carrying an id, if the id is live.
    fn find(&self, id: &UniqueId) -> (r: Option<usize>)
        ensures
            match r {
                Some(i) => i < self.entries@.len() && self.entries@[i as int].id.raw == id.raw,
                None => forall|i: int|
                    0 <= i < self.entries@.len() ==> self.entries@[i].id.raw != id.raw,
            },
    {
        let n = self.entries.len();
        let mut i: usize = 0;
        while i < n
            invariant
                n == self.entries@.len(),
                0 <= i <= n,
                forall|j: int| 0 <= j < i ==> self.entries@[j].id.raw != id.raw,
            decreases n - i,
        {
            if self.entries[i].id.raw == id.raw {
                return Some(i);
            }
            i = i + 1;
        }
        None
    }

    /// Whether an id is live.
    pub fn contains_key(&self, id: &UniqueId) -> (r: bool)
        ensures
            r == self.map().contains_key(id.raw),
    {
        proof {
            lemma_seq_to_map_contains(self.entries@, id.raw);
        }
        match self.find(id) {
            Some(i) => {
                proof {
                    assert(self.entries@[i as int].id.raw == id.raw);
                }
                true
            },
            None => {
                proof {
                    assert(forall|j: int|
                        0 <= j < self.entries@.len() ==> self.entries@[j].id.raw != id.raw);
                }
                false
            },
        }
    }

    /// The value stored under a live id, or nothing.
    pub fn get(&self, id: &UniqueId) -> (r: Option<&T>)
        requires
            self.inv(),
        ensures
            match r {
                Some(v) => self.map().contains_key(id.raw) && *v == self.map()[id.raw],
                None => !self.map().contains_key(id.raw),
            },
    {
        proof {
            lemma_seq_to_map_contains(self.entries@, id.raw);
        }
        match self.find(id) {
            Some(i) => {
                proof {
                    assert(self.entries@[i as int].id.raw == id.raw);
                    lemma_seq_to_map_index(self.entries@, i as int);
                }
                Some(&self.entries[i].data)
            },
            None => {
                proof {
                    assert(forall|j: int|
                        0 <= j < self.entries@.len() ==> self.entries@[j].id.raw != id.raw);
                }
                None
            },
        }
    }

    /// Add a record under an id that is not yet live.
    pub fn insert(&mut self, rec: Record<T>)
        requires
            old(self).inv(),
            !old(self).map().contains_key(rec.id.raw),
        ensures
            final(self).inv(),
            final(self).seq() == old(self).seq().push(rec),
            final(self).map() =~= old(self).map().insert(rec.id.raw, rec.data),
    {
        proof {
            lemma_seq_to_map_contains(self.entries@, rec.id.raw);
        }
        self.entries.push(rec);
        proof {
            assert(self.entries@.drop_last() =~= old(self).entries@);
        }
    }

    /// Replace the value under a live id; returns the value it replaces.
    pub fn replace(&mut self, rec: Record<T>) -> (prev: T)
        requires
            old(self).inv(),
            old(self).map().contains_key(rec.id.raw),
        ensures
            final(self).inv(),
            prev == old(self).map()[rec.id.raw],
            final(self).seq().len() == old(self).seq().len(),
            exists|i: int|
                0 <= i < old(self).seq().len() && old(self).seq()[i].id.raw == rec.id.raw
                    && final(self).seq() == old(self).seq().update(i, rec),
            final(self).map() =~= old(self).map().insert(rec.id.raw, rec.data),
    {
        proof {
            lemma_seq_to_map_contains(self.entries@, rec.id.raw);
        }
        let i = match self.find(&rec.id) {
            Some(i) => i,
            None => {
                proof {
                    assert(forall|j: int|
                        0 <= j < self.entries@.len() ==> self.entries@[j].id.raw != rec.id.raw);
                    assert(false);
                }
                0
            },
        };
        proof {
            lemma_seq_to_map_index(self.entries@, i as int);
            lemma_seq_to_map_update(self.entries@, i as int, rec);
        }
        let prev = self.entries.remove(i);
        self.entries.insert(i, rec);
        proof {
            assert(self.entries@ =~= old(self).entries@.update(i as int, rec));
        }
        prev.data
    }

    /// Remove the record under a live id; returns the removed value.
    pub fn remove(&mut self, id: &UniqueId) -> (prev: T)
        requires
            old(self).inv(),
            old(self).map().contains_key(id.raw),
        ensures
            final(self).inv(),
            prev == old(self).map()[id.raw],
            exists|i: int|
                0 <= i < old(self).seq().len() && old(self).seq()[i].id.raw == id.raw
                    && final(self).seq() == old(self).seq().remove(i),
            final(self).map() =~= old(self).map().remove(id.raw),
    {
        proof {
            lemma_seq_to_map_contains(self.entries@, id.raw);
        }
        let i = match self.find(id) {
            Some(i) => i,
            None => {
                proof {
                    assert(forall|j: int|
                        0 <= j < self.entries@.len() ==> self.entries@[j].id.raw != id.raw);
                    assert(false);
                }
                0
            },
        };
        proof {
            lemma_seq_to_map_index(self.entries@, i as int);
            lemma_seq_to_map_remove(self.entries@, i as int);
        }
        let rec = self.entries.remove(i);
        proof {
            assert(old(self).seq()[i as int].id.raw == id.raw && self.seq() == old(
                self,
            ).seq().remove(i as int));
        }
        rec.data
    }
}

} // verus!
