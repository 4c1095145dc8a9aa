//! The storage engine: an append-only journal of entry lines, the primary
//! in-memory store rebuilt from it, and one indexer kept in lock-step with
//! every mutation.

use vstd::prelude::*;
use core::cmp::Ordering;
use crate::criteria::Criteria;
use crate::criteria::TimeRange;
use crate::indexing::Indexer;
use crate::indexing::NoIndex;
use crate::indexing::range_result_ok;
use crate::indexing::tagged_result_ok;
use crate::store::PrimaryStore;
use crate::store::distinct_ids;
use crate::store::lemma_seq_to_map_contains;
use crate::store::seq_to_map;
use crate::types::DeletableRecord;
use crate::types::Error;
use crate::types::Record;
use crate::types::Recordable;
use crate::types::UniqueId;
use crate::types::entry_line;
use crate::types::lemma_entry_roundtrip;
use crate::types::parse_entry;

verus! {

/// The encodings described by a journal, by raw id: entries folded in file
/// order, later entries overriding earlier ones, tombstones removing;
/// `None` when some line does not replay.
pub open spec fn replay<T: Recordable>(lines: Seq<Seq<char>>) -> Option<Map<u128, Seq<char>>>
    decreases lines.len(),
{
    if lines.len() == 0 {
        Some(Map::<u128, Seq<char>>::empty())
    } else {
        match replay::<T>(lines.drop_last()) {
            None => None,
            Some(m) => match parse_entry(lines.last()) {
                None => None,
                Some((id, None)) => Some(m.remove(id)),
                Some((id, Some(b))) => if T::decodes(b) {
                    Some(m.insert(id, b))
                } else {
                    None
                },
            },
        }
    }
}

/// A replay that has already failed stays failed under further lines.
pub proof fn lemma_replay_failed_prefix<T: Recordable>(lines: Seq<Seq<char>>, k: int)
    requires
        0 <= k <= lines.len(),
        replay::<T>(lines.take(k)) is None,
    ensures
        replay::<T>(lines) is None,
    decreases lines.len() - k,
{
    if k < lines.len() {
        assert(lines.take(k + 1).drop_last() =~= lines.take(k));
        lemma_replay_failed_prefix::<T>(lines, k + 1);
    } else {
        assert(lines.take(k) =~= lines);
    }
}

/// Replaying a journal is a function of the lines alone: one journal can
/// describe only one view of the store, so loading is idempotent.
pub proof fn lemma_idempotent_load<T: Recordable>(
    lines: Seq<Seq<char>>,
    m1: Map<u128, Seq<char>>,
    m2: Map<u128, Seq<char>>,
)
    requires
        replay::<T>(lines) == Some(m1),
        replay::<T>(lines) == Some(m2),
    ensures
        m1 == m2,
{
}

/// Whether a sequence of borrowed pairs holds exactly the given records,
/// in the same order.
pub open spec fn pairs_match<T>(out: Seq<(UniqueId, &T)>, s: Seq<Record<T>>) -> bool {
    &&& out.len() == s.len()
    &&& forall|p: int|
        0 <= p < out.len() ==> (#[trigger] out[p]).0 == s[p].id && *out[p].1 == s[p].data
}

/// Whether a sequence of borrowed pairs holds exactly the given records,
/// stably reordered under a comparator: some injective position map carries
/// each pair to the record it came from, and wherever the result inverts
/// the source order, a run of the comparator pronounced the earlier record
/// greater. Records the comparator cannot tell apart therefore keep their
/// source order.
pub open spec fn pairs_stable_permute<T, F: Fn(&T, &T) -> Ordering>(
    compare: F,
    out: Seq<(UniqueId, &T)>,
    s: Seq<Record<T>>,
) -> bool {
    &&& out.len() == s.len()
    &&& exists|back: Seq<int>|
        #![auto]
        {
            &&& back.len() == out.len()
            &&& forall|p: int|
                0 <= p < out.len() ==> 0 <= #[trigger] back[p] < s.len() && out[p].0
                    == s[back[p]].id && *out[p].1 == s[back[p]].data
            &&& forall|p1: int, p2: int| 0 <= p1 < p2 < out.len() ==> back[p1] != back[p2]
            &&& forall|p1: int, p2: int|
                #![trigger back[p1], back[p2]]
                0 <= p1 < p2 < out.len() && back[p1] > back[p2] ==> call_ensures(
                    compare,
                    (out[p2].1, out[p1].1),
                    Ordering::Greater,
                )
        }
}

/// An open series: the append-only journal, the primary store replayed
/// from it, and one indexer maintained in lock-step.
pub struct Series<T: Recordable, I: Indexer<T>> {
    store: PrimaryStore<T>,
    indexer: I,
    journal: Vec<String>,
}

impl<T: Recordable, I: Indexer<T>> Series<T, I> {
    /// The live records as a map from raw id to value.
    pub closed spec fn map_spec(&self) -> Map<u128, T> {
        self.store.map()
    }

    /// The live records in store order.
    pub closed spec fn seq_spec(&self) -> Seq<Record<T>> {
        self.store.seq()
    }

    /// The journal lines, oldest first.
    pub closed spec fn journal_spec(&self) -> Seq<Seq<char>> {
        self.journal.deep_view()
    }

    /// Whether retrieval by this tag reflects the primary store.
    pub closed spec fn covers_tag(&self, tag: Seq<char>) -> bool {
        self.indexer.covers_tag(tag)
    }

    /// Well-formedness: store and indexer are internally sound, the indexer
    /// holds exactly what the store implies, and the journal replays to
    /// exactly the live ids, each live value described by its replayed
    /// encoding.
    pub closed spec fn wf(&self) -> bool {
        &&& self.store.inv()
        &&& self.indexer.inv()
        &&& self.indexer.consistent(self.store.map())
        &&& match replay::<T>(self.journal.deep_view()) {
            None => false,
            Some(enc) => {
                &&& enc.dom() == self.store.map().dom()
                &&& forall|k: u128|
                    #[trigger] enc.contains_key(k) ==> self.store.map()[k].represents(enc[k])
            },
        }
    }

    /// The map view is the fold of the record sequence, whose ids are
    /// pairwise distinct.
    pub proof fn lemma_views(&self)
        requires
            self.wf(),
        ensures
            self.map_spec() == seq_to_map(self.seq_spec()),
            distinct_ids(self.seq_spec()),
    {
    }

    /// Replaying a well-formed series' journal yields exactly its live
    /// ids, and an encoding that describes each live value: closing and
    /// reopening loses nothing.
    pub proof fn lemma_journal_replay(&self)
        requires
            self.wf(),
        ensures
            replay::<T>(self.journal_spec()) matches Some(enc) && enc.dom()
                == self.map_spec().dom() && forall|k: u128|
                #[trigger] enc.contains_key(k) ==> self.map_spec()[k].represents(enc[k]),
    {
    }

    /// Open a series over the lines of its backing file, populating the
    /// given indexer from scratch. All-or-nothing: any malformed line fails
    /// the whole open.
    pub fn open_with_indexer(lines: Vec<String>, indexer: I) -> (r: Result<Series<T, I>, Error>)
        requires
            indexer.inv(),
            indexer.consistent(Map::<u128, T>::empty()),
        ensures
            r matches Ok(s) ==> s.wf() && s.journal_spec() == lines.deep_view() && replay::<T>(
                lines.deep_view(),
            ) is Some && (forall|tg: Seq<char>| s.covers_tag(tg) == indexer.covers_tag(tg)),
            r matches Err(e) ==> e == Error::DeserializationError && replay::<T>(lines.deep_view())
                is None,
    {
        let ghost all = lines.deep_view();
        let mut store = PrimaryStore::<T>::new();
        let n = lines.len();
        let mut i: usize = 0;
        proof {
            assert(all.take(0) =~= Seq::<Seq<char>>::empty());
        }
        while i < n
            invariant
                n == lines@.len(),
                all == lines.deep_view(),
                all.len() == n,
                0 <= i <= n,
                store.inv(),
                match replay::<T>(all.take(i as int)) {
                    None => false,
                    Some(enc) => enc.dom() == store.map().dom() && forall|k: u128|
                        #[trigger] enc.contains_key(k) ==> store.map()[k].represents(enc[k]),
                },
            decreases n - i,
        {
            proof {
                assert(all.take(i as int + 1).drop_last() =~= all.take(i as int));
                assert(all.take(i as int + 1).last() == lines@[i as int]@);
            }
            let entry = match DeletableRecord::<T>::from_line(lines[i].as_str()) {
                Ok(entry) => entry,
                Err(_) => {
                    proof {
                        lemma_replay_failed_prefix::<T>(all, i as int + 1);
                    }
                    return Err(Error::DeserializationError);
                },
            };
            let ghost enc0 = replay::<T>(all.take(i as int)).unwrap();
            match entry.data {
                Some(v) => {
                    let rec = Record { id: entry.id, data: v };
                    if store.contains_key(&rec.id) {
                        let _prev = store.replace(rec);
                    } else {
                        store.insert(rec);
                    }
                    proof {
                        let b = parse_entry(all[i as int]).unwrap().1.unwrap();
                        assert(replay::<T>(all.take(i as int + 1)) == Some(
                            enc0.insert(entry.id.raw, b),
                        ));
                        assert(enc0.insert(entry.id.raw, b).dom() =~= store.map().dom());
                    }
                },
                None => {
                    if store.contains_key(&entry.id) {
                        let _prev = store.remove(&entry.id);
                    } else {
                        proof {
                            assert(store.map().remove(entry.id.raw) =~= store.map());
                        }
                    }
                    proof {
                        assert(replay::<T>(all.take(i as int + 1)) == Some(
                            enc0.remove(entry.id.raw),
                        ));
                        assert(enc0.remove(entry.id.raw).dom() =~= store.map().dom());
                    }
                },
            }
            i = i + 1;
        }
        proof {
            assert(all.take(n as int) =~= all);
        }
        let mut indexer = indexer;
        let ghost ix0 = indexer;
        let ghost full = store.seq();
        let total = store.len();
        let mut j: usize = 0;
        proof {
            assert(seq_to_map(full.take(0)) =~= Map::<u128, T>::empty());
        }
        while j < total
            invariant
                store.inv(),
                full == store.seq(),
                total == full.len(),
                0 <= j <= total,
                indexer.inv(),
                indexer.consistent(seq_to_map(full.take(j as int))),
                forall|tg: Seq<char>| indexer.covers_tag(tg) == ix0.covers_tag(tg),
            decreases total - j,
        {
            let rec = store.entry_at(j);
            proof {
                lemma_seq_to_map_contains(full.take(j as int), rec.id.raw);
                assert forall|q: int| 0 <= q < j as int implies full.take(j as int)[q].id.raw
                    != rec.id.raw by {
                    assert(full[q].id.raw != full[j as int].id.raw);
                }
            }
            let ghost m = seq_to_map(full.take(j as int));
            indexer.insert(&rec.id, &rec.data, Ghost(m));
            proof {
                assert(full.take(j as int + 1).drop_last() =~= full.take(j as int));
                assert(full.take(j as int + 1).last() == full[j as int]);
                assert(seq_to_map(full.take(j as int + 1)) =~= m.insert(rec.id.raw, rec.data));
            }
            j = j + 1;
        }
        proof {
            assert(full.take(total as int) =~= full);
        }
        Ok(Series { store, indexer, journal: lines })
    }

    /// Put a new record into the series under a fresh id, appending one
    /// line to the journal; returns the id. Fails with `AlreadyExists`, and
    /// changes nothing, only if the fresh id collides with a live one; a
    /// put into an empty series therefore always succeeds.
    pub fn put(&mut self, entry: T) -> (r: Result<UniqueId, Error>)
        requires
            old(self).wf(),
        ensures
            final(self).wf(),
            forall|tg: Seq<char>| final(self).covers_tag(tg) == old(self).covers_tag(tg),
            r matches Ok(id) ==> !old(self).map_spec().contains_key(id.raw) && final(self).map_spec() == old(self).map_spec().insert(id.raw, entry) && final(self).seq_spec()
                == old(self).seq_spec().push((Record { id, data: entry })) && final(self).journal_spec() == old(self).journal_spec().push(
                entry_line(id.raw, Some(entry.encode_spec())),
            ),
            r matches Err(e) ==> e == Error::AlreadyExists && *final(self) == *old(self) && (
            exists|k: u128| #[trigger] old(self).map_spec().contains_key(k)),
    {
        let id = UniqueId::new();
        if self.store.contains_key(&id) {
            proof {
                assert(old(self).map_spec().contains_key(id.raw));
            }
            return Err(Error::AlreadyExists);
        }
        let ghost e = entry;
        let ghost m0 = self.store.map();
        let holder = DeletableRecord { id, data: Some(entry) };
        let line = holder.to_line();
        let v = match holder.data {
            Some(v) => v,
            None => {
                proof {
                    assert(false);
                }
                return Err(Error::AlreadyExists);
            },
        };
        self.store.insert(Record { id, data: v });
        match self.store.get(&id) {
            Some(vref) => {
                self.indexer.insert(&id, vref, Ghost(m0));
            },
            None => {
                proof {
                    assert(false);
                }
            },
        }
        self.journal.push(line);
        proof {
            e.lemma_codec();
            lemma_entry_roundtrip(id.raw, Some(e.encode_spec()));
            assert(self.journal.deep_view() =~= old(self).journal.deep_view().push(
                entry_line(id.raw, Some(e.encode_spec())),
            ));
            assert(self.journal.deep_view().drop_last() =~= old(self).journal.deep_view());
            assert(self.store.map() =~= m0.insert(id.raw, e));
            let enc0 = replay::<T>(old(self).journal.deep_view()).unwrap();
            assert(replay::<T>(self.journal.deep_view()) == Some(
                enc0.insert(id.raw, e.encode_spec()),
            ));
            assert(enc0.insert(id.raw, e.encode_spec()).dom() =~= self.store.map().dom());
        }
        Ok(id)
    }

    /// Replace the record under an existing id with new data, appending one
    /// line to the journal. Fails with `NotFound`, and changes nothing,
    /// exactly when the id is not live.
    pub fn update(&mut self, uuid: &UniqueId, entry: T) -> (r: Result<(), Error>)
        requires
            old(self).wf(),
        ensures
            final(self).wf(),
            forall|tg: Seq<char>| final(self).covers_tag(tg) == old(self).covers_tag(tg),
            r matches Ok(u) ==> old(self).map_spec().contains_key(uuid.raw) && final(self).map_spec() == old(self).map_spec().insert(uuid.raw, entry) && final(self).seq_spec()
                == old(self).seq_spec().update(
                index_of_id(old(self).seq_spec(), uuid.raw),
                (Record { id: *uuid, data: entry }),
            ) && final(self).journal_spec() == old(self).journal_spec().push(
                entry_line(uuid.raw, Some(entry.encode_spec())),
            ),
            r matches Err(e) ==> e == Error::NotFound && !old(self).map_spec().contains_key(
                uuid.raw,
            ) && *final(self) == *old(self),
    {
        if !self.store.contains_key(uuid) {
            return Err(Error::NotFound);
        }
        let ghost e = entry;
        let ghost m0 = self.store.map();
        let ghost s0 = self.store.seq();
        let holder = DeletableRecord { id: *uuid, data: Some(entry) };
        let line = holder.to_line();
        let v = match holder.data {
            Some(v) => v,
            None => {
                proof {
                    assert(false);
                }
                return Err(Error::NotFound);
            },
        };
        let prev = self.store.replace(Record { id: *uuid, data: v });
        match self.store.get(uuid) {
            Some(vref) => {
                self.indexer.update(uuid, &prev, vref, Ghost(m0));
            },
            None => {
                proof {
                    assert(false);
                }
            },
        }
        self.journal.push(line);
        proof {
            e.lemma_codec();
            lemma_entry_roundtrip(uuid.raw, Some(e.encode_spec()));
            assert(self.journal.deep_view() =~= old(self).journal.deep_view().push(
                entry_line(uuid.raw, Some(e.encode_spec())),
            ));
            assert(self.journal.deep_view().drop_last() =~= old(self).journal.deep_view());
            assert(self.store.map() =~= m0.insert(uuid.raw, e));
            let enc0 = replay::<T>(old(self).journal.deep_view()).unwrap();
            assert(replay::<T>(self.journal.deep_view()) == Some(
                enc0.insert(uuid.raw, e.encode_spec()),
            ));
            assert(enc0.insert(uuid.raw, e.encode_spec()).dom() =~= self.store.map().dom());
            let i = choose|i: int|
                0 <= i < s0.len() && s0[i].id.raw == uuid.raw && self.store.seq() == s0.update(
                    i,
                    (Record { id: *uuid, data: e }),
                );
            lemma_index_of_id(s0, uuid.raw, i);
        }
        Ok(())
    }

    /// Delete the record under an existing id, appending a tombstone line
    /// to the journal; the record's history survives only in the journal.
    /// Fails with `NotFound`, and changes nothing, exactly when the id is
    /// not live.
    pub fn delete(&mut self, uuid: &UniqueId) -> (r: Result<(), Error>)
        requires
            old(self).wf(),
        ensures
            final(self).wf(),
            forall|tg: Seq<char>| final(self).covers_tag(tg) == old(self).covers_tag(tg),
            r matches Ok(u) ==> old(self).map_spec().contains_key(uuid.raw) && final(self).map_spec() == old(self).map_spec().remove(uuid.raw) && final(self).seq_spec() == old(self).seq_spec().remove(index_of_id(old(self).seq_spec(), uuid.raw)) && final(self).journal_spec() == old(self).journal_spec().push(entry_line(uuid.raw, None)),
            r matches Err(e) ==> e == Error::NotFound && !old(self).map_spec().contains_key(
                uuid.raw,
            ) && *final(self) == *old(self),
    {
        if !self.store.contains_key(uuid) {
            return Err(Error::NotFound);
        }
        let ghost m0 = self.store.map();
        let ghost s0 = self.store.seq();
        let holder = DeletableRecord::<T> { id: *uuid, data: None };
        let line = holder.to_line();
        let prev = self.store.remove(uuid);
        self.indexer.remove(uuid, &prev, Ghost(m0));
        self.journal.push(line);
        proof {
            lemma_entry_roundtrip(uuid.raw, None);
            assert(self.journal.deep_view() =~= old(self).journal.deep_view().push(
                entry_line(uuid.raw, None),
            ));
            assert(self.journal.deep_view().drop_last() =~= old(self).journal.deep_view());
            assert(self.store.map() =~= m0.remove(uuid.raw));
            let enc0 = replay::<T>(old(self).journal.deep_view()).unwrap();
            assert(replay::<T>(self.journal.deep_view()) == Some(enc0.remove(uuid.raw)));
            assert(enc0.remove(uuid.raw).dom() =~= self.store.map().dom());
            let i = choose|i: int|
                0 <= i < s0.len() && s0[i].id.raw == uuid.raw && self.store.seq() == s0.remove(i);
            lemma_index_of_id(s0, uuid.raw, i);
        }
        Ok(())
    }

    /// Get the record stored under an id. A missing id is not an error: it
    /// returns an empty result.
    pub fn get(&self, uuid: &UniqueId) -> (r: Result<Option<&T>, Error>)
        requires
            self.wf(),
        ensures
            match r {
                Ok(Some(v)) => self.map_spec().contains_key(uuid.raw) && *v
                    == self.map_spec()[uuid.raw],
                Ok(None) => !self.map_spec().contains_key(uuid.raw),
                Err(_) => false,
            },
    {
        match self.store.get(uuid) {
            Some(v) => Ok(Some(v)),
            None => Ok(None),
        }
    }

    /// All live records, as (id, value) pairs in store order.
    pub fn records(&self) -> (r: Result<Vec<(UniqueId, &T)>, Error>)
        requires
            self.wf(),
        ensures
            r matches Ok(v) && pairs_match(v@, self.seq_spec()),
    {
        let ghost s = self.store.seq();
        let mut out: Vec<(UniqueId, &T)> = Vec::new();
        let n = self.store.len();
        let mut i: usize = 0;
        while i < n
            invariant
                s == self.store.seq(),
                n == s.len(),
                0 <= i <= n,
                pairs_match(out@, s.take(i as int)),
            decreases n - i,
        {
            let rec = self.store.entry_at(i);
            out.push((rec.id, &rec.data));
            proof {
                assert(s.take(i as int + 1) =~= s.take(i as int).push(s[i as int]));
            }
            i = i + 1;
        }
        proof {
            assert(s.take(n as int) =~= s);
        }
        Ok(out)
    }

    /// All live records matching the criteria, as (id, value) pairs in
    /// store order.
    pub fn search<C: Criteria<T>>(&self, criteria: C) -> (r: Result<Vec<(UniqueId, &T)>, Error>)
        requires
            self.wf(),
        ensures
            r matches Ok(v) && pairs_match(
                v@,
                self.seq_spec().filter(|rec: Record<T>| criteria.matches(rec.data)),
            ),
    {
        let ghost s = self.store.seq();
        let ghost pred = |rec: Record<T>| criteria.matches(rec.data);
        let mut out: Vec<(UniqueId, &T)> = Vec::new();
        let n = self.store.len();
        let mut i: usize = 0;
        proof {
            assert(s.take(0).filter(pred) =~= Seq::<Record<T>>::empty());
        }
        while i < n
            invariant
                s == self.store.seq(),
                n == s.len(),
                0 <= i <= n,
                pred == (|rec: Record<T>| criteria.matches(rec.data)),
                pairs_match(out@, s.take(i as int).filter(pred)),
            decreases n - i,
        {
            let rec = self.store.entry_at(i);
            proof {
                assert(s.take(i as int + 1) =~= s.take(i as int).push(s[i as int]));
                lemma_filter_push(s.take(i as int), pred, s[i as int]);
                assert(pred(s[i as int]) == criteria.matches(s[i as int].data));
            }
            if criteria.apply(&rec.data) {
                out.push((rec.id, &rec.data));
                proof {
                    assert(s.take(i as int + 1).filter(pred) == s.take(i as int).filter(pred).push(
                        s[i as int],
                    ));
                    assert(pairs_match(out@, s.take(i as int + 1).filter(pred)));
                }
            } else {
                proof {
                    assert(s.take(i as int + 1).filter(pred) == s.take(i as int).filter(pred));
                    assert(pairs_match(out@, s.take(i as int + 1).filter(pred)));
                }
            }
            i = i + 1;
        }
        proof {
            assert(s.take(n as int) =~= s);
        }
        Ok(out)
    }

    /// All live records matching the criteria, stably ordered by the
    /// caller's comparator: every adjacent pair of the result compares in
    /// order by some run of the comparator, and records the comparator
    /// cannot tell apart keep their store order.
    #[verifier::rlimit(30)]
    pub fn search_sorted<C: Criteria<T>, F: Fn(&T, &T) -> Ordering>(
        &self,
        criteria: C,
        compare: F,
    ) -> (r: Result<Vec<(UniqueId, &T)>, Error>)
        requires
            self.wf(),
            forall|a: &T, b: &T| #[trigger] call_requires(compare, (a, b)),
        ensures
            r matches Ok(v) && pairs_stable_permute(
                compare,
                v@,
                self.seq_spec().filter(|rec: Record<T>| criteria.matches(rec.data)),
            ) && sorted_adjacent(compare, v@),
    {
        let base = match self.search(criteria) {
            Ok(v) => v,
            Err(e) => {
                return Err(e);
            },
        };
        let ghost filtered = self.seq_spec().filter(|rec: Record<T>| criteria.matches(rec.data));
        let mut out: Vec<(UniqueId, &T)> = Vec::new();
        let ghost mut src: Seq<int> = Seq::empty();
        let ghost mut dst: Seq<int> = Seq::empty();
        let n = base.len();
        let mut i: usize = 0;
        while i < n
            invariant
                forall|a: &T, b: &T| #[trigger] call_requires(compare, (a, b)),
                n == base@.len(),
                base@.len() == filtered.len(),
                forall|q: int|
                    0 <= q < filtered.len() ==> (#[trigger] base@[q]).0 == filtered[q].id
                        && *base@[q].1 == filtered[q].data,
                0 <= i <= n,
                out@.len() == i,
                src.len() == out@.len(),
                forall|p: int|
                    0 <= p < out@.len() ==> 0 <= #[trigger] src[p] < i && out@[p] == base@[src[p]],
                forall|p1: int, p2: int| 0 <= p1 < p2 < out@.len() ==> src[p1] != src[p2],
                forall|p1: int, p2: int|
                    #![trigger src[p1], src[p2]]
                    0 <= p1 < p2 < out@.len() && src[p1] > src[p2] ==> call_ensures(
                        compare,
                        (out@[p2].1, out@[p1].1),
                        Ordering::Greater,
                    ),
                dst.len() == i,
                forall|q: int|
                    0 <= q < i ==> 0 <= #[trigger] dst[q] < out@.len() && out@[dst[q]] == base@[q],
                sorted_adjacent(compare, out@),
            decreases n - i,
        {
            let x = base[i];
            let mut pos = out.len();
            loop
                invariant
                    forall|a: &T, b: &T| #[trigger] call_requires(compare, (a, b)),
                    0 <= pos <= out@.len(),
                    forall|j: int|
                        pos <= j < out@.len() ==> call_ensures(
                            compare,
                            ((#[trigger] out@[j]).1, x.1),
                            Ordering::Greater,
                        ),
                ensures
                    0 <= pos <= out@.len(),
                    forall|j: int|
                        pos <= j < out@.len() ==> call_ensures(
                            compare,
                            ((#[trigger] out@[j]).1, x.1),
                            Ordering::Greater,
                        ),
                    pos > 0 ==> adjacent_in_order(compare, out@[pos - 1], x),
                decreases pos,
            {
                if pos == 0 {
                    break ;
                }
                let prev = out[pos - 1];
                let ord = compare(prev.1, x.1);
                match ord {
                    Ordering::Greater => {
                        pos = pos - 1;
                    },
                    _ => {
                        proof {
                            reveal(adjacent_in_order);
                            assert(call_ensures(compare, (out@[pos - 1].1, x.1), ord) && ord
                                != Ordering::Greater);
                        }
                        break ;
                    },
                }
            }
            let ghost before = out@;
            out.insert(pos, x);
            proof {
                assert(out@ =~= before.insert(pos as int, x));
                lemma_sorted_insert(compare, before, x, pos as int);
                let src0 = src;
                let dst0 = dst;
                src = src0.insert(pos as int, i as int);
                dst = dst0.map_values(
                    |p: int|
                        if p >= pos {
                            p + 1
                        } else {
                            p
                        },
                ).push(pos as int);
                assert forall|p: int| 0 <= p < out@.len() implies 0 <= #[trigger] src[p] < i as int
                    + 1 && out@[p] == base@[src[p]] by {
                    if p < pos {
                        assert(src[p] == src0[p] && out@[p] == before[p]);
                    } else if p == pos {
                        assert(src[p] == i as int && out@[p] == base@[i as int]);
                    } else {
                        assert(src[p] == src0[p - 1] && out@[p] == before[p - 1]);
                    }
                }
                assert forall|p1: int, p2: int| 0 <= p1 < p2 < out@.len() implies src[p1]
                    != src[p2] by {
                    if p1 < pos && p2 < pos {
                        assert(src[p1] == src0[p1] && src[p2] == src0[p2]);
                    } else if p1 < pos && p2 == pos {
                        assert(src[p1] == src0[p1] && src0[p1] < i as int);
                    } else if p1 < pos && p2 > pos {
                        assert(src[p1] == src0[p1] && src[p2] == src0[p2 - 1]);
                    } else if p1 == pos {
                        assert(src[p2] == src0[p2 - 1] && src0[p2 - 1] < i as int);
                    } else {
                        assert(src[p1] == src0[p1 - 1] && src[p2] == src0[p2 - 1]);
                    }
                }
                assert forall|p1: int, p2: int|
                    0 <= p1 < p2 < out@.len() && #[trigger] src[p1] > #[trigger] src[p2] implies
                    call_ensures(compare, (out@[p2].1, out@[p1].1), Ordering::Greater) by {
                    if p2 < pos {
                        assert(src[p1] == src0[p1] && src[p2] == src0[p2]);
                        assert(out@[p1] == before[p1] && out@[p2] == before[p2]);
                    } else if p1 > pos {
                        assert(src[p1] == src0[p1 - 1] && src[p2] == src0[p2 - 1]);
                        assert(out@[p1] == before[p1 - 1] && out@[p2] == before[p2 - 1]);
                    } else if p1 == pos {
                        assert(out@[p1] == x && out@[p2] == before[p2 - 1]);
                        assert(call_ensures(compare, (before[p2 - 1].1, x.1), Ordering::Greater));
                    } else if p2 == pos {
                        assert(src[p1] == src0[p1] && src0[p1] < i as int && src[p2] == i as int);
                    } else {
                        assert(src[p1] == src0[p1] && src[p2] == src0[p2 - 1]);
                        assert(out@[p1] == before[p1] && out@[p2] == before[p2 - 1]);
                    }
                }
                assert forall|q: int| 0 <= q < i as int + 1 implies 0 <= #[trigger] dst[q]
                    < out@.len() && out@[dst[q]] == base@[q] by {
                    if q < i as int {
                        assert(dst[q] == if dst0[q] >= pos {
                            dst0[q] + 1
                        } else {
                            dst0[q]
                        });
                        if dst0[q] < pos {
                            assert(out@[dst0[q]] == before[dst0[q]]);
                        } else {
                            assert(out@[dst0[q] + 1] == before[dst0[q]]);
                        }
                    } else {
                        assert(dst[q] == pos as int && out@[pos as int] == base@[q]);
                    }
                }
            }
            i = i + 1;
        }
        proof {
            assert forall|p: int| 0 <= p < out@.len() implies 0 <= #[trigger] src[p]
                < filtered.len() && out@[p].0 == filtered[src[p]].id && *out@[p].1
                == filtered[src[p]].data by {
                assert(out@[p] == base@[src[p]]);
            }
            assert(pairs_stable_permute(compare, out@, filtered));
        }
        Ok(out)
    }

    /// All live records whose timestamp satisfies the range, ascending by
    /// timestamp, ties broken by ascending id; delegates to the indexer.
    pub fn search_range(&self, criteria: &TimeRange) -> (r: Result<Vec<(UniqueId, &T)>, Error>)
        requires
            self.wf(),
        ensures
            r matches Ok(v) && range_result_ok(self.map_spec(), *criteria, v@),
    {
        Ok(self.indexer.retrieve_range(&self.store, criteria))
    }

    /// All live records carrying the tag; delegates to the indexer.
    pub fn search_tagged(&self, criteria: &str) -> (r: Result<Vec<(UniqueId, &T)>, Error>)
        requires
            self.wf(),
        ensures
            r matches Ok(v) && tagged_result_ok(
                self.map_spec(),
                criteria@,
                v@,
                self.covers_tag(criteria@),
            ),
    {
        Ok(self.indexer.retrieve_tagged(&self.store, criteria))
    }

    /// How many lines the journal holds.
    pub fn journal_len(&self) -> (r: usize)
        ensures
            r == self.journal_spec().len(),
    {
        self.journal.len()
    }

    /// One line of the journal, oldest first. An embedding application
    /// appends each new line to the backing file as it is produced.
    pub fn journal_line(&self, i: usize) -> (r: &String)
        requires
            i < self.journal_spec().len(),
        ensures
            r@ == self.journal_spec()[i as int],
    {
        &self.journal[i]
    }
}

impl<T: Recordable> Series<T, NoIndex> {
    /// Open a series over the lines of its backing file, with no secondary
    /// index: every retrieval is a full scan.
    pub fn open(lines: Vec<String>) -> (r: Result<Series<T, NoIndex>, Error>)
        ensures
            r matches Ok(s) ==> s.wf() && s.journal_spec() == lines.deep_view() && replay::<T>(
                lines.deep_view(),
            ) is Some,
            r matches Err(e) ==> e == Error::DeserializationError && replay::<T>(lines.deep_view())
                is None,
    {
        Series::open_with_indexer(lines, NoIndex)
    }
}

/// The position of the entry carrying an id within a record sequence.
pub open spec fn index_of_id<T>(s: Seq<Record<T>>, k: u128) -> int {
    choose|i: int| 0 <= i < s.len() && s[i].id.raw == k
}

/// With distinct ids, the witness position is the unique one.
pub proof fn lemma_index_of_id<T>(s: Seq<Record<T>>, k: u128, i: int)
    requires
        distinct_ids(s),
        0 <= i < s.len(),
        s[i].id.raw == k,
    ensures
        index_of_id(s, k) == i,
{
    let j = index_of_id(s, k);
    assert(0 <= j < s.len() && s[j].id.raw == k);
    if i != j {
        assert(false);
    }
}

/// Filtering distributes over appending one element.
pub proof fn lemma_filter_push<A>(s: Seq<A>, pred: spec_fn(A) -> bool, x: A)
    ensures
        s.push(x).filter(pred) == if pred(x) {
            s.filter(pred).push(x)
        } else {
            s.filter(pred)
        },
{
    reveal(Seq::filter);
    assert(s.push(x).drop_last() =~= s);
}

/// Whether one result pair is in order before another, as witnessed by a
/// run of the caller's comparator in either direction.
#[verifier::opaque]
pub open spec fn adjacent_in_order<T, F: Fn(&T, &T) -> Ordering>(
    compare: F,
    a: (UniqueId, &T),
    b: (UniqueId, &T),
) -> bool {
    (exists|o: Ordering| call_ensures(compare, (a.1, b.1), o) && o != Ordering::Greater)
        || call_ensures(compare, (b.1, a.1), Ordering::Greater)
}

/// Whether every adjacent pair of a result is in comparator order.
pub open spec fn sorted_adjacent<T, F: Fn(&T, &T) -> Ordering>(
    compare: F,
    s: Seq<(UniqueId, &T)>,
) -> bool {
    forall|p: int| 0 <= p < s.len() - 1 ==> adjacent_in_order(compare, s[p], #[trigger] s[p + 1])
}

/// Splicing an element at the position the comparator scan found keeps
/// every adjacent pair of the result in comparator order.
proof fn lemma_sorted_insert<T, F: Fn(&T, &T) -> Ordering>(
    compare: F,
    before: Seq<(UniqueId, &T)>,
    x: (UniqueId, &T),
    pos: int,
)
    requires
        0 <= pos <= before.len(),
        sorted_adjacent(compare, before),
        forall|j: int|
            pos <= j < before.len() ==> call_ensures(
                compare,
                ((#[trigger] before[j]).1, x.1),
                Ordering::Greater,
            ),
        pos > 0 ==> adjacent_in_order(compare, before[pos - 1], x),
    ensures
        sorted_adjacent(compare, before.insert(pos, x)),
{
    let now = before.insert(pos, x);
    assert forall|p: int| 0 <= p < now.len() - 1 implies adjacent_in_order(
        compare,
        now[p],
        #[trigger] now[p + 1],
    ) by {
        reveal(adjacent_in_order);
        if p + 1 < pos {
            assert(now[p] == before[p] && now[p + 1] == before[p + 1]);
            assert(adjacent_in_order(compare, before[p], #[trigger] before[p + 1]));
        } else if p > pos {
            assert(now[p] == before[p - 1] && now[p + 1] == before[p]);
            let p0 = p - 1;
            assert(adjacent_in_order(compare, before[p0], before[p0 + 1]));
        } else if p + 1 == pos {
            assert(now[p] == before[p] && now[p + 1] == x);
            assert(adjacent_in_order(compare, before[pos - 1], x));
        } else {
            assert(now[p] == x && now[p + 1] == before[pos]);
            assert(call_ensures(compare, (before[pos].1, x.1), Ordering::Greater));
        }
    }
}

/// Two well-formed series over the same journal hold the same live view:
/// closing a series and reopening its file yields exactly the ids held
/// before, each with the same timestamp and tags as before. Tombstones
/// remove, and later writes override earlier ones, in both alike.
pub proof fn lemma_round_trip<T: Recordable, I: Indexer<T>, J: Indexer<T>>(
    a: &Series<T, I>,
    b: &Series<T, J>,
)
    requires
        a.wf(),
        b.wf(),
        a.journal_spec() == b.journal_spec(),
    ensures
        a.map_spec().dom() == b.map_spec().dom(),
        forall|k: u128|
            #[trigger] a.map_spec().contains_key(k) ==> a.map_spec()[k].timestamp_spec()
                == b.map_spec()[k].timestamp_spec() && a.map_spec()[k].tags_spec()
                == b.map_spec()[k].tags_spec(),
{
    let enc = replay::<T>(a.journal_spec()).unwrap();
    assert forall|k: u128| #[trigger] a.map_spec().contains_key(k) implies a.map_spec()[k].timestamp_spec()
        == b.map_spec()[k].timestamp_spec() && a.map_spec()[k].tags_spec()
        == b.map_spec()[k].tags_spec() by {
        assert(enc.contains_key(k));
        let va = a.map_spec()[k];
        let vb = b.map_spec()[k];
        va.lemma_represents(&vb, enc[k]);
    }
}

} // verus!
