//! The strategy that keeps an ordered index from timestamp to the sorted
//! ids carrying it, answering range queries without a full scan.

use vstd::prelude::*;
use crate::indexing::Indexer;
use crate::indexing::pair_key_lt;
use crate::indexing::scan_tagged;
use crate::indexing::time_map::TimeMap;
use crate::criteria::TimeRange;
use crate::store::PrimaryStore;
use crate::types::Recordable;
use crate::types::UniqueId;

verus! {

/// Indexes every record under its timestamp in an ordered map of sorted
/// buckets; a range query walks the keys in order and flattens the buckets.
/// Tag retrieval falls back to a full scan.
pub struct IndexByTime {
    pub ids_by_time: TimeMap,
}

impl IndexByTime {
    /// An empty index.
    pub fn new() -> (r: IndexByTime)
        ensures
            r.ids_by_time.inv(),
            forall|t: u64, k: u128| !r.ids_by_time.entry(t, k),
    {
        IndexByTime { ids_by_time: TimeMap::new() }
    }
}

impl<T: Recordable> Indexer<T> for IndexByTime {
    open spec fn inv(&self) -> bool {
        self.ids_by_time.inv()
    }

    open spec fn consistent(&self, m: Map<u128, T>) -> bool {
        &&& forall|k: u128|
            #[trigger] m.contains_key(k) ==> self.ids_by_time.entry(
                m[k].timestamp_spec().ticks,
                k,
            )
        &&& forall|t: u64, k: u128|
            #[trigger] self.ids_by_time.entry(t, k) ==> m.contains_key(k)
                && m[k].timestamp_spec().ticks == t
    }

    open spec fn covers_tag(&self, tag: Seq<char>) -> bool {
        true
    }

    fn insert(&mut self, id: &UniqueId, recordable: &T, Ghost(m): Ghost<Map<u128, T>>) {
        let ts = recordable.timestamp();
        self.ids_by_time.file(ts, id);
    }

    fn update(&mut self, id: &UniqueId, old_rec: &T, new_rec: &T, Ghost(m): Ghost<Map<u128, T>>) {
        let to = old_rec.timestamp();
        let tn = new_rec.timestamp();
        if to.ticks != tn.ticks {
            self.ids_by_time.unfile(to, id);
            self.ids_by_time.file(tn, id);
        } else {
            proof {
                let m1 = m.insert(id.raw, *new_rec);
                assert(m[id.raw].timestamp_spec() == to);
                assert(m1[id.raw].timestamp_spec().ticks == to.ticks);
            }
        }
    }

    fn remove(&mut self, id: &UniqueId, recordable: &T, Ghost(m): Ghost<Map<u128, T>>) {
        let ts = recordable.timestamp();
        self.ids_by_time.unfile(ts, id);
    }

    fn retrieve_range<'s>(&self, store: &'s PrimaryStore<T>, criteria: &TimeRange) -> (out: Vec<
        (UniqueId, &'s T),
    >) {
        let ghost m = store.map();
        let ghost ps = self.ids_by_time.pairs@;
        let mut out: Vec<(UniqueId, &T)> = Vec::new();
        let nj = self.ids_by_time.pairs.len();
        let mut j: usize = 0;
        while j < nj
            invariant
                ps == self.ids_by_time.pairs@,
                nj == ps.len(),
                m == store.map(),
                store.inv(),
                self.ids_by_time.inv(),
                forall|k: u128|
                    #[trigger] m.contains_key(k) ==> self.ids_by_time.entry(
                        m[k].timestamp_spec().ticks,
                        k,
                    ),
                forall|t: u64, k: u128|
                    #[trigger] self.ids_by_time.entry(t, k) ==> m.contains_key(k)
                        && m[k].timestamp_spec().ticks == t,
                0 <= j <= nj,
                forall|p: int|
                    0 <= p < out@.len() ==> m.contains_key((#[trigger] out@[p]).0.raw) && m[out@[p].0.raw]
                        == *out@[p].1 && criteria.contains_spec(out@[p].1.timestamp_spec()),
                forall|w: int, k: u128|
                    0 <= w < j && #[trigger] ps[w].1.has(k) && criteria.contains_spec(ps[w].0)
                        ==> exists|p: int| 0 <= p < out@.len() && out@[p].0.raw == k,
                forall|p1: int, p2: int|
                    0 <= p1 < p2 < out@.len() ==> pair_key_lt(out@[p1], out@[p2]),
                forall|p: int, w: int|
                    0 <= p < out@.len() && j <= w < nj ==> (#[trigger] out@[p]).1.timestamp_spec().ticks
                        < (#[trigger] ps[w]).0.ticks,
            decreases nj - j,
        {
            let key = self.ids_by_time.pairs[j].0;
            if criteria.contains(&key) {
                let bucket = &self.ids_by_time.pairs[j].1;
                let ghost bseq = ps[j as int].1.seq();
                let nq = bucket.len();
                let mut q: usize = 0;
                while q < nq
                    invariant
                        ps == self.ids_by_time.pairs@,
                        nj == ps.len(),
                        m == store.map(),
                        store.inv(),
                        self.ids_by_time.inv(),
                        forall|k: u128|
                            #[trigger] m.contains_key(k) ==> self.ids_by_time.entry(
                                m[k].timestamp_spec().ticks,
                                k,
                            ),
                        forall|t: u64, k: u128|
                            #[trigger] self.ids_by_time.entry(t, k) ==> m.contains_key(k)
                                && m[k].timestamp_spec().ticks == t,
                        0 <= j < nj,
                        key == ps[j as int].0,
                        criteria.contains_spec(key),
                        bucket == &ps[j as int].1,
                        bseq == ps[j as int].1.seq(),
                        nq == bseq.len(),
                        0 <= q <= nq,
                        forall|p: int|
                            0 <= p < out@.len() ==> m.contains_key((#[trigger] out@[p]).0.raw) && m[out@[p].0.raw]
                                == *out@[p].1 && criteria.contains_spec(out@[p].1.timestamp_spec()),
                        forall|w: int, k: u128|
                            0 <= w < j && #[trigger] ps[w].1.has(k) && criteria.contains_spec(
                                ps[w].0,
                            ) ==> exists|p: int| 0 <= p < out@.len() && out@[p].0.raw == k,
                        forall|w: int|
                            0 <= w < q ==> exists|p: int|
                                0 <= p < out@.len() && out@[p].0.raw == #[trigger] bseq[w],
                        forall|p1: int, p2: int|
                            0 <= p1 < p2 < out@.len() ==> pair_key_lt(out@[p1], out@[p2]),
                        forall|p: int, w: int|
                            0 <= p < out@.len() && j < w < nj ==> (#[trigger] out@[p]).1.timestamp_spec().ticks
                                < (#[trigger] ps[w]).0.ticks,
                        forall|p: int|
                            0 <= p < out@.len() ==> (#[trigger] out@[p]).1.timestamp_spec().ticks
                                <= key.ticks,
                        forall|p: int|
                            0 <= p < out@.len() && (#[trigger] out@[p]).1.timestamp_spec().ticks
                                == key.ticks && q < nq ==> out@[p].0.raw < bseq[q as int],
                    decreases nq - q,
                {
                    let uid = bucket.id_at(q);
                    proof {
                        assert(ps[j as int].0.ticks == key.ticks && ps[j as int].1.has(uid.raw));
                        assert(self.ids_by_time.entry(key.ticks, uid.raw));
                        assert(m.contains_key(uid.raw) && m[uid.raw].timestamp_spec().ticks
                            == key.ticks);
                        assert(m[uid.raw].timestamp_spec() == key);
                    }
                    let ghost before = out@;
                    match store.get(&uid) {
                        Some(v) => {
                            out.push((uid, v));
                        },
                        None => {
                            proof {
                                assert(false);
                            }
                        },
                    }
                    proof {
                        assert(out@.len() == before.len() + 1);
                        assert(forall|p: int| 0 <= p < before.len() ==> out@[p] == before[p]);
                        assert(out@[before.len() as int].0 == uid);
                        assert(*out@[before.len() as int].1 == m[uid.raw]);
                        assert forall|w: int| 0 <= w < q + 1 implies exists|p: int|
                            0 <= p < out@.len() && out@[p].0.raw == #[trigger] bseq[w] by {
                            if w < q {
                                let p = choose|p: int|
                                    0 <= p < before.len() && (#[trigger] before[p]).0.raw
                                        == bseq[w];
                                assert(out@[p].0.raw == bseq[w]);
                            } else {
                                assert(out@[before.len() as int].0.raw == bseq[w]);
                            }
                        }
                        assert forall|w: int, k: u128|
                            0 <= w < j && #[trigger] ps[w].1.has(k) && criteria.contains_spec(
                                ps[w].0,
                            ) implies exists|p: int| 0 <= p < out@.len() && out@[p].0.raw == k by {
                            let p = choose|p: int|
                                0 <= p < before.len() && (#[trigger] before[p]).0.raw == k;
                            assert(out@[p].0.raw == k);
                        }
                        assert forall|p1: int, p2: int| 0 <= p1 < p2 < out@.len() implies
                            pair_key_lt(out@[p1], out@[p2]) by {
                            if p2 == before.len() {
                                assert(out@[p1] == before[p1]);
                                assert(out@[p2].1.timestamp_spec().ticks == key.ticks);
                                assert(out@[p2].0.raw == bseq[q as int]);
                            }
                        }
                        assert forall|p: int|
                            0 <= p < out@.len() && (#[trigger] out@[p]).1.timestamp_spec().ticks
                                == key.ticks && q + 1 < nq implies out@[p].0.raw < bseq[q as int
                            + 1] by {
                            assert(bseq[q as int] < bseq[q as int + 1]);
                            if p < before.len() {
                                assert(before[p].0.raw < bseq[q as int]);
                            }
                        }
                    }
                    q = q + 1;
                }
                proof {
                    assert forall|w: int, k: u128|
                        0 <= w < j + 1 && #[trigger] ps[w].1.has(k) && criteria.contains_spec(
                            ps[w].0,
                        ) implies exists|p: int| 0 <= p < out@.len() && out@[p].0.raw == k by {
                        if w == j {
                            let wq = choose|wq: int| 0 <= wq < bseq.len() && bseq[wq] == k;
                        }
                    }
                    assert forall|p: int, w: int|
                        0 <= p < out@.len() && j + 1 <= w < nj implies (#[trigger] out@[p]).1.timestamp_spec().ticks
                        < (#[trigger] ps[w]).0.ticks by {
                        assert(ps[j as int].0.ticks < ps[w].0.ticks);
                    }
                }
            } else {
                proof {
                    assert forall|w: int, k: u128|
                        0 <= w < j + 1 && #[trigger] ps[w].1.has(k) && criteria.contains_spec(
                            ps[w].0,
                        ) implies exists|p: int| 0 <= p < out@.len() && out@[p].0.raw == k by {
                        if w == j {
                            assert(!criteria.contains_spec(ps[j as int].0));
                        }
                    }
                }
            }
            j = j + 1;
        }
        proof {
            assert forall|k: u128|
                #[trigger] m.contains_key(k) && criteria.contains_spec(
                    m[k].timestamp_spec(),
                ) implies exists|p: int| 0 <= p < out@.len() && out@[p].0.raw == k by {
                assert(self.ids_by_time.entry(m[k].timestamp_spec().ticks, k));
                let w = choose|w: int|
                    0 <= w < ps.len() && (#[trigger] ps[w]).0.ticks == m[k].timestamp_spec().ticks
                        && ps[w].1.has(k);
                assert(ps[w].0 == m[k].timestamp_spec());
            }
        }
        out
    }

    fn retrieve_tagged<'s>(&self, store: &'s PrimaryStore<T>, criteria: &str) -> (out: Vec<
        (UniqueId, &'s T),
    >) {
        scan_tagged(store, criteria)
    }
}

} // verus!
