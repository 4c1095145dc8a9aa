//! An ordered mapping from timestamp to bucket: keys kept strictly sorted,
//! each key owning one sorted bucket of ids.

use vstd::prelude::*;
use crate::indexing::bucket::IdBucket;
use crate::types::Timestamp;
use crate::types::UniqueId;

verus! {

/// A timestamp-keyed family of buckets, keys strictly ascending.
pub struct TimeMap {
    pub pairs: Vec<(Timestamp, IdBucket)>,
}

/// Whether some pair of the family files an id under a tick count.
pub open spec fn timemap_entry(pairs: Seq<(Timestamp, IdBucket)>, t: u64, k: u128) -> bool {
    exists|i: int|
        0 <= i < pairs.len() && (#[trigger] pairs[i]).0.ticks == t && pairs[i].1.has(k)
}

impl TimeMap {
    /// Whether an id is filed under a tick count.
    pub open spec fn entry(&self, t: u64, k: u128) -> bool {
        timemap_entry(self.pairs@, t, k)
    }

    /// Well-formedness: keys strictly ascending and buckets sorted.
    pub open spec fn inv(&self) -> bool {
        &&& forall|i: int, j: int|
            0 <= i < j < self.pairs@.len() ==> (#[trigger] self.pairs@[i]).0.ticks
                < (#[trigger] self.pairs@[j]).0.ticks
        &&& forall|i: int| 0 <= i < self.pairs@.len() ==> (#[trigger] self.pairs@[i]).1.inv()
    }

    /// A map with no buckets at all.
    pub fn new() -> (r: TimeMap)
        ensures
            r.inv(),
            r.pairs@.len() == 0,
            forall|t: u64, k: u128| !r.entry(t, k),
    {
        TimeMap { pairs: Vec::new() }
    }

    /// The first position whose key is not below the given tick count.
    fn lower_bound(&self, t: u64) -> (pos: usize)
        requires
            self.inv(),
        ensures
            pos <= self.pairs@.len(),
            forall|j: int| 0 <= j < pos ==> (#[trigger] self.pairs@[j]).0.ticks < t,
            forall|j: int| pos <= j < self.pairs@.len() ==> (#[trigger] self.pairs@[j]).0.ticks >= t,
    {
        let n = self.pairs.len();
        let mut i: usize = 0;
        while i < n
            invariant
                self.inv(),
                n == self.pairs@.len(),
                0 <= i <= n,
                forall|j: int| 0 <= j < i ==> (#[trigger] self.pairs@[j]).0.ticks < t,
            decreases n - i,
        {
            if self.pairs[i].0.ticks >= t {
                proof {
                    assert forall|j: int| i <= j < n implies (#[trigger] self.pairs@[j]).0.ticks
                        >= t by {
                        if j > i {
                            assert(self.pairs@[i as int].0.ticks < self.pairs@[j].0.ticks);
                        }
                    }
                }
                return i;
            }
            i = i + 1;
        }
        i
    }

    /// File an id under a timestamp, opening a bucket for a new key.
    pub fn file(&mut self, t: Timestamp, id: &UniqueId)
        requires
            old(self).inv(),
        ensures
            final(self).inv(),
            forall|tt: u64, k: u128|
                final(self).entry(tt, k) <==> old(self).entry(tt, k) || (tt == t.ticks && k
                    == id.raw),
    {
        let ghost before = self.pairs@;
        let pos = self.lower_bound(t.ticks);
        if pos < self.pairs.len() && self.pairs[pos].0.ticks == t.ticks {
            let (key, mut bucket) = self.pairs.remove(pos);
            bucket.insert(id);
            self.pairs.insert(pos, (key, bucket));
            proof {
                assert(self.pairs@ =~= before.update(pos as int, (before[pos as int].0, bucket)));
                let now = self.pairs@;
                assert forall|tt: u64, k: u128|
                    self.entry(tt, k) <==> old(self).entry(tt, k) || (tt == t.ticks && k
                        == id.raw) by {
                    if self.entry(tt, k) {
                        let w = choose|w: int|
                            0 <= w < now.len() && now[w].0.ticks == tt && now[w].1.has(k);
                        if w != pos {
                            assert(before[w].0.ticks == tt && before[w].1.has(k));
                        } else {
                            if before[pos as int].1.has(k) {
                                assert(timemap_entry(before, tt, k));
                            }
                        }
                    }
                    if old(self).entry(tt, k) {
                        let w = choose|w: int|
                            0 <= w < before.len() && before[w].0.ticks == tt && before[w].1.has(k);
                        if w != pos {
                            assert(now[w].0.ticks == tt && now[w].1.has(k));
                        } else {
                            assert(now[pos as int].0.ticks == tt && now[pos as int].1.has(k));
                        }
                    }
                    if tt == t.ticks && k == id.raw {
                        assert(now[pos as int].0.ticks == tt && now[pos as int].1.has(k));
                    }
                }
            }
        } else {
            let mut bucket = IdBucket::new();
            bucket.insert(id);
            self.pairs.insert(pos, (t, bucket));
            proof {
                let now = self.pairs@;
                assert(now =~= before.insert(pos as int, (t, bucket)));
                assert(forall|k: u128| now[pos as int].1.has(k) <==> k == id.raw);
                if pos < before.len() {
                    assert(before[pos as int].0.ticks >= t.ticks && before[pos as int].0.ticks
                        != t.ticks);
                }
                assert forall|i: int, j: int| 0 <= i < j < now.len() implies now[i].0.ticks
                    < now[j].0.ticks by {
                    if j < pos {
                    } else if i > pos {
                        assert(now[i] == before[i - 1] && now[j] == before[j - 1]);
                    } else if i == pos && j > pos {
                        assert(now[j] == before[j - 1] && before[j - 1].0.ticks >= before[pos
                            as int].0.ticks);
                    } else if j == pos && i < pos {
                        assert(now[i] == before[i]);
                    } else if i < pos && j > pos {
                        assert(now[i] == before[i] && now[j] == before[j - 1]);
                        assert(before[i].0.ticks < t.ticks);
                        assert(before[j - 1].0.ticks >= t.ticks);
                    }
                }
                assert forall|tt: u64, k: u128|
                    self.entry(tt, k) <==> old(self).entry(tt, k) || (tt == t.ticks && k
                        == id.raw) by {
                    if self.entry(tt, k) {
                        let w = choose|w: int|
                            0 <= w < now.len() && now[w].0.ticks == tt && now[w].1.has(k);
                        if w < pos {
                            assert(before[w].0.ticks == tt && before[w].1.has(k));
                        } else if w > pos {
                            assert(before[w - 1].0.ticks == tt && before[w - 1].1.has(k));
                        }
                    }
                    if old(self).entry(tt, k) {
                        let w = choose|w: int|
                            0 <= w < before.len() && before[w].0.ticks == tt && before[w].1.has(k);
                        if w < pos {
                            assert(now[w].0.ticks == tt && now[w].1.has(k));
                        } else {
                            assert(now[w + 1].0.ticks == tt && now[w + 1].1.has(k));
                        }
                    }
                    if tt == t.ticks && k == id.raw {
                        assert(now[pos as int].0.ticks == tt && now[pos as int].1.has(k));
                    }
                }
            }
        }
    }

    /// Strike an id from a timestamp's bucket; dropped when no bucket holds
    /// that key.
    pub fn unfile(&mut self, t: Timestamp, id: &UniqueId)
        requires
            old(self).inv(),
        ensures
            final(self).inv(),
            forall|tt: u64, k: u128|
                final(self).entry(tt, k) <==> old(self).entry(tt, k) && !(tt == t.ticks && k
                    == id.raw),
    {
        let ghost before = self.pairs@;
        let pos = self.lower_bound(t.ticks);
        if pos < self.pairs.len() && self.pairs[pos].0.ticks == t.ticks {
            let (key, mut bucket) = self.pairs.remove(pos);
            bucket.remove(id);
            self.pairs.insert(pos, (key, bucket));
            proof {
                assert(self.pairs@ =~= before.update(pos as int, (before[pos as int].0, bucket)));
                let now = self.pairs@;
                assert forall|tt: u64, k: u128|
                    self.entry(tt, k) <==> old(self).entry(tt, k) && !(tt == t.ticks && k
                        == id.raw) by {
                    if self.entry(tt, k) {
                        let w = choose|w: int|
                            0 <= w < now.len() && now[w].0.ticks == tt && now[w].1.has(k);
                        if w != pos {
                            assert(before[w].0.ticks == tt && before[w].1.has(k));
                            if tt == t.ticks {
                                assert(before[w].0.ticks == before[pos as int].0.ticks);
                            }
                        } else {
                            assert(timemap_entry(before, tt, k));
                        }
                    }
                    if old(self).entry(tt, k) && !(tt == t.ticks && k == id.raw) {
                        let w = choose|w: int|
                            0 <= w < before.len() && before[w].0.ticks == tt && before[w].1.has(k);
                        if w != pos {
                            assert(now[w].0.ticks == tt && now[w].1.has(k));
                        } else {
                            assert(now[pos as int].0.ticks == tt && now[pos as int].1.has(k));
                        }
                    }
                }
            }
        } else {
            proof {
                assert forall|tt: u64, k: u128|
                    self.entry(tt, k) <==> old(self).entry(tt, k) && !(tt == t.ticks && k
                        == id.raw) by {
                    if old(self).entry(tt, k) && tt == t.ticks && k == id.raw {
                        let w = choose|w: int|
                            0 <= w < before.len() && before[w].0.ticks == tt && before[w].1.has(k);
                        if w < pos {
                            assert(before[w].0.ticks < t.ticks);
                        } else {
                            assert(before[w].0.ticks >= t.ticks);
                            if pos < before.len() && w != pos {
                                assert(before[pos as int].0.ticks < before[w].0.ticks);
                            }
                        }
                    }
                }
            }
        }
    }
}

} // verus!
