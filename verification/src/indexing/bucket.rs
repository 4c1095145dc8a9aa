//! The sorted list of ids filed under one index key. Buckets keep their ids
//! strictly sorted, so membership and maintenance use binary search and the
//! contents are duplicate-free by construction.

use vstd::prelude::*;
use crate::types::UniqueId;

verus! {

/// A bucket: the ids filed under one index key, strictly sorted.
pub struct IdBucket {
    pub ids: Vec<UniqueId>,
}

impl IdBucket {
    /// The raw id values in bucket order.
    pub open spec fn seq(&self) -> Seq<u128> {
        self.ids@.map_values(|u: UniqueId| u.raw)
    }

    /// Whether the bucket files a given id.
    pub open spec fn has(&self, k: u128) -> bool {
        self.seq().contains(k)
    }

    /// Well-formedness: strictly sorted, hence duplicate-free.
    pub open spec fn inv(&self) -> bool {
        forall|i: int, j: int| 0 <= i < j < self.seq().len() ==> self.seq()[i] < self.seq()[j]
    }

    /// An empty bucket.
    pub fn new() -> (r: IdBucket)
        ensures
            r.inv(),
            r.seq() =~= Seq::<u128>::empty(),
    {
        IdBucket { ids: Vec::new() }
    }

    /// How many ids the bucket files.
    pub fn len(&self) -> (r: usize)
        ensures
            r == self.seq().len(),
    {
        self.ids.len()
    }

    /// The id at one position of the bucket order.
    pub fn id_at(&self, i: usize) -> (r: UniqueId)
        requires
            i < self.seq().len(),
        ensures
            r.raw == self.seq()[i as int],
    {
        self.ids[i]
    }

    /// The first position whose id is not below `k`: binary search over the
    /// sorted ids.
    fn lower_bound(&self, k: u128) -> (pos: usize)
        requires
            self.inv(),
        ensures
            pos <= self.seq().len(),
            forall|j: int| 0 <= j < pos ==> self.seq()[j] < k,
            forall|j: int| pos <= j < self.seq().len() ==> self.seq()[j] >= k,
    {
        let mut lo: usize = 0;
        let mut hi: usize = self.ids.len();
        while lo < hi
            invariant
                self.inv(),
                0 <= lo <= hi <= self.seq().len(),
                forall|j: int| 0 <= j < lo ==> self.seq()[j] < k,
                forall|j: int| hi <= j < self.seq().len() ==> self.seq()[j] >= k,
            decreases hi - lo,
        {
            let mid = lo + (hi - lo) / 2;
            if self.ids[mid].raw < k {
                assert(forall|j: int|
                    0 <= j <= mid ==> self.seq()[j] <= self.seq()[mid as int] && self.seq()[mid
                        as int] < k);
                lo = mid + 1;
            } else {
                assert(forall|j: int|
                    mid <= j < self.seq().len() ==> self.seq()[j] >= self.seq()[mid as int]);
                hi = mid;
            }
        }
        lo
    }

    /// Whether the bucket files an id.
    pub fn contains(&self, id: &UniqueId) -> (r: bool)
        requires
            self.inv(),
        ensures
            r == self.has(id.raw),
    {
        let pos = self.lower_bound(id.raw);
        if pos < self.ids.len() && self.ids[pos].raw == id.raw {
            assert(self.seq()[pos as int] == id.raw);
            true
        } else {
            proof {
                assert forall|j: int| 0 <= j < self.seq().len() implies self.seq()[j]
                    != id.raw by {
                    if j >= pos && pos < self.seq().len() {
                        assert(self.seq()[pos as int] >= id.raw);
                    }
                }
            }
            false
        }
    }

    /// File an id in the bucket; filing an id the bucket already holds
    /// leaves the bucket unchanged.
    pub fn insert(&mut self, id: &UniqueId)
        requires
            old(self).inv(),
        ensures
            final(self).inv(),
            forall|k: u128| final(self).has(k) <==> old(self).has(k) || k == id.raw,
    {
        let pos = self.lower_bound(id.raw);
        if pos < self.ids.len() && self.ids[pos].raw == id.raw {
            proof {
                assert(self.seq()[pos as int] == id.raw);
                assert(forall|k: u128| self.has(k) <==> old(self).has(k) || k == id.raw);
            }
            return ;
        }
        proof {
            if pos < self.seq().len() {
                assert(self.seq()[pos as int] > id.raw);
            }
        }
        self.ids.insert(pos, *id);
        proof {
            let s0 = old(self).seq();
            let s1 = self.seq();
            assert(s1 =~= s0.insert(pos as int, id.raw)) by {
                assert forall|j: int| 0 <= j < s1.len() implies s1[j] == s0.insert(
                    pos as int,
                    id.raw,
                )[j] by {
                    assert(s1[j] == self.ids@[j].raw);
                }
            }
            assert forall|i: int, j: int| 0 <= i < j < s1.len() implies s1[i] < s1[j] by {
                if j < pos {
                } else if i > pos {
                } else if i == pos && j > pos {
                    assert(s1[j] == s0[j - 1] && s0[j - 1] >= s0[pos as int]);
                } else if j == pos && i < pos {
                } else if i < pos && j > pos {
                    assert(s1[i] == s0[i] && s1[j] == s0[j - 1]);
                    assert(s0[i] < id.raw);
                    assert(s0[j - 1] >= id.raw);
                }
            }
            assert forall|k: u128| self.has(k) <==> old(self).has(k) || k == id.raw by {
                if self.has(k) {
                    let w = choose|w: int| 0 <= w < s1.len() && s1[w] == k;
                    if w < pos {
                        assert(s0[w] == k);
                    } else if w > pos {
                        assert(s0[w - 1] == k);
                    }
                }
                if old(self).has(k) {
                    let w = choose|w: int| 0 <= w < s0.len() && s0[w] == k;
                    if w < pos {
                        assert(s1[w] == k);
                    } else {
                        assert(s1[w + 1] == k);
                    }
                }
                assert(s1[pos as int] == id.raw);
            }
        }
    }

    /// Remove an id from the bucket; removing an id the bucket does not
    /// hold leaves the bucket unchanged.
    pub fn remove(&mut self, id: &UniqueId)
        requires
            old(self).inv(),
        ensures
            final(self).inv(),
            forall|k: u128| final(self).has(k) <==> old(self).has(k) && k != id.raw,
    {
        let pos = self.lower_bound(id.raw);
        if pos < self.ids.len() && self.ids[pos].raw == id.raw {
            self.ids.remove(pos);
            proof {
                let s0 = old(self).seq();
                let s1 = self.seq();
                assert(s1 =~= s0.remove(pos as int)) by {
                    assert forall|j: int| 0 <= j < s1.len() implies s1[j] == s0.remove(
                        pos as int,
                    )[j] by {
                        assert(s1[j] == self.ids@[j].raw);
                    }
                }
                assert forall|k: u128| self.has(k) <==> old(self).has(k) && k != id.raw by {
                    if self.has(k) {
                        let w = choose|w: int| 0 <= w < s1.len() && s1[w] == k;
                        if w < pos {
                            assert(s0[w] == k);
                            assert(s0[w] < s0[pos as int]);
                        } else {
                            assert(s0[w + 1] == k);
                            assert(s0[w + 1] > s0[pos as int]);
                        }
                    }
                    if old(self).has(k) && k != id.raw {
                        let w = choose|w: int| 0 <= w < s0.len() && s0[w] == k;
                        if w < pos {
                            assert(s1[w] == k);
                        } else if w > pos {
                            assert(s1[w - 1] == k);
                        }
                    }
                }
            }
        } else {
            proof {
                assert forall|j: int| 0 <= j < self.seq().len() implies self.seq()[j]
                    != id.raw by {
                    if j >= pos && pos < self.seq().len() {
                        assert(self.seq()[pos as int] >= id.raw);
                    }
                }
            }
        }
    }
}

/// What the bucket invariant yields after any sequence of filings and
/// removals: the remaining ids are strictly sorted and duplicate-free.
pub proof fn lemma_bucket_sorted_unique(b: &IdBucket)
    requires
        b.inv(),
    ensures
        forall|i: int, j: int| 0 <= i < j < b.seq().len() ==> b.seq()[i] < b.seq()[j],
        forall|i: int, j: int|
            0 <= i < b.seq().len() && 0 <= j < b.seq().len() && i != j ==> b.seq()[i] != b.seq()[j],
{
}

} // verus!
