//! The strategy that indexes records only by a fixed, pre-declared set of
//! tags, and falls back to a full scan for any other tag.

use vstd::prelude::*;
use crate::indexing::Indexer;
use crate::indexing::collect_bucket;
use crate::indexing::scan_range;
use crate::indexing::scan_tagged;
use crate::indexing::tag_map::TagMap;
use crate::criteria::TimeRange;
use crate::store::PrimaryStore;
use crate::types::Recordable;
use crate::types::UniqueId;

verus! {

/// Indexes records by a fixed set of tags chosen at construction; a query
/// for any other tag falls back to a full scan, so every tag is answered
/// faithfully. Range retrieval falls back to a full scan. A
/// default-constructed value would be useless (it would index by no tag),
/// so the only constructor is `for_tags`.
pub struct IndexBySelectedTags {
    pub ids_by_tag: TagMap,
}

impl IndexBySelectedTags {
    /// An index that tracks elements only by the specified tags.
    pub fn for_tags(tags: Vec<String>) -> (r: IndexBySelectedTags)
        ensures
            r.ids_by_tag.inv(),
            forall|tg: Seq<char>, k: u128| !r.ids_by_tag.entry(tg, k),
            forall|tg: Seq<char>| #[trigger]
                r.ids_by_tag.tracked_tag(tg) ==> tags.deep_view().contains(tg),
            forall|t: int|
                0 <= t < tags.deep_view().len() ==> r.ids_by_tag.tracked_tag(
                    #[trigger] tags.deep_view()[t],
                ),
    {
        IndexBySelectedTags { ids_by_tag: TagMap::from_tags(tags) }
    }
}

impl<T: Recordable> Indexer<T> for IndexBySelectedTags {
    open spec fn inv(&self) -> bool {
        self.ids_by_tag.inv()
    }

    open spec fn consistent(&self, m: Map<u128, T>) -> bool {
        forall|tg: Seq<char>, k: u128|
            #![trigger self.ids_by_tag.entry(tg, k)]
            #![trigger m[k].tags_spec().contains(tg)]
            self.ids_by_tag.entry(tg, k) <==> m.contains_key(k) && m[k].tags_spec().contains(tg)
                && self.ids_by_tag.tracked_tag(tg)
    }

    open spec fn covers_tag(&self, tag: Seq<char>) -> bool {
        true
    }

    fn insert(&mut self, id: &UniqueId, recordable: &T, Ghost(m): Ghost<Map<u128, T>>) {
        let tags = recordable.tags();
        self.ids_by_tag.file_all(&tags, id, false);
        proof {
            let m1 = m.insert(id.raw, *recordable);
            assert forall|tg: Seq<char>, k: u128|
                self.ids_by_tag.entry(tg, k) <==> m1.contains_key(k) && m1[k].tags_spec().contains(
                    tg,
                ) && self.ids_by_tag.tracked_tag(tg) by {
                assert(self.ids_by_tag.entry(tg, k) <==> old(self).ids_by_tag.entry(tg, k) || (k
                    == id.raw && tags.deep_view().contains(tg) && old(self).ids_by_tag.tracked_tag(
                    tg,
                )));
                assert(old(self).ids_by_tag.entry(tg, k) <==> m.contains_key(k)
                    && m[k].tags_spec().contains(tg) && old(self).ids_by_tag.tracked_tag(tg));
                assert(self.ids_by_tag.tracked_tag(tg) == old(self).ids_by_tag.tracked_tag(tg));
            }
        }
    }

    fn update(&mut self, id: &UniqueId, old_rec: &T, new_rec: &T, Ghost(m): Ghost<Map<u128, T>>) {
        let old_tags = old_rec.tags();
        let new_tags = new_rec.tags();
        if !crate::indexing::tag_lists_eq(&old_tags, &new_tags) {
            self.ids_by_tag.unfile_all(&old_tags, id);
            let ghost mid = self.ids_by_tag;
            self.ids_by_tag.file_all(&new_tags, id, false);
            proof {
                let m1 = m.insert(id.raw, *new_rec);
                assert forall|tg: Seq<char>, k: u128|
                    self.ids_by_tag.entry(tg, k) <==> m1.contains_key(k)
                        && m1[k].tags_spec().contains(tg) && self.ids_by_tag.tracked_tag(tg) by {
                    assert(old(self).ids_by_tag.entry(tg, k) <==> m.contains_key(k)
                        && m[k].tags_spec().contains(tg) && old(self).ids_by_tag.tracked_tag(tg));
                    assert(mid.entry(tg, k) <==> old(self).ids_by_tag.entry(tg, k) && !(k == id.raw
                        && old_tags.deep_view().contains(tg)));
                    assert(mid.tracked_tag(tg) == old(self).ids_by_tag.tracked_tag(tg));
                    assert(self.ids_by_tag.entry(tg, k) <==> mid.entry(tg, k) || (k == id.raw
                        && new_tags.deep_view().contains(tg) && mid.tracked_tag(tg)));
                    assert(self.ids_by_tag.tracked_tag(tg) == mid.tracked_tag(tg));
                }
            }
        } else {
            proof {
                let m1 = m.insert(id.raw, *new_rec);
                assert forall|tg: Seq<char>, k: u128|
                    self.ids_by_tag.entry(tg, k) <==> m1.contains_key(k)
                        && m1[k].tags_spec().contains(tg) && self.ids_by_tag.tracked_tag(tg) by {
                    assert(old(self).ids_by_tag.entry(tg, k) <==> m.contains_key(k)
                        && m[k].tags_spec().contains(tg) && old(self).ids_by_tag.tracked_tag(tg));
                    if k == id.raw {
                        assert(m1[k] == *new_rec && m[k] == *old_rec);
                        assert(new_rec.tags_spec() == old_rec.tags_spec());
                    }
                }
            }
        }
    }

    fn remove(&mut self, id: &UniqueId, recordable: &T, Ghost(m): Ghost<Map<u128, T>>) {
        let tags = recordable.tags();
        self.ids_by_tag.unfile_all(&tags, id);
        proof {
            let m1 = m.remove(id.raw);
            assert forall|tg: Seq<char>, k: u128|
                self.ids_by_tag.entry(tg, k) <==> m1.contains_key(k) && m1[k].tags_spec().contains(
                    tg,
                ) && self.ids_by_tag.tracked_tag(tg) by {
                assert(self.ids_by_tag.entry(tg, k) <==> old(self).ids_by_tag.entry(tg, k) && !(k
                    == id.raw && tags.deep_view().contains(tg)));
                assert(self.ids_by_tag.tracked_tag(tg) == old(self).ids_by_tag.tracked_tag(tg));
                assert(old(self).ids_by_tag.entry(tg, k) <==> m.contains_key(k)
                    && m[k].tags_spec().contains(tg) && old(self).ids_by_tag.tracked_tag(tg));
            }
        }
    }

    fn retrieve_range<'s>(&self, store: &'s PrimaryStore<T>, criteria: &TimeRange) -> (out: Vec<
        (UniqueId, &'s T),
    >) {
        scan_range(store, criteria)
    }

    fn retrieve_tagged<'s>(&self, store: &'s PrimaryStore<T>, criteria: &str) -> (out: Vec<
        (UniqueId, &'s T),
    >) {
        match self.ids_by_tag.bucket_for(criteria) {
            Some(bucket) => {
                proof {
                    assert forall|k: u128| #[trigger] bucket.has(k) implies store.map(
                    ).contains_key(k) by {
                        assert(self.ids_by_tag.entry(criteria@, k));
                    }
                }
                let out = collect_bucket(bucket, store);
                proof {
                    assert forall|p: int| 0 <= p < out@.len() implies store.map().contains_key(
                        (#[trigger] out@[p]).0.raw,
                    ) && store.map()[out@[p].0.raw] == *out@[p].1
                        && store.map()[out@[p].0.raw].tags_spec().contains(criteria@) by {
                        assert(bucket.has(bucket.seq()[p]));
                        assert(self.ids_by_tag.entry(criteria@, bucket.seq()[p]));
                    }
                    assert forall|k: u128|
                        #[trigger] store.map().contains_key(k) && store.map()[k].tags_spec(
                        ).contains(criteria@) implies exists|p: int|
                        0 <= p < out@.len() && out@[p].0.raw == k by {
                        assert(self.ids_by_tag.entry(criteria@, k));
                        assert(bucket.has(k));
                        let w = choose|w: int| 0 <= w < bucket.seq().len() && bucket.seq()[w] == k;
                        assert(out@[w].0.raw == k);
                    }
                    assert forall|p1: int, p2: int| 0 <= p1 < p2 < out@.len() implies out@[p1].0.raw
                        != out@[p2].0.raw by {
                        assert(bucket.seq()[p1] < bucket.seq()[p2]);
                    }
                }
                out
            },
            None => scan_tagged(store, criteria),
        }
    }
}

} // verus!
