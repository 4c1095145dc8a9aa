//! A mapping from tag to bucket, shared by the tag-indexing strategies:
//! each tracked tag owns one sorted bucket of ids.

use vstd::prelude::*;
use crate::indexing::bucket::IdBucket;
use crate::types::UniqueId;
use crate::types::str_eq;

verus! {

/// A tag-keyed family of buckets with pairwise distinct tags.
pub struct TagMap {
    pub pairs: Vec<(String, IdBucket)>,
}

impl TagMap {
    /// Whether a tag owns a bucket.
    pub open spec fn tracked_tag(&self, tg: Seq<char>) -> bool {
        tagmap_tracked(self.pairs@, tg)
    }

    /// Whether an id is filed under a tag.
    pub open spec fn entry(&self, tg: Seq<char>, k: u128) -> bool {
        tagmap_entry(self.pairs@, tg, k)
    }

    /// Well-formedness: tags are pairwise distinct and buckets sorted.
    pub open spec fn inv(&self) -> bool {
        &&& forall|i: int, j: int|
            0 <= i < j < self.pairs@.len() ==> (#[trigger] self.pairs@[i]).0@
                != (#[trigger] self.pairs@[j]).0@
        &&& forall|i: int| 0 <= i < self.pairs@.len() ==> (#[trigger] self.pairs@[i]).1.inv()
    }

    /// A map with no buckets at all.
    pub fn new() -> (r: TagMap)
        ensures
            r.inv(),
            r.pairs@.len() == 0,
            forall|tg: Seq<char>| !r.tracked_tag(tg),
            forall|tg: Seq<char>, k: u128| !r.entry(tg, k),
    {
        TagMap { pairs: Vec::new() }
    }

    /// A map with one empty bucket per given tag.
    pub fn from_tags(tags: Vec<String>) -> (r: TagMap)
        ensures
            r.inv(),
            forall|tg: Seq<char>| #[trigger] r.tracked_tag(tg) ==> tags.deep_view().contains(tg),
            forall|t: int|
                0 <= t < tags.deep_view().len() ==> r.tracked_tag(
                    #[trigger] tags.deep_view()[t],
                ),
            forall|tg: Seq<char>, k: u128| !r.entry(tg, k),
    {
        let mut out = TagMap::new();
        let n = tags.len();
        let mut i: usize = 0;
        while i < n
            invariant
                n == tags@.len(),
                0 <= i <= n,
                out.inv(),
                forall|j: int|
                    0 <= j < out.pairs@.len() ==> exists|t: int|
                        0 <= t < i && (#[trigger] out.pairs@[j]).0@ == tags.deep_view()[t],
                forall|t: int|
                    0 <= t < i ==> out.tracked_tag(#[trigger] tags.deep_view()[t]),
                forall|j: int, k: u128| 0 <= j < out.pairs@.len() ==> !(#[trigger] out.pairs@[j].1.has(k)),
            decreases n - i,
        {
            let ghost before = out.pairs@;
            match out.find(tags[i].as_str()) {
                Some(w) => {
                    proof {
                        assert(out.tracked_tag(tags.deep_view()[i as int]));
                    }
                },
                None => {
                    out.pairs.push((tags[i].clone(), IdBucket::new()));
                    proof {
                        let now = out.pairs@;
                        assert(forall|j: int| 0 <= j < before.len() ==> now[j] == before[j]);
                        assert(now[before.len() as int].0@ == tags.deep_view()[i as int]);
                        assert(forall|k: u128| !now[before.len() as int].1.has(k));
                        assert forall|j: int| 0 <= j < now.len() implies exists|t: int|
                            0 <= t < i as int + 1 && (#[trigger] now[j]).0@
                                == tags.deep_view()[t] by {
                            if j < before.len() {
                                let t = choose|t: int|
                                    0 <= t < i as int && before[j].0@ == tags.deep_view()[t];
                                assert(0 <= t < i as int + 1 && now[j].0@ == tags.deep_view()[t]);
                            } else {
                                assert(now[j].0@ == tags.deep_view()[i as int]);
                            }
                        }
                        assert forall|t: int| 0 <= t < i as int + 1 implies out.tracked_tag(
                            #[trigger] tags.deep_view()[t],
                        ) by {
                            if t < i as int {
                                let w = choose|w: int|
                                    0 <= w < before.len() && (#[trigger] before[w]).0@
                                        == tags.deep_view()[t];
                                assert(now[w].0@ == tags.deep_view()[t]);
                            } else {
                                assert(now[before.len() as int].0@ == tags.deep_view()[t]);
                            }
                        }
                    }
                },
            }
            i = i + 1;
        }
        proof {
            assert forall|tg: Seq<char>| #[trigger] out.tracked_tag(tg) implies tags.deep_view(
            ).contains(tg) by {
                let j = choose|j: int| 0 <= j < out.pairs@.len() && out.pairs@[j].0@ == tg;
                let t = choose|t: int|
                    0 <= t < n as int && (#[trigger] out.pairs@[j]).0@ == tags.deep_view()[t];
                assert(tags.deep_view()[t] == tg);
            }
            assert forall|tg: Seq<char>, k: u128| !out.entry(tg, k) by {
                if out.entry(tg, k) {
                    let w = choose|w: int|
                        0 <= w < out.pairs@.len() && out.pairs@[w].0@ == tg && out.pairs@[w].1.has(
                            k,
                        );
                }
            }
        }
        out
    }

    /// The position of a tag's bucket, if the tag is tracked.
    fn find(&self, tag: &str) -> (r: Option<usize>)
        ensures
            match r {
                Some(i) => i < self.pairs@.len() && self.pairs@[i as int].0@ == tag@,
                None => forall|i: int|
                    0 <= i < self.pairs@.len() ==> (#[trigger] self.pairs@[i]).0@ != tag@,
            },
    {
        let n = self.pairs.len();
        let mut i: usize = 0;
        while i < n
            invariant
                n == self.pairs@.len(),
                0 <= i <= n,
                forall|j: int| 0 <= j < i ==> (#[trigger] self.pairs@[j]).0@ != tag@,
            decreases n - i,
        {
            if str_eq(self.pairs[i].0.as_str(), tag) {
                return Some(i);
            }
            i = i + 1;
        }
        None
    }

    /// The bucket a tag owns, if any.
    pub fn bucket_for(&self, tag: &str) -> (r: Option<&IdBucket>)
        requires
            self.inv(),
        ensures
            match r {
                Some(b) => self.tracked_tag(tag@) && b.inv() && forall|k: u128|
                    b.has(k) <==> self.entry(tag@, k),
                None => !self.tracked_tag(tag@) && forall|tg: Seq<char>, k: u128|
                    tg == tag@ ==> !self.entry(tg, k),
            },
    {
        match self.find(tag) {
            Some(i) => {
                proof {
                    assert(self.pairs@[i as int].0@ == tag@);
                    assert forall|k: u128| self.pairs@[i as int].1.has(k) <==> self.entry(
                        tag@,
                        k,
                    ) by {
                        if self.entry(tag@, k) {
                            let w = choose|w: int|
                                0 <= w < self.pairs@.len() && self.pairs@[w].0@ == tag@
                                    && self.pairs@[w].1.has(k);
                            assert(w == i as int);
                        }
                    }
                }
                Some(&self.pairs[i].1)
            },
            None => {
                proof {
                    assert forall|tg: Seq<char>, k: u128| tg == tag@ implies !self.entry(
                        tg,
                        k,
                    ) by {
                        if self.entry(tg, k) {
                            let w = choose|w: int|
                                0 <= w < self.pairs@.len() && self.pairs@[w].0@ == tg
                                    && self.pairs@[w].1.has(k);
                        }
                    }
                }
                None
            },
        }
    }

    /// File an id under a tag. A bucket is created for an untracked tag
    /// only when `make_new` holds; otherwise the filing is dropped.
    pub fn file(&mut self, tag: &str, id: &UniqueId, make_new: bool)
        requires
            old(self).inv(),
        ensures
            final(self).inv(),
            forall|tg: Seq<char>|
                final(self).tracked_tag(tg) <==> old(self).tracked_tag(tg) || (make_new && tg
                    == tag@),
            forall|tg: Seq<char>, k: u128|
                final(self).entry(tg, k) <==> old(self).entry(tg, k) || (k == id.raw && tg == tag@
                    && (make_new || old(self).tracked_tag(tag@))),
    {
        let ghost before = self.pairs@;
        match self.find(tag) {
            Some(i) => {
                let (key, mut bucket) = self.pairs.remove(i);
                let ghost b0 = bucket;
                bucket.insert(id);
                self.pairs.insert(i, (key, bucket));
                proof {
                    assert(self.pairs@ =~= before.update(i as int, (before[i as int].0, bucket)));
                    lemma_tagmap_bucket_update(before, self.pairs@, i as int, id.raw, tag@);
                }
            },
            None => {
                if make_new {
                    let mut bucket = IdBucket::new();
                    bucket.insert(id);
                    let key = tag.to_owned();
                    self.pairs.push((key, bucket));
                    proof {
                        let now = self.pairs@;
                        assert(now.len() == before.len() + 1);
                        assert(now[before.len() as int].0@ == tag@);
                        assert(forall|j: int| 0 <= j < before.len() ==> now[j] == before[j]);
                        assert forall|tg: Seq<char>|
                            self.tracked_tag(tg) <==> old(self).tracked_tag(tg) || tg == tag@ by {
                            if self.tracked_tag(tg) {
                                let w = choose|w: int| 0 <= w < now.len() && now[w].0@ == tg;
                                if w < before.len() {
                                    assert(before[w].0@ == tg);
                                }
                            }
                            if old(self).tracked_tag(tg) {
                                let w = choose|w: int| 0 <= w < before.len() && before[w].0@ == tg;
                                assert(now[w].0@ == tg);
                            }
                        }
                        assert forall|tg: Seq<char>, k: u128|
                            self.entry(tg, k) <==> old(self).entry(tg, k) || (k == id.raw && tg
                                == tag@) by {
                            if self.entry(tg, k) {
                                let w = choose|w: int|
                                    0 <= w < now.len() && now[w].0@ == tg && now[w].1.has(k);
                                if w < before.len() {
                                    assert(before[w].0@ == tg && before[w].1.has(k));
                                }
                            }
                            if old(self).entry(tg, k) {
                                let w = choose|w: int|
                                    0 <= w < before.len() && before[w].0@ == tg && before[w].1.has(
                                        k,
                                    );
                                assert(now[w].0@ == tg && now[w].1.has(k));
                            }
                            if k == id.raw && tg == tag@ {
                                assert(now[before.len() as int].0@ == tg && now[before.len()
                                    as int].1.has(k));
                            }
                        }
                    }
                }
            },
        }
    }

    /// Strike an id from a tag's bucket; dropped when the tag is untracked.
    pub fn unfile(&mut self, tag: &str, id: &UniqueId)
        requires
            old(self).inv(),
        ensures
            final(self).inv(),
            forall|tg: Seq<char>| final(self).tracked_tag(tg) <==> old(self).tracked_tag(tg),
            forall|tg: Seq<char>, k: u128|
                final(self).entry(tg, k) <==> old(self).entry(tg, k) && !(k == id.raw && tg
                    == tag@),
    {
        let ghost before = self.pairs@;
        match self.find(tag) {
            Some(i) => {
                let (key, mut bucket) = self.pairs.remove(i);
                bucket.remove(id);
                self.pairs.insert(i, (key, bucket));
                proof {
                    assert(self.pairs@ =~= before.update(i as int, (before[i as int].0, bucket)));
                    lemma_tagmap_bucket_downdate(before, self.pairs@, i as int, id.raw, tag@);
                }
            },
            None => {
                proof {
                    assert forall|tg: Seq<char>, k: u128|
                        self.entry(tg, k) <==> old(self).entry(tg, k) && !(k == id.raw && tg
                            == tag@) by {
                        if self.entry(tg, k) && k == id.raw && tg == tag@ {
                            let w = choose|w: int|
                                0 <= w < before.len() && before[w].0@ == tg && before[w].1.has(k);
                        }
                    }
                }
            },
        }
    }
}

/// After replacing the bucket at `i` (whose tag is `tg0`) with one that
/// additionally files `kid`, entries change exactly at `(tg0, kid)`.
proof fn lemma_tagmap_bucket_update(
    before: Seq<(String, IdBucket)>,
    now: Seq<(String, IdBucket)>,
    i: int,
    kid: u128,
    tg0: Seq<char>,
)
    requires
        0 <= i < before.len(),
        now.len() == before.len(),
        forall|j: int| 0 <= j < before.len() && j != i ==> now[j] == before[j],
        now[i].0 == before[i].0,
        before[i].0@ == tg0,
        forall|j: int, l: int|
            0 <= j < l < before.len() ==> (#[trigger] before[j]).0@ != (#[trigger] before[l]).0@,
        forall|j: int| 0 <= j < before.len() ==> (#[trigger] before[j]).1.inv(),
        now[i].1.inv(),
        forall|k: u128| now[i].1.has(k) <==> before[i].1.has(k) || k == kid,
    ensures
        forall|j: int, l: int|
            0 <= j < l < now.len() ==> (#[trigger] now[j]).0@ != (#[trigger] now[l]).0@,
        forall|j: int| 0 <= j < now.len() ==> (#[trigger] now[j]).1.inv(),
        forall|tg: Seq<char>| tagmap_tracked(now, tg) <==> tagmap_tracked(before, tg),
        forall|tg: Seq<char>, k: u128|
            tagmap_entry(now, tg, k) <==> tagmap_entry(before, tg, k) || (k == kid && tg == tg0),
{
    assert forall|tg: Seq<char>| tagmap_tracked(now, tg) <==> tagmap_tracked(before, tg) by {
        if tagmap_tracked(now, tg) {
            let w = choose|w: int| 0 <= w < now.len() && now[w].0@ == tg;
            assert(before[w].0@ == tg);
        }
        if tagmap_tracked(before, tg) {
            let w = choose|w: int| 0 <= w < before.len() && before[w].0@ == tg;
            assert(now[w].0@ == tg);
        }
    }
    assert forall|tg: Seq<char>, k: u128|
        tagmap_entry(now, tg, k) <==> tagmap_entry(before, tg, k) || (k == kid && tg == tg0) by {
        if tagmap_entry(now, tg, k) {
            let w = choose|w: int| 0 <= w < now.len() && now[w].0@ == tg && now[w].1.has(k);
            if w != i {
                assert(before[w].0@ == tg && before[w].1.has(k));
            } else {
                if before[i].1.has(k) {
                    assert(tagmap_entry(before, tg, k));
                } else {
                    assert(k == kid && tg == tg0);
                }
            }
        }
        if tagmap_entry(before, tg, k) {
            let w = choose|w: int| 0 <= w < before.len() && before[w].0@ == tg && before[w].1.has(k);
            if w != i {
                assert(now[w].0@ == tg && now[w].1.has(k));
            } else {
                assert(now[i].0@ == tg && now[i].1.has(k));
            }
        }
        if k == kid && tg == tg0 {
            assert(now[i].0@ == tg && now[i].1.has(k));
        }
    }
}

/// After replacing the bucket at `i` (whose tag is `tg0`) with one that no
/// longer files `kid`, entries change exactly at `(tg0, kid)`.
proof fn lemma_tagmap_bucket_downdate(
    before: Seq<(String, IdBucket)>,
    now: Seq<(String, IdBucket)>,
    i: int,
    kid: u128,
    tg0: Seq<char>,
)
    requires
        0 <= i < before.len(),
        now.len() == before.len(),
        forall|j: int| 0 <= j < before.len() && j != i ==> now[j] == before[j],
        now[i].0 == before[i].0,
        before[i].0@ == tg0,
        forall|j: int, l: int|
            0 <= j < l < before.len() ==> (#[trigger] before[j]).0@ != (#[trigger] before[l]).0@,
        forall|j: int| 0 <= j < before.len() ==> (#[trigger] before[j]).1.inv(),
        now[i].1.inv(),
        forall|k: u128| now[i].1.has(k) <==> before[i].1.has(k) && k != kid,
    ensures
        forall|j: int, l: int|
            0 <= j < l < now.len() ==> (#[trigger] now[j]).0@ != (#[trigger] now[l]).0@,
        forall|j: int| 0 <= j < now.len() ==> (#[trigger] now[j]).1.inv(),
        forall|tg: Seq<char>| tagmap_tracked(now, tg) <==> tagmap_tracked(before, tg),
        forall|tg: Seq<char>, k: u128|
            tagmap_entry(now, tg, k) <==> tagmap_entry(before, tg, k) && !(k == kid && tg == tg0),
{
    assert forall|tg: Seq<char>| tagmap_tracked(now, tg) <==> tagmap_tracked(before, tg) by {
        if tagmap_tracked(now, tg) {
            let w = choose|w: int| 0 <= w < now.len() && now[w].0@ == tg;
            assert(before[w].0@ == tg);
        }
        if tagmap_tracked(before, tg) {
            let w = choose|w: int| 0 <= w < before.len() && before[w].0@ == tg;
            assert(now[w].0@ == tg);
        }
    }
    assert forall|tg: Seq<char>, k: u128|
        tagmap_entry(now, tg, k) <==> tagmap_entry(before, tg, k) && !(k == kid && tg == tg0) by {
        if tagmap_entry(now, tg, k) {
            let w = choose|w: int| 0 <= w < now.len() && now[w].0@ == tg && now[w].1.has(k);
            if w != i {
                assert(before[w].0@ == tg && before[w].1.has(k));
                if k == kid && tg == tg0 {
                    assert(before[w].0@ == before[i].0@);
                }
            } else {
                assert(tagmap_entry(before, tg, k));
            }
        }
        if tagmap_entry(before, tg, k) && !(k == kid && tg == tg0) {
            let w = choose|w: int| 0 <= w < before.len() && before[w].0@ == tg && before[w].1.has(k);
            if w != i {
                assert(now[w].0@ == tg && now[w].1.has(k));
            } else {
                assert(now[i].0@ == tg && now[i].1.has(k));
            }
        }
    }
}

/// Taking one more element adds exactly it to the members.
pub proof fn lemma_take_push_contains(s: Seq<Seq<char>>, i: int)
    requires
        0 <= i < s.len(),
    ensures
        forall|tg: Seq<char>|
            #[trigger] s.take(i + 1).contains(tg) <==> s.take(i).contains(tg) || tg == s[i],
{
    assert(s.take(i + 1) =~= s.take(i).push(s[i]));
    assert forall|tg: Seq<char>|
        #[trigger] s.take(i + 1).contains(tg) <==> s.take(i).contains(tg) || tg == s[i] by {
        if s.take(i + 1).contains(tg) {
            let w = choose|w: int| 0 <= w < i + 1 && #[trigger] s.take(i + 1)[w] == tg;
            if w < i {
                assert(s.take(i)[w] == tg);
            }
        }
        if s.take(i).contains(tg) {
            let w = choose|w: int| 0 <= w < i && #[trigger] s.take(i)[w] == tg;
            assert(s.take(i + 1)[w] == tg);
        }
        if tg == s[i] {
            assert(s.take(i + 1)[i] == tg);
        }
    }
}

impl TagMap {
    /// File an id under every tag of a list; untracked tags get a bucket
    /// only when `make_new` holds, and are otherwise dropped.
    pub fn file_all(&mut self, tags: &Vec<String>, id: &UniqueId, make_new: bool)
        requires
            old(self).inv(),
        ensures
            final(self).inv(),
            forall|tg: Seq<char>|
                final(self).tracked_tag(tg) <==> old(self).tracked_tag(tg) || (make_new
                    && tags.deep_view().contains(tg)),
            forall|tg: Seq<char>, k: u128|
                final(self).entry(tg, k) <==> old(self).entry(tg, k) || (k == id.raw
                    && tags.deep_view().contains(tg) && (make_new || old(self).tracked_tag(tg))),
    {
        let ghost all = tags.deep_view();
        let n = tags.len();
        let mut i: usize = 0;
        proof {
            assert(forall|tg: Seq<char>| !all.take(0).contains(tg));
        }
        while i < n
            invariant
                n == tags@.len(),
                all == tags.deep_view(),
                all.len() == n,
                0 <= i <= n,
                self.inv(),
                forall|tg: Seq<char>|
                    self.tracked_tag(tg) <==> old(self).tracked_tag(tg) || (make_new
                        && all.take(i as int).contains(tg)),
                forall|tg: Seq<char>, k: u128|
                    self.entry(tg, k) <==> old(self).entry(tg, k) || (k == id.raw && all.take(
                        i as int,
                    ).contains(tg) && (make_new || old(self).tracked_tag(tg))),
            decreases n - i,
        {
            let ghost tr0 = *self;
            self.file(tags[i].as_str(), id, make_new);
            proof {
                lemma_take_push_contains(all, i as int);
                assert(all[i as int] == tags@[i as int]@);
                assert forall|tg: Seq<char>|
                    self.tracked_tag(tg) <==> old(self).tracked_tag(tg) || (make_new && all.take(
                        i as int + 1,
                    ).contains(tg)) by {
                    assert(self.tracked_tag(tg) <==> tr0.tracked_tag(tg) || (make_new && tg
                        == all[i as int]));
                }
                assert forall|tg: Seq<char>, k: u128|
                    self.entry(tg, k) <==> old(self).entry(tg, k) || (k == id.raw && all.take(
                        i as int + 1,
                    ).contains(tg) && (make_new || old(self).tracked_tag(tg))) by {
                    assert(self.entry(tg, k) <==> tr0.entry(tg, k) || (k == id.raw && tg == all[
                        i as int
                    ] && (make_new || tr0.tracked_tag(all[i as int]))));
                    if !make_new {
                        assert(tr0.tracked_tag(all[i as int]) == old(self).tracked_tag(
                            all[i as int],
                        ));
                    }
                }
            }
            i = i + 1;
        }
        proof {
            assert(all.take(n as int) =~= all);
        }
    }

    /// Strike an id from the bucket of every tag of a list; untracked tags
    /// are dropped.
    pub fn unfile_all(&mut self, tags: &Vec<String>, id: &UniqueId)
        requires
            old(self).inv(),
        ensures
            final(self).inv(),
            forall|tg: Seq<char>| final(self).tracked_tag(tg) <==> old(self).tracked_tag(tg),
            forall|tg: Seq<char>, k: u128|
                final(self).entry(tg, k) <==> old(self).entry(tg, k) && !(k == id.raw
                    && tags.deep_view().contains(tg)),
    {
        let ghost all = tags.deep_view();
        let n = tags.len();
        let mut i: usize = 0;
        proof {
            assert(forall|tg: Seq<char>| !all.take(0).contains(tg));
        }
        while i < n
            invariant
                n == tags@.len(),
                all == tags.deep_view(),
                all.len() == n,
                0 <= i <= n,
                self.inv(),
                forall|tg: Seq<char>| self.tracked_tag(tg) <==> old(self).tracked_tag(tg),
                forall|tg: Seq<char>, k: u128|
                    self.entry(tg, k) <==> old(self).entry(tg, k) && !(k == id.raw && all.take(
                        i as int,
                    ).contains(tg)),
            decreases n - i,
        {
            let ghost tr0 = *self;
            self.unfile(tags[i].as_str(), id);
            proof {
                lemma_take_push_contains(all, i as int);
                assert(all[i as int] == tags@[i as int]@);
                assert forall|tg: Seq<char>, k: u128|
                    self.entry(tg, k) <==> old(self).entry(tg, k) && !(k == id.raw && all.take(
                        i as int + 1,
                    ).contains(tg)) by {
                    assert(self.entry(tg, k) <==> tr0.entry(tg, k) && !(k == id.raw && tg == all[
                        i as int
                    ]));
                }
            }
            i = i + 1;
        }
        proof {
            assert(all.take(n as int) =~= all);
        }
    }
}

/// Whether some pair of the family carries a tag.
pub open spec fn tagmap_tracked(pairs: Seq<(String, IdBucket)>, tg: Seq<char>) -> bool {
    exists|i: int| 0 <= i < pairs.len() && (#[trigger] pairs[i]).0@ == tg
}

/// Whether some pair of the family files an id under a tag.
pub open spec fn tagmap_entry(pairs: Seq<(String, IdBucket)>, tg: Seq<char>, k: u128) -> bool {
    exists|i: int|
        0 <= i < pairs.len() && (#[trigger] pairs[i]).0@ == tg && pairs[i].1.has(k)
}

} // verus!
