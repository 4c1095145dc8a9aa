//! The indexing layer: a capability interface kept in lock-step with the
//! primary store by every mutation, and queried for index-accelerated
//! retrieval.

use vstd::prelude::*;
use crate::criteria::TimeRange;
use crate::store::PrimaryStore;
use crate::store::lemma_seq_to_map_contains;
use crate::store::lemma_seq_to_map_index;
use crate::types::Recordable;
use crate::types::UniqueId;
use crate::types::str_eq;

pub mod bucket;
pub mod index_by_all_tags;
pub mod index_by_time;
pub mod index_by_tags;
pub mod index_selected_tags;
pub mod tag_map;
pub mod time_map;

verus! {

/// Strict ordering of result pairs by timestamp, ties broken by ascending
/// id: the sort key of range retrieval.
pub open spec fn pair_key_lt<T: Recordable>(a: (UniqueId, &T), b: (UniqueId, &T)) -> bool {
    a.1.timestamp_spec().ticks < b.1.timestamp_spec().ticks || (a.1.timestamp_spec().ticks
        == b.1.timestamp_spec().ticks && a.0.raw < b.0.raw)
}

/// What range retrieval must return: exactly the live records whose
/// timestamp falls within the range, in ascending timestamp order with ties
/// broken by ascending id.
pub open spec fn range_result_ok<T: Recordable>(
    m: Map<u128, T>,
    range: TimeRange,
    out: Seq<(UniqueId, &T)>,
) -> bool {
    &&& forall|i: int|
        0 <= i < out.len() ==> m.contains_key(#[trigger] out[i].0.raw) && m[out[i].0.raw]
            == *out[i].1 && range.contains_spec(out[i].1.timestamp_spec())
    &&& forall|k: u128|
        #[trigger] m.contains_key(k) && range.contains_spec(m[k].timestamp_spec()) ==> exists|
            i: int,
        | 0 <= i < out.len() && out[i].0.raw == k
    &&& forall|i: int, j: int| 0 <= i < j < out.len() ==> pair_key_lt(out[i], out[j])
}

/// What tagged retrieval must return: when the tag is covered, exactly the
/// live records carrying the tag, each id once; when it is not, nothing.
pub open spec fn tagged_result_ok<T: Recordable>(
    m: Map<u128, T>,
    tag: Seq<char>,
    out: Seq<(UniqueId, &T)>,
    covered: bool,
) -> bool {
    if covered {
        &&& forall|i: int|
            0 <= i < out.len() ==> m.contains_key(#[trigger] out[i].0.raw) && m[out[i].0.raw]
                == *out[i].1 && m[out[i].0.raw].tags_spec().contains(tag)
        &&& forall|k: u128|
            #[trigger] m.contains_key(k) && m[k].tags_spec().contains(tag) ==> exists|i: int|
                0 <= i < out.len() && out[i].0.raw == k
        &&& forall|i: int, j: int| 0 <= i < j < out.len() ==> out[i].0.raw != out[j].0.raw
    } else {
        out.len() == 0
    }
}

/// Index-accelerated range retrieval returns exactly the id set a full
/// scan filtered by the equivalent criteria returns: an id appears in the
/// result precisely when its live record's timestamp lies in the range.
pub proof fn lemma_range_retrieval_exact<T: Recordable>(
    m: Map<u128, T>,
    range: TimeRange,
    out: Seq<(UniqueId, &T)>,
)
    requires
        range_result_ok(m, range, out),
    ensures
        forall|k: u128|
            (exists|i: int| 0 <= i < out.len() && (#[trigger] out[i]).0.raw == k) <==> (
            #[trigger] m.contains_key(k) && range.contains_spec(m[k].timestamp_spec())),
{
    assert forall|k: u128|
        (exists|i: int| 0 <= i < out.len() && (#[trigger] out[i]).0.raw == k) <==> (
        #[trigger] m.contains_key(k) && range.contains_spec(m[k].timestamp_spec())) by {
        if exists|i: int| 0 <= i < out.len() && (#[trigger] out[i]).0.raw == k {
            let i = choose|i: int| 0 <= i < out.len() && (#[trigger] out[i]).0.raw == k;
            assert(m.contains_key(out[i].0.raw));
        }
    }
}

/// Index-accelerated tag retrieval, where the tag is covered, returns
/// exactly the id set a full scan filtered by the tag returns.
pub proof fn lemma_tagged_retrieval_exact<T: Recordable>(
    m: Map<u128, T>,
    tag: Seq<char>,
    out: Seq<(UniqueId, &T)>,
)
    requires
        tagged_result_ok(m, tag, out, true),
    ensures
        forall|k: u128|
            (exists|i: int| 0 <= i < out.len() && (#[trigger] out[i]).0.raw == k) <==> (
            #[trigger] m.contains_key(k) && m[k].tags_spec().contains(tag)),
{
    assert forall|k: u128|
        (exists|i: int| 0 <= i < out.len() && (#[trigger] out[i]).0.raw == k) <==> (
        #[trigger] m.contains_key(k) && m[k].tags_spec().contains(tag)) by {
        if exists|i: int| 0 <= i < out.len() && (#[trigger] out[i]).0.raw == k {
            let i = choose|i: int| 0 <= i < out.len() && (#[trigger] out[i]).0.raw == k;
            assert(m.contains_key(out[i].0.raw));
        }
    }
}

/// An indexer maintains derived lookup structures in sync with the primary
/// store, and answers range and tag queries against them.
pub trait Indexer<T: Recordable>: Sized {
    /// Internal well-formedness of the index structures.
    spec fn inv(&self) -> bool;

    /// Whether the index holds exactly the entries implied by a primary
    /// map: every live id under its current timestamp and tags, and nothing
    /// else.
    spec fn consistent(&self, m: Map<u128, T>) -> bool;

    /// Whether retrieval by this tag reflects the primary store. An index
    /// with buckets fixed at construction does not cover other tags unless
    /// it falls back to a full scan for them.
    spec fn covers_tag(&self, tag: Seq<char>) -> bool;

    /// Index a record under an id that the index does not hold yet.
    fn insert(&mut self, id: &UniqueId, recordable: &T, Ghost(m): Ghost<Map<u128, T>>)
        requires
            old(self).inv(),
            old(self).consistent(m),
            !m.contains_key(id.raw),
        ensures
            final(self).inv(),
            final(self).consistent(m.insert(id.raw, *recordable)),
            forall|tg: Seq<char>| final(self).covers_tag(tg) == old(self).covers_tag(tg),
    ;

    /// Exchange what is indexed under a live id: `old_rec` is exactly what
    /// the index holds for it.
    fn update(&mut self, id: &UniqueId, old_rec: &T, new_rec: &T, Ghost(m): Ghost<Map<u128, T>>)
        requires
            old(self).inv(),
            old(self).consistent(m),
            m.contains_key(id.raw),
            m[id.raw] == *old_rec,
        ensures
            final(self).inv(),
            final(self).consistent(m.insert(id.raw, *new_rec)),
            forall|tg: Seq<char>| final(self).covers_tag(tg) == old(self).covers_tag(tg),
    ;

    /// Remove all trace of a live id: `recordable` is exactly what the
    /// index holds for it.
    fn remove(&mut self, id: &UniqueId, recordable: &T, Ghost(m): Ghost<Map<u128, T>>)
        requires
            old(self).inv(),
            old(self).consistent(m),
            m.contains_key(id.raw),
            m[id.raw] == *recordable,
        ensures
            final(self).inv(),
            final(self).consistent(m.remove(id.raw)),
            forall|tg: Seq<char>| final(self).covers_tag(tg) == old(self).covers_tag(tg),
    ;

    /// All live records whose timestamp satisfies the range, joined against
    /// the primary store, ascending by timestamp then id.
    fn retrieve_range<'s>(&self, store: &'s PrimaryStore<T>, criteria: &TimeRange) -> (out: Vec<
        (UniqueId, &'s T),
    >)
        requires
            self.inv(),
            store.inv(),
            self.consistent(store.map()),
        ensures
            range_result_ok(store.map(), *criteria, out@),
    ;

    /// All live records carrying the tag, joined against the primary store.
    fn retrieve_tagged<'s>(&self, store: &'s PrimaryStore<T>, criteria: &str) -> (out: Vec<
        (UniqueId, &'s T),
    >)
        requires
            self.inv(),
            store.inv(),
            self.consistent(store.map()),
        ensures
            tagged_result_ok(store.map(), criteria@, out@, self.covers_tag(criteria@)),
    ;
}

/// Whether a tag list carries the given tag.
pub(crate) fn tags_contain(tags: &Vec<String>, tag: &str) -> (r: bool)
    ensures
        r == tags.deep_view().contains(tag@),
{
    let n = tags.len();
    let mut i: usize = 0;
    while i < n
        invariant
            n == tags@.len(),
            0 <= i <= n,
            forall|j: int| 0 <= j < i ==> tags.deep_view()[j] != tag@,
        decreases n - i,
    {
        if str_eq(tags[i].as_str(), tag) {
            assert(tags.deep_view()[i as int] == tag@);
            return true;
        }
        i = i + 1;
    }
    assert(forall|j: int| 0 <= j < tags.deep_view().len() ==> tags.deep_view()[j] != tag@);
    false
}

/// Whether two tag lists are equal, element for element.
pub(crate) fn tag_lists_eq(a: &Vec<String>, b: &Vec<String>) -> (r: bool)
    ensures
        r == (a.deep_view() == b.deep_view()),
{
    let n = a.len();
    if n != b.len() {
        proof {
            assert(a.deep_view().len() != b.deep_view().len());
        }
        return false;
    }
    let mut i: usize = 0;
    while i < n
        invariant
            n == a@.len(),
            n == b@.len(),
            0 <= i <= n,
            forall|j: int| 0 <= j < i ==> a.deep_view()[j] == b.deep_view()[j],
        decreases n - i,
    {
        if !str_eq(a[i].as_str(), b[i].as_str()) {
            proof {
                assert(a.deep_view()[i as int] != b.deep_view()[i as int]);
            }
            return false;
        }
        i = i + 1;
    }
    proof {
        assert(a.deep_view() =~= b.deep_view());
    }
    true
}

/// Whether pair `a` sorts strictly before pair `b` by (timestamp, id).
fn pair_before<T: Recordable>(a: &(UniqueId, &T), b: &(UniqueId, &T)) -> (r: bool)
    ensures
        r == pair_key_lt(*a, *b),
{
    let ta = a.1.timestamp();
    let tb = b.1.timestamp();
    ta.ticks < tb.ticks || (ta.ticks == tb.ticks && a.0.raw < b.0.raw)
}

/// Full scan of the primary store for a timestamp range: filter every live
/// record, then keep the output ordered by (timestamp, id).
pub(crate) fn scan_range<'s, T: Recordable>(store: &'s PrimaryStore<T>, range: &TimeRange) -> (out:
    Vec<(UniqueId, &'s T)>)
    requires
        store.inv(),
    ensures
        range_result_ok(store.map(), *range, out@),
{
    let ghost s = store.seq();
    let mut out: Vec<(UniqueId, &T)> = Vec::new();
    let n = store.len();
    let mut i: usize = 0;
    while i < n
        invariant
            store.inv(),
            s == store.seq(),
            n == s.len(),
            0 <= i <= n,
            forall|p: int|
                0 <= p < out@.len() ==> exists|q: int|
                    0 <= q < i && s[q].id.raw == #[trigger] out@[p].0.raw && s[q].data
                        == *out@[p].1,
            forall|p: int|
                0 <= p < out@.len() ==> range.contains_spec(#[trigger] out@[p].1.timestamp_spec()),
            forall|q: int|
                0 <= q < i && range.contains_spec(#[trigger] s[q].data.timestamp_spec()) ==> exists|
                    p: int,
                | 0 <= p < out@.len() && out@[p].0.raw == s[q].id.raw,
            forall|p1: int, p2: int| 0 <= p1 < p2 < out@.len() ==> pair_key_lt(out@[p1], out@[p2]),
        decreases n - i,
    {
        let rec = store.entry_at(i);
        let ts = rec.data.timestamp();
        if range.contains(&ts) {
            let cur = (rec.id, &rec.data);
            proof {
                assert(s[i as int].id.raw == cur.0.raw);
                assert(s[i as int].data == *cur.1);
                assert forall|p: int| 0 <= p < out@.len() implies (#[trigger] out@[p]).0.raw
                    != cur.0.raw by {
                    let key = out@[p].0.raw;
                    let q = choose|q: int|
                        0 <= q < i as int && s[q].id.raw == out@[p].0.raw && s[q].data
                            == *out@[p].1;
                    assert(s[q].id.raw != s[i as int].id.raw);
                }
            }
            let ghost before = out@;
            let ghost_pos = insert_sorted(&mut out, cur);
            proof {
                let pos = ghost_pos@;
                assert(out@ == before.insert(pos, cur));
                assert forall|p: int| 0 <= p < out@.len() implies exists|q: int|
                    0 <= q < i as int + 1 && s[q].id.raw == (#[trigger] out@[p]).0.raw && s[q].data
                        == *out@[p].1 by {
                    if p < pos {
                        assert(out@[p] == before[p]);
                        let q = choose|q: int|
                            0 <= q < i as int && s[q].id.raw == before[p].0.raw && s[q].data
                                == *before[p].1;
                        assert(0 <= q < i as int + 1 && s[q].id.raw == out@[p].0.raw && s[q].data
                            == *out@[p].1);
                    } else if p == pos {
                        assert(out@[p] == cur);
                        assert(s[i as int].id.raw == out@[p].0.raw && s[i as int].data
                            == *out@[p].1);
                    } else {
                        assert(out@[p] == before[p - 1]);
                        let q = choose|q: int|
                            0 <= q < i as int && s[q].id.raw == before[p - 1].0.raw && s[q].data
                                == *before[p - 1].1;
                        assert(0 <= q < i as int + 1 && s[q].id.raw == out@[p].0.raw && s[q].data
                            == *out@[p].1);
                    }
                }
                assert forall|p: int| 0 <= p < out@.len() implies range.contains_spec(
                    (#[trigger] out@[p]).1.timestamp_spec(),
                ) by {
                    if p < pos {
                        assert(out@[p] == before[p]);
                    } else if p == pos {
                        assert(out@[p] == cur);
                    } else {
                        assert(out@[p] == before[p - 1]);
                    }
                }
                assert forall|q: int|
                    0 <= q < i as int + 1 && range.contains_spec(
                        (#[trigger] s[q].data).timestamp_spec(),
                    ) implies exists|p: int| 0 <= p < out@.len() && out@[p].0.raw
                    == s[q].id.raw by {
                    if q < i as int {
                        let p0 = choose|p0: int|
                            0 <= p0 < before.len() && before[p0].0.raw == s[q].id.raw;
                        if p0 < pos {
                            assert(out@[p0].0.raw == s[q].id.raw);
                        } else {
                            assert(out@[p0 + 1].0.raw == s[q].id.raw);
                        }
                    } else {
                        assert(out@[pos].0.raw == s[q].id.raw);
                    }
                }
            }
        }
        i = i + 1;
    }
    proof {
        assert forall|p: int| 0 <= p < out@.len() implies store.map().contains_key(
            #[trigger] out@[p].0.raw,
        ) && store.map()[out@[p].0.raw] == *out@[p].1 && range.contains_spec(
            out@[p].1.timestamp_spec(),
        ) by {
            let q = choose|q: int|
                0 <= q < s.len() && s[q].id.raw == out@[p].0.raw && s[q].data == *out@[p].1;
            lemma_seq_to_map_index(s, q);
        }
        assert forall|k: u128|
            #[trigger] store.map().contains_key(k) && range.contains_spec(
                store.map()[k].timestamp_spec(),
            ) implies exists|p: int| 0 <= p < out@.len() && out@[p].0.raw == k by {
            lemma_seq_to_map_contains(s, k);
            let q = choose|q: int| 0 <= q < s.len() && s[q].id.raw == k;
            lemma_seq_to_map_index(s, q);
            assert(range.contains_spec(s[q].data.timestamp_spec()));
        }
    }
    out
}

/// Splice a pair into a (timestamp, id)-sorted vector at its place. The new
/// pair's id must differ from every id already present.
fn insert_sorted<'s, T: Recordable>(
    out: &mut Vec<(UniqueId, &'s T)>,
    cur: (UniqueId, &'s T),
) -> (pos: Ghost<int>)
    requires
        forall|p: int| 0 <= p < old(out)@.len() ==> (#[trigger] old(out)@[p]).0.raw != cur.0.raw,
        forall|p1: int, p2: int|
            0 <= p1 < p2 < old(out)@.len() ==> pair_key_lt(old(out)@[p1], old(out)@[p2]),
    ensures
        0 <= pos@ <= old(out)@.len(),
        final(out)@ == old(out)@.insert(pos@, cur),
        forall|p1: int, p2: int|
            0 <= p1 < p2 < final(out)@.len() ==> pair_key_lt(final(out)@[p1], final(out)@[p2]),
{
    let mut pos = out.len();
    loop
        invariant
            0 <= pos <= out@.len(),
            forall|j: int| pos <= j < out@.len() ==> pair_key_lt(cur, #[trigger] out@[j]),
            forall|p1: int, p2: int| 0 <= p1 < p2 < out@.len() ==> pair_key_lt(out@[p1], out@[p2]),
            forall|p: int| 0 <= p < out@.len() ==> (#[trigger] out@[p]).0.raw != cur.0.raw,
        ensures
            0 <= pos <= out@.len(),
            forall|j: int| pos <= j < out@.len() ==> pair_key_lt(cur, #[trigger] out@[j]),
            forall|p1: int, p2: int| 0 <= p1 < p2 < out@.len() ==> pair_key_lt(out@[p1], out@[p2]),
            forall|p: int| 0 <= p < out@.len() ==> (#[trigger] out@[p]).0.raw != cur.0.raw,
            pos > 0 ==> !pair_key_lt(cur, out@[pos - 1]),
        decreases pos,
    {
        if pos == 0 {
            break ;
        }
        if !pair_before(&cur, &out[pos - 1]) {
            break ;
        }
        pos = pos - 1;
    }
    let ghost before = out@;
    out.insert(pos, cur);
    proof {
        assert(out@ =~= before.insert(pos as int, cur));
        assert forall|p1: int, p2: int| 0 <= p1 < p2 < out@.len() implies pair_key_lt(
            out@[p1],
            out@[p2],
        ) by {
            if p2 < pos {
            } else if p1 > pos {
                assert(out@[p1] == before[p1 - 1] && out@[p2] == before[p2 - 1]);
            } else if p1 == pos && p2 > pos {
                assert(out@[p2] == before[p2 - 1]);
                assert(pair_key_lt(cur, before[p2 - 1]));
            } else if p2 == pos && p1 < pos {
                assert(out@[p1] == before[p1]);
                if pos as int - 1 > p1 {
                    assert(pair_key_lt(before[p1], before[pos - 1]));
                }
                assert(!pair_key_lt(cur, before[pos - 1]));
                assert(before[pos - 1].0.raw != cur.0.raw);
                assert(pair_key_lt(before[pos - 1], cur));
            } else if p1 < pos && p2 > pos {
                assert(out@[p1] == before[p1] && out@[p2] == before[p2 - 1]);
                assert(pair_key_lt(cur, before[p2 - 1]));
                if pos as int - 1 > p1 {
                    assert(pair_key_lt(before[p1], before[pos - 1]));
                }
                assert(!pair_key_lt(cur, before[pos - 1]));
                assert(before[pos - 1].0.raw != cur.0.raw);
                assert(pair_key_lt(before[pos - 1], cur));
            }
        }
    }
    Ghost(pos as int)
}

/// Full scan of the primary store for one tag: every live record whose tag
/// list carries it, in store order.
pub(crate) fn scan_tagged<'s, T: Recordable>(store: &'s PrimaryStore<T>, tag: &str) -> (out: Vec<
    (UniqueId, &'s T),
>)
    requires
        store.inv(),
    ensures
        tagged_result_ok(store.map(), tag@, out@, true),
{
    let ghost s = store.seq();
    let mut out: Vec<(UniqueId, &T)> = Vec::new();
    let n = store.len();
    let mut i: usize = 0;
    while i < n
        invariant
            store.inv(),
            s == store.seq(),
            n == s.len(),
            0 <= i <= n,
            forall|p: int|
                0 <= p < out@.len() ==> exists|q: int|
                    0 <= q < i && s[q].id.raw == #[trigger] out@[p].0.raw && s[q].data
                        == *out@[p].1,
            forall|p: int|
                0 <= p < out@.len() ==> (#[trigger] out@[p].1).tags_spec().contains(tag@),
            forall|q: int|
                0 <= q < i && (#[trigger] s[q].data).tags_spec().contains(tag@) ==> exists|p: int|
                    0 <= p < out@.len() && out@[p].0.raw == s[q].id.raw,
            forall|p1: int, p2: int|
                0 <= p1 < p2 < out@.len() ==> out@[p1].0.raw != out@[p2].0.raw,
        decreases n - i,
    {
        let rec = store.entry_at(i);
        let tags = rec.data.tags();
        if tags_contain(&tags, tag) {
            let ghost before = out@;
            out.push((rec.id, &rec.data));
            proof {
                assert(out@.len() == before.len() + 1);
                assert(forall|p: int| 0 <= p < before.len() ==> out@[p] == before[p]);
                assert(out@[before.len() as int].0.raw == s[i as int].id.raw);
                assert(*out@[before.len() as int].1 == s[i as int].data);
                assert forall|p: int| 0 <= p < before.len() implies before[p].0.raw != s[
                    i as int
                ].id.raw by {
                    let q = choose|q: int|
                        0 <= q < i && s[q].id.raw == before[p].0.raw && s[q].data == *before[p].1;
                    assert(s[q].id.raw != s[i as int].id.raw);
                }
                assert forall|p: int| 0 <= p < out@.len() implies exists|q: int|
                    0 <= q < i as int + 1 && s[q].id.raw == (#[trigger] out@[p]).0.raw && s[q].data
                        == *out@[p].1 by {
                    if p < before.len() {
                        assert(out@[p] == before[p]);
                        let q = choose|q: int|
                            0 <= q < i as int && s[q].id.raw == before[p].0.raw && s[q].data
                                == *before[p].1;
                        assert(0 <= q < i as int + 1 && s[q].id.raw == out@[p].0.raw && s[q].data
                            == *out@[p].1);
                    } else {
                        assert(s[i as int].id.raw == out@[p].0.raw && s[i as int].data
                            == *out@[p].1);
                    }
                }
                assert forall|q: int|
                    0 <= q < i as int + 1 && (#[trigger] s[q].data).tags_spec().contains(
                        tag@,
                    ) implies exists|p: int| 0 <= p < out@.len() && out@[p].0.raw
                    == s[q].id.raw by {
                    if q < i as int {
                        let p0 = choose|p0: int|
                            0 <= p0 < before.len() && before[p0].0.raw == s[q].id.raw;
                        assert(out@[p0].0.raw == s[q].id.raw);
                    } else {
                        assert(out@[before.len() as int].0.raw == s[q].id.raw);
                    }
                }
            }
        }
        i = i + 1;
    }
    proof {
        assert forall|p: int| 0 <= p < out@.len() implies store.map().contains_key(
            #[trigger] out@[p].0.raw,
        ) && store.map()[out@[p].0.raw] == *out@[p].1 && store.map()[out@[p].0.raw].tags_spec(
        ).contains(tag@) by {
            let q = choose|q: int|
                0 <= q < s.len() && s[q].id.raw == out@[p].0.raw && s[q].data == *out@[p].1;
            lemma_seq_to_map_index(s, q);
        }
        assert forall|k: u128|
            #[trigger] store.map().contains_key(k) && store.map()[k].tags_spec().contains(
                tag@,
            ) implies exists|p: int| 0 <= p < out@.len() && out@[p].0.raw == k by {
            lemma_seq_to_map_contains(s, k);
            let q = choose|q: int| 0 <= q < s.len() && s[q].id.raw == k;
            lemma_seq_to_map_index(s, q);
            assert(s[q].data.tags_spec().contains(tag@));
        }
    }
    out
}

/// Join every id of a bucket against the primary store, in bucket order.
pub(crate) fn collect_bucket<'s, T: Recordable>(
    bucket: &crate::indexing::bucket::IdBucket,
    store: &'s PrimaryStore<T>,
) -> (out: Vec<(UniqueId, &'s T)>)
    requires
        store.inv(),
        bucket.inv(),
        forall|k: u128| #[trigger] bucket.has(k) ==> store.map().contains_key(k),
    ensures
        out@.len() == bucket.seq().len(),
        forall|p: int|
            0 <= p < out@.len() ==> (#[trigger] out@[p]).0.raw == bucket.seq()[p] && *out@[p].1
                == store.map()[bucket.seq()[p]],
{
    let mut out: Vec<(UniqueId, &T)> = Vec::new();
    let n = bucket.len();
    let mut i: usize = 0;
    while i < n
        invariant
            store.inv(),
            bucket.inv(),
            forall|k: u128| #[trigger] bucket.has(k) ==> store.map().contains_key(k),
            n == bucket.seq().len(),
            0 <= i <= n,
            out@.len() == i,
            forall|p: int|
                0 <= p < i ==> (#[trigger] out@[p]).0.raw == bucket.seq()[p] && *out@[p].1
                    == store.map()[bucket.seq()[p]],
        decreases n - i,
    {
        let uid = bucket.id_at(i);
        proof {
            assert(bucket.has(uid.raw));
        }
        match store.get(&uid) {
            Some(v) => {
                out.push((uid, v));
            },
            None => {
                proof {
                    assert(false);
                }
            },
        }
        i = i + 1;
    }
    out
}

/// The strategy that maintains nothing: every retrieval is a full scan.
pub struct NoIndex;

impl<T: Recordable> Indexer<T> for NoIndex {
    open spec fn inv(&self) -> bool {
        true
    }

    open spec fn consistent(&self, m: Map<u128, T>) -> bool {
        true
    }

    open spec fn covers_tag(&self, tag: Seq<char>) -> bool {
        true
    }

    fn insert(&mut self, id: &UniqueId, recordable: &T, Ghost(m): Ghost<Map<u128, T>>) {
    }

    fn update(&mut self, id: &UniqueId, old_rec: &T, new_rec: &T, Ghost(m): Ghost<Map<u128, T>>) {
    }

    fn remove(&mut self, id: &UniqueId, recordable: &T, Ghost(m): Ghost<Map<u128, T>>) {
    }

    fn retrieve_range<'s>(&self, store: &'s PrimaryStore<T>, criteria: &TimeRange) -> (out: Vec<
        (UniqueId, &'s T),
    >) {
        scan_range(store, criteria)
    }

    fn retrieve_tagged<'s>(&self, store: &'s PrimaryStore<T>, criteria: &str) -> (out: Vec<
        (UniqueId, &'s T),
    >) {
        scan_tagged(store, criteria)
    }
}

} // verus!
