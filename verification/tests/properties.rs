use emseries::BikeTrip;
use emseries::Error;
use emseries::IndexByAllTags;
use emseries::IndexBySelectedTags;
use emseries::IndexByTags;
use emseries::IndexByTime;
use emseries::NoIndex;
use emseries::Recordable;
use emseries::Series;
use emseries::Tags;
use emseries::TimeRange;
use emseries::Timestamp;
use emseries::UniqueId;
use emseries::indexing::bucket::IdBucket;
use emseries::time_range;

fn trip(y: u16, m: u8, d: u8, comments: &str, tags: &[&str]) -> BikeTrip {
    BikeTrip {
        datetime: Timestamp::from_ymd(y, m, d),
        distance: 1000,
        duration: 600,
        comments: String::from(comments),
        tags: tags.iter().map(|t| String::from(*t)).collect(),
    }
}

fn journal_of<I: emseries::Indexer<BikeTrip>>(ts: &Series<BikeTrip, I>) -> Vec<String> {
    let mut lines = Vec::new();
    for i in 0..ts.journal_len() {
        lines.push(ts.journal_line(i).clone());
    }
    lines
}

fn sorted_ids<'a>(v: &[(UniqueId, &'a BikeTrip)]) -> Vec<u128> {
    let mut ids: Vec<u128> = v.iter().map(|p| p.0.raw).collect();
    ids.sort();
    ids
}

/// Round-trip: a run of puts, updates and deletes, then a reopen from the
/// journal, yields exactly the view held before the close.
#[test]
fn round_trip_after_mutations() {
    let mut ts: Series<BikeTrip, NoIndex> = Series::open(Vec::new()).expect("open");
    let a = ts.put(trip(2020, 1, 1, "a", &[])).expect("put");
    let b = ts.put(trip(2020, 1, 2, "b", &["x"])).expect("put");
    let c = ts.put(trip(2020, 1, 3, "c", &[])).expect("put");
    let mut b2 = ts.get(&b).expect("get").cloned().expect("live");
    b2.comments = String::from("b revised");
    ts.update(&b, b2).expect("update");
    ts.delete(&c).expect("delete");

    let reopened: Series<BikeTrip, NoIndex> = Series::open(journal_of(&ts)).expect("reopen");
    assert_eq!(reopened.records().expect("records").len(), 2);
    assert_eq!(
        reopened.get(&a).expect("get").cloned(),
        ts.get(&a).expect("get").cloned()
    );
    assert_eq!(
        reopened.get(&b).expect("get").cloned().expect("live").comments,
        String::from("b revised")
    );
    assert!(reopened.get(&c).expect("get").is_none());
}

/// Idempotent load: replaying the same journal twice produces identical
/// contents.
#[test]
fn idempotent_load() {
    let mut ts: Series<BikeTrip, NoIndex> = Series::open(Vec::new()).expect("open");
    for d in 1..=5u8 {
        ts.put(trip(2021, 3, d, "entry", &["tag"])).expect("put");
    }
    let lines = journal_of(&ts);
    let first: Series<BikeTrip, NoIndex> = Series::open(lines.clone()).expect("open");
    let second: Series<BikeTrip, NoIndex> = Series::open(lines).expect("open");
    let mut ids1 = sorted_ids(&first.records().expect("records"));
    let mut ids2 = sorted_ids(&second.records().expect("records"));
    ids1.sort();
    ids2.sort();
    assert_eq!(ids1, ids2);
    for (id, rec) in first.records().expect("records") {
        assert_eq!(second.get(&id).expect("get").cloned().expect("live"), rec.clone());
    }
}

/// Index/primary consistency for every strategy: retrieval restricted to a
/// tag returns exactly the ids a criteria-filtered full scan returns.
#[test]
fn index_matches_scan_for_all_strategies() {
    let entries = [
        trip(2022, 5, 1, "one", &["red", "blue"]),
        trip(2022, 5, 2, "two", &["red"]),
        trip(2022, 5, 3, "three", &["green"]),
        trip(2022, 5, 4, "four", &[]),
    ];
    let tags_criteria = || Tags { tags: vec![String::from("red")] };

    let mut no_index: Series<BikeTrip, NoIndex> = Series::open(Vec::new()).expect("open");
    let mut all_tags: Series<BikeTrip, IndexByAllTags> =
        Series::open_with_indexer(Vec::new(), IndexByAllTags::new()).expect("open");
    let mut by_tags: Series<BikeTrip, IndexByTags> =
        Series::open_with_indexer(Vec::new(), IndexByTags::new()).expect("open");
    let mut selected: Series<BikeTrip, IndexBySelectedTags> =
        Series::open_with_indexer(Vec::new(), IndexBySelectedTags::for_tags(vec![]))
            .expect("open");
    let mut by_time: Series<BikeTrip, IndexByTime> =
        Series::open_with_indexer(Vec::new(), IndexByTime::new()).expect("open");

    for e in &entries {
        no_index.put(e.clone()).expect("put");
        all_tags.put(e.clone()).expect("put");
        by_tags.put(e.clone()).expect("put");
        selected.put(e.clone()).expect("put");
        by_time.put(e.clone()).expect("put");
    }

    let expected = sorted_ids(&no_index.search(tags_criteria()).expect("search"));
    assert_eq!(expected.len(), 2);
    assert_eq!(
        sorted_ids(&no_index.search_tagged("red").expect("tagged")).len(),
        2
    );
    assert_eq!(
        sorted_ids(&all_tags.search_tagged("red").expect("tagged")),
        sorted_ids(&all_tags.search(tags_criteria()).expect("search"))
    );
    assert_eq!(
        sorted_ids(&by_tags.search_tagged("red").expect("tagged")),
        sorted_ids(&by_tags.search(tags_criteria()).expect("search"))
    );
    assert_eq!(
        sorted_ids(&selected.search_tagged("red").expect("tagged")),
        sorted_ids(&selected.search(tags_criteria()).expect("search"))
    );
    assert_eq!(
        sorted_ids(&by_time.search_tagged("red").expect("tagged")),
        sorted_ids(&by_time.search(tags_criteria()).expect("search"))
    );
}

/// Index/primary consistency survives updates and deletes.
#[test]
fn index_follows_update_and_delete() {
    let mut ts: Series<BikeTrip, IndexByAllTags> =
        Series::open_with_indexer(Vec::new(), IndexByAllTags::new()).expect("open");
    let a = ts.put(trip(2023, 1, 1, "a", &["keep"])).expect("put");
    let b = ts.put(trip(2023, 1, 2, "b", &["keep"])).expect("put");
    let mut a2 = ts.get(&a).expect("get").cloned().expect("live");
    a2.tags = vec![String::from("moved")];
    ts.update(&a, a2).expect("update");
    ts.delete(&b).expect("delete");

    assert_eq!(ts.search_tagged("keep").expect("tagged").len(), 0);
    let moved = ts.search_tagged("moved").expect("tagged");
    assert_eq!(moved.len(), 1);
    assert_eq!(moved[0].0, a);
}

/// Sorted-bucket correctness: filing colliding ids and striking a subset
/// leaves the bucket sorted and duplicate-free.
#[test]
fn sorted_bucket_insert_remove() {
    let mut bucket = IdBucket::new();
    let raws: [u128; 7] = [9, 3, 14, 3, 1, 9, 20];
    for r in raws {
        bucket.insert(&UniqueId { raw: r });
    }
    assert_eq!(bucket.len(), 5);
    bucket.remove(&UniqueId { raw: 3 });
    bucket.remove(&UniqueId { raw: 20 });
    bucket.remove(&UniqueId { raw: 777 });
    assert_eq!(bucket.len(), 3);
    let mut prev: Option<u128> = None;
    for i in 0..bucket.len() {
        let cur = bucket.id_at(i).raw;
        if let Some(p) = prev {
            assert!(p < cur, "bucket must stay strictly sorted");
        }
        prev = Some(cur);
    }
    assert!(bucket.contains(&UniqueId { raw: 9 }));
    assert!(!bucket.contains(&UniqueId { raw: 3 }));
}

/// Range inclusivity: an inclusive start admits a record exactly on the
/// start, and an exclusive end rejects one exactly on the end.
#[test]
fn range_inclusivity() {
    let a = Timestamp::from_ymd(2019, 6, 1);
    let b = Timestamp::from_ymd(2019, 6, 30);
    let mut ts: Series<BikeTrip, NoIndex> = Series::open(Vec::new()).expect("open");
    ts.put(trip(2019, 6, 1, "on start", &[])).expect("put");
    ts.put(trip(2019, 6, 15, "inside", &[])).expect("put");
    ts.put(trip(2019, 6, 30, "on end", &[])).expect("put");

    let found = ts.search(time_range(a, true, b, false)).expect("search");
    assert_eq!(found.len(), 2);
    for (_, rec) in &found {
        assert_ne!(rec.comments, String::from("on end"));
    }

    let range = TimeRange::new(a, true, b, false);
    let ranged = ts.search_range(&range).expect("range");
    assert_eq!(sorted_ids(&ranged), sorted_ids(&found));
}

/// Five dated records; a sorted search over an inclusive range returns the
/// middle three in timestamp order, and an `IndexByTime`-backed series
/// returns the identical id and value set for the same bound.
#[test]
fn five_trips_range_scenario() {
    let trips = [
        trip(2011, 10, 29, "first", &[]),
        trip(2011, 10, 31, "second", &[]),
        trip(2011, 11, 02, "third", &[]),
        trip(2011, 11, 04, "fourth", &[]),
        trip(2011, 11, 05, "fifth", &[]),
    ];
    let mut plain: Series<BikeTrip, NoIndex> = Series::open(Vec::new()).expect("open");
    let mut timed: Series<BikeTrip, IndexByTime> =
        Series::open_with_indexer(Vec::new(), IndexByTime::new()).expect("open");
    for t in &trips {
        plain.put(t.clone()).expect("put");
        timed.put(t.clone()).expect("put");
    }

    let sorted = plain
        .search_sorted(
            time_range(
                Timestamp::from_ymd(2011, 10, 31),
                true,
                Timestamp::from_ymd(2011, 11, 04),
                true,
            ),
            |l: &BikeTrip, r: &BikeTrip| l.timestamp().ticks.cmp(&r.timestamp().ticks),
        )
        .expect("sorted");
    assert_eq!(sorted.len(), 3);
    assert_eq!(sorted[0].1.comments, String::from("second"));
    assert_eq!(sorted[1].1.comments, String::from("third"));
    assert_eq!(sorted[2].1.comments, String::from("fourth"));

    let range = TimeRange::new(
        Timestamp::from_ymd(2011, 10, 31),
        true,
        Timestamp::from_ymd(2011, 11, 04),
        true,
    );
    let ranged = timed.search_range(&range).expect("range");
    assert_eq!(ranged.len(), 3);
    let mut comments: Vec<String> = ranged.iter().map(|p| p.1.comments.clone()).collect();
    comments.sort();
    assert_eq!(
        comments,
        vec![
            String::from("fourth"),
            String::from("second"),
            String::from("third")
        ]
    );
    // Ascending by timestamp, ties broken by id.
    assert_eq!(ranged[0].1.comments, String::from("second"));
    assert_eq!(ranged[1].1.comments, String::from("third"));
    assert_eq!(ranged[2].1.comments, String::from("fourth"));
}

/// A selected-tags index returns a record carrying the chosen tag, and not
/// a record tagged otherwise.
#[test]
fn selected_tags_scenario() {
    let mut ts: Series<BikeTrip, IndexBySelectedTags> = Series::open_with_indexer(
        Vec::new(),
        IndexBySelectedTags::for_tags(vec![String::from("Long!")]),
    )
    .expect("open");
    let long = ts.put(trip(2024, 2, 1, "a long one", &["Long!"])).expect("put");
    let short = ts.put(trip(2024, 2, 2, "a short one", &["Short"])).expect("put");

    let found = ts.search_tagged("Long!").expect("tagged");
    assert_eq!(found.len(), 1);
    assert_eq!(found[0].0, long);

    // An untracked tag falls back to a full scan and is still answered.
    let other = ts.search_tagged("Short").expect("tagged");
    assert_eq!(other.len(), 1);
    assert_eq!(other[0].0, short);
}

/// A fixed-bucket `IndexByTags` leaves untracked tags invisible to indexed
/// retrieval: that degradation is deliberate.
#[test]
fn fixed_tags_untracked_invisible() {
    let mut ts: Series<BikeTrip, IndexByTags> = Series::open_with_indexer(
        Vec::new(),
        IndexByTags::for_tags(vec![String::from("seen")]),
    )
    .expect("open");
    ts.put(trip(2024, 3, 1, "a", &["seen"])).expect("put");
    ts.put(trip(2024, 3, 2, "b", &["unseen"])).expect("put");
    assert_eq!(ts.search_tagged("seen").expect("tagged").len(), 1);
    assert_eq!(ts.search_tagged("unseen").expect("tagged").len(), 0);
}

/// Put then delete, reopen: the id reads back empty, and the journal holds
/// two lines for it, one with data and one tombstone.
#[test]
fn delete_leaves_tombstone() {
    let mut ts: Series<BikeTrip, NoIndex> = Series::open(Vec::new()).expect("open");
    let id = ts.put(trip(2025, 7, 7, "doomed", &[])).expect("put");
    ts.delete(&id).expect("delete");

    let lines = journal_of(&ts);
    assert_eq!(lines.len(), 2);
    let id_text = id.text();
    assert!(lines[0].contains(&id_text));
    assert!(lines[1].contains(&id_text));
    assert_eq!(
        lines[1],
        format!("{{\"id\":\"{}\",\"data\":null}}", id_text)
    );
    assert!(lines[0].contains("\"data\":"));
    assert!(!lines[0].ends_with("null}"));

    let reopened: Series<BikeTrip, NoIndex> = Series::open(lines).expect("reopen");
    assert!(reopened.get(&id).expect("get").is_none());
    assert_eq!(reopened.records().expect("records").len(), 0);
}

/// Updating or deleting an absent id is refused with `NotFound`, and a
/// malformed line fails the whole open.
#[test]
fn error_cases() {
    let mut ts: Series<BikeTrip, NoIndex> = Series::open(Vec::new()).expect("open");
    let ghost_id = UniqueId::new();
    assert_eq!(
        ts.update(&ghost_id, trip(2025, 1, 1, "nope", &[])),
        Err(Error::NotFound)
    );
    assert_eq!(ts.delete(&ghost_id), Err(Error::NotFound));

    let bad: Result<Series<BikeTrip, NoIndex>, Error> =
        Series::open(vec![String::from("not a log line")]);
    assert_eq!(bad.err(), Some(Error::DeserializationError));

    ts.put(trip(2025, 1, 2, "fine", &[])).expect("put");
    let mut lines = journal_of(&ts);
    lines.push(String::from("{\"id\":\"zzz\",\"data\":null}"));
    let also_bad: Result<Series<BikeTrip, NoIndex>, Error> = Series::open(lines);
    assert_eq!(also_bad.err(), Some(Error::DeserializationError));
}

/// The caller's comparator drives the order: sorting by distance arranges
/// records regardless of their timestamps.
#[test]
fn sorted_search_follows_comparator() {
    let mut ts: Series<BikeTrip, NoIndex> = Series::open(Vec::new()).expect("open");
    let mut a = trip(2026, 1, 3, "far", &[]);
    a.distance = 300;
    let mut b = trip(2026, 1, 1, "near", &[]);
    b.distance = 100;
    let mut c = trip(2026, 1, 2, "middle", &[]);
    c.distance = 200;
    ts.put(a).expect("put");
    ts.put(b).expect("put");
    ts.put(c).expect("put");

    let by_distance = ts
        .search_sorted(
            time_range(
                Timestamp::from_ymd(2026, 1, 1),
                true,
                Timestamp::from_ymd(2026, 1, 31),
                true,
            ),
            |l: &BikeTrip, r: &BikeTrip| l.distance.cmp(&r.distance),
        )
        .expect("sorted");
    let distances: Vec<u64> = by_distance.iter().map(|p| p.1.distance).collect();
    assert_eq!(distances, vec![100, 200, 300]);
}

/// A `Tags` criteria demands every listed tag: a record carrying only some
/// of them does not match, and extra tags on the record do not hurt.
#[test]
fn tags_criteria_requires_all_tags() {
    let mut ts: Series<BikeTrip, NoIndex> = Series::open(Vec::new()).expect("open");
    let both = ts.put(trip(2026, 2, 1, "both", &["a", "b", "extra"])).expect("put");
    ts.put(trip(2026, 2, 2, "only a", &["a"])).expect("put");
    ts.put(trip(2026, 2, 3, "neither", &[])).expect("put");

    let found = ts
        .search(Tags { tags: vec![String::from("a"), String::from("b")] })
        .expect("search");
    assert_eq!(found.len(), 1);
    assert_eq!(found[0].0, both);
}

/// The sort is stable: records the comparator cannot tell apart keep the
/// order the store holds them in.
#[test]
fn sorted_search_is_stable() {
    let mut ts: Series<BikeTrip, NoIndex> = Series::open(Vec::new()).expect("open");
    ts.put(trip(2027, 4, 2, "late first", &[])).expect("put");
    ts.put(trip(2027, 4, 1, "early", &[])).expect("put");
    ts.put(trip(2027, 4, 2, "late second", &[])).expect("put");
    ts.put(trip(2027, 4, 2, "late third", &[])).expect("put");

    let sorted = ts
        .search_sorted(
            time_range(
                Timestamp::from_ymd(2027, 4, 1),
                true,
                Timestamp::from_ymd(2027, 4, 30),
                true,
            ),
            |l: &BikeTrip, r: &BikeTrip| l.timestamp().ticks.cmp(&r.timestamp().ticks),
        )
        .expect("sorted");
    let comments: Vec<String> = sorted.iter().map(|p| p.1.comments.clone()).collect();
    assert_eq!(
        comments,
        vec![
            String::from("early"),
            String::from("late first"),
            String::from("late second"),
            String::from("late third")
        ]
    );
}

/// A put into an empty series always succeeds: failure is owed only to a
/// collision with a live id.
#[test]
fn put_into_empty_series_succeeds() {
    let mut ts: Series<BikeTrip, NoIndex> = Series::open(Vec::new()).expect("open");
    assert!(ts.put(trip(2028, 1, 1, "first ever", &[])).is_ok());
}
