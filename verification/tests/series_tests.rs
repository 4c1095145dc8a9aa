use emseries::BikeTrip;
use emseries::NoIndex;
use emseries::Recordable;
use emseries::Series;
use emseries::Timestamp;
use emseries::exact_time;
use emseries::time_range;

fn mk_trips() -> [BikeTrip; 5] {
    [
        BikeTrip {
            datetime: Timestamp::from_ymd(2011, 10, 29),
            distance: 58741,
            duration: 11040,
            comments: String::from("long time ago"),
            tags: Vec::new(),
        },
        BikeTrip {
            datetime: Timestamp::from_ymd(2011, 10, 31),
            distance: 17702,
            duration: 2880,
            comments: String::from("day 2"),
            tags: Vec::new(),
        },
        BikeTrip {
            datetime: Timestamp::from_ymd(2011, 11, 02),
            distance: 41842,
            duration: 7020,
            comments: String::from("Do Some Distance!"),
            tags: Vec::new(),
        },
        BikeTrip {
            datetime: Timestamp::from_ymd(2011, 11, 04),
            distance: 34600,
            duration: 5580,
            comments: String::from("I did a lot of distance back then"),
            tags: Vec::new(),
        },
        BikeTrip {
            datetime: Timestamp::from_ymd(2011, 11, 05),
            distance: 6437,
            duration: 960,
            comments: String::from("day 5"),
            tags: Vec::new(),
        },
    ]
}

fn journal_of(ts: &Series<BikeTrip, NoIndex>) -> Vec<String> {
    let mut lines = Vec::new();
    let n = ts.journal_len();
    let mut i = 0;
    while i < n {
        lines.push(ts.journal_line(i).clone());
        i += 1;
    }
    lines
}

fn by_timestamp(l: &BikeTrip, r: &BikeTrip) -> std::cmp::Ordering {
    l.timestamp().ticks.cmp(&r.timestamp().ticks)
}

#[test]
pub fn can_add_and_retrieve_entries() {
    let trips = mk_trips();
    let mut ts: Series<BikeTrip, NoIndex> =
        Series::open(Vec::new()).expect("expect the time series to open correctly");
    let uuid = ts.put(trips[0].clone()).expect("expect a successful put");
    let record_res = ts.get(&uuid).map(|o| o.cloned());

    for trip in &trips[1..=4] {
        ts.put(trip.clone()).expect("expect a successful put");
    }

    match record_res {
        Err(err) => panic!("{:?}", err),
        Ok(None) => panic!("There should have been a value here"),
        Ok(Some(tr)) => {
            assert_eq!(tr.timestamp(), Timestamp::from_ymd(2011, 10, 29));
            assert_eq!(tr.duration, 11040);
            assert_eq!(tr.comments, String::from("long time ago"));
            assert_eq!(tr, trips[0]);
        }
    }
}

#[test]
pub fn can_search_for_an_entry_with_exact_time() {
    let trips = mk_trips();
    let mut ts: Series<BikeTrip, NoIndex> =
        Series::open(Vec::new()).expect("expect the time series to open correctly");

    for trip in &trips[0..=4] {
        ts.put(trip.clone()).expect("expect a successful put");
    }

    match ts.search(exact_time(Timestamp::from_ymd(2011, 10, 31))) {
        Err(err) => panic!("{:?}", err),
        Ok(v) => {
            assert_eq!(v.len(), 1);
            assert_eq!(*v[0].1, trips[1]);
        }
    };
}

#[test]
pub fn can_get_entries_in_time_range() {
    let trips = mk_trips();
    let mut ts: Series<BikeTrip, NoIndex> =
        Series::open(Vec::new()).expect("expect the time series to open correctly");

    for trip in &trips[0..=4] {
        ts.put(trip.clone()).expect("expect a successful put");
    }

    match ts.search_sorted(
        time_range(
            Timestamp::from_ymd(2011, 10, 31),
            true,
            Timestamp::from_ymd(2011, 11, 04),
            true,
        ),
        by_timestamp,
    ) {
        Err(err) => panic!("{:?}", err),
        Ok(v) => {
            assert_eq!(v.len(), 3);
            assert_eq!(*v[0].1, trips[1]);
            assert_eq!(*v[1].1, trips[2]);
            assert_eq!(*v[2].1, trips[3]);
        }
    }
}

#[test]
pub fn persists_and_reads_an_entry() {
    let trips = mk_trips();

    let lines = {
        let mut ts: Series<BikeTrip, NoIndex> =
            Series::open(Vec::new()).expect("expect the time series to open correctly");

        for trip in &trips[0..=4] {
            ts.put(trip.clone()).expect("expect a successful put");
        }
        journal_of(&ts)
    };

    {
        let ts: Series<BikeTrip, NoIndex> =
            Series::open(lines).expect("expect the time series to open correctly");
        match ts.search_sorted(
            time_range(
                Timestamp::from_ymd(2011, 10, 31),
                true,
                Timestamp::from_ymd(2011, 11, 04),
                true,
            ),
            by_timestamp,
        ) {
            Err(err) => panic!("{:?}", err),
            Ok(v) => {
                assert_eq!(v.len(), 3);
                assert_eq!(*v[0].1, trips[1]);
                assert_eq!(*v[1].1, trips[2]);
                assert_eq!(*v[2].1, trips[3]);
            }
        }
    }
}

#[test]
pub fn can_write_to_existing_file() {
    let trips = mk_trips();

    let lines = {
        let mut ts: Series<BikeTrip, NoIndex> =
            Series::open(Vec::new()).expect("expect the time series to open correctly");

        for trip in &trips[0..=2] {
            ts.put(trip.clone()).expect("expect a successful put");
        }
        journal_of(&ts)
    };

    let lines = {
        let mut ts: Series<BikeTrip, NoIndex> =
            Series::open(lines).expect("expect the time series to open correctly");
        match ts.search_sorted(
            time_range(
                Timestamp::from_ymd(2011, 10, 31),
                true,
                Timestamp::from_ymd(2011, 11, 04),
                true,
            ),
            by_timestamp,
        ) {
            Err(err) => panic!("{:?}", err),
            Ok(v) => {
                assert_eq!(v.len(), 2);
                assert_eq!(*v[0].1, trips[1]);
                assert_eq!(*v[1].1, trips[2]);
            }
        }
        ts.put(trips[3].clone()).expect("expect a successful put");
        ts.put(trips[4].clone()).expect("expect a successful put");
        journal_of(&ts)
    };

    {
        let ts: Series<BikeTrip, NoIndex> =
            Series::open(lines).expect("expect the time series to open correctly");
        match ts.search_sorted(
            time_range(
                Timestamp::from_ymd(2011, 10, 31),
                true,
                Timestamp::from_ymd(2011, 11, 05),
                true,
            ),
            by_timestamp,
        ) {
            Err(err) => panic!("{:?}", err),
            Ok(v) => {
                assert_eq!(v.len(), 4);
                assert_eq!(*v[0].1, trips[1]);
                assert_eq!(*v[1].1, trips[2]);
                assert_eq!(*v[2].1, trips[3]);
                assert_eq!(*v[3].1, trips[4]);
            }
        }
    }
}

#[test]
pub fn can_overwrite_existing_entry() {
    let trips = mk_trips();

    let mut ts: Series<BikeTrip, NoIndex> =
        Series::open(Vec::new()).expect("expect the time series to open correctly");

    ts.put(trips[0].clone()).expect("expect a successful put");
    ts.put(trips[1].clone()).expect("expect a successful put");
    let trip_id = ts.put(trips[2].clone()).expect("expect a successful put");

    match ts.get(&trip_id).map(|o| o.cloned()) {
        Err(err) => panic!("{:?}", err),
        Ok(None) => panic!("record not found"),
        Ok(Some(mut trip)) => {
            trip.distance = 50000;
            ts.update(&trip_id, trip).expect("expect record to update");
        }
    };

    match ts.get(&trip_id).map(|o| o.cloned()) {
        Err(err) => panic!("{:?}", err),
        Ok(None) => panic!("record not found"),
        Ok(Some(trip)) => {
            assert_eq!(trip.datetime, Timestamp::from_ymd(2011, 11, 02));
            assert_eq!(trip.distance, 50000);
            assert_eq!(trip.duration, 7020);
            assert_eq!(trip.comments, String::from("Do Some Distance!"));
        }
    }
}

#[test]
pub fn record_overwrites_get_persisted() {
    let trips = mk_trips();

    let lines = {
        let mut ts: Series<BikeTrip, NoIndex> =
            Series::open(Vec::new()).expect("expect the time series to open correctly");

        ts.put(trips[0].clone()).expect("expect a successful put");
        ts.put(trips[1].clone()).expect("expect a successful put");
        let trip_id = ts.put(trips[2].clone()).expect("expect a successful put");

        match ts.get(&trip_id).map(|o| o.cloned()) {
            Err(err) => panic!("{:?}", err),
            Ok(None) => panic!("record not found"),
            Ok(Some(mut trip)) => {
                trip.distance = 50000;
                ts.update(&trip_id, trip).expect("expect record to update");
            }
        };
        journal_of(&ts)
    };

    {
        let ts: Series<BikeTrip, NoIndex> =
            Series::open(lines).expect("expect the time series to open correctly");

        match ts.records() {
            Err(err) => panic!("{:?}", err),
            Ok(trips) => assert_eq!(trips.len(), 3),
        }

        match ts.search(exact_time(Timestamp::from_ymd(2011, 11, 02))) {
            Err(err) => panic!("{:?}", err),
            Ok(trips) => {
                assert_eq!(trips.len(), 1);
                assert_eq!(trips[0].1.datetime, Timestamp::from_ymd(2011, 11, 02));
                assert_eq!(trips[0].1.distance, 50000);
                assert_eq!(trips[0].1.duration, 7020);
                assert_eq!(trips[0].1.comments, String::from("Do Some Distance!"));
            }
        };
    }
}

#[test]
pub fn can_delete_an_entry() {
    let trips = mk_trips();

    let lines = {
        let mut ts: Series<BikeTrip, NoIndex> =
            Series::open(Vec::new()).expect("expect the time series to open correctly");
        let trip_id = ts.put(trips[0].clone()).expect("expect a successful put");
        ts.put(trips[1].clone()).expect("expect a successful put");
        ts.put(trips[2].clone()).expect("expect a successful put");

        ts.delete(&trip_id).expect("successful delete");

        let recs = ts.records().expect("good record retrieval");
        assert_eq!(recs.len(), 2);
        journal_of(&ts)
    };

    {
        let ts: Series<BikeTrip, NoIndex> =
            Series::open(lines).expect("expect the time series to open correctly");
        let recs = ts.records().expect("good record retrieval");
        assert_eq!(recs.len(), 2);
    }
}
