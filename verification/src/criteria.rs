//! Composable query predicates over records, and the timestamp range used
//! by index-accelerated retrieval.

use vstd::prelude::*;
use crate::types::Recordable;
use crate::types::Timestamp;
use crate::types::str_eq;

verus! {

/// A composable boolean predicate over a record, used for constructing
/// queries over the store.
pub trait Criteria<T: Recordable>: Sized {
    /// What the predicate holds of a record.
    spec fn matches(&self, record: T) -> bool;

    /// Apply this criteria element to a record, returning true only if the
    /// record matches the criteria.
    fn apply(&self, record: &T) -> (r: bool)
        ensures
            r == self.matches(*record),
    ;
}

/// Specify two criteria that must both be matched.
pub struct And<A, B> {
    pub lside: A,
    pub rside: B,
}

impl<T: Recordable, A: Criteria<T>, B: Criteria<T>> Criteria<T> for And<A, B> {
    open spec fn matches(&self, record: T) -> bool {
        self.lside.matches(record) && self.rside.matches(record)
    }

    fn apply(&self, record: &T) -> (r: bool) {
        self.lside.apply(record) && self.rside.apply(record)
    }
}

/// Specify two criteria, either of which may be matched.
pub struct Or<A, B> {
    pub lside: A,
    pub rside: B,
}

impl<T: Recordable, A: Criteria<T>, B: Criteria<T>> Criteria<T> for Or<A, B> {
    open spec fn matches(&self, record: T) -> bool {
        self.lside.matches(record) || self.rside.matches(record)
    }

    fn apply(&self, record: &T) -> (r: bool) {
        self.lside.apply(record) || self.rside.apply(record)
    }
}

/// Specify the starting time for a search, together with whether a record
/// lying exactly on the bound is included.
pub struct StartTime {
    pub time: Timestamp,
    pub incl: bool,
}

impl<T: Recordable> Criteria<T> for StartTime {
    open spec fn matches(&self, record: T) -> bool {
        if self.incl {
            record.timestamp_spec().ticks >= self.time.ticks
        } else {
            record.timestamp_spec().ticks > self.time.ticks
        }
    }

    fn apply(&self, record: &T) -> (r: bool) {
        let t = record.timestamp();
        if self.incl {
            t.ticks >= self.time.ticks
        } else {
            t.ticks > self.time.ticks
        }
    }
}

/// Specify the ending time for a search, together with whether a record
/// lying exactly on the bound is included.
pub struct EndTime {
    pub time: Timestamp,
    pub incl: bool,
}

impl<T: Recordable> Criteria<T> for EndTime {
    open spec fn matches(&self, record: T) -> bool {
        if self.incl {
            record.timestamp_spec().ticks <= self.time.ticks
        } else {
            record.timestamp_spec().ticks < self.time.ticks
        }
    }

    fn apply(&self, record: &T) -> (r: bool) {
        let t = record.timestamp();
        if self.incl {
            t.ticks <= self.time.ticks
        } else {
            t.ticks < self.time.ticks
        }
    }
}

/// Whether a record's tag list carries a given tag.
pub open spec fn has_tag<T: Recordable>(record: T, tag: Seq<char>) -> bool {
    record.tags_spec().contains(tag)
}

/// Specify a list of tags that must all exist on the record; the record may
/// carry further tags besides.
pub struct Tags {
    pub tags: Vec<String>,
}

impl<T: Recordable> Criteria<T> for Tags {
    open spec fn matches(&self, record: T) -> bool {
        forall|i: int| 0 <= i < self.tags@.len() ==> has_tag(record, self.tags@[i]@)
    }

    fn apply(&self, record: &T) -> (r: bool) {
        let record_tags = record.tags();
        let n = self.tags.len();
        let mut i: usize = 0;
        while i < n
            invariant
                n == self.tags@.len(),
                0 <= i <= n,
                record_tags.deep_view() == record.tags_spec(),
                forall|j: int| 0 <= j < i ==> has_tag(*record, self.tags@[j]@),
            decreases n - i,
        {
            if !contains_str(&record_tags, &self.tags[i]) {
                return false;
            }
            i = i + 1;
        }
        true
    }
}

/// Whether a vector of strings contains the given string.
fn contains_str(hay: &Vec<String>, needle: &String) -> (r: bool)
    ensures
        r == hay.deep_view().contains(needle@),
{
    let n = hay.len();
    let mut i: usize = 0;
    while i < n
        invariant
            n == hay@.len(),
            0 <= i <= n,
            forall|j: int| 0 <= j < i ==> hay.deep_view()[j] != needle@,
        decreases n - i,
    {
        if str_eq(hay[i].as_str(), needle.as_str()) {
            assert(hay.deep_view()[i as int] == needle@);
            return true;
        }
        i = i + 1;
    }
    assert(forall|j: int| 0 <= j < hay.deep_view().len() ==> hay.deep_view()[j] != needle@);
    false
}

/// Specify a criteria that searches for records matching an exact time.
pub fn exact_time(time: Timestamp) -> (r: And<StartTime, EndTime>)
    ensures
        r.lside.time == time,
        r.lside.incl,
        r.rside.time == time,
        r.rside.incl,
{
    And { lside: StartTime { time, incl: true }, rside: EndTime { time, incl: true } }
}

/// Specify a criteria that searches for all records within a time range,
/// with each bound's inclusivity chosen independently.
pub fn time_range(start: Timestamp, start_incl: bool, end: Timestamp, end_incl: bool) -> (r: And<
    StartTime,
    EndTime,
>)
    ensures
        r.lside.time == start,
        r.lside.incl == start_incl,
        r.rside.time == end,
        r.rside.incl == end_incl,
{
    And {
        lside: StartTime { time: start, incl: start_incl },
        rside: EndTime { time: end, incl: end_incl },
    }
}

/// A record with timestamp exactly on an inclusive start bound is included,
/// and one exactly on an exclusive end bound is excluded: `time_range`
/// matches exactly the records with `start <= t < end` when the start is
/// inclusive and the end is not.
pub proof fn lemma_range_inclusivity<T: Recordable>(start: Timestamp, end: Timestamp, record: T)
    ensures
        time_range_matches(start, true, end, false, record) <==> (start.ticks
            <= record.timestamp_spec().ticks && record.timestamp_spec().ticks < end.ticks),
{
}

/// What a `time_range` criteria with the given bounds holds of a record.
pub open spec fn time_range_matches<T: Recordable>(
    start: Timestamp,
    start_incl: bool,
    end: Timestamp,
    end_incl: bool,
    record: T,
) -> bool {
    &&& if start_incl {
        record.timestamp_spec().ticks >= start.ticks
    } else {
        record.timestamp_spec().ticks > start.ticks
    }
    &&& if end_incl {
        record.timestamp_spec().ticks <= end.ticks
    } else {
        record.timestamp_spec().ticks < end.ticks
    }
}

/// What any `And<StartTime, EndTime>` built by `time_range` matches.
pub proof fn lemma_time_range_matches<T: Recordable>(c: And<StartTime, EndTime>, record: T)
    ensures
        c.matches(record) == time_range_matches(
            c.lside.time,
            c.lside.incl,
            c.rside.time,
            c.rside.incl,
            record,
        ),
{
}

/// A timestamp range built from the same bounds as a `time_range` criteria
/// admits exactly the records the criteria matches: index-accelerated
/// range retrieval and a criteria-filtered scan agree on every record.
pub proof fn lemma_range_equals_criteria<T: Recordable>(
    start: Timestamp,
    start_incl: bool,
    end: Timestamp,
    end_incl: bool,
    record: T,
)
    ensures
        (TimeRange {
            start: if start_incl {
                TimeBound::Inclusive(start)
            } else {
                TimeBound::Exclusive(start)
            },
            end: if end_incl {
                TimeBound::Inclusive(end)
            } else {
                TimeBound::Exclusive(end)
            },
        }).contains_spec(record.timestamp_spec()) == time_range_matches(
            start,
            start_incl,
            end,
            end_incl,
            record,
        ),
{
}

/// One bound of a timestamp range.
pub enum TimeBound {
    /// The bound admits the bounding timestamp itself.
    Inclusive(Timestamp),
    /// The bound excludes the bounding timestamp.
    Exclusive(Timestamp),
    /// No bound on this side.
    Unbounded,
}

/// A possibly half-open timestamp range for index-accelerated retrieval.
pub struct TimeRange {
    pub start: TimeBound,
    pub end: TimeBound,
}

impl TimeRange {
    /// Whether a timestamp falls within the range.
    pub open spec fn contains_spec(&self, t: Timestamp) -> bool {
        &&& match self.start {
            TimeBound::Inclusive(b) => t.ticks >= b.ticks,
            TimeBound::Exclusive(b) => t.ticks > b.ticks,
            TimeBound::Unbounded => true,
        }
        &&& match self.end {
            TimeBound::Inclusive(b) => t.ticks <= b.ticks,
            TimeBound::Exclusive(b) => t.ticks < b.ticks,
            TimeBound::Unbounded => true,
        }
    }

    /// Whether a timestamp falls within the range.
    pub fn contains(&self, t: &Timestamp) -> (r: bool)
        ensures
            r == self.contains_spec(*t),
    {
        let start_ok = match &self.start {
            TimeBound::Inclusive(b) => t.ticks >= b.ticks,
            TimeBound::Exclusive(b) => t.ticks > b.ticks,
            TimeBound::Unbounded => true,
        };
        let end_ok = match &self.end {
            TimeBound::Inclusive(b) => t.ticks <= b.ticks,
            TimeBound::Exclusive(b) => t.ticks < b.ticks,
            TimeBound::Unbounded => true,
        };
        start_ok && end_ok
    }

    /// A range that holds exactly the timestamps the matching `time_range`
    /// criteria admits.
    pub fn new(start: Timestamp, start_incl: bool, end: Timestamp, end_incl: bool) -> (r: TimeRange)
        ensures
            forall|t: Timestamp| #[trigger]
                r.contains_spec(t) == ((if start_incl {
                    t.ticks >= start.ticks
                } else {
                    t.ticks > start.ticks
                }) && (if end_incl {
                    t.ticks <= end.ticks
                } else {
                    t.ticks < end.ticks
                })),
    {
        TimeRange {
            start: if start_incl {
                TimeBound::Inclusive(start)
            } else {
                TimeBound::Exclusive(start)
            },
            end: if end_incl {
                TimeBound::Inclusive(end)
            } else {
                TimeBound::Exclusive(end)
            },
        }
    }
}

} // verus!
