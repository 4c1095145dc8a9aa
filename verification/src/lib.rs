//! An embedded, single-file, append-only store for timestamped, tag-bearing
//! records, with a pluggable secondary-indexing layer.

pub mod criteria;
pub mod indexing;
pub mod sample;
pub mod series;
pub mod store;
pub mod types;

pub use criteria::And;
pub use criteria::Criteria;
pub use criteria::EndTime;
pub use criteria::Or;
pub use criteria::StartTime;
pub use criteria::Tags;
pub use criteria::TimeBound;
pub use criteria::TimeRange;
pub use criteria::exact_time;
pub use criteria::time_range;
pub use indexing::Indexer;
pub use indexing::NoIndex;
pub use indexing::index_by_all_tags::IndexByAllTags;
pub use indexing::index_by_tags::IndexByTags;
pub use indexing::index_by_time::IndexByTime;
pub use indexing::index_selected_tags::IndexBySelectedTags;
pub use sample::BikeTrip;
pub use series::Series;
pub use types::DeletableRecord;
pub use types::Error;
pub use types::Record;
pub use types::Recordable;
pub use types::Timestamp;
pub use types::UniqueId;
