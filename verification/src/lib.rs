//! Merging of the metric samples that the worker processes of a
//! multi-process server have written into their scratch files.
//!
//! Each worker appends length-prefixed records to a file of its own
//! ([`record`]). A record holds the key of a sample as JSON ([`key`]), its
//! value and its timestamp. The name of a file says what its metrics are
//! ([`files`]). The samples of all files are gathered by metric ([`collect`])
//! and folded into one sample for each series, by the policy of the metric's
//! type ([`aggregate`], [`histogram`], [`merge`]).
//!
//! Numbers are carried as the bit patterns of IEEE 754 binary64 values
//! ([`binary64`]). The library compares them and never adds them: a merged
//! value is handed out as the terms of the sum, in the order in which they are
//! to be added. The numbers of the thresholds of histogram buckets, which are
//! written as text, are given to the library in a table.
//!
//! What the merge does not depend on is stated in [`order`] and [`sources`].

pub mod aggregate;
pub mod binary64;
pub mod collect;
pub mod error;
pub mod files;
pub mod finished;
pub mod histogram;
pub mod key;
pub mod labels;
pub mod layout;
pub mod lookup;
pub mod merge;
pub mod metric;
pub mod order;
pub mod record;
pub mod sources;
pub mod text;

pub use collect::{read_multiprocess_files, FileContent, SourceFile};
pub use error::{Corruption, MergeError};
pub use histogram::Threshold;
pub use key::{parse_key, Key};
pub use labels::Labels;
pub use layout::ByteOrder;
pub use merge::{accumulate_metrics, histogram_thresholds, merge_files, merge_internal};
pub use metric::{MergedMetric, MergedSample, Metric, Sample};
pub use record::{read_all_values, Record};
