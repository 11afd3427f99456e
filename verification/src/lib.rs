//! Aggregation of `<key>;<value>` rows into per-key minimum, mean and maximum.
//!
//! Values are signed decimals held in fixed point, as integer counts of
//! [`decimal::UNITS_PER_ONE`]-ths: exactly where they are written with at
//! most nine fractional digits, to the nearest unit otherwise. Sums, minima,
//! maxima and counts of the values held are exact. The contract of each function states, over
//! mathematical models, what it returns, and is proved of its body. The
//! exceptions stand at the head of [`table`]: the hash map is `std`'s with
//! the hasher of `rustc_hash`, and what its methods do is stated there, not
//! proved.

pub mod bytes;
pub mod decimal;
pub mod error;
pub mod model;
pub mod order;
pub mod partition;
pub mod reducer;
pub mod report;
pub mod rows;
pub mod sample;
pub mod table;
pub mod tokenizer;

pub use crate::error::ParseError;
pub use crate::partition::{partition, Partition};
pub use crate::reducer::{aggregate_in_parts, Reducer};
pub use crate::report::report;
pub use crate::sample::Sample;
pub use crate::table::{insert_or_update, merge_into, Table};
pub use crate::tokenizer::{produce_table, LineTokenizer, ScanState};
