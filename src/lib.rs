//! A hash map built from an array of chains: keys are routed to a bucket by
//! their digest, buckets grow by doubling once the load passes three quarters,
//! and an entry handle lets a caller fetch or create a value in one lookup.
pub mod chains;
pub mod entry;
pub mod iter;
pub mod key;
pub mod laws;
pub mod table;

pub use key::MapKey;
pub use entry::{Entry, OccupiedEntry, VacantEntry};
pub use iter::Iter;
pub use table::{grown_bucket_count, needs_growth, HashMap};
