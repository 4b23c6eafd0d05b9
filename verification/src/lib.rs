//! Near-duplicate image detection: records of perceptual hashes are clustered
//! into duplicate groups, the result is kept as a report, and a report can
//! later be replayed to rebuild a directory without the duplicates.

pub mod catalog;
pub mod deduplicate;
pub mod errors;
pub mod hashing;
pub mod models;
pub mod removal;
pub mod serialization;
pub mod text;
