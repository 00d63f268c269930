//! Ratings orchestration and best-effort persistence.
//!
//! An unfinished dirty database journal entry remains authoritative regardless
//! of sidecar modification time until it is flushed. Otherwise, a current
//! sidecar wins over the clean database row. Embedded ratings arrive later
//! through the metadata wave and fill only entries still missing a rating. The
//! persistence service attempts to journal updates before debouncing XMP sidecar
//! writes (about 400 ms per image).
//!
//! Paths appear here as numbers: equal numbers stand for equal paths.

pub mod groups;
pub mod journal;
pub mod ratings;
pub mod resolution;
pub mod worker;
