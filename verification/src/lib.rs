//! Core scheduling, caching, metadata and rating persistence for a RAW photo
//! viewer.
//!
//! Every item of this crate is verified: the contracts state what a function
//! returns or changes, over sequences, maps and mathematical integers, and the
//! public proof functions state the laws that hold across functions.
//!
//! The crate keeps clocks, threads, files and databases out. Where the viewer
//! has to touch one of them, the crate offers a decision function from what was
//! observed to what should be done next.

pub mod bakeoff;
pub mod codec;
pub mod jobs;
pub mod jpeg_restart;
pub mod launcher;
pub mod library;
pub mod meta;
pub mod planning;
pub mod pool;
pub mod resize;
pub mod text;
pub mod types;
pub mod xmp;
