//! The in-memory profile, and the engines that work on it.

pub mod binary;
pub mod decode;
pub mod hashing;
pub mod lines;
pub mod merge;
pub mod merge_laws;
pub mod overlap;
pub mod percentile;
pub mod ranking;
pub mod reader;
pub mod sample_laws;
pub mod show;
pub mod stats;
pub mod summary;
pub mod text;
pub mod types;
pub mod value_sites;
