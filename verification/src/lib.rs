//! Inventory of installed desktop applications with on-disk storage
//! attribution.
//!
//! The crate takes plain-value snapshots of its inputs — the uninstall
//! entries read from the registry, the app-data root listings, and a
//! filesystem snapshot with path kinds and directory sizes — and computes
//! canonical application entries, folder ownership, per-application size
//! breakdowns and an audit overview, all as verified functions.


pub mod audit;
pub mod chars;
pub mod fs;
pub mod matching;
pub mod roots;
pub mod scan;
pub mod sizing;
pub mod sort;
pub mod text;
pub mod uninstall;
