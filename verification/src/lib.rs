//! Reconciles music albums between source directories and destinations.
//!
//! The crate holds the pure part of the work: telling albums from file
//! paths, merging and indexing them, and planning the file operations that
//! bring a destination in line with the sources.

pub mod album;
pub mod catalog;
pub mod check;
pub mod convert;
pub mod file_type;
pub mod location;
pub mod music_info;
pub mod music_tags;
pub mod numbers;
pub mod order;
pub mod paths;
pub mod settle;
pub mod sync;
pub mod tally;
pub mod text;
