//! A persistent, single-process key-value store backed by an append-only
//! segmented log, with an in-memory index for fast lookup and crash-safe
//! recovery by log replay.
//!
//! The engine itself is pure: it owns the byte contents of every segment and
//! performs lookups, appends and replay on those bytes. A thin front end is
//! expected to mirror each append to the segment file it names and to hand
//! `open` the bytes read back from the directory.

pub mod codec;
pub mod replay;
pub mod laws;
pub mod store;
