//! An embeddable key-value store kept as an append-only log of records in
//! numbered segments, with an in-memory index from each live key to the
//! place of its newest record.
//!
//! The library holds the log as bytes in memory and decides everything
//! that the store does; whoever owns the files reads them into a
//! [`wal::Directory`], and writes to them what each operation returns.
//!
//! - [`record`]: the wire format of a record, and its codec
//! - [`segment_name`]: the names of segment files
//! - [`wal`]: the segments of a log, appends and reads, rotation
//! - [`index`]: the index from keys to the places of their records
//! - [`recovery`]: the replay that rebuilds the index from the segments
//! - [`compaction`]: the rewriting of live records into one segment
//! - [`store`]: the storage engine itself
//! - [`model`]: the store as a mapping, and what holds of every run
//! - [`stats`]: latency percentiles

pub mod compaction;
pub mod error;
pub mod helper;
pub mod index;
pub mod model;
pub mod record;
pub mod recovery;
pub mod segment_name;
pub mod stats;
pub mod store;
pub mod wal;
