//! Core of a local application launcher / file finder: a persistent index of
//! files under a set of root directories, a bounded-depth walker with ignore
//! rules, a de-duplicating ingest path, a ranked substring query engine, and a
//! length-prefixed request/streamed-response wire codec.
//!
//! Everything here is pure logic over plain values; the surrounding daemon
//! supplies filesystem snapshots, clock readings and socket bytes.

use vstd::prelude::*;

pub mod apps;
pub mod desktop;
pub mod ipc;
pub mod pipeline;
pub mod query;
pub mod records;
pub mod store;
pub mod text;
pub mod walk;
pub mod watch;

verus! {

/// Maximum directory-descent distance from a walk root; entries deeper than
/// this are not produced.
pub const MAX_DEPTH: usize = 5;

/// A path already stored `t0` is only re-written by an ingest carrying a
/// timestamp `t` with `t >= t0 + REINDEX_THRESHOLD` (seconds).
pub const REINDEX_THRESHOLD: i64 = 60;

/// Capacity of the bounded queue between walker (producers) and the single
/// index writer; a full queue blocks producers rather than dropping entries.
pub const QUEUE_CAPACITY: usize = 1000;

/// The stored-index lookup returns at most this many rows.
pub const STORED_QUERY_LIMIT: usize = 100;

} // verus!
