//! A two-tier page cache: a bounded hot set in memory in front of a slower backend,
//! with least-recently-used eviction and single-flight fetches, and a harness that
//! replays access patterns against it.

pub mod backend;
pub mod bench;
pub mod cache;
pub mod histories;
pub mod inner;
pub mod interleavings;
pub mod latency;
pub mod laws;
pub mod page;
pub mod recency;
pub mod shares;
pub mod tiers;
pub mod workload;

pub use crate::backend::{Backend, DramBackend, DramError};
pub use crate::bench::{run_workload, BenchResult};
pub use crate::cache::Cache;
pub use crate::page::{Page, PageId, PAGE_SIZE};
