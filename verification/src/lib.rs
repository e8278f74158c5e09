//! LRU accounting and eviction engine for a container image cache.
//!
//! The library keeps a host's image storage under a configured byte budget:
//! it ingests container lifecycle events to track per-image recency, persists
//! that record so it survives restarts, and plans vacuum passes that delete
//! the least-recently-used images until usage falls under the threshold,
//! while never touching an image that a running container still uses.

pub mod classify;
pub mod codec;
pub mod recency;
pub mod supervisor;
pub mod vacuum;
