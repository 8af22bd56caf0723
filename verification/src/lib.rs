//! Verified core of a clipboard-history daemon.
//!
//! Clipboard payloads are grouped into independently configured, named
//! groups.  Each group is an eviction-governed cache keyed by insertion
//! order: pushes deduplicate by body, reads refresh recency, and a cleanup
//! pass evicts records by age and by count.  A manager routes group names
//! to storage engines, and the daemon core dispatches wire requests against
//! that shared state while suppressing feedback from its own clipboard
//! writes.
pub mod backend;
pub mod clip;
pub mod codec;
pub mod config;
pub mod daemon;
pub mod disk;
pub mod laws;
pub mod manager;
pub mod memory;
pub mod message;
pub mod mime;
pub mod table;
