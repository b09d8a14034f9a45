//! Probe side of a hash join for the right-side join family (right outer,
//! right anti, right single): batched, resumable probing of a build-side
//! chain, residual predicate filtering, and the map of matched build rows
//! that a later stage reads to emit unmatched rows.
pub mod fuse_block;
pub mod hash_table;
pub mod laws;
pub mod predicate;
pub mod probe;
pub mod probe_state;
pub mod scan_map;
pub mod types;
