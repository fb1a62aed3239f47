//! One-way, incremental synchronization engine for an audio library:
//! content-hash based change and rename detection, path flattening,
//! persisted state, bounded-concurrency conversion planning, and pruning.
//!
//! All decisions of the engine are made here over plain byte strings; the
//! surrounding binary performs the filesystem walking, copying, renaming,
//! transcoder spawning and deletion that the decisions call for.

use vstd::prelude::*;

pub mod bytes;
pub mod hashing;
pub mod paths;
pub mod prune;
pub mod scan;
pub mod schedule;
pub mod state;

verus! {

/// Width in bytes of a content fingerprint: a SHA-512 digest, hex encoded.
pub const KEY_WIDTH: usize = 128;

} // verus!
