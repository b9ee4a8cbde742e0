//! A compact, portable snapshot of a directory subtree.
//!
//! For every directory under a root path the snapshot records the
//! directory's own files (name, byte size, a coarse type classification)
//! and its subdirectories, then computes each directory's total recursive
//! size.  The snapshot is serialized into a deterministic binary layout,
//! compressed, and can later be fully reconstructed.

pub mod classify;
pub mod record;
pub mod snapshot;
pub mod builder;
pub mod aggregate;
pub mod codec;
pub mod compress;
pub mod api;
pub mod error;
