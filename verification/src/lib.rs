//! A verified archive engine: packs a directory tree, handed to it as plain
//! values, into a single self-describing binary archive and unpacks such an
//! archive back into a tree. File contents are stored in one shared data
//! region with content-addressed deduplication and optional gzip compression;
//! every failure carries a root-to-leaf context naming the exact field or
//! file that failed.

pub mod deserializing;
pub mod error;
pub mod metadata;
pub mod packing;
pub mod serializing;
pub mod unpacking;
pub mod utils;

use vstd::prelude::*;

verus! {

/// Options of a pack or unpack run: whether to narrate progress (a concern
/// of the caller that does the I/O) and whether file contents are gzipped
/// before they are stored.
pub struct Context {
    pub verbose: bool,
    pub gzip: bool,
}

} // verus!
