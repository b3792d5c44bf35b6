//! A directory text-search engine: collect candidate files from a filesystem
//! snapshot, match a literal query with configurable case-sensitivity and
//! whole-word semantics, and extract a human-readable context window around
//! each match.
//!
//! File contents, names and paths are modelled as byte strings (`Vec<u8>`);
//! match offsets are byte offsets. Case folding is locale-independent ASCII
//! folding, and word characters are the ASCII word characters
//! (letters, digits and `_`).
//!
//! The engine itself never fails: a root that is not a directory, an
//! unlistable directory or an undecodable file all contribute nothing rather
//! than aborting a search. The one input the library rejects is an empty
//! query (and an extension without its leading dot): callers must test for
//! those and surface their own error, since every function here requires
//! them away.

pub mod collect;
pub mod context;
pub mod engine;
pub mod matcher;
