//! Offline whole-file deduplication planning for copy-on-write filesystems:
//! an interned path tree, a sorted file catalog, the merge of a catalog with a
//! directory walk, batched hashing passes, and the dedupe planner and driver.
pub mod hash;
pub mod order;
pub mod path;
pub mod catalog;
pub mod planner;
pub mod passes;
pub mod scanner;
pub mod extents;
pub mod arguments;
