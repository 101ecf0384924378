//! Verified core of a small file-inventory tool: byte-string escaping,
//! file-hash records, path components, the directory walker's decisions,
//! the duplicate-finder's directory tree and the per-extension summary.

pub mod text;
pub mod ascii;
pub mod paths;
pub mod hashes;
pub mod order;
pub mod dupes;
pub mod xfs;
pub mod files;
pub mod summarize;
