//! A minimal local version-control backend: a content-addressable object
//! store, a sorted staging index, a snapshot builder that folds the staged
//! paths into directory tree objects, and a line-range lock ledger.
//!
//! The library works on plain byte strings and in-memory state; reading and
//! writing the repository directory, the command line, and the JSON lock
//! ledger file are left to the surrounding application.

pub mod bytes;
pub mod compress;
pub mod hashing;
pub mod index;
pub mod laws;
pub mod locks;
pub mod object;
pub mod store;
pub mod tree;
