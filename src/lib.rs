//! A content-addressable object store: canonical encoding of blobs, trees
//! and snapshots, their digests, compressed storage records, tree building
//! over a captured directory, and the snapshot/head protocol.

pub mod commands;
pub mod compress;
pub mod decode;
pub mod digest;
pub mod error;
pub mod exclude;
pub mod object;
pub mod order;
pub mod snapshot;
pub mod store;
pub mod system;
pub mod tree;
