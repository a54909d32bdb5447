//! A small content-addressed version-control backend: an object store keyed by
//! SHA-1 fingerprints, a staging index, and a commit graph with branches, tags
//! and HEAD. Every operation works on an in-memory [`repo::Repository`] value;
//! reading it from and writing it to disk is left to the caller.

pub mod error;
pub mod bytes;
pub mod object_id;
pub mod codec;
pub mod bytemap;
pub mod store;
pub mod index;
pub mod objects;
pub mod repo;
pub mod laws;
pub mod formats;
pub mod worktree;
pub mod config;
