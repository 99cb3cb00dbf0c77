//! Storage engine for vector-database collections.
//!
//! The heart of the crate is the on-disk form of the inverted index: a trie of
//! fixed-size node records in a *dim* file, each with a chunked posting map
//! that continues in one of several *data* files.  Every function states its
//! behaviour over the bytes of those files, and the round-trip laws between
//! writers and readers are proved.

pub mod atomic_array;
pub mod buffered_io;
pub mod bytes;
pub mod cache;
pub mod collection;
pub mod common;
pub mod dtos;
pub mod index;
pub mod node;
pub mod node_data;
pub mod page_pool;
pub mod postings;
pub mod sparse;
pub mod types;
