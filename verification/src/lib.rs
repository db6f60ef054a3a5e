//! A content-addressed object store for file snapshots.
//!
//! File contents are kept as blobs and directory listings as trees. Every
//! object is addressed by the SHA-1 of its canonical byte layout, so equal
//! content always lands under the same key, and a tree's fingerprint stands
//! for the whole snapshot below it.
//!
//! - [`digest`]: fingerprints, their hexadecimal names and storage locations.
//! - [`zlib`]: compression of stored objects.
//! - [`object`], [`order`], [`sorting`]: blobs, trees, entries, and the order
//!   of entries by name.
//! - [`layout`]: the canonical bytes of an object, written and read back.
//! - [`packing`], [`store`]: objects as they are stored, and the store.
//! - [`model`], [`snapshot`]: what a directory snapshot stands for, and the
//!   builder that stores one.
//! - [`reader`]: listings of trees and the content of blobs.
//! - [`text`]: numbers in ASCII digits and other small pieces of the layout.
//! - [`error`]: the failures.

pub mod digest;
pub mod error;
pub mod layout;
pub mod model;
pub mod object;
pub mod order;
pub mod packing;
pub mod reader;
pub mod snapshot;
pub mod sorting;
pub mod store;
pub mod text;
pub mod zlib;
