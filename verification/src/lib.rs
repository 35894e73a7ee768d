//! Read-only decoder for the paged file format of a legacy embedded
//! key-value store: metadata and B-tree pages, their records, a full ordered
//! walk over the leaf chain and a point lookup by key.
//!
//! Every function is verified against a mathematical model of the file: a
//! sequence of bytes cut into frames of [`page::PAGE_SIZE`] bytes. No function
//! panics, whatever the bytes are: what cannot be decoded is reported as an
//! [`error::BdbError`].
//!
//! The decoder:
//! - [`bytes`] reads little-endian integers,
//! - [`order`] compares keys,
//! - [`entry`] decodes one record,
//! - [`page`] decodes the header of a frame and finds the records of a page,
//! - [`database`] holds the file and hands out its pages,
//! - [`lookup`] finds the value stored with a key,
//! - [`walk`] yields every key/value pair.
//!
//! What holds of a well-formed file:
//! - [`tree`] says when a file is well-formed,
//! - [`descent`] follows the lookup through a well-formed tree,
//! - [`chain`] follows the walk through its leaves,
//! - [`agreement`] concludes that the lookup finds exactly what the walk
//!   yields, in the order of the keys.

pub mod agreement;
pub mod bytes;
pub mod chain;
pub mod database;
pub mod descent;
pub mod entry;
pub mod error;
pub mod lookup;
pub mod order;
pub mod page;
pub mod tree;
pub mod walk;
