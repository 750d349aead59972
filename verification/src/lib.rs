//! A byte-string set for fixed-length keys with prefix-based membership.
//!
//! Keys have a type-level length `N`. Each set also has a runtime prefix length (called `P` here).
//! When `P == N` membership checks are exact.
//!
//! # Layout
//!
//! The set is two flat buffers:
//!
//! * a byte buffer of the sorted, deduplicated `P`-byte prefixes laid out back to back (in
//!   `P`-byte strides), and
//! * an offset table of `2^24 + 1` `u32` entry indices, keyed by the first 3 bytes of a prefix,
//!   delimiting each bucket of the byte buffer.
//!
//! A lookup is one table read plus a binary search inside a single bucket. The table costs a
//! fixed 64 MiB per set, which pays off for large sets.
//!
//! Building normally buffers all keys in memory. For sets that do not fit,
//! [`ByteStringSetBuilder::with_max_bucket_bytes`] spills keys to files and builds the set with an
//! external most-significant-byte radix sort instead.
//!
//! The crate itself opens no file: a spilling builder hands out the bytes to write, an
//! [`ExternalBuild`] says what to read and write next, and a data file is read through a memory
//! map that the caller made.

pub mod builder;
pub mod error;
pub mod external;
pub mod format;
pub mod keys;
pub mod laws;
pub mod layout;
pub mod offsets;
pub mod order;
pub mod radix;
pub mod runs;
pub mod set;
pub mod set_builder;
pub mod sorting;
pub mod storage;

pub use error::Error;
pub use external::{Action, BucketFile, ExternalBuild, Route, SpillState};
pub use set::ByteStringSet;
pub use set_builder::{Build, ByteStringSetBuilder};
