//! Errors of building and loading sets.

use vstd::prelude::*;

verus! {

/// Errors produced when building or loading a [`ByteStringSet`](crate::ByteStringSet).
#[derive(Debug, Clone, Copy, PartialEq, Eq)]
pub enum Error {
    /// The requested prefix length is outside `3..=N`.
    InvalidPrefixLen {
        /// The rejected prefix length.
        prefix_len: usize,
        /// The type-level key length `N`.
        key_len: usize,
    },
    /// A data file's prefix length is shorter than that of the builder it is imported into.
    PrefixLenExceedsImport {
        /// The builder's prefix length.
        prefix_len: usize,
        /// The data file's prefix length.
        imported_prefix_len: usize,
    },
    /// A data file's size is not a whole number of `P`-byte strides.
    Misaligned {
        /// Total data size in bytes.
        data_len: usize,
        /// The stride the data was expected to be laid out in.
        prefix_len: usize,
    },
    /// A data file's entries are not strictly ascending (sorted and deduped).
    Unsorted {
        /// Index of the first entry that is `<=` its predecessor.
        index: usize,
    },
    /// The entry count does not fit the `u32` offset table.
    TooManyEntries {
        /// Number of entries encountered.
        count: usize,
    },
    /// A data file is missing the expected header magic or is truncated.
    BadHeader,
    /// A data file uses a format version this crate does not understand.
    UnsupportedVersion {
        /// The version found in the file header.
        version: u8,
    },
}

} // verus!
