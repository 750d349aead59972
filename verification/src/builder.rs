//! Incremental construction of [`ByteStringSet`](crate::ByteStringSet)s with the prefix length
//! fixed up front, which lets existing data files be merged in.

use vstd::prelude::*;

use crate::error::Error;
use crate::external::PassState;
use crate::format::{file_entries, parse_header, parsed_header, HEADER_LEN};
use crate::layout::{all_zero_padded, prefix_set, strides};
use crate::offsets::OFFSET_TABLE_PREFIX_LEN;
use crate::set::ByteStringSet;
use crate::set_builder::{Build, Collected};

verus! {

/// What comes of importing a data file of `file_len` bytes that starts with `header` into a
/// builder: the file's prefix length and entry count, or the first thing wrong, in the order
/// builder's prefix length, header, file's prefix length, data size.
pub open spec fn planned_import(
    prefix_len: usize,
    key_len: usize,
    file_len: int,
    header: Seq<u8>,
) -> Result<(usize, u64), Error> {
    if !(3 <= prefix_len <= key_len) {
        Err(Error::InvalidPrefixLen { prefix_len, key_len })
    } else if file_len < HEADER_LEN {
        Err(Error::BadHeader)
    } else {
        match parsed_header(header) {
            Err(error) => Err(error),
            Ok(imported_prefix_len) => if !(3 <= imported_prefix_len <= key_len) {
                Err(Error::InvalidPrefixLen { prefix_len: imported_prefix_len, key_len })
            } else if imported_prefix_len < prefix_len {
                Err(Error::PrefixLenExceedsImport { prefix_len, imported_prefix_len })
            } else if (file_len - HEADER_LEN) % imported_prefix_len as int != 0 {
                Err(
                    Error::Misaligned {
                        data_len: if file_len - HEADER_LEN > usize::MAX {
                            usize::MAX
                        } else {
                            (file_len - HEADER_LEN) as usize
                        },
                        prefix_len: imported_prefix_len,
                    },
                )
            } else {
                Ok(
                    (
                        imported_prefix_len,
                        ((file_len - HEADER_LEN) / imported_prefix_len as int) as u64,
                    ),
                )
            },
        }
    }
}

/// A data file that was found fit for import: its entries follow the header.
#[derive(Debug, Clone, Copy)]
pub struct ImportPlan<const N: usize> {
    prefix_len: usize,
    count: u64,
}

impl<const N: usize> ImportPlan<N> {
    #[verifier::type_invariant]
    spec fn wf(&self) -> bool {
        3 <= self.prefix_len <= N
    }

    /// Length of the file's entries.
    pub closed spec fn stride(&self) -> usize {
        self.prefix_len
    }

    /// Number of the file's entries.
    pub closed spec fn entry_count(&self) -> u64 {
        self.count
    }

    /// Length of the file's entries.
    #[must_use]
    pub fn prefix_len(&self) -> (prefix_len: usize)
        ensures
            prefix_len == self.stride(),
            3 <= prefix_len <= N,
    {
        proof {
            use_type_invariant(self);
        }
        self.prefix_len
    }

    /// Number of the file's entries.
    #[must_use]
    pub fn count(&self) -> (count: u64)
        ensures
            count == self.entry_count(),
    {
        self.count
    }
}

/// Accumulates `[u8; N]` keys and builds a [`ByteStringSet`](crate::ByteStringSet) that matches
/// on a prefix length given at construction.
///
/// Obtained from [`in_memory`](Self::in_memory) or [`ByteStringSet::external_builder`] (external
/// sort). Duplicate insertions are fine; they are removed during [`build`], and existing data
/// files can be merged in with [`import`].
///
/// [`build`]: ByteStringSetBuilder::build
/// [`import`]: ByteStringSetBuilder::import
#[derive(Debug)]
pub struct ByteStringSetBuilder<const N: usize> {
    keys: crate::set_builder::ByteStringSetBuilder<N>,
    /// The prefix length (`P`) the finished set will match on; range-validated by
    /// [`build`](Self::build) and [`import`](Self::import) rather than at construction.
    prefix_len: usize,
}

impl<const N: usize> View for ByteStringSetBuilder<N> {
    type V = Collected;

    closed spec fn view(&self) -> Collected {
        self.keys@
    }
}

impl<const N: usize> Default for ByteStringSetBuilder<N> {
    /// An in-memory builder that matches on full keys (`prefix_len == N`).
    fn default() -> (builder: Self)
        ensures
            builder@ == Collected::Buffered(Seq::empty()),
            builder.stride() == N,
    {
        Self::in_memory(N)
    }
}

impl<const N: usize> ByteStringSet<N> {
    /// Create a builder for a set that matches on the first `prefix_len` bytes of its keys, with
    /// an external sort so the full key set never has to fit in memory.
    ///
    /// Values of `max_bucket_bytes` smaller than `N` are treated as `N`, since a bucket must hold
    /// at least one key.
    pub fn external_builder(prefix_len: usize, max_bucket_bytes: usize) -> (result: Result<
        ByteStringSetBuilder<N>,
        Error,
    >)
        ensures
            result matches Ok(builder) && builder.stride() == prefix_len && builder@
                == (Collected::Spilled {
                max_bucket_bytes: if max_bucket_bytes < N {
                    N as int
                } else {
                    max_bucket_bytes as int
                },
                pending: Seq::empty(),
            }),
    {
        ByteStringSetBuilder::external(prefix_len, max_bucket_bytes)
    }
}

impl<const N: usize> ByteStringSetBuilder<N> {
    /// The prefix length the finished set will match on.
    pub closed spec fn stride(&self) -> usize {
        self.prefix_len
    }

    /// Create an in-memory builder.
    pub fn in_memory(prefix_len: usize) -> (builder: Self)
        ensures
            builder@ == Collected::Buffered(Seq::empty()),
            builder.stride() == prefix_len,
    {
        ByteStringSetBuilder {
            keys: crate::set_builder::ByteStringSetBuilder::default(),
            prefix_len,
        }
    }

    /// Create an external-sort builder. Values of `max_bucket_bytes` smaller than `N` are
    /// treated as `N`, since a bucket must hold at least one key.
    pub fn external(prefix_len: usize, max_bucket_bytes: usize) -> (result: Result<Self, Error>)
        ensures
            result matches Ok(builder) && builder.stride() == prefix_len && builder@
                == (Collected::Spilled {
                max_bucket_bytes: if max_bucket_bytes < N {
                    N as int
                } else {
                    max_bucket_bytes as int
                },
                pending: Seq::empty(),
            }),
    {
        match crate::set_builder::ByteStringSetBuilder::with_max_bucket_bytes(max_bucket_bytes) {
            Ok(keys) => Ok(ByteStringSetBuilder { keys, prefix_len }),
            Err(error) => Err(error),
        }
    }

    /// Add a key to the set under construction. This never fails.
    pub fn insert(&mut self, key: [u8; N]) -> (result: Result<(), Error>)
        ensures
            result is Ok,
            final(self)@ == old(self)@.with_keys(seq![key@]),
            final(self).stride() == old(self).stride(),
    {
        self.keys.insert(key)
    }

    /// Take the inserted bytes that are yet to be appended to the spill file. In-memory builders
    /// have none.
    pub fn take_pending(&mut self) -> (bytes: Vec<u8>)
        ensures
            match old(self)@ {
                Collected::Buffered(_) => {
                    &&& bytes@ == Seq::<u8>::empty()
                    &&& final(self)@ == old(self)@
                },
                Collected::Spilled { max_bucket_bytes, pending } => {
                    &&& bytes@ == pending
                    &&& final(self)@ == (Collected::Spilled {
                        max_bucket_bytes,
                        pending: Seq::empty(),
                    })
                },
            },
            final(self).stride() == old(self).stride(),
    {
        self.keys.take_pending()
    }

    /// Check the builder's prefix length.
    ///
    /// # Errors
    ///
    /// Returns [`Error::InvalidPrefixLen`] if it is outside `3..=N`.
    pub fn check_prefix_len(&self) -> (result: Result<(), Error>)
        ensures
            result == if 3 <= self.stride() <= N {
                Ok::<(), Error>(())
            } else {
                Err(Error::InvalidPrefixLen { prefix_len: self.stride(), key_len: N })
            },
    {
        if self.prefix_len < OFFSET_TABLE_PREFIX_LEN || self.prefix_len > N {
            Err(Error::InvalidPrefixLen { prefix_len: self.prefix_len, key_len: N })
        } else {
            Ok(())
        }
    }

    /// Decide whether a data file can be imported, from its length and its header.
    ///
    /// # Errors
    ///
    /// As for [`import`](Self::import).
    pub fn plan_import(&self, file_len: u64, header: &[u8]) -> (result: Result<
        ImportPlan<N>,
        Error,
    >)
        ensures
            match planned_import(self.stride(), N, file_len as int, header@) {
                Ok((prefix_len, count)) => result matches Ok(plan) && {
                    &&& plan.stride() == prefix_len
                    &&& plan.entry_count() == count
                    &&& self.stride() <= plan.stride()
                },
                Err(error) => result == Err::<ImportPlan<N>, Error>(error),
            },
    {
        if let Err(error) = self.check_prefix_len() {
            return Err(error);
        }
        if file_len < HEADER_LEN as u64 {
            return Err(Error::BadHeader);
        }
        let data_len: u64 = file_len - HEADER_LEN as u64;
        let imported_prefix_len: usize = match parse_header(header) {
            Ok(imported_prefix_len) => imported_prefix_len,
            Err(error) => return Err(error),
        };
        if imported_prefix_len < OFFSET_TABLE_PREFIX_LEN || imported_prefix_len > N {
            return Err(Error::InvalidPrefixLen { prefix_len: imported_prefix_len, key_len: N });
        }
        if imported_prefix_len < self.prefix_len {
            return Err(
                Error::PrefixLenExceedsImport { prefix_len: self.prefix_len, imported_prefix_len },
            );
        }
        if data_len % imported_prefix_len as u64 != 0 {
            // The saturating conversion only affects the error report, and only on targets
            // where `usize` is narrower than `u64`.
            let reported: usize = if data_len > usize::MAX as u64 {
                usize::MAX
            } else {
                data_len as usize
            };
            return Err(Error::Misaligned { data_len: reported, prefix_len: imported_prefix_len });
        }
        let count: u64 = data_len / imported_prefix_len as u64;
        Ok(ImportPlan { prefix_len: imported_prefix_len, count })
    }

    /// Add some of the entries of a data file being imported. The plan must be for a file whose
    /// entries are no shorter than the builder's prefixes, as those from
    /// [`plan_import`](Self::plan_import) are; so the zero bytes that extend an entry to a full
    /// key lie past the builder's prefix length.
    pub fn import_entries(&mut self, plan: &ImportPlan<N>, entries: &[u8])
        requires
            old(self).stride() <= plan.stride(),
        ensures
            final(self)@ == old(self)@.with_keys(
                all_zero_padded(strides(entries@, plan.stride() as int), N as int),
            ),
            final(self).stride() == old(self).stride(),
    {
        proof {
            use_type_invariant(plan);
        }
        self.keys.insert_entries(entries, plan.prefix_len);
    }

    /// Read the entries of an existing data file into the builder.
    ///
    /// The file's prefix length must be at least the builder's: such entries truncate cleanly
    /// to the target prefix during [`build`], while shorter ones could not be reconstituted
    /// into keys. Entries shorter than `N` are zero-padded into full keys; the padding never
    /// reaches a finished set, because the builder's shorter-or-equal prefix length always
    /// truncates it away. The imported entries join the keys inserted so far, so several sets
    /// (plus loose keys) can be merged into one build. Import order does not matter: [`build`]
    /// re-sorts and deduplicates everything.
    ///
    /// # Errors
    ///
    /// Returns [`Error::BadHeader`] if the file is truncated or lacks the header magic,
    /// [`Error::UnsupportedVersion`] for an unknown format version,
    /// [`Error::InvalidPrefixLen`] if the builder's or the file's prefix length is outside
    /// `3..=N`, [`Error::PrefixLenExceedsImport`] if the file's prefix length is shorter than the
    /// builder's, and [`Error::Misaligned`] if the data size is not a whole number of entries.
    ///
    /// [`build`]: ByteStringSetBuilder::build
    pub fn import(&mut self, file: &[u8]) -> (result: Result<(), Error>)
        ensures
            match planned_import(old(self).stride(), N, file@.len() as int, file@) {
                Ok((prefix_len, _)) => {
                    &&& result is Ok
                    &&& final(self)@ == old(self)@.with_keys(
                        all_zero_padded(file_entries(file@, prefix_len as int), N as int),
                    )
                },
                Err(error) => {
                    &&& result == Err::<(), Error>(error)
                    &&& final(self)@ == old(self)@
                },
            },
            final(self).stride() == old(self).stride(),
    {
        match self.plan_import(file.len() as u64, file) {
            Ok(plan) => {
                let data = &file[HEADER_LEN..file.len()];
                assert(data@ =~= file@.skip(HEADER_LEN as int));
                self.import_entries(&plan, data);
                Ok(())
            },
            Err(error) => Err(error),
        }
    }

    /// Sort and deduplicate the inserted keys by their first `prefix_len` bytes (as given at
    /// construction) and produce the finished set.
    ///
    /// In-memory builders sort in place and keep the result in an owned buffer. External builders
    /// instead begin a sort of the spilled keys.
    ///
    /// # Errors
    ///
    /// Returns [`Error::InvalidPrefixLen`] if the builder's prefix length is outside `3..=N`, and
    /// [`Error::TooManyEntries`] if the deduplicated entry count overflows the `u32` offset
    /// table.
    pub fn build(self) -> (result: Result<Build<N>, Error>)
        ensures
            match result {
                Ok(Build::Complete(set)) => {
                    &&& 3 <= self.stride() <= N
                    &&& set.stride() == self.stride()
                    &&& self@ matches Collected::Buffered(keys) && {
                        &&& set@ == prefix_set(keys, self.stride() as int)
                        &&& set@.len() <= u32::MAX
                    }
                },
                Ok(Build::External { tail, pass }) => {
                    &&& 3 <= self.stride() <= N
                    &&& self@ matches Collected::Spilled { max_bucket_bytes, pending } && {
                        &&& tail@ == pending
                        &&& pass@ == PassState::start(
                            N as int,
                            self.stride() as int,
                            max_bucket_bytes,
                        )
                        &&& pass@.wf()
                    }
                },
                Err(Error::TooManyEntries { count }) => {
                    &&& 3 <= self.stride() <= N
                    &&& self@ matches Collected::Buffered(keys) && {
                        &&& count == prefix_set(keys, self.stride() as int).len()
                        &&& count > u32::MAX
                    }
                },
                Err(error) => {
                    &&& !(3 <= self.stride() <= N)
                    &&& error == (Error::InvalidPrefixLen {
                        prefix_len: self.stride(),
                        key_len: N,
                    })
                },
            },
    {
        self.keys.build(self.prefix_len)
    }
}

} // verus!
