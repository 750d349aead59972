//! The finished set.

use memmap2::Mmap;
use vstd::prelude::*;

use crate::error::Error;
use crate::format::{
    file_entries, file_image, has_valid_entries, header_bytes, is_data_file, is_entries_error,
    is_load_error, parse_header, recorded_prefix_len, write_header, HEADER_LEN,
};
use crate::layout::{
    lemma_flatten_of_strides, lemma_no_remainder, lemma_stride_bounds, lemma_strides_len, strides,
};
use crate::offsets::{
    build_offsets, is_offset_table, lemma_first_unsorted, slot, table_index,
    OFFSET_TABLE_PREFIX_LEN,
};
use crate::order::{
    compare, lemma_ascending_distinct, lemma_irreflexive, lemma_sorted_entries_of_ascending,
    lemma_transitive, precedes, strictly_ascending, Order,
};
use crate::storage::{map_as_slice, mapped_bytes, Storage};

verus! {

/// A byte-string set over `[u8; N]` keys, matching on the first `P` bytes.
///
/// As a value it is the set of the `P`-byte prefixes that it stores.
#[derive(Debug)]
pub struct ByteStringSet<const N: usize> {
    prefix_len: usize,
    data: Storage,
    offsets: Vec<u32>,
}

impl<const N: usize> View for ByteStringSet<N> {
    type V = Set<Seq<u8>>;

    closed spec fn view(&self) -> Set<Seq<u8>> {
        self.entries().to_set()
    }
}

/// Build the offset table for a data file's entries, checking the part after the header.
///
/// # Errors
///
/// Returns [`Error::BadHeader`] if the file is shorter than a header, [`Error::Misaligned`] if
/// the data size is not a multiple of the prefix length, [`Error::TooManyEntries`] if the entry
/// count overflows `u32`, and [`Error::Unsorted`] if entries are not strictly ascending.
pub fn index_entries(file: &[u8], prefix_len: usize) -> (result: Result<Vec<u32>, Error>)
    requires
        prefix_len >= 3,
    ensures
        match result {
            Ok(offsets) => {
                &&& has_valid_entries(file@, prefix_len as int)
                &&& is_offset_table(offsets@, file_entries(file@, prefix_len as int))
            },
            Err(error) => {
                &&& !has_valid_entries(file@, prefix_len as int)
                &&& is_entries_error(file@, prefix_len, error)
            },
        },
{
    if file.len() < HEADER_LEN {
        return Err(Error::BadHeader);
    }
    let data = &file[HEADER_LEN..file.len()];
    assert(data@ =~= file@.skip(HEADER_LEN as int));
    if data.len() % prefix_len != 0 {
        return Err(Error::Misaligned { data_len: data.len(), prefix_len });
    }
    match build_offsets(data, prefix_len) {
        Ok(offsets) => Ok(offsets),
        Err(error) => {
            proof {
                if let Error::Unsorted { index } = error {
                    lemma_first_unsorted(file_entries(file@, prefix_len as int), index as int);
                }
            }
            Err(error)
        },
    }
}

/// Check a whole data file and build its offset table. Returns the recorded prefix length with
/// the table.
///
/// # Errors
///
/// Those of [`parse_header`], [`Error::InvalidPrefixLen`] if the recorded prefix length is
/// outside `3..=key_len`, and those of [`index_entries`].
pub fn index_file(file: &[u8], key_len: usize) -> (result: Result<(usize, Vec<u32>), Error>)
    ensures
        match result {
            Ok((prefix_len, offsets)) => {
                &&& is_data_file(file@, key_len as int)
                &&& prefix_len == recorded_prefix_len(file@)
                &&& is_offset_table(offsets@, file_entries(file@, prefix_len as int))
            },
            Err(error) => {
                &&& !is_data_file(file@, key_len as int)
                &&& is_load_error(file@, key_len, error)
            },
        },
{
    match parse_header(file) {
        Err(error) => Err(error),
        Ok(prefix_len) => if prefix_len < OFFSET_TABLE_PREFIX_LEN || prefix_len > key_len {
            Err(Error::InvalidPrefixLen { prefix_len, key_len })
        } else {
            match index_entries(file, prefix_len) {
                Ok(offsets) => Ok((prefix_len, offsets)),
                Err(error) => Err(error),
            }
        },
    }
}

impl<const N: usize> ByteStringSet<N> {
    /// The stored prefixes in the order they are laid out.
    spec fn entries(&self) -> Seq<Seq<u8>> {
        strides(self.data.bytes(), self.prefix_len as int)
    }

    #[verifier::type_invariant]
    spec fn wf(&self) -> bool {
        &&& 3 <= self.prefix_len <= N
        &&& self.data.wf()
        &&& self.data.bytes().len() % (self.prefix_len as nat) == 0
        &&& self.entries().len() <= u32::MAX
        &&& strictly_ascending(self.entries())
        &&& is_offset_table(self.offsets@, self.entries())
    }

    /// The prefix length `P` this set matches on.
    pub closed spec fn stride(&self) -> int {
        self.prefix_len as int
    }

    /// A set over prefixes laid out in a buffer of their own.
    pub(crate) fn from_sorted(data: Vec<u8>, prefix_len: usize) -> (result: Result<Self, Error>)
        requires
            3 <= prefix_len <= N,
            data@.len() % (prefix_len as nat) == 0,
            strictly_ascending(strides(data@, prefix_len as int)),
        ensures
            match result {
                Ok(set) => {
                    &&& strides(data@, prefix_len as int).len() <= u32::MAX
                    &&& set.stride() == prefix_len
                    &&& set@ == strides(data@, prefix_len as int).to_set()
                },
                Err(error) => {
                    &&& strides(data@, prefix_len as int).len() > u32::MAX
                    &&& error matches Error::TooManyEntries { count } && count == strides(
                        data@,
                        prefix_len as int,
                    ).len()
                },
            },
    {
        match build_offsets(data.as_slice(), prefix_len) {
            Ok(offsets) => Ok(ByteStringSet { prefix_len, data: Storage::Owned(data), offsets }),
            Err(error) => {
                proof {
                    if let Error::Unsorted { index } = error {
                        lemma_first_unsorted(strides(data@, prefix_len as int), index as int);
                    }
                }
                Err(error)
            },
        }
    }

    /// A set over the entries of a mapped file whose prefix length is already known.
    pub(crate) fn from_map(map: Mmap, prefix_len: usize) -> (result: Result<Self, Error>)
        requires
            3 <= prefix_len <= N,
        ensures
            match result {
                Ok(set) => {
                    &&& has_valid_entries(mapped_bytes(map), prefix_len as int)
                    &&& set.stride() == prefix_len
                    &&& set@ == file_entries(mapped_bytes(map), prefix_len as int).to_set()
                },
                Err(error) => {
                    &&& !has_valid_entries(mapped_bytes(map), prefix_len as int)
                    &&& is_entries_error(mapped_bytes(map), prefix_len, error)
                },
            },
    {
        match index_entries(map_as_slice(&map), prefix_len) {
            Ok(offsets) => Ok(ByteStringSet { prefix_len, data: Storage::Mapped(map), offsets }),
            Err(error) => Err(error),
        }
    }

    /// Load a set from a mapped data file, whose bytes [`write`](Self::write) produced.
    ///
    /// The file is used where it is mapped rather than copied. Its header records the prefix
    /// length `P`, and the offset table (which is never serialized) is rebuilt by scanning the
    /// mapped data, which also validates that entries are sorted and deduplicated. The file must
    /// not be modified while the returned set is alive.
    ///
    /// # Errors
    ///
    /// Returns [`Error::BadHeader`] if the file is truncated or lacks the header magic,
    /// [`Error::UnsupportedVersion`] for an unknown format version, [`Error::InvalidPrefixLen`]
    /// if the recorded prefix length is outside `3..=N`, [`Error::Misaligned`] if the data size
    /// is not a multiple of the prefix length, [`Error::Unsorted`] if entries are not strictly
    /// ascending, and [`Error::TooManyEntries`] if the entry count overflows `u32`.
    pub fn read(map: Mmap) -> (result: Result<Self, Error>)
        ensures
            match result {
                Ok(set) => {
                    &&& is_data_file(mapped_bytes(map), N as int)
                    &&& set.stride() == recorded_prefix_len(mapped_bytes(map))
                    &&& set@ == file_entries(mapped_bytes(map), set.stride()).to_set()
                },
                Err(error) => {
                    &&& !is_data_file(mapped_bytes(map), N as int)
                    &&& is_load_error(mapped_bytes(map), N, error)
                },
            },
    {
        match index_file(map_as_slice(&map), N) {
            Ok((prefix_len, offsets)) => Ok(
                ByteStringSet { prefix_len, data: Storage::Mapped(map), offsets },
            ),
            Err(error) => Err(error),
        }
    }

    /// Test whether a key's first `P` bytes are in the set.
    ///
    /// Exact membership when `prefix_len == N`; otherwise true if any member shares the key's
    /// `P`-byte prefix.
    #[must_use]
    pub fn lookup(&self, key: [u8; N]) -> (found: bool)
        ensures
            found == self@.contains(key@.take(self.stride())),
    {
        proof {
            use_type_invariant(self);
        }
        let probe = &key[0..self.prefix_len];
        let data = self.data.as_slice();
        let ghost p = self.prefix_len as int;
        let ghost entries = self.entries();
        assert(probe@ =~= key@.take(p));
        proof {
            lemma_strides_len(data@, p);
        }
        // The first 3 bytes select a bucket; binary-search the rest of it.
        let bucket: usize = table_index(probe);
        let mut low: usize = self.offsets[bucket] as usize;
        let mut high: usize = self.offsets[bucket + 1] as usize;
        proof {
            assert forall|i: int| 0 <= i < entries.len() && #[trigger] entries[i]
                == probe@ implies low <= i < high by {
                assert(i < self.offsets@[bucket as int] <==> slot(entries[i]) < bucket);
                assert(i < self.offsets@[bucket + 1] <==> slot(entries[i]) < bucket + 1);
            }
        }
        while low < high
            invariant
                self.prefix_len > 0,
                p == self.prefix_len,
                data@ == self.data.bytes(),
                entries == strides(data@, p),
                entries == self.entries(),
                probe@ == key@.take(p),
                strictly_ascending(entries),
                high <= entries.len(),
                forall|i: int|
                    0 <= i < entries.len() && #[trigger] entries[i] == probe@ ==> low <= i < high,
            decreases high - low,
        {
            let middle: usize = low + (high - low) / 2;
            proof {
                lemma_stride_bounds(data.len() as int, p, middle as int);
            }
            let start: usize = middle * self.prefix_len;
            let entry = &data[start..start + self.prefix_len];
            assert(entry@ == entries[middle as int]);
            match compare(entry, probe) {
                Order::Before => {
                    proof {
                        assert forall|i: int| 0 <= i < entries.len() && #[trigger] entries[i]
                            == probe@ implies middle + 1 <= i < high by {
                            lemma_irreflexive(probe@);
                            if i < middle {
                                assert(precedes(entries[i], entries[middle as int]));
                                lemma_transitive(probe@, entry@, probe@);
                            }
                        }
                    }
                    low = middle + 1;
                },
                Order::After => {
                    proof {
                        assert forall|i: int| 0 <= i < entries.len() && #[trigger] entries[i]
                            == probe@ implies low <= i < middle by {
                            lemma_irreflexive(probe@);
                            if middle < i {
                                assert(precedes(entries[middle as int], entries[i]));
                                lemma_transitive(probe@, entry@, probe@);
                            }
                        }
                    }
                    high = middle;
                },
                Order::Same => {
                    assert(entries[middle as int] == key@.take(p));
                    return true;
                },
            }
        }
        false
    }

    /// Number of distinct `P`-byte prefixes stored.
    #[must_use]
    pub fn len(&self) -> (count: usize)
        ensures
            self@.finite(),
            count == self@.len(),
            count <= u32::MAX,
    {
        proof {
            use_type_invariant(self);
            lemma_ascending_distinct(self.entries());
        }
        self.data.as_slice().len() / self.prefix_len
    }

    /// Whether the set contains no entries.
    #[must_use]
    pub fn is_empty(&self) -> (empty: bool)
        ensures
            empty == (self@ == Set::<Seq<u8>>::empty()),
    {
        proof {
            use_type_invariant(self);
        }
        let empty = self.data.as_slice().is_empty();
        proof {
            let len = self.data.bytes().len() as int;
            let p = self.prefix_len as int;
            lemma_no_remainder(len, p);
            if len == 0 {
                assert(len / p == 0) by (nonlinear_arith)
                    requires
                        len == 0,
                        p > 0,
                ;
                assert(self@ =~= Set::<Seq<u8>>::empty());
            } else {
                assert(len / p != 0) by (nonlinear_arith)
                    requires
                        (len / p) * p == len,
                        len != 0,
                ;
                assert(self@.contains(self.entries()[0]));
            }
        }
        empty
    }

    /// The prefix length `P` this set matches on.
    #[must_use]
    pub fn prefix_len(&self) -> (prefix_len: usize)
        ensures
            prefix_len == self.stride(),
            3 <= prefix_len <= N,
            forall|entry: Seq<u8>| self@.contains(entry) ==> entry.len() == prefix_len,
    {
        proof {
            use_type_invariant(self);
            lemma_strides_len(self.data.bytes(), self.stride());
        }
        self.prefix_len
    }

    /// The data file of the set, loadable by [`read`](Self::read), as the two pieces to write
    /// one after the other.
    ///
    /// The first is a small header (magic, format version, and the prefix length `P`), the
    /// second the packed prefix strides; the offset table is reconstructed on load.
    pub fn write(&self) -> (pieces: (Vec<u8>, &[u8]))
        ensures
            pieces.0@ == header_bytes(self.stride()),
            pieces.0@ + pieces.1@ == file_image(self.stride(), self@),
    {
        proof {
            use_type_invariant(self);
            lemma_sorted_entries_of_ascending(self.entries());
            lemma_flatten_of_strides(self.data.bytes(), self.stride());
        }
        let mut header: Vec<u8> = Vec::new();
        write_header(&mut header, self.prefix_len);
        assert(header@ =~= header_bytes(self.stride()));
        (header, self.data.as_slice())
    }
}

} // verus!
