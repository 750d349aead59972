//! Assembling a set from keys, with the prefix length chosen when the set is built.

use vstd::prelude::*;

use crate::error::Error;
use crate::external::{ExternalBuild, PassState, SpillState};
use crate::keys::{first_strides, read_keys_into};
use crate::layout::{
    all_zero_padded, key_strings, lemma_flatten_of_strides, lemma_strides_concat, lemma_strides_len,
    lemma_strides_of_flatten, lemma_whole_strides, prefix_set, prefixes, strides,
};
use crate::offsets::OFFSET_TABLE_PREFIX_LEN;
use crate::order::{lemma_sorted_entries, sorted_entries};
use crate::set::ByteStringSet;
use crate::sorting::sort_dedup_emit;

verus! {

/// What a builder holds, as a value.
pub enum Collected {
    /// All keys inserted so far, in that order.
    Buffered(Seq<Seq<u8>>),
    /// Keys go to a spill file.
    Spilled {
        /// Largest bucket of raw keys, in bytes, that the build may sort in memory at once.
        max_bucket_bytes: int,
        /// Bytes yet to be appended to the spill file.
        pending: Seq<u8>,
    },
}

impl Collected {
    /// The same with more keys inserted.
    pub open spec fn with_keys(self, more: Seq<Seq<u8>>) -> Collected {
        match self {
            Collected::Buffered(keys) => Collected::Buffered(keys + more),
            Collected::Spilled { max_bucket_bytes, pending } => Collected::Spilled {
                max_bucket_bytes,
                pending: pending + more.flatten(),
            },
        }
    }
}

/// Where inserted keys go.
#[derive(Debug)]
enum Held<const N: usize> {
    Buffered(Vec<[u8; N]>),
    Spilled(SpillState),
}

/// Accumulates `[u8; N]` keys and builds a [`ByteStringSet`].
///
/// Obtained from [`ByteStringSet::builder`] (in-memory) or
/// [`ByteStringSetBuilder::with_max_bucket_bytes`] (external sort). Duplicate insertions are
/// fine; they are removed during [`build`].
///
/// [`build`]: ByteStringSetBuilder::build
#[derive(Debug)]
pub struct ByteStringSetBuilder<const N: usize> {
    held: Held<N>,
}

impl<const N: usize> View for ByteStringSetBuilder<N> {
    type V = Collected;

    closed spec fn view(&self) -> Collected {
        match self.held {
            Held::Buffered(keys) => Collected::Buffered(key_strings(keys@)),
            Held::Spilled(spill) => Collected::Spilled {
                max_bucket_bytes: spill.limit(),
                pending: spill.pending(),
            },
        }
    }
}

/// A build that was begun.
#[derive(Debug)]
pub enum Build<const N: usize> {
    /// The finished set.
    Complete(ByteStringSet<N>),
    /// The keys are in a spill file and have to be sorted there.
    External {
        /// What is still to be appended to the spill file.
        tail: Vec<u8>,
        /// The sort.
        pass: ExternalBuild<N>,
    },
}

impl<const N: usize> Default for ByteStringSetBuilder<N> {
    /// An in-memory builder without keys.
    fn default() -> (builder: Self)
        ensures
            builder@ == Collected::Buffered(Seq::empty()),
    {
        let builder = ByteStringSetBuilder { held: Held::Buffered(Vec::new()) };
        assert(builder@->Buffered_0 =~= Seq::empty());
        builder
    }
}

impl<const N: usize> ByteStringSet<N> {
    /// Create an empty [`ByteStringSetBuilder`] for assembling a set from `[u8; N]` keys.
    #[must_use]
    pub fn builder() -> (builder: ByteStringSetBuilder<N>)
        ensures
            builder@ == Collected::Buffered(Seq::empty()),
    {
        ByteStringSetBuilder::default()
    }
}

impl<const N: usize> ByteStringSetBuilder<N> {
    /// Create a builder that uses an external most-significant-byte radix sort so the full key
    /// set never has to fit in memory.
    ///
    /// Inserted keys are to be streamed to a spill file: see
    /// [`take_pending`](Self::take_pending). [`build`](Self::build) then recursively partitions
    /// the spilled keys by successive leading bytes until each bucket is at most
    /// `max_bucket_bytes`, sorts one bucket at a time in memory, and streams the deduplicated
    /// prefixes to the output. Values of `max_bucket_bytes` smaller than `N` are treated as `N`,
    /// since a bucket must hold at least one key.
    pub fn with_max_bucket_bytes(max_bucket_bytes: usize) -> (result: Result<Self, Error>)
        ensures
            result matches Ok(builder) && builder@ == (Collected::Spilled {
                max_bucket_bytes: if max_bucket_bytes < N {
                    N as int
                } else {
                    max_bucket_bytes as int
                },
                pending: Seq::empty(),
            }),
    {
        let limit: usize = if max_bucket_bytes < N {
            N
        } else {
            max_bucket_bytes
        };
        Ok(ByteStringSetBuilder { held: Held::Spilled(SpillState::new(limit)) })
    }

    /// Add a key to the set under construction. This never fails.
    pub fn insert(&mut self, key: [u8; N]) -> (result: Result<(), Error>)
        ensures
            result is Ok,
            final(self)@ == old(self)@.with_keys(seq![key@]),
    {
        match &mut self.held {
            Held::Buffered(keys) => {
                let ghost before = keys@;
                keys.push(key);
                assert(key_strings(keys@) =~= key_strings(before) + seq![key@]);
            },
            Held::Spilled(spill) => {
                spill.insert(&key);
                proof {
                    seq![key@].lemma_flatten_one_element();
                }
            },
        }
        Ok(())
    }

    /// Take the inserted bytes that are yet to be appended to the spill file. In-memory builders
    /// have none.
    pub fn take_pending(&mut self) -> (bytes: Vec<u8>)
        ensures
            match old(self)@ {
                Collected::Buffered(_) => {
                    &&& bytes@ == Seq::<u8>::empty()
                    &&& final(self)@ == old(self)@
                },
                Collected::Spilled { max_bucket_bytes, pending } => {
                    &&& bytes@ == pending
                    &&& final(self)@ == (Collected::Spilled {
                        max_bucket_bytes,
                        pending: Seq::empty(),
                    })
                },
            },
    {
        match &mut self.held {
            Held::Buffered(_) => Vec::new(),
            Held::Spilled(spill) => spill.take_pending(),
        }
    }

    /// Add entries of `prefix_len` bytes each, laid out back to back, as keys: each is
    /// zero-padded into a full key.
    pub(crate) fn insert_entries(&mut self, entries: &[u8], prefix_len: usize)
        requires
            0 < prefix_len <= N,
        ensures
            final(self)@ == old(self)@.with_keys(
                all_zero_padded(strides(entries@, prefix_len as int), N as int),
            ),
    {
        let count: usize = entries.len() / prefix_len;
        let ghost p = prefix_len as int;
        let ghost cut = strides(entries@, p);
        let ghost padded = all_zero_padded(cut, N as int);
        proof {
            vstd::arithmetic::div_mod::lemma_fundamental_div_mod(entries@.len() as int, p);
            vstd::arithmetic::mul::lemma_mul_is_commutative(count as int, p);
            vstd::arithmetic::div_mod::lemma_mod_bound(entries@.len() as int, p);
            assert(first_strides(entries@, p, count as int) =~= cut);
        }
        match &mut self.held {
            Held::Buffered(keys) => {
                let _ = read_keys_into(entries, count, prefix_len, keys);
            },
            Held::Spilled(spill) => {
                if prefix_len == N {
                    // Full keys match the spill file's layout exactly.
                    let whole = &entries[0..count * prefix_len];
                    proof {
                        lemma_whole_strides(count as int, p);
                        let rest = entries@.skip(count * prefix_len);
                        assert(entries@ =~= whole@ + rest);
                        lemma_strides_concat(whole@, rest, p);
                        assert(strides(rest, p) =~= Seq::empty()) by {
                            vstd::arithmetic::div_mod::lemma_basic_div(rest.len() as int, p);
                        }
                        assert(strides(whole@, p) =~= cut);
                        lemma_flatten_of_strides(whole@, p);
                        lemma_strides_len(entries@, p);
                        assert forall|i: int| 0 <= i < cut.len() implies #[trigger] padded[i]
                            == cut[i] by {
                            assert(padded[i] =~= cut[i]);
                        }
                        assert(padded =~= cut);
                    }
                    spill.insert(whole);
                } else {
                    let mut keys: Vec<[u8; N]> = Vec::new();
                    let ghost none = keys@;
                    let _ = read_keys_into(entries, count, prefix_len, &mut keys);
                    assert(key_strings(none) + padded =~= padded);
                    let ghost before = spill.pending();
                    let ghost limit = spill.limit();
                    let mut next: usize = 0;
                    assert(padded.take(0).flatten() =~= Seq::<u8>::empty());
                    assert(spill.pending() =~= before + padded.take(0).flatten());
                    while next < keys.len()
                        invariant
                            next <= keys@.len(),
                            key_strings(keys@) == padded,
                            spill.pending() == before + padded.take(next as int).flatten(),
                            spill.limit() == limit,
                        decreases keys@.len() - next,
                    {
                        let key: [u8; N] = keys[next];
                        spill.insert(&key);
                        proof {
                            assert(key_strings(keys@)[next as int] == key@);
                            assert(padded.take(next + 1) =~= padded.take(next as int).push(key@));
                            padded.take(next as int).lemma_flatten_push(key@);
                            assert(spill.pending() =~= before + padded.take(next + 1).flatten());
                        }
                        next += 1;
                    }
                    assert(padded.take(keys@.len() as int) =~= padded);
                }
            },
        }
    }

    /// Sort and deduplicate the inserted keys by their first `prefix_len` bytes and produce the
    /// finished set.
    ///
    /// In-memory builders sort in place and keep the result in an owned buffer. External builders
    /// ([`Self::with_max_bucket_bytes`]) instead begin a sort of the spilled keys.
    ///
    /// # Errors
    ///
    /// Returns [`Error::InvalidPrefixLen`] if `prefix_len` is outside `3..=N`, and
    /// [`Error::TooManyEntries`] if the deduplicated entry count overflows the `u32` offset
    /// table.
    pub fn build(self, prefix_len: usize) -> (result: Result<Build<N>, Error>)
        ensures
            match result {
                Ok(Build::Complete(set)) => {
                    &&& 3 <= prefix_len <= N
                    &&& set.stride() == prefix_len
                    &&& self@ matches Collected::Buffered(keys) && {
                        &&& set@ == prefix_set(keys, prefix_len as int)
                        &&& set@.len() <= u32::MAX
                    }
                },
                Ok(Build::External { tail, pass }) => {
                    &&& 3 <= prefix_len <= N
                    &&& self@ matches Collected::Spilled { max_bucket_bytes, pending } && {
                        &&& tail@ == pending
                        &&& pass@ == PassState::start(
                            N as int,
                            prefix_len as int,
                            max_bucket_bytes,
                        )
                        &&& pass@.wf()
                    }
                },
                Err(Error::TooManyEntries { count }) => {
                    &&& 3 <= prefix_len <= N
                    &&& self@ matches Collected::Buffered(keys) && {
                        &&& count == prefix_set(keys, prefix_len as int).len()
                        &&& count > u32::MAX
                    }
                },
                Err(error) => {
                    &&& !(3 <= prefix_len <= N)
                    &&& error == (Error::InvalidPrefixLen { prefix_len, key_len: N })
                },
            },
    {
        if prefix_len < OFFSET_TABLE_PREFIX_LEN || prefix_len > N {
            return Err(Error::InvalidPrefixLen { prefix_len, key_len: N });
        }
        match self.held {
            Held::Spilled(spill) => {
                let (tail, pass) = spill.build(prefix_len);
                Ok(Build::External { tail, pass })
            },
            Held::Buffered(buffered) => {
                let mut keys = buffered;
                let ghost strings = key_strings(keys@);
                let ghost p = prefix_len as int;
                let ghost members = prefix_set(strings, p);
                let mut data: Vec<u8> = Vec::new();
                sort_dedup_emit(&mut keys, prefix_len, &mut data);
                proof {
                    vstd::seq_lib::seq_to_set_is_finite(prefixes(strings, p));
                    lemma_sorted_entries(members);
                    let entries = sorted_entries(members);
                    assert(data@ =~= entries.flatten());
                    assert forall|i: int| 0 <= i < entries.len() implies (#[trigger] entries[i]).len()
                        == p by {
                        assert(entries.to_set().contains(entries[i]));
                        let j = choose|j: int|
                            0 <= j < strings.len() && prefixes(strings, p)[j] == entries[i];
                        assert(prefixes(strings, p)[j].len() == p);
                    }
                    lemma_strides_of_flatten(entries, p);
                }
                match ByteStringSet::from_sorted(data, prefix_len) {
                    Ok(set) => Ok(Build::Complete(set)),
                    Err(error) => Err(error),
                }
            },
        }
    }
}

} // verus!
