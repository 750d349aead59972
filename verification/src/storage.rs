//! Where a set's prefixes live: in a buffer of their own or in a mapped data file.

use memmap2::Mmap;
use vstd::prelude::*;

use crate::format::HEADER_LEN;

verus! {

/// A read-only memory map of the `memmap2` crate, of which only [`mapped_bytes`] is known.
#[verifier::external_type_specification]
#[verifier::external_body]
pub struct ExMmap(memmap2::Mmap);

/// The bytes that a memory map shows.
pub uninterp spec fn mapped_bytes(map: Mmap) -> Seq<u8>;

/// The bytes of a memory map, through `memmap2`'s `Deref` of `Mmap` to a byte slice. Claimed of
/// it: the slice is the whole of the mapped bytes, the same at every call. Whoever makes a map
/// promises that what it shows stays unmodified while it lives; without that the behaviour of
/// the map itself is undefined.
#[verifier::external_body]
pub(crate) fn map_as_slice(map: &Mmap) -> (bytes: &[u8])
    ensures
        bytes@ == mapped_bytes(*map),
{
    &map[..]
}

/// Backing storage for the prefix buffer: built in memory or mapped from disk.
#[derive(Debug)]
pub(crate) enum Storage {
    Owned(Vec<u8>),
    Mapped(Mmap),
}

impl Storage {
    /// Mapped files start with the header.
    pub(crate) open spec fn wf(&self) -> bool {
        match self {
            Storage::Owned(_) => true,
            Storage::Mapped(map) => mapped_bytes(*map).len() >= HEADER_LEN,
        }
    }

    /// The prefixes, without any header.
    pub(crate) open spec fn bytes(&self) -> Seq<u8> {
        match self {
            Storage::Owned(bytes) => bytes@,
            Storage::Mapped(map) => mapped_bytes(*map).skip(HEADER_LEN as int),
        }
    }

    pub(crate) fn as_slice(&self) -> (data: &[u8])
        requires
            self.wf(),
        ensures
            data@ == self.bytes(),
    {
        match self {
            Storage::Owned(bytes) => bytes.as_slice(),
            Storage::Mapped(map) => {
                let file = map_as_slice(map);
                &file[HEADER_LEN..file.len()]
            },
        }
    }
}

} // verus!
