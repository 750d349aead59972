//! The data file format: a 16-byte header, then the sorted prefixes back to back.

use vstd::prelude::*;

use crate::error::Error;
use crate::layout::strides;
use crate::offsets::first_unsorted;
use crate::order::{sorted_entries, strictly_ascending};

verus! {

/// Magic bytes identifying a bsset data file: the letters `BSST`.
pub const MAGIC: [u8; 4] = [0x42, 0x53, 0x53, 0x54];

/// Current data file format version.
pub const FORMAT_VERSION: u8 = 1;

/// Data file header: bytes `0..4` magic, `4` version, `5..8` reserved (zero), `8..16` prefix
/// length as little-endian `u64`.
pub const HEADER_LEN: usize = 16;

/// The number written in `len` bytes, lowest first.
pub open spec fn le_bytes(value: int, len: nat) -> Seq<u8>
    decreases len,
{
    if len == 0 {
        Seq::empty()
    } else {
        seq![(value % 256) as u8] + le_bytes(value / 256, (len - 1) as nat)
    }
}

/// The number that the bytes spell, lowest first.
pub open spec fn le_value(bytes: Seq<u8>) -> int
    decreases bytes.len(),
{
    if bytes.len() == 0 {
        0
    } else {
        bytes[0] + 256 * le_value(bytes.drop_first())
    }
}

/// The header of a data file with the given prefix length.
pub open spec fn header_bytes(prefix_len: int) -> Seq<u8> {
    MAGIC@ + seq![FORMAT_VERSION, 0u8, 0u8, 0u8] + le_bytes(prefix_len, 8)
}

/// The data file of a set: the header, then the members in ascending order, back to back.
pub open spec fn file_image(prefix_len: int, members: Set<Seq<u8>>) -> Seq<u8> {
    header_bytes(prefix_len) + sorted_entries(members).flatten()
}

/// What a data file's header says: the prefix length, or what is wrong with it.
pub open spec fn parsed_header(file: Seq<u8>) -> Result<usize, Error> {
    if file.len() < HEADER_LEN || file.take(4) != MAGIC@ {
        Err(Error::BadHeader)
    } else if file[4] != FORMAT_VERSION {
        Err(Error::UnsupportedVersion { version: file[4] })
    } else if le_value(file.subrange(8, 16)) > usize::MAX {
        Err(Error::BadHeader)
    } else {
        Ok(le_value(file.subrange(8, 16)) as usize)
    }
}

/// The entries that follow a data file's header.
pub open spec fn file_entries(file: Seq<u8>, prefix_len: int) -> Seq<Seq<u8>> {
    strides(file.skip(HEADER_LEN as int), prefix_len)
}

/// The part of a file after the header is a whole number of strides, not too many of them, in
/// strictly ascending order.
pub open spec fn has_valid_entries(file: Seq<u8>, prefix_len: int) -> bool {
    &&& file.len() >= HEADER_LEN
    &&& (file.len() - HEADER_LEN) % prefix_len == 0
    &&& file_entries(file, prefix_len).len() <= u32::MAX
    &&& strictly_ascending(file_entries(file, prefix_len))
}

/// The prefix length that a valid header records.
pub open spec fn recorded_prefix_len(file: Seq<u8>) -> int {
    parsed_header(file)->Ok_0 as int
}

/// The file is a valid data file for keys of length `key_len`.
pub open spec fn is_data_file(file: Seq<u8>, key_len: int) -> bool {
    &&& parsed_header(file) is Ok
    &&& 3 <= recorded_prefix_len(file) <= key_len
    &&& has_valid_entries(file, recorded_prefix_len(file))
}

/// What is reported of a file whose part after the header is not valid.
pub open spec fn is_entries_error(file: Seq<u8>, prefix_len: usize, error: Error) -> bool {
    let entries = file_entries(file, prefix_len as int);
    if file.len() < HEADER_LEN {
        error == Error::BadHeader
    } else if (file.len() - HEADER_LEN) % prefix_len as int != 0 {
        &&& error matches Error::Misaligned { data_len, prefix_len: stride }
        &&& data_len == file.len() - HEADER_LEN
        &&& stride == prefix_len
    } else if entries.len() > u32::MAX {
        error matches Error::TooManyEntries { count } && count == entries.len()
    } else {
        error matches Error::Unsorted { index } && first_unsorted(entries, index as int)
    }
}

/// What is reported of a file that is not a valid data file: the first thing wrong with it, in
/// the order header, prefix length, size, entry count, entry order.
pub open spec fn is_load_error(file: Seq<u8>, key_len: usize, error: Error) -> bool {
    match parsed_header(file) {
        Err(reason) => error == reason,
        Ok(prefix_len) => if 3 <= prefix_len <= key_len {
            is_entries_error(file, prefix_len, error)
        } else {
            error == (Error::InvalidPrefixLen { prefix_len, key_len })
        },
    }
}

/// Append the data file header (magic, format version, and prefix length) to `out`.
pub fn write_header(out: &mut Vec<u8>, prefix_len: usize)
    ensures
        final(out)@ == old(out)@ + header_bytes(prefix_len as int),
{
    let ghost before = out@;
    out.extend_from_slice(&MAGIC);
    out.push(FORMAT_VERSION);
    out.push(0);
    out.push(0);
    out.push(0);
    let ghost fixed = before + MAGIC@ + seq![FORMAT_VERSION, 0u8, 0u8, 0u8];
    assert(out@ =~= fixed);
    let mut rest: u64 = prefix_len as u64;
    let mut written: usize = 0;
    assert(out@ + le_bytes(rest as int, 8) =~= fixed + le_bytes(prefix_len as int, 8));
    while written < 8
        invariant
            written <= 8,
            out@ + le_bytes(rest as int, (8 - written) as nat) == fixed + le_bytes(
                prefix_len as int,
                8,
            ),
        decreases 8 - written,
    {
        let ghost held = out@;
        let ghost tail = le_bytes(rest as int / 256, (8 - written - 1) as nat);
        out.push((rest % 256) as u8);
        assert(out@ + tail =~= held + (seq![(rest as int % 256) as u8] + tail));
        rest = rest / 256;
        written += 1;
    }
    assert(out@ =~= fixed + le_bytes(prefix_len as int, 8));
    assert(out@ =~= before + header_bytes(prefix_len as int));
}

/// Read the prefix length out of a data file's header.
///
/// # Errors
///
/// Returns [`Error::BadHeader`] if the header is truncated, lacks the magic or records a prefix
/// length that no `usize` holds, and [`Error::UnsupportedVersion`] for an unknown format version.
pub fn parse_header(file: &[u8]) -> (result: Result<usize, Error>)
    ensures
        result == parsed_header(file@),
{
    if file.len() < HEADER_LEN {
        return Err(Error::BadHeader);
    }
    if file[0] != MAGIC[0] || file[1] != MAGIC[1] || file[2] != MAGIC[2] || file[3] != MAGIC[3] {
        proof {
            assert(file@.take(4)[0] == file@[0]);
            assert(file@.take(4)[1] == file@[1]);
            assert(file@.take(4)[2] == file@[2]);
            assert(file@.take(4)[3] == file@[3]);
        }
        return Err(Error::BadHeader);
    }
    assert(file@.take(4) =~= MAGIC@);
    let version: u8 = file[4];
    if version != FORMAT_VERSION {
        return Err(Error::UnsupportedVersion { version });
    }
    let raw_prefix_len: u64 = file[8] as u64 + 0x100 * file[9] as u64 + 0x1_0000 * file[10] as u64
        + 0x100_0000 * file[11] as u64 + 0x1_0000_0000 * file[12] as u64 + 0x100_0000_0000
        * file[13] as u64 + 0x1_0000_0000_0000 * file[14] as u64 + 0x100_0000_0000_0000
        * file[15] as u64;
    proof {
        lemma_le_value_of_eight(file@.subrange(8, 16));
    }
    if raw_prefix_len > usize::MAX as u64 {
        return Err(Error::BadHeader);
    }
    Ok(raw_prefix_len as usize)
}

/// The number that eight bytes spell.
pub proof fn lemma_le_value_of_eight(b: Seq<u8>)
    requires
        b.len() == 8,
    ensures
        le_value(b) == b[0] + 0x100 * b[1] + 0x1_0000 * b[2] + 0x100_0000 * b[3] + 0x1_0000_0000
            * b[4] + 0x100_0000_0000 * b[5] + 0x1_0000_0000_0000 * b[6] + 0x100_0000_0000_0000
            * b[7],
{
    reveal_with_fuel(le_value, 9);
}

/// Bytes written for a number spell that number.
pub proof fn lemma_le_roundtrip(value: int, len: nat)
    requires
        0 <= value < vstd::arithmetic::power::pow(256, len),
    ensures
        le_bytes(value, len).len() == len,
        le_value(le_bytes(value, len)) == value,
    decreases len,
{
    vstd::arithmetic::power::lemma_pow0(256);
    if len > 0 {
        reveal(vstd::arithmetic::power::pow);
        lemma_le_roundtrip(value / 256, (len - 1) as nat);
        let bytes = le_bytes(value, len);
        assert(bytes.drop_first() =~= le_bytes(value / 256, (len - 1) as nat));
    }
}

} // verus!
