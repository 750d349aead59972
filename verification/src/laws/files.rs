//! What data files look like byte by byte, which are accepted and why others are refused.

use vstd::prelude::*;

use crate::error::Error;
use crate::format::{
    file_entries, file_image, has_valid_entries, header_bytes, is_data_file, is_entries_error,
    is_load_error, le_bytes, lemma_le_roundtrip, lemma_le_value_of_eight, parsed_header,
    recorded_prefix_len,
};
use crate::laws::basics::{law_first_unsorted_is_first, law_strides_are_consecutive};
use crate::laws::lemma_image_entries;
use crate::layout::lemma_no_remainder;
use crate::order::{precedes, sorted_entries};

verus! {

/// A written header is 16 bytes: the letters `BSST`, the version 1, three zero bytes, and the
/// prefix length itself as eight bytes, lowest first.
pub proof fn law_header_holds_the_prefix_len(prefix_len: usize)
    ensures
        ({
            let header = header_bytes(prefix_len as int);
            &&& header.len() == 16
            &&& header[0] == 0x42 && header[1] == 0x53 && header[2] == 0x53 && header[3] == 0x54
            &&& header[4] == 1
            &&& header[5] == 0 && header[6] == 0 && header[7] == 0
            &&& prefix_len == header[8] + 0x100 * header[9] + 0x1_0000 * header[10]
                + 0x100_0000 * header[11]
                + 0x1_0000_0000 * header[12] + 0x100_0000_0000 * header[13] + 0x1_0000_0000_0000
                * header[14] + 0x100_0000_0000_0000 * header[15]
        }),
{
    let header = header_bytes(prefix_len as int);
    assert(vstd::arithmetic::power::pow(256, 8) == 0x1_0000_0000_0000_0000) by {
        reveal_with_fuel(vstd::arithmetic::power::pow, 9);
    }
    lemma_le_roundtrip(prefix_len as int, 8);
    let number = header.subrange(8, 16);
    assert(number =~= le_bytes(prefix_len as int, 8));
    lemma_le_value_of_eight(number);
}

/// A header is accepted just if all 16 bytes are there, the letters and the version are right,
/// and the number fits a `usize`. What it says is the number that its last eight bytes spell,
/// lowest first. A wrong version is reported as such, with the version found, if the letters are
/// right; every other header is bad.
pub proof fn law_header_is_read(file: Seq<u8>)
    ensures
        ({
            let marked = file.len() >= 16 && file[0] == 0x42 && file[1] == 0x53 && file[2] == 0x53
                && file[3] == 0x54;
            let number = file[8] + 0x100 * file[9] + 0x1_0000 * file[10] + 0x100_0000 * file[11]
                + 0x1_0000_0000 * file[12] + 0x100_0000_0000 * file[13] + 0x1_0000_0000_0000
                * file[14] + 0x100_0000_0000_0000 * file[15];
            &&& parsed_header(file) is Ok <==> marked && file[4] == 1 && number <= usize::MAX
            &&& parsed_header(file) matches Ok(prefix_len) ==> prefix_len == number
                && recorded_prefix_len(file) == number
            &&& parsed_header(file) matches Err(error) ==> if marked && file[4] != 1 {
                error == (Error::UnsupportedVersion { version: file[4] })
            } else {
                error == Error::BadHeader
            }
        }),
{
    if file.len() >= 16 {
        let number = file.subrange(8, 16);
        lemma_le_value_of_eight(number);
        let magic = file.take(4);
        assert(magic == crate::format::MAGIC@ <==> file[0] == 0x42 && file[1] == 0x53 && file[2]
            == 0x53 && file[3] == 0x54) by {
            if magic == crate::format::MAGIC@ {
                assert(magic[0] == 0x42 && magic[1] == 0x53 && magic[2] == 0x53 && magic[3]
                    == 0x54);
            } else if file[0] == 0x42 && file[1] == 0x53 && file[2] == 0x53 && file[3] == 0x54 {
                assert(magic =~= crate::format::MAGIC@);
            }
        }
    }
}

/// The entries of a file follow its 16-byte header back to back, as many as fit whole.
pub proof fn law_entries_follow_the_header(file: Seq<u8>, prefix_len: int, i: int)
    requires
        file.len() >= 16,
        0 < prefix_len,
    ensures
        file_entries(file, prefix_len).len() * prefix_len <= file.len() - 16 < file_entries(
            file,
            prefix_len,
        ).len() * prefix_len + prefix_len,
        0 <= i < file_entries(file, prefix_len).len() ==> {
            &&& 16 + i * prefix_len + prefix_len <= file.len()
            &&& file_entries(file, prefix_len)[i] == file.subrange(
                16 + i * prefix_len,
                16 + i * prefix_len + prefix_len,
            )
        },
{
    let data = file.skip(16);
    law_strides_are_consecutive(data, prefix_len, i);
    if 0 <= i < file_entries(file, prefix_len).len() {
        assert(data.subrange(i * prefix_len, i * prefix_len + prefix_len) =~= file.subrange(
            16 + i * prefix_len,
            16 + i * prefix_len + prefix_len,
        ));
    }
}

/// What follows a header is valid just if it is whole entries, no more than a `u32` counts, each
/// before all later ones.
pub proof fn law_valid_entries(file: Seq<u8>, prefix_len: int)
    requires
        0 < prefix_len,
    ensures
        has_valid_entries(file, prefix_len) <==> {
            &&& file.len() >= 16
            &&& (file.len() - 16) % prefix_len == 0
            &&& file_entries(file, prefix_len).len() <= 0xffff_ffff
            &&& forall|i: int, j: int|
                0 <= i < j < file_entries(file, prefix_len).len() ==> #[trigger] precedes(
                    file_entries(file, prefix_len)[i],
                    file_entries(file, prefix_len)[j],
                )
        },
{
}

/// A file is a data file just if its header is accepted, the prefix length that it spells is
/// within `3..=key_len`, and valid entries of that length follow.
pub proof fn law_data_file(file: Seq<u8>, key_len: int)
    ensures
        ({
            let number = file[8] + 0x100 * file[9] + 0x1_0000 * file[10] + 0x100_0000 * file[11]
                + 0x1_0000_0000 * file[12] + 0x100_0000_0000 * file[13] + 0x1_0000_0000_0000
                * file[14] + 0x100_0000_0000_0000 * file[15];
            is_data_file(file, key_len) <==> {
                &&& file.len() >= 16
                &&& file[0] == 0x42 && file[1] == 0x53 && file[2] == 0x53 && file[3] == 0x54
                &&& file[4] == 1
                &&& number <= usize::MAX
                &&& 3 <= number <= key_len
                &&& has_valid_entries(file, number)
            }
        }),
{
    law_header_is_read(file);
}

/// What is reported of invalid entries is what is wrong with them: a file too short for a header,
/// the size that is not whole entries, how many entries there are, or the first that is not after
/// its predecessor. What is reported first is wrong first, in this order.
pub proof fn law_entries_are_refused(file: Seq<u8>, prefix_len: usize, error: Error)
    requires
        0 < prefix_len,
        is_entries_error(file, prefix_len, error),
    ensures
        ({
            let entries = file_entries(file, prefix_len as int);
            match error {
                Error::BadHeader => file.len() < 16,
                Error::Misaligned { data_len, prefix_len: stride } => {
                    &&& data_len == file.len() - 16
                    &&& stride == prefix_len
                    &&& data_len % stride != 0
                },
                Error::TooManyEntries { count } => {
                    &&& count * prefix_len == file.len() - 16
                    &&& count > 0xffff_ffff
                },
                Error::Unsorted { index } => {
                    &&& file.len() >= 16
                    &&& entries.len() * prefix_len == file.len() - 16
                    &&& entries.len() <= 0xffff_ffff
                    &&& 0 < index < entries.len()
                    &&& !precedes(entries[index - 1], entries[index as int])
                    &&& forall|i: int, j: int|
                        0 <= i < j < index ==> #[trigger] precedes(entries[i], entries[j])
                },
                _ => false,
            }
        }),
{
    let p = prefix_len as int;
    let entries = file_entries(file, p);
    if file.len() >= 16 {
        if (file.len() - 16) % p == 0 {
            lemma_no_remainder(file.len() - 16, p);
        }
        if let Error::Unsorted { index } = error {
            law_first_unsorted_is_first(entries, index as int);
        }
    }
}

/// What is reported of a file that is no data file: what is wrong with its header, else the prefix
/// length that it spells if that is outside `3..=key_len`, else what is wrong with the entries.
pub proof fn law_file_is_refused(file: Seq<u8>, key_len: usize, error: Error)
    requires
        is_load_error(file, key_len, error),
    ensures
        ({
            let marked = file.len() >= 16 && file[0] == 0x42 && file[1] == 0x53 && file[2] == 0x53
                && file[3] == 0x54;
            let number = file[8] + 0x100 * file[9] + 0x1_0000 * file[10] + 0x100_0000 * file[11]
                + 0x1_0000_0000 * file[12] + 0x100_0000_0000 * file[13] + 0x1_0000_0000_0000
                * file[14] + 0x100_0000_0000_0000 * file[15];
            if !marked {
                error == Error::BadHeader
            } else if file[4] != 1 {
                error == (Error::UnsupportedVersion { version: file[4] })
            } else if number > usize::MAX {
                error == Error::BadHeader
            } else if 3 <= number <= key_len {
                is_entries_error(file, number as usize, error)
            } else {
                error == (Error::InvalidPrefixLen { prefix_len: number as usize, key_len })
            }
        }),
{
    law_header_is_read(file);
}

/// The data file of a set is the header for its prefix length, then each member once, back to
/// back in ascending order, and nothing else.
pub proof fn law_file_holds_the_members(
    prefix_len: usize,
    members: Set<Seq<u8>>,
    entry: Seq<u8>,
    i: int,
    j: int,
)
    requires
        3 <= prefix_len,
        members.finite(),
        forall|e: Seq<u8>| #[trigger] members.contains(e) ==> e.len() == prefix_len,
    ensures
        ({
            let file = file_image(prefix_len as int, members);
            let entries = file_entries(file, prefix_len as int);
            &&& file.len() == 16 + members.len() * prefix_len
            &&& file.take(16) == header_bytes(prefix_len as int)
            &&& entries.len() == members.len()
            &&& entries.contains(entry) <==> members.contains(entry)
            &&& 0 <= i < j < entries.len() ==> precedes(entries[i], entries[j])
        }),
{
    let p = prefix_len as int;
    let file = file_image(p, members);
    let entries = file_entries(file, p);
    lemma_image_entries(prefix_len, members);
    law_header_holds_the_prefix_len(prefix_len);
    lemma_no_remainder(file.len() - 16, p);
    assert(file.take(16) =~= header_bytes(p));
    assert(entries == sorted_entries(members));
    assert(entries.to_set().contains(entry) <==> members.contains(entry));
}

} // verus!
