//! What builders come to hold, whatever they held before, and which files they take in.

use vstd::prelude::*;

use crate::builder::planned_import;
use crate::error::Error;
use crate::format::{file_entries, file_image, is_data_file, recorded_prefix_len};
use crate::laws::basics::law_prefixes_of_keys;
use crate::laws::files::{law_entries_follow_the_header, law_header_is_read};
use crate::laws::{law_import_adds_prefixes, law_write_then_read, lemma_image_entries};
use crate::layout::{all_zero_padded, lemma_no_remainder, prefix_set};
use crate::set_builder::Collected;

verus! {

/// Keys that are inserted come after all that a builder holds, in their order, and nothing that
/// it holds changes: a buffering builder has them behind its keys, a spilling one has their bytes
/// behind those not yet written, and its bucket limit stays.
pub proof fn law_inserts_append(held: Collected, more: Seq<Seq<u8>>)
    ensures
        match held {
            Collected::Buffered(keys) => held.with_keys(more) matches Collected::Buffered(now) && {
                &&& now.len() == keys.len() + more.len()
                &&& forall|i: int| 0 <= i < keys.len() ==> now[i] == #[trigger] keys[i]
                &&& forall|i: int| 0 <= i < more.len() ==> now[keys.len() + i] == #[trigger] more[i]
            },
            Collected::Spilled { max_bucket_bytes, pending } => held.with_keys(
                more,
            ) matches Collected::Spilled { max_bucket_bytes: limit, pending: now } && {
                &&& limit == max_bucket_bytes
                &&& now.len() == pending.len() + more.flatten().len()
                &&& now.take(pending.len() as int) == pending
                &&& now.skip(pending.len() as int) == more.flatten()
            },
        },
{
    if let Collected::Spilled { max_bucket_bytes, pending } = held {
        let now = pending + more.flatten();
        assert(now.take(pending.len() as int) =~= pending);
        assert(now.skip(pending.len() as int) =~= more.flatten());
    }
}

/// What is built of a buffering builder has the prefixes of all keys ever inserted: those that it
/// would have had without the last insertions, and those of the last insertions.
pub proof fn law_inserts_add_members(
    keys: Seq<Seq<u8>>,
    more: Seq<Seq<u8>>,
    prefix_len: int,
    entry: Seq<u8>,
)
    ensures
        Collected::Buffered(keys).with_keys(more) matches Collected::Buffered(now) && (prefix_set(
            now,
            prefix_len,
        ).contains(entry) <==> {
            ||| exists|i: int| 0 <= i < keys.len() && (#[trigger] keys[i]).take(prefix_len) == entry
            ||| exists|i: int| 0 <= i < more.len() && (#[trigger] more[i]).take(prefix_len) == entry
        }),
{
    let now = keys + more;
    law_prefixes_of_keys(now, prefix_len, entry);
    if exists|i: int| 0 <= i < now.len() && (#[trigger] now[i]).take(prefix_len) == entry {
        let i = choose|i: int| 0 <= i < now.len() && (#[trigger] now[i]).take(prefix_len) == entry;
        if i < keys.len() {
            assert(keys[i].take(prefix_len) == entry);
        } else {
            assert(more[i - keys.len()].take(prefix_len) == entry);
        }
    }
    if exists|i: int| 0 <= i < keys.len() && (#[trigger] keys[i]).take(prefix_len) == entry {
        let i = choose|i: int|
            0 <= i < keys.len() && (#[trigger] keys[i]).take(prefix_len) == entry;
        assert(now[i].take(prefix_len) == entry);
    }
    if exists|i: int| 0 <= i < more.len() && (#[trigger] more[i]).take(prefix_len) == entry {
        let i = choose|i: int|
            0 <= i < more.len() && (#[trigger] more[i]).take(prefix_len) == entry;
        assert(now[keys.len() + i].take(prefix_len) == entry);
    }
}

/// An import is accepted just if the builder's prefix length is within `3..=key_len`, the file's
/// header is right, the prefix length that it spells lies between the builder's and the key length,
/// and whole entries of that length follow. It is then cut by the length that the header spells,
/// into as many entries as make up the file.
pub proof fn law_import_is_accepted(
    prefix_len: usize,
    key_len: usize,
    file_len: int,
    header: Seq<u8>,
)
    requires
        0 <= file_len <= u64::MAX,
    ensures
        ({
            let number = header[8] + 0x100 * header[9] + 0x1_0000 * header[10]
                + 0x100_0000 * header[11]
                + 0x1_0000_0000 * header[12] + 0x100_0000_0000 * header[13] + 0x1_0000_0000_0000
                * header[14] + 0x100_0000_0000_0000 * header[15];
            let plan = planned_import(prefix_len, key_len, file_len, header);
            &&& plan is Ok <==> {
                &&& 3 <= prefix_len <= key_len
                &&& 16 <= file_len
                &&& header.len() >= 16
                &&& header[0] == 0x42 && header[1] == 0x53 && header[2] == 0x53 && header[3]
                    == 0x54
                &&& header[4] == 1
                &&& prefix_len <= number <= key_len
                &&& (file_len - 16) % number == 0
            }
            &&& plan matches Ok((stride, count)) ==> {
                &&& stride == number
                &&& count * stride == file_len - 16
            }
        }),
{
    law_header_is_read(header);
    let number = header[8] + 0x100 * header[9] + 0x1_0000 * header[10] + 0x100_0000 * header[11]
                + 0x1_0000_0000 * header[12] + 0x100_0000_0000 * header[13] + 0x1_0000_0000_0000
                * header[14] + 0x100_0000_0000_0000 * header[15];
    if planned_import(prefix_len, key_len, file_len, header) is Ok {
        lemma_no_remainder(file_len - 16, number);
        let count = (file_len - 16) / number;
        assert(count <= file_len - 16) by (nonlinear_arith)
            requires
                count * number == file_len - 16,
                number >= 1,
                0 <= count,
        ;
    }
}

/// What is reported of an import that is not accepted is the first thing wrong: the builder's
/// prefix length, then the header, then the file's prefix length, first by itself and then against
/// the builder's, then the size.
pub proof fn law_import_is_refused(
    prefix_len: usize,
    key_len: usize,
    file_len: int,
    header: Seq<u8>,
)
    requires
        0 <= file_len <= u64::MAX,
    ensures
        ({
            let marked = header.len() >= 16 && header[0] == 0x42 && header[1] == 0x53 && header[2]
                == 0x53 && header[3] == 0x54;
            let number = header[8] + 0x100 * header[9] + 0x1_0000 * header[10]
                + 0x100_0000 * header[11]
                + 0x1_0000_0000 * header[12] + 0x100_0000_0000 * header[13] + 0x1_0000_0000_0000
                * header[14] + 0x100_0000_0000_0000 * header[15];
            planned_import(prefix_len, key_len, file_len, header) matches Err(error) ==> if !(3
                <= prefix_len <= key_len) {
                error == (Error::InvalidPrefixLen { prefix_len, key_len })
            } else if file_len < 16 || !marked {
                error == Error::BadHeader
            } else if header[4] != 1 {
                error == (Error::UnsupportedVersion { version: header[4] })
            } else if number > usize::MAX {
                error == Error::BadHeader
            } else if !(3 <= number <= key_len) {
                error == (Error::InvalidPrefixLen { prefix_len: number as usize, key_len })
            } else if number < prefix_len {
                error == (Error::PrefixLenExceedsImport {
                    prefix_len,
                    imported_prefix_len: number as usize,
                })
            } else {
                &&& (file_len - 16) % number != 0
                &&& error matches Error::Misaligned { data_len, prefix_len: stride }
                &&& stride == number
                &&& data_len == file_len - 16 || data_len == usize::MAX < file_len - 16
            }
        }),
{
    law_header_is_read(header);
}

/// Every data file whose prefix length is at least the builder's can be imported, all of it.
pub proof fn law_data_files_can_be_imported(prefix_len: usize, key_len: usize, file: Seq<u8>)
    requires
        3 <= prefix_len <= key_len,
        is_data_file(file, key_len as int),
        prefix_len <= recorded_prefix_len(file),
    ensures
        planned_import(prefix_len, key_len, file.len() as int, file)
            matches Ok((stride, count)) && {
            &&& stride == recorded_prefix_len(file)
            &&& count == file_entries(file, recorded_prefix_len(file)).len()
        },
{
    law_header_is_read(file);
    let q = recorded_prefix_len(file);
    law_entries_follow_the_header(file, q, 0);
}

/// After an import that was accepted, a buffering builder makes a set of the prefixes it had and
/// of the first bytes of each entry that the file holds, cut as its header says; nothing else.
pub proof fn law_import_adds_the_files_entries(
    keys: Seq<Seq<u8>>,
    prefix_len: usize,
    key_len: usize,
    file: Seq<u8>,
    entry: Seq<u8>,
)
    requires
        planned_import(prefix_len, key_len, file.len() as int, file) is Ok,
        file.len() <= u64::MAX,
    ensures
        ({
            let number = file[8] + 0x100 * file[9] + 0x1_0000 * file[10] + 0x100_0000 * file[11]
                + 0x1_0000_0000 * file[12] + 0x100_0000_0000 * file[13] + 0x1_0000_0000_0000
                * file[14] + 0x100_0000_0000_0000 * file[15];
            let stride = planned_import(prefix_len, key_len, file.len() as int, file)->Ok_0.0;
            let imported = all_zero_padded(file_entries(file, stride as int), key_len as int);
            Collected::Buffered(keys).with_keys(imported) matches Collected::Buffered(now) && (
            prefix_set(now, prefix_len as int).contains(entry) <==> {
                ||| exists|i: int|
                    0 <= i < keys.len() && (#[trigger] keys[i]).take(prefix_len as int) == entry
                ||| exists|i: int|
                    0 <= i < file_entries(file, number).len() && (#[trigger] file_entries(
                        file,
                        number,
                    )[i]).take(prefix_len as int) == entry
            })
        }),
{
    let number = file[8] + 0x100 * file[9] + 0x1_0000 * file[10] + 0x100_0000 * file[11]
                + 0x1_0000_0000 * file[12] + 0x100_0000_0000 * file[13] + 0x1_0000_0000_0000
                * file[14] + 0x100_0000_0000_0000 * file[15];
    let p = prefix_len as int;
    law_import_is_accepted(prefix_len, key_len, file.len() as int, file);
    let entries = file_entries(file, number);
    assert forall|i: int| 0 <= i < entries.len() implies (#[trigger] entries[i]).len()
        == number by {
        law_entries_follow_the_header(file, number, i);
    }
    law_import_adds_prefixes(keys, entries, number, p, key_len as int);
    law_prefixes_of_keys(keys, p, entry);
    law_prefixes_of_keys(entries, p, entry);
}

/// Importing the data file of a set is accepted by every builder with no longer a prefix, and adds
/// to its members just the first bytes of each member of that set.
pub proof fn law_import_of_a_written_set(
    keys: Seq<Seq<u8>>,
    prefix_len: usize,
    key_len: usize,
    file_prefix_len: usize,
    members: Set<Seq<u8>>,
    entry: Seq<u8>,
)
    requires
        3 <= prefix_len <= file_prefix_len <= key_len,
        members.finite(),
        members.len() <= u32::MAX,
        forall|e: Seq<u8>| #[trigger] members.contains(e) ==> e.len() == file_prefix_len,
    ensures
        ({
            let file = file_image(file_prefix_len as int, members);
            &&& planned_import(prefix_len, key_len, file.len() as int, file) matches Ok(
                (stride, count),
            ) && {
                let imported = all_zero_padded(file_entries(file, stride as int), key_len as int);
                &&& stride == file_prefix_len
                &&& count == members.len()
                &&& Collected::Buffered(keys).with_keys(imported) matches Collected::Buffered(now)
                    && (prefix_set(now, prefix_len as int).contains(entry) <==> {
                    ||| prefix_set(keys, prefix_len as int).contains(entry)
                    ||| exists|member: Seq<u8>| #[trigger]
                        members.contains(member) && member.take(prefix_len as int) == entry
                })
            }
        }),
{
    let q = file_prefix_len as int;
    let p = prefix_len as int;
    let file = file_image(q, members);
    law_write_then_read(file_prefix_len, members, key_len);
    law_data_files_can_be_imported(prefix_len, key_len, file);
    lemma_image_entries(file_prefix_len, members);
    let entries = file_entries(file, q);
    assert forall|i: int| 0 <= i < entries.len() implies (#[trigger] entries[i]).len() == q by {
        assert(entries.to_set().contains(entries[i]));
    }
    law_import_adds_prefixes(keys, entries, q, p, key_len as int);
    law_prefixes_of_keys(entries, p, entry);
    if exists|i: int| 0 <= i < entries.len() && (#[trigger] entries[i]).take(p) == entry {
        let i = choose|i: int| 0 <= i < entries.len() && (#[trigger] entries[i]).take(p) == entry;
        assert(entries.to_set().contains(entries[i]));
        assert(members.contains(entries[i]));
    }
    if exists|member: Seq<u8>| #[trigger] members.contains(member) && member.take(p) == entry {
        let member = choose|member: Seq<u8>| #[trigger]
            members.contains(member) && member.take(p) == entry;
        assert(entries.to_set().contains(member));
        let i = choose|i: int| 0 <= i < entries.len() && entries[i] == member;
        assert(entries[i].take(p) == entry);
    }
}

} // verus!
