//! What holds of the library as a whole.

use vstd::prelude::*;

use crate::error::Error;
use crate::external::PassState;
use crate::format::{
    file_entries, file_image, has_valid_entries, header_bytes, is_data_file, is_entries_error,
    le_bytes, le_value, lemma_le_roundtrip, parsed_header, recorded_prefix_len, FORMAT_VERSION,
    HEADER_LEN, MAGIC,
};
use crate::layout::{
    all_have_len, all_zero_padded, lemma_flatten_of_strides, lemma_strides_concat,
    lemma_strides_of_flatten, prefix_set, prefixes, strides,
};
use crate::offsets::{is_offset_table, slot, OFFSET_TABLE_LEN};
use crate::order::{
    lemma_sorted_entries, lemma_sorted_entries_of_ascending, sorted_entries, strictly_ascending,
};
use crate::runs::{is_run, law_run_emits_sorted_prefixes, Disk};
use crate::set_builder::Collected;

pub mod basics;
pub mod builders;
pub mod files;
pub mod passes;

verus! {

/// A set built from `keys` finds a probe just if some key shares the probe's prefix.
pub proof fn law_found_if_prefix_is_shared(keys: Seq<Seq<u8>>, probe: Seq<u8>, prefix_len: int)
    ensures
        prefix_set(keys, prefix_len).contains(probe.take(prefix_len)) <==> exists|i: int|
            0 <= i < keys.len() && (#[trigger] keys[i]).take(prefix_len) == probe.take(prefix_len),
{
    let all = prefixes(keys, prefix_len);
    if prefix_set(keys, prefix_len).contains(probe.take(prefix_len)) {
        let i = choose|i: int| 0 <= i < all.len() && all[i] == probe.take(prefix_len);
        assert(keys[i].take(prefix_len) == probe.take(prefix_len));
    }
    if exists|i: int|
        0 <= i < keys.len() && (#[trigger] keys[i]).take(prefix_len) == probe.take(prefix_len) {
        let i = choose|i: int|
            0 <= i < keys.len() && (#[trigger] keys[i]).take(prefix_len) == probe.take(prefix_len);
        assert(all[i] == probe.take(prefix_len));
    }
}

/// When the prefix length is the key length, membership is exact: a set built from `keys` finds
/// just those keys.
pub proof fn law_full_prefix_is_exact(keys: Seq<Seq<u8>>, probe: Seq<u8>, key_len: int)
    requires
        all_have_len(keys, key_len),
        probe.len() == key_len,
    ensures
        prefix_set(keys, key_len).contains(probe.take(key_len)) <==> keys.contains(probe),
{
    law_found_if_prefix_is_shared(keys, probe, key_len);
    assert forall|i: int| 0 <= i < keys.len() implies (#[trigger] keys[i]).take(key_len)
        == keys[i] by {
        assert(keys[i].take(key_len) =~= keys[i]);
    }
    assert(probe.take(key_len) =~= probe);
}

/// Every key that went into a set is found in it.
pub proof fn law_inserted_keys_are_found(keys: Seq<Seq<u8>>, i: int, prefix_len: int)
    requires
        0 <= i < keys.len(),
    ensures
        prefix_set(keys, prefix_len).contains(keys[i].take(prefix_len)),
{
    law_found_if_prefix_is_shared(keys, keys[i], prefix_len);
}

/// Nothing inserted, nothing found.
pub proof fn law_no_keys_no_members(prefix_len: int)
    ensures
        prefix_set(Seq::empty(), prefix_len) == Set::<Seq<u8>>::empty(),
{
    assert(prefix_set(Seq::empty(), prefix_len) =~= Set::<Seq<u8>>::empty());
}

/// The order of insertions and repeated insertions make no difference: what counts is which keys
/// were inserted.
pub proof fn law_order_and_repeats_do_not_matter(
    keys: Seq<Seq<u8>>,
    others: Seq<Seq<u8>>,
    prefix_len: int,
)
    requires
        keys.to_set() == others.to_set(),
    ensures
        prefix_set(keys, prefix_len) == prefix_set(others, prefix_len),
{
    let a = prefixes(keys, prefix_len);
    let b = prefixes(others, prefix_len);
    assert forall|entry: Seq<u8>| a.contains(entry) <==> b.contains(entry) by {
        if a.contains(entry) {
            let i = choose|i: int| 0 <= i < a.len() && a[i] == entry;
            assert(keys.to_set().contains(keys[i]));
            let j = choose|j: int| 0 <= j < others.len() && others[j] == keys[i];
            assert(b[j] == entry);
        }
        if b.contains(entry) {
            let i = choose|i: int| 0 <= i < b.len() && b[i] == entry;
            assert(others.to_set().contains(others[i]));
            let j = choose|j: int| 0 <= j < keys.len() && keys[j] == others[i];
            assert(a[j] == entry);
        }
    }
    assert(a.to_set() =~= b.to_set());
}

/// Bucket `b` of the offset table is delimited by `offsets[b]..offsets[b + 1]`: those are just
/// the entries whose first 3 bytes spell `b`. The buckets together are all entries.
pub proof fn law_offsets_delimit_buckets(offsets: Seq<u32>, entries: Seq<Seq<u8>>, b: int, i: int)
    requires
        is_offset_table(offsets, entries),
        0 <= b < OFFSET_TABLE_LEN - 1,
        0 <= i < entries.len(),
    ensures
        offsets[b] <= i < offsets[b + 1] <==> slot(entries[i]) == b,
        offsets[0] <= i < offsets[OFFSET_TABLE_LEN - 1],
{
    assert(i < offsets[b] <==> slot(entries[i]) < b);
    assert(i < offsets[b + 1] <==> slot(entries[i]) < b + 1);
    assert(i < offsets[0] <==> slot(entries[i]) < 0);
    assert(i < offsets[OFFSET_TABLE_LEN - 1] <==> slot(entries[i]) < OFFSET_TABLE_LEN - 1);
}

/// The bytes of a number, read and written again, are the same.
proof fn lemma_le_reverse(bytes: Seq<u8>)
    ensures
        le_bytes(le_value(bytes), bytes.len()) == bytes,
        0 <= le_value(bytes),
    decreases bytes.len(),
{
    if bytes.len() > 0 {
        let rest = bytes.drop_first();
        lemma_le_reverse(rest);
        let value = le_value(bytes);
        assert(value % 256 == bytes[0]);
        assert(value / 256 == le_value(rest));
        assert(le_bytes(value, bytes.len()) =~= seq![bytes[0]] + rest);
        assert(seq![bytes[0]] + rest =~= bytes);
    } else {
        assert(le_bytes(le_value(bytes), 0) =~= bytes);
    }
}

/// A header written for a prefix length says that prefix length.
pub proof fn law_header_roundtrip(prefix_len: usize, rest: Seq<u8>)
    ensures
        header_bytes(prefix_len as int).len() == HEADER_LEN,
        parsed_header(header_bytes(prefix_len as int) + rest) == Ok::<usize, Error>(prefix_len),
{
    let p = prefix_len as int;
    assert(vstd::arithmetic::power::pow(256, 8) == 0x1_0000_0000_0000_0000) by {
        reveal_with_fuel(vstd::arithmetic::power::pow, 9);
    }
    lemma_le_roundtrip(p, 8);
    let file = header_bytes(p) + rest;
    assert(file.take(4) =~= MAGIC@);
    assert(file[4] == FORMAT_VERSION);
    assert(file.subrange(8, 16) =~= le_bytes(p, 8));
}

/// Writing a set and reading the data file gives back the prefix length and the members.
pub proof fn law_write_then_read(prefix_len: usize, members: Set<Seq<u8>>, key_len: usize)
    requires
        3 <= prefix_len <= key_len,
        members.finite(),
        members.len() <= u32::MAX,
        forall|entry: Seq<u8>| #[trigger] members.contains(entry) ==> entry.len() == prefix_len,
    ensures
        is_data_file(file_image(prefix_len as int, members), key_len as int),
        recorded_prefix_len(file_image(prefix_len as int, members)) == prefix_len,
        file_entries(file_image(prefix_len as int, members), prefix_len as int).to_set() == members,
{
    let p = prefix_len as int;
    let file = file_image(p, members);
    lemma_image_entries(prefix_len, members);
    law_header_roundtrip(prefix_len, sorted_entries(members).flatten());
}

/// The entries of a data file image are the sorted members.
proof fn lemma_image_entries(prefix_len: usize, members: Set<Seq<u8>>)
    requires
        3 <= prefix_len,
        members.finite(),
        forall|entry: Seq<u8>| #[trigger] members.contains(entry) ==> entry.len() == prefix_len,
    ensures
        file_image(prefix_len as int, members).len() >= HEADER_LEN,
        (file_image(prefix_len as int, members).len() - HEADER_LEN) % prefix_len as int == 0,
        file_entries(file_image(prefix_len as int, members), prefix_len as int) == sorted_entries(
            members,
        ),
        strictly_ascending(sorted_entries(members)),
        sorted_entries(members).to_set() == members,
        sorted_entries(members).len() == members.len(),
{
    let p = prefix_len as int;
    let file = file_image(p, members);
    let entries = sorted_entries(members);
    lemma_sorted_entries(members);
    assert forall|i: int| 0 <= i < entries.len() implies (#[trigger] entries[i]).len() == p by {
        assert(entries.to_set().contains(entries[i]));
    }
    lemma_strides_of_flatten(entries, p);
    law_header_roundtrip(prefix_len, entries.flatten());
    assert(file.skip(HEADER_LEN as int) =~= entries.flatten());
}

/// Reading a data file whose reserved bytes are zero and writing the set gives the same file.
pub proof fn law_read_then_write(file: Seq<u8>, key_len: int)
    requires
        is_data_file(file, key_len),
        file[5] == 0,
        file[6] == 0,
        file[7] == 0,
    ensures
        file_image(
            recorded_prefix_len(file),
            file_entries(file, recorded_prefix_len(file)).to_set(),
        ) == file,
{
    let p = recorded_prefix_len(file);
    let data = file.skip(HEADER_LEN as int);
    let entries = file_entries(file, p);
    lemma_sorted_entries_of_ascending(entries);
    lemma_flatten_of_strides(data, p);
    let number = file.subrange(8, 16);
    lemma_le_reverse(number);
    let magic = file.take(4);
    assert(magic == MAGIC@);
    assert(file =~= magic + seq![FORMAT_VERSION, 0u8, 0u8, 0u8] + number + data);
    assert(header_bytes(p) + data =~= magic + seq![FORMAT_VERSION, 0u8, 0u8, 0u8] + number + data);
}

/// An external build that ran to its end over files that give back what was written to them has
/// written the data file of the set that an in-memory build makes of the same keys, whatever
/// the largest bucket size. Loading it gives that set; if there are too many entries, it is
/// refused for their number, as the in-memory build is.
pub proof fn law_external_build_matches_in_memory(
    run: Seq<(PassState, Disk)>,
    keys: Seq<Seq<u8>>,
    key_len: usize,
    prefix_len: usize,
    max_bucket_bytes: int,
)
    requires
        is_run(run, keys, key_len as int, prefix_len as int, max_bucket_bytes),
        run.last().0.action() is Finish,
        3 <= prefix_len <= key_len,
        0 <= max_bucket_bytes <= u64::MAX,
        all_have_len(keys, key_len as int),
        keys.len() * key_len <= u64::MAX,
    ensures
        ({
            let members = prefix_set(keys, prefix_len as int);
            let file = header_bytes(prefix_len as int) + run.last().1.out;
            &&& file == file_image(prefix_len as int, members)
            &&& members.len() <= u32::MAX ==> {
                &&& is_data_file(file, key_len as int)
                &&& has_valid_entries(file, prefix_len as int)
                &&& file_entries(file, prefix_len as int).to_set() == members
            }
            &&& members.len() > u32::MAX ==> {
                &&& !has_valid_entries(file, prefix_len as int)
                &&& forall|error: Error| #[trigger]
                    is_entries_error(file, prefix_len, error) ==> {
                        &&& error matches Error::TooManyEntries { count }
                        &&& count == members.len()
                    }
            }
        }),
{
    let p = prefix_len as int;
    let members = prefix_set(keys, p);
    law_run_emits_sorted_prefixes(run, keys, key_len as int, p, max_bucket_bytes);
    lemma_members(keys, key_len as int, p);
    lemma_image_entries(prefix_len, members);
    if members.len() <= u32::MAX {
        law_write_then_read(prefix_len, members, key_len);
    }
}

/// The distinct prefixes of keys are finitely many, all of the prefix length.
proof fn lemma_members(keys: Seq<Seq<u8>>, key_len: int, prefix_len: int)
    requires
        all_have_len(keys, key_len),
        0 <= prefix_len <= key_len,
    ensures
        prefix_set(keys, prefix_len).finite(),
        forall|entry: Seq<u8>| #[trigger]
            prefix_set(keys, prefix_len).contains(entry) ==> entry.len() == prefix_len,
{
    let all = prefixes(keys, prefix_len);
    vstd::seq_lib::seq_to_set_is_finite(all);
    assert forall|entry: Seq<u8>| #[trigger]
        prefix_set(keys, prefix_len).contains(entry) implies entry.len() == prefix_len by {
        let i = choose|i: int| 0 <= i < all.len() && all[i] == entry;
        assert(keys[i].len() == key_len);
    }
}

/// Importing entries that are no shorter than the builder's prefixes adds their prefixes to the
/// set and nothing else: the zero bytes that extend them to full keys never reach it.
pub proof fn law_import_adds_prefixes(
    keys: Seq<Seq<u8>>,
    entries: Seq<Seq<u8>>,
    entry_len: int,
    prefix_len: int,
    key_len: int,
)
    requires
        0 <= prefix_len <= entry_len <= key_len,
        all_have_len(entries, entry_len),
    ensures
        prefix_set(keys + all_zero_padded(entries, key_len), prefix_len) == prefix_set(
            keys,
            prefix_len,
        ).union(prefix_set(entries, prefix_len)),
{
    let padded = all_zero_padded(entries, key_len);
    let joined = prefixes(keys + padded, prefix_len);
    let own = prefixes(keys, prefix_len);
    let added = prefixes(entries, prefix_len);
    assert forall|i: int| 0 <= i < entries.len() implies #[trigger] padded[i].take(prefix_len)
        == entries[i].take(prefix_len) by {
        assert(padded[i].take(prefix_len) =~= entries[i].take(prefix_len));
    }
    assert(joined =~= own + added);
    assert forall|entry: Seq<u8>| joined.contains(entry) <==> own.contains(entry)
        || added.contains(entry) by {
        if joined.contains(entry) {
            let i = choose|i: int| 0 <= i < joined.len() && joined[i] == entry;
            if i < own.len() {
                assert(own[i] == entry);
            } else {
                assert(added[i - own.len()] == entry);
            }
        }
        if own.contains(entry) {
            let i = choose|i: int| 0 <= i < own.len() && own[i] == entry;
            assert(joined[i] == entry);
        }
        if added.contains(entry) {
            let i = choose|i: int| 0 <= i < added.len() && added[i] == entry;
            assert(joined[own.len() + i] == entry);
        }
    }
    assert(joined.to_set() =~= own.to_set().union(added.to_set()));
}

/// Importing a file's entries piece by piece, the pieces being whole entries, is importing them
/// at once.
pub proof fn law_import_in_pieces(
    held: Collected,
    first: Seq<u8>,
    second: Seq<u8>,
    entry_len: int,
    key_len: int,
)
    requires
        0 < entry_len,
        first.len() % (entry_len as nat) == 0,
    ensures
        held.with_keys(all_zero_padded(strides(first, entry_len), key_len)).with_keys(
            all_zero_padded(strides(second, entry_len), key_len),
        ) == held.with_keys(all_zero_padded(strides(first + second, entry_len), key_len)),
{
    let a = all_zero_padded(strides(first, entry_len), key_len);
    let b = all_zero_padded(strides(second, entry_len), key_len);
    let ab = all_zero_padded(strides(first + second, entry_len), key_len);
    lemma_strides_concat(first, second, entry_len);
    assert(ab =~= a + b);
    vstd::seq_lib::lemma_flatten_concat(a, b);
    match held {
        Collected::Buffered(keys) => {
            assert((keys + a) + b =~= keys + ab);
        },
        Collected::Spilled { max_bucket_bytes, pending } => {
            assert((pending + a.flatten()) + b.flatten() =~= pending + ab.flatten());
        },
    }
}

/// What an external builder has spilled, cut into keys, is the keys that were inserted, in order.
pub proof fn law_spill_holds_keys(
    keys: Seq<Seq<u8>>,
    more: Seq<Seq<u8>>,
    key_len: int,
    max_bucket_bytes: int,
)
    requires
        0 < key_len,
        all_have_len(keys, key_len),
        all_have_len(more, key_len),
    ensures
        (Collected::Spilled { max_bucket_bytes, pending: keys.flatten() }).with_keys(more) == (
        Collected::Spilled { max_bucket_bytes, pending: (keys + more).flatten() }),
        strides((keys + more).flatten(), key_len) == keys + more,
{
    vstd::seq_lib::lemma_flatten_concat(keys, more);
    assert(all_have_len(keys + more, key_len));
    lemma_strides_of_flatten(keys + more, key_len);
}

} // verus!
