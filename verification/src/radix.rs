//! Why partitioning by one byte sorts: the entries of keys that agree up to that byte are the
//! entries of the groups, group after group in ascending byte order.

use vstd::prelude::*;

use crate::external::BYTE_VALUES;
use crate::layout::{all_have_len, prefix_set, prefixes};
use crate::order::{
    agree, lemma_ascending_concat, lemma_sorted_entries, lemma_sorted_entries_of_ascending,
    precedes, sorted_entries, strictly_ascending,
};

verus! {

/// The entries that a bucket of keys contributes: its distinct prefixes in ascending order.
pub open spec fn emission(keys: Seq<Seq<u8>>, prefix_len: int) -> Seq<Seq<u8>> {
    sorted_entries(prefix_set(keys, prefix_len))
}

/// All keys agree on their first `depth` bytes.
pub open spec fn share_prefix(keys: Seq<Seq<u8>>, depth: int) -> bool {
    forall|i: int, j: int|
        #![trigger keys[i], keys[j]]
        0 <= i < keys.len() && 0 <= j < keys.len() ==> agree(keys[i], keys[j], depth)
}

/// The keys whose byte at `depth` is `value`, in the order they have.
pub open spec fn byte_group(keys: Seq<Seq<u8>>, depth: int, value: int) -> Seq<Seq<u8>>
    decreases keys.len(),
{
    if keys.len() == 0 {
        Seq::empty()
    } else {
        let before = byte_group(keys.drop_last(), depth, value);
        if keys.last()[depth] == value {
            before.push(keys.last())
        } else {
            before
        }
    }
}

/// The entries of the groups from `value` on, one group after the other.
pub open spec fn groups_from(
    keys: Seq<Seq<u8>>,
    depth: int,
    value: int,
    prefix_len: int,
) -> Seq<Seq<u8>>
    decreases BYTE_VALUES - value,
{
    if value >= BYTE_VALUES {
        Seq::empty()
    } else {
        emission(byte_group(keys, depth, value), prefix_len) + groups_from(
            keys,
            depth,
            value + 1,
            prefix_len,
        )
    }
}

/// A group holds just those keys of the bucket that have its byte.
pub proof fn lemma_byte_group(keys: Seq<Seq<u8>>, depth: int, value: int)
    ensures
        byte_group(keys, depth, value).len() <= keys.len(),
        forall|key: Seq<u8>| #[trigger]
            byte_group(keys, depth, value).contains(key) <==> keys.contains(key) && key[depth]
                == value,
    decreases keys.len(),
{
    let group = byte_group(keys, depth, value);
    if keys.len() == 0 {
    } else {
        let init = keys.drop_last();
        let before = byte_group(init, depth, value);
        lemma_byte_group(init, depth, value);
        assert forall|key: Seq<u8>| #[trigger]
            group.contains(key) <==> keys.contains(key) && key[depth] == value by {
            assert(keys =~= init.push(keys.last()));
            if group.contains(key) {
                let i = choose|i: int| 0 <= i < group.len() && group[i] == key;
                if i < before.len() {
                    assert(before[i] == key);
                    assert(before.contains(key));
                    let j = choose|j: int| 0 <= j < init.len() && init[j] == key;
                    assert(keys[j] == key);
                } else {
                    assert(keys[keys.len() - 1] == key);
                }
            }
            if keys.contains(key) && key[depth] == value {
                let j = choose|j: int| 0 <= j < keys.len() && keys[j] == key;
                if j < init.len() {
                    assert(init[j] == key);
                    assert(before.contains(key));
                    let i = choose|i: int| 0 <= i < before.len() && before[i] == key;
                    assert(group[i] == key);
                } else {
                    assert(group[group.len() - 1] == key);
                }
            }
        }
    }
}

/// An entry is emitted just if some key has it as its prefix; the entries are in order.
pub proof fn lemma_emission(keys: Seq<Seq<u8>>, prefix_len: int)
    ensures
        strictly_ascending(emission(keys, prefix_len)),
        emission(keys, prefix_len).to_set() == prefix_set(keys, prefix_len),
        emission(keys, prefix_len).len() == prefix_set(keys, prefix_len).len(),
{
    vstd::seq_lib::seq_to_set_is_finite(prefixes(keys, prefix_len));
    lemma_sorted_entries(prefix_set(keys, prefix_len));
}

/// Every emitted entry is the prefix of a key.
pub proof fn lemma_emitted_from(keys: Seq<Seq<u8>>, prefix_len: int, i: int) -> (j: int)
    requires
        0 <= i < emission(keys, prefix_len).len(),
    ensures
        0 <= j < keys.len(),
        keys[j].take(prefix_len) == emission(keys, prefix_len)[i],
{
    lemma_emission(keys, prefix_len);
    let entry = emission(keys, prefix_len)[i];
    assert(emission(keys, prefix_len).to_set().contains(entry));
    let j = choose|j: int| 0 <= j < keys.len() && prefixes(keys, prefix_len)[j] == entry;
    j
}

/// The groups from `value` on give the prefixes of the keys with at least that byte, in order.
proof fn lemma_groups_from(
    keys: Seq<Seq<u8>>,
    key_len: int,
    depth: int,
    value: int,
    prefix_len: int,
)
    requires
        all_have_len(keys, key_len),
        share_prefix(keys, depth),
        0 <= depth < prefix_len <= key_len,
        0 <= value <= BYTE_VALUES,
    ensures
        strictly_ascending(groups_from(keys, depth, value, prefix_len)),
        forall|entry: Seq<u8>| #[trigger]
            groups_from(keys, depth, value, prefix_len).contains(entry) <==> exists|j: int|
                0 <= j < keys.len() && (#[trigger] keys[j]).take(prefix_len) == entry
                    && keys[j][depth] >= value,
    decreases BYTE_VALUES - value,
{
    if value < BYTE_VALUES {
        let group = byte_group(keys, depth, value);
        let first = emission(group, prefix_len);
        let later = groups_from(keys, depth, value + 1, prefix_len);
        lemma_groups_from(keys, key_len, depth, value + 1, prefix_len);
        lemma_emission(group, prefix_len);
        lemma_byte_group(keys, depth, value);
        assert forall|a: int, b: int| 0 <= a < first.len() && 0 <= b < later.len() implies
            #[trigger] precedes(first[a], later[b]) by {
            let g = lemma_emitted_from(group, prefix_len, a);
            assert(group.contains(group[g]));
            let i = choose|i: int| 0 <= i < keys.len() && keys[i] == group[g];
            assert(later.contains(later[b]));
            let j = choose|j: int|
                0 <= j < keys.len() && (#[trigger] keys[j]).take(prefix_len) == later[b]
                    && keys[j][depth] >= value + 1;
            assert(agree(keys[i], keys[j], depth));
            assert(agree(first[a], later[b], depth));
        }
        lemma_ascending_concat(first, later);
        let both = groups_from(keys, depth, value, prefix_len);
        assert forall|entry: Seq<u8>| #[trigger]
            both.contains(entry) <==> exists|j: int|
                0 <= j < keys.len() && (#[trigger] keys[j]).take(prefix_len) == entry
                    && keys[j][depth] >= value by {
            assert(both.to_set().contains(entry) <==> first.to_set().contains(entry)
                || later.to_set().contains(entry));
            if first.contains(entry) {
                let a = choose|a: int| 0 <= a < first.len() && first[a] == entry;
                let g = lemma_emitted_from(group, prefix_len, a);
                assert(group.contains(group[g]));
                let i = choose|i: int| 0 <= i < keys.len() && keys[i] == group[g];
                assert(keys[i].take(prefix_len) == entry && keys[i][depth] >= value);
            }
            if exists|j: int|
                0 <= j < keys.len() && (#[trigger] keys[j]).take(prefix_len) == entry
                    && keys[j][depth] >= value {
                let j = choose|j: int|
                    0 <= j < keys.len() && (#[trigger] keys[j]).take(prefix_len) == entry
                        && keys[j][depth] >= value;
                if keys[j][depth] == value {
                    assert(group.contains(keys[j]));
                    let g = choose|g: int| 0 <= g < group.len() && group[g] == keys[j];
                    assert(prefixes(group, prefix_len)[g] == entry);
                    assert(prefix_set(group, prefix_len).contains(entry));
                    assert(first.to_set().contains(entry));
                } else {
                    assert(later.contains(entry));
                }
            }
        }
    }
}

/// Keys that agree up to a byte and are partitioned by it: what they contribute is what the
/// groups contribute, in ascending order of the byte.
pub proof fn lemma_partition_sorts(
    keys: Seq<Seq<u8>>,
    key_len: int,
    depth: int,
    prefix_len: int,
)
    requires
        all_have_len(keys, key_len),
        share_prefix(keys, depth),
        0 <= depth < prefix_len <= key_len,
    ensures
        groups_from(keys, depth, 0, prefix_len) == emission(keys, prefix_len),
{
    lemma_groups_from(keys, key_len, depth, 0, prefix_len);
    let joined = groups_from(keys, depth, 0, prefix_len);
    assert(joined.to_set() =~= prefix_set(keys, prefix_len)) by {
        assert forall|entry: Seq<u8>| joined.contains(entry) <==> prefixes(
            keys,
            prefix_len,
        ).contains(entry) by {
            if joined.contains(entry) {
                let j = choose|j: int|
                    0 <= j < keys.len() && (#[trigger] keys[j]).take(prefix_len) == entry
                        && keys[j][depth] >= 0;
                assert(prefixes(keys, prefix_len)[j] == entry);
            }
            if prefixes(keys, prefix_len).contains(entry) {
                let j = choose|j: int|
                    0 <= j < keys.len() && prefixes(keys, prefix_len)[j] == entry;
                assert(keys[j].take(prefix_len) == entry && keys[j][depth] >= 0);
            }
        }
    }
    lemma_sorted_entries_of_ascending(joined);
}

/// Keys that share their whole prefix contribute that prefix alone.
pub proof fn lemma_shared_prefix_emission(keys: Seq<Seq<u8>>, key_len: int, prefix_len: int)
    requires
        keys.len() > 0,
        all_have_len(keys, key_len),
        share_prefix(keys, prefix_len),
        0 <= prefix_len <= key_len,
    ensures
        emission(keys, prefix_len) == seq![keys[0].take(prefix_len)],
{
    let only = seq![keys[0].take(prefix_len)];
    assert forall|i: int| 0 <= i < keys.len() implies #[trigger] prefixes(keys, prefix_len)[i]
        == only[0] by {
        assert(agree(keys[i], keys[0], prefix_len));
        assert(keys[i].take(prefix_len) =~= keys[0].take(prefix_len));
    }
    assert(only.to_set() =~= prefix_set(keys, prefix_len)) by {
        assert(prefixes(keys, prefix_len)[0] == only[0]);
        assert(only.contains(only[0]));
    }
    lemma_sorted_entries_of_ascending(only);
}

/// A group of keys that agree up to `depth` agrees one byte further.
pub proof fn lemma_group_shares(keys: Seq<Seq<u8>>, key_len: int, depth: int, value: int)
    requires
        all_have_len(keys, key_len),
        share_prefix(keys, depth),
        0 <= depth < key_len,
    ensures
        all_have_len(byte_group(keys, depth, value), key_len),
        share_prefix(byte_group(keys, depth, value), depth + 1),
{
    let group = byte_group(keys, depth, value);
    lemma_byte_group(keys, depth, value);
    assert forall|i: int| 0 <= i < group.len() implies (#[trigger] group[i]).len() == key_len by {
        assert(group.contains(group[i]));
    }
    assert forall|i: int, j: int|
        #![trigger group[i], group[j]]
        0 <= i < group.len() && 0 <= j < group.len() implies agree(
        group[i],
        group[j],
        depth + 1,
    ) by {
        assert(group.contains(group[i]) && group.contains(group[j]));
        let a = choose|a: int| 0 <= a < keys.len() && keys[a] == group[i];
        let b = choose|b: int| 0 <= b < keys.len() && keys[b] == group[j];
        assert(agree(keys[a], keys[b], depth));
    }
}

} // verus!
