//! What the basic notions mean, in terms of bytes, positions and numbers.

use vstd::prelude::*;

use crate::keys::{first_strides, whole_pieces};
use crate::layout::{
    all_have_len, all_zero_padded, key_strings, lemma_stride_bounds, prefix_set, prefixes, strides,
    zero_padded,
};
use crate::offsets::{first_unsorted, is_offset_table, slot};
use crate::order::{
    agree, lemma_irreflexive, lemma_sorted_entries, lemma_trichotomy, precedes, sorted_entries,
    strictly_ascending,
};
use crate::radix::{byte_group, emission, lemma_emission, share_prefix};

verus! {

/// Byte strings are ordered lexicographically: where two first differ the smaller byte comes
/// first, and a string comes before all its continuations. None comes before itself.
pub proof fn law_order_is_lexicographic(
    common: Seq<u8>,
    x: u8,
    after_x: Seq<u8>,
    y: u8,
    after_y: Seq<u8>,
)
    ensures
        x != y ==> (precedes(common + seq![x] + after_x, common + seq![y] + after_y) <==> x < y),
        precedes(common, common + seq![y] + after_y),
        !precedes(common + seq![y] + after_y, common),
        !precedes(common, common),
{
    let k = common.len() as int;
    let a = common + seq![x] + after_x;
    let b = common + seq![y] + after_y;
    assert(agree(a, b, k) && agree(b, a, k));
    assert(agree(common, b, k));
    lemma_trichotomy(a, b);
    lemma_trichotomy(common, b);
    lemma_irreflexive(common);
}

/// A sequence is strictly ascending just if every entry comes before all later ones.
pub proof fn law_ascending_is_pairwise(entries: Seq<Seq<u8>>)
    ensures
        strictly_ascending(entries) <==> forall|i: int, j: int|
            0 <= i < j < entries.len() ==> #[trigger] precedes(entries[i], entries[j]),
{
}

/// The sorted listing of a set has each member once, nothing else, and in ascending order.
pub proof fn law_sorted_listing(members: Set<Seq<u8>>, entry: Seq<u8>, i: int, j: int)
    requires
        members.finite(),
    ensures
        sorted_entries(members).len() == members.len(),
        sorted_entries(members).contains(entry) <==> members.contains(entry),
        0 <= i < j < sorted_entries(members).len() ==> precedes(
            sorted_entries(members)[i],
            sorted_entries(members)[j],
        ),
{
    lemma_sorted_entries(members);
    assert(sorted_entries(members).to_set().contains(entry) <==> members.contains(entry));
}

/// The first unsorted entry is not after its predecessor, and each entry before it is.
pub proof fn law_first_unsorted_is_first(entries: Seq<Seq<u8>>, index: int)
    ensures
        first_unsorted(entries, index) <==> {
            &&& 0 < index < entries.len()
            &&& !precedes(entries[index - 1], entries[index])
            &&& forall|i: int, j: int|
                0 <= i < j < index ==> #[trigger] precedes(entries[i], entries[j])
        },
{
    if 0 < index < entries.len() {
        let init = entries.take(index);
        assert forall|i: int| 0 <= i < index implies #[trigger] entries[i] == init[i] by {}
        if strictly_ascending(init) {
            assert forall|i: int, j: int| 0 <= i < j < index implies #[trigger] precedes(
                entries[i],
                entries[j],
            ) by {
                assert(precedes(init[i], init[j]));
            }
        }
        if forall|i: int, j: int|
            0 <= i < j < index ==> #[trigger] precedes(entries[i], entries[j]) {
            assert forall|i: int, j: int| 0 <= i < j < init.len() implies #[trigger] precedes(
                init[i],
                init[j],
            ) by {
                assert(precedes(entries[i], entries[j]));
            }
        }
    }
}

/// All byte strings of a sequence have a length just if each has it.
pub proof fn law_all_have_len(entries: Seq<Seq<u8>>, len: int)
    ensures
        all_have_len(entries, len) <==> forall|i: int|
            0 <= i < entries.len() ==> (#[trigger] entries[i]).len() == len,
{
}

/// A buffer is cut into as many pieces as fit whole, one after the other from its start.
pub proof fn law_strides_are_consecutive(data: Seq<u8>, stride: int, i: int)
    requires
        0 < stride,
    ensures
        strides(data, stride).len() * stride <= data.len() < strides(data, stride).len() * stride
            + stride,
        0 <= i < strides(data, stride).len() ==> {
            &&& 0 <= i * stride
            &&& i * stride + stride <= data.len()
            &&& strides(data, stride)[i] == data.subrange(i * stride, i * stride + stride)
            &&& strides(data, stride)[i].len() == stride
        },
{
    let len = data.len() as int;
    vstd::arithmetic::div_mod::lemma_fundamental_div_mod(len, stride);
    vstd::arithmetic::div_mod::lemma_mod_bound(len, stride);
    vstd::arithmetic::div_mod::lemma_div_pos_is_pos(len, stride);
    vstd::arithmetic::mul::lemma_mul_is_commutative(len / stride, stride);
    if 0 <= i < strides(data, stride).len() {
        lemma_stride_bounds(len, stride, i);
    }
}

/// Reading pieces stops when all are read, or when the next is not there whole.
pub proof fn law_whole_pieces_are_most(len: int, stride: int, count: int)
    requires
        0 <= len,
        0 <= stride,
        0 <= count,
    ensures
        0 <= whole_pieces(len, stride, count) <= count,
        whole_pieces(len, stride, count) * stride <= len || stride == 0,
        whole_pieces(len, stride, count) == count || (whole_pieces(len, stride, count) + 1) * stride
            > len,
{
    if stride > 0 {
        let q = len / stride;
        assert(0 <= q && q * stride <= len && (q + 1) * stride > len) by (nonlinear_arith)
            requires
                0 < stride,
                0 <= len,
                q == len / stride,
        ;
        assert(count <= q ==> count * stride <= len) by (nonlinear_arith)
            requires
                0 < stride,
                q * stride <= len,
        ;
    }
}

/// The pieces that are read come one after the other from the start.
pub proof fn law_first_pieces(data: Seq<u8>, stride: int, count: int, i: int)
    requires
        0 <= i < count,
    ensures
        first_strides(data, stride, count).len() == count,
        first_strides(data, stride, count)[i] == data.subrange(i * stride, i * stride + stride),
{
}

/// Keys as byte strings are the keys, one for one.
pub proof fn law_key_strings<const N: usize>(keys: Seq<[u8; N]>, i: int)
    ensures
        key_strings(keys).len() == keys.len(),
        0 <= i < keys.len() ==> key_strings(keys)[i] == keys[i]@,
{
}

/// Each key is cut to its first bytes, in the order of the keys.
pub proof fn law_prefixes_one_by_one(keys: Seq<Seq<u8>>, prefix_len: int, i: int)
    requires
        0 <= prefix_len <= keys[i].len(),
    ensures
        prefixes(keys, prefix_len).len() == keys.len(),
        0 <= i < keys.len() ==> {
            &&& prefixes(keys, prefix_len)[i].len() == prefix_len
            &&& prefixes(keys, prefix_len)[i] + keys[i].skip(prefix_len) == keys[i]
        },
{
    if 0 <= i < keys.len() {
        assert(prefixes(keys, prefix_len)[i] + keys[i].skip(prefix_len) =~= keys[i]);
    }
}

/// The prefixes of keys are just the byte strings that some key starts with, cut to the prefix
/// length.
pub proof fn law_prefixes_of_keys(keys: Seq<Seq<u8>>, prefix_len: int, entry: Seq<u8>)
    ensures
        prefix_set(keys, prefix_len).finite(),
        prefix_set(keys, prefix_len).contains(entry) <==> exists|i: int|
            0 <= i < keys.len() && (#[trigger] keys[i]).take(prefix_len) == entry,
{
    let all = prefixes(keys, prefix_len);
    vstd::seq_lib::seq_to_set_is_finite(all);
    if prefix_set(keys, prefix_len).contains(entry) {
        let i = choose|i: int| 0 <= i < all.len() && all[i] == entry;
        assert(keys[i].take(prefix_len) == entry);
    }
    if exists|i: int| 0 <= i < keys.len() && (#[trigger] keys[i]).take(prefix_len) == entry {
        let i = choose|i: int|
            0 <= i < keys.len() && (#[trigger] keys[i]).take(prefix_len) == entry;
        assert(all[i] == entry);
    }
}

/// A padded entry starts with the entry and goes on with zero bytes up to the length.
pub proof fn law_padding_is_zero(entries: Seq<Seq<u8>>, len: int, i: int, at: int)
    requires
        0 <= i < entries.len(),
        entries[i].len() <= len,
    ensures
        all_zero_padded(entries, len).len() == entries.len(),
        all_zero_padded(entries, len)[i] == zero_padded(entries[i], len),
        zero_padded(entries[i], len).len() == len,
        0 <= at < entries[i].len() ==> zero_padded(entries[i], len)[at] == entries[i][at],
        entries[i].len() <= at < len ==> zero_padded(entries[i], len)[at] == 0,
{
}

/// Slots number the 3-byte prefixes in their order, without gaps: they lie below `2^24`, and one
/// is smaller than another just if its 3 bytes come first.
pub proof fn law_slots_follow_the_order(a: Seq<u8>, b: Seq<u8>)
    requires
        a.len() >= 3,
        b.len() >= 3,
    ensures
        0 <= slot(a) < 0x100_0000,
        slot(a) < slot(b) <==> precedes(a.take(3), b.take(3)),
        slot(a) == slot(b) <==> a.take(3) == b.take(3),
{
    let x = a.take(3);
    let y = b.take(3);
    lemma_trichotomy(x, y);
    if slot(a) == slot(b) {
        assert(x =~= y);
    }
    if a[0] != b[0] {
        assert(agree(x, y, 0) && agree(y, x, 0));
    } else if a[1] != b[1] {
        assert(agree(x, y, 1) && agree(y, x, 1));
    } else if a[2] != b[2] {
        assert(agree(x, y, 2) && agree(y, x, 2));
    } else {
        assert(x =~= y);
    }
    if x == y {
        assert(x[0] == a[0] && x[1] == a[1] && x[2] == a[2]);
        assert(y[0] == b[0] && y[1] == b[1] && y[2] == b[2]);
    }
}

/// The offset table has one place for each 3-byte prefix and one more. It begins with zero, ends
/// with the number of entries and never falls; between two neighbouring places lie just the
/// entries that start with the 3 bytes that spell the first of them, highest first.
pub proof fn law_offset_table_covers(
    offsets: Seq<u32>,
    entries: Seq<Seq<u8>>,
    b: int,
    i: int,
)
    requires
        is_offset_table(offsets, entries),
        forall|k: int| 0 <= k < entries.len() ==> (#[trigger] entries[k]).len() >= 3,
        0 <= b < 0x100_0000,
    ensures
        offsets.len() == 0x100_0001,
        offsets[0] == 0,
        offsets[0x100_0000] == entries.len(),
        offsets[b] <= offsets[b + 1],
        0 <= i < entries.len() ==> (offsets[b] <= i < offsets[b + 1] <==> entries[i][0] * 0x1_0000
            + entries[i][1] * 0x100 + entries[i][2] == b),
{
    if offsets[0] > 0 {
        assert(0 < offsets[0] <==> slot(entries[0]) < 0);
    }
    if offsets[0x100_0000] < entries.len() {
        let k = offsets[0x100_0000] as int;
        assert(k < offsets[0x100_0000] <==> slot(entries[k]) < 0x100_0000);
    }
    if offsets[b + 1] < offsets[b] {
        let k = offsets[b + 1] as int;
        assert(k < offsets[b + 1] <==> slot(entries[k]) < b + 1);
        assert(k < offsets[b] <==> slot(entries[k]) < b);
    }
    if 0 <= i < entries.len() {
        assert(i < offsets[b] <==> slot(entries[i]) < b);
        assert(i < offsets[b + 1] <==> slot(entries[i]) < b + 1);
    }
}

/// A bucket contributes each prefix of its keys once, in ascending order, and nothing else.
pub proof fn law_bucket_contributes_its_prefixes(
    keys: Seq<Seq<u8>>,
    prefix_len: int,
    entry: Seq<u8>,
    i: int,
    j: int,
)
    ensures
        emission(keys, prefix_len).contains(entry) <==> exists|k: int|
            0 <= k < keys.len() && (#[trigger] keys[k]).take(prefix_len) == entry,
        0 <= i < j < emission(keys, prefix_len).len() ==> precedes(
            emission(keys, prefix_len)[i],
            emission(keys, prefix_len)[j],
        ),
{
    lemma_emission(keys, prefix_len);
    law_prefixes_of_keys(keys, prefix_len, entry);
    assert(emission(keys, prefix_len).to_set().contains(entry) <==> emission(
        keys,
        prefix_len,
    ).contains(entry));
}

/// Keys share a prefix just if any two of them have the same bytes there.
pub proof fn law_shared_prefix(keys: Seq<Seq<u8>>, depth: int)
    requires
        0 <= depth,
        forall|i: int| 0 <= i < keys.len() ==> (#[trigger] keys[i]).len() >= depth,
    ensures
        share_prefix(keys, depth) <==> forall|i: int, j: int|
            #![trigger keys[i], keys[j]]
            0 <= i < keys.len() && 0 <= j < keys.len() ==> keys[i].take(depth) == keys[j].take(
                depth,
            ),
{
    if share_prefix(keys, depth) {
        assert forall|i: int, j: int|
            #![trigger keys[i], keys[j]]
            0 <= i < keys.len() && 0 <= j < keys.len() implies keys[i].take(depth) == keys[j].take(
            depth,
        ) by {
            assert(agree(keys[i], keys[j], depth));
            assert(keys[i].take(depth) =~= keys[j].take(depth));
        }
    }
    if forall|i: int, j: int|
        #![trigger keys[i], keys[j]]
        0 <= i < keys.len() && 0 <= j < keys.len() ==> keys[i].take(depth) == keys[j].take(depth) {
        assert forall|i: int, j: int|
            #![trigger keys[i], keys[j]]
            0 <= i < keys.len() && 0 <= j < keys.len() implies agree(keys[i], keys[j], depth) by {
            let a = keys[i].take(depth);
            let b = keys[j].take(depth);
            assert(a == b);
            assert forall|k: int| 0 <= k < depth implies keys[i][k] == keys[j][k] by {
                assert(a[k] == b[k]);
            }
        }
    }
}

/// The group of a byte value is the keys that have it at `depth`, each as often and in the order
/// that they have it.
pub proof fn law_groups_filter(keys: Seq<Seq<u8>>, depth: int, value: int)
    ensures
        byte_group(keys, depth, value) == keys.filter(|key: Seq<u8>| key[depth] == value),
    decreases keys.len(),
{
    reveal(Seq::filter);
    if keys.len() > 0 {
        law_groups_filter(keys.drop_last(), depth, value);
    }
}

} // verus!
