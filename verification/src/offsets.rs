//! The first-level offset table: for each 3-byte prefix, where its entries begin.

use vstd::prelude::*;

use crate::error::Error;
use crate::layout::{lemma_stride_bounds, lemma_strides_len, strides};
use crate::order::{agree, compare, lemma_transitive, precedes, strictly_ascending, Order};

verus! {

/// Number of bytes consumed by the first-level offset table.
pub const OFFSET_TABLE_PREFIX_LEN: usize = 3;

/// One slot per possible 3-byte prefix, plus a trailing sentinel so every bucket `i` is delimited
/// by `offsets[i]..offsets[i + 1]`.
pub const OFFSET_TABLE_LEN: usize = 0x100_0001;

/// The slot of a prefix: its first 3 bytes read as a big-endian number.
pub open spec fn slot(prefix: Seq<u8>) -> int {
    prefix[0] * 0x1_0000 + prefix[1] * 0x100 + prefix[2]
}

/// `offsets[b]` splits the entries at slot `b`: those before it have a smaller slot, the others
/// have not. So the entries of slot `b` are those from `offsets[b]` up to `offsets[b + 1]`.
pub open spec fn is_offset_table(offsets: Seq<u32>, entries: Seq<Seq<u8>>) -> bool {
    &&& offsets.len() == OFFSET_TABLE_LEN
    &&& forall|b: int|
        0 <= b < OFFSET_TABLE_LEN ==> 0 <= #[trigger] offsets[b] <= entries.len()
    &&& forall|b: int, i: int|
        #![trigger offsets[b], entries[i]]
        0 <= b < OFFSET_TABLE_LEN && 0 <= i < entries.len() ==> (i < offsets[b] <==> slot(
            entries[i],
        ) < b)
}

/// `index` is the first entry that does not come strictly after its predecessor.
pub open spec fn first_unsorted(entries: Seq<Seq<u8>>, index: int) -> bool {
    &&& 0 < index < entries.len()
    &&& !precedes(entries[index - 1], entries[index])
    &&& strictly_ascending(entries.take(index))
}

/// Offset table slot for a prefix: its first 3 bytes as a `usize`.
pub fn table_index(prefix: &[u8]) -> (index: usize)
    requires
        prefix@.len() >= 3,
    ensures
        index == slot(prefix@),
        index < OFFSET_TABLE_LEN - 1,
{
    prefix[0] as usize * 0x1_0000 + prefix[1] as usize * 0x100 + prefix[2] as usize
}

/// How many of the slots are `b`.
spec fn count_eq(slots: Seq<int>, b: int) -> nat
    decreases slots.len(),
{
    if slots.len() == 0 {
        0
    } else {
        count_eq(slots.drop_last(), b) + if slots.last() == b {
            1nat
        } else {
            0nat
        }
    }
}

/// How many of the slots are below `b`.
spec fn count_below(slots: Seq<int>, b: int) -> nat
    decreases slots.len(),
{
    if slots.len() == 0 {
        0
    } else {
        count_below(slots.drop_last(), b) + if slots.last() < b {
            1nat
        } else {
            0nat
        }
    }
}

proof fn lemma_counts(slots: Seq<int>, b: int)
    ensures
        count_eq(slots, b) <= slots.len(),
        count_below(slots, b) <= slots.len(),
        count_below(slots, b + 1) == count_below(slots, b) + count_eq(slots, b),
    decreases slots.len(),
{
    if slots.len() > 0 {
        lemma_counts(slots.drop_last(), b);
    }
}

proof fn lemma_count_below_zero(slots: Seq<int>)
    requires
        forall|i: int| 0 <= i < slots.len() ==> 0 <= #[trigger] slots[i],
    ensures
        count_below(slots, 0) == 0,
    decreases slots.len(),
{
    if slots.len() > 0 {
        assert(slots.last() == slots[slots.len() - 1]);
        assert forall|i: int| 0 <= i < slots.drop_last().len() implies 0
            <= #[trigger] slots.drop_last()[i] by {
            assert(slots.drop_last()[i] == slots[i]);
        }
        lemma_count_below_zero(slots.drop_last());
    }
}

/// In slots that never decrease, those below `b` are the first `count_below` ones.
proof fn lemma_count_below_splits(slots: Seq<int>, b: int, i: int)
    requires
        forall|i: int, j: int| 0 <= i <= j < slots.len() ==> slots[i] <= slots[j],
        0 <= i < slots.len(),
    ensures
        i < count_below(slots, b) <==> slots[i] < b,
    decreases slots.len(),
{
    let init = slots.drop_last();
    let n = slots.len() - 1;
    lemma_counts(init, b);
    assert forall|i: int, j: int| 0 <= i <= j < init.len() implies init[i] <= init[j] by {
        assert(init[i] == slots[i] && init[j] == slots[j]);
    }
    if i < n {
        lemma_count_below_splits(init, b, i);
        assert(init[i] == slots[i]);
        if slots[n] < b {
            assert(slots[i] <= slots[n]);
        }
    } else if n > 0 {
        lemma_count_below_splits(init, b, n - 1);
        assert(init[n - 1] == slots[n - 1]);
        assert(slots[n - 1] <= slots[n]);
    }
}

/// Order respects slots.
pub proof fn lemma_slot_monotone(a: Seq<u8>, b: Seq<u8>)
    requires
        precedes(a, b),
        a.len() >= 3,
        b.len() >= 3,
    ensures
        0 <= slot(a) <= slot(b) < OFFSET_TABLE_LEN - 1,
{
    let k = choose|k: int| #[trigger] agree(a, b, k) && k < b.len() && (k == a.len() || a[k] < b[k]);
    assert(k > 0 ==> a[0] == b[0]);
    assert(k > 1 ==> a[1] == b[1]);
    assert(k > 2 ==> a[2] == b[2]);
}

/// Appending an entry after the last one keeps the sequence ascending.
proof fn lemma_ascending_extend(entries: Seq<Seq<u8>>, n: int)
    requires
        0 <= n < entries.len(),
        strictly_ascending(entries.take(n)),
        n == 0 || precedes(entries[n - 1], entries[n]),
    ensures
        strictly_ascending(entries.take(n + 1)),
{
    let more = entries.take(n + 1);
    let init = entries.take(n);
    assert forall|i: int, j: int| 0 <= i < j < more.len() implies #[trigger] precedes(
        more[i],
        more[j],
    ) by {
        if j < n {
            assert(precedes(init[i], init[j]));
        } else if i < n - 1 {
            assert(precedes(init[i], init[n - 1]));
            lemma_transitive(entries[i], entries[n - 1], entries[n]);
        }
    }
}

/// A sequence with a first unsorted entry is not ascending.
pub proof fn lemma_first_unsorted(entries: Seq<Seq<u8>>, index: int)
    requires
        first_unsorted(entries, index),
    ensures
        !strictly_ascending(entries),
{
    if strictly_ascending(entries) {
        assert(precedes(entries[index - 1], entries[index]));
    }
}

/// Build the 3-byte-prefix offset table for sorted `prefix_len`-stride data.
///
/// Validates that entries are strictly ascending (i.e. sorted and deduplicated), which the
/// table's correctness depends on.
///
/// # Errors
///
/// Returns [`Error::TooManyEntries`] if the entry count overflows `u32`, and [`Error::Unsorted`]
/// if any entry is not strictly greater than its predecessor.
pub fn build_offsets(data: &[u8], prefix_len: usize) -> (result: Result<Vec<u32>, Error>)
    requires
        0 < prefix_len,
        prefix_len >= 3 || data@.len() < prefix_len || data@.len() as int / prefix_len as int
            > u32::MAX,
    ensures
        match result {
            Ok(offsets) => {
                &&& strides(data@, prefix_len as int).len() <= u32::MAX
                &&& strictly_ascending(strides(data@, prefix_len as int))
                &&& is_offset_table(offsets@, strides(data@, prefix_len as int))
            },
            Err(Error::TooManyEntries { count }) => {
                &&& count == strides(data@, prefix_len as int).len()
                &&& count > u32::MAX
            },
            Err(Error::Unsorted { index }) => {
                &&& strides(data@, prefix_len as int).len() <= u32::MAX
                &&& first_unsorted(strides(data@, prefix_len as int), index as int)
            },
            Err(_) => false,
        },
{
    let count: usize = data.len() / prefix_len;
    let ghost entries = strides(data@, prefix_len as int);
    let ghost slots = Seq::new(entries.len(), |i: int| slot(entries[i]));
    proof {
        lemma_strides_len(data@, prefix_len as int);
        if data@.len() < prefix_len {
            vstd::arithmetic::div_mod::lemma_basic_div(data@.len() as int, prefix_len as int);
        }
    }
    if count > u32::MAX as usize {
        return Err(Error::TooManyEntries { count });
    }
    let mut offsets: Vec<u32> = vec![0u32; OFFSET_TABLE_LEN];
    let mut index: usize = 0;
    while index < count
        invariant
            0 < prefix_len,
            count > 0 ==> prefix_len >= 3,
            count == data@.len() as int / prefix_len as int,
            count <= u32::MAX,
            entries == strides(data@, prefix_len as int),
            entries.len() == count,
            forall|i: int| 0 <= i < entries.len() ==> (#[trigger] entries[i]).len() == prefix_len,
            slots == Seq::new(entries.len(), |i: int| slot(entries[i])),
            index <= count,
            strictly_ascending(entries.take(index as int)),
            offsets@.len() == OFFSET_TABLE_LEN,
            offsets@[0] == 0,
            forall|b: int|
                0 < b < OFFSET_TABLE_LEN ==> #[trigger] offsets@[b] == count_eq(
                    slots.take(index as int),
                    b - 1,
                ),
        decreases count - index,
    {
        proof {
            lemma_stride_bounds(data.len() as int, prefix_len as int, index as int);
        }
        let start: usize = index * prefix_len;
        let entry = &data[start..start + prefix_len];
        assert(entry@ == entries[index as int]);
        if index > 0 {
            proof {
                lemma_stride_bounds(data@.len() as int, prefix_len as int, index - 1);
                vstd::arithmetic::mul::lemma_mul_is_distributive_sub_other_way(
                    prefix_len as int,
                    index as int,
                    1,
                );
            }
            let previous = &data[start - prefix_len..start];
            assert(previous@ == entries[index - 1]);
            match compare(previous, entry) {
                Order::Before => {},
                _ => {
                    return Err(Error::Unsorted { index });
                },
            }
        }
        let bucket: usize = table_index(entry);
        proof {
            lemma_ascending_extend(entries, index as int);
            let before = slots.take(index as int);
            let after = slots.take(index + 1);
            assert(after.drop_last() =~= before);
            assert(after.last() == bucket);
            assert forall|b: int| #[trigger]
                count_eq(after, b) == count_eq(before, b) + if b == bucket {
                    1nat
                } else {
                    0nat
                } by {}
            lemma_counts(before, bucket as int);
        }
        let held: u32 = offsets[bucket + 1];
        offsets[bucket + 1] = held + 1;
        index += 1;
    }
    assert(entries.take(count as int) =~= entries);
    assert(slots.take(count as int) =~= slots);
    proof {
        assert forall|i: int, j: int| 0 <= i <= j < slots.len() implies slots[i] <= slots[j] by {
            if i < j {
                assert(precedes(entries[i], entries[j]));
                lemma_slot_monotone(entries[i], entries[j]);
            }
        }
        lemma_count_below_zero(slots);
    }
    // Convert per-bucket counts into cumulative start offsets, so bucket `i` spans entry
    // indices `offsets[i]..offsets[i + 1]`.
    let mut running: u32 = 0;
    let mut next: usize = 0;
    while next < OFFSET_TABLE_LEN
        invariant
            slots.len() <= u32::MAX,
            next <= OFFSET_TABLE_LEN,
            offsets@.len() == OFFSET_TABLE_LEN,
            next == 0 ==> running == 0 && offsets@[0] == 0,
            next > 0 ==> running == count_below(slots, next - 1),
            count_below(slots, 0) == 0,
            forall|b: int|
                0 <= b < next ==> #[trigger] offsets@[b] == count_below(slots, b),
            forall|b: int|
                next <= b < OFFSET_TABLE_LEN && 0 < b ==> #[trigger] offsets@[b] == count_eq(
                    slots,
                    b - 1,
                ),
        decreases OFFSET_TABLE_LEN - next,
    {
        proof {
            if next > 0 {
                lemma_counts(slots, next - 1);
                lemma_counts(slots, next as int);
            }
        }
        running = running + offsets[next];
        offsets[next] = running;
        next += 1;
    }
    proof {
        assert forall|b: int| 0 <= b < OFFSET_TABLE_LEN implies 0 <= #[trigger] offsets@[b]
            <= entries.len() by {
            lemma_counts(slots, b);
        }
        assert forall|b: int, i: int|
            #![trigger offsets@[b], entries[i]]
            0 <= b < OFFSET_TABLE_LEN && 0 <= i < entries.len() implies (i < offsets@[b] <==> slot(
            entries[i],
        ) < b) by {
            lemma_count_below_splits(slots, b, i);
        }
    }
    Ok(offsets)
}

} // verus!
