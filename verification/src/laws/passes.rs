//! What each report does to an external build.

use vstd::prelude::*;

use crate::external::{child_tasks, empty_slots, Bucket, BucketFile, Partition, PassState, Task};

verus! {

/// A build begins with nothing to do but to measure the spill file, with no partition file made,
/// and for the lengths and the limit that it was made for.
pub proof fn law_build_begins(key_len: int, prefix_len: int, max_bucket_bytes: int, v: int)
    ensures
        ({
            let s = PassState::start(key_len, prefix_len, max_bucket_bytes);
            &&& s.key_len == key_len
            &&& s.prefix_len == prefix_len
            &&& s.max_bucket_bytes == max_bucket_bytes
            &&& s.next_file == 0
            &&& s.tasks == seq![Task::Measure]
            &&& s.routed == 0
            &&& s.slots.len() == 256
            &&& 0 <= v < 256 ==> s.slots[v] is None
        }),
{
}

/// A task that is done is gone, and nothing else changes.
pub proof fn law_done_task_is_gone(s: PassState)
    requires
        s.tasks.len() > 0,
    ensures
        s.popped().tasks.push(s.tasks.last()) == s.tasks,
        s.popped() == (PassState { tasks: s.popped().tasks, ..s }),
{
    assert(s.popped().tasks.push(s.tasks.last()) =~= s.tasks);
}

/// Once measured, the spill file is to be sorted, all of it, with no byte known to be shared.
pub proof fn law_measured_spill_is_sorted(s: PassState, spilled: u64)
    requires
        s.tasks.len() > 0,
    ensures
        s.measured(spilled).tasks == s.popped().tasks.push(
            Task::Sort(Bucket { file: BucketFile::Spill, size: spilled, depth: 0 }),
        ),
        s.measured(spilled) == (PassState { tasks: s.measured(spilled).tasks, ..s }),
{
}

/// A key that is routed makes the file of its byte one key longer, which is made with the next
/// number if there is none; the files of other bytes and the tasks stay.
pub proof fn law_route_grows_one_file(s: PassState, byte: u8, v: int)
    requires
        s.slots.len() == 256,
        0 <= s.next_file <= u64::MAX,
        0 <= s.key_len <= u64::MAX,
        s.slots[byte as int] matches Some(part) ==> part.bytes + s.key_len <= u64::MAX,
    ensures
        ({
            let t = s.routed_by(byte);
            &&& t.routed == s.routed + 1
            &&& t.tasks == s.tasks
            &&& t.key_len == s.key_len && t.prefix_len == s.prefix_len && t.max_bucket_bytes
                == s.max_bucket_bytes
            &&& t.slots.len() == 256
            &&& 0 <= v < 256 && v != byte ==> t.slots[v] == s.slots[v]
            &&& t.slots[byte as int] == Some(s.grown(byte))
            &&& match s.slots[byte as int] {
                Some(part) => {
                    &&& s.grown(byte).file == part.file
                    &&& s.grown(byte).bytes == part.bytes + s.key_len
                    &&& t.next_file == s.next_file
                },
                None => {
                    &&& s.grown(byte).file == s.next_file
                    &&& s.grown(byte).bytes == s.key_len
                    &&& t.next_file == s.next_file + 1
                },
            }
        }),
{
}

/// How many slots have a partition file.
spec fn filled(slots: Seq<Option<Partition>>) -> nat
    decreases slots.len(),
{
    if slots.len() == 0 {
        0
    } else {
        filled(slots.drop_first()) + if slots.first() is Some {
            1nat
        } else {
            0nat
        }
    }
}

proof fn lemma_child_place(slots: Seq<Option<Partition>>, depth: usize, v: int)
    requires
        0 <= v < slots.len(),
        slots[v] is Some,
    ensures
        child_tasks(slots, depth).len() == 2 * filled(slots),
        filled(slots.skip(v)) >= 1,
        filled(slots.skip(v)) == filled(slots.skip(v + 1)) + 1,
        filled(slots.skip(v)) <= filled(slots),
        child_tasks(slots, depth)[2 * filled(slots.skip(v)) - 1] == Task::Sort(
            Bucket {
                file: BucketFile::Partition(slots[v]->0.file),
                size: slots[v]->0.bytes,
                depth,
            },
        ),
        child_tasks(slots, depth)[2 * filled(slots.skip(v)) - 2] == Task::Remove(
            slots[v]->0.file,
        ),
    decreases slots.len(),
{
    let rest = slots.drop_first();
    assert(slots.skip(0) =~= slots);
    assert(slots.skip(v).drop_first() =~= slots.skip(v + 1));
    assert(slots.skip(v).first() == slots[v]);
    if v == 0 {
        lemma_child_count(rest, depth);
    } else {
        assert(rest[v - 1] == slots[v]);
        lemma_child_place(rest, depth, v - 1);
        assert(rest.skip(v - 1) =~= slots.skip(v));
        assert(rest.skip(v) =~= slots.skip(v + 1));
    }
}

proof fn lemma_child_count(slots: Seq<Option<Partition>>, depth: usize)
    ensures
        child_tasks(slots, depth).len() == 2 * filled(slots),
    decreases slots.len(),
{
    if slots.len() > 0 {
        lemma_child_count(slots.drop_first(), depth);
    }
}

proof fn lemma_filled_order(slots: Seq<Option<Partition>>, v: int, w: int)
    requires
        0 <= v < w < slots.len(),
    ensures
        slots[v] is Some ==> filled(slots.skip(v)) > filled(slots.skip(w)),
        filled(slots.skip(v)) >= filled(slots.skip(w)),
    decreases w - v,
{
    assert(slots.skip(v).drop_first() =~= slots.skip(v + 1));
    assert(slots.skip(v).first() == slots[v]);
    if v + 1 < w {
        lemma_filled_order(slots, v + 1, w);
    }
}

/// A partitioned bucket gives way to its partitions, one byte further: the file of each byte value
/// is to be sorted and right after that removed, that of a smaller value before that of a larger
/// one. The tasks below stay, and no slot is filled any more. The places returned are those of the
/// tasks that sort the files of the two values; the last task is the next to be done.
pub proof fn law_partitions_take_over(s: PassState, v: int, w: int) -> (places: (int, int))
    requires
        s.tasks.len() > 0,
        s.slots.len() == 256,
        0 <= v <= w < 256,
        s.slots[v] is Some,
        s.slots[w] is Some,
        s.bucket().depth < usize::MAX,
    ensures
        ({
            let t = s.partitioned();
            let below = s.tasks.len() - 1;
            let depth = (s.bucket().depth + 1) as usize;
            &&& t.tasks.take(below) == s.tasks.take(below)
            &&& below < places.1 <= places.0 < t.tasks.len()
            &&& v < w ==> places.1 < places.0 - 1
            &&& t.tasks[places.0] == Task::Sort(
                Bucket {
                    file: BucketFile::Partition(s.slots[v]->0.file),
                    size: s.slots[v]->0.bytes,
                    depth,
                },
            )
            &&& t.tasks[places.0 - 1] == Task::Remove(s.slots[v]->0.file)
            &&& t.tasks[places.1] == Task::Sort(
                Bucket {
                    file: BucketFile::Partition(s.slots[w]->0.file),
                    size: s.slots[w]->0.bytes,
                    depth,
                },
            )
            &&& t.tasks[places.1 - 1] == Task::Remove(s.slots[w]->0.file)
            &&& t.routed == 0
            &&& t.slots == empty_slots()
            &&& t.next_file == s.next_file
            &&& t.key_len == s.key_len && t.prefix_len == s.prefix_len && t.max_bucket_bytes
                == s.max_bucket_bytes
        }),
{
    let t = s.partitioned();
    let below = s.tasks.len() - 1;
    let depth = (s.bucket().depth + 1) as usize;
    let children = child_tasks(s.slots, depth);
    lemma_child_place(s.slots, depth, v);
    lemma_child_place(s.slots, depth, w);
    if v < w {
        lemma_filled_order(s.slots, v, w);
    }
    let a = 2 * filled(s.slots.skip(v)) - 1;
    let b = 2 * filled(s.slots.skip(w)) - 1;
    assert(t.tasks.take(below) =~= s.tasks.take(below));
    assert(t.tasks[below + a] == children[a] && t.tasks[below + a - 1] == children[a - 1]);
    assert(t.tasks[below + b] == children[b] && t.tasks[below + b - 1] == children[b - 1]);
    (below + a, below + b)
}

} // verus!
