//! Whole runs of an external build, over files that give back what was written to them.

use vstd::prelude::*;

use crate::external::{
    child_tasks, empty_slots, Action, Bucket, BucketFile, Partition, PassState, Task, BYTE_VALUES,
};
use crate::layout::{all_have_len, lemma_strides_of_flatten, lemma_whole_strides, strides};
use crate::order::agree;
use crate::radix::{
    byte_group, emission, groups_from, lemma_byte_group, lemma_group_shares, lemma_partition_sorts,
    lemma_shared_prefix_emission, share_prefix,
};

verus! {

/// The files of an external build: the keys in each, and the output after its header.
pub struct Disk {
    /// The keys in the spill file.
    pub spill: Seq<Seq<u8>>,
    /// The keys in each partition file.
    pub partitions: Map<u64, Seq<Seq<u8>>>,
    /// What was appended to the output.
    pub out: Seq<u8>,
}

impl Disk {
    /// The keys in a file.
    pub open spec fn keys_in(self, file: BucketFile) -> Seq<Seq<u8>> {
        match file {
            BucketFile::Spill => self.spill,
            BucketFile::Partition(id) => self.partitions[id],
        }
    }

    /// The bytes of a file: its keys back to back.
    pub open spec fn bytes_in(self, file: BucketFile) -> Seq<u8> {
        self.keys_in(file).flatten()
    }

    /// A key appended to a partition file, after creating that if it is new.
    pub open spec fn appended(self, id: u64, created: bool, key: Seq<u8>) -> Disk {
        let held = if created {
            Seq::empty()
        } else {
            self.partitions[id]
        };
        Disk { partitions: self.partitions.insert(id, held.push(key)), ..self }
    }
}

/// One action of a build carried out: the files give back the keys that were appended to them,
/// the build takes the event in, and the files change as it said.
pub open spec fn step(s: PassState, d: Disk, s2: PassState, d2: Disk) -> bool {
    match s.action() {
        Action::Measure => {
            &&& s2 == s.measured(d.bytes_in(BucketFile::Spill).len() as u64)
            &&& d2 == d
        },
        Action::Load { file, size } => {
            let keys = strides(d.bytes_in(file), s.key_len);
            &&& s2 == s.popped()
            &&& d2 == (Disk { out: d.out + emission(keys, s.prefix_len).flatten(), ..d })
        },
        Action::Sample { file } => {
            &&& s2 == s.popped()
            &&& d2 == (Disk { out: d.out + d.keys_in(file)[0].take(s.prefix_len), ..d })
        },
        Action::Split { file, size } => if s.routed < s.bucket_keys() {
            let key = d.keys_in(file)[s.routed];
            let byte = key[s.bucket().depth as int];
            &&& s.accepts(byte)
            &&& s2 == s.routed_by(byte)
            &&& d2 == d.appended(s.grown(byte).file, s.slots[byte as int] is None, key)
        } else {
            &&& s2 == s.partitioned()
            &&& d2 == d
        },
        Action::Remove { partition } => {
            &&& s2 == s.popped()
            &&& d2 == (Disk { partitions: d.partitions.remove(partition), ..d })
        },
        Action::Finish => false,
    }
}

/// A run: it begins with the spilled keys, no partition files and no output, and goes on action
/// by action.
pub open spec fn is_run(
    run: Seq<(PassState, Disk)>,
    keys: Seq<Seq<u8>>,
    key_len: int,
    prefix_len: int,
    max_bucket_bytes: int,
) -> bool {
    &&& run.len() > 0
    &&& run[0].0 == PassState::start(key_len, prefix_len, max_bucket_bytes)
    &&& run[0].1 == (Disk { spill: keys, partitions: Map::empty(), out: Seq::empty() })
    &&& forall|i: int|
        #![trigger run[i]]
        0 <= i < run.len() - 1 ==> step(run[i].0, run[i].1, run[i + 1].0, run[i + 1].1)
}

/// The entries that the tasks will still contribute, the last task first.
spec fn remaining(tasks: Seq<Task>, d: Disk, prefix_len: int) -> Seq<Seq<u8>>
    decreases tasks.len(),
{
    if tasks.len() == 0 {
        Seq::empty()
    } else {
        let later = remaining(tasks.drop_last(), d, prefix_len);
        match tasks.last() {
            Task::Measure => emission(d.spill, prefix_len) + later,
            Task::Sort(bucket) => emission(d.keys_in(bucket.file), prefix_len) + later,
            Task::Remove(_) => later,
        }
    }
}

/// The bucket's file is there and holds what the bucket says: whole keys that agree on their
/// first `depth` bytes.
pub open spec fn bucket_ok(s: PassState, d: Disk, bucket: Bucket) -> bool {
    let keys = d.keys_in(bucket.file);
    &&& bucket.file matches BucketFile::Partition(id) ==> d.partitions.contains_key(id) && id
        < s.next_file
    &&& keys.len() * s.key_len == bucket.size
    &&& all_have_len(keys, s.key_len)
    &&& share_prefix(keys, bucket.depth as int)
    &&& bucket.depth <= s.prefix_len
}

spec fn tasks_ok(s: PassState, d: Disk) -> bool {
    &&& forall|i: int|
        0 <= i < s.tasks.len() ==> (#[trigger] s.tasks[i] matches Task::Sort(bucket) ==> bucket_ok(
            s,
            d,
            bucket,
        ))
    &&& forall|i: int|
        0 <= i < s.tasks.len() ==> (#[trigger] s.tasks[i] is Measure ==> {
            &&& s.tasks.len() == 1
            &&& all_have_len(d.spill, s.key_len)
            &&& d.spill.len() * s.key_len <= u64::MAX
        })
}

/// No file is to be removed before it is sorted.
spec fn removes_ok(tasks: Seq<Task>) -> bool {
    forall|i: int, j: int|
        #![trigger tasks[i], tasks[j]]
        0 <= i < j < tasks.len() ==> (tasks[i] matches Task::Sort(bucket) ==> (tasks[j]
            matches Task::Remove(id) ==> bucket.file != BucketFile::Partition(id)))
}

/// The keys of the bucket being partitioned that have gone to the partition of a byte value.
pub open spec fn routed_group(s: PassState, d: Disk, value: int) -> Seq<Seq<u8>> {
    byte_group(d.keys_in(s.bucket().file).take(s.routed), s.bucket().depth as int, value)
}

/// The keys with a byte value are in its partition file and the file's size is known; without any
/// there is no such file.
pub open spec fn slot_ok(s: PassState, d: Disk, value: int) -> bool {
    let group = routed_group(s, d, value);
    match s.slots[value] {
        None => group.len() == 0,
        Some(part) => {
            &&& group.len() > 0
            &&& part.file < s.next_file
            &&& d.partitions.contains_key(part.file)
            &&& d.partitions[part.file] == group
            &&& part.bytes == group.len() * s.key_len
        },
    }
}

/// The partition files of the bucket being partitioned hold its routed keys.
pub open spec fn slots_ok(s: PassState, d: Disk) -> bool {
    forall|v: int| 0 <= v < BYTE_VALUES ==> #[trigger] slot_ok(s, d, v)
}

/// No two slots have the same file, and none has that of a bucket.
spec fn slots_apart(s: PassState) -> bool {
    &&& forall|v: int, w: int|
        #![trigger s.slots[v], s.slots[w]]
        0 <= v < w < BYTE_VALUES ==> (s.slots[v] matches Some(a) ==> (s.slots[w] matches Some(b)
            ==> a.file != b.file))
    &&& forall|v: int, i: int|
        #![trigger s.slots[v], s.tasks[i]]
        0 <= v < BYTE_VALUES && 0 <= i < s.tasks.len() ==> (s.slots[v] matches Some(part) ==> (
        s.tasks[i] matches Task::Sort(bucket) ==> bucket.file != BucketFile::Partition(part.file)))
}

/// What every state of a run has in common.
spec fn holds_throughout(s: PassState, d: Disk) -> bool {
    &&& s.wf()
    &&& tasks_ok(s, d)
    &&& removes_ok(s.tasks)
    &&& s.action() is Split ==> slots_ok(s, d)
    &&& slots_apart(s)
}

/// The output so far and what the tasks will still contribute to it.
spec fn promised(s: PassState, d: Disk) -> Seq<u8> {
    d.out + remaining(s.tasks, d, s.prefix_len).flatten()
}

/// Buckets whose files did not change still contribute the same.
proof fn lemma_remaining_same(tasks: Seq<Task>, d: Disk, d2: Disk, prefix_len: int)
    requires
        d.spill == d2.spill,
        forall|i: int|
            0 <= i < tasks.len() ==> (#[trigger] tasks[i] matches Task::Sort(bucket) ==> d.keys_in(
                bucket.file,
            ) == d2.keys_in(bucket.file)),
    ensures
        remaining(tasks, d, prefix_len) == remaining(tasks, d2, prefix_len),
    decreases tasks.len(),
{
    if tasks.len() > 0 {
        let init = tasks.drop_last();
        assert forall|i: int| 0 <= i < init.len() implies (#[trigger] init[i] matches Task::Sort(
            bucket,
        ) ==> d.keys_in(bucket.file) == d2.keys_in(bucket.file)) by {
            assert(init[i] == tasks[i]);
        }
        assert(tasks.last() == tasks[tasks.len() - 1]);
        lemma_remaining_same(init, d, d2, prefix_len);
    }
}

proof fn lemma_start(
    keys: Seq<Seq<u8>>,
    key_len: int,
    prefix_len: int,
    max_bucket_bytes: int,
)
    requires
        0 < prefix_len <= key_len <= usize::MAX,
        0 <= max_bucket_bytes <= u64::MAX,
        all_have_len(keys, key_len),
        keys.len() * key_len <= u64::MAX,
    ensures
        holds_throughout(
            PassState::start(key_len, prefix_len, max_bucket_bytes),
            Disk { spill: keys, partitions: Map::empty(), out: Seq::empty() },
        ),
        promised(
            PassState::start(key_len, prefix_len, max_bucket_bytes),
            Disk { spill: keys, partitions: Map::empty(), out: Seq::empty() },
        ) == emission(keys, prefix_len).flatten(),
{
    let s = PassState::start(key_len, prefix_len, max_bucket_bytes);
    let d = Disk { spill: keys, partitions: Map::empty(), out: Seq::empty() };
    assert(s.tasks.drop_last() =~= Seq::<Task>::empty());
    reveal_with_fuel(remaining, 2);
    let all = emission(keys, prefix_len);
    assert(all + Seq::<Seq<u8>>::empty() =~= all);
    assert(d.out + remaining(s.tasks, d, prefix_len).flatten() =~= all.flatten());
}

/// Dropping the last task keeps what holds of the others.
proof fn lemma_popped(s: PassState, d: Disk)
    requires
        s.wf(),
        s.tasks.len() > 0,
        !(s.action() is Split),
        tasks_ok(s, d),
        removes_ok(s.tasks),
    ensures
        s.popped().wf(),
        tasks_ok(s.popped(), d),
        removes_ok(s.popped().tasks),
        slots_apart(s.popped()),
        s.popped().action() is Split ==> slots_ok(s.popped(), d),
{
    let t = s.popped();
    assert forall|i: int| 0 <= i < t.tasks.len() implies (#[trigger] t.tasks[i] matches Task::Sort(
        bucket,
    ) ==> bucket_ok(t, d, bucket)) by {
        assert(t.tasks[i] == s.tasks[i]);
    }
    assert forall|i: int| 0 <= i < t.tasks.len() implies !(#[trigger] t.tasks[i] is Measure) by {
        assert(t.tasks[i] == s.tasks[i]);
    }
    if t.action() is Split {
        assert forall|v: int| 0 <= v < BYTE_VALUES implies #[trigger] slot_ok(t, d, v) by {
            assert(d.keys_in(t.bucket().file).take(0) =~= Seq::<Seq<u8>>::empty());
        }
    }
}

proof fn lemma_measure_step(s: PassState, d: Disk, s2: PassState, d2: Disk)
    requires
        holds_throughout(s, d),
        s.action() is Measure,
        step(s, d, s2, d2),
    ensures
        holds_throughout(s2, d2),
        promised(s2, d2) == promised(s, d),
{
    assert(s.tasks[s.tasks.len() - 1] is Measure);
    assert(s.tasks.drop_last() =~= Seq::<Task>::empty());
    assert(s2.tasks.drop_last() =~= Seq::<Task>::empty());
    reveal_with_fuel(remaining, 2);
    let keys = d.spill;
    let size = keys.len() * s.key_len;
    assert(0 <= size) by (nonlinear_arith)
        requires
            size == keys.len() * s.key_len,
            s.key_len >= 0,
    ;
    lemma_strides_of_flatten(keys, s.key_len);
    assert(s2.tasks[0] == Task::Sort(
        Bucket { file: BucketFile::Spill, size: size as u64, depth: 0 },
    ));
    if s2.action() is Split {
        assert forall|v: int| 0 <= v < BYTE_VALUES implies #[trigger] slot_ok(s2, d2, v) by {
            assert(d2.keys_in(s2.bucket().file).take(0) =~= Seq::<Seq<u8>>::empty());
        }
    }
}

/// Emitting what the last bucket contributes keeps the sum.
proof fn lemma_emit(tasks: Seq<Task>, d: Disk, bucket: Bucket, prefix_len: int)
    requires
        tasks.len() > 0,
        tasks.last() == Task::Sort(bucket),
    ensures
        remaining(tasks, d, prefix_len).flatten() == emission(
            d.keys_in(bucket.file),
            prefix_len,
        ).flatten() + remaining(tasks.drop_last(), d, prefix_len).flatten(),
{
    vstd::seq_lib::lemma_flatten_concat(
        emission(d.keys_in(bucket.file), prefix_len),
        remaining(tasks.drop_last(), d, prefix_len),
    );
}

proof fn lemma_load_step(s: PassState, d: Disk, s2: PassState, d2: Disk)
    requires
        holds_throughout(s, d),
        s.action() is Load,
        step(s, d, s2, d2),
    ensures
        holds_throughout(s2, d2),
        promised(s2, d2) == promised(s, d),
{
    let p = s.prefix_len;
    assert(s.tasks[s.tasks.len() - 1] == Task::Sort(s.bucket()));
    lemma_strides_of_flatten(d.keys_in(s.bucket().file), s.key_len);
    lemma_popped(s, d);
    lemma_emit(s.tasks, d, s.bucket(), p);
    lemma_remaining_same(s2.tasks, d, d2, p);
    lemma_only_out_changed(s2, d, d2);
    let emitted = emission(d.keys_in(s.bucket().file), p).flatten();
    let later = remaining(s2.tasks, d, p).flatten();
    assert(d.out + (emitted + later) =~= (d.out + emitted) + later);
}

proof fn lemma_sample_step(s: PassState, d: Disk, s2: PassState, d2: Disk)
    requires
        holds_throughout(s, d),
        s.action() is Sample,
        step(s, d, s2, d2),
    ensures
        holds_throughout(s2, d2),
        promised(s2, d2) == promised(s, d),
{
    let p = s.prefix_len;
    let bucket = s.bucket();
    let held = d.keys_in(bucket.file);
    assert(s.tasks[s.tasks.len() - 1] == Task::Sort(bucket));
    assert(bucket_ok(s, d, bucket));
    assert(held.len() > 0) by (nonlinear_arith)
        requires
            held.len() * s.key_len == bucket.size,
            bucket.size > 0,
    ;
    lemma_shared_prefix_emission(held, s.key_len, p);
    let only = seq![held[0].take(p)];
    only.lemma_flatten_one_element();
    lemma_popped(s, d);
    lemma_emit(s.tasks, d, bucket, p);
    lemma_remaining_same(s2.tasks, d, d2, p);
    lemma_only_out_changed(s2, d, d2);
    let later = remaining(s2.tasks, d, p).flatten();
    assert(d.out + (held[0].take(p) + later) =~= (d.out + held[0].take(p)) + later);
}

/// What is said of buckets and slots does not speak of the output.
proof fn lemma_only_out_changed(s: PassState, d: Disk, d2: Disk)
    requires
        d2.spill == d.spill,
        d2.partitions == d.partitions,
        tasks_ok(s, d),
        s.action() is Split ==> slots_ok(s, d),
    ensures
        tasks_ok(s, d2),
        s.action() is Split ==> slots_ok(s, d2),
{
    assert forall|file: BucketFile| #[trigger] d2.keys_in(file) == d.keys_in(file) by {}
    assert forall|i: int| 0 <= i < s.tasks.len() implies (#[trigger] s.tasks[i] matches Task::Sort(
        bucket,
    ) ==> bucket_ok(s, d2, bucket)) by {
        if let Task::Sort(bucket) = s.tasks[i] {
            assert(bucket_ok(s, d, bucket));
        }
    }
    if s.action() is Split {
        assert forall|v: int| 0 <= v < BYTE_VALUES implies #[trigger] slot_ok(s, d2, v) by {
            assert(slot_ok(s, d, v));
        }
    }
}

proof fn lemma_remove_step(s: PassState, d: Disk, s2: PassState, d2: Disk)
    requires
        holds_throughout(s, d),
        s.action() is Remove,
        step(s, d, s2, d2),
    ensures
        holds_throughout(s2, d2),
        promised(s2, d2) == promised(s, d),
{
    let p = s.prefix_len;
    let n = s.tasks.len() - 1;
    let gone = s.tasks[n]->Remove_0;
    assert(s.tasks[n] == Task::Remove(gone));
    lemma_popped(s, d);
    assert forall|i: int| 0 <= i < s2.tasks.len() implies (#[trigger] s2.tasks[i]
        matches Task::Sort(bucket) ==> bucket_ok(s2, d2, bucket) && d.keys_in(bucket.file)
        == d2.keys_in(bucket.file)) by {
        assert(s2.tasks[i] == s.tasks[i]);
        if let Task::Sort(bucket) = s2.tasks[i] {
            assert(bucket_ok(s2, d, bucket));
            assert(bucket.file != BucketFile::Partition(gone));
        }
    }
    lemma_remaining_same(s2.tasks, d, d2, p);
    if s2.action() is Split {
        assert(s2.tasks[s2.tasks.len() - 1] == Task::Sort(s2.bucket()));
        assert forall|v: int| 0 <= v < BYTE_VALUES implies #[trigger] slot_ok(s2, d2, v) by {
            assert(slot_ok(s2, d, v));
        }
    }
}

/// A bucket of whole keys has as many keys as its size says.
proof fn lemma_bucket_keys(s: PassState, d: Disk)
    requires
        s.wf(),
        tasks_ok(s, d),
        s.action() is Split,
    ensures
        s.tasks[s.tasks.len() - 1] == Task::Sort(s.bucket()),
        bucket_ok(s, d, s.bucket()),
        s.bucket_keys() == d.keys_in(s.bucket().file).len(),
        s.bucket().depth < s.prefix_len,
        d.keys_in(s.bucket().file).len() > 0,
{
    let bucket = s.bucket();
    let held = d.keys_in(bucket.file);
    assert(s.tasks[s.tasks.len() - 1] == Task::Sort(bucket));
    lemma_whole_strides(held.len() as int, s.key_len);
    assert(held.len() > 0) by (nonlinear_arith)
        requires
            held.len() * s.key_len == bucket.size,
            bucket.size > 0,
    ;
}

/// One more key routed: its group has it in addition, the others are as before.
proof fn lemma_routed_groups(held: Seq<Seq<u8>>, routed: int, depth: int, value: int)
    requires
        0 <= routed < held.len(),
    ensures
        byte_group(held.take(routed + 1), depth, value) == if held[routed][depth] == value {
            byte_group(held.take(routed), depth, value).push(held[routed])
        } else {
            byte_group(held.take(routed), depth, value)
        },
{
    assert(held.take(routed + 1).drop_last() =~= held.take(routed));
}

proof fn lemma_route_step(s: PassState, d: Disk, s2: PassState, d2: Disk)
    requires
        holds_throughout(s, d),
        s.action() is Split,
        s.routed < s.bucket_keys(),
        step(s, d, s2, d2),
    ensures
        holds_throughout(s2, d2),
        promised(s2, d2) == promised(s, d),
{
    lemma_bucket_keys(s, d);
    let n = s.key_len;
    let bucket = s.bucket();
    let depth = bucket.depth as int;
    let held = d.keys_in(bucket.file);
    let key = held[s.routed];
    let byte = key[depth];
    let b = byte as int;
    let file = s.grown(byte).file;
    assert(slot_ok(s, d, b));
    assert(s2.tasks == s.tasks);
    assert(s2.action() == s.action() && s2.bucket() == bucket);
    // The file is that of no bucket.
    assert forall|i: int| 0 <= i < s.tasks.len() implies (#[trigger] s.tasks[i] matches Task::Sort(
        other,
    ) ==> other.file != BucketFile::Partition(file) && d.keys_in(other.file) == d2.keys_in(
        other.file,
    ) && bucket_ok(s2, d2, other)) by {
        if let Task::Sort(other) = s.tasks[i] {
            assert(bucket_ok(s, d, other));
            if s.slots[b] is Some {
                assert(other.file != BucketFile::Partition(file));
            }
        }
    }
    assert(d2.keys_in(bucket.file) == held);
    lemma_remaining_same(s.tasks, d, d2, s.prefix_len);
    // The sizes stay within the bucket's.
    let group = routed_group(s, d, b);
    lemma_byte_group(held.take(s.routed), depth, b);
    assert(group.len() * n + n == (group.len() + 1) * n && (group.len() + 1) * n <= (s.routed + 1)
        * n && (s.routed + 1) * n <= held.len() * n) by (nonlinear_arith)
        requires
            group.len() <= s.routed,
            s.routed < held.len(),
            n >= 0,
    ;
    assert forall|v: int| 0 <= v < BYTE_VALUES implies #[trigger] slot_ok(s2, d2, v) by {
        assert(slot_ok(s, d, v));
        lemma_routed_groups(held, s.routed, depth, v);
        if v != b {
            assert(s2.slots[v] == s.slots[v]);
            if let Some(part) = s.slots[v] {
                if s.slots[b] is Some {
                    assert(part.file != file) by {
                        if v < b {
                            assert(s.slots[v]->0.file != s.slots[b]->0.file);
                        } else {
                            assert(s.slots[b]->0.file != s.slots[v]->0.file);
                        }
                    }
                }
                assert(d2.partitions[part.file] == d.partitions[part.file]);
            }
        } else {
            assert(d2.partitions[file] == routed_group(s2, d2, b)) by {
                if s.slots[b] is None {
                    assert(group =~= Seq::empty());
                }
            }
        }
    }
    assert(slots_apart(s2)) by {
        assert forall|v: int, w: int|
            #![trigger s2.slots[v], s2.slots[w]]
            0 <= v < w < BYTE_VALUES implies (s2.slots[v] matches Some(x) ==> (s2.slots[w]
            matches Some(y) ==> x.file != y.file)) by {
            assert(slot_ok(s, d, v) && slot_ok(s, d, w));
            assert(v != b ==> s2.slots[v] == s.slots[v]);
            assert(w != b ==> s2.slots[w] == s.slots[w]);
            assert(s.slots[v] is Some && s.slots[w] is Some ==> s.slots[v]->0.file
                != s.slots[w]->0.file);
        }
        assert forall|v: int, i: int|
            #![trigger s2.slots[v], s2.tasks[i]]
            0 <= v < BYTE_VALUES && 0 <= i < s2.tasks.len() implies (s2.slots[v] matches Some(part)
            ==> (s2.tasks[i] matches Task::Sort(other) ==> other.file != BucketFile::Partition(
            part.file,
        ))) by {
            assert(s2.tasks[i] == s.tasks[i]);
            assert(v != b ==> s2.slots[v] == s.slots[v]);
        }
    }
    assert(s2.wf()) by {
        assert forall|v: int| 0 <= v < BYTE_VALUES implies (#[trigger] s2.slots[v] matches Some(
            part,
        ) ==> part.bytes <= s2.routed * s2.key_len) by {
            assert(slot_ok(s2, d2, v));
            lemma_byte_group(held.take(s2.routed), depth, v);
            let now = routed_group(s2, d2, v);
            assert(now.len() * n <= s2.routed * n) by (nonlinear_arith)
                requires
                    now.len() <= s2.routed,
                    n >= 0,
            ;
        }
    }
}

/// Each child task is about the file of one of the slots.
proof fn lemma_child_of(slots: Seq<Option<Partition>>, depth: usize, i: int) -> (v: int)
    requires
        0 <= i < child_tasks(slots, depth).len(),
    ensures
        0 <= v < slots.len(),
        slots[v] is Some,
        child_tasks(slots, depth)[i] == Task::Remove(slots[v]->0.file) || child_tasks(
            slots,
            depth,
        )[i] == Task::Sort(
            Bucket {
                file: BucketFile::Partition(slots[v]->0.file),
                size: slots[v]->0.bytes,
                depth,
            },
        ),
    decreases slots.len(),
{
    let rest = slots.drop_first();
    let later = child_tasks(rest, depth);
    if i < later.len() {
        let w = lemma_child_of(rest, depth, i);
        assert(slots[w + 1] == rest[w]);
        w + 1
    } else {
        0
    }
}

/// Among child tasks with distinct files, none is removed before it is sorted.
proof fn lemma_child_removes(slots: Seq<Option<Partition>>, depth: usize)
    requires
        forall|v: int, w: int|
            #![trigger slots[v], slots[w]]
            0 <= v < w < slots.len() ==> (slots[v] matches Some(a) ==> (slots[w] matches Some(b)
                ==> a.file != b.file)),
    ensures
        removes_ok(child_tasks(slots, depth)),
    decreases slots.len(),
{
    if slots.len() > 0 {
        let rest = slots.drop_first();
        let later = child_tasks(rest, depth);
        let all = child_tasks(slots, depth);
        assert forall|v: int, w: int|
            #![trigger rest[v], rest[w]]
            0 <= v < w < rest.len() implies (rest[v] matches Some(a) ==> (rest[w] matches Some(b)
            ==> a.file != b.file)) by {
            assert(rest[v] == slots[v + 1] && rest[w] == slots[w + 1]);
        }
        lemma_child_removes(rest, depth);
        assert forall|i: int, j: int|
            #![trigger all[i], all[j]]
            0 <= i < j < all.len() implies (all[i] matches Task::Sort(bucket) ==> (all[j]
            matches Task::Remove(id) ==> bucket.file != BucketFile::Partition(id))) by {
            if j < later.len() {
                assert(all[i] == later[i] && all[j] == later[j]);
            } else if i < later.len() {
                let w = lemma_child_of(rest, depth, i);
                assert(all[i] == later[i]);
                assert(rest[w] == slots[w + 1]);
                assert(slots[0]->0.file != slots[w + 1]->0.file);
            }
        }
    }
}

/// The child tasks contribute what the groups of the bucket contribute, in ascending order.
proof fn lemma_child_remaining(
    base: Seq<Task>,
    s: PassState,
    d: Disk,
    depth: usize,
    value: int,
)
    requires
        s.slots.len() == BYTE_VALUES,
        0 <= value <= BYTE_VALUES,
        slots_ok(s, d),
        s.routed == d.keys_in(s.bucket().file).len(),
    ensures
        remaining(base + child_tasks(s.slots.skip(value), depth), d, s.prefix_len) == groups_from(
            d.keys_in(s.bucket().file),
            s.bucket().depth as int,
            value,
            s.prefix_len,
        ) + remaining(base, d, s.prefix_len),
    decreases BYTE_VALUES - value,
{
    let p = s.prefix_len;
    let held = d.keys_in(s.bucket().file);
    let at = s.bucket().depth as int;
    let slots = s.slots.skip(value);
    let tasks = base + child_tasks(slots, depth);
    if value == BYTE_VALUES {
        assert(slots =~= Seq::empty());
        assert(tasks =~= base);
        assert(groups_from(held, at, value, p) =~= Seq::empty());
        assert(Seq::<Seq<u8>>::empty() + remaining(base, d, p) =~= remaining(base, d, p));
    } else {
        let later = base + child_tasks(s.slots.skip(value + 1), depth);
        lemma_child_remaining(base, s, d, depth, value + 1);
        assert(slots.drop_first() =~= s.slots.skip(value + 1));
        assert(slots.first() == s.slots[value]);
        assert(slot_ok(s, d, value));
        assert(held.take(s.routed) =~= held);
        let group = byte_group(held, at, value);
        match s.slots[value] {
            None => {
                assert(tasks =~= later);
                assert(group =~= Seq::empty());
                lemma_empty_emission(p);
                assert(groups_from(held, at, value, p) =~= groups_from(held, at, value + 1, p));
            },
            Some(part) => {
                let bucket = Bucket {
                    file: BucketFile::Partition(part.file),
                    size: part.bytes,
                    depth,
                };
                let mid = later.push(Task::Remove(part.file));
                assert(tasks =~= mid.push(Task::Sort(bucket)));
                assert(tasks.drop_last() =~= mid);
                assert(mid.drop_last() =~= later);
                assert(remaining(mid, d, p) == remaining(later, d, p));
                assert(remaining(tasks, d, p) == emission(group, p) + remaining(later, d, p));
                assert(emission(group, p) + (groups_from(held, at, value + 1, p) + remaining(
                    base,
                    d,
                    p,
                )) =~= groups_from(held, at, value, p) + remaining(base, d, p));
            },
        }
    }
}

/// No keys, no entries.
proof fn lemma_empty_emission(prefix_len: int)
    ensures
        emission(Seq::empty(), prefix_len) == Seq::<Seq<u8>>::empty(),
{
    crate::radix::lemma_emission(Seq::empty(), prefix_len);
    let none = emission(Seq::empty(), prefix_len);
    if none.len() > 0 {
        let j = crate::radix::lemma_emitted_from(Seq::empty(), prefix_len, 0);
    }
    assert(none =~= Seq::empty());
}

proof fn lemma_partition_step(s: PassState, d: Disk, s2: PassState, d2: Disk)
    requires
        holds_throughout(s, d),
        s.action() is Split,
        s.routed >= s.bucket_keys(),
        step(s, d, s2, d2),
    ensures
        holds_throughout(s2, d2),
        promised(s2, d2) == promised(s, d),
{
    lemma_bucket_keys(s, d);
    let p = s.prefix_len;
    let bucket = s.bucket();
    let at = bucket.depth as int;
    let depth = (bucket.depth + 1) as usize;
    let held = d.keys_in(bucket.file);
    let base = s.tasks.drop_last();
    let children = child_tasks(s.slots, depth);
    let now = base + children;
    assert(s2.tasks == now);
    assert(held.take(s.routed) =~= held);
    assert forall|i: int| 0 <= i < now.len() implies (#[trigger] now[i] matches Task::Sort(b)
        ==> bucket_ok(s2, d2, b)) && !(now[i] is Measure) by {
        if i < base.len() {
            assert(now[i] == s.tasks[i]);
        } else {
            let v = lemma_child_of(s.slots, depth, i - base.len());
            assert(now[i] == children[i - base.len()]);
            assert(slot_ok(s, d, v));
            lemma_group_shares(held, s.key_len, at, v);
        }
    }
    assert(removes_ok(now)) by {
        lemma_child_removes(s.slots, depth);
        assert forall|i: int, j: int|
            #![trigger now[i], now[j]]
            0 <= i < j < now.len() implies (now[i] matches Task::Sort(b) ==> (now[j]
            matches Task::Remove(id) ==> b.file != BucketFile::Partition(id))) by {
            if j < base.len() {
                assert(now[i] == s.tasks[i] && now[j] == s.tasks[j]);
            } else {
                assert(now[j] == children[j - base.len()]);
                if i < base.len() {
                    assert(now[i] == s.tasks[i]);
                    let v = lemma_child_of(s.slots, depth, j - base.len());
                    assert(s.slots[v] is Some && 0 <= v < BYTE_VALUES);
                } else {
                    assert(now[i] == children[i - base.len()]);
                }
            }
        }
    }
    assert(s.slots.skip(0) =~= s.slots);
    lemma_child_remaining(base, s, d, depth, 0);
    lemma_partition_sorts(held, s.key_len, at, p);
    assert(remaining(now, d, p) == remaining(s.tasks, d, p));
    assert(s2.wf()) by {
        assert forall|i: int| 0 <= i < now.len() implies (#[trigger] now[i] matches Task::Sort(b)
            ==> b.depth <= p) by {
            if let Task::Sort(b) = now[i] {
                assert(bucket_ok(s2, d2, b));
            }
        }
        if s2.action() is Split {
            let last = s2.tasks[s2.tasks.len() - 1];
            assert(bucket_ok(s2, d2, s2.bucket()));
            vstd::arithmetic::div_mod::lemma_div_pos_is_pos(
                s2.bucket().size as int,
                s2.key_len,
            );
        }
    }
    if s2.action() is Split {
        assert forall|v: int| 0 <= v < BYTE_VALUES implies #[trigger] slot_ok(s2, d2, v) by {
            assert(d2.keys_in(s2.bucket().file).take(0) =~= Seq::<Seq<u8>>::empty());
        }
    }
}

proof fn lemma_step(s: PassState, d: Disk, s2: PassState, d2: Disk)
    requires
        holds_throughout(s, d),
        step(s, d, s2, d2),
    ensures
        holds_throughout(s2, d2),
        promised(s2, d2) == promised(s, d),
        s2.key_len == s.key_len,
        s2.prefix_len == s.prefix_len,
        s2.max_bucket_bytes == s.max_bucket_bytes,
{
    match s.action() {
        Action::Measure => lemma_measure_step(s, d, s2, d2),
        Action::Load { .. } => lemma_load_step(s, d, s2, d2),
        Action::Sample { .. } => lemma_sample_step(s, d, s2, d2),
        Action::Split { .. } => if s.routed < s.bucket_keys() {
            lemma_route_step(s, d, s2, d2)
        } else {
            lemma_partition_step(s, d, s2, d2)
        },
        Action::Remove { .. } => lemma_remove_step(s, d, s2, d2),
        Action::Finish => {},
    }
}

proof fn lemma_run(
    run: Seq<(PassState, Disk)>,
    keys: Seq<Seq<u8>>,
    key_len: int,
    prefix_len: int,
    max_bucket_bytes: int,
    i: int,
)
    requires
        is_run(run, keys, key_len, prefix_len, max_bucket_bytes),
        0 < prefix_len <= key_len <= usize::MAX,
        0 <= max_bucket_bytes <= u64::MAX,
        all_have_len(keys, key_len),
        keys.len() * key_len <= u64::MAX,
        0 <= i < run.len(),
    ensures
        holds_throughout(run[i].0, run[i].1),
        promised(run[i].0, run[i].1) == emission(keys, prefix_len).flatten(),
        run[i].0.key_len == key_len,
        run[i].0.prefix_len == prefix_len,
        run[i].0.max_bucket_bytes == max_bucket_bytes,
    decreases i,
{
    if i == 0 {
        lemma_start(keys, key_len, prefix_len, max_bucket_bytes);
    } else {
        lemma_run(run, keys, key_len, prefix_len, max_bucket_bytes, i - 1);
        assert(step(run[i - 1].0, run[i - 1].1, run[i - 1 + 1].0, run[i - 1 + 1].1));
        lemma_step(run[i - 1].0, run[i - 1].1, run[i].0, run[i].1);
    }
}

/// A run that has come to its end has put out the distinct prefixes of the spilled keys, in
/// ascending order, and nothing else.
pub proof fn law_run_emits_sorted_prefixes(
    run: Seq<(PassState, Disk)>,
    keys: Seq<Seq<u8>>,
    key_len: int,
    prefix_len: int,
    max_bucket_bytes: int,
)
    requires
        is_run(run, keys, key_len, prefix_len, max_bucket_bytes),
        run.last().0.action() is Finish,
        0 < prefix_len <= key_len <= usize::MAX,
        0 <= max_bucket_bytes <= u64::MAX,
        all_have_len(keys, key_len),
        keys.len() * key_len <= u64::MAX,
    ensures
        run.last().1.out == emission(keys, prefix_len).flatten(),
{
    let n = run.len() - 1;
    lemma_run(run, keys, key_len, prefix_len, max_bucket_bytes, n);
    let (s, d) = run[n];
    assert(s.tasks =~= Seq::empty()) by {
        if s.tasks.len() > 0 {
            assert(s.action() is Finish);
        }
    }
    assert(remaining(s.tasks, d, prefix_len) =~= Seq::empty());
    assert(d.out + Seq::<u8>::empty() =~= d.out);
}

/// A run that begins with the sorting of a bucket, any bucket whose file holds what it should, and
/// goes on until that is done at the latest: it is done when fewer tasks are left than at first.
pub open spec fn is_bucket_run(run: Seq<(PassState, Disk)>, bucket: Bucket) -> bool {
    &&& run.len() > 0
    &&& run[0].0.wf()
    &&& run[0].0.tasks.len() > 0
    &&& run[0].0.tasks.last() == Task::Sort(bucket)
    &&& run[0].0.routed == 0
    &&& run[0].0.slots == empty_slots()
    &&& bucket_ok(run[0].0, run[0].1, bucket)
    &&& forall|i: int|
        #![trigger run[i]]
        0 <= i < run.len() - 1 ==> {
            &&& run[0].0.tasks.len() <= run[i].0.tasks.len()
            &&& step(run[i].0, run[i].1, run[i + 1].0, run[i + 1].1)
        }
}

/// The state without its first `base` tasks, which are the last to be done.
spec fn above(s: PassState, base: int) -> PassState {
    PassState { tasks: s.tasks.skip(base), ..s }
}

/// Tasks other than the next make no difference to a step, and stay as they are.
proof fn lemma_step_above(s: PassState, d: Disk, s2: PassState, d2: Disk, base: int)
    requires
        0 <= base < s.tasks.len(),
        step(s, d, s2, d2),
    ensures
        step(above(s, base), d, above(s2, base), d2),
        base <= s2.tasks.len(),
        s2.tasks.take(base) == s.tasks.take(base),
{
    let a = above(s, base);
    let a2 = above(s2, base);
    assert(a.tasks.last() == s.tasks.last());
    assert(a.action() == s.action());
    assert(s2.tasks.take(base) =~= s.tasks.take(base));
    match s.action() {
        Action::Measure => {
            let spilled = d.bytes_in(BucketFile::Spill).len() as u64;
            assert(a2.tasks =~= a.measured(spilled).tasks);
        },
        Action::Load { .. } => {
            assert(a2.tasks =~= a.popped().tasks);
        },
        Action::Sample { .. } => {
            assert(a2.tasks =~= a.popped().tasks);
        },
        Action::Split { .. } => {
            if s.routed >= s.bucket_keys() {
                assert(a2.tasks =~= a.partitioned().tasks);
            }
        },
        Action::Remove { .. } => {
            assert(a2.tasks =~= a.popped().tasks);
        },
        Action::Finish => {},
    }
}

/// What holds throughout a run holds of the tasks above the first `base` alone, as long as there
/// are any.
proof fn lemma_above(run: Seq<(PassState, Disk)>, base: int, i: int, j: int)
    requires
        0 <= i <= j < run.len(),
        0 <= base <= run[i].0.tasks.len(),
        forall|k: int|
            #![trigger run[k]]
            i <= k < j ==> base < run[k].0.tasks.len() && step(
                run[k].0,
                run[k].1,
                run[k + 1].0,
                run[k + 1].1,
            ),
        holds_throughout(above(run[i].0, base), run[i].1),
    ensures
        holds_throughout(above(run[j].0, base), run[j].1),
        promised(above(run[j].0, base), run[j].1) == promised(above(run[i].0, base), run[i].1),
        base <= run[j].0.tasks.len(),
        run[j].0.tasks.take(base) == run[i].0.tasks.take(base),
    decreases j,
{
    if i < j {
        lemma_above(run, base, i, j - 1);
        let (s, d) = run[j - 1];
        let (s2, d2) = run[j - 1 + 1];
        assert(step(s, d, s2, d2));
        lemma_step_above(s, d, s2, d2, base);
        lemma_step(above(s, base), d, above(s2, base), d2);
    }
}

/// The beginning of a bucket run, looked at alone.
proof fn lemma_bucket_run_start(s: PassState, d: Disk, bucket: Bucket)
    requires
        s.wf(),
        s.tasks.len() > 0,
        s.tasks.last() == Task::Sort(bucket),
        s.routed == 0,
        s.slots == empty_slots(),
        bucket_ok(s, d, bucket),
    ensures
        holds_throughout(above(s, s.tasks.len() - 1), d),
{
    let a = above(s, s.tasks.len() - 1);
    assert(a.tasks =~= seq![Task::Sort(bucket)]);
    assert(a.action() == s.action());
    assert forall|v: int| 0 <= v < BYTE_VALUES implies #[trigger] slot_ok(a, d, v) by {
        assert(d.keys_in(bucket.file).take(0) =~= Seq::<Seq<u8>>::empty());
    }
}

/// What a bucket alone promises, and what is there once it is done.
proof fn lemma_bucket_done(run: Seq<(PassState, Disk)>, i: int, j: int, bucket: Bucket)
    requires
        0 <= i < j < run.len(),
        run[i].0.tasks.len() > 0,
        run[i].0.tasks.last() == Task::Sort(bucket),
        holds_throughout(above(run[i].0, run[i].0.tasks.len() - 1), run[i].1),
        forall|k: int|
            #![trigger run[k]]
            i <= k < j ==> run[i].0.tasks.len() <= run[k].0.tasks.len() && step(
                run[k].0,
                run[k].1,
                run[k + 1].0,
                run[k + 1].1,
            ),
        run[j].0.tasks.len() < run[i].0.tasks.len(),
    ensures
        run[j].0.tasks == run[i].0.tasks.drop_last(),
        run[j].1.out == run[i].1.out + emission(
            run[i].1.keys_in(bucket.file),
            run[i].0.prefix_len,
        ).flatten(),
{
    let (s, d) = run[i];
    let (s2, d2) = run[j];
    let base = s.tasks.len() - 1;
    lemma_above(run, base, i, j);
    let a = above(s, base);
    let a2 = above(s2, base);
    assert(s2.tasks =~= s.tasks.drop_last()) by {
        assert(s2.tasks =~= s2.tasks.take(base));
    }
    assert(a.tasks =~= seq![Task::Sort(bucket)]);
    assert(a.tasks.drop_last() =~= Seq::<Task>::empty());
    assert(a2.tasks =~= Seq::<Task>::empty());
    lemma_emit(a.tasks, d, bucket, s.prefix_len);
    assert(remaining(Seq::empty(), d, s.prefix_len).flatten() =~= Seq::<u8>::empty());
    assert(remaining(a2.tasks, d2, a2.prefix_len).flatten() =~= Seq::<u8>::empty());
    assert(promised(a2, d2) =~= d2.out);
    assert(promised(a, d) =~= d.out + emission(
        d.keys_in(bucket.file),
        s.prefix_len,
    ).flatten());
}

/// Sorting a bucket whose keys share their first bytes, however many and in whatever file, puts
/// out the distinct prefixes of its keys in ascending order, and nothing else; the tasks that
/// were left before are left after.
pub proof fn law_bucket_emits_sorted_prefixes(run: Seq<(PassState, Disk)>, bucket: Bucket)
    requires
        is_bucket_run(run, bucket),
        run.last().0.tasks.len() < run[0].0.tasks.len(),
    ensures
        run.last().0.tasks == run[0].0.tasks.drop_last(),
        run.last().1.out == run[0].1.out + emission(
            run[0].1.keys_in(bucket.file),
            run[0].0.prefix_len,
        ).flatten(),
{
    lemma_bucket_run_start(run[0].0, run[0].1, bucket);
    lemma_bucket_done(run, 0, run.len() - 1, bucket);
}

/// While a bucket is being sorted, each bucket that comes up, itself or a partition of it, holds
/// what it should; and where one is being partitioned, the keys routed so far are in the partition
/// files of their bytes, in the order they had, with no file for a byte that no key has.
pub proof fn law_partitions_hold_their_keys(
    run: Seq<(PassState, Disk)>,
    bucket: Bucket,
    i: int,
)
    requires
        is_bucket_run(run, bucket),
        0 <= i < run.len(),
        run[0].0.tasks.len() <= run[i].0.tasks.len(),
    ensures
        run[i].0.tasks.last() matches Task::Sort(current) ==> bucket_ok(
            run[i].0,
            run[i].1,
            current,
        ),
        run[i].0.action() is Split ==> slots_ok(run[i].0, run[i].1),
{
    let base = run[0].0.tasks.len() - 1;
    lemma_bucket_run_start(run[0].0, run[0].1, bucket);
    lemma_above(run, base, 0, i);
    let (s, d) = run[i];
    let a = above(s, base);
    assert(a.tasks[a.tasks.len() - 1] == s.tasks.last());
    assert(a.action() == s.action());
    if let Task::Sort(current) = s.tasks.last() {
        assert(bucket_ok(a, d, current));
    }
    if s.action() is Split {
        assert forall|v: int| 0 <= v < BYTE_VALUES implies #[trigger] slot_ok(s, d, v) by {
            assert(slot_ok(a, d, v));
        }
    }
}

/// In a run over spilled keys, whenever a bucket is next to be sorted: once that is done, the
/// distinct prefixes of its keys have been put out, in ascending order, and nothing else.
pub proof fn law_run_emits_each_bucket(
    run: Seq<(PassState, Disk)>,
    keys: Seq<Seq<u8>>,
    key_len: int,
    prefix_len: int,
    max_bucket_bytes: int,
    bucket: Bucket,
    i: int,
    j: int,
)
    requires
        is_run(run, keys, key_len, prefix_len, max_bucket_bytes),
        0 < prefix_len <= key_len <= usize::MAX,
        0 <= max_bucket_bytes <= u64::MAX,
        all_have_len(keys, key_len),
        keys.len() * key_len <= u64::MAX,
        0 <= i < j < run.len(),
        run[i].0.tasks.len() > 0,
        run[i].0.tasks.last() == Task::Sort(bucket),
        forall|k: int|
            #![trigger run[k]]
            i <= k < j ==> run[i].0.tasks.len() <= run[k].0.tasks.len(),
        run[j].0.tasks.len() < run[i].0.tasks.len(),
    ensures
        run[j].0.tasks == run[i].0.tasks.drop_last(),
        run[j].1.out == run[i].1.out + emission(
            run[i].1.keys_in(bucket.file),
            prefix_len,
        ).flatten(),
{
    lemma_run(run, keys, key_len, prefix_len, max_bucket_bytes, i);
    let (s, d) = run[i];
    let base = s.tasks.len() - 1;
    let a = above(s, base);
    assert(s.tasks[base] == Task::Sort(bucket));
    assert(a.tasks =~= seq![Task::Sort(bucket)]);
    assert(a.action() == s.action());
    assert(holds_throughout(a, d)) by {
        assert(bucket_ok(s, d, bucket));
        if s.action() is Split {
            assert forall|v: int| 0 <= v < BYTE_VALUES implies #[trigger] slot_ok(a, d, v) by {
                assert(slot_ok(s, d, v));
            }
        }
        assert(slots_apart(a)) by {
            assert forall|v: int, t: int|
                #![trigger a.slots[v], a.tasks[t]]
                0 <= v < BYTE_VALUES && 0 <= t < a.tasks.len() implies (a.slots[v] matches Some(
                part,
            ) ==> (a.tasks[t] matches Task::Sort(other) ==> other.file != BucketFile::Partition(
                part.file,
            ))) by {
                assert(a.tasks[t] == s.tasks[base]);
            }
        }
    }
    lemma_bucket_done(run, i, j, bucket);
}

/// How many actions a bucket of `count` keys can take that has `left` bytes to be split by.
pub open spec fn bucket_actions(count: int, left: int) -> int {
    (if count == 0 {
        1
    } else {
        count
    }) * (3 * left + 1)
}

/// How many actions the tasks can take.
spec fn task_actions(tasks: Seq<Task>, d: Disk, prefix_len: int) -> int
    decreases tasks.len(),
{
    if tasks.len() == 0 {
        0
    } else {
        task_actions(tasks.drop_last(), d, prefix_len) + match tasks.last() {
            Task::Measure => 1 + bucket_actions(d.spill.len() as int, prefix_len),
            Task::Sort(bucket) => bucket_actions(
                d.keys_in(bucket.file).len() as int,
                prefix_len - bucket.depth,
            ),
            Task::Remove(_) => 1,
        }
    }
}

/// How many keys have a byte of at least `value`.
spec fn keys_from(keys: Seq<Seq<u8>>, depth: int, value: int) -> nat
    decreases BYTE_VALUES - value,
{
    if value >= BYTE_VALUES {
        0
    } else {
        byte_group(keys, depth, value).len() + keys_from(keys, depth, value + 1)
    }
}

proof fn lemma_keys_from_last(keys: Seq<Seq<u8>>, depth: int, value: int)
    requires
        keys.len() > 0,
        0 <= value <= BYTE_VALUES,
    ensures
        keys_from(keys, depth, value) == keys_from(keys.drop_last(), depth, value)
            + if keys.last()[depth] >= value {
            1nat
        } else {
            0nat
        },
    decreases BYTE_VALUES - value,
{
    if value < BYTE_VALUES {
        lemma_keys_from_last(keys, depth, value + 1);
    }
}

proof fn lemma_keys_from_zero(keys: Seq<Seq<u8>>, depth: int)
    ensures
        keys_from(keys, depth, 0) == keys.len(),
    decreases keys.len(),
{
    if keys.len() == 0 {
        lemma_keys_from_none(keys, depth, 0);
    } else {
        lemma_keys_from_last(keys, depth, 0);
        lemma_keys_from_zero(keys.drop_last(), depth);
    }
}

proof fn lemma_keys_from_none(keys: Seq<Seq<u8>>, depth: int, value: int)
    requires
        keys.len() == 0,
        0 <= value <= BYTE_VALUES,
    ensures
        keys_from(keys, depth, value) == 0,
    decreases BYTE_VALUES - value,
{
    if value < BYTE_VALUES {
        lemma_keys_from_none(keys, depth, value + 1);
    }
}

/// A bucket takes at least one action, and one for each of its keys.
proof fn lemma_bucket_actions(count: int, left: int)
    requires
        0 <= count,
        0 <= left,
    ensures
        bucket_actions(count, left) >= 1,
        bucket_actions(count, left) >= count,
{
    let n = if count == 0 {
        1
    } else {
        count
    };
    assert(n * (3 * left + 1) >= n) by (nonlinear_arith)
        requires
            n >= 1,
            left >= 0,
    ;
}

proof fn lemma_task_actions_nonneg(s: PassState, d: Disk, tasks: Seq<Task>)
    requires
        0 <= s.prefix_len,
        forall|i: int|
            0 <= i < tasks.len() ==> (#[trigger] tasks[i] matches Task::Sort(bucket)
                ==> bucket.depth <= s.prefix_len),
    ensures
        task_actions(tasks, d, s.prefix_len) >= 0,
    decreases tasks.len(),
{
    if tasks.len() > 0 {
        let init = tasks.drop_last();
        assert forall|i: int| 0 <= i < init.len() implies (#[trigger] init[i] matches Task::Sort(
            bucket,
        ) ==> bucket.depth <= s.prefix_len) by {
            assert(init[i] == tasks[i]);
        }
        lemma_task_actions_nonneg(s, d, init);
        assert(tasks.last() == tasks[tasks.len() - 1]);
        match tasks.last() {
            Task::Measure => lemma_bucket_actions(d.spill.len() as int, s.prefix_len),
            Task::Sort(bucket) => lemma_bucket_actions(
                d.keys_in(bucket.file).len() as int,
                s.prefix_len - bucket.depth,
            ),
            Task::Remove(_) => {},
        }
    }
}

proof fn lemma_task_actions_same(tasks: Seq<Task>, d: Disk, d2: Disk, prefix_len: int)
    requires
        d.spill == d2.spill,
        forall|i: int|
            0 <= i < tasks.len() ==> (#[trigger] tasks[i] matches Task::Sort(bucket) ==> d.keys_in(
                bucket.file,
            ) == d2.keys_in(bucket.file)),
    ensures
        task_actions(tasks, d, prefix_len) == task_actions(tasks, d2, prefix_len),
    decreases tasks.len(),
{
    if tasks.len() > 0 {
        let init = tasks.drop_last();
        assert forall|i: int| 0 <= i < init.len() implies (#[trigger] init[i] matches Task::Sort(
            bucket,
        ) ==> d.keys_in(bucket.file) == d2.keys_in(bucket.file)) by {
            assert(init[i] == tasks[i]);
        }
        assert(tasks.last() == tasks[tasks.len() - 1]);
        lemma_task_actions_same(init, d, d2, prefix_len);
    }
}

/// Sorting and removing the partitions takes fewer actions than the bucket had left.
proof fn lemma_child_actions(base: Seq<Task>, s: PassState, d: Disk, depth: usize, value: int)
    requires
        s.slots.len() == BYTE_VALUES,
        0 <= value <= BYTE_VALUES,
        slots_ok(s, d),
        s.routed == d.keys_in(s.bucket().file).len(),
        depth <= s.prefix_len,
    ensures
        task_actions(base + child_tasks(s.slots.skip(value), depth), d, s.prefix_len)
            <= task_actions(base, d, s.prefix_len) + keys_from(
            d.keys_in(s.bucket().file),
            s.bucket().depth as int,
            value,
        ) * (3 * (s.prefix_len - depth) + 2),
    decreases BYTE_VALUES - value,
{
    let p = s.prefix_len;
    let held = d.keys_in(s.bucket().file);
    let at = s.bucket().depth as int;
    let slots = s.slots.skip(value);
    let tasks = base + child_tasks(slots, depth);
    let rate = 3 * (p - depth) + 2;
    let total = keys_from(held, at, value) as int;
    if value == BYTE_VALUES {
        assert(slots =~= Seq::empty());
        assert(tasks =~= base);
        assert(total * rate == 0) by (nonlinear_arith)
            requires
                total == 0,
        ;
    } else {
        let later = base + child_tasks(s.slots.skip(value + 1), depth);
        lemma_child_actions(base, s, d, depth, value + 1);
        assert(slots.drop_first() =~= s.slots.skip(value + 1));
        assert(slots.first() == s.slots[value]);
        assert(slot_ok(s, d, value));
        assert(held.take(s.routed) =~= held);
        let group = byte_group(held, at, value);
        let rest = keys_from(held, at, value + 1) as int;
        let g = group.len() as int;
        assert(total * rate == g * rate + rest * rate) by (nonlinear_arith)
            requires
                total == g + rest,
        ;
        match s.slots[value] {
            None => {
                assert(tasks =~= later);
                assert(g * rate == 0) by (nonlinear_arith)
                    requires
                        g == 0,
                ;
            },
            Some(part) => {
                let bucket = Bucket {
                    file: BucketFile::Partition(part.file),
                    size: part.bytes,
                    depth,
                };
                let mid = later.push(Task::Remove(part.file));
                assert(tasks =~= mid.push(Task::Sort(bucket)));
                assert(tasks.drop_last() =~= mid);
                assert(mid.drop_last() =~= later);
                assert(d.keys_in(bucket.file) == group);
                assert(task_actions(mid, d, p) == task_actions(later, d, p) + 1);
                assert(task_actions(tasks, d, p) == task_actions(mid, d, p) + bucket_actions(
                    g,
                    p - depth,
                ));
                assert(1 + g * (3 * (p - depth) + 1) <= g * rate) by (nonlinear_arith)
                    requires
                        rate == 3 * (p - depth) + 2,
                        g >= 1,
                ;
            },
        }
    }
}

/// Each action leaves fewer to be done.
proof fn lemma_step_progress(s: PassState, d: Disk, s2: PassState, d2: Disk)
    requires
        holds_throughout(s, d),
        step(s, d, s2, d2),
    ensures
        task_actions(s2.tasks, d2, s2.prefix_len) - s2.routed < task_actions(
            s.tasks,
            d,
            s.prefix_len,
        ) - s.routed,
{
    let p = s.prefix_len;
    let n = s.tasks.len() - 1;
    match s.action() {
        Action::Measure => {
            assert(s2.tasks.drop_last() =~= s.tasks.drop_last());
        },
        Action::Load { .. } => {
            assert(s.tasks[n] == Task::Sort(s.bucket()));
            lemma_bucket_actions(d.keys_in(s.bucket().file).len() as int, p - s.bucket().depth);
            lemma_task_actions_same(s2.tasks, d, d2, p);
        },
        Action::Sample { .. } => {
            assert(s.tasks[n] == Task::Sort(s.bucket()));
            lemma_bucket_actions(d.keys_in(s.bucket().file).len() as int, p - s.bucket().depth);
            lemma_task_actions_same(s2.tasks, d, d2, p);
        },
        Action::Split { .. } => {
            lemma_bucket_keys(s, d);
            let held = d.keys_in(s.bucket().file);
            if s.routed < s.bucket_keys() {
                let byte = held[s.routed][s.bucket().depth as int];
                let file = s.grown(byte).file;
                assert(slot_ok(s, d, byte as int));
                assert forall|i: int| 0 <= i < s.tasks.len() implies (#[trigger] s.tasks[i]
                    matches Task::Sort(other) ==> d.keys_in(other.file) == d2.keys_in(
                    other.file,
                )) by {
                    if let Task::Sort(other) = s.tasks[i] {
                        assert(bucket_ok(s, d, other));
                        if s.slots[byte as int] is Some {
                            assert(other.file != BucketFile::Partition(file));
                        }
                    }
                }
                lemma_task_actions_same(s.tasks, d, d2, p);
            } else {
                let at = s.bucket().depth as int;
                let depth = (s.bucket().depth + 1) as usize;
                let base = s.tasks.drop_last();
                assert(s.slots.skip(0) =~= s.slots);
                lemma_child_actions(base, s, d, depth, 0);
                lemma_keys_from_zero(held, at);
                let count = held.len() as int;
                let left = p - at;
                assert(count * (3 * (left - 1) + 2) < count * (3 * left + 1) - count)
                    by (nonlinear_arith)
                    requires
                        count >= 1,
                ;
            }
        },
        Action::Remove { partition } => {
            assert(s.tasks[n] == Task::Remove(partition));
            assert forall|i: int| 0 <= i < s2.tasks.len() implies (#[trigger] s2.tasks[i]
                matches Task::Sort(bucket) ==> d.keys_in(bucket.file) == d2.keys_in(
                bucket.file,
            )) by {
                assert(s2.tasks[i] == s.tasks[i]);
                if let Task::Sort(bucket) = s2.tasks[i] {
                    assert(bucket.file != BucketFile::Partition(partition));
                }
            }
            lemma_task_actions_same(s2.tasks, d, d2, p);
        },
        Action::Finish => {},
    }
}

proof fn lemma_run_progress(
    run: Seq<(PassState, Disk)>,
    keys: Seq<Seq<u8>>,
    key_len: int,
    prefix_len: int,
    max_bucket_bytes: int,
    i: int,
)
    requires
        is_run(run, keys, key_len, prefix_len, max_bucket_bytes),
        0 < prefix_len <= key_len <= usize::MAX,
        0 <= max_bucket_bytes <= u64::MAX,
        all_have_len(keys, key_len),
        keys.len() * key_len <= u64::MAX,
        0 <= i < run.len(),
    ensures
        task_actions(run[i].0.tasks, run[i].1, prefix_len) - run[i].0.routed + i <= 1
            + bucket_actions(keys.len() as int, prefix_len),
    decreases i,
{
    if i == 0 {
        let (s, d) = run[0];
        assert(s.tasks.drop_last() =~= Seq::<Task>::empty());
        reveal_with_fuel(task_actions, 2);
    } else {
        lemma_run_progress(run, keys, key_len, prefix_len, max_bucket_bytes, i - 1);
        lemma_run(run, keys, key_len, prefix_len, max_bucket_bytes, i - 1);
        lemma_run(run, keys, key_len, prefix_len, max_bucket_bytes, i);
        assert(step(run[i - 1].0, run[i - 1].1, run[i - 1 + 1].0, run[i - 1 + 1].1));
        lemma_step_progress(run[i - 1].0, run[i - 1].1, run[i].0, run[i].1);
    }
}

/// No run goes on forever: the number of its actions is bounded by the number of keys and the
/// prefix length.
pub proof fn law_run_is_bounded(
    run: Seq<(PassState, Disk)>,
    keys: Seq<Seq<u8>>,
    key_len: int,
    prefix_len: int,
    max_bucket_bytes: int,
)
    requires
        is_run(run, keys, key_len, prefix_len, max_bucket_bytes),
        0 < prefix_len <= key_len <= usize::MAX,
        0 <= max_bucket_bytes <= u64::MAX,
        all_have_len(keys, key_len),
        keys.len() * key_len <= u64::MAX,
    ensures
        run.len() - 1 <= 1 + bucket_actions(keys.len() as int, prefix_len),
{
    let n = run.len() - 1;
    lemma_run(run, keys, key_len, prefix_len, max_bucket_bytes, n);
    lemma_run_progress(run, keys, key_len, prefix_len, max_bucket_bytes, n);
    let (s, d) = run[n];
    lemma_task_actions_nonneg(s, d, s.tasks);
    if s.action() is Split {
        lemma_bucket_keys(s, d);
        let base = s.tasks.drop_last();
        assert forall|i: int| 0 <= i < base.len() implies (#[trigger] base[i] matches Task::Sort(
            bucket,
        ) ==> bucket.depth <= s.prefix_len) by {
            assert(base[i] == s.tasks[i]);
        }
        lemma_task_actions_nonneg(s, d, base);
        lemma_bucket_actions(
            d.keys_in(s.bucket().file).len() as int,
            s.prefix_len - s.bucket().depth,
        );
    }
}

/// How many times the tasks can route a key: each key of a bucket once per byte that is left to
/// split by.
spec fn task_routes(tasks: Seq<Task>, d: Disk, prefix_len: int) -> int
    decreases tasks.len(),
{
    if tasks.len() == 0 {
        0
    } else {
        task_routes(tasks.drop_last(), d, prefix_len) + match tasks.last() {
            Task::Measure => d.spill.len() * prefix_len,
            Task::Sort(bucket) => d.keys_in(bucket.file).len() * (prefix_len - bucket.depth),
            Task::Remove(_) => 0,
        }
    }
}

proof fn lemma_task_routes_nonneg(tasks: Seq<Task>, d: Disk, prefix_len: int)
    requires
        0 <= prefix_len,
        forall|i: int|
            0 <= i < tasks.len() ==> (#[trigger] tasks[i] matches Task::Sort(bucket)
                ==> bucket.depth <= prefix_len),
    ensures
        task_routes(tasks, d, prefix_len) >= 0,
    decreases tasks.len(),
{
    if tasks.len() > 0 {
        let init = tasks.drop_last();
        assert forall|i: int| 0 <= i < init.len() implies (#[trigger] init[i] matches Task::Sort(
            bucket,
        ) ==> bucket.depth <= prefix_len) by {
            assert(init[i] == tasks[i]);
        }
        lemma_task_routes_nonneg(init, d, prefix_len);
        assert(tasks.last() == tasks[tasks.len() - 1]);
        match tasks.last() {
            Task::Measure => vstd::arithmetic::mul::lemma_mul_nonnegative(
                d.spill.len() as int,
                prefix_len,
            ),
            Task::Sort(bucket) => vstd::arithmetic::mul::lemma_mul_nonnegative(
                d.keys_in(bucket.file).len() as int,
                prefix_len - bucket.depth,
            ),
            Task::Remove(_) => {},
        }
    }
}

proof fn lemma_task_routes_same(tasks: Seq<Task>, d: Disk, d2: Disk, prefix_len: int)
    requires
        d.spill == d2.spill,
        forall|i: int|
            0 <= i < tasks.len() ==> (#[trigger] tasks[i] matches Task::Sort(bucket) ==> d.keys_in(
                bucket.file,
            ) == d2.keys_in(bucket.file)),
    ensures
        task_routes(tasks, d, prefix_len) == task_routes(tasks, d2, prefix_len),
    decreases tasks.len(),
{
    if tasks.len() > 0 {
        let init = tasks.drop_last();
        assert forall|i: int| 0 <= i < init.len() implies (#[trigger] init[i] matches Task::Sort(
            bucket,
        ) ==> d.keys_in(bucket.file) == d2.keys_in(bucket.file)) by {
            assert(init[i] == tasks[i]);
        }
        assert(tasks.last() == tasks[tasks.len() - 1]);
        lemma_task_routes_same(init, d, d2, prefix_len);
    }
}

/// The partitions have the bucket's keys, with one byte less to split by.
proof fn lemma_child_routes(base: Seq<Task>, s: PassState, d: Disk, depth: usize, value: int)
    requires
        s.slots.len() == BYTE_VALUES,
        0 <= value <= BYTE_VALUES,
        slots_ok(s, d),
        s.routed == d.keys_in(s.bucket().file).len(),
    ensures
        task_routes(base + child_tasks(s.slots.skip(value), depth), d, s.prefix_len)
            == task_routes(base, d, s.prefix_len) + keys_from(
            d.keys_in(s.bucket().file),
            s.bucket().depth as int,
            value,
        ) * (s.prefix_len - depth),
    decreases BYTE_VALUES - value,
{
    let p = s.prefix_len;
    let held = d.keys_in(s.bucket().file);
    let at = s.bucket().depth as int;
    let slots = s.slots.skip(value);
    let tasks = base + child_tasks(slots, depth);
    let left = p - depth;
    let total = keys_from(held, at, value) as int;
    if value == BYTE_VALUES {
        assert(slots =~= Seq::empty());
        assert(tasks =~= base);
        vstd::arithmetic::mul::lemma_mul_basics(left);
    } else {
        let later = base + child_tasks(s.slots.skip(value + 1), depth);
        lemma_child_routes(base, s, d, depth, value + 1);
        assert(slots.drop_first() =~= s.slots.skip(value + 1));
        assert(slots.first() == s.slots[value]);
        assert(slot_ok(s, d, value));
        assert(held.take(s.routed) =~= held);
        let g = byte_group(held, at, value).len() as int;
        let rest = keys_from(held, at, value + 1) as int;
        vstd::arithmetic::mul::lemma_mul_is_distributive_add_other_way(left, g, rest);
        match s.slots[value] {
            None => {
                assert(tasks =~= later);
                vstd::arithmetic::mul::lemma_mul_basics(left);
            },
            Some(part) => {
                let bucket = Bucket {
                    file: BucketFile::Partition(part.file),
                    size: part.bytes,
                    depth,
                };
                let mid = later.push(Task::Remove(part.file));
                assert(tasks =~= mid.push(Task::Sort(bucket)));
                assert(tasks.drop_last() =~= mid);
                assert(mid.drop_last() =~= later);
                assert(task_routes(mid, d, p) == task_routes(later, d, p));
            },
        }
    }
}

/// Each new file is made for a key that is routed, and no step adds to what is left to route.
proof fn lemma_step_routes(s: PassState, d: Disk, s2: PassState, d2: Disk)
    requires
        holds_throughout(s, d),
        step(s, d, s2, d2),
    ensures
        s2.next_file + task_routes(s2.tasks, d2, s2.prefix_len) - s2.routed <= s.next_file
            + task_routes(s.tasks, d, s.prefix_len) - s.routed,
{
    let p = s.prefix_len;
    let n = s.tasks.len() - 1;
    match s.action() {
        Action::Measure => {
            assert(s2.tasks.drop_last() =~= s.tasks.drop_last());
        },
        Action::Split { .. } => {
            lemma_bucket_keys(s, d);
            let held = d.keys_in(s.bucket().file);
            if s.routed < s.bucket_keys() {
                let byte = held[s.routed][s.bucket().depth as int];
                let file = s.grown(byte).file;
                assert(slot_ok(s, d, byte as int));
                assert forall|i: int| 0 <= i < s.tasks.len() implies (#[trigger] s.tasks[i]
                    matches Task::Sort(other) ==> d.keys_in(other.file) == d2.keys_in(
                    other.file,
                )) by {
                    if let Task::Sort(other) = s.tasks[i] {
                        assert(bucket_ok(s, d, other));
                        if s.slots[byte as int] is Some {
                            assert(other.file != BucketFile::Partition(file));
                        }
                    }
                }
                lemma_task_routes_same(s.tasks, d, d2, p);
            } else {
                let at = s.bucket().depth as int;
                let depth = (s.bucket().depth + 1) as usize;
                assert(s.slots.skip(0) =~= s.slots);
                lemma_child_routes(s.tasks.drop_last(), s, d, depth, 0);
                lemma_keys_from_zero(held, at);
                vstd::arithmetic::mul::lemma_mul_is_distributive_sub(
                    held.len() as int,
                    p - at,
                    1,
                );
            }
        },
        Action::Finish => {},
        _ => {
            assert forall|i: int| 0 <= i < s2.tasks.len() implies (#[trigger] s2.tasks[i]
                matches Task::Sort(bucket) ==> d.keys_in(bucket.file) == d2.keys_in(
                bucket.file,
            )) by {
                assert(s2.tasks[i] == s.tasks[i]);
                assert(s.tasks[n] == s.tasks.last());
            }
            lemma_task_routes_same(s2.tasks, d, d2, p);
            assert(s.tasks[n] == s.tasks.last());
            if let Task::Sort(bucket) = s.tasks.last() {
                vstd::arithmetic::mul::lemma_mul_nonnegative(
                    d.keys_in(bucket.file).len() as int,
                    p - bucket.depth,
                );
            }
        },
    }
}

proof fn lemma_run_routes(
    run: Seq<(PassState, Disk)>,
    keys: Seq<Seq<u8>>,
    key_len: int,
    prefix_len: int,
    max_bucket_bytes: int,
    i: int,
)
    requires
        is_run(run, keys, key_len, prefix_len, max_bucket_bytes),
        0 < prefix_len <= key_len <= usize::MAX,
        0 <= max_bucket_bytes <= u64::MAX,
        all_have_len(keys, key_len),
        keys.len() * key_len <= u64::MAX,
        0 <= i < run.len(),
    ensures
        run[i].0.next_file + task_routes(run[i].0.tasks, run[i].1, prefix_len) - run[i].0.routed
            <= keys.len() * prefix_len,
    decreases i,
{
    if i == 0 {
        let (s, d) = run[0];
        assert(s.tasks.drop_last() =~= Seq::<Task>::empty());
        reveal_with_fuel(task_routes, 2);
    } else {
        lemma_run_routes(run, keys, key_len, prefix_len, max_bucket_bytes, i - 1);
        lemma_run(run, keys, key_len, prefix_len, max_bucket_bytes, i - 1);
        lemma_run(run, keys, key_len, prefix_len, max_bucket_bytes, i);
        assert(step(run[i - 1].0, run[i - 1].1, run[i - 1 + 1].0, run[i - 1 + 1].1));
        lemma_step_routes(run[i - 1].0, run[i - 1].1, run[i].0, run[i].1);
    }
}

/// A run makes no more partition files than there are bytes in the prefixes of its keys together.
/// So the numbers for them do not run out: every key of a bucket being partitioned can be routed.
pub proof fn law_file_numbers_suffice(
    run: Seq<(PassState, Disk)>,
    keys: Seq<Seq<u8>>,
    key_len: int,
    prefix_len: int,
    max_bucket_bytes: int,
    i: int,
)
    requires
        is_run(run, keys, key_len, prefix_len, max_bucket_bytes),
        0 < prefix_len <= key_len <= usize::MAX,
        0 <= max_bucket_bytes <= u64::MAX,
        all_have_len(keys, key_len),
        keys.len() * key_len <= u64::MAX,
        0 <= i < run.len(),
    ensures
        run[i].0.next_file <= keys.len() * prefix_len,
        run[i].0.action() is Split && run[i].0.routed < run[i].0.bucket_keys() ==> forall|byte: u8|
            #[trigger] run[i].0.accepts(byte),
{
    lemma_run(run, keys, key_len, prefix_len, max_bucket_bytes, i);
    lemma_run_routes(run, keys, key_len, prefix_len, max_bucket_bytes, i);
    vstd::arithmetic::mul::lemma_mul_inequality(prefix_len, key_len, keys.len() as int);
    vstd::arithmetic::mul::lemma_mul_is_commutative(prefix_len, keys.len() as int);
    vstd::arithmetic::mul::lemma_mul_is_commutative(key_len, keys.len() as int);
    let (s, d) = run[i];
    if s.action() is Split {
        lemma_bucket_keys(s, d);
        let base = s.tasks.drop_last();
        assert forall|t: int| 0 <= t < base.len() implies (#[trigger] base[t] matches Task::Sort(
            bucket,
        ) ==> bucket.depth <= s.prefix_len) by {
            assert(base[t] == s.tasks[t]);
        }
        lemma_task_routes_nonneg(base, d, s.prefix_len);
        let count = d.keys_in(s.bucket().file).len() as int;
        let left = s.prefix_len - s.bucket().depth;
        assert(count * left >= count) by (nonlinear_arith)
            requires
                count >= 0,
                left >= 1,
        ;
    } else {
        lemma_task_routes_nonneg(s.tasks, d, s.prefix_len);
    }
}

/// A run that has not come to its end can go on.
pub proof fn law_run_can_go_on(
    run: Seq<(PassState, Disk)>,
    keys: Seq<Seq<u8>>,
    key_len: int,
    prefix_len: int,
    max_bucket_bytes: int,
)
    requires
        is_run(run, keys, key_len, prefix_len, max_bucket_bytes),
        !(run.last().0.action() is Finish),
        0 < prefix_len <= key_len <= usize::MAX,
        0 <= max_bucket_bytes <= u64::MAX,
        all_have_len(keys, key_len),
        keys.len() * key_len <= u64::MAX,
    ensures
        exists|s2: PassState, d2: Disk| step(run.last().0, run.last().1, s2, d2),
{
    law_file_numbers_suffice(run, keys, key_len, prefix_len, max_bucket_bytes, run.len() - 1);
    let (s, d) = run.last();
    match s.action() {
        Action::Measure => {
            assert(step(s, d, s.measured(d.bytes_in(BucketFile::Spill).len() as u64), d));
        },
        Action::Load { file, size } => {
            let keys = strides(d.bytes_in(file), s.key_len);
            let out = d.out + emission(keys, s.prefix_len).flatten();
            assert(step(s, d, s.popped(), Disk { out, ..d }));
        },
        Action::Sample { file } => {
            let out = d.out + d.keys_in(file)[0].take(s.prefix_len);
            assert(step(s, d, s.popped(), Disk { out, ..d }));
        },
        Action::Split { file, size } => {
            if s.routed < s.bucket_keys() {
                let key = d.keys_in(file)[s.routed];
                let byte = key[s.bucket().depth as int];
                let created = s.slots[byte as int] is None;
                assert(s.accepts(byte));
                assert(step(
                    s,
                    d,
                    s.routed_by(byte),
                    d.appended(s.grown(byte).file, created, key),
                ));
            } else {
                assert(step(s, d, s.partitioned(), d));
            }
        },
        Action::Remove { partition } => {
            let partitions = d.partitions.remove(partition);
            assert(step(s, d, s.popped(), Disk { partitions, ..d }));
        },
        Action::Finish => {},
    }
}

/// A bucket that is loaded holds no more bytes than allowed, and just those that are asked for.
pub proof fn law_loaded_bucket_fits(
    run: Seq<(PassState, Disk)>,
    keys: Seq<Seq<u8>>,
    key_len: int,
    prefix_len: int,
    max_bucket_bytes: int,
    i: int,
)
    requires
        is_run(run, keys, key_len, prefix_len, max_bucket_bytes),
        0 < prefix_len <= key_len <= usize::MAX,
        0 <= max_bucket_bytes <= u64::MAX,
        all_have_len(keys, key_len),
        keys.len() * key_len <= u64::MAX,
        0 <= i < run.len(),
    ensures
        run[i].0.action() matches Action::Load { file, size } ==> {
            &&& size <= max_bucket_bytes
            &&& run[i].1.keys_in(file).len() * key_len == size
        },
{
    lemma_run(run, keys, key_len, prefix_len, max_bucket_bytes, i);
    let s = run[i].0;
    if s.action() is Load {
        assert(s.tasks[s.tasks.len() - 1] == Task::Sort(s.bucket()));
    }
}

/// The file is still to be removed, or belongs to the bucket being partitioned.
spec fn accounted_for(s: PassState, id: u64) -> bool {
    ||| exists|i: int| 0 <= i < s.tasks.len() && #[trigger] s.tasks[i] == Task::Remove(id)
    ||| exists|v: int|
        0 <= v < BYTE_VALUES && (#[trigger] s.slots[v] matches Some(part) && part.file == id)
}

/// Partition files have old numbers and are all to be removed, each once.
spec fn files_ok(s: PassState, d: Disk) -> bool {
    &&& forall|id: u64| #[trigger]
        d.partitions.contains_key(id) ==> id < s.next_file && accounted_for(s, id)
    &&& forall|i: int|
        0 <= i < s.tasks.len() ==> (#[trigger] s.tasks[i] matches Task::Remove(id)
            ==> d.partitions.contains_key(id))
    &&& removed_once(s.tasks)
    &&& forall|v: int, i: int|
        #![trigger s.slots[v], s.tasks[i]]
        0 <= v < BYTE_VALUES && 0 <= i < s.tasks.len() ==> (s.slots[v] matches Some(part) ==> (
        s.tasks[i] matches Task::Remove(id) ==> id != part.file))
}

spec fn removed_once(tasks: Seq<Task>) -> bool {
    forall|i: int, j: int|
        #![trigger tasks[i], tasks[j]]
        0 <= i < j < tasks.len() ==> (tasks[i] matches Task::Remove(a) ==> (tasks[j]
            matches Task::Remove(b) ==> a != b))
}

/// Each partition file has a child task that removes it.
proof fn lemma_child_removed(slots: Seq<Option<Partition>>, depth: usize, v: int) -> (i: int)
    requires
        0 <= v < slots.len(),
        slots[v] is Some,
    ensures
        0 <= i < child_tasks(slots, depth).len(),
        child_tasks(slots, depth)[i] == Task::Remove(slots[v]->0.file),
    decreases slots.len(),
{
    let rest = slots.drop_first();
    let later = child_tasks(rest, depth);
    if v == 0 {
        later.len() as int
    } else {
        assert(rest[v - 1] == slots[v]);
        let i = lemma_child_removed(rest, depth, v - 1);
        assert(child_tasks(slots, depth)[i] == later[i]);
        i
    }
}

proof fn lemma_child_removed_once(slots: Seq<Option<Partition>>, depth: usize)
    requires
        forall|v: int, w: int|
            #![trigger slots[v], slots[w]]
            0 <= v < w < slots.len() ==> (slots[v] matches Some(a) ==> (slots[w] matches Some(b)
                ==> a.file != b.file)),
    ensures
        removed_once(child_tasks(slots, depth)),
    decreases slots.len(),
{
    if slots.len() > 0 {
        let rest = slots.drop_first();
        let later = child_tasks(rest, depth);
        let all = child_tasks(slots, depth);
        assert forall|v: int, w: int|
            #![trigger rest[v], rest[w]]
            0 <= v < w < rest.len() implies (rest[v] matches Some(a) ==> (rest[w] matches Some(b)
            ==> a.file != b.file)) by {
            assert(rest[v] == slots[v + 1] && rest[w] == slots[w + 1]);
        }
        lemma_child_removed_once(rest, depth);
        assert forall|i: int, j: int|
            #![trigger all[i], all[j]]
            0 <= i < j < all.len() implies (all[i] matches Task::Remove(a) ==> (all[j]
            matches Task::Remove(b) ==> a != b)) by {
            if j < later.len() {
                assert(all[i] == later[i] && all[j] == later[j]);
            } else if i < later.len() {
                let w = lemma_child_of(rest, depth, i);
                assert(all[i] == later[i]);
                assert(rest[w] == slots[w + 1]);
                assert(slots[0]->0.file != slots[w + 1]->0.file);
            }
        }
    }
}

/// Tasks other than the last are the same after it is done.
proof fn lemma_files_popped(s: PassState, d: Disk, s2: PassState, d2: Disk)
    requires
        s.wf(),
        s.tasks.len() > 0,
        !(s.action() is Split),
        files_ok(s, d),
        s2 == s.popped(),
        match s.tasks.last() {
            Task::Remove(id) => d2.partitions == d.partitions.remove(id),
            _ => d2.partitions == d.partitions,
        },
    ensures
        files_ok(s2, d2),
{
    let n = s.tasks.len() - 1;
    assert(s.tasks.last() == s.tasks[n]);
    assert forall|i: int| 0 <= i < n implies s2.tasks[i] == s.tasks[i] by {}
    assert forall|id: u64| #[trigger] d2.partitions.contains_key(id) implies id < s2.next_file
        && accounted_for(s2, id) by {
        assert(d.partitions.contains_key(id));
        assert(accounted_for(s, id));
        assert(forall|v: int| 0 <= v < BYTE_VALUES ==> #[trigger] s.slots[v] is None);
        let i = choose|i: int| 0 <= i < s.tasks.len() && #[trigger] s.tasks[i] == Task::Remove(id);
        assert(i < n);
        assert(s2.tasks[i] == Task::Remove(id));
    }
    assert forall|i: int| 0 <= i < s2.tasks.len() implies (#[trigger] s2.tasks[i]
        matches Task::Remove(id) ==> d2.partitions.contains_key(id)) by {
        assert(s2.tasks[i] == s.tasks[i]);
        if s.tasks[n] is Remove && s.tasks[i] is Remove {
            assert(s.tasks[i]->Remove_0 != s.tasks[n]->Remove_0);
        }
    }
}

proof fn lemma_files_step(s: PassState, d: Disk, s2: PassState, d2: Disk)
    requires
        holds_throughout(s, d),
        files_ok(s, d),
        step(s, d, s2, d2),
    ensures
        files_ok(s2, d2),
{
    match s.action() {
        Action::Measure => {
            assert(s.tasks[s.tasks.len() - 1] is Measure);
            assert forall|id: u64| !(#[trigger] d.partitions.contains_key(id)) by {
                if d.partitions.contains_key(id) {
                    assert(accounted_for(s, id));
                    assert(forall|v: int| 0 <= v < BYTE_VALUES ==> #[trigger] s.slots[v] is None);
                }
            }
        },
        Action::Load { .. } => lemma_files_popped(s, d, s2, d2),
        Action::Sample { .. } => lemma_files_popped(s, d, s2, d2),
        Action::Remove { .. } => lemma_files_popped(s, d, s2, d2),
        Action::Split { .. } => {
            lemma_bucket_keys(s, d);
            let held = d.keys_in(s.bucket().file);
            if s.routed < s.bucket_keys() {
                let byte = held[s.routed][s.bucket().depth as int];
                let b = byte as int;
                let file = s.grown(byte).file;
                assert(slot_ok(s, d, b));
                assert(s2.slots[b] == Some(s.grown(byte)));
                assert forall|id: u64| #[trigger] d2.partitions.contains_key(id) implies id
                    < s2.next_file && accounted_for(s2, id) by {
                    if id != file {
                        assert(d.partitions.contains_key(id));
                        assert(accounted_for(s, id));
                        if exists|i: int|
                            0 <= i < s.tasks.len() && #[trigger] s.tasks[i] == Task::Remove(id) {
                            let i = choose|i: int|
                                0 <= i < s.tasks.len() && #[trigger] s.tasks[i] == Task::Remove(
                                    id,
                                );
                            assert(s2.tasks[i] == Task::Remove(id));
                        } else {
                            let v = choose|v: int|
                                0 <= v < BYTE_VALUES && (#[trigger] s.slots[v] matches Some(part)
                                    && part.file == id);
                            assert(v != b);
                            assert(s2.slots[v] == s.slots[v]);
                        }
                    }
                }
                assert forall|v: int, i: int|
                    #![trigger s2.slots[v], s2.tasks[i]]
                    0 <= v < BYTE_VALUES && 0 <= i < s2.tasks.len() implies (s2.slots[v]
                    matches Some(part) ==> (s2.tasks[i] matches Task::Remove(id) ==> id
                    != part.file)) by {
                    assert(s2.tasks[i] == s.tasks[i]);
                    assert(v != b ==> s2.slots[v] == s.slots[v]);
                    if let Task::Remove(id) = s.tasks[i] {
                        assert(d.partitions.contains_key(id));
                        if s.slots[b] is Some {
                            assert(s.slots[b]->0.file != id);
                        }
                    }
                }
                assert forall|i: int| 0 <= i < s2.tasks.len() implies (#[trigger] s2.tasks[i]
                    matches Task::Remove(id) ==> d2.partitions.contains_key(id)) by {
                    assert(s2.tasks[i] == s.tasks[i]);
                }
            } else {
                lemma_files_partitioned(s, d, s2);
            }
        },
        Action::Finish => {},
    }
}

proof fn lemma_files_partitioned(s: PassState, d: Disk, s2: PassState)
    requires
        s.wf(),
        tasks_ok(s, d),
        s.action() is Split,
        slots_ok(s, d),
        slots_apart(s),
        files_ok(s, d),
        s2 == s.partitioned(),
    ensures
        files_ok(s2, d),
{
    lemma_bucket_keys(s, d);
    let depth = (s.bucket().depth + 1) as usize;
    let base = s.tasks.drop_last();
    let children = child_tasks(s.slots, depth);
    let now = base + children;
    assert(s2.tasks == now);
    assert forall|id: u64| #[trigger] d.partitions.contains_key(id) implies id < s2.next_file
        && accounted_for(s2, id) by {
        assert(accounted_for(s, id));
        if exists|i: int| 0 <= i < s.tasks.len() && #[trigger] s.tasks[i] == Task::Remove(id) {
            let i = choose|i: int|
                0 <= i < s.tasks.len() && #[trigger] s.tasks[i] == Task::Remove(id);
            assert(i < base.len());
            assert(s2.tasks[i] == Task::Remove(id));
        } else {
            let v = choose|v: int|
                0 <= v < BYTE_VALUES && (#[trigger] s.slots[v] matches Some(part) && part.file
                    == id);
            let i = lemma_child_removed(s.slots, depth, v);
            assert(s2.tasks[base.len() + i] == Task::Remove(id));
        }
    }
    assert forall|i: int| 0 <= i < now.len() implies (#[trigger] now[i] matches Task::Remove(id)
        ==> d.partitions.contains_key(id)) by {
        if i < base.len() {
            assert(now[i] == s.tasks[i]);
        } else {
            let v = lemma_child_of(s.slots, depth, i - base.len());
            assert(now[i] == children[i - base.len()]);
            assert(slot_ok(s, d, v));
        }
    }
    lemma_child_removed_once(s.slots, depth);
    assert forall|i: int, j: int|
        #![trigger now[i], now[j]]
        0 <= i < j < now.len() implies (now[i] matches Task::Remove(a) ==> (now[j]
        matches Task::Remove(b) ==> a != b)) by {
        if j < base.len() {
            assert(now[i] == s.tasks[i] && now[j] == s.tasks[j]);
        } else {
            assert(now[j] == children[j - base.len()]);
            if i < base.len() {
                assert(now[i] == s.tasks[i]);
                let v = lemma_child_of(s.slots, depth, j - base.len());
                assert(s.slots[v] is Some && 0 <= v < BYTE_VALUES);
            } else {
                assert(now[i] == children[i - base.len()]);
            }
        }
    }
}

proof fn lemma_run_files(
    run: Seq<(PassState, Disk)>,
    keys: Seq<Seq<u8>>,
    key_len: int,
    prefix_len: int,
    max_bucket_bytes: int,
    i: int,
)
    requires
        is_run(run, keys, key_len, prefix_len, max_bucket_bytes),
        0 < prefix_len <= key_len <= usize::MAX,
        0 <= max_bucket_bytes <= u64::MAX,
        all_have_len(keys, key_len),
        keys.len() * key_len <= u64::MAX,
        0 <= i < run.len(),
    ensures
        files_ok(run[i].0, run[i].1),
    decreases i,
{
    if i > 0 {
        lemma_run_files(run, keys, key_len, prefix_len, max_bucket_bytes, i - 1);
        lemma_run(run, keys, key_len, prefix_len, max_bucket_bytes, i - 1);
        assert(step(run[i - 1].0, run[i - 1].1, run[i - 1 + 1].0, run[i - 1 + 1].1));
        lemma_files_step(run[i - 1].0, run[i - 1].1, run[i].0, run[i].1);
    }
}

/// Throughout a run, a file that is to be read, appended to or removed exists, and one that is
/// to be created does not. When the run has come to its end, no partition file is left.
pub proof fn law_run_cleans_up(
    run: Seq<(PassState, Disk)>,
    keys: Seq<Seq<u8>>,
    key_len: int,
    prefix_len: int,
    max_bucket_bytes: int,
    i: int,
)
    requires
        is_run(run, keys, key_len, prefix_len, max_bucket_bytes),
        0 < prefix_len <= key_len <= usize::MAX,
        0 <= max_bucket_bytes <= u64::MAX,
        all_have_len(keys, key_len),
        keys.len() * key_len <= u64::MAX,
        0 <= i < run.len(),
    ensures
        ({
            let (s, d) = run[i];
            match s.action() {
                Action::Measure => true,
                Action::Load { file: BucketFile::Partition(id), size } =>
                    d.partitions.contains_key(id),
                Action::Sample { file: BucketFile::Partition(id) } =>
                    d.partitions.contains_key(id),
                Action::Split { file, size } => {
                    &&& file matches BucketFile::Partition(id) ==> d.partitions.contains_key(id)
                    &&& forall|byte: u8| #[trigger]
                        s.accepts(byte) ==> d.partitions.contains_key(s.grown(byte).file)
                            == s.slots[byte as int] is Some
                },
                Action::Remove { partition } => d.partitions.contains_key(partition),
                Action::Finish => d.partitions == Map::<u64, Seq<Seq<u8>>>::empty(),
                _ => true,
            }
        }),
{
    lemma_run(run, keys, key_len, prefix_len, max_bucket_bytes, i);
    lemma_run_files(run, keys, key_len, prefix_len, max_bucket_bytes, i);
    let (s, d) = run[i];
    if s.tasks.len() > 0 {
        assert(s.tasks[s.tasks.len() - 1] == s.tasks.last());
        if s.action() is Split {
            assert forall|byte: u8| #[trigger] s.accepts(byte) implies d.partitions.contains_key(
                s.grown(byte).file,
            ) == s.slots[byte as int] is Some by {
                assert(slot_ok(s, d, byte as int));
            }
        }
    } else {
        assert forall|id: u64| !(#[trigger] d.partitions.contains_key(id)) by {
            if d.partitions.contains_key(id) {
                assert(accounted_for(s, id));
                assert(forall|v: int| 0 <= v < BYTE_VALUES ==> #[trigger] s.slots[v] is None);
            }
        }
        assert(d.partitions =~= Map::<u64, Seq<Seq<u8>>>::empty());
    }
}

/// Whenever a bucket is next to be sorted, what is to be done with it is about all of it: the file
/// named holds just the bytes named, whole keys, and the build expects just as many keys. It is
/// loaded if and only if those bytes are within the limit; of a larger bucket one key is sampled
/// only if all its keys have the same prefix.
pub proof fn law_action_is_about_the_whole_bucket(
    run: Seq<(PassState, Disk)>,
    keys: Seq<Seq<u8>>,
    key_len: int,
    prefix_len: int,
    max_bucket_bytes: int,
    i: int,
)
    requires
        is_run(run, keys, key_len, prefix_len, max_bucket_bytes),
        0 < prefix_len <= key_len <= usize::MAX,
        0 <= max_bucket_bytes <= u64::MAX,
        all_have_len(keys, key_len),
        keys.len() * key_len <= u64::MAX,
        0 <= i < run.len(),
    ensures
        ({
            let (s, d) = run[i];
            &&& s.key_len == key_len
            &&& s.prefix_len == prefix_len
            &&& s.max_bucket_bytes == max_bucket_bytes
            &&& match s.action() {
                Action::Load { file, size } => {
                    &&& d.keys_in(file).len() * key_len == size
                    &&& d.bytes_in(file).len() == size
                    &&& strides(d.bytes_in(file), key_len) == d.keys_in(file)
                    &&& s.bucket_keys() == d.keys_in(file).len()
                    &&& size <= max_bucket_bytes
                },
                Action::Sample { file } => {
                    &&& d.keys_in(file).len() * key_len > max_bucket_bytes
                    &&& d.keys_in(file).len() > 0
                    &&& forall|a: int, b: int|
                        #![trigger d.keys_in(file)[a], d.keys_in(file)[b]]
                        0 <= a < d.keys_in(file).len() && 0 <= b < d.keys_in(file).len()
                            ==> d.keys_in(file)[a].take(prefix_len) == d.keys_in(file)[b].take(
                            prefix_len,
                        )
                },
                Action::Split { file, size } => {
                    &&& d.keys_in(file).len() * key_len == size
                    &&& d.bytes_in(file).len() == size
                    &&& strides(d.bytes_in(file), key_len) == d.keys_in(file)
                    &&& s.bucket_keys() == d.keys_in(file).len()
                    &&& size > max_bucket_bytes
                    &&& 0 <= s.routed <= d.keys_in(file).len()
                },
                _ => true,
            }
        }),
{
    lemma_run(run, keys, key_len, prefix_len, max_bucket_bytes, i);
    let (s, d) = run[i];
    if s.action() is Load || s.action() is Sample || s.action() is Split {
        let bucket = s.bucket();
        let held = d.keys_in(bucket.file);
        assert(s.tasks[s.tasks.len() - 1] == Task::Sort(bucket));
        assert(bucket_ok(s, d, bucket));
        lemma_whole_strides(held.len() as int, key_len);
        lemma_strides_of_flatten(held, key_len);
        if s.action() is Sample {
            assert(held.len() > 0) by (nonlinear_arith)
                requires
                    held.len() * key_len == bucket.size,
                    bucket.size > 0,
            ;
            assert forall|a: int, b: int|
                #![trigger held[a], held[b]]
                0 <= a < held.len() && 0 <= b < held.len() implies held[a].take(prefix_len)
                == held[b].take(prefix_len) by {
                assert(agree(held[a], held[b], prefix_len));
                assert(held[a].take(prefix_len) =~= held[b].take(prefix_len));
            }
        }
    }
}

/// Below each task that sorts a partition file stands the one that removes it.
spec fn removes_follow(tasks: Seq<Task>) -> bool {
    forall|t: int|
        0 <= t < tasks.len() ==> (#[trigger] tasks[t] matches Task::Sort(bucket) ==> (bucket.file
            matches BucketFile::Partition(id) ==> t > 0 && tasks[t - 1] == Task::Remove(id)))
}

proof fn lemma_child_removes_follow(slots: Seq<Option<Partition>>, depth: usize)
    ensures
        removes_follow(child_tasks(slots, depth)),
    decreases slots.len(),
{
    if slots.len() > 0 {
        let rest = slots.drop_first();
        let later = child_tasks(rest, depth);
        let all = child_tasks(slots, depth);
        lemma_child_removes_follow(rest, depth);
        assert forall|t: int| 0 <= t < all.len() implies (#[trigger] all[t] matches Task::Sort(
            bucket,
        ) ==> (bucket.file matches BucketFile::Partition(id) ==> t > 0 && all[t - 1]
            == Task::Remove(id))) by {
            if t < later.len() {
                assert(all[t] == later[t]);
                if t > 0 {
                    assert(all[t - 1] == later[t - 1]);
                }
            }
        }
    }
}

proof fn lemma_step_removes_follow(s: PassState, d: Disk, s2: PassState, d2: Disk)
    requires
        removes_follow(s.tasks),
        step(s, d, s2, d2),
    ensures
        removes_follow(s2.tasks),
{
    let now = s2.tasks;
    let base = s.tasks.drop_last();
    if s.action() is Split && s.routed >= s.bucket_keys() {
        let depth = (s.bucket().depth + 1) as usize;
        let children = child_tasks(s.slots, depth);
        lemma_child_removes_follow(s.slots, depth);
        assert(now == base + children);
        assert forall|t: int| 0 <= t < now.len() implies (#[trigger] now[t] matches Task::Sort(
            bucket,
        ) ==> (bucket.file matches BucketFile::Partition(id) ==> t > 0 && now[t - 1]
            == Task::Remove(id))) by {
            if t < base.len() {
                assert(now[t] == s.tasks[t]);
                if t > 0 {
                    assert(now[t - 1] == s.tasks[t - 1]);
                }
            } else {
                assert(now[t] == children[t - base.len()]);
                if t > base.len() {
                    assert(now[t - 1] == children[t - base.len() - 1]);
                }
            }
        }
    } else if s.action() is Split {
        assert(now == s.tasks);
    } else {
        assert forall|t: int| 0 <= t < now.len() implies (#[trigger] now[t] matches Task::Sort(
            bucket,
        ) ==> (bucket.file matches BucketFile::Partition(id) ==> t > 0 && now[t - 1]
            == Task::Remove(id))) by {
            if t < base.len() {
                assert(now[t] == s.tasks[t]);
                if t > 0 {
                    assert(now[t - 1] == s.tasks[t - 1]);
                }
            }
        }
    }
}

proof fn lemma_run_removes_follow(
    run: Seq<(PassState, Disk)>,
    keys: Seq<Seq<u8>>,
    key_len: int,
    prefix_len: int,
    max_bucket_bytes: int,
    i: int,
)
    requires
        is_run(run, keys, key_len, prefix_len, max_bucket_bytes),
        0 <= i < run.len(),
    ensures
        removes_follow(run[i].0.tasks),
    decreases i,
{
    if i > 0 {
        lemma_run_removes_follow(run, keys, key_len, prefix_len, max_bucket_bytes, i - 1);
        assert(step(run[i - 1].0, run[i - 1].1, run[i - 1 + 1].0, run[i - 1 + 1].1));
        lemma_step_removes_follow(run[i - 1].0, run[i - 1].1, run[i].0, run[i].1);
    }
}

/// A partition file is removed as soon as it is sorted, before anything else is done.
pub proof fn law_sorted_file_is_removed_next(
    run: Seq<(PassState, Disk)>,
    keys: Seq<Seq<u8>>,
    key_len: int,
    prefix_len: int,
    max_bucket_bytes: int,
    bucket: Bucket,
    i: int,
    j: int,
)
    requires
        is_run(run, keys, key_len, prefix_len, max_bucket_bytes),
        0 < prefix_len <= key_len <= usize::MAX,
        0 <= max_bucket_bytes <= u64::MAX,
        all_have_len(keys, key_len),
        keys.len() * key_len <= u64::MAX,
        0 <= i < j < run.len(),
        run[i].0.tasks.len() > 0,
        run[i].0.tasks.last() == Task::Sort(bucket),
        forall|k: int|
            #![trigger run[k]]
            i <= k < j ==> run[i].0.tasks.len() <= run[k].0.tasks.len(),
        run[j].0.tasks.len() < run[i].0.tasks.len(),
    ensures
        bucket.file matches BucketFile::Partition(id) ==> run[j].0.action() == (Action::Remove {
            partition: id,
        }),
{
    law_run_emits_each_bucket(run, keys, key_len, prefix_len, max_bucket_bytes, bucket, i, j);
    lemma_run_removes_follow(run, keys, key_len, prefix_len, max_bucket_bytes, i);
    let tasks = run[i].0.tasks;
    assert(tasks[tasks.len() - 1] == Task::Sort(bucket));
    if let BucketFile::Partition(id) = bucket.file {
        assert(run[j].0.tasks.last() == tasks[tasks.len() - 2]);
    }
}

/// A run taken on to its end.
proof fn lemma_run_to_its_end(
    run: Seq<(PassState, Disk)>,
    keys: Seq<Seq<u8>>,
    key_len: int,
    prefix_len: int,
    max_bucket_bytes: int,
) -> (whole: Seq<(PassState, Disk)>)
    requires
        is_run(run, keys, key_len, prefix_len, max_bucket_bytes),
        0 < prefix_len <= key_len <= usize::MAX,
        0 <= max_bucket_bytes <= u64::MAX,
        all_have_len(keys, key_len),
        keys.len() * key_len <= u64::MAX,
    ensures
        is_run(whole, keys, key_len, prefix_len, max_bucket_bytes),
        whole.last().0.action() is Finish,
        run.len() <= whole.len(),
        whole.take(run.len() as int) == run,
    decreases 3 + bucket_actions(keys.len() as int, prefix_len) - run.len(),
{
    law_run_is_bounded(run, keys, key_len, prefix_len, max_bucket_bytes);
    if run.last().0.action() is Finish {
        assert(run.take(run.len() as int) =~= run);
        run
    } else {
        law_run_can_go_on(run, keys, key_len, prefix_len, max_bucket_bytes);
        let (s, d) = run.last();
        let (s2, d2) = choose|s2: PassState, d2: Disk| step(s, d, s2, d2);
        let more = run.push((s2, d2));
        assert forall|i: int| #![trigger more[i]] 0 <= i < more.len() - 1 implies step(
            more[i].0,
            more[i].1,
            more[i + 1].0,
            more[i + 1].1,
        ) by {
            assert(more[i] == run[i]);
            if i + 1 < run.len() {
                assert(more[i + 1] == run[i + 1]);
            }
        }
        let whole = lemma_run_to_its_end(more, keys, key_len, prefix_len, max_bucket_bytes);
        assert(whole.take(run.len() as int) =~= more.take(run.len() as int));
        assert(more.take(run.len() as int) =~= run);
        whole
    }
}

/// Whatever keys were spilled, and whatever the limit, there is a run that begins with them and
/// comes to its end, with the distinct prefixes of the keys in ascending order put out.
pub proof fn law_every_build_finishes(
    keys: Seq<Seq<u8>>,
    key_len: int,
    prefix_len: int,
    max_bucket_bytes: int,
)
    requires
        0 < prefix_len <= key_len <= usize::MAX,
        0 <= max_bucket_bytes <= u64::MAX,
        forall|i: int| 0 <= i < keys.len() ==> (#[trigger] keys[i]).len() == key_len,
        keys.len() * key_len <= u64::MAX,
    ensures
        exists|run: Seq<(PassState, Disk)>| #[trigger]
            is_run(run, keys, key_len, prefix_len, max_bucket_bytes) && {
                &&& run[0].1.spill == keys
                &&& run.last().0.action() is Finish
                &&& run.last().1.out == emission(keys, prefix_len).flatten()
            },
{
    let start = seq![
        (
            PassState::start(key_len, prefix_len, max_bucket_bytes),
            Disk { spill: keys, partitions: Map::empty(), out: Seq::empty() },
        ),
    ];
    assert(is_run(start, keys, key_len, prefix_len, max_bucket_bytes));
    let run = lemma_run_to_its_end(start, keys, key_len, prefix_len, max_bucket_bytes);
    law_run_emits_sorted_prefixes(run, keys, key_len, prefix_len, max_bucket_bytes);
    assert(run[0] == start[0]) by {
        assert(run.take(1)[0] == start[0]);
    }
}

} // verus!
