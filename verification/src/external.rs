//! External (out-of-core) build support: a recursive most-significant-byte radix sort over keys
//! that were spilled to disk, so the full key set never has to fit in memory.
//!
//! [`ExternalBuild`] decides and computes; its caller owns the files. The caller asks for the
//! next [`Action`], carries it out, and reports back what came of it.

use memmap2::Mmap;
use vstd::prelude::*;

use crate::error::Error;
use crate::format::{
    file_entries, has_valid_entries, header_bytes, is_entries_error, write_header,
};
use crate::keys::read_keys;
use crate::layout::{prefix_set, strides};
use crate::order::sorted_entries;
use crate::set::ByteStringSet;
use crate::sorting::sort_dedup_emit;
use crate::storage::mapped_bytes;

verus! {

/// A file that holds keys to be sorted.
#[derive(Debug, Clone, Copy, PartialEq, Eq, Structural)]
pub enum BucketFile {
    /// The spill file that all inserted keys went to.
    Spill,
    /// The partition file with this number.
    Partition(u64),
}

/// Keys to be sorted that all share their first `depth` bytes.
#[derive(Debug, Clone, Copy, PartialEq, Eq, Structural)]
pub struct Bucket {
    /// Where the keys are.
    pub file: BucketFile,
    /// Size of the keys together, in bytes.
    pub size: u64,
    /// How many leading bytes the keys are known to share.
    pub depth: usize,
}

/// A partition file accumulating the keys that share one byte value.
#[derive(Debug, Clone, Copy, PartialEq, Eq, Structural)]
pub struct Partition {
    /// Number of the partition file.
    pub file: u64,
    /// Size of the keys in it so far, in bytes.
    pub bytes: u64,
}

/// Something an external build still has to do.
#[derive(Debug, Clone, Copy, PartialEq, Eq, Structural)]
pub enum Task {
    /// Learn the size of the spill file.
    Measure,
    /// Emit the sorted, deduplicated prefixes of a bucket.
    Sort(Bucket),
    /// Remove a consumed partition file.
    Remove(u64),
}

/// What the caller of an external build has to do next.
#[derive(Debug, Clone, Copy, PartialEq, Eq, Structural)]
pub enum Action {
    /// Measure the spill file and report its size with
    /// [`measured`](ExternalBuild::measured).
    Measure,
    /// Read the whole bucket, report its bytes with [`loaded`](ExternalBuild::loaded), and
    /// append what that returns to the output.
    Load {
        /// The file to read.
        file: BucketFile,
        /// How many bytes of it.
        size: u64,
    },
    /// Read one key, report it with [`sampled`](ExternalBuild::sampled), and append what that
    /// returns to the output.
    Sample {
        /// The file to read.
        file: BucketFile,
    },
    /// Read the bucket key by key, report each with [`route`](ExternalBuild::route) and append
    /// it to the file which that names; then report [`partitioned`](ExternalBuild::partitioned).
    Split {
        /// The file to read.
        file: BucketFile,
        /// How many bytes of it.
        size: u64,
    },
    /// Remove the partition file and report [`removed`](ExternalBuild::removed).
    Remove {
        /// Number of the file.
        partition: u64,
    },
    /// The output is complete.
    Finish,
}

/// Where a key goes when its bucket is partitioned.
#[derive(Debug, Clone, Copy, PartialEq, Eq, Structural)]
pub struct Route {
    /// Number of the partition file to append the key to.
    pub file: u64,
    /// Whether the file is new and has to be created first.
    pub created: bool,
}

/// Number of values a byte can have.
pub const BYTE_VALUES: usize = 256;

/// The state of an external build as a value.
pub struct PassState {
    /// Length of the keys.
    pub key_len: int,
    /// Length of the prefixes to emit.
    pub prefix_len: int,
    /// Largest bucket, in bytes, that may be loaded and sorted in memory.
    pub max_bucket_bytes: int,
    /// Number of the next partition file.
    pub next_file: int,
    /// What is still to be done, the next task last.
    pub tasks: Seq<Task>,
    /// How many keys of the bucket being partitioned have been routed.
    pub routed: int,
    /// For each byte value, the partition file of the keys routed by it.
    pub slots: Seq<Option<Partition>>,
}

/// One empty slot per byte value.
pub open spec fn empty_slots() -> Seq<Option<Partition>> {
    Seq::new(BYTE_VALUES as nat, |i: int| None)
}

/// The tasks that a partitioned bucket leaves: each partition file is to be sorted, then
/// removed, those of smaller byte values sooner.
pub open spec fn child_tasks(slots: Seq<Option<Partition>>, depth: usize) -> Seq<Task>
    decreases slots.len(),
{
    if slots.len() == 0 {
        Seq::empty()
    } else {
        let later = child_tasks(slots.drop_first(), depth);
        match slots.first() {
            None => later,
            Some(part) => later.push(Task::Remove(part.file)).push(
                Task::Sort(
                    Bucket { file: BucketFile::Partition(part.file), size: part.bytes, depth },
                ),
            ),
        }
    }
}

impl PassState {
    /// A build that has yet to learn how much was spilled.
    pub open spec fn start(key_len: int, prefix_len: int, max_bucket_bytes: int) -> PassState {
        PassState {
            key_len,
            prefix_len,
            max_bucket_bytes,
            next_file: 0,
            tasks: seq![Task::Measure],
            routed: 0,
            slots: empty_slots(),
        }
    }

    /// What has to be done next. A bucket no larger than `max_bucket_bytes` is loaded; of a
    /// larger one whose keys share the whole prefix one key is enough; any other is partitioned.
    pub open spec fn action(self) -> Action {
        if self.tasks.len() == 0 {
            Action::Finish
        } else {
            match self.tasks.last() {
                Task::Measure => Action::Measure,
                Task::Remove(partition) => Action::Remove { partition },
                Task::Sort(bucket) => if bucket.size <= self.max_bucket_bytes {
                    Action::Load { file: bucket.file, size: bucket.size }
                } else if bucket.depth == self.prefix_len {
                    Action::Sample { file: bucket.file }
                } else {
                    Action::Split { file: bucket.file, size: bucket.size }
                },
            }
        }
    }

    /// The bucket of the next task.
    pub open spec fn bucket(self) -> Bucket {
        self.tasks.last()->Sort_0
    }

    /// How many keys the bucket of the next task has.
    pub open spec fn bucket_keys(self) -> int {
        self.bucket().size as int / self.key_len
    }

    /// The next task done.
    pub open spec fn popped(self) -> PassState {
        PassState { tasks: self.tasks.drop_last(), ..self }
    }

    /// The spill file, all of it one bucket, to be sorted.
    pub open spec fn measured(self, spilled: u64) -> PassState {
        PassState {
            tasks: self.tasks.drop_last().push(
                Task::Sort(Bucket { file: BucketFile::Spill, size: spilled, depth: 0 }),
            ),
            ..self
        }
    }

    /// A key with this byte can be routed: a bucket is being partitioned and has keys left, and
    /// the key's partition has a file or a number is left for one.
    pub open spec fn accepts(self, byte: u8) -> bool {
        &&& self.action() is Split
        &&& self.routed < self.bucket_keys()
        &&& self.slots[byte as int] is Some || self.next_file < u64::MAX
    }

    /// The partition of keys with this byte, with one more key.
    pub open spec fn grown(self, byte: u8) -> Partition {
        match self.slots[byte as int] {
            Some(part) => Partition { file: part.file, bytes: (part.bytes + self.key_len) as u64 },
            None => Partition { file: self.next_file as u64, bytes: self.key_len as u64 },
        }
    }

    /// A key with this byte routed.
    pub open spec fn routed_by(self, byte: u8) -> PassState {
        PassState {
            next_file: if self.slots[byte as int] is Some {
                self.next_file
            } else {
                self.next_file + 1
            },
            routed: self.routed + 1,
            slots: self.slots.update(byte as int, Some(self.grown(byte))),
            ..self
        }
    }

    /// The bucket partitioned: its partitions are to be sorted instead.
    pub open spec fn partitioned(self) -> PassState {
        PassState {
            tasks: self.tasks.drop_last() + child_tasks(
                self.slots,
                (self.bucket().depth + 1) as usize,
            ),
            routed: 0,
            slots: empty_slots(),
            ..self
        }
    }

    /// What holds in every state of a build.
    pub open spec fn wf(self) -> bool {
        &&& 0 < self.prefix_len <= self.key_len <= usize::MAX
        &&& 0 <= self.max_bucket_bytes <= u64::MAX
        &&& 0 <= self.next_file <= u64::MAX
        &&& forall|i: int|
            0 <= i < self.tasks.len() ==> (#[trigger] self.tasks[i] matches Task::Sort(bucket)
                ==> bucket.depth <= self.prefix_len)
        &&& self.slots.len() == BYTE_VALUES
        &&& 0 <= self.routed
        &&& self.action() is Split ==> self.routed <= self.bucket_keys()
        &&& !(self.action() is Split) ==> self.slots == empty_slots() && self.routed == 0
        &&& forall|v: int|
            0 <= v < BYTE_VALUES ==> (#[trigger] self.slots[v] matches Some(part) ==> part.bytes
                <= self.routed * self.key_len)
    }
}

/// State for one external build pass: recursive most-significant-byte partitioning.
#[derive(Debug)]
pub struct ExternalBuild<const N: usize> {
    prefix_len: usize,
    /// Largest bucket, in bytes, that may be loaded and sorted in memory.
    max_bucket_bytes: u64,
    /// Monotonic counter used to give partition files unique names.
    next_file_id: u64,
    /// What is still to be done, the next task last.
    tasks: Vec<Task>,
    /// How many keys of the bucket being partitioned have been routed.
    routed: u64,
    /// One slot per possible byte value; partition files are created lazily so skewed data does
    /// not need 256 files per level.
    slots: Vec<Option<Partition>>,
}

impl<const N: usize> View for ExternalBuild<N> {
    type V = PassState;

    closed spec fn view(&self) -> PassState {
        PassState {
            key_len: N as int,
            prefix_len: self.prefix_len as int,
            max_bucket_bytes: self.max_bucket_bytes as int,
            next_file: self.next_file_id as int,
            tasks: self.tasks@,
            routed: self.routed as int,
            slots: self.slots@,
        }
    }
}

impl<const N: usize> ExternalBuild<N> {
    pub(crate) fn new(prefix_len: usize, max_bucket_bytes: usize) -> (build: Self)
        requires
            3 <= prefix_len <= N,
        ensures
            build@ == PassState::start(N as int, prefix_len as int, max_bucket_bytes as int),
            build@.wf(),
    {
        let mut tasks: Vec<Task> = Vec::new();
        tasks.push(Task::Measure);
        let slots: Vec<Option<Partition>> = no_partitions();
        let build = ExternalBuild {
            prefix_len,
            max_bucket_bytes: max_bucket_bytes as u64,
            next_file_id: 0,
            tasks,
            routed: 0,
            slots,
        };
        assert(build@.tasks =~= seq![Task::Measure]);
        build
    }

    /// The header that the output file starts with.
    pub fn header(&self) -> (header: Vec<u8>)
        ensures
            header@ == header_bytes(self@.prefix_len),
    {
        let mut header: Vec<u8> = Vec::new();
        write_header(&mut header, self.prefix_len);
        assert(header@ =~= header_bytes(self@.prefix_len));
        header
    }

    /// What has to be done next.
    ///
    /// Buckets no larger than the largest allowed size are loaded and sorted in memory; larger
    /// ones are partitioned on their first byte that is not known to be shared, and the
    /// partitions follow in ascending byte order, which keeps the overall emission sorted. Keys
    /// that share their whole `P`-byte prefix contribute exactly one entry no matter how many
    /// they are, so one of them is read instead of partitioning further.
    pub fn action(&self) -> (action: Action)
        ensures
            action == self@.action(),
    {
        let count: usize = self.tasks.len();
        if count == 0 {
            Action::Finish
        } else {
            match self.tasks[count - 1] {
                Task::Measure => Action::Measure,
                Task::Remove(partition) => Action::Remove { partition },
                Task::Sort(bucket) => if bucket.size <= self.max_bucket_bytes {
                    Action::Load { file: bucket.file, size: bucket.size }
                } else if bucket.depth == self.prefix_len {
                    Action::Sample { file: bucket.file }
                } else {
                    Action::Split { file: bucket.file, size: bucket.size }
                },
            }
        }
    }

    /// Report the size of the spill file. Returns whether that was asked for.
    pub fn measured(&mut self, spilled: u64) -> (accepted: bool)
        requires
            old(self)@.wf(),
        ensures
            final(self)@.wf(),
            accepted == (old(self)@.action() is Measure),
            final(self)@ == if accepted {
                old(self)@.measured(spilled)
            } else {
                old(self)@
            },
    {
        match self.action() {
            Action::Measure => {
                let _ = self.tasks.pop();
                self.tasks.push(
                    Task::Sort(Bucket { file: BucketFile::Spill, size: spilled, depth: 0 }),
                );
                assert(self@.tasks =~= old(self)@.measured(spilled).tasks);
                true
            },
            _ => false,
        }
    }

    /// Report the bytes of a loaded bucket. Returns its sorted, deduplicated prefixes for the
    /// output, or `None` if no bucket of that many keys was to be loaded.
    ///
    /// The bytes are given up: they are freed before the keys are sorted, so that they do not
    /// stand in memory beside the output.
    pub fn loaded(&mut self, bucket: Vec<u8>) -> (emitted: Option<Vec<u8>>)
        requires
            old(self)@.wf(),
        ensures
            final(self)@.wf(),
            match emitted {
                Some(bytes) => {
                    &&& old(self)@.action() is Load
                    &&& old(self)@.bucket_keys() == strides(bucket@, N as int).len()
                    &&& bytes@ == sorted_entries(
                        prefix_set(strides(bucket@, N as int), old(self)@.prefix_len),
                    ).flatten()
                    &&& final(self)@ == old(self)@.popped()
                },
                None => {
                    &&& !(old(self)@.action() is Load) || old(self)@.bucket_keys() != strides(
                        bucket@,
                        N as int,
                    ).len()
                    &&& final(self)@ == old(self)@
                },
            },
    {
        match self.action() {
            Action::Load { file: _, size } => {
                if size / N as u64 != (bucket.len() / N) as u64 {
                    return None;
                }
                let mut keys: Vec<[u8; N]> = {
                    let bytes = bucket;
                    read_keys(bytes.as_slice())
                };
                let mut out: Vec<u8> = Vec::new();
                sort_dedup_emit(&mut keys, self.prefix_len, &mut out);
                let _ = self.tasks.pop();
                assert(self@.tasks =~= old(self)@.popped().tasks);
                Some(out)
            },
            _ => None,
        }
    }

    /// Report a key of a bucket whose keys share their whole prefix. Returns that prefix for the
    /// output, or `None` if no bucket was to be sampled.
    pub fn sampled(&mut self, key: &[u8; N]) -> (emitted: Option<Vec<u8>>)
        requires
            old(self)@.wf(),
        ensures
            final(self)@.wf(),
            match emitted {
                Some(bytes) => {
                    &&& old(self)@.action() is Sample
                    &&& bytes@ == key@.take(old(self)@.prefix_len)
                    &&& final(self)@ == old(self)@.popped()
                },
                None => {
                    &&& !(old(self)@.action() is Sample)
                    &&& final(self)@ == old(self)@
                },
            },
    {
        match self.action() {
            Action::Sample { file: _ } => {
                let mut out: Vec<u8> = Vec::new();
                out.extend_from_slice(&key[0..self.prefix_len]);
                assert(out@ =~= key@.take(self@.prefix_len));
                let _ = self.tasks.pop();
                assert(self@.tasks =~= old(self)@.popped().tasks);
                Some(out)
            },
            _ => None,
        }
    }

    /// Report a key of the bucket being partitioned. Returns the partition file that the key
    /// belongs in, or `None` if no bucket was to be partitioned, all of its keys were reported,
    /// or the file numbers are exhausted.
    pub fn route(&mut self, key: &[u8; N]) -> (route: Option<Route>)
        requires
            old(self)@.wf(),
        ensures
            final(self)@.wf(),
            match route {
                Some(route) => {
                    let byte = key@[old(self)@.bucket().depth as int];
                    &&& old(self)@.accepts(byte)
                    &&& route.file == old(self)@.grown(byte).file
                    &&& route.created == (old(self)@.slots[byte as int] is None)
                    &&& final(self)@ == old(self)@.routed_by(byte)
                },
                None => {
                    &&& old(self)@.action() is Split ==> !old(self)@.accepts(
                        key@[old(self)@.bucket().depth as int],
                    )
                    &&& final(self)@ == old(self)@
                },
            },
    {
        match self.action() {
            Action::Split { file: _, size } => {
                let count: usize = self.tasks.len();
                let depth: usize = match self.tasks[count - 1] {
                    Task::Sort(bucket) => bucket.depth,
                    _ => 0,
                };
                assert(self@.tasks[count - 1] == Task::Sort(self@.bucket()));
                if self.routed >= size / N as u64 {
                    return None;
                }
                proof {
                    lemma_routed_fits(size as int, N as int, self.routed as int);
                }
                let byte: u8 = key[depth];
                match self.slots[byte as usize] {
                    Some(part) => {
                        self.slots[byte as usize] = Some(
                            Partition { file: part.file, bytes: part.bytes + N as u64 },
                        );
                        self.routed = self.routed + 1;
                        assert(self@.slots =~= old(self)@.routed_by(byte).slots);
                        Some(Route { file: part.file, created: false })
                    },
                    None => {
                        if self.next_file_id == u64::MAX {
                            return None;
                        }
                        let file: u64 = self.next_file_id;
                        self.next_file_id = file + 1;
                        self.slots[byte as usize] = Some(Partition { file, bytes: N as u64 });
                        self.routed = self.routed + 1;
                        assert(self@.slots =~= old(self)@.routed_by(byte).slots);
                        Some(Route { file, created: true })
                    },
                }
            },
            _ => None,
        }
    }

    /// Report that all keys of the bucket being partitioned are in their partition files.
    /// Returns whether a bucket was being partitioned and all of its keys were routed.
    pub fn partitioned(&mut self) -> (accepted: bool)
        requires
            old(self)@.wf(),
        ensures
            final(self)@.wf(),
            accepted == (old(self)@.action() is Split && old(self)@.routed
                == old(self)@.bucket_keys()),
            final(self)@ == if accepted {
                old(self)@.partitioned()
            } else {
                old(self)@
            },
    {
        match self.action() {
            Action::Split { file: _, size } => {
                let count: usize = self.tasks.len();
                let depth: usize = match self.tasks[count - 1] {
                    Task::Sort(bucket) => bucket.depth,
                    _ => 0,
                };
                assert(self@.tasks[count - 1] == Task::Sort(self@.bucket()));
                if self.routed != size / N as u64 {
                    return false;
                }
                let _ = self.tasks.pop();
                let ghost rest = self.tasks@;
                let mut value: usize = BYTE_VALUES;
                assert(self.slots@.skip(BYTE_VALUES as int) =~= Seq::empty());
                assert(self.tasks@ =~= rest + child_tasks(
                    self.slots@.skip(value as int),
                    (depth + 1) as usize,
                ));
                while value > 0
                    invariant
                        value <= BYTE_VALUES,
                        depth < usize::MAX,
                        self.slots@ == old(self)@.slots,
                        self.slots@.len() == BYTE_VALUES,
                        self.prefix_len == old(self).prefix_len,
                        self.max_bucket_bytes == old(self).max_bucket_bytes,
                        self.next_file_id == old(self).next_file_id,
                        self.tasks@ == rest + child_tasks(
                            self.slots@.skip(value as int),
                            (depth + 1) as usize,
                        ),
                    decreases value,
                {
                    value -= 1;
                    proof {
                        let tail = self.slots@.skip(value as int);
                        assert(tail.drop_first() =~= self.slots@.skip(value + 1));
                        assert(tail.first() == self.slots@[value as int]);
                    }
                    if let Some(part) = self.slots[value] {
                        self.tasks.push(Task::Remove(part.file));
                        self.tasks.push(
                            Task::Sort(
                                Bucket {
                                    file: BucketFile::Partition(part.file),
                                    size: part.bytes,
                                    depth: depth + 1,
                                },
                            ),
                        );
                    }
                    assert(self.tasks@ =~= rest + child_tasks(
                        self.slots@.skip(value as int),
                        (depth + 1) as usize,
                    ));
                }
                assert(self.slots@.skip(0) =~= self.slots@);
                self.routed = 0;
                self.slots = no_partitions();
                proof {
                    lemma_child_depths(old(self)@.slots, (depth + 1) as usize);
                    assert(self@ =~= old(self)@.partitioned());
                    let now = self@.tasks;
                    assert forall|i: int| 0 <= i < now.len() implies (#[trigger] now[i]
                        matches Task::Sort(bucket) ==> bucket.depth <= self.prefix_len) by {
                        if i < rest.len() {
                            assert(now[i] == old(self)@.tasks[i]);
                        } else {
                            assert(now[i] == child_tasks(
                                old(self)@.slots,
                                (depth + 1) as usize,
                            )[i - rest.len()]);
                        }
                    }
                }
                true
            },
            _ => false,
        }
    }

    /// Report that a partition file was removed. Returns whether that was asked for.
    pub fn removed(&mut self) -> (accepted: bool)
        requires
            old(self)@.wf(),
        ensures
            final(self)@.wf(),
            accepted == (old(self)@.action() is Remove),
            final(self)@ == if accepted {
                old(self)@.popped()
            } else {
                old(self)@
            },
    {
        match self.action() {
            Action::Remove { partition: _ } => {
                let _ = self.tasks.pop();
                assert(self@.tasks =~= old(self)@.popped().tasks);
                true
            },
            _ => false,
        }
    }

    /// Turn the mapped output file into the finished set.
    ///
    /// Rebuilding the offsets from the mapped data also re-validates that the emission is sorted
    /// and deduplicated, exactly as [`ByteStringSet::read`] does for files loaded from disk.
    ///
    /// # Errors
    ///
    /// Returns [`Error::TooManyEntries`] if the deduplicated entry count overflows the `u32`
    /// offset table. [`Error::BadHeader`], [`Error::Misaligned`] and [`Error::Unsorted`] come of
    /// a file that does not hold the emission.
    pub fn finish(self, map: Mmap) -> (result: Result<ByteStringSet<N>, Error>)
        requires
            self@.wf(),
            3 <= self@.prefix_len,
        ensures
            match result {
                Ok(set) => {
                    &&& has_valid_entries(mapped_bytes(map), self@.prefix_len)
                    &&& set.stride() == self@.prefix_len
                    &&& set@ == file_entries(mapped_bytes(map), self@.prefix_len).to_set()
                },
                Err(error) => {
                    &&& !has_valid_entries(mapped_bytes(map), self@.prefix_len)
                    &&& is_entries_error(mapped_bytes(map), self@.prefix_len as usize, error)
                },
            },
    {
        ByteStringSet::from_map(map, self.prefix_len)
    }
}

/// Insert-time state of an external-sort builder: keys stream to a spill file.
///
/// What is inserted is held until it is taken to be appended to the spill file.
#[derive(Debug)]
pub struct SpillState {
    pending: Vec<u8>,
    max_bucket_bytes: usize,
}

impl SpillState {
    /// The bytes yet to be taken.
    pub closed spec fn pending(&self) -> Seq<u8> {
        self.pending@
    }

    /// Largest bucket of raw keys, in bytes, that the build may sort in memory at once.
    pub closed spec fn limit(&self) -> int {
        self.max_bucket_bytes as int
    }

    /// An empty spill.
    pub(crate) fn new(max_bucket_bytes: usize) -> (spill: Self)
        ensures
            spill.pending() == Seq::<u8>::empty(),
            spill.limit() == max_bucket_bytes,
    {
        SpillState { pending: Vec::new(), max_bucket_bytes }
    }

    /// Append raw keys to the spill.
    pub(crate) fn insert(&mut self, keys: &[u8])
        ensures
            final(self).pending() == old(self).pending() + keys@,
            final(self).limit() == old(self).limit(),
    {
        self.pending.extend_from_slice(keys);
        assert(self.pending@ =~= old(self).pending@ + keys@);
    }

    /// Take what is to be appended to the spill file.
    pub(crate) fn take_pending(&mut self) -> (bytes: Vec<u8>)
        ensures
            bytes@ == old(self).pending(),
            final(self).pending() == Seq::<u8>::empty(),
            final(self).limit() == old(self).limit(),
    {
        let mut bytes: Vec<u8> = Vec::new();
        std::mem::swap(&mut bytes, &mut self.pending);
        bytes
    }

    /// Begin an external build. Also returns what is still to be appended to the spill file.
    pub(crate) fn build<const N: usize>(self, prefix_len: usize) -> (started: (
        Vec<u8>,
        ExternalBuild<N>,
    ))
        requires
            3 <= prefix_len <= N,
        ensures
            started.0@ == self.pending(),
            started.1@ == PassState::start(N as int, prefix_len as int, self.limit()),
            started.1@.wf(),
    {
        (self.pending, ExternalBuild::new(prefix_len, self.max_bucket_bytes))
    }
}

/// One empty slot per byte value.
fn no_partitions() -> (slots: Vec<Option<Partition>>)
    ensures
        slots@ == empty_slots(),
{
    let mut slots: Vec<Option<Partition>> = Vec::new();
    let mut count: usize = 0;
    while count < BYTE_VALUES
        invariant
            count <= BYTE_VALUES,
            slots@ == Seq::new(count as nat, |i: int| None::<Partition>),
        decreases BYTE_VALUES - count,
    {
        slots.push(None);
        count += 1;
        assert(slots@ =~= Seq::new(count as nat, |i: int| None::<Partition>));
    }
    slots
}

/// While keys are left, the bytes routed and one key more fit in the bucket's size.
proof fn lemma_routed_fits(size: int, key_len: int, routed: int)
    requires
        0 < key_len,
        0 <= routed < size / key_len,
    ensures
        routed * key_len + key_len <= size,
        (routed + 1) * key_len == routed * key_len + key_len,
{
    assert(routed * key_len + key_len <= size && (routed + 1) * key_len == routed * key_len
        + key_len) by (nonlinear_arith)
        requires
            0 < key_len,
            0 <= routed < size / key_len,
    ;
}

/// All buckets among the child tasks have the given depth.
proof fn lemma_child_depths(slots: Seq<Option<Partition>>, depth: usize)
    ensures
        forall|i: int|
            0 <= i < child_tasks(slots, depth).len() ==> (#[trigger] child_tasks(slots, depth)[i]
                matches Task::Sort(bucket) ==> bucket.depth == depth),
    decreases slots.len(),
{
    if slots.len() > 0 {
        lemma_child_depths(slots.drop_first(), depth);
    }
}

} // verus!
