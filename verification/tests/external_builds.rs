use std::collections::BTreeMap;
use std::io::{Read, Seek, Write};

use bsset::{Action, BucketFile, Build, ByteStringSet, ByteStringSetBuilder, Error, ExternalBuild};
use memmap2::{Mmap, MmapMut};

/// A memory map that shows the given bytes.
fn map_of(bytes: &[u8]) -> Mmap {
    let mut map = MmapMut::map_anon(bytes.len()).expect("map memory");
    map.copy_from_slice(bytes);
    map.make_read_only().expect("protect memory")
}

/// Carry out an external build over temporary files. Also returns the bytes of the output.
fn carry_out<const N: usize>(
    spilled: &[u8],
    mut pass: ExternalBuild<N>,
) -> (Result<ByteStringSet<N>, Error>, Vec<u8>) {
    let mut spill = tempfile::tempfile().expect("create spill file");
    spill.write_all(spilled).expect("spill keys");
    let mut partitions = BTreeMap::new();
    let mut created = 0;
    let mut out = pass.header();
    loop {
        match pass.action() {
            Action::Measure => {
                let size = spill.stream_position().expect("measure spill file");
                assert!(pass.measured(size));
            }
            Action::Load { file, size } => {
                let source = match file {
                    BucketFile::Spill => &mut spill,
                    BucketFile::Partition(id) => partitions.get_mut(&id).expect("partition file"),
                };
                source.rewind().expect("rewind bucket");
                let mut bucket = vec![0u8; size as usize];
                source.read_exact(&mut bucket).expect("read bucket");
                out.extend(pass.loaded(bucket).expect("bucket is to be loaded"));
            }
            Action::Sample { file } => {
                let source = match file {
                    BucketFile::Spill => &mut spill,
                    BucketFile::Partition(id) => partitions.get_mut(&id).expect("partition file"),
                };
                source.rewind().expect("rewind bucket");
                let mut key = [0u8; N];
                source.read_exact(&mut key).expect("read key");
                out.extend(pass.sampled(&key).expect("bucket is to be sampled"));
            }
            Action::Split { file, size } => {
                let mut bucket = vec![0u8; size as usize];
                {
                    let source = match file {
                        BucketFile::Spill => &mut spill,
                        BucketFile::Partition(id) => {
                            partitions.get_mut(&id).expect("partition file")
                        }
                    };
                    source.rewind().expect("rewind bucket");
                    source.read_exact(&mut bucket).expect("read bucket");
                }
                for chunk in bucket.chunks_exact(N) {
                    let mut key = [0u8; N];
                    key.copy_from_slice(chunk);
                    let route = pass.route(&key).expect("key is to be routed");
                    assert_eq!(route.created, !partitions.contains_key(&route.file));
                    if route.created {
                        // Files are numbered in the order they are made.
                        assert_eq!(route.file, created);
                        created += 1;
                    }
                    partitions
                        .entry(route.file)
                        .or_insert_with(|| tempfile::tempfile().expect("create partition file"))
                        .write_all(&key)
                        .expect("write key");
                }
                assert!(pass.partitioned());
            }
            Action::Remove { partition } => {
                assert!(partitions.remove(&partition).is_some());
                assert!(pass.removed());
            }
            Action::Finish => break,
        }
    }
    assert!(partitions.is_empty());
    // At most one file for each byte that was spilled.
    assert!(created <= spilled.len() as u64);
    (pass.finish(map_of(&out)), out)
}

/// Build a set with the external-sort builder from `keys`.
fn external_set<const N: usize>(
    max_bucket_bytes: usize,
    keys: &[[u8; N]],
    prefix_len: usize,
) -> ByteStringSet<N> {
    let mut builder = ByteStringSetBuilder::<N>::with_max_bucket_bytes(max_bucket_bytes)
        .expect("create spill file");
    let mut spilled = Vec::new();
    for &key in keys {
        builder.insert(key).expect("spill key");
        spilled.extend(builder.take_pending());
    }
    match builder.build(prefix_len).expect("valid build") {
        Build::External { tail, pass } => {
            spilled.extend(tail);
            carry_out(&spilled, pass).0.expect("valid build")
        }
        Build::Complete(_) => panic!("the keys were spilled"),
    }
}

fn in_memory_set<const N: usize>(keys: &[[u8; N]], prefix_len: usize) -> ByteStringSet<N> {
    let mut builder = ByteStringSet::<N>::builder();
    for &key in keys {
        builder.insert(key).expect("insert key");
    }
    match builder.build(prefix_len).expect("valid build") {
        Build::Complete(set) => set,
        Build::External { .. } => panic!("the keys were buffered"),
    }
}

#[test]
fn external_build_single_bucket() {
    // A huge budget keeps the whole spill file in one bucket, exercising the load-and-sort
    // path without any partitioning.
    let set = external_set(usize::MAX, &[*b"abcd", *b"abce", *b"zzzz", *b"abcd"], 4);
    assert_eq!(set.len(), 3);
    assert!(set.lookup(*b"abcd"));
    assert!(set.lookup(*b"abce"));
    assert!(set.lookup(*b"zzzz"));
    assert!(!set.lookup(*b"aaaa"));
}

#[test]
fn external_build_partitions_oversized_buckets() {
    // A one-key budget forces partitioning down to single-key buckets and, for the repeated
    // "aaaa" keys, all the way to the shared-prefix early exit at `depth == prefix_len`.
    let keys = [
        *b"aaaa", *b"aaab", *b"aaba", *b"abaa", *b"baaa", *b"aaaa", *b"zzzz",
    ];
    let set = external_set(4, &keys, 4);
    assert_eq!(set.len(), 6);
    for &key in &keys {
        assert!(set.lookup(key));
    }
    assert!(!set.lookup(*b"aabb"));
}

#[test]
fn external_build_dedupes_shared_prefixes() {
    // Keys sharing a 4-byte prefix collapse to one entry even when partitioning separates
    // sorting into single-key buckets.
    let keys = [*b"abcd1234", *b"abcd9999", *b"wxyz0000"];
    let set = external_set(8, &keys, 4);
    assert_eq!(set.len(), 2);
    assert!(set.lookup(*b"abcdXXXX"));
    assert!(set.lookup(*b"wxyz9999"));
    assert!(!set.lookup(*b"abzz0000"));
}

#[test]
fn external_build_empty() {
    let set = external_set::<4>(1024, &[], 4);
    assert!(set.is_empty());
    assert!(!set.lookup(*b"abcd"));
}

#[test]
fn external_build_roundtrips_through_file() {
    let set = external_set(4, &[*b"abcd", *b"zzzz"], 4);
    let dir = tempfile::tempdir().expect("create temp dir");
    let path = dir.path().join("set.bin");
    let mut file = tempfile::NamedTempFile::new_in(dir.path()).expect("create data file");
    let (header, data) = set.write();
    file.write_all(&header).expect("write data file");
    file.write_all(data).expect("write data file");
    let mut file = file.persist(&path).expect("write data file");

    let mut bytes = Vec::new();
    file.rewind().expect("load data file");
    file.read_to_end(&mut bytes).expect("load data file");
    let loaded = ByteStringSet::<4>::read(map_of(&bytes)).expect("load data file");
    assert_eq!(loaded.len(), 2);
    assert!(loaded.lookup(*b"abcd"));
    assert!(loaded.lookup(*b"zzzz"));
    assert!(!loaded.lookup(*b"abce"));
}

#[test]
fn budgets_below_one_key_are_one_key() {
    // With a budget of 0 bytes a single key is still loaded, not partitioned.
    let mut builder =
        ByteStringSetBuilder::<4>::with_max_bucket_bytes(0).expect("create spill file");
    builder.insert(*b"abcd").expect("spill key");
    match builder.build(4).expect("valid build") {
        Build::External { tail, mut pass } => {
            assert_eq!(tail, b"abcd");
            assert_eq!(pass.action(), Action::Measure);
            assert!(pass.measured(4));
            assert_eq!(pass.action(), Action::Load { file: BucketFile::Spill, size: 4 });
            assert_eq!(pass.loaded(b"abcd".to_vec()), Some(b"abcd".to_vec()));
            assert_eq!(pass.action(), Action::Finish);
        }
        Build::Complete(_) => panic!("the keys were spilled"),
    }
}

#[test]
fn oversized_buckets_are_split_on_the_next_byte() {
    let builder = ByteStringSetBuilder::<4>::with_max_bucket_bytes(4).expect("create spill file");
    let Build::External { tail, mut pass } = builder.build(3).expect("valid build") else {
        panic!("the keys were spilled");
    };
    assert!(tail.is_empty());
    // Nothing else is taken before the spill file is measured.
    assert_eq!(pass.loaded(Vec::new()), None);
    assert_eq!(pass.sampled(b"bbbb"), None);
    assert_eq!(pass.route(b"bbbb"), None);
    assert!(!pass.partitioned());
    assert!(!pass.removed());
    assert!(pass.measured(12));
    assert!(!pass.measured(12));
    assert_eq!(pass.action(), Action::Split { file: BucketFile::Spill, size: 12 });
    let first = pass.route(b"bbbb").expect("key is to be routed");
    assert!(first.created);
    assert!(!pass.partitioned());
    let second = pass.route(b"abbb").expect("key is to be routed");
    assert!(second.created);
    assert!(first.file != second.file);
    let third = pass.route(b"bbbc").expect("key is to be routed");
    assert!(!third.created);
    assert_eq!(third.file, first.file);
    // The bucket had three keys.
    assert_eq!(pass.route(b"bbbd"), None);
    assert!(pass.partitioned());
    // The partition of the smaller byte comes first.
    let file = BucketFile::Partition(second.file);
    assert_eq!(pass.action(), Action::Load { file, size: 4 });
    assert_eq!(pass.loaded(b"abbb".to_vec()), Some(b"abb".to_vec()));
    assert_eq!(pass.action(), Action::Remove { partition: second.file });
    assert!(pass.removed());
    let file = BucketFile::Partition(first.file);
    assert_eq!(pass.action(), Action::Split { file, size: 8 });
}

#[test]
fn each_bucket_emits_its_own_prefixes() {
    // Two levels: the keys of `a` go on to be split by their second byte, that of `b` is loaded.
    let builder = ByteStringSetBuilder::<4>::with_max_bucket_bytes(8).expect("create spill file");
    let Build::External { mut pass, .. } = builder.build(3).expect("valid build") else {
        panic!("the keys were spilled");
    };
    let keys = [*b"bzzz", *b"azab", *b"aaac", *b"azaa", *b"azcc"];
    assert!(pass.measured(20));
    let mut files: BTreeMap<u64, Vec<u8>> = BTreeMap::new();
    for key in &keys {
        let route = pass.route(key).expect("key is to be routed");
        files.entry(route.file).or_default().extend(key);
    }
    assert!(pass.partitioned());
    assert_eq!(files[&0], b"bzzz");
    assert_eq!(files[&1], b"azabaaacazaaazcc");
    let file = BucketFile::Partition(1);
    assert_eq!(pass.action(), Action::Split { file, size: 16 });
    for chunk in files[&1].clone().chunks_exact(4) {
        let route = pass.route(chunk.try_into().expect("a key")).expect("key is to be routed");
        files.entry(route.file).or_default().extend(chunk);
    }
    assert!(pass.partitioned());
    assert_eq!(files[&2], b"azabazaaazcc");
    assert_eq!(files[&3], b"aaac");
    let mut out = Vec::new();
    assert_eq!(pass.action(), Action::Load { file: BucketFile::Partition(3), size: 4 });
    out.extend(pass.loaded(files[&3].clone()).expect("bucket is to be loaded"));
    assert!(pass.removed());
    assert_eq!(out, b"aaa");
    // Three keys of 12 bytes are over the limit and agree on two bytes: split once more.
    assert_eq!(pass.action(), Action::Split { file: BucketFile::Partition(2), size: 12 });
    for chunk in files[&2].clone().chunks_exact(4) {
        let route = pass.route(chunk.try_into().expect("a key")).expect("key is to be routed");
        files.entry(route.file).or_default().extend(chunk);
    }
    assert!(pass.partitioned());
    for (file, bytes) in [(4, b"azabazaa".as_slice()), (5, b"azcc".as_slice())] {
        assert_eq!(files[&file], bytes);
        out.extend(pass.loaded(bytes.to_vec()).expect("bucket is to be loaded"));
        assert_eq!(pass.action(), Action::Remove { partition: file });
        assert!(pass.removed());
    }
    assert_eq!(pass.action(), Action::Remove { partition: 2 });
    assert!(pass.removed());
    // The bucket of `a` is done when its file is next to be removed.
    assert_eq!(pass.action(), Action::Remove { partition: 1 });
    assert!(pass.removed());
    assert_eq!(out, b"aaaazaazc");
    out.extend(pass.loaded(files[&0].clone()).expect("bucket is to be loaded"));
    assert!(pass.removed());
    assert_eq!(pass.action(), Action::Finish);
    assert_eq!(out, b"aaaazaazcbzz");
}

#[test]
fn no_more_files_than_prefix_bytes() {
    // One file for all three keys at each byte that they share, one for each at the last.
    let builder = ByteStringSetBuilder::<4>::with_max_bucket_bytes(4).expect("create spill file");
    let Build::External { mut pass, .. } = builder.build(4).expect("valid build") else {
        panic!("the keys were spilled");
    };
    let keys = [*b"aaab", *b"aaac", *b"aaad"];
    assert!(pass.measured(12));
    let mut created = Vec::new();
    while let Action::Split { .. } = pass.action() {
        for key in &keys {
            let route = pass.route(key).expect("key is to be routed");
            if route.created {
                created.push(route.file);
            }
        }
        assert!(pass.partitioned());
    }
    assert_eq!(created, vec![0, 1, 2, 3, 4, 5]);
    assert!(created.len() <= keys.len() * 4);
    assert_eq!(pass.action(), Action::Load { file: BucketFile::Partition(3), size: 4 });
}

#[test]
fn shared_prefixes_need_one_key() {
    // Eight equal keys, a budget of one: partitioned once per prefix byte, then sampled.
    let keys = [*b"same"; 8];
    let set = external_set(4, &keys, 4);
    assert_eq!(set.len(), 1);
    assert!(set.lookup(*b"same"));
    assert_eq!(external_set(4, &keys, 3).write().1, b"sam");
}

#[test]
fn output_is_the_data_file_of_the_in_memory_set() {
    let keys = [*b"qwerty", *b"qwertz", *b"asdfgh", *b"\xff\xff\xff\x00\x00\x00", *b"qwerty"];
    for max_bucket_bytes in [0, 6, 12, 1000] {
        let builder =
            ByteStringSetBuilder::<6>::with_max_bucket_bytes(max_bucket_bytes).expect("create");
        let Build::External { pass, .. } = builder.build(5).expect("valid build") else {
            panic!("the keys were spilled");
        };
        let (set, out) = carry_out(&keys.concat(), pass);
        assert_eq!(set.expect("valid build").len(), 3);
        let expected = in_memory_set(&keys, 5);
        let (header, data) = expected.write();
        assert_eq!(out, [header.as_slice(), data].concat());
        assert_eq!(data, b"asdfgqwert\xff\xff\xff\x00\x00");
    }
}

#[test]
fn outputs_that_are_no_emission_are_refused() {
    for (file, reason) in [
        (b"short".to_vec(), Error::BadHeader),
        (vec![0u8; 18], Error::Misaligned { data_len: 2, prefix_len: 3 }),
        ([&[0u8; 16][..], b"bbbaaa"].concat(), Error::Unsorted { index: 1 }),
    ] {
        let builder = ByteStringSetBuilder::<4>::with_max_bucket_bytes(4).expect("create");
        let Build::External { pass, .. } = builder.build(3).expect("valid build") else {
            panic!("the keys were spilled");
        };
        assert_eq!(pass.finish(map_of(&file)).expect_err("no emission"), reason);
    }
}

/// A small generator of pseudo-random numbers.
fn next_random(state: &mut u64) -> u64 {
    *state = state.wrapping_mul(6364136223846793005).wrapping_add(1442695040888963407);
    *state >> 33
}

/// Keys drawn from the full byte range or from a tiny alphabet; the latter forces shared
/// prefixes, duplicate keys, and crowded offset-table buckets.
fn random_keys(state: &mut u64, count: usize) -> Vec<[u8; 8]> {
    let mut keys = Vec::new();
    for _ in 0..count {
        let limit = if next_random(state) % 2 == 0 { 256 } else { 3 };
        let mut key = [0u8; 8];
        for byte in &mut key {
            *byte = (next_random(state) % limit) as u8;
        }
        keys.push(key);
    }
    keys
}

#[test]
fn external_build_matches_in_memory() {
    let mut state = 2026;
    for round in 0..12usize {
        let keys = random_keys(&mut state, round * 5);
        let probes = random_keys(&mut state, 40);
        let prefix_len = 3 + round % 6;
        let max_bucket_bytes = next_random(&mut state) as usize % 129;
        let in_memory = in_memory_set(&keys, prefix_len);
        let external = external_set(max_bucket_bytes, &keys, prefix_len);
        assert_eq!(external.len(), in_memory.len());
        for &probe in keys.iter().chain(&probes) {
            assert_eq!(external.lookup(probe), in_memory.lookup(probe));
        }
    }
}
