use std::collections::BTreeSet;

use bsset::{Build, ByteStringSet, Error};

/// The set of a build that needs no external sort.
fn complete<const N: usize>(build: Build<N>) -> ByteStringSet<N> {
    match build {
        Build::Complete(set) => set,
        Build::External { .. } => panic!("the keys were buffered"),
    }
}

fn sample_set() -> ByteStringSet<4> {
    let mut builder = ByteStringSet::<4>::builder();
    for key in [*b"abcd", *b"abce", *b"zzzz", *b"\x00\x00\x00\x01"] {
        builder.insert(key).expect("insert key");
    }
    complete(builder.build(4).expect("valid build"))
}

#[test]
fn exact_lookup_hits_and_misses() {
    let set = sample_set();
    assert!(set.lookup(*b"abcd"));
    assert!(set.lookup(*b"abce"));
    assert!(set.lookup(*b"zzzz"));
    assert!(set.lookup(*b"\x00\x00\x00\x01"));
    assert!(!set.lookup(*b"abcf"));
    assert!(!set.lookup(*b"\x00\x00\x00\x00"));
    assert_eq!(set.len(), 4);
}

#[test]
fn prefix_lookup_matches_shared_prefixes() {
    let mut builder = ByteStringSet::<8>::builder();
    builder.insert(*b"abcd1234").expect("insert key");
    builder.insert(*b"wxyz0000").expect("insert key");
    let set = complete(builder.build(4).expect("valid build"));
    // Only the first 4 bytes are kept, so any suffix matches.
    assert!(set.lookup(*b"abcdXXXX"));
    assert!(set.lookup(*b"wxyz9999"));
    assert!(!set.lookup(*b"abzz1234"));
}

#[test]
fn duplicates_and_shared_prefixes_are_deduped() {
    let mut builder = ByteStringSet::<8>::builder();
    builder.insert(*b"abcd1234").expect("insert key");
    builder.insert(*b"abcd1234").expect("insert key");
    builder.insert(*b"abcd9999").expect("insert key");
    let set = complete(builder.build(4).expect("valid build"));
    assert_eq!(set.len(), 1);
}

#[test]
fn empty_set_misses_everything() {
    let set = complete(ByteStringSet::<4>::builder().build(4).expect("valid build"));
    assert!(set.is_empty());
    assert!(!set.lookup(*b"abcd"));
}

#[test]
fn prefix_len_bounds_are_enforced() {
    assert!(matches!(
        ByteStringSet::<4>::builder().build(2),
        Err(Error::InvalidPrefixLen {
            prefix_len: 2,
            key_len: 4
        })
    ));
    assert!(matches!(
        ByteStringSet::<4>::builder().build(5),
        Err(Error::InvalidPrefixLen {
            prefix_len: 5,
            key_len: 4
        })
    ));
}

#[test]
fn lookup_matches_reference_model() {
    let mut state: u64 = 4711;
    for round in 0..8usize {
        let mut keys = Vec::new();
        for i in 0..round * 10 {
            let mut key = [0u8; 8];
            for byte in &mut key {
                state = state.wrapping_mul(6364136223846793005).wrapping_add(1442695040888963407);
                *byte = if i % 2 == 0 { (state >> 62) as u8 } else { (state >> 56) as u8 };
            }
            keys.push(key);
        }
        let prefix_len = 3 + round % 6;
        let (members, probes) = keys.split_at(keys.len() / 2);
        let mut builder = ByteStringSet::<8>::builder();
        for &key in members {
            builder.insert(key).expect("insert key");
        }
        let set = complete(builder.build(prefix_len).expect("valid build"));
        let reference: BTreeSet<Vec<u8>> =
            members.iter().map(|key| key[..prefix_len].to_vec()).collect();
        assert_eq!(set.len(), reference.len());
        // Inserted keys must all hit; probes must agree with the model either way.
        for &probe in members.iter().chain(probes) {
            assert_eq!(set.lookup(probe), reference.contains(&probe[..prefix_len]));
        }
        for &member in members {
            assert!(set.lookup(member));
        }
    }
}

#[test]
fn insertion_order_does_not_matter() {
    let keys = [*b"abcd", *b"zzzz", *b"abce", *b"abcd"];
    let mut forth = ByteStringSet::<4>::builder();
    let mut back = ByteStringSet::<4>::builder();
    for key in keys {
        forth.insert(key).expect("insert key");
    }
    for key in keys.iter().rev() {
        back.insert(*key).expect("insert key");
    }
    let forth = complete(forth.build(4).expect("valid build"));
    let back = complete(back.build(4).expect("valid build"));
    assert_eq!(forth.write(), back.write());
    assert_eq!(forth.len(), 3);
}

#[test]
fn crowded_buckets_are_searched() {
    let mut builder = ByteStringSet::<5>::builder();
    for last in (0..=255u8).rev().step_by(2) {
        builder.insert([b'x', b'y', b'z', last, 0]).expect("insert key");
    }
    let set = complete(builder.build(4).expect("valid build"));
    assert_eq!(set.len(), 128);
    assert_eq!(set.prefix_len(), 4);
    for last in 0..=255u8 {
        assert_eq!(set.lookup([b'x', b'y', b'z', last, 9]), last % 2 == 1);
    }
    assert!(!set.is_empty());
    assert!(!set.lookup(*b"xyyaa"));
    assert!(!set.lookup(*b"xy{aa"));
}

#[test]
fn in_memory_builders_spill_nothing() {
    let mut builder = ByteStringSet::<4>::builder();
    builder.insert(*b"abcd").expect("insert key");
    assert!(builder.take_pending().is_empty());
    assert!(complete(builder.build(3).expect("valid build")).lookup(*b"abcX"));
}
