use std::io::{Read, Seek, Write};

use bsset::format::{parse_header, write_header, HEADER_LEN};
use bsset::set::{index_entries, index_file};
use bsset::{Build, ByteStringSet, Error};
use memmap2::{Mmap, MmapMut};

/// A memory map that shows the given bytes.
fn map_of(bytes: &[u8]) -> Mmap {
    let mut map = MmapMut::map_anon(bytes.len()).expect("map memory");
    map.copy_from_slice(bytes);
    map.make_read_only().expect("protect memory")
}

/// Put the bytes in a file, and map what the file holds.
fn through_file(name: &str, bytes: &[u8]) -> Mmap {
    let dir = tempfile::tempdir().expect("create temp dir");
    let path = dir.path().join(name);
    let mut file = tempfile::NamedTempFile::new_in(dir.path()).expect("write file");
    file.write_all(bytes).expect("write file");
    let mut file = file.persist(path).expect("write file");
    file.rewind().expect("read file");
    let mut held = Vec::new();
    file.read_to_end(&mut held).expect("read file");
    map_of(&held)
}

/// Compose a data file image: a valid header followed by `payload`.
fn raw_file(prefix_len: u64, payload: &[u8]) -> Vec<u8> {
    let mut bytes = vec![0u8; HEADER_LEN];
    bytes[..4].copy_from_slice(b"BSST");
    bytes[4] = 1;
    bytes[8..16].copy_from_slice(&prefix_len.to_le_bytes());
    bytes.extend_from_slice(payload);
    bytes
}

fn build_set<const N: usize>(keys: &[[u8; N]], prefix_len: usize) -> ByteStringSet<N> {
    let mut builder = ByteStringSet::<N>::builder();
    for &key in keys {
        builder.insert(key).expect("insert key");
    }
    match builder.build(prefix_len).expect("valid build") {
        Build::Complete(set) => set,
        Build::External { .. } => panic!("the keys were buffered"),
    }
}

fn sample_set() -> ByteStringSet<4> {
    build_set(&[*b"abcd", *b"abce", *b"zzzz", *b"\x00\x00\x00\x01"], 4)
}

fn image<const N: usize>(set: &ByteStringSet<N>) -> Vec<u8> {
    let (header, data) = set.write();
    [header.as_slice(), data].concat()
}

#[test]
fn file_roundtrip_preserves_membership() {
    let set = sample_set();
    let loaded =
        ByteStringSet::<4>::read(through_file("set.bin", &image(&set))).expect("load data file");
    assert_eq!(loaded.prefix_len(), 4);
    assert_eq!(loaded.len(), set.len());
    assert!(loaded.lookup(*b"abcd"));
    assert!(loaded.lookup(*b"zzzz"));
    assert!(!loaded.lookup(*b"abcf"));
}

#[test]
fn read_rejects_misaligned_files() {
    assert!(matches!(
        ByteStringSet::<4>::read(through_file("bad.bin", &raw_file(4, b"abcde"))),
        Err(Error::Misaligned {
            data_len: 5,
            prefix_len: 4
        })
    ));
}

#[test]
fn read_rejects_unsorted_files() {
    assert!(matches!(
        ByteStringSet::<4>::read(through_file("unsorted.bin", &raw_file(4, b"zzzzaaaa"))),
        Err(Error::Unsorted { index: 1 })
    ));
}

#[test]
fn read_rejects_missing_or_truncated_header() {
    assert!(matches!(
        ByteStringSet::<4>::read(through_file("garbage.bin", b"not a bsset file")),
        Err(Error::BadHeader)
    ));
    assert!(matches!(
        ByteStringSet::<4>::read(through_file("garbage.bin", b"BSST")),
        Err(Error::BadHeader)
    ));
}

#[test]
fn read_rejects_unsupported_version() {
    let mut bytes = raw_file(4, b"abcd");
    bytes[4] = 2;
    assert!(matches!(
        ByteStringSet::<4>::read(through_file("future.bin", &bytes)),
        Err(Error::UnsupportedVersion { version: 2 })
    ));
}

#[test]
fn read_rejects_prefix_exceeding_key_len() {
    assert!(matches!(
        ByteStringSet::<4>::read(through_file("wide.bin", &raw_file(5, b"abcde"))),
        Err(Error::InvalidPrefixLen {
            prefix_len: 5,
            key_len: 4
        })
    ));
}

#[test]
fn read_rejects_prefix_below_three() {
    assert!(matches!(
        ByteStringSet::<4>::read(map_of(&raw_file(2, b"abcd"))),
        Err(Error::InvalidPrefixLen {
            prefix_len: 2,
            key_len: 4
        })
    ));
    assert!(matches!(
        ByteStringSet::<4>::read(map_of(&raw_file(0, b""))),
        Err(Error::InvalidPrefixLen {
            prefix_len: 0,
            key_len: 4
        })
    ));
}

#[test]
fn read_rejects_repeated_entries() {
    assert!(matches!(
        ByteStringSet::<4>::read(map_of(&raw_file(3, b"aaabbbbbbccc"))),
        Err(Error::Unsorted { index: 2 })
    ));
}

#[test]
fn reserved_bytes_are_ignored_on_reading() {
    let mut bytes = raw_file(4, b"abcdabce");
    bytes[5..8].copy_from_slice(&[7, 8, 9]);
    let set = ByteStringSet::<4>::read(map_of(&bytes)).expect("load data file");
    assert_eq!(set.len(), 2);
    assert_eq!(image(&set), raw_file(4, b"abcdabce"));
}

#[test]
fn data_file_has_the_documented_bytes() {
    let set = build_set(&[*b"wxyz0000", *b"abcd1234", *b"abcd9999"], 4);
    assert_eq!(
        image(&set),
        b"BSST\x01\x00\x00\x00\x04\x00\x00\x00\x00\x00\x00\x00abcdwxyz"
    );
}

#[test]
fn reading_and_writing_again_gives_the_same_file() {
    let bytes = raw_file(4, b"\x00\x00\x00\x01abcdabcezzzz");
    let set = ByteStringSet::<6>::read(map_of(&bytes)).expect("load data file");
    assert_eq!(image(&set), bytes);
    assert!(set.lookup(*b"abceXX"));
    assert!(!set.lookup(*b"abcfXX"));
}

#[test]
fn headers_record_the_prefix_length() {
    let mut out = b"kept".to_vec();
    write_header(&mut out, 0x1234);
    assert_eq!(
        out,
        b"keptBSST\x01\x00\x00\x00\x34\x12\x00\x00\x00\x00\x00\x00"
    );
    assert_eq!(parse_header(&out[4..]), Ok(0x1234));
    assert_eq!(parse_header(&out[4..19]), Err(Error::BadHeader));
    assert_eq!(parse_header(&raw_file(u64::from(u32::MAX), b"")), Ok(u32::MAX as usize));
    let mut wrong = raw_file(4, b"");
    wrong[3] = b'X';
    assert_eq!(parse_header(&wrong), Err(Error::BadHeader));
    wrong[3] = b'T';
    wrong[4] = 0;
    assert_eq!(parse_header(&wrong), Err(Error::UnsupportedVersion { version: 0 }));
}

#[test]
fn files_are_indexed_by_their_first_three_bytes() {
    let file = raw_file(4, b"\x00\x00\x00\x01\x00\x00\x00\x02\x00\x00\x02\x00\xff\xff\xff\xff");
    let (prefix_len, offsets) = index_file(&file, 4).expect("valid file");
    assert_eq!(prefix_len, 4);
    assert_eq!(offsets.len(), (1 << 24) + 1);
    assert_eq!(&offsets[..5], &[0, 2, 2, 3, 3]);
    assert_eq!(&offsets[(1 << 24) - 1..], &[3, 4]);
    assert_eq!(index_entries(&file, 4), Ok(offsets));
    assert_eq!(index_entries(&file[..15], 4), Err(Error::BadHeader));
    assert_eq!(
        index_entries(&file, 7),
        Err(Error::Misaligned { data_len: 16, prefix_len: 7 })
    );
}

#[test]
fn file_roundtrip_preserves_lookups() {
    let mut state: u64 = 77;
    for round in 0..8usize {
        let mut keys = Vec::new();
        for _ in 0..round * 6 {
            let mut key = [0u8; 8];
            for byte in &mut key {
                state = state.wrapping_mul(6364136223846793005).wrapping_add(1442695040888963407);
                *byte = (state >> 62) as u8;
            }
            keys.push(key);
        }
        let prefix_len = 3 + round % 6;
        let (members, probes) = keys.split_at(keys.len() / 2);
        let set = build_set(members, prefix_len);
        let loaded = ByteStringSet::<8>::read(map_of(&image(&set))).expect("load data file");
        assert_eq!(loaded.prefix_len(), prefix_len);
        assert_eq!(loaded.len(), set.len());
        for &probe in members.iter().chain(probes) {
            assert_eq!(loaded.lookup(probe), set.lookup(probe));
        }
    }
}
