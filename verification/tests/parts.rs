use bsset::keys::{read_keys, read_keys_into};
use bsset::offsets::{build_offsets, table_index};
use bsset::order::{compare, Order};
use bsset::sorting::sort_dedup_emit;
use bsset::Error;

#[test]
fn table_index_is_big_endian() {
    assert_eq!(table_index(b"\x00\x00\x00"), 0);
    assert_eq!(table_index(b"\x01\x02\x03\xff"), 0x010203);
    assert_eq!(table_index(b"\xff\xff\xff"), 0xffffff);
}

#[test]
fn byte_strings_compare_lexicographically() {
    assert_eq!(compare(b"abc", b"abd"), Order::Before);
    assert_eq!(compare(b"b", b"abd"), Order::After);
    assert_eq!(compare(b"ab", b"abd"), Order::Before);
    assert_eq!(compare(b"abd", b"ab"), Order::After);
    assert_eq!(compare(b"\x7f", b"\x80"), Order::Before);
    assert_eq!(compare(b"abd", b"abd"), Order::Same);
    assert_eq!(compare(b"", b""), Order::Same);
}

#[test]
fn offsets_delimit_buckets() {
    let offsets = build_offsets(b"\x00\x00\x01\x05\x00\x00\x01\x06\x00\x00\x03\x00", 4)
        .expect("sorted entries");
    assert_eq!(offsets.len(), (1 << 24) + 1);
    assert_eq!(&offsets[..6], &[0, 0, 2, 2, 3, 3]);
    assert_eq!(offsets[1 << 24], 3);
}

#[test]
fn offsets_of_nothing_are_zero() {
    let offsets = build_offsets(b"", 3).expect("no entries");
    assert_eq!(offsets.len(), (1 << 24) + 1);
    assert!(offsets.iter().all(|&offset| offset == 0));
}

#[test]
fn first_unsorted_entry_is_reported() {
    assert_eq!(
        build_offsets(b"aaabbbaaaccc", 3),
        Err(Error::Unsorted { index: 2 })
    );
    assert_eq!(
        build_offsets(b"aaaaaabbb", 3),
        Err(Error::Unsorted { index: 1 })
    );
}

#[test]
fn prefixes_are_sorted_and_deduplicated() {
    let mut keys = vec![*b"mmz", *b"zaa", *b"mma", *b"aaa", *b"mmb"];
    let mut out = b"|".to_vec();
    sort_dedup_emit(&mut keys, 2, &mut out);
    assert_eq!(out, b"|aammza");
    // The first key of each prefix is kept.
    assert_eq!(keys, vec![*b"aaa", *b"mma", *b"zaa"]);
}

#[test]
fn bytes_sort_as_unsigned_numbers() {
    let mut keys = vec![*b"\x80\x00\x00", *b"\x7f\xff\xff", *b"\x00\x00\x00"];
    let mut out = Vec::new();
    sort_dedup_emit(&mut keys, 3, &mut out);
    assert_eq!(out, b"\x00\x00\x00\x7f\xff\xff\x80\x00\x00");
}

#[test]
fn read_keys_are_zero_padded() {
    let mut keys = vec![*b"first"];
    assert!(read_keys_into(b"abcdefgh", 2, 3, &mut keys));
    assert_eq!(keys, vec![*b"first", *b"abc\x00\x00", *b"def\x00\x00"]);
}

#[test]
fn keys_before_a_short_end_are_read() {
    let mut keys = vec![*b"first"];
    assert!(!read_keys_into(b"abcdefgh", 3, 3, &mut keys));
    assert_eq!(keys, vec![*b"first", *b"abc\x00\x00", *b"def\x00\x00"]);
    assert!(!read_keys_into(b"ab", 1, 3, &mut keys));
    assert_eq!(keys.len(), 3);
    assert!(read_keys_into(b"", 0, 3, &mut keys));
    assert_eq!(keys.len(), 3);
    // Keys of no bytes can always be read.
    assert!(read_keys_into(b"", 2, 0, &mut keys));
    assert_eq!(keys[3..], [*b"\x00\x00\x00\x00\x00"; 2]);
}

#[test]
fn deduplicated_keys_are_truncated_in_place() {
    let mut keys = vec![*b"bbz", *b"bba", *b"aac", *b"aab", *b"ccc", *b"bbm"];
    let mut out = b"out:".to_vec();
    sort_dedup_emit(&mut keys, 2, &mut out);
    assert_eq!(keys, vec![*b"aab", *b"bba", *b"ccc"]);
    assert_eq!(out, b"out:aabbcc");
    let capacity = keys.capacity();
    sort_dedup_emit(&mut keys, 0, &mut out);
    assert_eq!(keys, vec![*b"aab"]);
    assert_eq!(keys.capacity(), capacity);
    assert_eq!(out, b"out:aabbcc");
}

#[test]
fn buckets_are_cut_into_keys() {
    assert_eq!(read_keys::<3>(b"abcdefgh"), vec![*b"abc", *b"def"]);
    assert!(read_keys::<3>(b"ab").is_empty());
}
