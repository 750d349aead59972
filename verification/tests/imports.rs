use bsset::builder::ByteStringSetBuilder;
use bsset::{Action, BucketFile, Build, ByteStringSet, Error};

/// Compose a data file image: a valid header followed by `payload`.
fn raw_file(prefix_len: u64, payload: &[u8]) -> Vec<u8> {
    let mut bytes = b"BSST\x01\x00\x00\x00".to_vec();
    bytes.extend_from_slice(&prefix_len.to_le_bytes());
    bytes.extend_from_slice(payload);
    bytes
}

fn complete<const N: usize>(build: Build<N>) -> ByteStringSet<N> {
    match build {
        Build::Complete(set) => set,
        Build::External { .. } => panic!("the keys were buffered"),
    }
}

#[test]
fn imported_entries_join_inserted_keys() {
    let mut builder = ByteStringSetBuilder::<8>::in_memory(4);
    builder.insert(*b"keysAAAA").expect("insert key");
    builder.import(&raw_file(4, b"abcdwxyz")).expect("import file");
    builder.import(&raw_file(8, b"abcd0000keysBBBBzero\x00\x00\x00\x00")).expect("import file");
    let set = complete(builder.build().expect("valid build"));
    assert_eq!(set.prefix_len(), 4);
    assert_eq!(set.len(), 4);
    assert_eq!(set.write().1, b"abcdkeyswxyzzero");
    assert!(set.lookup(*b"wxyz9999"));
    assert!(!set.lookup(*b"wxyy9999"));
}

#[test]
fn import_order_does_not_matter() {
    let a = raw_file(5, b"aaaaabbbbb");
    let b = raw_file(6, b"bbbbbxccccccdddddd");
    let mut forth = ByteStringSetBuilder::<6>::in_memory(5);
    forth.import(&a).expect("import file");
    forth.import(&b).expect("import file");
    forth.insert(*b"aaaaaa").expect("insert key");
    let mut back = ByteStringSetBuilder::<6>::in_memory(5);
    back.insert(*b"aaaaaa").expect("insert key");
    back.import(&b).expect("import file");
    back.import(&a).expect("import file");
    let forth = complete(forth.build().expect("valid build"));
    let back = complete(back.build().expect("valid build"));
    assert_eq!(forth.write(), back.write());
    assert_eq!(forth.write().1, b"aaaaabbbbbcccccddddd");
}

#[test]
fn imports_can_come_in_pieces() {
    let mut builder = ByteStringSetBuilder::<6>::in_memory(4);
    let file = raw_file(5, b"aaaaabbbbbccccc");
    let plan = builder.plan_import(31, &file[..16]).expect("fit for import");
    assert_eq!(plan.prefix_len(), 5);
    assert_eq!(plan.count(), 3);
    builder.import_entries(&plan, &file[16..26]);
    builder.import_entries(&plan, &file[26..]);
    let set = complete(builder.build().expect("valid build"));
    assert_eq!(set.write().1, b"aaaabbbbcccc");
}

#[test]
fn external_builders_spill_padded_keys() {
    let mut builder = ByteStringSet::<6>::external_builder(4, 1).expect("create spill file");
    builder.insert(*b"keykey").expect("spill key");
    builder.import(&raw_file(4, b"abcdwxyz")).expect("import file");
    assert_eq!(builder.take_pending(), b"keykeyabcd\x00\x00wxyz\x00\x00");
    assert!(builder.take_pending().is_empty());
    builder.import(&raw_file(6, b"fulllyfullle")).expect("import file");
    let Build::External { tail, mut pass } = builder.build().expect("valid build") else {
        panic!("the keys were spilled");
    };
    assert_eq!(tail, b"fulllyfullle");
    assert!(pass.measured(30));
    // The budget is one key.
    assert_eq!(pass.action(), Action::Split { file: BucketFile::Spill, size: 30 });
}

#[test]
fn default_builders_match_on_full_keys() {
    let mut builder = ByteStringSetBuilder::<5>::default();
    builder.insert(*b"abcde").expect("insert key");
    let set = complete(builder.build().expect("valid build"));
    assert_eq!(set.prefix_len(), 5);
    assert!(set.lookup(*b"abcde"));
    assert!(!set.lookup(*b"abcdf"));
}

#[test]
fn files_unfit_for_import_are_refused() {
    let good = raw_file(5, b"aaaaa");
    let mut builder = ByteStringSetBuilder::<6>::in_memory(5);
    builder.insert(*b"keepme").expect("insert key");
    assert_eq!(builder.import(&good[..15]), Err(Error::BadHeader));
    assert_eq!(builder.import(b"no data file at all"), Err(Error::BadHeader));
    let mut future = good.clone();
    future[4] = 9;
    assert_eq!(builder.import(&future), Err(Error::UnsupportedVersion { version: 9 }));
    assert_eq!(
        builder.import(&raw_file(7, b"aaaaaaa")),
        Err(Error::InvalidPrefixLen { prefix_len: 7, key_len: 6 })
    );
    assert_eq!(
        builder.import(&raw_file(2, b"aa")),
        Err(Error::InvalidPrefixLen { prefix_len: 2, key_len: 6 })
    );
    assert_eq!(
        builder.import(&raw_file(4, b"aaaa")),
        Err(Error::PrefixLenExceedsImport { prefix_len: 5, imported_prefix_len: 4 })
    );
    assert_eq!(
        builder.import(&raw_file(5, b"aaaaab")),
        Err(Error::Misaligned { data_len: 6, prefix_len: 5 })
    );
    // None of them left anything behind.
    let set = complete(builder.build().expect("valid build"));
    assert_eq!(set.write().1, b"keepm");
}

#[test]
fn builder_prefix_length_is_checked_late() {
    let mut builder = ByteStringSetBuilder::<6>::in_memory(7);
    builder.insert(*b"abcdef").expect("insert key");
    let wrong = Error::InvalidPrefixLen { prefix_len: 7, key_len: 6 };
    assert_eq!(builder.check_prefix_len(), Err(wrong));
    assert_eq!(builder.import(&raw_file(6, b"")), Err(wrong));
    assert_eq!(builder.build().expect_err("out of range"), wrong);
    assert_eq!(
        ByteStringSetBuilder::<6>::in_memory(2).build().expect_err("out of range"),
        Error::InvalidPrefixLen { prefix_len: 2, key_len: 6 }
    );
    assert_eq!(
        ByteStringSetBuilder::<6>::external(2, 100)
            .expect("create spill file")
            .build()
            .expect_err("out of range"),
        Error::InvalidPrefixLen { prefix_len: 2, key_len: 6 }
    );
}
