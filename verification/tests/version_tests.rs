//! Behaviour of the version snapshot: lookups, overlap queries, read
//! sampling and the iterator set, on a fixed multi-level layout.

use lsm_version::cmp::InternalKeyCmp;
use lsm_version::key_types::{parse_internal_key, LookupKey, MAX_SEQUENCE_NUMBER};
use lsm_version::table_cache::{Table, TableCache, TableEntry};
use lsm_version::types::FileMetaData;
use lsm_version::version::{
    find_file, key_is_after_file, key_is_before_file, some_file_overlaps_range,
    some_file_overlaps_range_disjoint, MergeSource, Version,
};
use std::cmp::Ordering;

fn ikey(k: &[u8], seq: u64) -> Vec<u8> {
    LookupKey::new(k, seq).internal_key().to_vec()
}

fn new_file(num: u64, smallest: &[u8], smallestix: u64, largest: &[u8], largestix: u64) -> FileMetaData {
    FileMetaData {
        allowed_seeks: 10,
        size: 163840,
        num,
        smallest: ikey(smallest, smallestix),
        largest: ikey(largest, largestix),
    }
}

fn write_table(
    cache: &mut TableCache,
    contents: &[(&[u8], &[u8])],
    startseq: u64,
    num: u64,
) -> FileMetaData {
    let mut entries = Vec::new();
    let mut seq = startseq;
    for (k, v) in contents {
        entries.push(TableEntry { key: ikey(k, seq), value: v.to_vec() });
        seq += 1;
    }
    cache.insert(Table::new(num, entries));
    new_file(
        num,
        contents[0].0,
        startseq,
        contents[contents.len() - 1].0,
        startseq + (contents.len() - 1) as u64,
    )
}

fn make_version() -> Version {
    let mut cache = TableCache::new();

    // Level 0 (overlapping)
    let t1 = write_table(
        &mut cache,
        &[("aaa".as_bytes(), "val1".as_bytes()), ("aab".as_bytes(), "val2".as_bytes()), ("aba".as_bytes(), "val3".as_bytes())],
        1,
        1,
    );
    let t2 = write_table(
        &mut cache,
        &[("aax".as_bytes(), "val1".as_bytes()), ("bab".as_bytes(), "val2".as_bytes()), ("bba".as_bytes(), "val3".as_bytes())],
        4,
        2,
    );
    // Level 1
    let t3 = write_table(
        &mut cache,
        &[("aaa".as_bytes(), "val1".as_bytes()), ("cab".as_bytes(), "val2".as_bytes()), ("cba".as_bytes(), "val3".as_bytes())],
        7,
        3,
    );
    let t4 = write_table(
        &mut cache,
        &[("daa".as_bytes(), "val1".as_bytes()), ("dab".as_bytes(), "val2".as_bytes()), ("dba".as_bytes(), "val3".as_bytes())],
        10,
        4,
    );
    let t5 = write_table(
        &mut cache,
        &[("eaa".as_bytes(), "val1".as_bytes()), ("eab".as_bytes(), "val2".as_bytes()), ("fab".as_bytes(), "val3".as_bytes())],
        13,
        5,
    );
    // Level 2
    let t6 = write_table(
        &mut cache,
        &[("cab".as_bytes(), "val1".as_bytes()), ("fab".as_bytes(), "val2".as_bytes()), ("fba".as_bytes(), "val3".as_bytes())],
        16,
        6,
    );
    let t7 = write_table(
        &mut cache,
        &[("gaa".as_bytes(), "val1".as_bytes()), ("gab".as_bytes(), "val2".as_bytes()), ("gba".as_bytes(), "val3".as_bytes())],
        19,
        7,
    );
    // Level 3 (2 * 2 entries, for iterator behavior).
    let t8 = write_table(
        &mut cache,
        &[("haa".as_bytes(), "val1".as_bytes()), ("hba".as_bytes(), "val2".as_bytes())],
        22,
        8,
    );
    let t9 = write_table(
        &mut cache,
        &[("iaa".as_bytes(), "val1".as_bytes()), ("iba".as_bytes(), "val2".as_bytes())],
        25,
        9,
    );

    let mut v = Version::new(cache);
    v.files[0] = vec![t1, t2];
    v.files[1] = vec![t3, t4, t5];
    v.files[2] = vec![t6, t7];
    v.files[3] = vec![t8, t9];
    v
}

#[test]
fn test_version_concat_iter() {
    let v = make_version();

    let expected_entries = vec![0, 9, 6, 4];
    for l in 1..4 {
        let mut iter = v.new_concat_iter(l);
        let mut count = 0;
        while iter.advance() {
            count += 1;
        }
        assert_eq!(count, expected_entries[l]);
    }
}

#[test]
fn test_version_concat_iter_properties() {
    let v = make_version();
    let mut iter = v.new_concat_iter(3);

    // Unpositioned at first.
    assert!(!iter.valid());
    let mut k = Vec::new();
    let mut val = Vec::new();
    assert!(!iter.current(&mut k, &mut val));

    // Forward pass yields the four entries of level 3 in order.
    let mut seen = Vec::new();
    while iter.advance() {
        assert!(iter.valid());
        assert!(iter.current(&mut k, &mut val));
        seen.push(parse_internal_key(&k).2.to_vec());
    }
    assert_eq!(
        seen,
        vec![b"haa".to_vec(), b"hba".to_vec(), b"iaa".to_vec(), b"iba".to_vec()]
    );
    assert!(!iter.valid());

    // Seek lands on the least entry at or above the key, across files.
    let probe = LookupKey::new("iaa".as_bytes(), MAX_SEQUENCE_NUMBER);
    iter.seek(probe.internal_key());
    assert!(iter.valid());
    assert!(iter.current(&mut k, &mut val));
    assert_eq!(parse_internal_key(&k).2, "iaa".as_bytes());

    // Stepping back crosses the file boundary to the previous file's last
    // entry.
    assert!(iter.prev());
    assert!(iter.current(&mut k, &mut val));
    assert_eq!(parse_internal_key(&k).2, "hba".as_bytes());

    // Reset returns to the unpositioned state, and advance restarts.
    iter.reset();
    assert!(!iter.valid());
    assert!(iter.advance());
    assert!(iter.current(&mut k, &mut val));
    assert_eq!(parse_internal_key(&k).2, "haa".as_bytes());

    // Seeking past every file's largest key leaves the iterator invalid.
    let past = LookupKey::new("zzz".as_bytes(), MAX_SEQUENCE_NUMBER);
    iter.seek(past.internal_key());
    assert!(!iter.valid());
    assert!(!iter.current(&mut k, &mut val));
    assert!(iter.advance());
    assert!(iter.current(&mut k, &mut val));
    assert_eq!(parse_internal_key(&k).2, "haa".as_bytes());
}

#[test]
fn test_version_all_iters() {
    let v = make_version();
    let iters = v.new_iters().unwrap();

    let mut keys: Vec<Vec<u8>> = Vec::new();
    let mut k = Vec::new();
    let mut val = Vec::new();
    for iter in iters {
        match iter {
            MergeSource::Table(mut t) => {
                while t.advance() {
                    assert!(t.current(&mut k, &mut val));
                    keys.push(k.clone());
                }
            }
            MergeSource::Level(mut vi) => {
                while vi.advance() {
                    assert!(vi.current(&mut k, &mut val));
                    keys.push(k.clone());
                }
            }
        }
    }
    assert_eq!(keys.len(), 25);

    // Merged, the internal keys are in strictly ascending order.
    let cmp = InternalKeyCmp;
    keys.sort_by(|a, b| cmp.cmp(a, b));
    let init = LookupKey::new("000".as_bytes(), MAX_SEQUENCE_NUMBER);
    let mut prev = init.internal_key().to_vec();
    for key in keys {
        assert!(cmp.cmp(&prev, &key) == Ordering::Less);
        prev = key;
    }
}

#[test]
fn test_version_get_simple() {
    let v = make_version();
    let cases: &[(&[u8], u64, Option<Vec<u8>>)] = &[
        ("aaa".as_bytes(), 0, None),
        ("aaa".as_bytes(), 1, Some("val1".as_bytes().to_vec())),
        ("aaa".as_bytes(), 100, Some("val1".as_bytes().to_vec())),
        ("aab".as_bytes(), 0, None),
        ("aab".as_bytes(), 100, Some("val2".as_bytes().to_vec())),
        ("daa".as_bytes(), 100, Some("val1".as_bytes().to_vec())),
        ("dab".as_bytes(), 1, None),
        ("dac".as_bytes(), 100, None),
        ("gba".as_bytes(), 100, Some("val3".as_bytes().to_vec())),
        ("gbb".as_bytes(), 100, None),
    ];

    for c in cases {
        match v.get(&LookupKey::new(c.0, c.1)) {
            Ok(Some((val, _))) => assert_eq!(c.2.as_ref().unwrap(), &val),
            Ok(None) => assert!(c.2.is_none()),
            Err(_) => panic!("lookup failed"),
        }
    }
}

#[test]
fn test_version_overlap_in_level() {
    let v = make_version();

    for &(level, (k1, k2), want) in &[
        (0, ("000".as_bytes(), "003".as_bytes()), false),
        (0, ("aa0".as_bytes(), "abx".as_bytes()), true),
        (1, ("012".as_bytes(), "013".as_bytes()), false),
        (1, ("abc".as_bytes(), "def".as_bytes()), true),
        (2, ("xxx".as_bytes(), "xyz".as_bytes()), false),
        (2, ("gac".as_bytes(), "gaz".as_bytes()), true),
    ] {
        if want {
            assert!(v.overlap_in_level(level, k1, k2));
        } else {
            assert!(!v.overlap_in_level(level, k1, k2));
        }
    }
}

#[test]
fn test_version_overlapping_inputs() {
    let v = make_version();

    {
        // Range is expanded in overlapping level-0 files.
        let from = LookupKey::new("aab".as_bytes(), MAX_SEQUENCE_NUMBER);
        let to = LookupKey::new("aae".as_bytes(), 0);
        let r = v.overlapping_inputs(0, from.internal_key(), to.internal_key());
        assert_eq!(r.len(), 2);
        assert_eq!(r[0].num, 1);
        assert_eq!(r[1].num, 2);
    }
    {
        let from = LookupKey::new("cab".as_bytes(), MAX_SEQUENCE_NUMBER);
        let to = LookupKey::new("cbx".as_bytes(), 0);
        // expect one file.
        let r = v.overlapping_inputs(1, from.internal_key(), to.internal_key());
        assert_eq!(r.len(), 1);
        assert_eq!(r[0].num, 3);
    }
    {
        let from = LookupKey::new("cab".as_bytes(), MAX_SEQUENCE_NUMBER);
        let to = LookupKey::new("ebx".as_bytes(), 0);
        let r = v.overlapping_inputs(1, from.internal_key(), to.internal_key());
        // Assert that correct number of files and correct files were returned.
        assert_eq!(r.len(), 3);
        assert_eq!(r[0].num, 3);
        assert_eq!(r[1].num, 4);
        assert_eq!(r[2].num, 5);
    }
    {
        let from = LookupKey::new("hhh".as_bytes(), MAX_SEQUENCE_NUMBER);
        let to = LookupKey::new("ijk".as_bytes(), 0);
        let r = v.overlapping_inputs(2, from.internal_key(), to.internal_key());
        assert_eq!(r.len(), 0);
        let r = v.overlapping_inputs(1, from.internal_key(), to.internal_key());
        assert_eq!(r.len(), 0);
    }
}

#[test]
fn test_version_record_read_sample() {
    let mut v = make_version();
    let k = LookupKey::new("aab".as_bytes(), MAX_SEQUENCE_NUMBER);
    let only_in_one = LookupKey::new("cax".as_bytes(), MAX_SEQUENCE_NUMBER);

    assert!(!v.record_read_sample(&k));
    assert!(!v.record_read_sample(&only_in_one));

    for fs in v.files.iter_mut() {
        for f in fs {
            f.allowed_seeks = 0;
        }
    }
    assert!(v.record_read_sample(&k));
}

#[test]
fn test_version_key_ordering() {
    let fmh = new_file(1, &[1, 0, 0], 0, &[2, 0, 0], 1);
    let cmp = InternalKeyCmp;

    // Keys before file.
    for k in &[&[0][..], &[1], &[1, 0], &[0, 9, 9, 9]] {
        assert!(key_is_before_file(&cmp, k, &fmh));
        assert!(!key_is_after_file(&cmp, k, &fmh));
    }
    // Keys in file.
    for k in &[&[1, 0, 0][..], &[1, 0, 1], &[1, 2, 3, 4], &[1, 9, 9], &[2, 0, 0]] {
        assert!(!key_is_before_file(&cmp, k, &fmh));
        assert!(!key_is_after_file(&cmp, k, &fmh));
    }
    // Keys after file.
    for k in &[&[2, 0, 1][..], &[9, 9, 9], &[9, 9, 9, 9]] {
        assert!(!key_is_before_file(&cmp, k, &fmh));
        assert!(key_is_after_file(&cmp, k, &fmh));
    }
}

#[test]
fn test_version_file_overlaps() {
    let files_disjoint = [
        new_file(1, &[2, 0, 0], 0, &[3, 0, 0], 1),
        new_file(2, &[3, 0, 1], 0, &[4, 0, 0], 1),
        new_file(3, &[4, 0, 1], 0, &[5, 0, 0], 1),
    ];
    let files_joint = [
        new_file(1, &[2, 0, 0], 0, &[3, 0, 0], 1),
        new_file(2, &[2, 5, 0], 0, &[4, 0, 0], 1),
        new_file(3, &[3, 5, 1], 0, &[5, 0, 0], 1),
    ];
    let cmp = InternalKeyCmp;

    assert!(some_file_overlaps_range(&cmp, &files_joint, &[2, 5, 0], &[3, 1, 0]));
    assert!(some_file_overlaps_range(&cmp, &files_joint, &[2, 5, 0], &[7, 0, 0]));
    assert!(some_file_overlaps_range(&cmp, &files_joint, &[0, 0], &[2, 0, 0]));
    assert!(some_file_overlaps_range(&cmp, &files_joint, &[0, 0], &[7, 0, 0]));
    assert!(!some_file_overlaps_range(&cmp, &files_joint, &[0, 0], &[0, 5]));
    assert!(!some_file_overlaps_range(&cmp, &files_joint, &[6, 0], &[7, 5]));

    assert!(some_file_overlaps_range_disjoint(&cmp, &files_disjoint, &[2, 0, 1], &[2, 5, 0]));
    assert!(some_file_overlaps_range_disjoint(&cmp, &files_disjoint, &[3, 0, 1], &[4, 9, 0]));
    assert!(some_file_overlaps_range_disjoint(&cmp, &files_disjoint, &[2, 0, 1], &[6, 5, 0]));
    assert!(some_file_overlaps_range_disjoint(&cmp, &files_disjoint, &[0, 0, 1], &[2, 5, 0]));
    assert!(some_file_overlaps_range_disjoint(&cmp, &files_disjoint, &[0, 0, 1], &[6, 5, 0]));
    assert!(!some_file_overlaps_range_disjoint(&cmp, &files_disjoint, &[0, 0, 1], &[0, 1]));
    assert!(!some_file_overlaps_range_disjoint(&cmp, &files_disjoint, &[6, 0, 1], &[7, 0, 1]));
}

#[test]
fn test_find_file_lower_bound() {
    let files = [
        new_file(1, &[2, 0, 0], 0, &[3, 0, 0], 1),
        new_file(2, &[3, 0, 1], 0, &[4, 0, 0], 1),
        new_file(3, &[4, 0, 1], 0, &[5, 0, 0], 1),
    ];
    let cmp = InternalKeyCmp;

    let probe = |k: &[u8]| LookupKey::new(k, MAX_SEQUENCE_NUMBER).internal_key().to_vec();
    assert_eq!(find_file(&cmp, &files, &probe(&[1, 0, 0])), 0);
    assert_eq!(find_file(&cmp, &files, &probe(&[2, 5, 0])), 0);
    assert_eq!(find_file(&cmp, &files, &probe(&[3, 0, 0])), 0);
    assert_eq!(find_file(&cmp, &files, &probe(&[3, 0, 2])), 1);
    assert_eq!(find_file(&cmp, &files, &probe(&[4, 5, 0])), 2);
    assert_eq!(find_file(&cmp, &files, &probe(&[5, 0, 1])), 3);
}

#[test]
fn test_record_read_sample_idempotent_nomination() {
    let mut v = make_version();
    let k = LookupKey::new("aab".as_bytes(), MAX_SEQUENCE_NUMBER);
    for fs in v.files.iter_mut() {
        for f in fs {
            f.allowed_seeks = 0;
        }
    }
    assert!(v.record_read_sample(&k));
    let nominated = v.file_to_compact;
    let level = v.file_to_compact_lvl;
    assert!(nominated.is_some());
    // Once a file is nominated, further samples never change the nomination.
    assert!(!v.record_read_sample(&k));
    assert_eq!(v.file_to_compact, nominated);
    assert_eq!(v.file_to_compact_lvl, level);
}

#[test]
fn test_get_charges_first_fruitless_probe() {
    // Two overlapping level-0 files: the newer one covers the key's range
    // but misses, the older one holds the key. The wasted probe of the
    // newer file is charged.
    let mut cache = TableCache::new();
    let older = write_table(
        &mut cache,
        &[("kkk".as_bytes(), "hit".as_bytes())],
        1,
        1,
    );
    let newer = write_table(
        &mut cache,
        &[("jjj".as_bytes(), "x".as_bytes()), ("lll".as_bytes(), "y".as_bytes())],
        2,
        2,
    );
    let mut v = Version::new(cache);
    v.files[0] = vec![older, newer];

    match v.get(&LookupKey::new("kkk".as_bytes(), MAX_SEQUENCE_NUMBER)) {
        Ok(Some((val, stats))) => {
            assert_eq!(val, "hit".as_bytes().to_vec());
            assert_eq!(stats.file, Some(2));
            assert_eq!(stats.level, 0);
        }
        _ => panic!("expected a hit"),
    }
}

#[test]
fn test_get_newest_first_without_charge() {
    // Both level-0 files hold the key; the newer file is probed first and
    // matches at once, so its value wins and no file is charged.
    let mut cache = TableCache::new();
    let older = write_table(
        &mut cache,
        &[("kkk".as_bytes(), "old".as_bytes())],
        1,
        1,
    );
    let newer = write_table(
        &mut cache,
        &[("kkk".as_bytes(), "new".as_bytes())],
        2,
        2,
    );
    let mut v = Version::new(cache);
    v.files[0] = vec![older, newer];

    match v.get(&LookupKey::new("kkk".as_bytes(), MAX_SEQUENCE_NUMBER)) {
        Ok(Some((val, stats))) => {
            assert_eq!(val, "new".as_bytes().to_vec());
            assert_eq!(stats.file, None);
        }
        _ => panic!("expected a hit"),
    }
}
