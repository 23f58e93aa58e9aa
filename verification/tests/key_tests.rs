//! Behaviour of the key encoding, the comparators, the table cache, the
//! seek budget and the logger.

use lsm_version::cmp::{cmp_user, DefaultCmp, InternalKeyCmp};
use lsm_version::env::Logger;
use lsm_version::error::Status;
use lsm_version::key_types::{decode_tag, parse_internal_key, LookupKey, MAX_SEQUENCE_NUMBER};
use lsm_version::table_cache::{Table, TableCache, TableEntry};
use lsm_version::types::initial_allowed_seeks;
use std::cmp::Ordering;

fn ikey(k: &[u8], seq: u64) -> Vec<u8> {
    LookupKey::new(k, seq).internal_key().to_vec()
}

#[test]
fn test_lookup_key_round_trip() {
    let lk = LookupKey::new("abc".as_bytes(), 7);
    assert_eq!(lk.user_key(), "abc".as_bytes());
    let (seq, typ, ukey) = parse_internal_key(lk.internal_key());
    assert_eq!(seq, 7);
    assert_eq!(typ, 1);
    assert_eq!(ukey, "abc".as_bytes());
    // The tag packs the sequence above the type byte, little endian.
    assert_eq!(decode_tag(lk.internal_key()), 7 * 256 + 1);
    assert_eq!(lk.internal_key().len(), 3 + 8);
}

#[test]
fn test_parse_internal_key_short_input() {
    let (seq, typ, ukey) = parse_internal_key(&[1, 2, 3]);
    assert_eq!(seq, 0);
    assert_eq!(typ, 0);
    assert_eq!(ukey, &[] as &[u8]);
}

#[test]
fn test_user_key_comparator() {
    let cmp = DefaultCmp;
    assert_eq!(cmp.cmp("abc".as_bytes(), "abd".as_bytes()), Ordering::Less);
    assert_eq!(cmp.cmp("abc".as_bytes(), "abc".as_bytes()), Ordering::Equal);
    assert_eq!(cmp.cmp("abd".as_bytes(), "abc".as_bytes()), Ordering::Greater);
    // A proper prefix sorts first.
    assert_eq!(cmp_user("ab".as_bytes(), "abc".as_bytes()), Ordering::Less);
    assert_eq!(cmp_user("abc".as_bytes(), "ab".as_bytes()), Ordering::Greater);
    assert_eq!(cmp_user(&[], &[]), Ordering::Equal);
}

#[test]
fn test_internal_key_comparator_newest_first() {
    let cmp = InternalKeyCmp;
    // User key ascending dominates.
    assert_eq!(cmp.cmp(&ikey(b"a", 1), &ikey(b"b", 9)), Ordering::Less);
    // For one user key, the higher sequence number sorts first.
    assert_eq!(cmp.cmp(&ikey(b"a", 9), &ikey(b"a", 1)), Ordering::Less);
    assert_eq!(cmp.cmp(&ikey(b"a", 1), &ikey(b"a", 9)), Ordering::Greater);
    assert_eq!(cmp.cmp(&ikey(b"a", 5), &ikey(b"a", 5)), Ordering::Equal);
    assert_eq!(cmp.cmp_inner(b"a", b"b"), Ordering::Less);
}

#[test]
fn test_table_cache_lookup() {
    let mut cache = TableCache::new();
    let entries = vec![
        TableEntry { key: ikey(b"aaa", 1), value: b"v1".to_vec() },
        TableEntry { key: ikey(b"bbb", 2), value: b"v2".to_vec() },
    ];
    cache.insert(Table::new(5, entries));

    // The smallest entry at or above the probe comes back.
    let hit = cache.get(5, &ikey(b"aaa", MAX_SEQUENCE_NUMBER)).unwrap();
    let (k, v) = hit.unwrap();
    assert_eq!(parse_internal_key(&k).2, b"aaa");
    assert_eq!(v, b"v1".to_vec());

    let above = cache.get(5, &ikey(b"abc", MAX_SEQUENCE_NUMBER)).unwrap();
    let (k, v) = above.unwrap();
    assert_eq!(parse_internal_key(&k).2, b"bbb");
    assert_eq!(v, b"v2".to_vec());

    // Past the last entry there is nothing.
    assert!(cache.get(5, &ikey(b"ccc", MAX_SEQUENCE_NUMBER)).unwrap().is_none());

    // A file number that was never inserted is not found.
    assert_eq!(cache.get(99, &ikey(b"aaa", 1)), Err(Status::NotFound));
    assert!(cache.get_table(99).is_err());
}

#[test]
fn test_initial_allowed_seeks_budget() {
    // One charge per 16 KiB of file, floored at 100.
    assert_eq!(initial_allowed_seeks(0), 100);
    assert_eq!(initial_allowed_seeks(163840), 100);
    assert_eq!(initial_allowed_seeks(100 * 16384), 100);
    assert_eq!(initial_allowed_seeks(101 * 16384), 101);
    assert_eq!(initial_allowed_seeks(150 * 16384 + 5), 150);
}

#[test]
fn test_logger_appends_lines() {
    let mut logger = Logger::new(Vec::new());
    logger.log("first");
    logger.log("second");
    let bytes = logger.take_buffer();
    assert_eq!(bytes, b"first\nsecond\n".to_vec());
    assert_eq!(logger.take_buffer(), Vec::<u8>::new());
}
