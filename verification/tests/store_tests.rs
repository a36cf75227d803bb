use multimap_table::codec::{MultimapKVPair, MultimapKeyCompareOp, make_serialized_key_with_op};
use multimap_table::store::BtreeStore;

fn pair(key: &[u8], value: &[u8]) -> MultimapKVPair {
    MultimapKVPair::new_pair(key, value)
}

#[test]
fn store_keeps_entries_sorted() {
    let mut store = BtreeStore::new();
    assert!(!store.insert(pair(b"b", b"2")));
    assert!(!store.insert(pair(b"a", b"1")));
    assert!(!store.insert(pair(b"a", b"0")));
    assert_eq!(store.len(), 3);
    let all = store.range_entries(&None, &None);
    assert_eq!(all[0], pair(b"a", b"0").as_bytes());
    assert_eq!(all[1], pair(b"a", b"1").as_bytes());
    assert_eq!(all[2], pair(b"b", b"2").as_bytes());
}

#[test]
fn duplicate_insert_reports_presence_and_keeps_one_entry() {
    let mut store = BtreeStore::new();
    assert!(!store.insert(pair(b"k", b"v")));
    assert!(store.insert(pair(b"k", b"v")));
    assert_eq!(store.len(), 1);
}

#[test]
fn key_only_match_removes_the_smallest_value_first() {
    let mut store = BtreeStore::new();
    store.insert(pair(b"k", b"b"));
    store.insert(pair(b"k", b"a"));
    store.insert(pair(b"z", b"x"));
    let key_only = make_serialized_key_with_op(b"k", MultimapKeyCompareOp::KeyOnly);
    assert!(store.remove_first_match(&key_only));
    let all = store.range_entries(&None, &None);
    assert_eq!(all[0], pair(b"k", b"b").as_bytes());
    assert!(store.remove_first_match(&key_only));
    assert!(!store.remove_first_match(&key_only));
    assert_eq!(store.len(), 1);
}

#[test]
fn snapshot_is_unaffected_by_later_removals() {
    let mut store = BtreeStore::new();
    store.insert(pair(b"k", b"v"));
    let snapshot = store.snapshot();
    assert!(store.remove(pair(b"k", b"v").as_bytes()));
    assert_eq!(store.len(), 0);
    assert_eq!(snapshot.len(), 1);
}

#[test]
fn range_scan_between_sentinels_is_inclusive() {
    let mut store = BtreeStore::new();
    store.insert(pair(b"a", b"1"));
    store.insert(pair(b"k", b"1"));
    store.insert(pair(b"k", b"2"));
    store.insert(pair(b"z", b"1"));
    let lower = make_serialized_key_with_op(b"k", MultimapKeyCompareOp::KeyMinusEpsilon);
    let upper = make_serialized_key_with_op(b"k", MultimapKeyCompareOp::KeyPlusEpsilon);
    let within = store.range_entries(&Some(lower), &Some(upper));
    assert_eq!(within.len(), 2);
    assert_eq!(within[0], pair(b"k", b"1").as_bytes());
    assert_eq!(within[1], pair(b"k", b"2").as_bytes());
}
