use multimap_table::table::{MultimapTable, ReadableMultimapTable};
use multimap_table::range::KeyBound;

fn seeded_table() -> MultimapTable {
    let mut table = MultimapTable::new();
    assert!(!table.insert(&[1], b"a"));
    assert!(!table.insert(&[1], b"b"));
    assert!(!table.insert(&[2], b"a"));
    table
}

#[test]
fn get_yields_values_in_order() {
    let table = seeded_table();
    let mut it = table.get(&[1]);
    assert_eq!(it.next(), Some(b"a".to_vec()));
    assert_eq!(it.next(), Some(b"b".to_vec()));
    assert_eq!(it.next(), None);
}

#[test]
fn range_over_one_key() {
    let table = seeded_table();
    let mut it = table.range(KeyBound::Included(vec![1]), KeyBound::Included(vec![1]));
    assert_eq!(it.next(), Some((vec![1], b"a".to_vec())));
    assert_eq!(it.next(), Some((vec![1], b"b".to_vec())));
    assert_eq!(it.next(), None);
}

#[test]
fn range_over_two_keys() {
    let table = seeded_table();
    let mut it = table.range(KeyBound::Included(vec![1]), KeyBound::Included(vec![2]));
    assert_eq!(it.next(), Some((vec![1], b"a".to_vec())));
    assert_eq!(it.next(), Some((vec![1], b"b".to_vec())));
    assert_eq!(it.next(), Some((vec![2], b"a".to_vec())));
    assert_eq!(it.next(), None);
}

#[test]
fn remove_one_pair() {
    let mut table = seeded_table();
    assert!(table.remove(&[1], b"a"));
    let mut it = table.get(&[1]);
    assert_eq!(it.next(), Some(b"b".to_vec()));
    assert_eq!(it.next(), None);
}

#[test]
fn remove_all_yields_removed_values() {
    let mut table = seeded_table();
    let mut removed = table.remove_all(&[1]);
    assert_eq!(removed.next(), Some(b"a".to_vec()));
    assert_eq!(removed.next(), Some(b"b".to_vec()));
    assert_eq!(removed.next(), None);
    let mut it = table.get(&[1]);
    assert_eq!(it.next(), None);
    assert_eq!(table.len(), 1);
}

#[test]
fn reinsert_reports_present() {
    let mut table = MultimapTable::new();
    assert!(!table.insert(&[1], b"a"));
    assert!(table.insert(&[1], b"a"));
    assert_eq!(table.len(), 1);
}
