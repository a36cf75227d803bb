use multimap_table::table::{MultimapTable, ReadOnlyMultimapTable, ReadableMultimapTable};
use multimap_table::range::KeyBound;

#[test]
fn fresh_table_is_empty() {
    let table = MultimapTable::new();
    assert_eq!(table.len(), 0);
    assert!(table.is_empty());
    let mut it = table.get(b"anything");
    assert_eq!(it.next(), None);
}

#[test]
fn insert_reports_prior_presence() {
    let mut table = MultimapTable::new();
    assert!(!table.insert(b"k", b"v"));
    assert!(table.insert(b"k", b"v"));
    assert!(!table.insert(b"k", b"w"));
    assert_eq!(table.len(), 2);
    assert!(!table.is_empty());
}

#[test]
fn remove_reports_prior_presence() {
    let mut table = MultimapTable::new();
    assert!(!table.insert(b"k", b"v"));
    assert!(!table.remove(b"k", b"w"));
    assert!(table.remove(b"k", b"v"));
    assert!(!table.remove(b"k", b"v"));
    assert_eq!(table.len(), 0);
}

#[test]
fn remove_all_of_absent_key_is_empty() {
    let mut table = MultimapTable::new();
    assert!(!table.insert(b"k", b"v"));
    let mut removed = table.remove_all(b"other");
    assert_eq!(removed.next(), None);
    assert_eq!(table.len(), 1);
}

#[test]
fn exclusive_bounds_exclude_their_key() {
    let mut table = MultimapTable::new();
    table.insert(&[1], b"a");
    table.insert(&[2], b"b");
    table.insert(&[3], b"c");
    let mut it = table.range(KeyBound::Excluded(vec![1]), KeyBound::Excluded(vec![3]));
    assert_eq!(it.next(), Some((vec![2], b"b".to_vec())));
    assert_eq!(it.next(), None);
}

#[test]
fn unbounded_range_yields_everything_in_order() {
    let mut table = MultimapTable::new();
    table.insert(&[2], b"b");
    table.insert(&[1], b"z");
    table.insert(&[1], b"a");
    let mut it = table.range(KeyBound::Unbounded, KeyBound::Unbounded);
    assert_eq!(it.next(), Some((vec![1], b"a".to_vec())));
    assert_eq!(it.next(), Some((vec![1], b"z".to_vec())));
    assert_eq!(it.next(), Some((vec![2], b"b".to_vec())));
    assert_eq!(it.next(), None);
}

#[test]
fn snapshot_sees_the_pre_mutation_state() {
    let mut table = MultimapTable::new();
    table.insert(b"k", b"old");
    let reader = ReadOnlyMultimapTable::new(&table);
    table.insert(b"k", b"new");
    table.remove(b"k", b"old");
    table.remove_all(b"k");

    let mut snapshot_values = reader.get(b"k");
    assert_eq!(snapshot_values.next(), Some(b"old".to_vec()));
    assert_eq!(snapshot_values.next(), None);
    assert_eq!(reader.len(), 1);
    assert_eq!(table.len(), 0);
}

#[test]
fn read_only_table_answers_ranges() {
    let mut table = MultimapTable::new();
    table.insert(&[1], b"a");
    table.insert(&[2], b"b");
    let reader = ReadOnlyMultimapTable::new(&table);
    let mut it = reader.range(KeyBound::Included(vec![2]), KeyBound::Unbounded);
    assert_eq!(it.next(), Some((vec![2], b"b".to_vec())));
    assert_eq!(it.next(), None);
    assert!(!reader.is_empty());
}

#[test]
fn values_of_one_key_come_out_sorted() {
    let mut table = MultimapTable::new();
    table.insert(b"k", b"b");
    table.insert(b"k", b"aa");
    table.insert(b"k", b"a");
    table.insert(b"k", b"c");
    let mut it = table.get(b"k");
    assert_eq!(it.next(), Some(b"a".to_vec()));
    assert_eq!(it.next(), Some(b"aa".to_vec()));
    assert_eq!(it.next(), Some(b"b".to_vec()));
    assert_eq!(it.next(), Some(b"c".to_vec()));
    assert_eq!(it.next(), None);
}
