use multimap_table::table::{MultimapTable, ReadableMultimapTable};
use multimap_table::range::KeyBound;

#[test]
fn reversed_values_are_the_exact_reverse() {
    let mut table = MultimapTable::new();
    table.insert(b"k", b"a");
    table.insert(b"k", b"b");
    table.insert(b"k", b"c");

    let mut forward = Vec::new();
    let mut it = table.get(b"k");
    while let Some(v) = it.next() {
        forward.push(v);
    }

    let mut backward = Vec::new();
    let mut it = table.get(b"k").rev();
    while let Some(v) = it.next() {
        backward.push(v);
    }

    let mut reversed = forward.clone();
    reversed.reverse();
    assert_eq!(backward, reversed);
    assert_eq!(forward, vec![b"a".to_vec(), b"b".to_vec(), b"c".to_vec()]);
}

#[test]
fn double_reversal_restores_forward_order() {
    let mut table = MultimapTable::new();
    table.insert(b"k", b"a");
    table.insert(b"k", b"b");
    let mut it = table.get(b"k").rev().rev();
    assert_eq!(it.next(), Some(b"a".to_vec()));
    assert_eq!(it.next(), Some(b"b".to_vec()));
    assert_eq!(it.next(), None);
}

#[test]
fn exhausted_value_iterator_stays_exhausted() {
    let mut table = MultimapTable::new();
    table.insert(b"k", b"v");
    let mut it = table.get(b"k");
    assert_eq!(it.next(), Some(b"v".to_vec()));
    assert_eq!(it.next(), None);
    assert_eq!(it.next(), None);
    assert_eq!(it.next(), None);
}

#[test]
fn reversed_range_walks_pairs_backward() {
    let mut table = MultimapTable::new();
    table.insert(&[1], b"a");
    table.insert(&[1], b"b");
    table.insert(&[2], b"c");
    let mut it = table.range(KeyBound::Unbounded, KeyBound::Unbounded).rev();
    assert_eq!(it.next(), Some((vec![2], b"c".to_vec())));
    assert_eq!(it.next(), Some((vec![1], b"b".to_vec())));
    assert_eq!(it.next(), Some((vec![1], b"a".to_vec())));
    assert_eq!(it.next(), None);
    assert_eq!(it.next(), None);
}

#[test]
fn remove_all_iterator_reads_the_snapshot() {
    let mut table = MultimapTable::new();
    table.insert(b"k", b"a");
    table.insert(b"k", b"b");
    table.insert(b"other", b"x");
    let mut removed = table.remove_all(b"k").rev();
    assert_eq!(removed.next(), Some(b"b".to_vec()));
    assert_eq!(removed.next(), Some(b"a".to_vec()));
    assert_eq!(removed.next(), None);
    assert_eq!(table.len(), 1);
}
