use std::cmp::Ordering;
use multimap_table::codec::{MultimapKVPair, MultimapKeyCompareOp, make_serialized_key_with_op};
use multimap_table::order::compare_bytes;

fn pair(key: &[u8], value: &[u8]) -> Vec<u8> {
    MultimapKVPair::new_pair(key, value).as_bytes().to_vec()
}

fn sentinel(key: &[u8], op: MultimapKeyCompareOp) -> Vec<u8> {
    make_serialized_key_with_op(key, op)
}

#[test]
fn pair_sorts_above_minus_epsilon_of_its_key() {
    let p = pair(b"k", b"v");
    let minus = sentinel(b"k", MultimapKeyCompareOp::KeyMinusEpsilon);
    assert_eq!(MultimapKVPair::compare(&p, &minus), Ordering::Greater);
    assert_eq!(MultimapKVPair::compare(&minus, &p), Ordering::Less);
}

#[test]
fn pair_sorts_below_plus_epsilon_of_its_key() {
    let p = pair(b"k", b"v");
    let plus = sentinel(b"k", MultimapKeyCompareOp::KeyPlusEpsilon);
    assert_eq!(MultimapKVPair::compare(&p, &plus), Ordering::Less);
    assert_eq!(MultimapKVPair::compare(&plus, &p), Ordering::Greater);
}

#[test]
fn pair_sorts_level_with_key_only_of_its_key() {
    let p = pair(b"k", b"v");
    let key_only = sentinel(b"k", MultimapKeyCompareOp::KeyOnly);
    assert_eq!(MultimapKVPair::compare(&p, &key_only), Ordering::Equal);
    assert_eq!(MultimapKVPair::compare(&key_only, &p), Ordering::Equal);
}

#[test]
fn pair_sorts_above_all_sentinels_of_a_smaller_key() {
    let p = pair(b"k", b"v");
    for op in [
        MultimapKeyCompareOp::KeyMinusEpsilon,
        MultimapKeyCompareOp::KeyPlusEpsilon,
        MultimapKeyCompareOp::KeyOnly,
    ] {
        let q = sentinel(b"a", op);
        assert_eq!(MultimapKVPair::compare(&p, &q), Ordering::Greater);
        assert_eq!(MultimapKVPair::compare(&q, &p), Ordering::Less);
    }
}

#[test]
fn pair_sorts_below_all_sentinels_of_a_larger_key() {
    let p = pair(b"k", b"v");
    for op in [
        MultimapKeyCompareOp::KeyMinusEpsilon,
        MultimapKeyCompareOp::KeyPlusEpsilon,
        MultimapKeyCompareOp::KeyOnly,
    ] {
        let q = sentinel(b"z", op);
        assert_eq!(MultimapKVPair::compare(&p, &q), Ordering::Less);
        assert_eq!(MultimapKVPair::compare(&q, &p), Ordering::Greater);
    }
}

#[test]
fn pairs_sort_by_key_then_value() {
    let small_key = pair(b"a", b"z");
    let large_key = pair(b"b", b"a");
    assert_eq!(MultimapKVPair::compare(&small_key, &large_key), Ordering::Less);
    assert_eq!(MultimapKVPair::compare(&large_key, &small_key), Ordering::Greater);

    let small_value = pair(b"k", b"a");
    let large_value = pair(b"k", b"b");
    assert_eq!(MultimapKVPair::compare(&small_value, &large_value), Ordering::Less);
    assert_eq!(MultimapKVPair::compare(&large_value, &small_value), Ordering::Greater);
    assert_eq!(MultimapKVPair::compare(&small_value, &small_value), Ordering::Equal);
}

#[test]
fn byte_strings_compare_lexicographically() {
    assert_eq!(compare_bytes(b"", b""), Ordering::Equal);
    assert_eq!(compare_bytes(b"", b"a"), Ordering::Less);
    assert_eq!(compare_bytes(b"a", b""), Ordering::Greater);
    assert_eq!(compare_bytes(b"ab", b"ab"), Ordering::Equal);
    assert_eq!(compare_bytes(b"ab", b"abc"), Ordering::Less);
    assert_eq!(compare_bytes(b"abd", b"abc"), Ordering::Greater);
    assert_eq!(compare_bytes(&[0, 255], &[1, 0]), Ordering::Less);
}
