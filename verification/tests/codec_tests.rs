use multimap_table::codec::{
    MultimapKVPair, MultimapKVPairAccessor, MultimapKeyCompareOp, entry_is_well_formed,
    make_serialized_key_with_op,
};

#[test]
fn compare_ops_serialize_to_their_tags() {
    assert_eq!(MultimapKeyCompareOp::KeyAndValue.serialize(), 1);
    assert_eq!(MultimapKeyCompareOp::KeyMinusEpsilon.serialize(), 2);
    assert_eq!(MultimapKeyCompareOp::KeyPlusEpsilon.serialize(), 3);
    assert_eq!(MultimapKeyCompareOp::KeyOnly.serialize(), 4);
}

#[test]
fn pair_encoding_layout_is_stable() {
    let p = MultimapKVPair::new_pair(b"key", b"val");
    assert_eq!(
        p.as_bytes(),
        &[1, 3, 0, 0, 0, b'k', b'e', b'y', b'v', b'a', b'l'],
    );
}

#[test]
fn sentinel_encoding_has_no_value_bytes() {
    let s = make_serialized_key_with_op(b"key", MultimapKeyCompareOp::KeyMinusEpsilon);
    assert_eq!(s, vec![2, 3, 0, 0, 0, b'k', b'e', b'y']);
    let s = make_serialized_key_with_op(b"key", MultimapKeyCompareOp::KeyPlusEpsilon);
    assert_eq!(s, vec![3, 3, 0, 0, 0, b'k', b'e', b'y']);
    let s = make_serialized_key_with_op(b"key", MultimapKeyCompareOp::KeyOnly);
    assert_eq!(s, vec![4, 3, 0, 0, 0, b'k', b'e', b'y']);
}

#[test]
fn key_length_is_little_endian() {
    let key: Vec<u8> = vec![7; 300];
    let p = MultimapKVPair::new_pair(&key, b"");
    let bytes = p.as_bytes();
    assert_eq!(&bytes[1..5], &[44, 1, 0, 0]);
}

#[test]
fn accessor_reads_back_the_parts() {
    let p = MultimapKVPair::new_pair(b"key", b"value");
    let bytes = p.as_bytes();
    let accessor = MultimapKVPairAccessor::new(bytes);
    assert!(accessor.compare_op() == MultimapKeyCompareOp::KeyAndValue);
    assert_eq!(accessor.key_len(), 3);
    assert_eq!(accessor.key_bytes(), b"key");
    assert_eq!(accessor.value_bytes(), b"value");
}

#[test]
fn sentinel_accessor_has_empty_value() {
    let s = make_serialized_key_with_op(b"key", MultimapKeyCompareOp::KeyOnly);
    let accessor = MultimapKVPairAccessor::new(&s);
    assert!(accessor.compare_op() == MultimapKeyCompareOp::KeyOnly);
    assert_eq!(accessor.key_bytes(), b"key");
    assert_eq!(accessor.value_bytes(), b"");
}

#[test]
fn well_formed_entries_are_recognized() {
    let p = MultimapKVPair::new_pair(b"key", b"value");
    assert!(entry_is_well_formed(p.as_bytes()));
    let s = make_serialized_key_with_op(b"", MultimapKeyCompareOp::KeyMinusEpsilon);
    assert!(entry_is_well_formed(&s));
    let empty_pair = MultimapKVPair::new_pair(b"", b"");
    assert!(entry_is_well_formed(empty_pair.as_bytes()));
}

#[test]
fn malformed_entries_are_rejected() {
    // Too short for the header.
    assert!(!entry_is_well_formed(&[]));
    assert!(!entry_is_well_formed(&[1, 0, 0, 0]));
    // Unrecognized tags.
    assert!(!entry_is_well_formed(&[0, 0, 0, 0, 0]));
    assert!(!entry_is_well_formed(&[5, 0, 0, 0, 0]));
    // Key length running past the buffer.
    assert!(!entry_is_well_formed(&[1, 2, 0, 0, 0, b'k']));
    // A sentinel carrying value bytes.
    assert!(!entry_is_well_formed(&[4, 1, 0, 0, 0, b'k', b'v']));
}
