//! The encoded-pair format.
//!
//! Layout of an encoded entry:
//! * byte 0: compare op (1 = key & value, 2 = key - epsilon, 3 = key + epsilon,
//!   4 = key only)
//! * bytes 1..5: key length, little-endian unsigned 32-bit
//! * bytes 5..5+key_len: key bytes
//! * remaining bytes: value bytes (absent for the sentinel ops 2..4)

use vstd::prelude::*;
use vstd::bytes::{spec_u32_to_le_bytes, spec_u32_from_le_bytes, lemma_auto_spec_u32_to_from_le_bytes, u32_to_le_bytes, u32_from_le_bytes};
use vstd::slice::{slice_subrange, slice_to_vec};

verus! {

/// How an encoded entry takes part in comparisons: a real pair compares by
/// key and value; the three sentinel kinds slot below, above, or level with
/// the run of pairs sharing their key.
#[derive(Clone, Copy, PartialEq, Eq, Structural)]
pub enum MultimapKeyCompareOp {
    KeyAndValue,
    KeyMinusEpsilon,
    KeyPlusEpsilon,
    KeyOnly,
}

impl MultimapKeyCompareOp {
    /// The tag byte that stands for this op in an encoded entry.
    pub open spec fn spec_serialize(self) -> u8 {
        match self {
            MultimapKeyCompareOp::KeyAndValue => 1,
            MultimapKeyCompareOp::KeyMinusEpsilon => 2,
            MultimapKeyCompareOp::KeyPlusEpsilon => 3,
            MultimapKeyCompareOp::KeyOnly => 4,
        }
    }

    pub fn serialize(&self) -> (r: u8)
        ensures
            r == self.spec_serialize(),
    {
        match self {
            MultimapKeyCompareOp::KeyAndValue => 1,
            MultimapKeyCompareOp::KeyMinusEpsilon => 2,
            MultimapKeyCompareOp::KeyPlusEpsilon => 3,
            MultimapKeyCompareOp::KeyOnly => 4,
        }
    }
}

/// The encoding of an entry with the given tag byte, key bytes and value bytes.
pub open spec fn encoded(tag: u8, key: Seq<u8>, value: Seq<u8>) -> Seq<u8> {
    seq![tag] + spec_u32_to_le_bytes(key.len() as u32) + key + value
}

/// The tag byte of an encoded entry.
pub open spec fn entry_tag(d: Seq<u8>) -> u8 {
    d[0]
}

/// The key length recorded in the header of an encoded entry.
pub open spec fn entry_key_len(d: Seq<u8>) -> int {
    spec_u32_from_le_bytes(d.subrange(1, 5)) as int
}

/// The key bytes of an encoded entry.
pub open spec fn entry_key(d: Seq<u8>) -> Seq<u8> {
    d.subrange(5, 5 + entry_key_len(d))
}

/// The value bytes of an encoded entry (empty for sentinels).
pub open spec fn entry_value(d: Seq<u8>) -> Seq<u8> {
    d.subrange(5 + entry_key_len(d), d.len() as int)
}

/// A well-formed encoded entry: long enough for its header and its key, with
/// a recognized tag, and with no value bytes unless it is a real pair.
pub open spec fn wf_entry(d: Seq<u8>) -> bool {
    &&& d.len() >= 5
    &&& 1 <= entry_tag(d) <= 4
    &&& 5 + entry_key_len(d) <= d.len()
    &&& (entry_tag(d) != 1 ==> d.len() == 5 + entry_key_len(d))
}

/// A well-formed entry that is a real stored pair.
pub open spec fn is_pair(d: Seq<u8>) -> bool {
    wf_entry(d) && entry_tag(d) == 1
}

/// A key short enough for its length to fit the 32-bit header field.
pub open spec fn key_len_ok(key: Seq<u8>) -> bool {
    key.len() <= u32::MAX
}

/// Decoding an encoding gives back the tag, key and value it was built from.
pub proof fn lemma_encoded_parts(tag: u8, key: Seq<u8>, value: Seq<u8>)
    requires
        key_len_ok(key),
    ensures
        encoded(tag, key, value).len() == 5 + key.len() + value.len(),
        entry_tag(encoded(tag, key, value)) == tag,
        entry_key_len(encoded(tag, key, value)) == key.len(),
        entry_key(encoded(tag, key, value)) == key,
        entry_value(encoded(tag, key, value)) == value,
{
    lemma_auto_spec_u32_to_from_le_bytes();
    let d = encoded(tag, key, value);
    assert(d.subrange(1, 5) =~= spec_u32_to_le_bytes(key.len() as u32));
    assert(entry_key(d) =~= key);
    assert(entry_value(d) =~= value);
}

/// A well-formed entry equals the encoding of its own decoded parts.
pub proof fn lemma_decode_encode(d: Seq<u8>)
    requires
        wf_entry(d),
    ensures
        key_len_ok(entry_key(d)),
        entry_tag(d) == 1 ==> d == encoded(entry_tag(d), entry_key(d), entry_value(d)),
        entry_tag(d) != 1 ==> d == encoded(entry_tag(d), entry_key(d), Seq::<u8>::empty()),
{
    lemma_auto_spec_u32_to_from_le_bytes();
    assert(spec_u32_to_le_bytes(spec_u32_from_le_bytes(d.subrange(1, 5))) == d.subrange(1, 5));
    if entry_tag(d) == 1 {
        assert(d =~= encoded(entry_tag(d), entry_key(d), entry_value(d)));
    } else {
        assert(entry_value(d) =~= Seq::<u8>::empty());
        assert(d =~= encoded(entry_tag(d), entry_key(d), Seq::<u8>::empty()));
    }
}

/// Two pairs with the same key and value are the same encoded entry.
pub proof fn lemma_pair_encoding_injective(a: Seq<u8>, b: Seq<u8>)
    requires
        is_pair(a),
        is_pair(b),
        entry_key(a) == entry_key(b),
        entry_value(a) == entry_value(b),
    ensures
        a == b,
{
    lemma_decode_encode(a);
    lemma_decode_encode(b);
}

/// Builds the serialized form of an entry from its parts.
fn build_entry(tag: u8, key: &[u8], value: &[u8]) -> (r: Vec<u8>)
    requires
        key@.len() <= u32::MAX,
        5 + key@.len() + value@.len() <= usize::MAX,
    ensures
        r@ == encoded(tag, key@, value@),
{
    let mut data: Vec<u8> = Vec::new();
    data.push(tag);
    let len_bytes: Vec<u8> = u32_to_le_bytes(key.len() as u32);
    let mut i: usize = 0;
    while i < 4
        invariant
            0 <= i <= 4,
            len_bytes@.len() == 4,
            len_bytes@ == spec_u32_to_le_bytes(key@.len() as u32),
            data@ == seq![tag] + len_bytes@.subrange(0, i as int),
        decreases 4 - i,
    {
        data.push(len_bytes[i]);
        proof {
            assert(seq![tag] + len_bytes@.subrange(0, i as int) + seq![len_bytes@[i as int]]
                =~= seq![tag] + len_bytes@.subrange(0, i + 1));
        }
        i = i + 1;
    }
    proof {
        assert(len_bytes@.subrange(0, 4) =~= len_bytes@);
    }
    let mut j: usize = 0;
    while j < key.len()
        invariant
            0 <= j <= key@.len(),
            key@.len() <= u32::MAX,
            5 + key@.len() + value@.len() <= usize::MAX,
            data@ == seq![tag] + spec_u32_to_le_bytes(key@.len() as u32) + key@.subrange(0, j as int),
        decreases key@.len() - j,
    {
        data.push(key[j]);
        proof {
            assert(seq![tag] + spec_u32_to_le_bytes(key@.len() as u32) + key@.subrange(0, j as int)
                + seq![key@[j as int]]
                =~= seq![tag] + spec_u32_to_le_bytes(key@.len() as u32) + key@.subrange(0, j + 1));
        }
        j = j + 1;
    }
    proof {
        assert(key@.subrange(0, key@.len() as int) =~= key@);
    }
    let mut m: usize = 0;
    while m < value.len()
        invariant
            0 <= m <= value@.len(),
            key@.len() <= u32::MAX,
            5 + key@.len() + value@.len() <= usize::MAX,
            data@ == seq![tag] + spec_u32_to_le_bytes(key@.len() as u32) + key@
                + value@.subrange(0, m as int),
        decreases value@.len() - m,
    {
        data.push(value[m]);
        proof {
            assert(seq![tag] + spec_u32_to_le_bytes(key@.len() as u32) + key@
                + value@.subrange(0, m as int) + seq![value@[m as int]]
                =~= seq![tag] + spec_u32_to_le_bytes(key@.len() as u32) + key@
                    + value@.subrange(0, m + 1));
        }
        m = m + 1;
    }
    proof {
        assert(value@.subrange(0, value@.len() as int) =~= value@);
    }
    data
}

/// Builds the serialized form of a sentinel query key: the given op's tag,
/// the key length, and the key bytes.
pub fn make_serialized_key_with_op(key: &[u8], op: MultimapKeyCompareOp) -> (r: Vec<u8>)
    requires
        key@.len() <= u32::MAX,
        5 + key@.len() <= usize::MAX,
    ensures
        r@ == encoded(op.spec_serialize(), key@, Seq::<u8>::empty()),
        wf_entry(r@),
        entry_tag(r@) == op.spec_serialize(),
        entry_key(r@) == key@,
        entry_value(r@) == Seq::<u8>::empty(),
{
    let tag: u8 = op.serialize();
    let empty: Vec<u8> = Vec::new();
    let r: Vec<u8> = build_entry(tag, key, empty.as_slice());
    proof {
        assert(empty@ =~= Seq::<u8>::empty());
        lemma_encoded_parts(tag, key@, Seq::<u8>::empty());
    }
    r
}

/// Checks whether a raw buffer is a well-formed encoded entry: long enough
/// for its header and its key, with a recognized tag, and with no value bytes
/// unless it is a real pair.  A buffer that fails this check does not decode.
pub fn entry_is_well_formed(data: &[u8]) -> (r: bool)
    ensures
        r == wf_entry(data@),
{
    let total: usize = data.len();
    if total < 5 {
        return false;
    }
    let tag: u8 = data[0];
    if tag < 1 || tag > 4 {
        return false;
    }
    let header: &[u8] = slice_subrange(data, 1, 5);
    let key_len: u32 = u32_from_le_bytes(header);
    if total < 5 || key_len as u64 > (total - 5) as u64 {
        return false;
    }
    if tag != 1 && key_len as u64 != (total - 5) as u64 {
        return false;
    }
    true
}

/// An owned encoded entry.
pub struct MultimapKVPair {
    data: Vec<u8>,
}

impl View for MultimapKVPair {
    type V = Seq<u8>;

    closed spec fn view(&self) -> Seq<u8> {
        self.data@
    }
}

impl MultimapKVPair {
    /// Wraps already-encoded bytes.
    pub fn new(data: Vec<u8>) -> (r: Self)
        requires
            wf_entry(data@),
        ensures
            r@ == data@,
            wf_entry(r@),
    {
        MultimapKVPair { data }
    }

    /// Encodes a real pair from its key bytes and value bytes.
    pub fn new_pair(key: &[u8], value: &[u8]) -> (r: Self)
        requires
            key@.len() <= u32::MAX,
            5 + key@.len() + value@.len() <= usize::MAX,
        ensures
            r@ == encoded(1, key@, value@),
            is_pair(r@),
            entry_key(r@) == key@,
            entry_value(r@) == value@,
    {
        let data: Vec<u8> = build_entry(1, key, value);
        proof {
            lemma_encoded_parts(1, key@, value@);
        }
        MultimapKVPair { data }
    }

    /// The encoded bytes.
    pub fn as_bytes(&self) -> (r: &[u8])
        ensures
            r@ == self@,
    {
        self.data.as_slice()
    }
}

/// A read-only view over the bytes of one encoded entry.
pub struct MultimapKVPairAccessor<'a> {
    data: &'a [u8],
}

impl<'a> View for MultimapKVPairAccessor<'a> {
    type V = Seq<u8>;

    closed spec fn view(&self) -> Seq<u8> {
        self.data@
    }
}

impl<'a> MultimapKVPairAccessor<'a> {
    pub fn new(data: &'a [u8]) -> (r: Self)
        requires
            wf_entry(data@),
        ensures
            r@ == data@,
    {
        MultimapKVPairAccessor { data }
    }

    /// The compare op recorded in the tag byte.
    pub fn compare_op(&self) -> (r: MultimapKeyCompareOp)
        requires
            wf_entry(self@),
        ensures
            r.spec_serialize() == entry_tag(self@),
    {
        let tag: u8 = self.data[0];
        if tag == 1 {
            MultimapKeyCompareOp::KeyAndValue
        } else if tag == 2 {
            MultimapKeyCompareOp::KeyMinusEpsilon
        } else if tag == 3 {
            MultimapKeyCompareOp::KeyPlusEpsilon
        } else {
            MultimapKeyCompareOp::KeyOnly
        }
    }

    /// The key length recorded in the header.
    pub fn key_len(&self) -> (r: usize)
        requires
            wf_entry(self@),
        ensures
            r == entry_key_len(self@),
    {
        let header: &[u8] = slice_subrange(self.data, 1, 5);
        let n: u32 = u32_from_le_bytes(header);
        n as usize
    }

    /// The key bytes.
    pub fn key_bytes(&self) -> (r: &'a [u8])
        requires
            wf_entry(self@),
        ensures
            r@ == entry_key(self@),
    {
        let len: usize = self.key_len();
        let total: usize = self.data.len();
        proof {
            assert(5 + len <= total);
        }
        slice_subrange(self.data, 5, 5 + len)
    }

    /// The value bytes (empty for sentinels).
    pub fn value_bytes(&self) -> (r: &'a [u8])
        requires
            wf_entry(self@),
        ensures
            r@ == entry_value(self@),
    {
        let len: usize = self.key_len();
        let total: usize = self.data.len();
        proof {
            assert(5 + len <= total);
        }
        slice_subrange(self.data, 5 + len, total)
    }
}

/// Copies the value bytes of an encoded entry into an owned vector.
pub fn entry_value_to_vec(data: &[u8]) -> (r: Vec<u8>)
    requires
        wf_entry(data@),
    ensures
        r@ == entry_value(data@),
{
    let accessor = MultimapKVPairAccessor::new(data);
    slice_to_vec(accessor.value_bytes())
}

/// Copies the key bytes of an encoded entry into an owned vector.
pub fn entry_key_to_vec(data: &[u8]) -> (r: Vec<u8>)
    requires
        wf_entry(data@),
    ensures
        r@ == entry_key(data@),
{
    let accessor = MultimapKVPairAccessor::new(data);
    slice_to_vec(accessor.key_bytes())
}

} // verus!
