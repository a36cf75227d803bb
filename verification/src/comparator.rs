//! The composite comparator: a total order over encoded entries in which real
//! pairs sort by (key, value) and sentinel query keys slot immediately below,
//! immediately above, or level with the run of pairs sharing their key.
//!
//! At least one operand of every comparison must be a real pair; query code
//! never compares two sentinels against each other.

use vstd::prelude::*;
use std::cmp::Ordering;
use crate::order::{lex, flip, compare_bytes, lemma_lex_eq, lemma_lex_flip, lemma_lex_trans};
use crate::codec::{
    MultimapKVPair, MultimapKVPairAccessor, MultimapKeyCompareOp, encoded, entry_tag, entry_key,
    entry_value, wf_entry, is_pair, key_len_ok, lemma_encoded_parts, lemma_pair_encoding_injective,
};

verus! {

/// Comparison of a real pair `p` against a query entry `q` (which may itself
/// be a pair): keys are compared first, and the query's tag decides how a key
/// tie is broken.
pub open spec fn cmp_pair_query(p: Seq<u8>, q: Seq<u8>) -> Ordering {
    let kc = lex(entry_key(p), entry_key(q));
    if entry_tag(q) == 1 {
        if kc == Ordering::Equal {
            lex(entry_value(p), entry_value(q))
        } else {
            kc
        }
    } else if entry_tag(q) == 2 {
        if kc == Ordering::Equal {
            Ordering::Greater
        } else {
            kc
        }
    } else if entry_tag(q) == 3 {
        if kc == Ordering::Equal {
            Ordering::Less
        } else {
            kc
        }
    } else {
        kc
    }
}

/// The composite order over two encoded entries, at least one of which is a
/// real pair.
pub open spec fn entry_cmp(a: Seq<u8>, b: Seq<u8>) -> Ordering {
    if entry_tag(a) != 1 {
        flip(cmp_pair_query(b, a))
    } else {
        cmp_pair_query(a, b)
    }
}

/// An entry matches a query when the composite comparator relates them as equal.
pub open spec fn entry_matches(e: Seq<u8>, q: Seq<u8>) -> bool {
    entry_cmp(e, q) == Ordering::Equal
}

/// Against a key-minus-epsilon sentinel, every pair with the sentinel's key
/// sorts after it; other pairs sort by key alone.
pub proof fn lemma_pair_vs_minus(e: Seq<u8>, q: Seq<u8>)
    requires
        is_pair(e),
        wf_entry(q),
        entry_tag(q) == 2,
    ensures
        entry_cmp(e, q) == (if lex(entry_key(e), entry_key(q)) == Ordering::Less {
            Ordering::Less
        } else {
            Ordering::Greater
        }),
{
}

/// Against a key-plus-epsilon sentinel, every pair with the sentinel's key
/// sorts before it; other pairs sort by key alone.
pub proof fn lemma_pair_vs_plus(e: Seq<u8>, q: Seq<u8>)
    requires
        is_pair(e),
        wf_entry(q),
        entry_tag(q) == 3,
    ensures
        entry_cmp(e, q) == (if lex(entry_key(e), entry_key(q)) == Ordering::Greater {
            Ordering::Greater
        } else {
            Ordering::Less
        }),
{
}

/// Against a key-only sentinel, a pair compares exactly as its key does; in
/// particular it matches the sentinel exactly when the keys are the same.
pub proof fn lemma_pair_vs_key_only(e: Seq<u8>, q: Seq<u8>)
    requires
        is_pair(e),
        wf_entry(q),
        entry_tag(q) == 4,
    ensures
        entry_cmp(e, q) == lex(entry_key(e), entry_key(q)),
        entry_matches(e, q) <==> entry_key(e) == entry_key(q),
{
    lemma_lex_eq(entry_key(e), entry_key(q));
}

/// Two pairs relate as equal exactly when they are the same encoded entry.
pub proof fn lemma_pair_cmp_eq(a: Seq<u8>, b: Seq<u8>)
    requires
        is_pair(a),
        is_pair(b),
    ensures
        entry_cmp(a, b) == Ordering::Equal <==> a == b,
{
    lemma_lex_eq(entry_key(a), entry_key(b));
    lemma_lex_eq(entry_value(a), entry_value(b));
    if entry_cmp(a, b) == Ordering::Equal {
        lemma_pair_encoding_injective(a, b);
    }
}

/// Exchanging the operands flips the composite comparison.
pub proof fn lemma_entry_cmp_flip(a: Seq<u8>, b: Seq<u8>)
    requires
        wf_entry(a),
        wf_entry(b),
        entry_tag(a) == 1 || entry_tag(b) == 1,
    ensures
        entry_cmp(b, a) == flip(entry_cmp(a, b)),
{
    lemma_lex_flip(entry_key(a), entry_key(b));
    lemma_lex_flip(entry_value(a), entry_value(b));
    lemma_lex_eq(entry_key(a), entry_key(b));
    lemma_lex_eq(entry_key(b), entry_key(a));
}

/// The composite order is transitive over real pairs.
pub proof fn lemma_pair_cmp_trans(a: Seq<u8>, b: Seq<u8>, c: Seq<u8>)
    requires
        is_pair(a),
        is_pair(b),
        is_pair(c),
        entry_cmp(a, b) == Ordering::Less,
        entry_cmp(b, c) == Ordering::Less,
    ensures
        entry_cmp(a, c) == Ordering::Less,
{
    lemma_lex_eq(entry_key(a), entry_key(b));
    lemma_lex_eq(entry_key(b), entry_key(c));
    lemma_lex_eq(entry_key(a), entry_key(c));
    if lex(entry_key(a), entry_key(b)) == Ordering::Less
        && lex(entry_key(b), entry_key(c)) == Ordering::Less {
        lemma_lex_trans(entry_key(a), entry_key(b), entry_key(c));
    }
    if entry_key(a) == entry_key(b) && entry_key(b) == entry_key(c) {
        lemma_lex_trans(entry_value(a), entry_value(b), entry_value(c));
    }
}

/// A pair that sorts above a query keeps sorting above it from any later pair
/// on; a pair that sorts below a query keeps sorting below it from any earlier
/// pair on.  This is what lets a scan stop at the first entry that is not
/// below its query.
pub proof fn lemma_query_cmp_monotone(a: Seq<u8>, b: Seq<u8>, q: Seq<u8>)
    requires
        is_pair(a),
        is_pair(b),
        wf_entry(q),
        entry_cmp(a, b) == Ordering::Less,
    ensures
        entry_cmp(a, q) == Ordering::Greater ==> entry_cmp(b, q) == Ordering::Greater,
        entry_cmp(b, q) == Ordering::Less ==> entry_cmp(a, q) == Ordering::Less,
        entry_cmp(a, q) == Ordering::Equal ==> entry_cmp(b, q) != Ordering::Less,
        entry_cmp(b, q) == Ordering::Equal ==> entry_cmp(a, q) != Ordering::Greater,
{
    let ka = entry_key(a);
    let kb = entry_key(b);
    let kq = entry_key(q);
    let va = entry_value(a);
    let vb = entry_value(b);
    let vq = entry_value(q);
    lemma_lex_eq(ka, kb);
    lemma_lex_eq(ka, kq);
    lemma_lex_eq(kb, kq);
    lemma_lex_eq(kq, ka);
    lemma_lex_eq(kq, kb);
    lemma_lex_flip(ka, kq);
    lemma_lex_flip(kb, kq);
    lemma_lex_flip(ka, kb);
    if lex(ka, kb) == Ordering::Less {
        if lex(kq, ka) == Ordering::Less {
            lemma_lex_trans(kq, ka, kb);
        }
        if lex(kb, kq) == Ordering::Less {
            lemma_lex_trans(ka, kb, kq);
        }
    }
    if ka == kb {
        lemma_lex_eq(va, vb);
        lemma_lex_eq(va, vq);
        lemma_lex_eq(vb, vq);
        lemma_lex_flip(va, vq);
        lemma_lex_flip(vb, vq);
        if lex(va, vb) == Ordering::Less {
            if lex(vq, va) == Ordering::Less {
                lemma_lex_trans(vq, va, vb);
            }
            if lex(vb, vq) == Ordering::Less {
                lemma_lex_trans(va, vb, vq);
            }
        }
    }
}

/// The comparisons of section 4.2 over freshly encoded entries: a pair with
/// key `k` sorts above `k - epsilon`, below `k + epsilon`, and level with the
/// key-only sentinel of `k`; against sentinels of a different key it sorts as
/// the keys do.
pub proof fn lemma_comparator_table(k: Seq<u8>, v: Seq<u8>, qk: Seq<u8>)
    requires
        key_len_ok(k),
        key_len_ok(qk),
    ensures
        entry_cmp(encoded(1, k, v), encoded(2, qk, Seq::<u8>::empty())) == (
            if lex(k, qk) == Ordering::Less { Ordering::Less } else { Ordering::Greater }),
        entry_cmp(encoded(1, k, v), encoded(3, qk, Seq::<u8>::empty())) == (
            if lex(k, qk) == Ordering::Greater { Ordering::Greater } else { Ordering::Less }),
        entry_cmp(encoded(1, k, v), encoded(4, qk, Seq::<u8>::empty())) == lex(k, qk),
        entry_cmp(encoded(2, qk, Seq::<u8>::empty()), encoded(1, k, v)) == flip(
            entry_cmp(encoded(1, k, v), encoded(2, qk, Seq::<u8>::empty()))),
        entry_cmp(encoded(3, qk, Seq::<u8>::empty()), encoded(1, k, v)) == flip(
            entry_cmp(encoded(1, k, v), encoded(3, qk, Seq::<u8>::empty()))),
        entry_cmp(encoded(4, qk, Seq::<u8>::empty()), encoded(1, k, v)) == flip(
            entry_cmp(encoded(1, k, v), encoded(4, qk, Seq::<u8>::empty()))),
{
    lemma_encoded_parts(1, k, v);
    lemma_encoded_parts(2, qk, Seq::<u8>::empty());
    lemma_encoded_parts(3, qk, Seq::<u8>::empty());
    lemma_encoded_parts(4, qk, Seq::<u8>::empty());
    let p = encoded(1, k, v);
    lemma_pair_vs_minus(p, encoded(2, qk, Seq::<u8>::empty()));
    lemma_pair_vs_plus(p, encoded(3, qk, Seq::<u8>::empty()));
    lemma_pair_vs_key_only(p, encoded(4, qk, Seq::<u8>::empty()));
    lemma_entry_cmp_flip(p, encoded(2, qk, Seq::<u8>::empty()));
    lemma_entry_cmp_flip(p, encoded(3, qk, Seq::<u8>::empty()));
    lemma_entry_cmp_flip(p, encoded(4, qk, Seq::<u8>::empty()));
}

/// The opposite of an ordering.
pub fn reverse_order(o: Ordering) -> (r: Ordering)
    ensures
        r == flip(o),
{
    match o {
        Ordering::Less => Ordering::Greater,
        Ordering::Equal => Ordering::Equal,
        Ordering::Greater => Ordering::Less,
    }
}

fn compare_pair_query(p: &[u8], q: &[u8]) -> (r: Ordering)
    requires
        is_pair(p@),
        wf_entry(q@),
    ensures
        r == cmp_pair_query(p@, q@),
{
    let pa = MultimapKVPairAccessor::new(p);
    let qa = MultimapKVPairAccessor::new(q);
    let kc: Ordering = compare_bytes(pa.key_bytes(), qa.key_bytes());
    match qa.compare_op() {
        MultimapKeyCompareOp::KeyAndValue => {
            match kc {
                Ordering::Equal => compare_bytes(pa.value_bytes(), qa.value_bytes()),
                _ => kc,
            }
        },
        MultimapKeyCompareOp::KeyMinusEpsilon => {
            match kc {
                Ordering::Equal => Ordering::Greater,
                _ => kc,
            }
        },
        MultimapKeyCompareOp::KeyPlusEpsilon => {
            match kc {
                Ordering::Equal => Ordering::Less,
                _ => kc,
            }
        },
        MultimapKeyCompareOp::KeyOnly => kc,
    }
}

impl MultimapKVPair {
    /// Orders two encoded entries under the composite comparator.  At least
    /// one operand must be a real pair; callers never compare two sentinels.
    pub fn compare(data1: &[u8], data2: &[u8]) -> (r: Ordering)
        requires
            wf_entry(data1@),
            wf_entry(data2@),
            entry_tag(data1@) == 1 || entry_tag(data2@) == 1,
        ensures
            r == entry_cmp(data1@, data2@),
    {
        let a1 = MultimapKVPairAccessor::new(data1);
        if a1.compare_op() != MultimapKeyCompareOp::KeyAndValue {
            reverse_order(compare_pair_query(data2, data1))
        } else {
            compare_pair_query(data1, data2)
        }
    }
}

} // verus!
