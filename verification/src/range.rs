//! The range builder: turns a user range over keys into a pair of inclusive
//! sentinel bounds on encoded entries.
//!
//! An included start becomes the key's minus-epsilon sentinel and an excluded
//! start its plus-epsilon sentinel; for the end bound the two swap roles.  The
//! resulting pair is always used as an inclusive range on the store; the
//! sentinel semantics convert open and closed bounds correctly.

use vstd::prelude::*;
use std::cmp::Ordering;
use crate::order::{lex, lemma_lex_eq};
use crate::codec::{
    MultimapKeyCompareOp, encoded, entry_key, is_pair, key_len_ok, wf_entry,
    make_serialized_key_with_op, lemma_encoded_parts,
};
use crate::comparator::{lemma_pair_vs_minus, lemma_pair_vs_plus};
use crate::store::{within_query, opt_entry_view};

verus! {

/// One end of a user range over keys.
pub enum KeyBound {
    Included(Vec<u8>),
    Excluded(Vec<u8>),
    Unbounded,
}

impl KeyBound {
    /// The bound's key, if any, fits the encoded header.
    pub open spec fn key_ok(self) -> bool {
        match self {
            KeyBound::Included(k) => key_len_ok(k@) && 5 + k@.len() <= usize::MAX,
            KeyBound::Excluded(k) => key_len_ok(k@) && 5 + k@.len() <= usize::MAX,
            KeyBound::Unbounded => true,
        }
    }
}

/// Whether a key satisfies the start bound of a range.
pub open spec fn above_start(k: Seq<u8>, b: KeyBound) -> bool {
    match b {
        KeyBound::Included(s) => lex(k, s@) != Ordering::Less,
        KeyBound::Excluded(s) => lex(k, s@) == Ordering::Greater,
        KeyBound::Unbounded => true,
    }
}

/// Whether a key satisfies the end bound of a range.
pub open spec fn below_end(k: Seq<u8>, b: KeyBound) -> bool {
    match b {
        KeyBound::Included(s) => lex(k, s@) != Ordering::Greater,
        KeyBound::Excluded(s) => lex(k, s@) == Ordering::Less,
        KeyBound::Unbounded => true,
    }
}

/// Whether a key lies within a user range over keys.
pub open spec fn key_within(k: Seq<u8>, lo: KeyBound, hi: KeyBound) -> bool {
    above_start(k, lo) && below_end(k, hi)
}

/// The inclusive encoded bound that stands for a range's start bound.
pub open spec fn start_sentinel(b: KeyBound) -> Option<Seq<u8>> {
    match b {
        KeyBound::Included(k) => Some(encoded(2, k@, Seq::<u8>::empty())),
        KeyBound::Excluded(k) => Some(encoded(3, k@, Seq::<u8>::empty())),
        KeyBound::Unbounded => None,
    }
}

/// The inclusive encoded bound that stands for a range's end bound.
pub open spec fn end_sentinel(b: KeyBound) -> Option<Seq<u8>> {
    match b {
        KeyBound::Included(k) => Some(encoded(3, k@, Seq::<u8>::empty())),
        KeyBound::Excluded(k) => Some(encoded(2, k@, Seq::<u8>::empty())),
        KeyBound::Unbounded => None,
    }
}

/// A pair entry lies between the two sentinels of a user range exactly when
/// its key lies within the range.
pub proof fn lemma_within_sentinels(e: Seq<u8>, lo: KeyBound, hi: KeyBound)
    requires
        is_pair(e),
        lo.key_ok(),
        hi.key_ok(),
    ensures
        within_query(e, start_sentinel(lo), end_sentinel(hi)) <==> key_within(entry_key(e), lo, hi),
{
    match lo {
        KeyBound::Included(k) => {
            lemma_encoded_parts(2, k@, Seq::<u8>::empty());
            lemma_pair_vs_minus(e, encoded(2, k@, Seq::<u8>::empty()));
        },
        KeyBound::Excluded(k) => {
            lemma_encoded_parts(3, k@, Seq::<u8>::empty());
            lemma_pair_vs_plus(e, encoded(3, k@, Seq::<u8>::empty()));
        },
        KeyBound::Unbounded => {},
    }
    match hi {
        KeyBound::Included(k) => {
            lemma_encoded_parts(3, k@, Seq::<u8>::empty());
            lemma_pair_vs_plus(e, encoded(3, k@, Seq::<u8>::empty()));
        },
        KeyBound::Excluded(k) => {
            lemma_encoded_parts(2, k@, Seq::<u8>::empty());
            lemma_pair_vs_minus(e, encoded(2, k@, Seq::<u8>::empty()));
        },
        KeyBound::Unbounded => {},
    }
}

/// A pair entry lies between the minus- and plus-epsilon sentinels of one key
/// exactly when it carries that key.
pub proof fn lemma_within_one_key(e: Seq<u8>, k: Seq<u8>)
    requires
        is_pair(e),
        key_len_ok(k),
    ensures
        within_query(
            e,
            Some(encoded(2, k, Seq::<u8>::empty())),
            Some(encoded(3, k, Seq::<u8>::empty())),
        ) <==> entry_key(e) == k,
{
    lemma_encoded_parts(2, k, Seq::<u8>::empty());
    lemma_encoded_parts(3, k, Seq::<u8>::empty());
    lemma_pair_vs_minus(e, encoded(2, k, Seq::<u8>::empty()));
    lemma_pair_vs_plus(e, encoded(3, k, Seq::<u8>::empty()));
    lemma_lex_eq(entry_key(e), k);
}

/// Builds the pair of inclusive encoded bounds that stands for a user range
/// over keys; an unbounded end stays unbounded.
pub fn make_inclusive_query_range(lo: &KeyBound, hi: &KeyBound) -> (r: (
    Option<Vec<u8>>,
    Option<Vec<u8>>,
))
    requires
        lo.key_ok(),
        hi.key_ok(),
    ensures
        opt_entry_view(r.0) == start_sentinel(*lo),
        opt_entry_view(r.1) == end_sentinel(*hi),
        opt_entry_view(r.0) matches Some(b) ==> wf_entry(b),
        opt_entry_view(r.1) matches Some(b) ==> wf_entry(b),
{
    let start: Option<Vec<u8>> = match lo {
        KeyBound::Included(k) => Some(
            make_serialized_key_with_op(k.as_slice(), MultimapKeyCompareOp::KeyMinusEpsilon),
        ),
        KeyBound::Excluded(k) => Some(
            make_serialized_key_with_op(k.as_slice(), MultimapKeyCompareOp::KeyPlusEpsilon),
        ),
        KeyBound::Unbounded => None,
    };
    let end: Option<Vec<u8>> = match hi {
        KeyBound::Included(k) => Some(
            make_serialized_key_with_op(k.as_slice(), MultimapKeyCompareOp::KeyPlusEpsilon),
        ),
        KeyBound::Excluded(k) => Some(
            make_serialized_key_with_op(k.as_slice(), MultimapKeyCompareOp::KeyMinusEpsilon),
        ),
        KeyBound::Unbounded => None,
    };
    (start, end)
}

} // verus!
