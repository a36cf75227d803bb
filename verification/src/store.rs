//! The underlying single-value ordered store.
//!
//! The multimap layer treats its backing B-tree as an opaque ordered map over
//! byte-string keys with empty values.  This module provides that primitive:
//! a vector of encoded pair entries kept strictly sorted under the composite
//! comparator, with point insertion and removal, removal by query match, and
//! inclusive range scans between sentinel bounds.

use vstd::prelude::*;
use vstd::slice::slice_to_vec;
use std::cmp::Ordering;
use crate::codec::{MultimapKVPair, is_pair, wf_entry};
use crate::comparator::{
    entry_cmp, entry_matches, lemma_pair_cmp_eq, lemma_pair_cmp_trans, lemma_entry_cmp_flip,
    lemma_query_cmp_monotone,
};

verus! {

/// Every entry of the sequence is a well-formed real pair.
pub open spec fn all_pairs(s: Seq<Seq<u8>>) -> bool {
    forall|i: int| 0 <= i < s.len() ==> is_pair(#[trigger] s[i])
}

/// The entries are strictly ascending under the composite comparator.
pub open spec fn sorted_entries(s: Seq<Seq<u8>>) -> bool {
    forall|i: int, j: int|
        0 <= i < j < s.len() ==> #[trigger] entry_cmp(s[i], s[j]) == Ordering::Less
}

/// The byte strings held by a vector of encoded entries.
pub open spec fn views_of(s: Seq<Vec<u8>>) -> Seq<Seq<u8>> {
    s.map_values(|e: Vec<u8>| e@)
}

/// The bound byte strings carried by an optional encoded query bound.
pub open spec fn opt_entry_view(o: Option<Vec<u8>>) -> Option<Seq<u8>> {
    match o {
        Some(v) => Some(v@),
        None => None,
    }
}

/// An entry lies within an inclusive query range; an absent bound is unbounded.
pub open spec fn within_query(e: Seq<u8>, lo: Option<Seq<u8>>, hi: Option<Seq<u8>>) -> bool {
    &&& (lo matches Some(b) ==> entry_cmp(e, b) != Ordering::Less)
    &&& (hi matches Some(b) ==> entry_cmp(e, b) != Ordering::Greater)
}

/// The subsequence of entries within an inclusive query range, in order.
pub open spec fn range_filter(s: Seq<Seq<u8>>, lo: Option<Seq<u8>>, hi: Option<Seq<u8>>) -> Seq<
    Seq<u8>,
> {
    s.filter(|e: Seq<u8>| within_query(e, lo, hi))
}

/// A range scan of a sequence extended by one entry keeps the old scan's
/// selection and appends the new entry exactly when it lies within the range.
pub proof fn lemma_range_filter_push(
    s: Seq<Seq<u8>>,
    x: Seq<u8>,
    lo: Option<Seq<u8>>,
    hi: Option<Seq<u8>>,
)
    ensures
        range_filter(s.push(x), lo, hi) == if within_query(x, lo, hi) {
            range_filter(s, lo, hi).push(x)
        } else {
            range_filter(s, lo, hi)
        },
{
    reveal(Seq::filter);
    assert(s.push(x).drop_last() =~= s);
    assert(s.push(x).last() == x);
    if within_query(x, lo, hi) {
        assert(range_filter(s.push(x), lo, hi) =~= range_filter(s, lo, hi).push(x));
    }
}

/// A range scan selects only entries of the scanned sequence, so a scan over
/// well-formed pairs yields well-formed pairs.
pub proof fn lemma_range_filter_pairs(s: Seq<Seq<u8>>, lo: Option<Seq<u8>>, hi: Option<Seq<u8>>)
    requires
        all_pairs(s),
    ensures
        all_pairs(range_filter(s, lo, hi)),
        range_filter(s, lo, hi).len() <= s.len(),
    decreases s.len(),
{
    if s.len() == 0 {
        reveal(Seq::filter);
        assert(range_filter(s, lo, hi) =~= Seq::<Seq<u8>>::empty());
    } else {
        let front = s.drop_last();
        let x = s.last();
        assert(front.push(x) =~= s);
        assert forall|i: int| 0 <= i < front.len() implies is_pair(#[trigger] front[i]) by {
            assert(front[i] == s[i]);
        }
        lemma_range_filter_pairs(front, lo, hi);
        lemma_range_filter_push(front, x, lo, hi);
        assert(is_pair(s[s.len() - 1]));
    }
}

/// Filtering a sequence extended by one element keeps the old filtered prefix
/// and appends the new element exactly when it satisfies the predicate.
pub proof fn lemma_filter_push<A>(s: Seq<A>, x: A, p: spec_fn(A) -> bool)
    ensures
        s.push(x).filter(p) == if p(x) {
            s.filter(p).push(x)
        } else {
            s.filter(p)
        },
{
    reveal(Seq::filter);
    assert(s.push(x).drop_last() =~= s);
    assert(s.push(x).last() == x);
    if p(x) {
        assert(s.push(x).filter(p) =~= s.filter(p).push(x));
    }
}

/// The ordered store behind one multimap table: encoded pair entries, kept
/// strictly sorted under the composite comparator.
pub struct BtreeStore {
    entries: Vec<Vec<u8>>,
}

impl View for BtreeStore {
    type V = Seq<Seq<u8>>;

    closed spec fn view(&self) -> Seq<Seq<u8>> {
        views_of(self.entries@)
    }
}

impl BtreeStore {
    /// All stored entries are real pairs, strictly sorted.
    pub open spec fn wf(self) -> bool {
        all_pairs(self@) && sorted_entries(self@)
    }

    /// A store at an empty root.
    pub fn new() -> (r: Self)
        ensures
            r.wf(),
            r@ == Seq::<Seq<u8>>::empty(),
    {
        let r = BtreeStore { entries: Vec::new() };
        proof {
            assert(r@ =~= Seq::<Seq<u8>>::empty());
        }
        r
    }

    /// The number of stored entries.
    pub fn len(&self) -> (n: usize)
        ensures
            n == self@.len(),
    {
        self.entries.len()
    }

    /// An independent copy of the current state: the snapshot that bulk
    /// removal reads after the live tree has been mutated.
    pub fn snapshot(&self) -> (r: Self)
        ensures
            r@ == self@,
    {
        let n: usize = self.entries.len();
        let mut copied: Vec<Vec<u8>> = Vec::new();
        let mut i: usize = 0;
        while i < n
            invariant
                0 <= i <= n,
                n == self.entries@.len(),
                copied@.len() == i,
                views_of(copied@) == self@.subrange(0, i as int),
            decreases n - i,
        {
            let ghost pre = copied@;
            let entry: Vec<u8> = slice_to_vec(self.entries[i].as_slice());
            proof {
                assert(entry@ == self@[i as int]);
            }
            copied.push(entry);
            proof {
                assert(copied@ == pre.push(entry));
                assert(views_of(copied@).len() == i + 1);
                assert forall|j: int| 0 <= j < i + 1 implies views_of(copied@)[j] == self@.subrange(
                    0,
                    i + 1,
                )[j] by {
                    if j < i {
                        assert(views_of(pre)[j] == self@.subrange(0, i as int)[j]);
                        assert(copied@[j] == pre[j]);
                    } else {
                        assert(copied@[j] == entry);
                    }
                }
                assert(views_of(copied@) =~= self@.subrange(0, i + 1));
            }
            i = i + 1;
        }
        let r = BtreeStore { entries: copied };
        proof {
            assert(r@ =~= self@);
        }
        r
    }

    /// The index of the first entry that does not sort below the query, or the
    /// length when every entry does.
    fn find_first_ge(&self, query: &[u8]) -> (i: usize)
        requires
            self.wf(),
            wf_entry(query@),
        ensures
            0 <= i <= self@.len(),
            forall|j: int| 0 <= j < i ==> entry_cmp(#[trigger] self@[j], query@) == Ordering::Less,
            i < self@.len() ==> entry_cmp(self@[i as int], query@) != Ordering::Less,
    {
        let n: usize = self.entries.len();
        let mut i: usize = 0;
        while i < n
            invariant
                0 <= i <= n,
                n == self@.len(),
                self.wf(),
                wf_entry(query@),
                forall|j: int|
                    0 <= j < i ==> entry_cmp(#[trigger] self@[j], query@) == Ordering::Less,
            ensures
                0 <= i <= n,
                forall|j: int|
                    0 <= j < i ==> entry_cmp(#[trigger] self@[j], query@) == Ordering::Less,
                i < n ==> entry_cmp(self@[i as int], query@) != Ordering::Less,
            decreases n - i,
        {
            let c: Ordering = MultimapKVPair::compare(self.entries[i].as_slice(), query);
            match c {
                Ordering::Less => {
                    i = i + 1;
                },
                _ => {
                    break;
                },
            }
        }
        i
    }

    /// Inserts an encoded pair, keeping the entries sorted.  Returns whether
    /// an identical pair was already present; a re-insert changes nothing.
    #[verifier::rlimit(50)]
    pub fn insert(&mut self, pair: MultimapKVPair) -> (r: bool)
        requires
            old(self).wf(),
            is_pair(pair@),
        ensures
            final(self).wf(),
            r == old(self)@.contains(pair@),
            r ==> final(self)@ == old(self)@,
            !r ==> exists|i: int|
                0 <= i <= old(self)@.len() && final(self)@ == old(self)@.insert(i, pair@),
            !r ==> final(self)@.len() == old(self)@.len() + 1,
    {
        let ghost s1 = self@;
        let ghost p = pair@;
        let i: usize = self.find_first_ge(pair.as_bytes());
        let n: usize = self.entries.len();
        if i < n {
            let c: Ordering = MultimapKVPair::compare(self.entries[i].as_slice(), pair.as_bytes());
            if matches!(c, Ordering::Equal) {
                proof {
                    lemma_pair_cmp_eq(s1[i as int], p);
                    assert(s1.contains(p));
                }
                return true;
            }
        }
        proof {
            assert forall|j: int| 0 <= j < s1.len() implies s1[j] != p by {
                lemma_pair_cmp_eq(s1[j], p);
                if j >= i && entry_cmp(s1[i as int], p) == Ordering::Greater && j > i {
                    lemma_query_cmp_monotone(s1[i as int], s1[j], p);
                }
            }
            assert(!s1.contains(p));
        }
        let pair_vec: Vec<u8> = slice_to_vec(pair.as_bytes());
        self.entries.insert(i, pair_vec);
        proof {
            let s2 = self@;
            assert(s2 =~= s1.insert(i as int, p));
            s1.insert_ensures(i as int, p);
            assert forall|j: int, k: int| 0 <= j < k < s2.len() implies entry_cmp(s2[j], s2[k])
                == Ordering::Less by {
                if j < i && k < i {
                    assert(s2[j] == s1[j] && s2[k] == s1[k]);
                } else if j < i && k == i {
                    assert(s2[j] == s1[j] && s2[k] == p);
                } else if j < i && k > i {
                    assert(s2[j] == s1[j] && s2[k] == s1[k - 1]);
                } else if j == i && k > i {
                    assert(s2[j] == p && s2[k] == s1[k - 1]);
                    lemma_entry_cmp_flip(s1[i as int], p);
                    if k - 1 > i {
                        lemma_pair_cmp_trans(p, s1[i as int], s1[k - 1]);
                    }
                } else {
                    assert(s2[j] == s1[j - 1] && s2[k] == s1[k - 1]);
                }
            }
        }
        false
    }

    /// Removes the entry equal to the given encoded pair, if present, keeping
    /// the entries sorted.  Returns whether it was present.
    pub fn remove(&mut self, pair: &[u8]) -> (r: bool)
        requires
            old(self).wf(),
            is_pair(pair@),
        ensures
            final(self).wf(),
            r == old(self)@.contains(pair@),
            !r ==> final(self)@ == old(self)@,
            r ==> exists|i: int|
                0 <= i < old(self)@.len() && old(self)@[i] == pair@ && final(self)@ == old(
                    self,
                )@.remove(i),
    {
        self.remove_first_match(pair)
    }

    /// Removes the first entry that the composite comparator relates as equal
    /// to the query, if any.  With a key-only sentinel query this removes one
    /// pair carrying the sentinel's key, the smallest by value.
    pub fn remove_first_match(&mut self, query: &[u8]) -> (r: bool)
        requires
            old(self).wf(),
            wf_entry(query@),
        ensures
            final(self).wf(),
            r <==> exists|j: int| 0 <= j < old(self)@.len() && entry_matches(
                #[trigger] old(self)@[j],
                query@,
            ),
            !r ==> final(self)@ == old(self)@,
            r ==> exists|i: int|
                {
                    &&& 0 <= i < old(self)@.len()
                    &&& entry_matches(old(self)@[i], query@)
                    &&& forall|m: int| 0 <= m < i ==> !entry_matches(
                        #[trigger] old(self)@[m],
                        query@,
                    )
                    &&& final(self)@ == old(self)@.remove(i)
                },
            r && is_pair(query@) ==> exists|i: int|
                0 <= i < old(self)@.len() && old(self)@[i] == query@ && final(self)@ == old(
                    self,
                )@.remove(i),
            is_pair(query@) ==> (r == old(self)@.contains(query@)),
    {
        let ghost s1 = self@;
        let ghost q = query@;
        let i: usize = self.find_first_ge(query);
        let n: usize = self.entries.len();
        let mut found: bool = false;
        if i < n {
            let c: Ordering = MultimapKVPair::compare(self.entries[i].as_slice(), query);
            if matches!(c, Ordering::Equal) {
                found = true;
            }
        }
        if !found {
            proof {
                assert forall|j: int| 0 <= j < s1.len() implies !entry_matches(s1[j], q) by {
                    if j >= i && i < s1.len() && j > i {
                        lemma_query_cmp_monotone(s1[i as int], s1[j], q);
                    }
                }
                if is_pair(q) {
                    assert forall|j: int| 0 <= j < s1.len() implies s1[j] != q by {
                        lemma_pair_cmp_eq(s1[j], q);
                    }
                    assert(!s1.contains(q));
                }
            }
            return false;
        }
        self.entries.remove(i);
        proof {
            let s2 = self@;
            assert(s2 =~= s1.remove(i as int));
            s1.remove_ensures(i as int);
            assert forall|j: int, k: int| 0 <= j < k < s2.len() implies entry_cmp(s2[j], s2[k])
                == Ordering::Less by {
                if j < i && k < i {
                    assert(s2[j] == s1[j] && s2[k] == s1[k]);
                } else if j < i {
                    assert(s2[j] == s1[j] && s2[k] == s1[k + 1]);
                } else {
                    assert(s2[j] == s1[j + 1] && s2[k] == s1[k + 1]);
                }
            }
            if is_pair(q) {
                lemma_pair_cmp_eq(s1[i as int], q);
                assert(s1.contains(q));
            }
        }
        true
    }

    /// Collects, in order, every entry within the inclusive query range given
    /// by the two optional sentinel bounds.
    pub fn range_entries(&self, lo: &Option<Vec<u8>>, hi: &Option<Vec<u8>>) -> (out: Vec<Vec<u8>>)
        requires
            self.wf(),
            opt_entry_view(*lo) matches Some(b) ==> wf_entry(b),
            opt_entry_view(*hi) matches Some(b) ==> wf_entry(b),
        ensures
            views_of(out@) == range_filter(self@, opt_entry_view(*lo), opt_entry_view(*hi)),
    {
        let n: usize = self.entries.len();
        let mut out: Vec<Vec<u8>> = Vec::new();
        let mut i: usize = 0;
        proof {
            reveal(Seq::filter);
            assert(self@.subrange(0, 0) =~= Seq::<Seq<u8>>::empty());
            assert(views_of(out@) =~= range_filter(
                self@.subrange(0, 0),
                opt_entry_view(*lo),
                opt_entry_view(*hi),
            ));
        }
        while i < n
            invariant
                0 <= i <= n,
                n == self@.len(),
                self.wf(),
                opt_entry_view(*lo) matches Some(b) ==> wf_entry(b),
                opt_entry_view(*hi) matches Some(b) ==> wf_entry(b),
                views_of(out@) == range_filter(self@.subrange(0, i as int), opt_entry_view(*lo), opt_entry_view(*hi)),
            decreases n - i,
        {
            let entry: &Vec<u8> = &self.entries[i];
            let mut keep: bool = true;
            match lo {
                Some(b) => {
                    let c: Ordering = MultimapKVPair::compare(entry.as_slice(), b.as_slice());
                    if matches!(c, Ordering::Less) {
                        keep = false;
                    }
                },
                None => {},
            }
            match hi {
                Some(b) => {
                    let c: Ordering = MultimapKVPair::compare(entry.as_slice(), b.as_slice());
                    if matches!(c, Ordering::Greater) {
                        keep = false;
                    }
                },
                None => {},
            }
            proof {
                assert(keep == within_query(self@[i as int], opt_entry_view(*lo), opt_entry_view(*hi)));
            }
            if keep {
                let copied: Vec<u8> = slice_to_vec(entry.as_slice());
                out.push(copied);
            }
            proof {
                let pred = |e: Seq<u8>| within_query(e, opt_entry_view(*lo), opt_entry_view(*hi));
                lemma_filter_push(self@.subrange(0, i as int), self@[i as int], pred);
                assert(self@.subrange(0, i as int).push(self@[i as int]) =~= self@.subrange(
                    0,
                    i + 1,
                ));
                if keep {
                    assert(views_of(out@) =~= range_filter(
                        self@.subrange(0, i + 1),
                        opt_entry_view(*lo),
                        opt_entry_view(*hi),
                    ));
                } else {
                    assert(views_of(out@) =~= range_filter(
                        self@.subrange(0, i + 1),
                        opt_entry_view(*lo),
                        opt_entry_view(*hi),
                    ));
                }
            }
            i = i + 1;
        }
        proof {
            assert(self@.subrange(0, n as int) =~= self@);
        }
        out
    }
}

} // verus!
