//! The multimap tables: a writable table over a mutable store root and a
//! read-only table over an immutable snapshot, sharing one query surface.
//!
//! A table maps each byte-string key to a set of byte-string values.  Every
//! stored (key, value) pair is one encoded entry of the underlying store; the
//! table's abstract state is the sequence of decoded pairs in store order,
//! which is ascending by key and, within one key, ascending by value.

use vstd::prelude::*;
use crate::codec::{
    MultimapKVPair, MultimapKeyCompareOp, encoded, entry_key, entry_value, is_pair, key_len_ok,
    make_serialized_key_with_op, lemma_encoded_parts, lemma_pair_encoding_injective,
};
use crate::comparator::{entry_matches, lemma_pair_vs_key_only};
use crate::store::{
    BtreeStore, all_pairs, range_filter, within_query, lemma_range_filter_push,
    lemma_range_filter_pairs,
};
use crate::iter::{MultimapValueIter, MultimapRangeIter, values_of, pairs_of};
use crate::range::{
    KeyBound, key_within, start_sentinel, end_sentinel, make_inclusive_query_range,
    lemma_within_sentinels, lemma_within_one_key,
};

verus! {

/// A key whose encoded sentinels fit the machine's limits.
pub open spec fn usable_key(k: Seq<u8>) -> bool {
    key_len_ok(k) && 5 + k.len() <= usize::MAX
}

/// The order of decoded pairs: by key, then by value, both lexicographic.
pub open spec fn pair_lt(a: (Seq<u8>, Seq<u8>), b: (Seq<u8>, Seq<u8>)) -> bool {
    ||| crate::order::lex(a.0, b.0) == std::cmp::Ordering::Less
    ||| (a.0 == b.0 && crate::order::lex(a.1, b.1) == std::cmp::Ordering::Less)
}

/// The decoded pairs are strictly ascending: by key, and by value within one
/// key.
pub open spec fn pairs_sorted(ps: Seq<(Seq<u8>, Seq<u8>)>) -> bool {
    forall|i: int, j: int| 0 <= i < j < ps.len() ==> #[trigger] pair_lt(ps[i], ps[j])
}

/// Two pairs relate as less under the composite comparator exactly when their
/// decoded forms relate as less by (key, value).
pub proof fn lemma_pair_cmp_is_pair_lt(a: Seq<u8>, b: Seq<u8>)
    requires
        is_pair(a),
        is_pair(b),
    ensures
        crate::comparator::entry_cmp(a, b) == std::cmp::Ordering::Less <==> pair_lt(
            (entry_key(a), entry_value(a)),
            (entry_key(b), entry_value(b)),
        ),
{
    crate::order::lemma_lex_eq(entry_key(a), entry_key(b));
}

/// The decoded pairs of a well-formed store are strictly sorted.
pub proof fn lemma_store_pairs_sorted(s: Seq<Seq<u8>>)
    requires
        all_pairs(s),
        crate::store::sorted_entries(s),
    ensures
        pairs_sorted(pairs_of(s)),
{
    assert forall|i: int, j: int| 0 <= i < j < pairs_of(s).len() implies #[trigger] pair_lt(
        pairs_of(s)[i],
        pairs_of(s)[j],
    ) by {
        assert(crate::comparator::entry_cmp(s[i], s[j]) == std::cmp::Ordering::Less);
        lemma_pair_cmp_is_pair_lt(s[i], s[j]);
    }
}

/// The pairs of a table that carry the given key, in value order.
pub open spec fn pairs_with_key(ps: Seq<(Seq<u8>, Seq<u8>)>, k: Seq<u8>) -> Seq<
    (Seq<u8>, Seq<u8>),
> {
    ps.filter(|p: (Seq<u8>, Seq<u8>)| p.0 == k)
}

/// The values a table associates with the given key, in value order.
pub open spec fn values_with_key(ps: Seq<(Seq<u8>, Seq<u8>)>, k: Seq<u8>) -> Seq<Seq<u8>> {
    pairs_with_key(ps, k).map_values(|p: (Seq<u8>, Seq<u8>)| p.1)
}

/// The pairs of a table that do not carry the given key, in order.
pub open spec fn pairs_without_key(ps: Seq<(Seq<u8>, Seq<u8>)>, k: Seq<u8>) -> Seq<
    (Seq<u8>, Seq<u8>),
> {
    ps.filter(|p: (Seq<u8>, Seq<u8>)| p.0 != k)
}

/// The pairs of a table whose key lies within a user range, in order.
pub open spec fn pairs_within(ps: Seq<(Seq<u8>, Seq<u8>)>, lo: KeyBound, hi: KeyBound) -> Seq<
    (Seq<u8>, Seq<u8>),
> {
    ps.filter(|p: (Seq<u8>, Seq<u8>)| key_within(p.0, lo, hi))
}

/// The encoded entries of a store that do not carry the given key, in order.
pub open spec fn entries_without_key(s: Seq<Seq<u8>>, k: Seq<u8>) -> Seq<Seq<u8>> {
    s.filter(|e: Seq<u8>| entry_key(e) != k)
}

/// Appending one pair extends the key's value run exactly when the pair
/// carries the key.
pub proof fn lemma_pairs_with_key_push(ps: Seq<(Seq<u8>, Seq<u8>)>, d: (Seq<u8>, Seq<u8>), k: Seq<u8>)
    ensures
        pairs_with_key(ps.push(d), k) == if d.0 == k {
            pairs_with_key(ps, k).push(d)
        } else {
            pairs_with_key(ps, k)
        },
        values_with_key(ps.push(d), k) == if d.0 == k {
            values_with_key(ps, k).push(d.1)
        } else {
            values_with_key(ps, k)
        },
{
    reveal(Seq::filter);
    assert(ps.push(d).drop_last() =~= ps);
    assert(ps.push(d).last() == d);
    if d.0 == k {
        assert(pairs_with_key(ps.push(d), k) =~= pairs_with_key(ps, k).push(d));
        assert(values_with_key(ps.push(d), k) =~= values_with_key(ps, k).push(d.1));
    } else {
        assert(values_with_key(ps.push(d), k) =~= values_with_key(ps, k));
    }
}

/// Appending one pair leaves the pairs of other keys extended exactly when the
/// pair carries another key.
pub proof fn lemma_pairs_without_key_push(
    ps: Seq<(Seq<u8>, Seq<u8>)>,
    d: (Seq<u8>, Seq<u8>),
    k: Seq<u8>,
)
    ensures
        pairs_without_key(ps.push(d), k) == if d.0 != k {
            pairs_without_key(ps, k).push(d)
        } else {
            pairs_without_key(ps, k)
        },
{
    reveal(Seq::filter);
    assert(ps.push(d).drop_last() =~= ps);
    assert(ps.push(d).last() == d);
    if d.0 != k {
        assert(pairs_without_key(ps.push(d), k) =~= pairs_without_key(ps, k).push(d));
    }
}

/// Appending one pair extends a key-range selection exactly when the pair's
/// key lies within the range.
pub proof fn lemma_pairs_within_push(
    ps: Seq<(Seq<u8>, Seq<u8>)>,
    d: (Seq<u8>, Seq<u8>),
    lo: KeyBound,
    hi: KeyBound,
)
    ensures
        pairs_within(ps.push(d), lo, hi) == if key_within(d.0, lo, hi) {
            pairs_within(ps, lo, hi).push(d)
        } else {
            pairs_within(ps, lo, hi)
        },
{
    reveal(Seq::filter);
    assert(ps.push(d).drop_last() =~= ps);
    assert(ps.push(d).last() == d);
    if key_within(d.0, lo, hi) {
        assert(pairs_within(ps.push(d), lo, hi) =~= pairs_within(ps, lo, hi).push(d));
    }
}

/// Appending one entry leaves the entries of other keys extended exactly when
/// the entry carries another key.
pub proof fn lemma_entries_without_key_push(s: Seq<Seq<u8>>, x: Seq<u8>, k: Seq<u8>)
    ensures
        entries_without_key(s.push(x), k) == if entry_key(x) != k {
            entries_without_key(s, k).push(x)
        } else {
            entries_without_key(s, k)
        },
{
    reveal(Seq::filter);
    assert(s.push(x).drop_last() =~= s);
    assert(s.push(x).last() == x);
    if entry_key(x) != k {
        assert(entries_without_key(s.push(x), k) =~= entries_without_key(s, k).push(x));
    }
}

/// Removing an entry that carries the key leaves the entries of other keys
/// unchanged.
pub proof fn lemma_entries_without_key_remove(s: Seq<Seq<u8>>, i: int, k: Seq<u8>)
    requires
        0 <= i < s.len(),
        entry_key(s[i]) == k,
    ensures
        entries_without_key(s.remove(i), k) == entries_without_key(s, k),
    decreases s.len(),
{
    if i == s.len() - 1 {
        assert(s.remove(i) =~= s.drop_last());
        lemma_entries_without_key_push(s.drop_last(), s.last(), k);
        assert(s.drop_last().push(s.last()) =~= s);
    } else {
        let front = s.drop_last();
        let x = s.last();
        lemma_entries_without_key_remove(front, i, k);
        assert(s.remove(i) =~= front.remove(i).push(x));
        lemma_entries_without_key_push(front.remove(i), x, k);
        lemma_entries_without_key_push(front, x, k);
        assert(front.push(x) =~= s);
    }
}

/// A sequence of entries none of which carries the key is untouched by
/// dropping that key's entries.
pub proof fn lemma_entries_without_key_all(s: Seq<Seq<u8>>, k: Seq<u8>)
    requires
        forall|j: int| 0 <= j < s.len() ==> entry_key(#[trigger] s[j]) != k,
    ensures
        entries_without_key(s, k) == s,
    decreases s.len(),
{
    if s.len() == 0 {
        reveal(Seq::filter);
        assert(entries_without_key(s, k) =~= s);
    } else {
        let front = s.drop_last();
        assert forall|j: int| 0 <= j < front.len() implies entry_key(#[trigger] front[j]) != k by {
            assert(front[j] == s[j]);
        }
        lemma_entries_without_key_all(front, k);
        lemma_entries_without_key_push(front, s.last(), k);
        assert(entry_key(s[s.len() - 1]) != k);
        assert(front.push(s.last()) =~= s);
    }
}

/// A store holds the encoded pair of (k, v) exactly when its decoded pair
/// sequence holds (k, v).
pub proof fn lemma_pairs_contains(s: Seq<Seq<u8>>, k: Seq<u8>, v: Seq<u8>)
    requires
        all_pairs(s),
        key_len_ok(k),
    ensures
        s.contains(encoded(1, k, v)) <==> pairs_of(s).contains((k, v)),
{
    lemma_encoded_parts(1, k, v);
    let e = encoded(1, k, v);
    if s.contains(e) {
        let j = choose|j: int| 0 <= j < s.len() && s[j] == e;
        assert(pairs_of(s)[j] == (k, v));
    }
    if pairs_of(s).contains((k, v)) {
        let j = choose|j: int| 0 <= j < pairs_of(s).len() && pairs_of(s)[j] == (k, v);
        assert(entry_key(s[j]) == k && entry_value(s[j]) == v);
        lemma_pair_encoding_injective(s[j], e);
        assert(s.contains(e));
    }
}

/// Decoding commutes with inserting one entry.
pub proof fn lemma_pairs_of_insert(s: Seq<Seq<u8>>, i: int, e: Seq<u8>)
    requires
        0 <= i <= s.len(),
    ensures
        pairs_of(s.insert(i, e)) == pairs_of(s).insert(i, (entry_key(e), entry_value(e))),
{
    s.insert_ensures(i, e);
    pairs_of(s).insert_ensures(i, (entry_key(e), entry_value(e)));
    assert(pairs_of(s.insert(i, e)) =~= pairs_of(s).insert(i, (entry_key(e), entry_value(e))));
}

/// Decoding commutes with removing one entry.
pub proof fn lemma_pairs_of_remove(s: Seq<Seq<u8>>, i: int)
    requires
        0 <= i < s.len(),
    ensures
        pairs_of(s.remove(i)) == pairs_of(s).remove(i),
{
    s.remove_ensures(i);
    pairs_of(s).remove_ensures(i);
    assert(pairs_of(s.remove(i)) =~= pairs_of(s).remove(i));
}

/// A scan between the minus- and plus-epsilon sentinels of one key selects
/// exactly the pairs carrying that key, so its decoded values are exactly the
/// values the table associates with the key.
pub proof fn lemma_get_scan(s: Seq<Seq<u8>>, k: Seq<u8>)
    requires
        all_pairs(s),
        key_len_ok(k),
    ensures
        pairs_of(
            range_filter(
                s,
                Some(encoded(2, k, Seq::<u8>::empty())),
                Some(encoded(3, k, Seq::<u8>::empty())),
            ),
        ) == pairs_with_key(pairs_of(s), k),
        values_of(
            range_filter(
                s,
                Some(encoded(2, k, Seq::<u8>::empty())),
                Some(encoded(3, k, Seq::<u8>::empty())),
            ),
        ) == values_with_key(pairs_of(s), k),
    decreases s.len(),
{
    let lo = Some(encoded(2, k, Seq::<u8>::empty()));
    let hi = Some(encoded(3, k, Seq::<u8>::empty()));
    if s.len() == 0 {
        reveal(Seq::filter);
        assert(range_filter(s, lo, hi) =~= Seq::<Seq<u8>>::empty());
        assert(pairs_of(s) =~= Seq::<(Seq<u8>, Seq<u8>)>::empty());
        assert(pairs_of(range_filter(s, lo, hi)) =~= pairs_with_key(pairs_of(s), k));
        assert(values_of(range_filter(s, lo, hi)) =~= values_with_key(pairs_of(s), k));
    } else {
        let front = s.drop_last();
        let x = s.last();
        assert(front.push(x) =~= s);
        assert forall|i: int| 0 <= i < front.len() implies is_pair(#[trigger] front[i]) by {
            assert(front[i] == s[i]);
        }
        assert(is_pair(s[s.len() - 1]));
        lemma_get_scan(front, k);
        lemma_range_filter_push(front, x, lo, hi);
        let d = (entry_key(x), entry_value(x));
        assert(pairs_of(front).push(d) =~= pairs_of(s));
        lemma_pairs_with_key_push(pairs_of(front), d, k);
        lemma_within_one_key(x, k);
        if within_query(x, lo, hi) {
            assert(pairs_of(range_filter(front, lo, hi)).push(d) =~= pairs_of(
                range_filter(s, lo, hi),
            ));
            assert(values_of(range_filter(front, lo, hi)).push(d.1) =~= values_of(
                range_filter(s, lo, hi),
            ));
        } else {
            assert(pairs_of(range_filter(s, lo, hi)) =~= pairs_of(range_filter(front, lo, hi)));
            assert(values_of(range_filter(s, lo, hi)) =~= values_of(range_filter(front, lo, hi)));
        }
    }
}

/// A scan between the sentinels of a user range selects exactly the pairs
/// whose key lies within the range.
pub proof fn lemma_range_scan(s: Seq<Seq<u8>>, lo: KeyBound, hi: KeyBound)
    requires
        all_pairs(s),
        lo.key_ok(),
        hi.key_ok(),
    ensures
        pairs_of(range_filter(s, start_sentinel(lo), end_sentinel(hi))) == pairs_within(
            pairs_of(s),
            lo,
            hi,
        ),
    decreases s.len(),
{
    let slo = start_sentinel(lo);
    let shi = end_sentinel(hi);
    if s.len() == 0 {
        reveal(Seq::filter);
        assert(range_filter(s, slo, shi) =~= Seq::<Seq<u8>>::empty());
        assert(pairs_of(s) =~= Seq::<(Seq<u8>, Seq<u8>)>::empty());
        assert(pairs_of(range_filter(s, slo, shi)) =~= pairs_within(pairs_of(s), lo, hi));
    } else {
        let front = s.drop_last();
        let x = s.last();
        assert(front.push(x) =~= s);
        assert forall|i: int| 0 <= i < front.len() implies is_pair(#[trigger] front[i]) by {
            assert(front[i] == s[i]);
        }
        assert(is_pair(s[s.len() - 1]));
        lemma_range_scan(front, lo, hi);
        lemma_range_filter_push(front, x, slo, shi);
        let d = (entry_key(x), entry_value(x));
        assert(pairs_of(front).push(d) =~= pairs_of(s));
        lemma_pairs_within_push(pairs_of(front), d, lo, hi);
        lemma_within_sentinels(x, lo, hi);
        if within_query(x, slo, shi) {
            assert(pairs_of(range_filter(front, slo, shi)).push(d) =~= pairs_of(
                range_filter(s, slo, shi),
            ));
        } else {
            assert(pairs_of(range_filter(s, slo, shi)) =~= pairs_of(
                range_filter(front, slo, shi),
            ));
        }
    }
}

/// Dropping the entries that carry one key commutes with decoding.
pub proof fn lemma_without_key_scan(s: Seq<Seq<u8>>, k: Seq<u8>)
    ensures
        pairs_of(entries_without_key(s, k)) == pairs_without_key(pairs_of(s), k),
    decreases s.len(),
{
    if s.len() == 0 {
        reveal(Seq::filter);
        assert(entries_without_key(s, k) =~= Seq::<Seq<u8>>::empty());
        assert(pairs_of(s) =~= Seq::<(Seq<u8>, Seq<u8>)>::empty());
        assert(pairs_of(entries_without_key(s, k)) =~= pairs_without_key(pairs_of(s), k));
    } else {
        let front = s.drop_last();
        let x = s.last();
        assert(front.push(x) =~= s);
        lemma_without_key_scan(front, k);
        lemma_entries_without_key_push(front, x, k);
        let d = (entry_key(x), entry_value(x));
        assert(pairs_of(front).push(d) =~= pairs_of(s));
        lemma_pairs_without_key_push(pairs_of(front), d, k);
        if entry_key(x) != k {
            assert(pairs_of(entries_without_key(front, k)).push(d) =~= pairs_of(
                entries_without_key(s, k),
            ));
        } else {
            assert(pairs_of(entries_without_key(s, k)) =~= pairs_of(
                entries_without_key(front, k),
            ));
        }
    }
}

/// The common query surface of the writable and the read-only multimap table.
pub trait ReadableMultimapTable: Sized {
    /// The table's decoded (key, value) pairs, in store order.
    spec fn pairs(&self) -> Seq<(Seq<u8>, Seq<u8>)>;

    /// The table's internal invariant.
    spec fn inv(&self) -> bool;

    /// Returns an iterator over all values for the given key, in value order.
    fn get(&self, key: &[u8]) -> (it: MultimapValueIter)
        requires
            self.inv(),
            usable_key(key@),
        ensures
            it.wf(),
            it.position() == 0,
            it.remaining_values() == values_with_key(self.pairs(), key@),
            it.remaining_entries() == it.order(),
    ;

    /// Returns an iterator over all (key, value) pairs whose key lies within
    /// the given range, in store order.
    fn range(&self, lo: KeyBound, hi: KeyBound) -> (it: MultimapRangeIter)
        requires
            self.inv(),
            lo.key_ok(),
            hi.key_ok(),
        ensures
            it.wf(),
            it.position() == 0,
            it.remaining_pairs() == pairs_within(self.pairs(), lo, hi),
            it.remaining_entries() == it.order(),
    ;

    /// Returns the number of stored key-value pairs.
    fn len(&self) -> (n: usize)
        requires
            self.inv(),
        ensures
            n == self.pairs().len(),
    ;

    /// Returns whether the table stores no pair at all.
    fn is_empty(&self) -> (b: bool)
        requires
            self.inv(),
        ensures
            b == (self.pairs().len() == 0),
    ;

    /// A valid table's pairs are strictly ascending: by key, and by value
    /// within one key.
    proof fn pairs_are_sorted(&self)
        requires
            self.inv(),
        ensures
            pairs_sorted(self.pairs()),
    ;
}

/// Runs the scan shared by `get` on both tables.
fn get_entries(tree: &BtreeStore, key: &[u8]) -> (it: MultimapValueIter)
    requires
        tree.wf(),
        usable_key(key@),
    ensures
        it.wf(),
        it.position() == 0,
        it.remaining_values() == values_with_key(pairs_of(tree@), key@),
        it.remaining_entries() == it.order(),
{
    let lower: Vec<u8> = make_serialized_key_with_op(key, MultimapKeyCompareOp::KeyMinusEpsilon);
    let upper: Vec<u8> = make_serialized_key_with_op(key, MultimapKeyCompareOp::KeyPlusEpsilon);
    let lo: Option<Vec<u8>> = Some(lower);
    let hi: Option<Vec<u8>> = Some(upper);
    let out: Vec<Vec<u8>> = tree.range_entries(&lo, &hi);
    proof {
        lemma_range_filter_pairs(
            tree@,
            Some(encoded(2, key@, Seq::<u8>::empty())),
            Some(encoded(3, key@, Seq::<u8>::empty())),
        );
        lemma_get_scan(tree@, key@);
    }
    MultimapValueIter::new(out)
}

/// Runs the scan shared by `range` on both tables.
fn range_pairs(tree: &BtreeStore, lo: KeyBound, hi: KeyBound) -> (it: MultimapRangeIter)
    requires
        tree.wf(),
        lo.key_ok(),
        hi.key_ok(),
    ensures
        it.wf(),
        it.position() == 0,
        it.remaining_pairs() == pairs_within(pairs_of(tree@), lo, hi),
        it.remaining_entries() == it.order(),
{
    let bounds: (Option<Vec<u8>>, Option<Vec<u8>>) = make_inclusive_query_range(&lo, &hi);
    let out: Vec<Vec<u8>> = tree.range_entries(&bounds.0, &bounds.1);
    proof {
        lemma_range_filter_pairs(tree@, start_sentinel(lo), end_sentinel(hi));
        lemma_range_scan(tree@, lo, hi);
    }
    MultimapRangeIter::new(out)
}

/// A writable multimap table, exclusively owning its mutable store root.
pub struct MultimapTable {
    tree: BtreeStore,
}

impl MultimapTable {
    /// Opens a writable table at an empty root.
    pub fn new() -> (r: Self)
        ensures
            r.inv(),
            r.pairs() == Seq::<(Seq<u8>, Seq<u8>)>::empty(),
    {
        let tree = BtreeStore::new();
        proof {
            assert(pairs_of(tree@) =~= Seq::<(Seq<u8>, Seq<u8>)>::empty());
        }
        MultimapTable { tree }
    }

    /// Adds the given value to the mapping of the key.  Returns whether the
    /// key-value pair was already present; a re-insert changes nothing.
    pub fn insert(&mut self, key: &[u8], value: &[u8]) -> (r: bool)
        requires
            old(self).inv(),
            key_len_ok(key@),
            5 + key@.len() + value@.len() <= usize::MAX,
        ensures
            final(self).inv(),
            r == old(self).pairs().contains((key@, value@)),
            r ==> final(self).pairs() == old(self).pairs(),
            !r ==> exists|i: int|
                0 <= i <= old(self).pairs().len() && final(self).pairs() == old(
                    self,
                ).pairs().insert(i, (key@, value@)),
            !r ==> final(self).pairs().len() == old(self).pairs().len() + 1,
            final(self).pairs().contains((key@, value@)),
    {
        let ghost s1 = self.tree@;
        let pair = MultimapKVPair::new_pair(key, value);
        let r: bool = self.tree.insert(pair);
        proof {
            lemma_pairs_contains(s1, key@, value@);
            lemma_encoded_parts(1, key@, value@);
            if !r {
                let i = choose|i: int|
                    0 <= i <= s1.len() && self.tree@ == s1.insert(i, encoded(1, key@, value@));
                lemma_pairs_of_insert(s1, i, encoded(1, key@, value@));
                assert(self.pairs() == pairs_of(s1).insert(i, (key@, value@)));
                pairs_of(s1).insert_ensures(i, (key@, value@));
                assert(self.pairs()[i] == (key@, value@));
            }
        }
        r
    }

    /// Removes the given key-value pair.  Returns whether it was present;
    /// removing an absent pair changes nothing.
    pub fn remove(&mut self, key: &[u8], value: &[u8]) -> (r: bool)
        requires
            old(self).inv(),
            key_len_ok(key@),
            5 + key@.len() + value@.len() <= usize::MAX,
        ensures
            final(self).inv(),
            r == old(self).pairs().contains((key@, value@)),
            !r ==> final(self).pairs() == old(self).pairs(),
            r ==> exists|i: int|
                {
                    &&& 0 <= i < old(self).pairs().len()
                    &&& old(self).pairs()[i] == (key@, value@)
                    &&& final(self).pairs() == old(self).pairs().remove(i)
                },
    {
        let ghost s1 = self.tree@;
        let pair = MultimapKVPair::new_pair(key, value);
        let r: bool = self.tree.remove(pair.as_bytes());
        proof {
            lemma_pairs_contains(s1, key@, value@);
            lemma_encoded_parts(1, key@, value@);
            if r {
                let i = choose|i: int|
                    0 <= i < s1.len() && s1[i] == pair@ && self.tree@ == s1.remove(i);
                assert(0 <= i < s1.len() && s1[i] == encoded(1, key@, value@));
                lemma_pairs_of_remove(s1, i);
                assert(pairs_of(s1)[i] == (key@, value@));
                assert(final(self).pairs() == old(self).pairs().remove(i));
            }
        }
        r
    }

    /// Removes every value mapped to the given key and returns an iterator
    /// over the removed values, in value order: the values the key had
    /// immediately before the call.
    pub fn remove_all(&mut self, key: &[u8]) -> (it: MultimapValueIter)
        requires
            old(self).inv(),
            usable_key(key@),
        ensures
            final(self).inv(),
            final(self).pairs() == pairs_without_key(old(self).pairs(), key@),
            it.wf(),
            it.position() == 0,
            it.remaining_values() == values_with_key(old(self).pairs(), key@),
            it.remaining_entries() == it.order(),
    {
        let ghost s1 = self.tree@;
        let key_only: Vec<u8> = make_serialized_key_with_op(key, MultimapKeyCompareOp::KeyOnly);
        proof {
            lemma_encoded_parts(4, key@, Seq::<u8>::empty());
        }
        // The snapshot stays readable while the live tree is mutated below.
        let original_tree: BtreeStore = self.tree.snapshot();
        loop
            invariant
                self.tree.wf(),
                usable_key(key@),
                key_only@ == encoded(4, key@, Seq::<u8>::empty()),
                crate::codec::wf_entry(key_only@),
                entry_key(key_only@) == key@,
                crate::codec::entry_tag(key_only@) == 4,
                entries_without_key(self.tree@, key@) == entries_without_key(s1, key@),
            ensures
                self.tree.wf(),
                entries_without_key(self.tree@, key@) == entries_without_key(s1, key@),
                forall|j: int| 0 <= j < self.tree@.len() ==> entry_key(
                    #[trigger] self.tree@[j],
                ) != key@,
            decreases self.tree@.len(),
        {
            let ghost before = self.tree@;
            let found: bool = self.tree.remove_first_match(key_only.as_slice());
            if !found {
                proof {
                    assert forall|j: int| 0 <= j < self.tree@.len() implies entry_key(
                        #[trigger] self.tree@[j],
                    ) != key@ by {
                        lemma_pair_vs_key_only(self.tree@[j], key_only@);
                    }
                }
                break;
            }
            proof {
                let i = choose|i: int|
                    {
                        &&& 0 <= i < before.len()
                        &&& entry_matches(before[i], key_only@)
                        &&& forall|m: int| 0 <= m < i ==> !entry_matches(
                            #[trigger] before[m],
                            key_only@,
                        )
                        &&& self.tree@ == before.remove(i)
                    };
                lemma_pair_vs_key_only(before[i], key_only@);
                assert(entry_key(before[i]) == key@);
                lemma_entries_without_key_remove(before, i, key@);
            }
        }
        proof {
            lemma_entries_without_key_all(self.tree@, key@);
            assert(self.tree@ == entries_without_key(s1, key@));
            lemma_without_key_scan(s1, key@);
        }
        get_entries(&original_tree, key)
    }
}

impl ReadableMultimapTable for MultimapTable {
    closed spec fn pairs(&self) -> Seq<(Seq<u8>, Seq<u8>)> {
        pairs_of(self.tree@)
    }

    closed spec fn inv(&self) -> bool {
        self.tree.wf()
    }

    fn get(&self, key: &[u8]) -> (it: MultimapValueIter) {
        get_entries(&self.tree, key)
    }

    fn range(&self, lo: KeyBound, hi: KeyBound) -> (it: MultimapRangeIter) {
        range_pairs(&self.tree, lo, hi)
    }

    fn len(&self) -> (n: usize) {
        self.tree.len()
    }

    fn is_empty(&self) -> (b: bool) {
        let n: usize = self.tree.len();
        n == 0
    }

    proof fn pairs_are_sorted(&self) {
        lemma_store_pairs_sorted(self.tree@);
    }
}

/// A read-only multimap table over an immutable snapshot of a writable
/// table's state; later mutations of the writable table never reach it.
pub struct ReadOnlyMultimapTable {
    tree: BtreeStore,
}

impl ReadOnlyMultimapTable {
    /// Opens a read-only table pinned to the given table's current state.
    pub fn new(table: &MultimapTable) -> (r: Self)
        requires
            table.inv(),
        ensures
            r.inv(),
            r.pairs() == table.pairs(),
    {
        ReadOnlyMultimapTable { tree: table.tree.snapshot() }
    }
}

impl ReadableMultimapTable for ReadOnlyMultimapTable {
    closed spec fn pairs(&self) -> Seq<(Seq<u8>, Seq<u8>)> {
        pairs_of(self.tree@)
    }

    closed spec fn inv(&self) -> bool {
        self.tree.wf()
    }

    fn get(&self, key: &[u8]) -> (it: MultimapValueIter) {
        get_entries(&self.tree, key)
    }

    fn range(&self, lo: KeyBound, hi: KeyBound) -> (it: MultimapRangeIter) {
        range_pairs(&self.tree, lo, hi)
    }

    fn len(&self) -> (n: usize) {
        self.tree.len()
    }

    fn is_empty(&self) -> (b: bool) {
        let n: usize = self.tree.len();
        n == 0
    }

    proof fn pairs_are_sorted(&self) {
        lemma_store_pairs_sorted(self.tree@);
    }
}

} // verus!
