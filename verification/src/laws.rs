//! The laws of the multimap table, stated over the decoded pair view that the
//! table operations' contracts speak of.

use vstd::prelude::*;
use std::cmp::Ordering;
use crate::order::{lex, lemma_lex_eq, lemma_lex_flip};
use crate::range::{KeyBound, key_within};
use crate::table::{
    pair_lt, pairs_sorted, pairs_with_key, values_with_key, pairs_without_key, pairs_within,
    lemma_pairs_with_key_push, lemma_pairs_without_key_push, lemma_pairs_within_push,
};

verus! {

/// Every pair selected for a key carries that key and comes from the table,
/// and every pair of the table carrying the key is selected.
pub proof fn lemma_pairs_with_key_elements(ps: Seq<(Seq<u8>, Seq<u8>)>, k: Seq<u8>)
    ensures
        pairs_with_key(ps, k).len() <= ps.len(),
        forall|i: int|
            0 <= i < pairs_with_key(ps, k).len() ==> (#[trigger] pairs_with_key(ps, k)[i]).0 == k
                && ps.contains(pairs_with_key(ps, k)[i]),
        forall|j: int|
            0 <= j < ps.len() && (#[trigger] ps[j]).0 == k ==> pairs_with_key(ps, k).contains(
                ps[j],
            ),
    decreases ps.len(),
{
    if ps.len() == 0 {
        reveal(Seq::filter);
        assert(pairs_with_key(ps, k) =~= Seq::<(Seq<u8>, Seq<u8>)>::empty());
    } else {
        let front = ps.drop_last();
        let x = ps.last();
        lemma_pairs_with_key_elements(front, k);
        lemma_pairs_with_key_push(front, x, k);
        assert(front.push(x) =~= ps);
        let fs = pairs_with_key(front, k);
        let full = pairs_with_key(ps, k);
        assert forall|i: int| 0 <= i < full.len() implies (#[trigger] full[i]).0 == k
            && ps.contains(full[i]) by {
            if i < fs.len() {
                assert(full[i] == fs[i]);
                let j = choose|j: int| 0 <= j < front.len() && front[j] == fs[i];
                assert(ps[j] == fs[i]);
            } else {
                assert(full[i] == x);
                assert(ps[ps.len() - 1] == x);
            }
        }
        assert forall|j: int| 0 <= j < ps.len() && (#[trigger] ps[j]).0 == k implies full.contains(
            ps[j],
        ) by {
            if j < front.len() {
                assert(front[j] == ps[j]);
                assert(fs.contains(ps[j]));
                let m = choose|m: int| 0 <= m < fs.len() && fs[m] == ps[j];
                assert(full[m] == ps[j]);
            } else {
                assert(ps[j] == x);
                assert(full[full.len() - 1] == x);
            }
        }
    }
}

/// Round trip: a table's selection for a key yields a value exactly when the
/// table holds that (key, value) pair.  After an insert of (k, v) the values
/// of k include v; once no (k, v) pair is left, they do not.
pub proof fn lemma_round_trip_contains(ps: Seq<(Seq<u8>, Seq<u8>)>, k: Seq<u8>, v: Seq<u8>)
    ensures
        values_with_key(ps, k).contains(v) <==> ps.contains((k, v)),
{
    lemma_pairs_with_key_elements(ps, k);
    let sel = pairs_with_key(ps, k);
    let vals = values_with_key(ps, k);
    if vals.contains(v) {
        let i = choose|i: int| 0 <= i < vals.len() && vals[i] == v;
        assert(sel[i].0 == k && sel[i].1 == v);
        assert(sel[i] == (k, v));
        assert(ps.contains((k, v)));
    }
    if ps.contains((k, v)) {
        let j = choose|j: int| 0 <= j < ps.len() && ps[j] == (k, v);
        assert(sel.contains((k, v)));
        let m = choose|m: int| 0 <= m < sel.len() && sel[m] == (k, v);
        assert(vals[m] == v);
        assert(vals.contains(v));
    }
}

/// Uniqueness: a sorted table never stores the same (key, value) pair twice,
/// so a pair is stored at most once whatever was inserted.
pub proof fn lemma_pairs_unique(ps: Seq<(Seq<u8>, Seq<u8>)>)
    requires
        pairs_sorted(ps),
    ensures
        forall|i: int, j: int| 0 <= i < j < ps.len() ==> ps[i] != ps[j],
{
    assert forall|i: int, j: int| 0 <= i < j < ps.len() implies ps[i] != ps[j] by {
        assert(pair_lt(ps[i], ps[j]));
        if ps[i] == ps[j] {
            lemma_lex_eq(ps[i].0, ps[j].0);
            lemma_lex_eq(ps[i].1, ps[j].1);
        }
    }
}

/// Removing a pair from a sorted table removes its only occurrence: the pair
/// is absent afterwards.
pub proof fn lemma_removed_pair_absent(ps: Seq<(Seq<u8>, Seq<u8>)>, i: int)
    requires
        pairs_sorted(ps),
        0 <= i < ps.len(),
    ensures
        !ps.remove(i).contains(ps[i]),
{
    lemma_pairs_unique(ps);
    ps.remove_ensures(i);
    if ps.remove(i).contains(ps[i]) {
        let j = choose|j: int| 0 <= j < ps.remove(i).len() && ps.remove(i)[j] == ps[i];
        if j < i {
            assert(ps[j] == ps[i]);
        } else {
            assert(ps[j + 1] == ps[i]);
        }
    }
}

/// The pairs selected for one key are sorted by value.
pub proof fn lemma_pairs_with_key_sorted(ps: Seq<(Seq<u8>, Seq<u8>)>, k: Seq<u8>)
    requires
        pairs_sorted(ps),
    ensures
        pairs_sorted(pairs_with_key(ps, k)),
    decreases ps.len(),
{
    if ps.len() == 0 {
        reveal(Seq::filter);
        assert(pairs_with_key(ps, k) =~= Seq::<(Seq<u8>, Seq<u8>)>::empty());
    } else {
        let front = ps.drop_last();
        let x = ps.last();
        assert forall|i: int, j: int| 0 <= i < j < front.len() implies #[trigger] pair_lt(
            front[i],
            front[j],
        ) by {
            assert(front[i] == ps[i] && front[j] == ps[j]);
        }
        lemma_pairs_with_key_sorted(front, k);
        lemma_pairs_with_key_elements(front, k);
        lemma_pairs_with_key_push(front, x, k);
        assert(front.push(x) =~= ps);
        if x.0 == k {
            let fs = pairs_with_key(front, k);
            let full = pairs_with_key(ps, k);
            assert forall|i: int, j: int| 0 <= i < j < full.len() implies #[trigger] pair_lt(
                full[i],
                full[j],
            ) by {
                if j < fs.len() {
                    assert(full[i] == fs[i] && full[j] == fs[j]);
                } else {
                    assert(full[j] == x);
                    assert(full[i] == fs[i]);
                    let m = choose|m: int| 0 <= m < front.len() && front[m] == fs[i];
                    assert(ps[m] == fs[i]);
                    assert(ps[ps.len() - 1] == x);
                    assert(pair_lt(ps[m], x));
                }
            }
        }
    }
}

/// Ordering: the values a sorted table associates with one key come out in
/// ascending lexicographic order, and the reversed cursor yields the exact
/// reverse, in descending order.
pub proof fn lemma_get_values_sorted(ps: Seq<(Seq<u8>, Seq<u8>)>, k: Seq<u8>)
    requires
        pairs_sorted(ps),
    ensures
        forall|i: int, j: int|
            0 <= i < j < values_with_key(ps, k).len() ==> lex(
                #[trigger] values_with_key(ps, k)[i],
                #[trigger] values_with_key(ps, k)[j],
            ) == Ordering::Less,
        forall|i: int, j: int|
            0 <= i < j < values_with_key(ps, k).len() ==> lex(
                #[trigger] values_with_key(ps, k).reverse()[i],
                #[trigger] values_with_key(ps, k).reverse()[j],
            ) == Ordering::Greater,
{
    lemma_pairs_with_key_sorted(ps, k);
    lemma_pairs_with_key_elements(ps, k);
    let sel = pairs_with_key(ps, k);
    let vals = values_with_key(ps, k);
    assert forall|i: int, j: int| 0 <= i < j < vals.len() implies lex(
        #[trigger] vals[i],
        #[trigger] vals[j],
    ) == Ordering::Less by {
        assert(pair_lt(sel[i], sel[j]));
        assert(sel[i].0 == k && sel[j].0 == k);
        lemma_lex_eq(sel[i].0, sel[j].0);
    }
    assert forall|i: int, j: int| 0 <= i < j < vals.len() implies lex(
        #[trigger] vals.reverse()[i],
        #[trigger] vals.reverse()[j],
    ) == Ordering::Greater by {
        let a = vals.len() - 1 - i;
        let b = vals.len() - 1 - j;
        assert(vals.reverse()[i] == vals[a] && vals.reverse()[j] == vals[b]);
        assert(lex(vals[b], vals[a]) == Ordering::Less);
        lemma_lex_flip(vals[b], vals[a]);
    }
}

/// Range inclusivity: every pair a range query selects carries a key within
/// the range's bounds and comes from the table.
pub proof fn lemma_range_keys_within(ps: Seq<(Seq<u8>, Seq<u8>)>, lo: KeyBound, hi: KeyBound)
    ensures
        forall|i: int|
            0 <= i < pairs_within(ps, lo, hi).len() ==> key_within(
                (#[trigger] pairs_within(ps, lo, hi)[i]).0,
                lo,
                hi,
            ) && ps.contains(pairs_within(ps, lo, hi)[i]),
    decreases ps.len(),
{
    if ps.len() == 0 {
        reveal(Seq::filter);
        assert(pairs_within(ps, lo, hi) =~= Seq::<(Seq<u8>, Seq<u8>)>::empty());
    } else {
        let front = ps.drop_last();
        let x = ps.last();
        lemma_range_keys_within(front, lo, hi);
        lemma_pairs_within_push(front, x, lo, hi);
        assert(front.push(x) =~= ps);
        let fs = pairs_within(front, lo, hi);
        let full = pairs_within(ps, lo, hi);
        assert forall|i: int| 0 <= i < full.len() implies key_within(
            (#[trigger] full[i]).0,
            lo,
            hi,
        ) && ps.contains(full[i]) by {
            if i < fs.len() {
                assert(full[i] == fs[i]);
                let j = choose|j: int| 0 <= j < front.len() && front[j] == fs[i];
                assert(ps[j] == fs[i]);
            } else {
                assert(full[i] == x);
                assert(ps[ps.len() - 1] == x);
            }
        }
    }
}

/// Bulk removal: once the pairs of a key are dropped, the selection for that
/// key is empty, so a later lookup of the key yields nothing.
pub proof fn lemma_get_after_remove_all(ps: Seq<(Seq<u8>, Seq<u8>)>, k: Seq<u8>)
    ensures
        values_with_key(pairs_without_key(ps, k), k) == Seq::<Seq<u8>>::empty(),
    decreases ps.len(),
{
    if ps.len() == 0 {
        reveal(Seq::filter);
        assert(pairs_without_key(ps, k) =~= Seq::<(Seq<u8>, Seq<u8>)>::empty());
        assert(pairs_with_key(pairs_without_key(ps, k), k) =~= Seq::<(Seq<u8>, Seq<u8>)>::empty());
        assert(values_with_key(pairs_without_key(ps, k), k) =~= Seq::<Seq<u8>>::empty());
    } else {
        let front = ps.drop_last();
        let x = ps.last();
        lemma_get_after_remove_all(front, k);
        lemma_pairs_without_key_push(front, x, k);
        assert(front.push(x) =~= ps);
        if x.0 != k {
            lemma_pairs_with_key_push(pairs_without_key(front, k), x, k);
        }
    }
}

} // verus!
