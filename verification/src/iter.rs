//! Lazy cursors over the result of a range scan.
//!
//! Both cursors own the encoded entries their scan selected and replay them
//! one at a time, forward or (after `rev`) backward.  They yield `None` once
//! exhausted and keep yielding `None` on every later call.

use vstd::prelude::*;
use crate::codec::{entry_key, entry_value, entry_value_to_vec, entry_key_to_vec};
use crate::store::{all_pairs, views_of};

verus! {

/// The value bytes of each entry of a sequence, in order.
pub open spec fn values_of(s: Seq<Seq<u8>>) -> Seq<Seq<u8>> {
    s.map_values(|e: Seq<u8>| entry_value(e))
}

/// The (key bytes, value bytes) of each entry of a sequence, in order.
pub open spec fn pairs_of(s: Seq<Seq<u8>>) -> Seq<(Seq<u8>, Seq<u8>)> {
    s.map_values(|e: Seq<u8>| (entry_key(e), entry_value(e)))
}

/// A lazy cursor that yields the decoded value of each selected entry.
pub struct MultimapValueIter {
    entries: Vec<Vec<u8>>,
    pos: usize,
    reversed: bool,
}

impl MultimapValueIter {
    /// The selected entries in the order this cursor walks them.
    pub closed spec fn order(self) -> Seq<Seq<u8>> {
        if self.reversed {
            views_of(self.entries@).reverse()
        } else {
            views_of(self.entries@)
        }
    }

    /// How many entries the cursor has already yielded.
    pub closed spec fn position(self) -> int {
        self.pos as int
    }

    /// The cursor holds well-formed pair entries and has not run past its end.
    pub closed spec fn wf(self) -> bool {
        self.pos <= self.entries@.len() && all_pairs(views_of(self.entries@))
    }

    /// The entries not yet yielded, in the order they will be yielded.
    pub open spec fn remaining_entries(self) -> Seq<Seq<u8>> {
        self.order().skip(self.position())
    }

    /// The value bytes not yet yielded, in the order they will be yielded.
    pub open spec fn remaining_values(self) -> Seq<Seq<u8>> {
        values_of(self.remaining_entries())
    }

    /// A forward cursor over the given selected entries.
    pub fn new(entries: Vec<Vec<u8>>) -> (r: Self)
        requires
            all_pairs(views_of(entries@)),
        ensures
            r.wf(),
            r.order() == views_of(entries@),
            r.position() == 0,
            r.remaining_entries() == views_of(entries@),
    {
        let r = MultimapValueIter { entries, pos: 0, reversed: false };
        proof {
            assert(r.remaining_entries() =~= r.order());
        }
        r
    }

    /// Yields the value of the next entry, or `None` once the cursor is
    /// exhausted; an exhausted cursor stays exhausted.
    pub fn next(&mut self) -> (r: Option<Vec<u8>>)
        requires
            old(self).wf(),
        ensures
            final(self).wf(),
            final(self).order() == old(self).order(),
            old(self).remaining_entries().len() == 0 ==> r is None && *final(self)
                == *old(self),
            old(self).remaining_entries().len() > 0 ==> {
                &&& r matches Some(v)
                &&& v@ == entry_value(old(self).remaining_entries()[0])
                &&& final(self).remaining_entries() == old(self).remaining_entries().drop_first()
            },
    {
        let n: usize = self.entries.len();
        if self.pos >= n {
            return None;
        }
        let idx: usize = if self.reversed {
            n - 1 - self.pos
        } else {
            self.pos
        };
        proof {
            assert(self.order()[self.pos as int] == views_of(self.entries@)[idx as int]);
        }
        let value: Vec<u8> = entry_value_to_vec(self.entries[idx].as_slice());
        self.pos = self.pos + 1;
        proof {
            assert(self.remaining_entries() =~= old(self).remaining_entries().drop_first());
        }
        Some(value)
    }

    /// A fresh cursor that walks the same selected entries backward.
    pub fn rev(self) -> (r: Self)
        requires
            self.wf(),
        ensures
            r.wf(),
            r.position() == 0,
            r.order() == self.order().reverse(),
            r.remaining_entries() == self.order().reverse(),
    {
        let reversed: bool = !self.reversed;
        let r = MultimapValueIter { entries: self.entries, pos: 0, reversed };
        proof {
            if !reversed {
                assert(r.order() =~= self.order().reverse());
            }
            assert(r.remaining_entries() =~= r.order());
        }
        r
    }
}

/// A lazy cursor that yields the decoded (key, value) of each selected entry.
pub struct MultimapRangeIter {
    entries: Vec<Vec<u8>>,
    pos: usize,
    reversed: bool,
}

impl MultimapRangeIter {
    /// The selected entries in the order this cursor walks them.
    pub closed spec fn order(self) -> Seq<Seq<u8>> {
        if self.reversed {
            views_of(self.entries@).reverse()
        } else {
            views_of(self.entries@)
        }
    }

    /// How many entries the cursor has already yielded.
    pub closed spec fn position(self) -> int {
        self.pos as int
    }

    /// The cursor holds well-formed pair entries and has not run past its end.
    pub closed spec fn wf(self) -> bool {
        self.pos <= self.entries@.len() && all_pairs(views_of(self.entries@))
    }

    /// The entries not yet yielded, in the order they will be yielded.
    pub open spec fn remaining_entries(self) -> Seq<Seq<u8>> {
        self.order().skip(self.position())
    }

    /// The (key, value) pairs not yet yielded, in the order they will be
    /// yielded.
    pub open spec fn remaining_pairs(self) -> Seq<(Seq<u8>, Seq<u8>)> {
        pairs_of(self.remaining_entries())
    }

    /// A forward cursor over the given selected entries.
    pub fn new(entries: Vec<Vec<u8>>) -> (r: Self)
        requires
            all_pairs(views_of(entries@)),
        ensures
            r.wf(),
            r.order() == views_of(entries@),
            r.position() == 0,
            r.remaining_entries() == views_of(entries@),
    {
        let r = MultimapRangeIter { entries, pos: 0, reversed: false };
        proof {
            assert(r.remaining_entries() =~= r.order());
        }
        r
    }

    /// Yields the key and value of the next entry, or `None` once the cursor
    /// is exhausted; an exhausted cursor stays exhausted.
    pub fn next(&mut self) -> (r: Option<(Vec<u8>, Vec<u8>)>)
        requires
            old(self).wf(),
        ensures
            final(self).wf(),
            final(self).order() == old(self).order(),
            old(self).remaining_entries().len() == 0 ==> r is None && *final(self)
                == *old(self),
            old(self).remaining_entries().len() > 0 ==> {
                &&& r matches Some(kv)
                &&& kv.0@ == entry_key(old(self).remaining_entries()[0])
                &&& kv.1@ == entry_value(old(self).remaining_entries()[0])
                &&& final(self).remaining_entries() == old(self).remaining_entries().drop_first()
            },
    {
        let n: usize = self.entries.len();
        if self.pos >= n {
            return None;
        }
        let idx: usize = if self.reversed {
            n - 1 - self.pos
        } else {
            self.pos
        };
        proof {
            assert(self.order()[self.pos as int] == views_of(self.entries@)[idx as int]);
        }
        let key: Vec<u8> = entry_key_to_vec(self.entries[idx].as_slice());
        let value: Vec<u8> = entry_value_to_vec(self.entries[idx].as_slice());
        self.pos = self.pos + 1;
        proof {
            assert(self.remaining_entries() =~= old(self).remaining_entries().drop_first());
        }
        Some((key, value))
    }

    /// A fresh cursor that walks the same selected entries backward.
    pub fn rev(self) -> (r: Self)
        requires
            self.wf(),
        ensures
            r.wf(),
            r.position() == 0,
            r.order() == self.order().reverse(),
            r.remaining_entries() == self.order().reverse(),
    {
        let reversed: bool = !self.reversed;
        let r = MultimapRangeIter { entries: self.entries, pos: 0, reversed };
        proof {
            if !reversed {
                assert(r.order() =~= self.order().reverse());
            }
            assert(r.remaining_entries() =~= r.order());
        }
        r
    }
}

} // verus!
