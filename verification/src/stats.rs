//! The statistics of one region: named kilobyte values with map semantics.
//!
//! Entries are kept in insertion order; on equal keys the entry inserted
//! later shadows the earlier one, so the abstract view is a map in which
//! the last write wins.

use vstd::prelude::*;

use crate::scan::bytes_eq;

verus! {

/// The named kilobyte statistics of one region.
#[derive(Debug)]
pub struct StatMap {
    pub entries: Vec<(Vec<u8>, usize)>,
}

/// The map abstraction of an entry list: entries are folded in order, so
/// the last entry with a given key decides that key's value.
pub open spec fn entries_map(s: Seq<(Vec<u8>, usize)>) -> Map<Seq<u8>, nat>
    decreases s.len(),
{
    if s.len() == 0 {
        Map::empty()
    } else {
        entries_map(s.drop_last()).insert(s.last().0@, s.last().1 as nat)
    }
}

impl View for StatMap {
    type V = Map<Seq<u8>, nat>;

    open spec fn view(&self) -> Map<Seq<u8>, nat> {
        entries_map(self.entries@)
    }
}

impl StatMap {
    /// A statistics map with no entries.
    pub fn new() -> (r: Self)
        ensures
            r@ == Map::<Seq<u8>, nat>::empty(),
    {
        let r = StatMap { entries: Vec::new() };
        proof {
            assert(r.entries@.len() == 0);
        }
        r
    }

    /// Record a value for a key; an earlier value for the same key is
    /// shadowed.
    pub fn insert(&mut self, key: Vec<u8>, value: usize)
        ensures
            final(self)@ == old(self)@.insert(key@, value as nat),
    {
        let ghost before = self.entries@;
        self.entries.push((key, value));
        proof {
            assert(self.entries@.drop_last() =~= before);
        }
    }

    /// Look the key up; `None` exactly when the key was never recorded.
    pub fn get(&self, key: &[u8]) -> (r: Option<usize>)
        ensures
            match r {
                Some(v) => self@.contains_key(key@) && v as nat == self@[key@],
                None => !self@.contains_key(key@),
            },
    {
        let ghost full = self.entries@;
        let mut i: usize = self.entries.len();
        proof {
            assert(full.subrange(0, full.len() as int) =~= full);
        }
        while i > 0
            invariant
                i <= self.entries@.len(),
                self.entries@ == full,
                entries_map(full).contains_key(key@) == entries_map(
                    full.subrange(0, i as int),
                ).contains_key(key@),
                entries_map(full).contains_key(key@) ==> entries_map(full)[key@] == entries_map(
                    full.subrange(0, i as int),
                )[key@],
            decreases i,
        {
            let hit = bytes_eq(self.entries[i - 1].0.as_slice(), key);
            proof {
                assert(full.subrange(0, i as int).drop_last() =~= full.subrange(0, i - 1));
                assert(full.subrange(0, i as int).last() == full[i - 1]);
            }
            if hit {
                return Some(self.entries[i - 1].1);
            }
            i = i - 1;
        }
        proof {
            assert(full.subrange(0, 0) =~= Seq::<(Vec<u8>, usize)>::empty());
        }
        None
    }
}

} // verus!
