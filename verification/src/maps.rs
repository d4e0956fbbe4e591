//! Small association maps with mathematical `Map` views: one keyed by label
//! text, one keyed by 32-bit addresses. Entries are kept in insertion order
//! and a later insertion of the same key wins, so the view is the fold of
//! `Map::insert` over the entries.

use vstd::prelude::*;
use crate::text::str_eq;

verus! {

/// The map a sequence of label entries denotes.
pub open spec fn label_map_of(entries: Seq<(String, u32)>) -> Map<Seq<char>, u32>
    decreases entries.len(),
{
    if entries.len() == 0 {
        Map::empty()
    } else {
        label_map_of(entries.drop_last()).insert(entries.last().0@, entries.last().1)
    }
}

/// Labels to addresses.
#[derive(Debug)]
pub struct LabelMap {
    pub entries: Vec<(String, u32)>,
}

impl View for LabelMap {
    type V = Map<Seq<char>, u32>;

    open spec fn view(&self) -> Map<Seq<char>, u32> {
        label_map_of(self.entries@)
    }
}

impl LabelMap {
    pub fn new() -> (r: LabelMap)
        ensures
            r@ == Map::<Seq<char>, u32>::empty(),
    {
        LabelMap { entries: Vec::new() }
    }

    /// Binds `k` to `v`, replacing any earlier binding.
    pub fn insert(&mut self, k: String, v: u32)
        ensures
            final(self)@ == old(self)@.insert(k@, v),
    {
        self.entries.push((k, v));
        proof {
            assert(self.entries@.drop_last() =~= old(self).entries@);
        }
    }

    /// The address bound to `k`, if any.
    pub fn get(&self, k: &str) -> (r: Option<u32>)
        ensures
            (match r {
                Option::Some(v) => self@.contains_key(k@) && self@[k@] == v,
                Option::None => !self@.contains_key(k@),
            }),
    {
        let mut i: usize = self.entries.len();
        proof {
            assert(self.entries@.take(i as int) =~= self.entries@);
        }
        while i > 0
            invariant
                0 <= i <= self.entries@.len(),
                (label_map_of(self.entries@).contains_key(k@) == label_map_of(
                    self.entries@.take(i as int),
                ).contains_key(k@)),
                label_map_of(self.entries@).contains_key(k@) ==> label_map_of(self.entries@)[k@]
                    == label_map_of(self.entries@.take(i as int))[k@],
            decreases i,
        {
            proof {
                assert(self.entries@.take(i as int).drop_last() =~= self.entries@.take(i - 1));
                assert(self.entries@.take(i as int).last() == self.entries@[i - 1]);
            }
            let hit = str_eq(self.entries[i - 1].0.as_str(), k);
            if hit {
                return Option::Some(self.entries[i - 1].1);
            }
            i = i - 1;
        }
        proof {
            assert(self.entries@.take(0) =~= Seq::<(String, u32)>::empty());
        }
        Option::None
    }
}

/// The map a sequence of address entries denotes.
pub open spec fn addr_map_of<V>(entries: Seq<(u32, V)>) -> Map<u32, V>
    decreases entries.len(),
{
    if entries.len() == 0 {
        Map::empty()
    } else {
        addr_map_of(entries.drop_last()).insert(entries.last().0, entries.last().1)
    }
}

/// Addresses to copied values: instruction indices, or machine memory.
#[derive(Debug)]
pub struct AddrMap<V> {
    pub entries: Vec<(u32, V)>,
}

impl<V> View for AddrMap<V> {
    type V = Map<u32, V>;

    open spec fn view(&self) -> Map<u32, V> {
        addr_map_of(self.entries@)
    }
}

impl<V: Copy> AddrMap<V> {
    pub fn new() -> (r: AddrMap<V>)
        ensures
            r@ == Map::<u32, V>::empty(),
    {
        AddrMap { entries: Vec::new() }
    }

    /// Binds `k` to `v`, replacing any earlier binding.
    pub fn insert(&mut self, k: u32, v: V)
        ensures
            final(self)@ == old(self)@.insert(k, v),
    {
        self.entries.push((k, v));
        proof {
            assert(self.entries@.drop_last() =~= old(self).entries@);
        }
    }

    /// The value bound to `k`, if any.
    pub fn get(&self, k: u32) -> (r: Option<V>)
        ensures
            (match r {
                Option::Some(v) => self@.contains_key(k) && self@[k] == v,
                Option::None => !self@.contains_key(k),
            }),
    {
        let mut i: usize = self.entries.len();
        proof {
            assert(self.entries@.take(i as int) =~= self.entries@);
        }
        while i > 0
            invariant
                0 <= i <= self.entries@.len(),
                (addr_map_of(self.entries@).contains_key(k) == addr_map_of(
                    self.entries@.take(i as int),
                ).contains_key(k)),
                addr_map_of(self.entries@).contains_key(k) ==> addr_map_of(self.entries@)[k]
                    == addr_map_of(self.entries@.take(i as int))[k],
            decreases i,
        {
            proof {
                assert(self.entries@.take(i as int).drop_last() =~= self.entries@.take(i - 1));
                assert(self.entries@.take(i as int).last() == self.entries@[i - 1]);
            }
            if self.entries[i - 1].0 == k {
                return Option::Some(self.entries[i - 1].1);
            }
            i = i - 1;
        }
        proof {
            assert(self.entries@.take(0) =~= Seq::<(u32, V)>::empty());
        }
        Option::None
    }
}

} // verus!
