//! The store behind the machine: an ordered mapping from the address of a
//! cell to the value that the cell holds.

use crate::word::Word;
use std::collections::BTreeMap;
use vstd::prelude::*;

verus! {

/// A mapping from addresses to values. Its view maps each address that holds
/// a value to the bytes of that value.
pub struct MemoryStore {
    cells: BTreeMap<u64, Word>,
}

impl View for MemoryStore {
    type V = Map<u64, Seq<u8>>;

    closed spec fn view(&self) -> Map<u64, Seq<u8>> {
        self.cells@.map_values(|w: Word| w@)
    }
}

impl MemoryStore {
    /// A store that holds nothing.
    pub fn new() -> (store: MemoryStore)
        ensures
            store@ == Map::<u64, Seq<u8>>::empty(),
    {
        let store = MemoryStore { cells: BTreeMap::new() };
        assert(store@ =~= Map::<u64, Seq<u8>>::empty());
        store
    }

    /// The value at the address, if the store holds one.
    pub fn get(&self, address: u64) -> (value: Option<Word>)
        ensures
            value is Some <==> self@.contains_key(address),
            value is Some ==> value->0@ == self@[address],
    {
        match self.cells.get(&address) {
            Some(w) => Some(w.clone()),
            None => None,
        }
    }

    /// Puts the value at the address and yields the value that was there.
    pub fn insert(&mut self, address: u64, value: Word) -> (previous: Option<Word>)
        ensures
            final(self)@ == old(self)@.insert(address, value@),
            previous is Some <==> old(self)@.contains_key(address),
            previous is Some ==> previous->0@ == old(self)@[address],
    {
        let previous = self.cells.insert(address, value);
        assert(self@ =~= old(self)@.insert(address, value@));
        previous
    }

    /// Puts the value at the address, in place of the value that was there,
    /// if any.
    pub fn replace_or_insert(&mut self, address: u64, value: Word)
        ensures
            final(self)@ == old(self)@.insert(address, value@),
    {
        let _ = self.insert(address, value);
    }
}

} // verus!
