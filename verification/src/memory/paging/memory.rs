//! The memory that holds the page tables, as the kernel sees it through the
//! recursive mapping: 64-bit words at virtual addresses. A word never written
//! reads as zero.
use vstd::prelude::*;
use vstd::hash_map::HashMapWithView;

verus! {

broadcast use vstd::std_specs::hash::axiom_u64_obeys_hash_table_key_model;

/// The word at `addr`: what was last written there, zero if nothing was.
pub open spec fn word(m: Map<u64, u64>, addr: u64) -> u64 {
    if m.contains_key(addr) {
        m[addr]
    } else {
        0
    }
}

/// Page-table words, keyed by their virtual address. Tables are told apart by
/// that address alone: two entries naming one physical frame give two tables
/// here, while the hardware would share one. Frames handed to the tables are
/// taken to be in use by no other table.
pub struct PageTableMemory {
    words: HashMapWithView<u64, u64>,
}

impl View for PageTableMemory {
    type V = Map<u64, u64>;

    closed spec fn view(&self) -> Map<u64, u64> {
        self.words@
    }
}

impl PageTableMemory {
    /// Memory where every word is zero.
    pub fn new() -> (m: PageTableMemory)
        ensures
            m@ == Map::<u64, u64>::empty(),
    {
        PageTableMemory { words: HashMapWithView::new() }
    }

    /// The word at `addr`.
    pub fn read(&self, addr: u64) -> (v: u64)
        ensures
            v == word(self@, addr),
    {
        match self.words.get(&addr) {
            Some(v) => *v,
            None => 0,
        }
    }

    /// Stores `v` at `addr`.
    pub fn write(&mut self, addr: u64, v: u64)
        ensures
            final(self)@ == old(self)@.insert(addr, v),
    {
        self.words.insert(addr, v);
    }
}

} // verus!
