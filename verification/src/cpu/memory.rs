//! Word-addressed memory.

use std::collections::HashMap;
use vstd::prelude::*;

use super::read_word;

verus! {

/// Sparse memory: a word for each address that was written.
pub struct Memory(pub HashMap<u32, i32>);

impl View for Memory {
    type V = Map<u32, i32>;

    open spec fn view(&self) -> Map<u32, i32> {
        self.0@
    }
}

impl Memory {
    /// Memory in which nothing was written.
    pub fn init() -> (m: Self)
        ensures
            m@ == Map::<u32, i32>::empty(),
    {
        Self(HashMap::new())
    }

    /// The word at `addr`, rounded down to a word boundary; 0 where nothing
    /// was written.
    pub fn read(&self, addr: u32) -> (val: i32)
        ensures
            val == read_word(self@, addr),
    {
        let mut addr = addr;
        if addr % 4 != 0 {
            addr = (addr / 4) * 4;
        }
        if let Some(val) = self.0.get(&addr) {
            *val
        } else {
            0
        }
    }

    /// Stores `val` at the word boundary `addr`.
    pub fn write(&mut self, addr: u32, val: i32)
        requires
            addr % 4 == 0,
        ensures
            final(self)@ == old(self)@.insert(addr, val),
    {
        let _ = self.0.insert(addr, val);
    }
}

} // verus!
