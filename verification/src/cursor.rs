//! Where a subscriber keeps its cursor.

use vstd::prelude::*;

verus! {

/// A cursor in memory, which does not outlive the process.
#[derive(Debug)]
pub struct MemoryCursorStore {
    pub cursor: u64,
}

impl MemoryCursorStore {
    /// A store that holds `initial`.
    pub fn new(initial: u64) -> (store: MemoryCursorStore)
        ensures
            store.cursor == initial,
    {
        MemoryCursorStore { cursor: initial }
    }

    /// The cursor.
    pub fn get(&self) -> (cursor: u64)
        ensures
            cursor == self.cursor,
    {
        self.cursor
    }

    /// The cursor from which to resume.
    pub fn load(&self) -> (cursor: u64)
        ensures
            cursor == self.cursor,
    {
        self.cursor
    }

    /// Keeps `cursor` in place of the one held.
    pub fn save(&mut self, cursor: u64)
        ensures
            final(self).cursor == cursor,
    {
        self.cursor = cursor;
    }
}

impl Default for MemoryCursorStore {
    fn default() -> (store: Self)
        ensures
            store.cursor == 0,
    {
        MemoryCursorStore { cursor: 0 }
    }
}

} // verus!
