//! What a search of the pool finds.

use vstd::prelude::*;

verus! {

/// A place in the index from which a forward link leaves: the sentinel at the
/// head, or the node in a slot of the arena.
#[derive(Clone, Copy, Debug, PartialEq, Eq, Structural)]
pub enum Anchor {
    /// The sentinel, which stands before every node at every level.
    Head,
    /// The node in the slot of this number.
    Slot(usize),
}

/// The result of a search for an address: for each level the last node that
/// starts below the address, or the sentinel where there is none.
///
/// A seek describes the pool as it was when it was searched. Once the pool
/// has changed, the seek is stale and the search is made again.
#[derive(Debug)]
pub struct Seek {
    /// The predecessor at the base level.
    pub node: Anchor,
    /// The predecessor at each level, the base level first.
    pub back_look: Vec<Anchor>,
}

impl Seek {
    /// The predecessor at `level`, counted from 1.
    pub open spec fn at(&self, level: int) -> Anchor {
        self.back_look@[level - 1]
    }

    /// The predecessor at `level`, counted from 1.
    pub fn predecessor(&self, level: usize) -> (anchor: Anchor)
        requires
            1 <= level <= self.back_look@.len(),
        ensures
            anchor == self.at(level as int),
    {
        self.back_look[level - 1]
    }
}

} // verus!
