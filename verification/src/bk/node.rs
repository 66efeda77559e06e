//! Nodes of the index.

use crate::block::Block;
use vstd::prelude::*;

verus! {

/// One entry of the index: a free block, and for each level that the node
/// takes part in, the slot of the node that follows it there.
pub struct Node {
    /// The free block that the node keeps.
    pub block: Block,
    /// The forward links, the base level first. `None` ends a level.
    pub shortcuts: Vec<Option<usize>>,
}

impl Node {
    /// The number of levels that the node takes part in.
    pub open spec fn height(&self) -> int {
        self.shortcuts@.len() as int
    }

    /// The forward link at `level`, counted from 1.
    pub open spec fn link(&self, level: int) -> Option<usize> {
        self.shortcuts@[level - 1]
    }

    /// A node of `level` levels around `block`, linked to nothing.
    pub fn new(block: Block, level: usize) -> (node: Node)
        ensures
            node.block == block,
            node.height() == level,
            forall|lv: int| 1 <= lv <= level ==> node.link(lv) is None,
    {
        let mut shortcuts: Vec<Option<usize>> = Vec::new();
        let mut made: usize = 0;
        while made < level
            invariant
                made <= level,
                shortcuts@.len() == made,
                forall|i: int| 0 <= i < made ==> shortcuts@[i] is None,
            decreases level - made,
        {
            shortcuts.push(None);
            made = made + 1;
        }
        Node { block, shortcuts }
    }

    /// The number of levels that the node takes part in.
    pub fn level(&self) -> (level: usize)
        ensures
            level == self.height(),
    {
        self.shortcuts.len()
    }

    /// The slot of the node that follows this one at `level`.
    pub fn next(&self, level: usize) -> (to: Option<usize>)
        requires
            1 <= level <= self.height(),
        ensures
            to == self.link(level as int),
    {
        self.shortcuts[level - 1]
    }

    /// Point the link at `level` to `to`.
    pub fn set_next(&mut self, level: usize, to: Option<usize>)
        requires
            1 <= level <= old(self).height(),
        ensures
            final(self).block == old(self).block,
            final(self).shortcuts@ == old(self).shortcuts@.update(level - 1, to),
    {
        self.shortcuts[level - 1] = to;
    }
}

} // verus!
