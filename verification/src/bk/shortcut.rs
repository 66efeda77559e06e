//! Levels of the index.
//!
//! The base level holds every node. Each level above it holds about half of
//! the nodes of the level below: a node is promoted once for each coin flip
//! that comes up heads, until one comes up tails or the top is reached.

use crate::bk::seek::Anchor;
use vstd::prelude::*;

verus! {

/// The number of levels of the index.
pub const LEVELS: usize = 8;

/// The number of promotions that the flips grant a node that has already
/// taken `done` of them: one for each set bit, from the lowest bit up, until
/// a clear bit or the top level.
pub open spec fn promotions(flips: u64, done: int) -> int
    decreases LEVELS - done,
{
    if done + 1 < LEVELS && flips & 1 == 1 {
        1 + promotions(flips >> 1u64, done + 1)
    } else {
        0
    }
}

/// The level that the flips assign to a new node.
pub open spec fn level_of(flips: u64) -> int {
    1 + promotions(flips, 0)
}

/// The level cannot leave the index.
pub proof fn lemma_promotions_bounded(flips: u64, done: int)
    requires
        0 <= done < LEVELS,
    ensures
        0 <= promotions(flips, done) < LEVELS - done,
    decreases LEVELS - done,
{
    if done + 1 < LEVELS && flips & 1 == 1 {
        lemma_promotions_bounded(flips >> 1u64, done + 1);
    }
}

/// Draw a level from a word of coin flips.
pub fn generate_level(flips: u64) -> (level: usize)
    ensures
        level == level_of(flips),
        1 <= level <= LEVELS,
{
    let mut level: usize = 1;
    let mut rest: u64 = flips;
    proof {
        lemma_promotions_bounded(flips, 0);
    }
    while level < LEVELS && rest & 1 == 1
        invariant
            1 <= level <= LEVELS,
            level_of(flips) == level + promotions(rest, level - 1),
        decreases LEVELS - level,
    {
        rest = rest >> 1u64;
        level = level + 1;
    }
    level
}

/// A place at one level of the index. From it a walk goes forward along the
/// level, or steps down to the level below without leaving its place.
#[derive(Clone, Copy, Debug)]
pub struct Cursor {
    /// Where the cursor stands.
    pub at: Anchor,
    /// The level along which it walks, counted from 1. Below the base level
    /// there is nothing to walk along.
    pub level: usize,
}

impl Cursor {
    /// The anchor at which the cursor stands.
    pub open spec fn unwrap_node(&self) -> Anchor {
        self.at
    }

    /// Step down one level, in place. The level that the cursor leaves
    /// comes back.
    pub fn decrement_level(&mut self) -> (left: usize)
        requires
            old(self).level > 0,
        ensures
            left == old(self).level,
            final(self).level == old(self).level - 1,
            final(self).at == old(self).at,
    {
        let left = self.level;
        self.level = left - 1;
        left
    }
}

} // verus!
