//! A seedable source of coin flips.
//!
//! The index of the pool draws the level of each new node from a run of fair
//! coin flips. The generator here is a plain xorshift: the same seed gives
//! the same flips, so a caller can replay a run.

use vstd::prelude::*;

verus! {

/// The state that stands in for a seed of zero, which xorshift cannot leave.
pub const FALLBACK_SEED: u64 = 0x2545_f491_4f6c_dd1d;

/// One xorshift step on a 64-bit state.
pub open spec fn scramble(state: u64) -> u64 {
    let a = state ^ (state << 13u64);
    let b = a ^ (a >> 7u64);
    b ^ (b << 17u64)
}

/// The state with which a generator seeded by `seed` starts.
pub open spec fn seeded(seed: u64) -> u64 {
    if seed == 0 {
        FALLBACK_SEED
    } else {
        seed
    }
}

/// A pseudorandom number generator.
pub struct Generator {
    state: u64,
}

impl View for Generator {
    type V = u64;

    closed spec fn view(&self) -> u64 {
        self.state
    }
}

impl Generator {
    /// A generator that starts from `seed`.
    pub fn new(seed: u64) -> (source: Generator)
        ensures
            source@ == seeded(seed),
    {
        if seed == 0 {
            Generator { state: FALLBACK_SEED }
        } else {
            Generator { state: seed }
        }
    }

    /// The next 64 flips, one per bit.
    pub fn get(&mut self) -> (flips: u64)
        ensures
            final(self)@ == scramble(old(self)@),
            flips == final(self)@,
    {
        let a: u64 = self.state ^ (self.state << 13u64);
        let b: u64 = a ^ (a >> 7u64);
        let c: u64 = b ^ (b << 17u64);
        self.state = c;
        c
    }
}

} // verus!
