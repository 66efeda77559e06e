//! Bookkeeping of the free blocks.

pub mod arena;
pub mod chain;
pub mod lattice;
pub mod mend;
pub mod node;
pub mod pool;
pub mod seek;
pub mod shortcut;
