//! Free-memory bookkeeping for an allocator that cannot lean on another one.
//!
//! A [`block::Block`] is a span of memory known by its address and its size.
//! The [`bk::pool::Pool`] keeps the free blocks of an address space in
//! address order, folds neighbours together as soon as they touch, and finds
//! its way through them by a multi-level index.

pub mod ptr;
pub mod span;
pub mod block;
pub mod random;
pub mod bk;
