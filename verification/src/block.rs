//! Memory blocks.
//!
//! A block is an address handle and a size. It stands for a span of memory
//! that its holder owns; a block of size zero owns nothing.

use crate::ptr::order_of;
use crate::ptr::Align;
use crate::ptr::Pointer;
use crate::span::lemma_padding_aligns;
use crate::span::Span;
use core::cmp::Ordering;
use vstd::prelude::*;
use vstd::std_specs::cmp::PartialEqSpecImpl;
use vstd::std_specs::cmp::PartialOrdSpecImpl;
use vstd::std_specs::convert::FromSpecImpl;

verus! {

/// A number of bytes.
pub type Size = usize;

/// A contiguous memory block.
///
/// The block is not duplicated: it is split, merged, or popped, and what is
/// left behind by a pop owns nothing.
#[derive(Debug)]
#[must_use]
pub struct Block {
    /// The size of this block, in bytes.
    size: Size,
    /// The pointer to the start of this block.
    ptr: Pointer,
}

impl Block {
    /// The address at which the block starts.
    pub closed spec fn addr(&self) -> usize {
        self.ptr@
    }

    /// The address handle that the block holds.
    pub closed spec fn handle(&self) -> Pointer {
        self.ptr
    }

    /// The number of bytes in the block.
    pub closed spec fn len(&self) -> usize {
        self.size
    }

    /// The span of addresses that the block covers.
    pub open spec fn view(&self) -> Span {
        Span { start: self.addr() as int, len: self.len() as int }
    }

    /// The end of the block is an address.
    pub open spec fn wf(&self) -> bool {
        self.addr() + self.len() <= usize::MAX
    }

    /// Construct a block from its raw parts (pointer and size).
    pub fn from_raw_parts(ptr: Pointer, size: Size) -> (block: Block)
        requires
            ptr@ + size <= usize::MAX,
        ensures
            block.wf(),
            block.addr() == ptr@,
            block.len() == size,
    {
        Block { size, ptr }
    }

    /// Create an empty block starting at `ptr`.
    pub fn empty(ptr: Pointer) -> (block: Block)
        ensures
            block.wf(),
            block.addr() == ptr@,
            block.len() == 0,
    {
        Block { size: 0, ptr }
    }

    /// Create an empty block representing the left edge of this block.
    pub fn empty_left(&self) -> (edge: Block)
        ensures
            edge.wf(),
            edge@ == self@.left_edge(),
    {
        Block::empty(self.ptr.clone())
    }

    /// Create an empty block representing the right edge of this block.
    pub fn empty_right(&self) -> (edge: Block)
        requires
            self.wf(),
        ensures
            edge.wf(),
            edge@ == self@.right_edge(),
    {
        Block { size: 0, ptr: Pointer::new(self.ptr.get() + self.size) }
    }

    /// Merge this block with a block to the right.
    ///
    /// Where `block` starts at the end of `self`, or holds nothing, `self`
    /// takes its bytes and `block` is left empty. Otherwise neither changes.
    pub fn merge_right(&mut self, block: &mut Block) -> (res: Result<(), ()>)
        requires
            old(self).wf(),
            old(block).wf(),
        ensures
            res is Ok <==> old(self)@.mergeable(old(block)@),
            res is Ok ==> final(self)@ == old(self)@.merged(old(block)@),
            res is Ok ==> final(block)@ == old(block)@.left_edge(),
            res is Err ==> *final(self) == *old(self) && *final(block) == *old(block),
            final(self).wf(),
            final(block).wf(),
    {
        if block.is_empty() {
            Ok(())
        } else if self.left_to(block) {
            let taken = block.pop();
            self.size = self.size + taken.size;
            Ok(())
        } else {
            Err(())
        }
    }

    /// Is this block empty/free?
    pub fn is_empty(&self) -> (empty: bool)
        ensures
            empty == self@.is_empty(),
    {
        self.size == 0
    }

    /// Get the size of the block.
    pub fn size(&self) -> (size: Size)
        ensures
            size == self.len(),
    {
        self.size
    }

    /// Get the address at which the block starts.
    pub fn address(&self) -> (addr: usize)
        ensures
            addr == self.addr(),
    {
        self.ptr.get()
    }

    /// Is this block aligned to `align`?
    pub fn aligned_to(&self, align: Align) -> (aligned: bool)
        requires
            align > 0,
        ensures
            aligned == (self@.start % (align as int) == 0),
    {
        self.ptr.aligned_to(align)
    }

    /// "Pop" this block.
    ///
    /// This marks it as free, and returns the old value.
    pub fn pop(&mut self) -> (taken: Block)
        ensures
            taken == *old(self),
            final(self)@ == old(self)@.left_edge(),
    {
        let taken = Block { size: self.size, ptr: self.ptr.clone() };
        self.size = 0;
        taken
    }

    /// Is this block placed left to the given other block?
    pub fn left_to(&self, to: &Block) -> (adjacent: bool)
        requires
            self.wf(),
        ensures
            adjacent == self@.left_to(to@),
    {
        self.size + self.ptr.get() == to.ptr.get()
    }

    /// Split the block at some position.
    pub fn split(self, pos: Size) -> (halves: (Block, Block))
        requires
            self.wf(),
            pos <= self.len(),
        ensures
            halves.0@ == self@.head(pos as int),
            halves.1@ == self@.tail(pos as int),
            halves.0.wf(),
            halves.1.wf(),
    {
        let at = Pointer::new(self.ptr.get() + pos);
        (Block { size: pos, ptr: self.ptr }, Block { size: self.size - pos, ptr: at })
    }

    /// Split this block, such that the second block is aligned to `align`.
    ///
    /// Where the padding that this takes is smaller than the block, the
    /// block is left empty, and the padding comes back with the aligned rest.
    /// Otherwise the block stays as it is.
    pub fn align(&mut self, align: Align) -> (res: Result<(Block, Block), ()>)
        requires
            old(self).wf(),
            align > 0,
        ensures
            res is Ok <==> old(self)@.padding(align as int) < old(self)@.len,
            match res {
                Ok((precursor, aligned)) => {
                    &&& precursor@ == old(self)@.head(old(self)@.padding(align as int))
                    &&& aligned@ == old(self)@.tail(old(self)@.padding(align as int))
                    &&& aligned@.start % (align as int) == 0
                    &&& precursor.wf()
                    &&& aligned.wf()
                    &&& final(self)@ == old(self)@.left_edge()
                },
                Err(_) => *final(self) == *old(self),
            },
    {
        let aligner: usize = (align - self.ptr.get() % align) % align;
        proof {
            lemma_padding_aligns(self@, align as int);
        }
        if aligner < self.size {
            let taken = self.pop();
            Ok(taken.split(aligner))
        } else {
            Err(())
        }
    }

    /// Mark this block free to the debugger.
    ///
    /// With no debugger attached the block passes through untouched.
    pub fn mark_free(self) -> (block: Block)
        ensures
            block == self,
    {
        self
    }

    /// Mark this block uninitialized to the debugger.
    ///
    /// With no debugger attached the block passes through untouched.
    pub fn mark_uninitialized(self) -> (block: Block)
        ensures
            block == self,
    {
        self
    }
}

impl From<Block> for Pointer {
    fn from(from: Block) -> (ptr: Pointer) {
        from.ptr
    }
}

impl FromSpecImpl<Block> for Pointer {
    open spec fn obeys_from_spec() -> bool {
        true
    }

    open spec fn from_spec(from: Block) -> Pointer {
        from.handle()
    }
}

/// The handle of a block holds the address at which the block starts.
pub proof fn lemma_handle_holds_address(block: Block)
    ensures
        block.handle()@ == block.addr(),
{
}

/// Blocks are equal where they start at the same address.
impl PartialEq for Block {
    fn eq(&self, other: &Block) -> (equal: bool) {
        self.ptr.get() == other.ptr.get()
    }
}

impl PartialEqSpecImpl for Block {
    open spec fn obeys_eq_spec() -> bool {
        true
    }

    open spec fn eq_spec(&self, other: &Block) -> bool {
        self.addr() == other.addr()
    }
}

impl Eq for Block {

}

/// Blocks are ordered by the address at which they start.
impl PartialOrd for Block {
    fn partial_cmp(&self, other: &Block) -> (order: Option<Ordering>) {
        self.ptr.partial_cmp(&other.ptr)
    }
}

impl PartialOrdSpecImpl for Block {
    open spec fn obeys_partial_cmp_spec() -> bool {
        true
    }

    open spec fn partial_cmp_spec(&self, other: &Block) -> Option<Ordering> {
        Some(order_of(self.addr(), other.addr()))
    }
}

} // verus!
