//! Storage for the nodes of the index.
//!
//! The arena is a table of slots. A node is known by the number of its slot,
//! which it keeps for as long as it lives; the slot of a node that has left
//! is handed out again. A slot whose block is empty holds no node.

use crate::bk::node::Node;
use crate::block::Block;
use vstd::prelude::*;

verus! {

/// A table of nodes.
pub struct Arena {
    /// The slots, each with a node or with the husk of one.
    slots: Vec<Node>,
    /// The slots that hold no node and wait to be handed out again.
    spare: Vec<usize>,
}

impl View for Arena {
    type V = Seq<Node>;

    closed spec fn view(&self) -> Seq<Node> {
        self.slots@
    }
}

impl Arena {
    /// The spare list names empty slots, each once.
    pub closed spec fn wf(&self) -> bool {
        &&& forall|i: int|
            0 <= i < self.spare@.len() ==> {
                &&& (#[trigger] self.spare@[i]) < self.slots@.len()
                &&& self.slots@[self.spare@[i] as int].block.len() == 0
            }
        &&& forall|i: int, j: int|
            0 <= i < j < self.spare@.len() ==> self.spare@[i] != self.spare@[j]
    }

    /// An arena without slots.
    pub fn new() -> (arena: Arena)
        ensures
            arena.wf(),
            arena@.len() == 0,
    {
        Arena { slots: Vec::new(), spare: Vec::new() }
    }

    /// Store `node`, and say in which slot it went.
    pub fn store(&mut self, node: Node) -> (id: usize)
        requires
            old(self).wf(),
            node.block.len() > 0,
        ensures
            final(self).wf(),
            id < final(self)@.len(),
            final(self)@[id as int] == node,
            id < old(self)@.len() ==> old(self)@[id as int].block.len() == 0 && final(self)@.len()
                == old(self)@.len(),
            id >= old(self)@.len() ==> id == old(self)@.len() && final(self)@.len() == old(
                self,
            )@.len() + 1,
            forall|j: int|
                0 <= j < old(self)@.len() && j != id ==> final(self)@[j] == old(self)@[j],
    {
        match self.spare.pop() {
            Some(id) => {
                self.slots[id] = node;
                id
            },
            None => {
                let id = self.slots.len();
                self.slots.push(node);
                id
            },
        }
    }

    /// Take the block out of slot `id`, which then holds no node.
    pub fn release(&mut self, id: usize) -> (block: Block)
        requires
            old(self).wf(),
            id < old(self)@.len(),
            old(self)@[id as int].block.len() > 0,
        ensures
            final(self).wf(),
            block == old(self)@[id as int].block,
            final(self)@.len() == old(self)@.len(),
            final(self)@[id as int].block@ == old(self)@[id as int].block@.left_edge(),
            final(self)@[id as int].shortcuts == old(self)@[id as int].shortcuts,
            forall|j: int|
                0 <= j < old(self)@.len() && j != id ==> final(self)@[j] == old(self)@[j],
    {
        let block = self.slots[id].block.pop();
        self.spare.push(id);
        block
    }

    /// The node in slot `id`, where the slot exists and holds one.
    pub fn peek(&self, id: usize) -> (node: Option<&Node>)
        ensures
            node is Some <==> id < self@.len() && self@[id as int].block.len() > 0,
            node matches Some(found) ==> *found == self@[id as int],
    {
        if id < self.slots.len() && !self.slots[id].block.is_empty() {
            Some(&self.slots[id])
        } else {
            None
        }
    }

    /// The node in slot `id`.
    pub fn node(&self, id: usize) -> (node: &Node)
        requires
            id < self@.len(),
        ensures
            *node == self@[id as int],
    {
        &self.slots[id]
    }

    /// Point the link at `level` of the node in slot `id` to `to`.
    pub fn set_link(&mut self, id: usize, level: usize, to: Option<usize>)
        requires
            old(self).wf(),
            id < old(self)@.len(),
            old(self)@[id as int].block.len() > 0,
            1 <= level <= old(self)@[id as int].height(),
        ensures
            final(self).wf(),
            final(self)@.len() == old(self)@.len(),
            final(self)@[id as int].block == old(self)@[id as int].block,
            final(self)@[id as int].shortcuts@ == old(self)@[id as int].shortcuts@.update(
                level - 1,
                to,
            ),
            forall|j: int|
                0 <= j < old(self)@.len() && j != id ==> final(self)@[j] == old(self)@[j],
    {
        self.slots[id].set_next(level, to);
    }

    /// Fold `block` into the block of the node in slot `id`, from the right.
    pub fn absorb(&mut self, id: usize, block: &mut Block) -> (res: Result<(), ()>)
        requires
            old(self).wf(),
            id < old(self)@.len(),
            old(self)@[id as int].block.len() > 0,
            old(self)@[id as int].block.wf(),
            old(block).wf(),
        ensures
            final(self).wf(),
            final(self)@.len() == old(self)@.len(),
            res is Ok <==> old(self)@[id as int].block@.mergeable(old(block)@),
            res is Ok ==> final(self)@[id as int].block@ == old(self)@[id as int].block@.merged(
                old(block)@,
            ),
            res is Ok ==> final(block)@ == old(block)@.left_edge(),
            res is Err ==> final(self)@[id as int] == old(self)@[id as int] && *final(block)
                == *old(block),
            final(self)@[id as int].block.wf(),
            final(block).wf(),
            final(self)@[id as int].shortcuts == old(self)@[id as int].shortcuts,
            forall|j: int|
                0 <= j < old(self)@.len() && j != id ==> final(self)@[j] == old(self)@[j],
    {
        self.slots[id].block.merge_right(block)
    }

    /// Put `block`, which ends where the block of the node in slot `id`
    /// starts, in front of that block.
    pub fn prepend(&mut self, id: usize, block: Block)
        requires
            old(self).wf(),
            id < old(self)@.len(),
            old(self)@[id as int].block.len() > 0,
            old(self)@[id as int].block.wf(),
            block.wf(),
            block@.left_to(old(self)@[id as int].block@),
        ensures
            final(self).wf(),
            final(self)@.len() == old(self)@.len(),
            final(self)@[id as int].block@ == block@.merged(old(self)@[id as int].block@),
            final(self)@[id as int].block.wf(),
            final(self)@[id as int].shortcuts == old(self)@[id as int].shortcuts,
            forall|j: int|
                0 <= j < old(self)@.len() && j != id ==> final(self)@[j] == old(self)@[j],
    {
        let mut whole = block;
        let _ = whole.merge_right(&mut self.slots[id].block);
        self.slots[id].block = whole;
    }
}

} // verus!
