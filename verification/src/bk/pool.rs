//! The pool of free blocks.

use crate::bk::arena::Arena;
use crate::bk::chain::absorb;
use crate::bk::chain::absorb_at;
use crate::bk::chain::ascending;
use crate::bk::chain::clear_of;
use crate::bk::chain::coalesced;
use crate::bk::chain::dropped;
use crate::bk::chain::first_fit;
use crate::bk::chain::lemma_absorb_base;
use crate::bk::chain::lemma_coalesced_ascends;
use crate::bk::chain::lemma_neighbours;
use crate::bk::chain::lemma_rank_bounds;
use crate::bk::chain::lemma_rank_parts;
use crate::bk::chain::lemma_skip_unfit_stops;
use crate::bk::chain::rank;
use crate::bk::chain::swapped;
use crate::bk::lattice::Lattice;
use crate::bk::node::Node;
use crate::bk::seek::Anchor;
use crate::bk::seek::Seek;
use crate::bk::shortcut::Cursor;
use crate::bk::shortcut::LEVELS;
use crate::bk::shortcut::generate_level;
use crate::bk::shortcut::level_of;
use crate::block::Block;
use crate::block::Size;
use crate::ptr::Align;
use crate::ptr::Pointer;
use crate::random::Generator;
use crate::random::scramble;
use crate::random::seeded;
use crate::span::Span;
use vstd::prelude::*;

verus! {

/// The free blocks of an address space, in address order, behind an index of
/// several levels.
pub struct Pool {
    /// The sentinel, from which every level starts.
    head: Node,
    /// The nodes.
    arena: Arena,
    /// The coin flips from which new nodes draw their level.
    source: Generator,
    /// For each level the slots that are linked there, in the order of the
    /// links.
    rungs: Ghost<Seq<Seq<usize>>>,
}

impl Pool {
    /// The picture of the index.
    pub closed spec fn lattice(&self) -> Lattice {
        Lattice { head: self.head, nodes: self.arena@, rungs: self.rungs@ }
    }

    /// The index is sound.
    pub closed spec fn wf(&self) -> bool {
        self.arena.wf() && self.lattice().whole()
    }

    /// The state of the pool's source of coin flips.
    pub closed spec fn coins(&self) -> u64 {
        self.source@
    }

    /// The spans of the blocks at `level`, in address order.
    pub open spec fn tier(&self, level: int) -> Seq<Span> {
        self.lattice().spans(level)
    }

    /// The spans of the free blocks, in address order.
    pub open spec fn view(&self) -> Seq<Span> {
        self.tier(1)
    }

    /// `seek` is what a search for `target` finds in this pool.
    pub open spec fn finds(&self, seek: Seek, target: int) -> bool {
        &&& seek.back_look@.len() == LEVELS
        &&& forall|level: int|
            1 <= level <= LEVELS ==> #[trigger] seek.at(level) == self.lattice().pred(
                level,
                target,
            )
        &&& seek.node == self.lattice().pred(1, target)
    }

    /// A pool without blocks, whose coin flips start from `seed`.
    pub fn new(seed: u64) -> (pool: Pool)
        ensures
            pool.wf(),
            pool.coins() == seeded(seed),
            forall|level: int|
                1 <= level <= LEVELS ==> #[trigger] pool.tier(level) == Seq::<Span>::empty(),
    {
        let head = Node::new(Block::empty(Pointer::new(0)), LEVELS);
        let pool = Pool {
            head,
            arena: Arena::new(),
            source: Generator::new(seed),
            rungs: Ghost(Seq::new(LEVELS as nat, |i: int| Seq::empty())),
        };
        proof {
            let lattice = pool.lattice();
            assert forall|level: int| 1 <= level <= LEVELS implies #[trigger] lattice.level_sound(
                level,
                0,
                1,
                LEVELS + 1,
            ) by {
                assert(lattice.rung(level) =~= Seq::empty());
            }
            assert forall|level: int| 1 <= level <= LEVELS implies #[trigger] pool.tier(level)
                == Seq::<Span>::empty() by {
                assert(lattice.rung(level) =~= Seq::empty());
                assert(pool.tier(level) =~= Seq::<Span>::empty());
            }
        }
        pool
    }

    /// The address at which the block in slot `id` starts.
    fn start_of(&self, id: usize) -> (start: usize)
        requires
            self.lattice().live(id),
        ensures
            start == self.lattice().span(id).start,
    {
        self.arena.node(id).block.address()
    }

    /// The forward link that leaves `from` at `level`.
    fn link(&self, from: Anchor, level: usize) -> (to: Option<usize>)
        requires
            1 <= level <= LEVELS,
            self.head.height() == LEVELS,
            match from {
                Anchor::Head => true,
                Anchor::Slot(id) => self.lattice().live(id) && level
                    <= self.lattice().nodes[id as int].height(),
            },
        ensures
            to == self.lattice().link(from, level as int),
    {
        match from {
            Anchor::Head => self.head.next(level),
            Anchor::Slot(id) => self.arena.node(id).next(level),
        }
    }

    /// A cursor that stands at the sentinel, to walk along `level`.
    pub fn shortcuts(&self, level: usize) -> (cursor: Cursor)
        requires
            1 <= level <= LEVELS,
        ensures
            cursor.at is Head,
            cursor.level == level,
    {
        Cursor { at: Anchor::Head, level }
    }

    /// Move `cursor` forward along its level for as long as the next node
    /// starts below `target`. It comes to rest at the last such node, or
    /// stays where it stands if there is none.
    pub fn advance(&self, cursor: &mut Cursor, target: usize)
        requires
            self.wf(),
            1 <= old(cursor).level <= LEVELS,
            self.lattice().stands(old(cursor).at, old(cursor).level as int, target as int),
        ensures
            final(cursor).level == old(cursor).level,
            final(cursor).at == self.lattice().pred(old(cursor).level as int, target as int),
    {
        let level = cursor.level;
        let ghost spans = self.lattice().spans(level as int);
        let ghost mut at: int = -1;
        proof {
            assert(self.lattice().level_sound(level as int, 0, 1, LEVELS + 1));
            lemma_rank_parts(spans, target as int);
            if let Anchor::Slot(id) = cursor.at {
                at = self.lattice().rung(level as int).index_of(id);
                self.lattice().lemma_index(level as int, at, 0, 1, LEVELS + 1);
            }
        }
        loop
            invariant
                self.wf(),
                1 <= level <= LEVELS,
                cursor.level == level,
                spans == self.lattice().spans(level as int),
                -1 <= at < rank(spans, target as int),
                cursor.at == self.lattice().anchor(level as int, at),
            ensures
                cursor.level == level,
                cursor.at == self.lattice().pred(level as int, target as int),
            decreases rank(spans, target as int) - at,
        {
            proof {
                lemma_rank_bounds(spans, target as int);
                self.lattice().lemma_walk(level as int, target as int, at);
                self.lattice().lemma_anchor_reaches(level as int, at);
            }
            match self.link(cursor.at, level) {
                Some(next) => {
                    if self.start_of(next) < target {
                        cursor.at = Anchor::Slot(next);
                        proof {
                            at = at + 1;
                        }
                    } else {
                        break ;
                    }
                },
                None => {
                    break ;
                },
            }
        }
    }

    /// Search the pool for the place of `block`.
    ///
    /// The walk starts at the sentinel on the top level. On each level it
    /// goes forward for as long as the next node starts below `block`, and
    /// then steps down where it stands.
    pub fn search(&self, block: &Block) -> (seek: Seek)
        requires
            self.wf(),
        ensures
            self.finds(seek, block@.start),
    {
        let target = block.address();
        let mut back_look: Vec<Anchor> = Vec::new();
        while back_look.len() < LEVELS
            invariant
                back_look@.len() <= LEVELS,
            decreases LEVELS - back_look@.len(),
        {
            back_look.push(Anchor::Head);
        }
        // Start at the highest (least dense) level.
        let mut cursor = self.shortcuts(LEVELS);
        loop
            invariant_except_break
                1 <= cursor.level <= LEVELS,
                self.lattice().stands(cursor.at, cursor.level as int, target as int),
            invariant
                self.wf(),
                back_look@.len() == LEVELS,
                forall|above: int|
                    cursor.level < above <= LEVELS ==> #[trigger] back_look@[above - 1]
                        == self.lattice().pred(above, target as int),
            ensures
                back_look@.len() == LEVELS,
                forall|above: int|
                    1 <= above <= LEVELS ==> #[trigger] back_look@[above - 1]
                        == self.lattice().pred(above, target as int),
                cursor.unwrap_node() == self.lattice().pred(1, target as int),
            decreases cursor.level,
        {
            // Go forward until we overshoot.
            self.advance(&mut cursor, target);
            // Decrement the level.
            let level = cursor.decrement_level();
            // Update the back look respectively.
            back_look[level - 1] = cursor.at;
            // End the loop at the last level.
            if level == 1 {
                break ;
            }
            proof {
                self.lattice().lemma_descend(level as int, level - 1, target as int);
            }
        }
        Seek { node: cursor.at, back_look }
    }

    /// Point the link that leaves `from` at `level` to `to`.
    fn set_link(&mut self, from: Anchor, level: usize, to: Option<usize>)
        requires
            old(self).arena.wf(),
            1 <= level,
            old(self).lattice().reaches(from, level as int),
        ensures
            final(self).arena.wf(),
            old(self).lattice().relinked(final(self).lattice(), from, level as int, to),
            final(self).lattice().rungs == old(self).lattice().rungs,
            final(self).coins() == old(self).coins(),
    {
        match from {
            Anchor::Head => self.head.set_next(level, to),
            Anchor::Slot(id) => self.arena.set_link(id, level, to),
        }
    }

    /// Take the node in slot `x` out of every level, by the links that
    /// `seek` has found to lead to it.
    fn unlink(&mut self, x: usize, seek: &Seek, target: usize)
        requires
            old(self).wf(),
            old(self).lattice().live(x),
            old(self).lattice().tight(x, target as int),
            old(self).finds(*seek, target as int),
        ensures
            final(self).arena.wf(),
            final(self).lattice().live(x),
            final(self).lattice().sound(
                x,
                final(self).lattice().nodes[x as int].height() + 1,
                LEVELS + 1,
            ),
            final(self).lattice().nodes.len() == old(self).lattice().nodes.len(),
            forall|id: usize|
                id < old(self).lattice().nodes.len() ==> (#[trigger] final(self).lattice().nodes[id as int]).block
                    == old(self).lattice().nodes[id as int].block,
            old(self).lattice().rung(1).contains(x),
            final(self)@ == old(self)@.remove(old(self).lattice().rung(1).index_of(x)),
            final(self).lattice().rung(1) == old(self).lattice().rung(1).remove(
                old(self).lattice().rung(1).index_of(x),
            ),
            final(self).coins() == old(self).coins(),
            forall|level: int|
                1 <= level <= LEVELS ==> #[trigger] final(self).lattice().spans(level) == dropped(
                    old(self).tier(level),
                    old(self).lattice().span(x),
                ),
    {
        let ghost coins = self.coins();
        let ghost start = self.lattice();
        proof {
            start.lemma_rebase(0, 1, LEVELS + 1, x, 1, LEVELS + 1);
            assert(start.level_sound(1, 0, 1, LEVELS + 1));
            assert(start.due(1, x, 0, 1, LEVELS + 1));
        }
        let height = self.arena.node(x).level();
        let mut level: usize = 1;
        while level <= height
            invariant
                self.arena.wf(),
                1 <= level <= height + 1,
                height == self.lattice().nodes[x as int].height(),
                height <= LEVELS,
                self.lattice().live(x),
                self.lattice().sound(x, level as int, LEVELS + 1),
                self.lattice().tight(x, target as int),
                self.lattice().nodes.len() == start.nodes.len(),
                forall|id: usize|
                    id < start.nodes.len() ==> (#[trigger] self.lattice().nodes[id as int]).block
                        == start.nodes[id as int].block,
                seek.back_look@.len() == LEVELS,
                forall|above: int|
                    level <= above <= LEVELS ==> #[trigger] seek.at(above) == self.lattice().pred(
                        above,
                        target as int,
                    ),
                start.rung(1).contains(x),
                level == 1 ==> self@ == start.spans(1) && self.lattice().rung(1) == start.rung(1),
                level > 1 ==> self@ == start.spans(1).remove(start.rung(1).index_of(x)),
                level > 1 ==> self.lattice().rung(1) == start.rung(1).remove(
                    start.rung(1).index_of(x),
                ),
                self.coins() == coins,
                start.whole(),
                start.live(x),
                height == start.nodes[x as int].height(),
                forall|done: int|
                    1 <= done < level ==> #[trigger] self.lattice().spans(done) == dropped(
                        start.spans(done),
                        start.span(x),
                    ),
                forall|wait: int|
                    level <= wait <= LEVELS ==> #[trigger] self.lattice().spans(wait)
                        == start.spans(wait),
                forall|wait: int|
                    level <= wait <= LEVELS ==> #[trigger] self.lattice().rung(wait) == start.rung(
                        wait,
                    ),
            decreases height + 1 - level,
        {
            let ghost before = self.lattice();
            let from = seek.predecessor(level);
            proof {
                assert(seek.at(level as int) == before.pred(level as int, target as int));
                assert(before.level_sound(level as int, x, level as int, LEVELS + 1));
                before.lemma_pred(level as int, target as int, x, level as int, LEVELS + 1);
            }
            let to = self.link(Anchor::Slot(x), level);
            self.set_link(from, level, to);
            proof {
                self.rungs@ = self.rungs@.update(
                    level - 1,
                    before.rung(level as int).remove(before.rung(level as int).index_of(x)),
                );
                before.lemma_unlink(self.lattice(), x, level as int, target as int);
                start.lemma_holds(level as int, x);
                assert(before.spans(level as int) == start.spans(level as int));
                assert(before.rung(level as int) == start.rung(level as int));
                assert forall|done: int| 1 <= done < level + 1 implies #[trigger] self.lattice().spans(
                    done,
                ) == dropped(start.spans(done), start.span(x)) by {
                    if done < level {
                        assert(before.spans(done) == dropped(start.spans(done), start.span(x)));
                    }
                }
                assert forall|wait: int| level + 1 <= wait <= LEVELS implies #[trigger] self.lattice().spans(
                    wait,
                ) == start.spans(wait) by {
                    assert(before.spans(wait) == start.spans(wait));
                }
                assert forall|wait: int| level + 1 <= wait <= LEVELS implies #[trigger] self.lattice().rung(
                    wait,
                ) == start.rung(wait) by {
                    assert(before.rung(wait) == start.rung(wait));
                    assert(self.lattice().spans(wait) == before.spans(wait));
                }
                assert forall|above: int| level + 1 <= above <= LEVELS implies #[trigger] seek.at(
                    above,
                ) == self.lattice().pred(above, target as int) by {
                    assert(self.lattice().spans(above) == before.spans(above));
                    assert(seek.at(above) == before.pred(above, target as int));
                }
                assert(self.lattice().tight(x, target as int)) by {
                    assert forall|id: usize| #[trigger]
                        self.lattice().live(id) && self.lattice().span(id).start
                            < self.lattice().span(x).start implies self.lattice().span(id).start
                        < target by {
                        assert(before.live(id));
                    }
                }
                if level > 1 {
                    assert(self.lattice().spans(1) == before.spans(1));
                }
            }
            level = level + 1;
        }
        proof {
            assert forall|level: int| 1 <= level <= LEVELS implies #[trigger] self.lattice().spans(
                level,
            ) == dropped(start.spans(level), start.span(x)) by {
                start.lemma_holds(level, x);
                if level > height {
                    assert(self.lattice().spans(level) == start.spans(level));
                } else {
                    assert(self.lattice().spans(level) == dropped(
                        start.spans(level),
                        start.span(x),
                    ));
                }
            }
        }
    }

    /// Set the node in slot `x`, which is linked nowhere yet, into each
    /// level that it reaches, behind the predecessors that `seek` has found.
    fn splice(&mut self, x: usize, seek: &Seek)
        requires
            old(self).arena.wf(),
            old(self).lattice().live(x),
            old(self).lattice().sound(x, 1, 1),
            old(self).lattice().roomy(x),
            old(self).finds(*seek, old(self).lattice().span(x).start),
        ensures
            final(self).wf(),
            final(self)@ == old(self)@.insert(
                rank(old(self)@, old(self).lattice().span(x).start),
                old(self).lattice().span(x),
            ),
            final(self).coins() == old(self).coins(),
            forall|level: int|
                1 <= level <= LEVELS ==> #[trigger] final(self).lattice().spans(level) == (if level
                    <= old(self).lattice().nodes[x as int].height() {
                    old(self).tier(level).insert(
                        rank(old(self).tier(level), old(self).lattice().span(x).start),
                        old(self).lattice().span(x),
                    )
                } else {
                    old(self).tier(level)
                }),
    {
        let ghost coins = self.coins();
        let ghost start = self.lattice();
        let ghost target = start.span(x).start;
        let height = self.arena.node(x).level();
        let mut level: usize = 1;
        while level <= height
            invariant
                self.arena.wf(),
                1 <= level <= height + 1,
                height == self.lattice().nodes[x as int].height(),
                height <= LEVELS,
                self.lattice().live(x),
                self.lattice().sound(x, 1, level as int),
                self.lattice().roomy(x),
                self.lattice().span(x) == start.span(x),
                target == start.span(x).start,
                seek.back_look@.len() == LEVELS,
                forall|above: int|
                    level <= above <= LEVELS ==> #[trigger] seek.at(above) == self.lattice().pred(
                        above,
                        target,
                    ),
                level == 1 ==> self@ == start.spans(1),
                level > 1 ==> self@ == start.spans(1).insert(
                    rank(start.spans(1), target),
                    start.span(x),
                ),
                self.coins() == coins,
                height == start.nodes[x as int].height(),
                forall|done: int|
                    1 <= done < level ==> #[trigger] self.lattice().spans(done) == start.spans(
                        done,
                    ).insert(rank(start.spans(done), target), start.span(x)),
                forall|wait: int|
                    level <= wait <= LEVELS ==> #[trigger] self.lattice().spans(wait)
                        == start.spans(wait),
            decreases height + 1 - level,
        {
            let ghost before = self.lattice();
            let from = seek.predecessor(level);
            proof {
                assert(seek.at(level as int) == before.pred(level as int, target));
                assert(before.level_sound(level as int, x, 1, level as int));
                before.lemma_pred(level as int, target, x, 1, level as int);
            }
            let to = self.link(from, level);
            self.set_link(Anchor::Slot(x), level, to);
            let ghost mid = self.lattice();
            self.set_link(from, level, Some(x));
            proof {
                self.rungs@ = self.rungs@.update(
                    level - 1,
                    before.rung(level as int).insert(rank(before.spans(level as int), target), x),
                );
                before.lemma_splice(mid, self.lattice(), x, level as int);
                assert(before.spans(level as int) == start.spans(level as int));
                assert forall|done: int| 1 <= done < level + 1 implies #[trigger] self.lattice().spans(
                    done,
                ) == start.spans(done).insert(rank(start.spans(done), target), start.span(x)) by {
                    if done < level {
                        assert(before.spans(done) == start.spans(done).insert(
                            rank(start.spans(done), target),
                            start.span(x),
                        ));
                    }
                }
                assert forall|wait: int| level + 1 <= wait <= LEVELS implies #[trigger] self.lattice().spans(
                    wait,
                ) == start.spans(wait) by {
                    assert(before.spans(wait) == start.spans(wait));
                }
                assert forall|above: int| level + 1 <= above <= LEVELS implies #[trigger] seek.at(
                    above,
                ) == self.lattice().pred(above, target) by {
                    assert(self.lattice().spans(above) == before.spans(above));
                    assert(seek.at(above) == before.pred(above, target));
                }
                assert(self.lattice().roomy(x)) by {
                    assert forall|id: usize| #[trigger]
                        self.lattice().live(id) && id != x implies self.lattice().span(id).end()
                        < self.lattice().span(x).start || self.lattice().span(x).end()
                        < self.lattice().span(id).start by {
                        assert(before.live(id));
                    }
                }
                if level > 1 {
                    assert(self.lattice().spans(1) == before.spans(1));
                }
            }
            level = level + 1;
        }
        proof {
            self.lattice().lemma_rebase(x, 1, height + 1, 0, 1, LEVELS + 1);
            assert forall|level: int| 1 <= level <= LEVELS implies #[trigger] self.lattice().spans(
                level,
            ) == (if level <= height {
                start.spans(level).insert(rank(start.spans(level), target), start.span(x))
            } else {
                start.spans(level)
            }) by {
                if level > height {
                    assert(self.lattice().spans(level) == start.spans(level));
                } else {
                    assert(self.lattice().spans(level) == start.spans(level).insert(
                        rank(start.spans(level), target),
                        start.span(x),
                    ));
                }
            }
        }
    }

    /// Widen the block of the node in slot `id` by `block`, which lies at
    /// one of its ends and keeps a gap to the neighbour on that side.
    fn widen(&mut self, id: usize, block: Block)
        requires
            old(self).wf(),
            block.wf(),
            block@.len > 0,
            old(self).lattice().live(id),
            old(self).lattice().span(id).left_to(block@) || block@.left_to(
                old(self).lattice().span(id),
            ),
            forall|i: int|
                0 <= i < old(self)@.len() && old(self)@[i] != old(self).lattice().span(id)
                    ==> (#[trigger] old(self)@[i]).end() < block@.start || block@.end() < old(
                    self,
                )@[i].start,
        ensures
            final(self).wf(),
            final(self).coins() == old(self).coins(),
            forall|level: int|
                1 <= level <= LEVELS ==> #[trigger] final(self).lattice().spans(level) == swapped(
                    old(self).tier(level),
                    old(self).lattice().span(id),
                    if old(self).lattice().span(id).left_to(block@) {
                        old(self).lattice().span(id).merged(block@)
                    } else {
                        block@.merged(old(self).lattice().span(id))
                    },
                ),
    {
        let ghost pre = self.lattice();
        let ghost chain = self@;
        let ghost span = block@;
        let mut block = block;
        proof {
            assert(pre.nodes[id as int].block.wf());
        }
        if self.arena.node(id).block.left_to(&block) {
            let _ = self.arena.absorb(id, &mut block);
        } else {
            self.arena.prepend(id, block);
        }
        proof {
            assert(pre.level_sound(1, 0, 1, LEVELS + 1));
            assert(pre.due(1, id, 0, 1, LEVELS + 1));
            let at = pre.rung(1).index_of(id);
            pre.lemma_index(1, at, 0, 1, LEVELS + 1);
            if at > 0 {
                assert(pre.spans(1)[at - 1].end() < pre.spans(1)[at].start);
                assert(chain[at - 1].end() < span.start || span.end() < chain[at - 1].start);
            }
            if at + 1 < pre.rung(1).len() {
                assert(pre.spans(1)[at].end() < pre.spans(1)[at + 1].start);
                assert(chain[at + 1].end() < span.start || span.end() < chain[at + 1].start);
            }
            pre.lemma_reshape(self.lattice(), id);
        }
    }

    /// Fold `block` and the block of the node in slot `behind` into the
    /// block of the node in slot `before`: `block` fills the gap between
    /// the two. The node in slot `behind` leaves the index.
    fn fuse(&mut self, before: usize, behind: usize, block: Block, seek: &Seek)
        requires
            old(self).wf(),
            block.wf(),
            block@.len > 0,
            clear_of(old(self)@, block@),
            old(self).finds(*seek, block@.start),
            old(self).lattice().live(before),
            old(self).lattice().live(behind),
            old(self).lattice().span(before).left_to(block@),
            block@.left_to(old(self).lattice().span(behind)),
        ensures
            final(self).wf(),
            final(self).coins() == old(self).coins(),
            forall|level: int|
                1 <= level <= LEVELS ==> #[trigger] final(self).lattice().spans(level) == swapped(
                    dropped(old(self).tier(level), old(self).lattice().span(behind)),
                    old(self).lattice().span(before),
                    old(self).lattice().span(before).merged(block@).merged(
                        old(self).lattice().span(behind),
                    ),
                ),
    {
        let ghost pre = self.lattice();
        let ghost span = block@;
        let ghost whole = LEVELS + 1;
        let mut block = block;
        let target = block.address();
        proof {
            self.lemma_coalesced();
            assert(pre.level_sound(1, 0, 1, whole));
            assert(pre.due(1, before, 0, 1, whole));
            assert(pre.due(1, behind, 0, 1, whole));
            pre.lemma_index(1, pre.rung(1).index_of(before), 0, 1, whole);
            pre.lemma_index(1, pre.rung(1).index_of(behind), 0, 1, whole);
            // Nothing starts between the two, so nothing starts between
            // the block and the node behind it.
            assert forall|id: usize| #[trigger]
                pre.live(id) && pre.span(id).start < pre.span(behind).start implies pre.span(
                id,
            ).start < span.start by {
                assert(pre.due(1, id, 0, 1, whole));
                let i = pre.rung(1).index_of(id);
                pre.lemma_index(1, i, 0, 1, whole);
                let j = pre.rung(1).index_of(before);
                if i > j {
                    assert(pre.spans(1)[j].end() < pre.spans(1)[i].start);
                    assert(pre.spans(1)[i].disjoint(span));
                }
            }
            assert(before != behind);
        }
        self.unlink(behind, seek, target);
        let ghost unlinked = self.lattice();
        let mut taken = self.arena.release(behind);
        let ghost vacated = self.lattice();
        proof {
            unlinked.lemma_vacate(vacated, behind);
            assert(unlinked.nodes[before as int].block == pre.nodes[before as int].block);
            assert(vacated.nodes[before as int] == unlinked.nodes[before as int]);
            assert(vacated.live(before));
            assert(vacated.nodes[before as int].block.wf());
        }
        let _ = self.arena.absorb(before, &mut block);
        let _ = self.arena.absorb(before, &mut taken);
        proof {
            let fused = self.lattice();
            let gone = pre.rung(1).index_of(behind);
            pre.spans(1).remove_ensures(gone);
            assert(vacated.spans(1) == pre.spans(1).remove(gone));
            assert(vacated.level_sound(1, 0, 1, whole));
            assert(vacated.due(1, before, 0, 1, whole));
            let at = vacated.rung(1).index_of(before);
            vacated.lemma_index(1, at, 0, 1, whole);
            assert(vacated.span(before) == pre.span(before));
            assert(fused.span(before) == pre.span(before).merged(span).merged(pre.span(behind)));
            if at > 0 {
                assert(vacated.spans(1)[at - 1].end() < vacated.spans(1)[at].start);
            }
            if at + 1 < vacated.rung(1).len() {
                // What follows the span that grew stood behind the node that left.
                let next = vacated.spans(1)[at + 1];
                assert(next.start > pre.span(before).start);
                if at + 1 < gone {
                    assert(next == pre.spans(1)[at + 1]);
                    assert(pre.spans(1)[at + 1].start < pre.spans(1)[gone].start);
                    let i = pre.rung(1).index_of(before);
                    assert(pre.spans(1)[i].end() < pre.spans(1)[at + 1].start);
                } else {
                    assert(next == pre.spans(1)[at + 2]);
                    assert(pre.spans(1)[gone].end() < pre.spans(1)[at + 2].start);
                }
            }
            vacated.lemma_reshape(fused, before);
            assert forall|level: int| 1 <= level <= LEVELS implies #[trigger] fused.spans(level)
                == swapped(
                dropped(pre.spans(level), pre.span(behind)),
                pre.span(before),
                pre.span(before).merged(span).merged(pre.span(behind)),
            ) by {
                assert(unlinked.spans(level) == dropped(pre.spans(level), pre.span(behind)));
                assert(vacated.spans(level) == unlinked.spans(level));
                assert(fused.spans(level) == swapped(
                    vacated.spans(level),
                    vacated.span(before),
                    fused.span(before),
                ));
            }
        }
    }

    /// Give `block`, which keeps a gap to every free block, a node of its
    /// own that reaches `level`.
    fn plant(&mut self, block: Block, level: usize, seek: &Seek)
        requires
            old(self).wf(),
            block.wf(),
            block@.len > 0,
            1 <= level <= LEVELS,
            old(self).finds(*seek, block@.start),
            forall|i: int|
                0 <= i < old(self)@.len() ==> (#[trigger] old(self)@[i]).end() < block@.start
                    || block@.end() < old(self)@[i].start,
        ensures
            final(self).wf(),
            final(self).coins() == old(self).coins(),
            forall|above: int|
                1 <= above <= LEVELS ==> #[trigger] final(self).lattice().spans(above) == (
                if above <= level {
                    old(self).tier(above).insert(rank(old(self).tier(above), block@.start), block@)
                } else {
                    old(self).tier(above)
                }),
    {
        let ghost pre = self.lattice();
        let ghost chain = self@;
        let ghost span = block@;
        let id = self.arena.store(Node::new(block, level));
        let ghost stored = self.lattice();
        proof {
            pre.lemma_store(stored, id);
            assert forall|other: usize| #[trigger] stored.live(other) && other != id implies stored.span(
                other,
            ).end() < stored.span(id).start || stored.span(id).end() < stored.span(other).start by {
                assert(pre.live(other));
                assert(pre.level_sound(1, 0, 1, LEVELS + 1));
                assert(pre.due(1, other, 0, 1, LEVELS + 1));
                let i = pre.rung(1).index_of(other);
                pre.lemma_index(1, i, 0, 1, LEVELS + 1);
                assert(chain[i] == pre.span(other));
            }
            assert forall|above: int| 1 <= above <= LEVELS implies #[trigger] seek.at(above)
                == stored.pred(above, span.start) by {
                assert(stored.spans(above) == pre.spans(above));
                assert(seek.at(above) == pre.pred(above, span.start));
            }
        }
        self.splice(id, seek);
        proof {
            let planted = self.lattice();
            assert forall|above: int| 1 <= above <= LEVELS implies #[trigger] planted.spans(above)
                == (if above <= level {
                pre.spans(above).insert(rank(pre.spans(above), span.start), span)
            } else {
                pre.spans(above)
            }) by {
                assert(stored.spans(above) == pre.spans(above));
            }
        }
    }

    /// Give the pool a free block, with the coin flips from which a new node
    /// draws its level.
    ///
    /// The block is folded into the free block that ends where it starts,
    /// into the one that starts where it ends, or into both, which then
    /// become one. Where it touches neither, it gets a node of its own. A
    /// block that holds nothing is let go.
    pub fn insert_with(&mut self, block: Block, flips: u64)
        requires
            old(self).wf(),
            block.wf(),
            clear_of(old(self)@, block@),
        ensures
            final(self).wf(),
            coalesced(final(self)@),
            final(self)@ == absorb(old(self)@, block@),
            forall|level: int|
                1 <= level <= LEVELS ==> #[trigger] final(self).tier(level) == absorb_at(
                    old(self).tier(level),
                    old(self)@,
                    block@,
                    level <= level_of(flips),
                ),
            final(self).coins() == old(self).coins(),
    {
        let ghost pre = self.lattice();
        let ghost span = block@;
        let ghost at = rank(pre.spans(1), span.start);
        proof {
            self.lemma_coalesced();
            lemma_coalesced_ascends(pre.spans(1));
            lemma_absorb_base(pre.spans(1), span);
        }
        if block.is_empty() {
            return ;
        }
        let seek = self.search(&block);
        proof {
            assert(pre.level_sound(1, 0, 1, LEVELS + 1));
            pre.lemma_pred(1, span.start, 0, 1, LEVELS + 1);
            lemma_neighbours(pre.spans(1), span);
            if at > 0 {
                pre.lemma_index(1, at - 1, 0, 1, LEVELS + 1);
            }
            if at < pre.rung(1).len() {
                pre.lemma_index(1, at, 0, 1, LEVELS + 1);
            }
        }
        let next = self.link(seek.node, 1);
        let left = match seek.node {
            Anchor::Slot(before) => self.arena.node(before).block.left_to(&block),
            Anchor::Head => false,
        };
        let right = match next {
            Some(behind) => block.left_to(&self.arena.node(behind).block),
            None => false,
        };
        match (seek.node, next) {
            (Anchor::Slot(before), Some(behind)) if left && right => {
                self.fuse(before, behind, block, &seek);
            },
            (Anchor::Slot(before), _) if left => {
                self.widen(before, block);
            },
            (_, Some(behind)) if right => {
                self.widen(behind, block);
            },
            _ => {
                self.plant(block, generate_level(flips), &seek);
            },
        }
        proof {
            assert forall|level: int| 1 <= level <= LEVELS implies #[trigger] self.tier(level)
                == absorb_at(pre.spans(level), pre.spans(1), span, level <= level_of(flips)) by {
                assert(self.tier(level) == self.lattice().spans(level));
            }
            assert(self.tier(1) == absorb_at(pre.spans(1), pre.spans(1), span, true));
            self.lemma_coalesced();
        }
    }

    /// Give the pool a free block. A new node draws its level from the
    /// pool's own coin flips.
    pub fn insert(&mut self, block: Block)
        requires
            old(self).wf(),
            block.wf(),
            clear_of(old(self)@, block@),
        ensures
            final(self).wf(),
            coalesced(final(self)@),
            final(self)@ == absorb(old(self)@, block@),
            forall|level: int|
                1 <= level <= LEVELS ==> #[trigger] final(self).tier(level) == absorb_at(
                    old(self).tier(level),
                    old(self)@,
                    block@,
                    level <= level_of(scramble(old(self).coins())),
                ),
            final(self).coins() == scramble(old(self).coins()),
    {
        let flips = self.source.get();
        self.insert_with(block, flips);
    }

    /// Does `block`, once padded to `align`, still hold `min_size` bytes
    /// and at least one?
    fn fits(block: &Block, min_size: Size, align: Align) -> (fit: bool)
        requires
            block.wf(),
            align > 0,
        ensures
            fit == block@.fits(min_size as int, align as int),
    {
        let padding: usize = (align - block.address() % align) % align;
        padding < block.size() && min_size <= block.size() - padding
    }

    /// Take out the first free block, in address order, that still holds
    /// `min_size` bytes once it is padded to `align`.
    ///
    /// The block comes back whole: padding and surplus are for the caller to
    /// split off and give back.
    pub fn remove(&mut self, min_size: Size, align: Align) -> (res: Option<Block>)
        requires
            old(self).wf(),
            align > 0,
        ensures
            final(self).wf(),
            coalesced(final(self)@),
            match res {
                Some(block) => {
                    let at = first_fit(old(self)@, min_size as int, align as int);
                    &&& at < old(self)@.len()
                    &&& block@ == old(self)@[at]
                    &&& block.wf()
                    &&& final(self)@ == old(self)@.remove(at)
                    &&& forall|level: int|
                        1 <= level <= LEVELS ==> #[trigger] final(self).tier(level) == dropped(
                            old(self).tier(level),
                            block@,
                        )
                },
                None => {
                    &&& first_fit(old(self)@, min_size as int, align as int) == old(self)@.len()
                    &&& final(self).lattice() == old(self).lattice()
                },
            },
            final(self).coins() == old(self).coins(),
    {
        let ghost pre = self.lattice();
        let ghost whole = LEVELS + 1;
        let ghost mut at: int = 0;
        proof {
            self.lemma_coalesced();
            assert(pre.level_sound(1, 0, 1, whole));
            assert(pre.link(pre.anchor(1, -1), 1) == pre.follower(1, -1));
        }
        let mut next = self.link(Anchor::Head, 1);
        let mut found: Option<usize> = None;
        loop
            invariant_except_break
                found is None,
            invariant
                self.wf(),
                self.lattice() == pre,
                align > 0,
                0 <= at <= pre.rung(1).len(),
                next == pre.follower(1, at - 1),
                forall|i: int| 0 <= i < at ==> !pre.spans(1)[i].fits(min_size as int, align as int),
            ensures
                self.wf(),
                self.lattice() == pre,
                0 <= at <= pre.rung(1).len(),
                at == first_fit(pre.spans(1), min_size as int, align as int),
                match found {
                    Some(id) => at < pre.rung(1).len() && pre.rung(1)[at] == id,
                    None => at == pre.rung(1).len(),
                },
            decreases pre.rung(1).len() - at,
        {
            match next {
                None => {
                    proof {
                        lemma_skip_unfit_stops(
                            pre.spans(1),
                            min_size as int,
                            align as int,
                            0,
                            at,
                        );
                    }
                    break ;
                },
                Some(id) => {
                    proof {
                        assert(pre.level_sound(1, 0, 1, LEVELS + 1));
                        assert(pre.due(1, pre.rung(1)[at], 0, 1, LEVELS + 1));
                        assert(pre.link(pre.anchor(1, at), 1) == pre.follower(1, at));
                        assert(pre.nodes[id as int].block.wf());
                    }
                    if Self::fits(&self.arena.node(id).block, min_size, align) {
                        found = Some(id);
                        proof {
                            lemma_skip_unfit_stops(
                                pre.spans(1),
                                min_size as int,
                                align as int,
                                0,
                                at,
                            );
                        }
                        break ;
                    }
                    next = self.link(Anchor::Slot(id), 1);
                    proof {
                        at = at + 1;
                    }
                },
            }
        }
        match found {
            None => None,
            Some(id) => {
                proof {
                    assert(pre.level_sound(1, 0, 1, whole));
                    assert(pre.due(1, pre.rung(1)[at], 0, 1, whole));
                    pre.lemma_index(1, at, 0, 1, whole);
                }
                let target = self.start_of(id);
                let seek = self.search(&self.arena.node(id).block);
                self.unlink(id, &seek, target);
                let ghost unlinked = self.lattice();
                let block = self.arena.release(id);
                proof {
                    let vacated = self.lattice();
                    unlinked.lemma_vacate(vacated, id);
                    self.lemma_coalesced();
                    assert forall|level: int| 1 <= level <= LEVELS implies #[trigger] self.tier(
                        level,
                    ) == dropped(pre.spans(level), block@) by {
                        assert(unlinked.spans(level) == dropped(pre.spans(level), pre.span(id)));
                        assert(vacated.spans(level) == unlinked.spans(level));
                    }
                }
                Some(block)
            },
        }
    }

    /// The block that `anchor` names, where it names one.
    pub fn block_at(&self, anchor: Anchor) -> (found: Option<&Block>)
        ensures
            match anchor {
                Anchor::Head => found is None,
                Anchor::Slot(id) => if self.lattice().live(id) {
                    found matches Some(block) && *block == self.lattice().nodes[id as int].block
                } else {
                    found is None
                },
            },
    {
        match anchor {
            Anchor::Head => None,
            Anchor::Slot(id) => match self.arena.peek(id) {
                Some(node) => Some(&node.block),
                None => None,
            },
        }
    }

    /// Does the pool hold no byte of `block`? Only such a block can be
    /// given to it.
    pub fn admits(&self, block: &Block) -> (clear: bool)
        requires
            self.wf(),
            block.wf(),
        ensures
            clear == clear_of(self@, block@),
    {
        let ghost pre = self.lattice();
        let ghost span = block@;
        let ghost at = rank(pre.spans(1), span.start);
        proof {
            self.lemma_coalesced();
            assert(pre.level_sound(1, 0, 1, LEVELS + 1));
            pre.lemma_pred(1, span.start, 0, 1, LEVELS + 1);
            lemma_coalesced_ascends(pre.spans(1));
            lemma_rank_parts(pre.spans(1), span.start);
            if at > 0 {
                pre.lemma_index(1, at - 1, 0, 1, LEVELS + 1);
            }
            if at < pre.rung(1).len() {
                pre.lemma_index(1, at, 0, 1, LEVELS + 1);
            }
        }
        if block.is_empty() {
            return true;
        }
        let seek = self.search(block);
        let end = block.address() + block.size();
        let before = match seek.node {
            Anchor::Head => true,
            Anchor::Slot(id) => {
                let held = &self.arena.node(id).block;
                held.address() + held.size() <= block.address()
            },
        };
        let behind = match self.link(seek.node, 1) {
            None => true,
            Some(id) => end <= self.arena.node(id).block.address(),
        };
        proof {
            let spans = pre.spans(1);
            if before && behind {
                assert forall|i: int| 0 <= i < spans.len() implies (#[trigger] spans[i]).disjoint(
                    span,
                ) by {
                    if i < at - 1 {
                        assert(spans[i].end() < spans[at - 1].start);
                        assert(spans[at - 1].valid());
                    } else if i > at {
                        assert(spans[at].end() < spans[i].start);
                        assert(spans[at].valid());
                    }
                }
            } else if !before {
                assert(!spans[at - 1].disjoint(span));
            } else {
                assert(!spans[at].disjoint(span));
            }
        }
        before && behind
    }

    /// The address and the size of each free block, in address order.
    pub fn blocks(&self) -> (list: Vec<(usize, Size)>)
        requires
            self.wf(),
        ensures
            list@.len() == self@.len(),
            forall|i: int|
                0 <= i < list@.len() ==> (#[trigger] list@[i]).0 == self@[i].start && list@[i].1
                    == self@[i].len,
    {
        self.blocks_at(1)
    }

    /// The address and the size of each free block whose node reaches
    /// `level`, in address order.
    pub fn blocks_at(&self, level: usize) -> (list: Vec<(usize, Size)>)
        requires
            self.wf(),
            1 <= level <= LEVELS,
        ensures
            list@.len() == self.tier(level as int).len(),
            forall|i: int|
                0 <= i < list@.len() ==> (#[trigger] list@[i]).0 == self.tier(
                    level as int,
                )[i].start && list@[i].1 == self.tier(level as int)[i].len,
    {
        let ghost pre = self.lattice();
        let ghost mut at: int = 0;
        proof {
            assert(pre.level_sound(level as int, 0, 1, LEVELS + 1));
            assert(pre.link(pre.anchor(level as int, -1), level as int) == pre.follower(
                level as int,
                -1,
            ));
        }
        let mut list: Vec<(usize, Size)> = Vec::new();
        let mut next = self.link(Anchor::Head, level);
        loop
            invariant
                self.wf(),
                self.lattice() == pre,
                1 <= level <= LEVELS,
                0 <= at <= pre.rung(level as int).len(),
                next == pre.follower(level as int, at - 1),
                list@.len() == at,
                forall|i: int|
                    0 <= i < at ==> (#[trigger] list@[i]).0 == pre.spans(level as int)[i].start
                        && list@[i].1 == pre.spans(level as int)[i].len,
            ensures
                at == pre.rung(level as int).len(),
                list@.len() == at,
                forall|i: int|
                    0 <= i < at ==> (#[trigger] list@[i]).0 == pre.spans(level as int)[i].start
                        && list@[i].1 == pre.spans(level as int)[i].len,
            decreases pre.rung(level as int).len() - at,
        {
            match next {
                None => {
                    break ;
                },
                Some(id) => {
                    proof {
                        assert(pre.level_sound(level as int, 0, 1, LEVELS + 1));
                        assert(pre.due(
                            level as int,
                            pre.rung(level as int)[at],
                            0,
                            1,
                            LEVELS + 1,
                        ));
                        assert(pre.link(pre.anchor(level as int, at), level as int)
                            == pre.follower(level as int, at));
                    }
                    let block = &self.arena.node(id).block;
                    list.push((block.address(), block.size()));
                    next = self.link(Anchor::Slot(id), level);
                    proof {
                        at = at + 1;
                    }
                },
            }
        }
        list
    }

    /// The free blocks of a sound pool neither overlap nor touch, and each
    /// holds at least one byte.
    pub proof fn lemma_coalesced(&self)
        requires
            self.wf(),
        ensures
            coalesced(self@),
    {
    }

    /// Every level of a sound pool is in address order, and holds only
    /// blocks that each level below it holds too.
    pub proof fn lemma_tiers_nest(&self, upper: int, lower: int)
        requires
            self.wf(),
            1 <= lower <= upper <= LEVELS,
        ensures
            ascending(self.tier(upper)),
            forall|i: int|
                0 <= i < self.tier(upper).len() ==> self.tier(lower).contains(
                    #[trigger] self.tier(upper)[i],
                ),
    {
        assert(self.lattice().level_sound(upper, 0, 1, LEVELS + 1));
        assert forall|i: int| 0 <= i < self.tier(upper).len() implies self.tier(lower).contains(
            #[trigger] self.tier(upper)[i],
        ) by {
            self.lattice().lemma_rungs_nest(upper, lower, i);
        }
    }

    /// What a search finds is in order. At each level it is the sentinel or
    /// a live node that starts below the target, and what it finds at a
    /// higher level is what it finds at a lower level or stands before it.
    pub proof fn lemma_seek_ordered(&self, seek: Seek, target: int, upper: int, lower: int)
        requires
            self.wf(),
            self.finds(seek, target),
            1 <= lower <= upper <= LEVELS,
        ensures
            self.lattice().precedes(seek.at(upper), seek.at(lower)),
            seek.at(lower) matches Anchor::Slot(id) ==> self.lattice().live(id)
                && self.lattice().span(id).start < target,
            seek.node == seek.at(1),
    {
        self.lattice().lemma_preds_ordered(upper, lower, target);
    }
}

} // verus!
