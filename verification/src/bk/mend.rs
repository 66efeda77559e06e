//! How the picture of the index changes with each step that the pool takes,
//! and why it stays sound.

use crate::bk::chain::ascending;
use crate::bk::chain::coalesced;
use crate::bk::chain::lemma_rank_bounds;
use crate::bk::chain::lemma_scan_stops;
use crate::bk::chain::rank;
use crate::bk::chain::swapped;
use crate::bk::lattice::Lattice;
use crate::bk::seek::Anchor;
use crate::bk::shortcut::LEVELS;
use vstd::prelude::*;

verus! {

impl Lattice {
    /// `after` has the nodes of `self`, but that the link that leaves
    /// `from` at `level` points to `to`.
    pub open spec fn relinked(
        self,
        after: Lattice,
        from: Anchor,
        level: int,
        to: Option<usize>,
    ) -> bool {
        &&& after.nodes.len() == self.nodes.len()
        &&& after.head.block == self.head.block
        &&& match from {
            Anchor::Head => {
                &&& after.head.shortcuts@ == self.head.shortcuts@.update(level - 1, to)
                &&& after.nodes == self.nodes
            },
            Anchor::Slot(id) => {
                &&& after.head.shortcuts@ == self.head.shortcuts@
                &&& after.nodes[id as int].block == self.nodes[id as int].block
                &&& after.nodes[id as int].shortcuts@ == self.nodes[id as int].shortcuts@.update(
                    level - 1,
                    to,
                )
                &&& forall|other: usize|
                    other < self.nodes.len() && other != id ==> after.nodes[other as int]
                        == self.nodes[other as int]
            },
        }
    }

    /// No node starts between `target` and the node in slot `x`, at which
    /// `target` itself may lie.
    pub open spec fn tight(self, x: usize, target: int) -> bool {
        &&& target <= self.span(x).start
        &&& forall|id: usize| #[trigger]
            self.live(id) && self.span(id).start < self.span(x).start ==> self.span(id).start
                < target
    }

    /// Where the node in slot `x` stands in the list of `level`, the target
    /// ranks just as high.
    pub proof fn lemma_rank_of_tight(self, x: usize, level: int, target: int, lo: int, hi: int)
        requires
            1 <= level <= LEVELS,
            self.level_sound(level, x, lo, hi),
            self.rung(level).contains(x),
            self.tight(x, target),
        ensures
            rank(self.spans(level), target) == self.rung(level).index_of(x),
    {
        let at = self.rung(level).index_of(x);
        let spans = self.spans(level);
        assert forall|i: int| 0 <= i < at implies spans[i].start < target by {
            assert(self.due(level, self.rung(level)[i], x, lo, hi));
            assert(spans[i].start < spans[at].start);
        }
        assert(spans[at] == self.span(x));
        lemma_scan_stops(spans, target, 0, at);
    }

    /// One step of taking the node in slot `x` out of the index: at
    /// `level` the link that led to it leads to what followed it.
    pub proof fn lemma_unlink(self, after: Lattice, x: usize, level: int, target: int)
        requires
            1 <= level <= LEVELS,
            self.sound(x, level, LEVELS + 1),
            self.live(x),
            level <= self.nodes[x as int].height(),
            self.tight(x, target),
            self.relinked(
                after,
                self.pred(level, target),
                level,
                self.link(Anchor::Slot(x), level),
            ),
            after.rungs == self.rungs.update(
                level - 1,
                self.rung(level).remove(self.rung(level).index_of(x)),
            ),
        ensures
            after.sound(x, level + 1, LEVELS + 1),
            self.rung(level).contains(x),
            after.spans(level) == self.spans(level).remove(self.rung(level).index_of(x)),
            forall|other: int|
                1 <= other <= LEVELS && other != level ==> after.rung(other) == self.rung(other)
                    && #[trigger] after.spans(other) == self.spans(other),
    {
        let rung = self.rung(level);
        let hi = LEVELS + 1;
        assert(self.level_sound(level, x, level, hi));
        assert(self.due(level, x, x, level, hi));
        let at = rung.index_of(x);
        self.lemma_rank_of_tight(x, level, target, level, hi);
        let from = self.pred(level, target);
        assert(from == self.anchor(level, at - 1));
        let to = self.link(Anchor::Slot(x), level);
        assert(self.anchor(level, at) == Anchor::Slot(x));
        assert(to == self.follower(level, at));
        let left = after.rung(level);
        rung.remove_ensures(at);
        assert(left == rung.remove(at));
        // The lists keep their order: no slot stands twice in one.
        assert forall|i: int, j: int| 0 <= i < j < rung.len() implies rung[i] != rung[j] by {
            assert(self.spans(level)[i].start < self.spans(level)[j].start);
        }
        assert forall|id: usize| id < self.nodes.len() implies after.nodes[id as int].block
            == self.nodes[id as int].block && after.nodes[id as int].height()
            == self.nodes[id as int].height() by {}
        assert forall|id: usize| id < self.nodes.len() implies (#[trigger] after.nodes[id as int]).block.wf() by {
            assert(self.nodes[id as int].block.wf());
        }
        assert forall|id: usize| #[trigger] after.live(id) implies 1 <= after.nodes[id as int].height()
            <= LEVELS by {
            assert(self.live(id));
        }
        assert(after.spans(level) =~= self.spans(level).remove(at)) by {
            self.spans(level).remove_ensures(at);
        }
        assert forall|other: int| 1 <= other <= LEVELS && other != level implies after.rung(other)
            == self.rung(other) && #[trigger] after.spans(other) == self.spans(other) by {
            assert(self.level_sound(other, x, level, hi));
            assert forall|i: int| 0 <= i < self.rung(other).len() implies after.spans(other)[i]
                == self.spans(other)[i] by {
                assert(self.due(other, self.rung(other)[i], x, level, hi));
            }
            assert(after.spans(other) =~= self.spans(other));
        }
        assert forall|other: int| 1 <= other <= LEVELS implies #[trigger] after.level_sound(
            other,
            x,
            level + 1,
            hi,
        ) by {
            assert(self.level_sound(other, x, level, hi));
            if other != level {
                assert(after.rung(other) == self.rung(other));
                assert(after.spans(other) == self.spans(other));
                assert forall|i: int| -1 <= i < after.rung(other).len() implies after.link(
                    #[trigger] after.anchor(other, i),
                    other,
                ) == after.follower(other, i) by {
                    assert(self.link(self.anchor(other, i), other) == self.follower(other, i));
                    if i >= 0 {
                        assert(self.due(other, self.rung(other)[i], x, level, hi));
                    }
                }
                assert forall|i: int| 0 <= i < after.rung(other).len() implies after.due(
                    other,
                    #[trigger] after.rung(other)[i],
                    x,
                    level + 1,
                    hi,
                ) by {
                    assert(self.due(other, self.rung(other)[i], x, level, hi));
                }
                assert forall|id: usize| #[trigger]
                    after.due(other, id, x, level + 1, hi) implies after.rung(other).contains(
                    id,
                ) by {
                    assert(self.due(other, id, x, level, hi));
                }
            } else {
                assert forall|i: int| -1 <= i < left.len() implies after.link(
                    #[trigger] after.anchor(level, i),
                    level,
                ) == after.follower(level, i) by {
                    if i < at - 1 {
                        assert(self.link(self.anchor(level, i), level) == self.follower(level, i));
                        if i >= 0 {
                            assert(self.due(level, rung[i], x, level, hi));
                        }
                    } else if i == at - 1 {
                        if i >= 0 {
                            assert(self.due(level, rung[i], x, level, hi));
                        }
                    } else {
                        assert(self.link(self.anchor(level, i + 1), level) == self.follower(
                            level,
                            i + 1,
                        ));
                        assert(self.due(level, rung[i + 1], x, level, hi));
                    }
                }
                assert forall|i: int| 0 <= i < left.len() implies after.due(
                    level,
                    #[trigger] left[i],
                    x,
                    level + 1,
                    hi,
                ) by {
                    if i < at {
                        assert(self.due(level, rung[i], x, level, hi));
                    } else {
                        assert(self.due(level, rung[i + 1], x, level, hi));
                    }
                }
                assert forall|id: usize| #[trigger]
                    after.due(level, id, x, level + 1, hi) implies left.contains(id) by {
                    assert(self.due(level, id, x, level, hi));
                    let was = rung.index_of(id);
                    if was < at {
                        assert(left[was] == id);
                    } else {
                        assert(left[was - 1] == id);
                    }
                }
                assert(ascending(after.spans(level)));
            }
        }
        assert(coalesced(after.spans(1))) by {
            assert(self.level_sound(1, x, level, hi));
        }
    }

    /// The node in slot `x` has a gap on either side: every other node ends
    /// before it starts, or starts behind its end, with a byte between.
    pub open spec fn roomy(self, x: usize) -> bool {
        forall|id: usize| #[trigger]
            self.live(id) && id != x ==> self.span(id).end() < self.span(x).start || self.span(
                x,
            ).end() < self.span(id).start
    }

    /// `after` has the table of `self`, and the nodes of `self` in it.
    pub open spec fn kept(self, after: Lattice) -> bool {
        &&& after.nodes.len() == self.nodes.len()
        &&& after.head == self.head
        &&& after.rungs == self.rungs
    }

    /// What holds of the nodes at a level holds whatever the slot that is
    /// set apart, where that slot is due at the same levels either way.
    pub proof fn lemma_rebase(self, x: usize, lo: int, hi: int, y: usize, from: int, to: int)
        requires
            self.sound(x, lo, hi),
            forall|level: int, id: usize|
                1 <= level <= LEVELS ==> #[trigger] self.due(level, id, x, lo, hi) == self.due(
                    level,
                    id,
                    y,
                    from,
                    to,
                ),
        ensures
            self.sound(y, from, to),
    {
        assert forall|level: int| 1 <= level <= LEVELS implies #[trigger] self.level_sound(
            level,
            y,
            from,
            to,
        ) by {
            assert(self.level_sound(level, x, lo, hi));
            assert forall|i: int| 0 <= i < self.rung(level).len() implies self.due(
                level,
                #[trigger] self.rung(level)[i],
                y,
                from,
                to,
            ) by {
                assert(self.due(level, self.rung(level)[i], x, lo, hi));
            }
            assert forall|id: usize| #[trigger]
                self.due(level, id, y, from, to) implies self.rung(level).contains(id) by {
                assert(self.due(level, id, x, lo, hi));
            }
        }
    }

    /// The spans at a level are those of the slots in its list.
    pub proof fn lemma_spans_kept(self, after: Lattice, level: int, x: usize, lo: int, hi: int)
        requires
            1 <= level <= LEVELS,
            self.rungs.len() == LEVELS,
            self.level_sound(level, x, lo, hi),
            after.rung(level) == self.rung(level),
            forall|id: usize| #[trigger]
                self.live(id) && self.rung(level).contains(id) ==> after.span(id) == self.span(id),
        ensures
            after.spans(level) == self.spans(level),
    {
        assert forall|i: int| 0 <= i < self.rung(level).len() implies after.spans(level)[i]
            == self.spans(level)[i] by {
            assert(self.due(level, self.rung(level)[i], x, lo, hi));
        }
        assert(after.spans(level) =~= self.spans(level));
    }

    /// One step of setting the node in slot `x` into the index: at `level`
    /// the node takes over the link of its predecessor, which then leads to
    /// it.
    pub proof fn lemma_splice(self, mid: Lattice, after: Lattice, x: usize, level: int)
        requires
            1 <= level <= LEVELS,
            self.sound(x, 1, level),
            self.live(x),
            level <= self.nodes[x as int].height(),
            self.roomy(x),
            self.relinked(
                mid,
                Anchor::Slot(x),
                level,
                self.link(self.pred(level, self.span(x).start), level),
            ),
            mid.relinked(after, self.pred(level, self.span(x).start), level, Some(x)),
            after.rungs == self.rungs.update(
                level - 1,
                self.rung(level).insert(rank(self.spans(level), self.span(x).start), x),
            ),
        ensures
            after.sound(x, 1, level + 1),
            after.spans(level) == self.spans(level).insert(
                rank(self.spans(level), self.span(x).start),
                self.span(x),
            ),
            forall|other: int|
                1 <= other <= LEVELS && other != level ==> after.rung(other) == self.rung(other)
                    && #[trigger] after.spans(other) == self.spans(other),
    {
        let rung = self.rung(level);
        let spans = self.spans(level);
        let target = self.span(x).start;
        let at = rank(spans, target);
        let from = self.pred(level, target);
        lemma_rank_bounds(spans, target);
        assert(self.level_sound(level, x, 1, level));
        assert forall|i: int| 0 <= i < rung.len() implies rung[i] != x && self.live(rung[i])
            && level <= self.nodes[rung[i] as int].height() by {
            assert(self.due(level, rung[i], x, 1, level));
        }
        assert forall|i: int, j: int| 0 <= i < j < rung.len() implies rung[i] != rung[j] by {
            assert(spans[i].start < spans[j].start);
        }
        assert(from == self.anchor(level, at - 1));
        assert(self.link(from, level) == self.follower(level, at - 1));
        let grown = after.rung(level);
        rung.insert_ensures(at, x);
        assert(grown == rung.insert(at, x));
        assert forall|id: usize| id < self.nodes.len() implies after.nodes[id as int].block
            == self.nodes[id as int].block && after.nodes[id as int].height()
            == self.nodes[id as int].height() by {}
        assert forall|id: usize| id < self.nodes.len() implies (#[trigger] after.nodes[id as int]).block.wf() by {
            assert(self.nodes[id as int].block.wf());
        }
        assert forall|id: usize| #[trigger] after.live(id) implies 1 <= after.nodes[id as int].height()
            <= LEVELS by {
            assert(self.live(id));
        }
        assert forall|i: int| at <= i < rung.len() implies self.span(x).end() < spans[i].start by {
            assert(spans[at].start <= spans[i].start);
            assert(self.live(rung[i]));
        }
        assert forall|i: int| 0 <= i < at implies spans[i].end() < target by {
            assert(self.live(rung[i]));
        }
        assert(after.spans(level) =~= spans.insert(at, self.span(x))) by {
            spans.insert_ensures(at, self.span(x));
        }
        spans.insert_ensures(at, self.span(x));
        assert forall|other: int| 1 <= other <= LEVELS && other != level implies after.rung(other)
            == self.rung(other) && #[trigger] after.spans(other) == self.spans(other) by {
            assert(self.level_sound(other, x, 1, level));
            self.lemma_spans_kept(after, other, x, 1, level);
        }
        assert forall|other: int| 1 <= other <= LEVELS implies #[trigger] after.level_sound(
            other,
            x,
            1,
            level + 1,
        ) by {
            assert(self.level_sound(other, x, 1, level));
            if other != level {
                assert(after.rung(other) == self.rung(other));
                assert(after.spans(other) == self.spans(other));
                assert forall|i: int| -1 <= i < after.rung(other).len() implies after.link(
                    #[trigger] after.anchor(other, i),
                    other,
                ) == after.follower(other, i) by {
                    assert(self.link(self.anchor(other, i), other) == self.follower(other, i));
                    if i >= 0 {
                        assert(self.due(other, self.rung(other)[i], x, 1, level));
                    }
                }
                assert forall|i: int| 0 <= i < after.rung(other).len() implies after.due(
                    other,
                    #[trigger] after.rung(other)[i],
                    x,
                    1,
                    level + 1,
                ) by {
                    assert(self.due(other, self.rung(other)[i], x, 1, level));
                }
                assert forall|id: usize| #[trigger]
                    after.due(other, id, x, 1, level + 1) implies after.rung(other).contains(
                    id,
                ) by {
                    assert(self.due(other, id, x, 1, level));
                }
            } else {
                assert forall|i: int| -1 <= i < grown.len() implies after.link(
                    #[trigger] after.anchor(level, i),
                    level,
                ) == after.follower(level, i) by {
                    if i < at - 1 {
                        assert(self.link(self.anchor(level, i), level) == self.follower(level, i));
                    } else if i == at - 1 {
                    } else if i == at {
                    } else {
                        assert(self.link(self.anchor(level, i - 1), level) == self.follower(
                            level,
                            i - 1,
                        ));
                    }
                }
                assert forall|i: int| 0 <= i < grown.len() implies after.due(
                    level,
                    #[trigger] grown[i],
                    x,
                    1,
                    level + 1,
                ) by {
                    if i < at {
                        assert(self.due(level, rung[i], x, 1, level));
                    } else if i > at {
                        assert(self.due(level, rung[i - 1], x, 1, level));
                    }
                }
                assert forall|id: usize| #[trigger]
                    after.due(level, id, x, 1, level + 1) implies grown.contains(id) by {
                    if id == x {
                        assert(grown[at] == x);
                    } else {
                        assert(self.due(level, id, x, 1, level));
                        let was = rung.index_of(id);
                        if was < at {
                            assert(grown[was] == id);
                        } else {
                            assert(grown[was + 1] == id);
                        }
                    }
                }
                assert(ascending(after.spans(level)));
            }
        }
        assert(coalesced(after.spans(1))) by {
            assert(self.level_sound(1, x, 1, level));
            assert(self.nodes[x as int].block.wf());
        }
    }

    /// A node that comes into a slot that held none leaves the index as it
    /// was, and is linked nowhere.
    pub proof fn lemma_store(self, after: Lattice, x: usize)
        requires
            self.whole(),
            !self.live(x),
            x <= self.nodes.len(),
            x < self.nodes.len() ==> after.nodes.len() == self.nodes.len(),
            x == self.nodes.len() ==> after.nodes.len() == self.nodes.len() + 1,
            after.head == self.head,
            after.rungs == self.rungs,
            forall|other: usize|
                other < self.nodes.len() && other != x ==> after.nodes[other as int]
                    == self.nodes[other as int],
            after.nodes[x as int].block.wf(),
            after.live(x),
            1 <= after.nodes[x as int].height() <= LEVELS,
        ensures
            after.sound(x, 1, 1),
            forall|level: int|
                1 <= level <= LEVELS ==> after.rung(level) == self.rung(level)
                    && #[trigger] after.spans(level) == self.spans(level),
            forall|other: usize|
                other != x ==> after.live(other) == self.live(other) && (self.live(other)
                    ==> after.span(other) == self.span(other)),
    {
        let hi = LEVELS + 1;
        assert forall|level: int| 1 <= level <= LEVELS implies after.rung(level) == self.rung(
            level,
        ) && #[trigger] after.spans(level) == self.spans(level) by {
            assert(self.level_sound(level, 0, 1, hi));
            assert forall|id: usize| #[trigger]
                self.live(id) && self.rung(level).contains(id) implies after.span(id) == self.span(
                id,
            ) by {}
            self.lemma_spans_kept(after, level, 0, 1, hi);
        }
        assert forall|id: usize| id < after.nodes.len() implies (#[trigger] after.nodes[id as int]).block.wf() by {
            if id != x {
                assert(self.nodes[id as int].block.wf());
            }
        }
        assert forall|id: usize| #[trigger] after.live(id) implies 1 <= after.nodes[id as int].height()
            <= LEVELS by {
            if id != x {
                assert(self.live(id));
            }
        }
        assert forall|level: int| 1 <= level <= LEVELS implies #[trigger] after.level_sound(
            level,
            x,
            1,
            1,
        ) by {
            assert(self.level_sound(level, 0, 1, hi));
            assert(after.spans(level) == self.spans(level));
            assert forall|i: int| -1 <= i < after.rung(level).len() implies after.link(
                #[trigger] after.anchor(level, i),
                level,
            ) == after.follower(level, i) by {
                assert(self.link(self.anchor(level, i), level) == self.follower(level, i));
                if i >= 0 {
                    assert(self.due(level, self.rung(level)[i], 0, 1, hi));
                }
            }
            assert forall|i: int| 0 <= i < after.rung(level).len() implies after.due(
                level,
                #[trigger] after.rung(level)[i],
                x,
                1,
                1,
            ) by {
                assert(self.due(level, self.rung(level)[i], 0, 1, hi));
            }
            assert forall|id: usize| #[trigger]
                after.due(level, id, x, 1, 1) implies after.rung(level).contains(id) by {
                assert(self.due(level, id, 0, 1, hi));
            }
        }
    }

    /// A node that is linked nowhere leaves no trace when its slot is
    /// emptied.
    pub proof fn lemma_vacate(self, after: Lattice, x: usize)
        requires
            self.sound(x, self.nodes[x as int].height() + 1, LEVELS + 1),
            self.live(x),
            self.kept(after),
            forall|other: usize|
                other < self.nodes.len() && other != x ==> after.nodes[other as int]
                    == self.nodes[other as int],
            after.nodes[x as int].block.wf(),
            !after.live(x),
        ensures
            after.whole(),
            forall|level: int|
                1 <= level <= LEVELS ==> after.rung(level) == self.rung(level)
                    && #[trigger] after.spans(level) == self.spans(level),
    {
        let lo = self.nodes[x as int].height() + 1;
        let hi = LEVELS + 1;
        assert forall|level: int| 1 <= level <= LEVELS implies after.rung(level) == self.rung(
            level,
        ) && #[trigger] after.spans(level) == self.spans(level) by {
            assert(self.level_sound(level, x, lo, hi));
            assert forall|id: usize| #[trigger]
                self.live(id) && self.rung(level).contains(id) implies after.span(id) == self.span(
                id,
            ) by {
                let i = self.rung(level).index_of(id);
                assert(self.due(level, self.rung(level)[i], x, lo, hi));
            }
            self.lemma_spans_kept(after, level, x, lo, hi);
        }
        assert forall|id: usize| id < after.nodes.len() implies (#[trigger] after.nodes[id as int]).block.wf() by {
            if id != x {
                assert(self.nodes[id as int].block.wf());
            }
        }
        assert forall|id: usize| #[trigger] after.live(id) implies 1 <= after.nodes[id as int].height()
            <= LEVELS by {
            assert(self.live(id));
        }
        assert forall|level: int| 1 <= level <= LEVELS implies #[trigger] after.level_sound(
            level,
            0,
            1,
            hi,
        ) by {
            assert(self.level_sound(level, x, lo, hi));
            assert(after.spans(level) == self.spans(level));
            assert forall|i: int| 0 <= i < after.rung(level).len() implies after.due(
                level,
                #[trigger] after.rung(level)[i],
                0,
                1,
                hi,
            ) by {
                assert(self.due(level, self.rung(level)[i], x, lo, hi));
            }
            assert forall|i: int| -1 <= i < after.rung(level).len() implies after.link(
                #[trigger] after.anchor(level, i),
                level,
            ) == after.follower(level, i) by {
                assert(self.link(self.anchor(level, i), level) == self.follower(level, i));
                if i >= 0 {
                    assert(self.due(level, self.rung(level)[i], x, lo, hi));
                }
            }
            assert forall|id: usize| #[trigger]
                after.due(level, id, 0, 1, hi) implies after.rung(level).contains(id) by {
                assert(self.due(level, id, x, lo, hi));
            }
        }
    }

    /// The block of a node may grow or shrink within the gaps that part it
    /// from its neighbours at the base level.
    pub proof fn lemma_reshape(self, after: Lattice, x: usize)
        requires
            self.whole(),
            self.live(x),
            self.kept(after),
            forall|other: usize|
                other < self.nodes.len() && other != x ==> after.nodes[other as int]
                    == self.nodes[other as int],
            after.nodes[x as int].shortcuts == self.nodes[x as int].shortcuts,
            after.nodes[x as int].block.wf(),
            after.live(x),
            ({
                let at = self.rung(1).index_of(x);
                &&& at > 0 ==> self.spans(1)[at - 1].end() < after.span(x).start
                &&& at + 1 < self.rung(1).len() ==> after.span(x).end() < self.spans(1)[at
                    + 1].start
            }),
        ensures
            after.whole(),
            self.rung(1).contains(x),
            after.spans(1) == self.spans(1).update(self.rung(1).index_of(x), after.span(x)),
            forall|level: int|
                1 <= level <= LEVELS ==> #[trigger] after.spans(level) == swapped(
                    self.spans(level),
                    self.span(x),
                    after.span(x),
                ),
    {
        let hi = LEVELS + 1;
        let base = self.rung(1);
        assert forall|level: int| 1 <= level <= LEVELS implies #[trigger] after.spans(level)
            == swapped(self.spans(level), self.span(x), after.span(x)) by {
            let rung = self.rung(level);
            assert(self.level_sound(level, 0, 1, hi));
            self.lemma_holds(level, x);
            assert forall|i: int| 0 <= i < rung.len() implies after.spans(level)[i] == (if rung[i]
                == x {
                after.span(x)
            } else {
                self.spans(level)[i]
            }) by {
                assert(self.due(level, rung[i], 0, 1, hi));
            }
            if rung.contains(x) {
                let at = rung.index_of(x);
                self.lemma_index(level, at, 0, 1, hi);
                assert forall|i: int| 0 <= i < rung.len() && i != at implies rung[i] != x by {
                    self.lemma_index(level, i, 0, 1, hi);
                }
                assert(after.spans(level) =~= self.spans(level).update(at, after.span(x)));
            } else {
                assert(after.spans(level) =~= self.spans(level));
            }
        }
        assert(self.level_sound(1, 0, 1, hi));
        assert(self.due(1, x, 0, 1, hi));
        let at = base.index_of(x);
        let fresh = after.span(x);
        assert(self.spans(1)[at] == self.span(x));
        // Every other node lies on the far side of one of the two gaps.
        assert forall|id: usize| #[trigger] self.live(id) && id != x implies (self.span(id).start
            < self.span(x).start ==> self.span(id).end() < fresh.start) && (self.span(id).start
            > self.span(x).start ==> fresh.end() < self.span(id).start) by {
            assert(self.nodes[id as int].height() >= 1);
            assert(self.due(1, id, 0, 1, hi));
            let i = base.index_of(id);
            assert(self.spans(1)[i] == self.span(id));
            if i < at {
                assert(self.spans(1)[i].start < self.spans(1)[at].start);
                if i < at - 1 {
                    assert(self.spans(1)[i].end() < self.spans(1)[at - 1].start);
                    assert(self.spans(1)[at - 1].len > 0);
                }
            } else {
                assert(i > at);
                assert(self.spans(1)[at].start < self.spans(1)[i].start);
                if i > at + 1 {
                    assert(self.spans(1)[at + 1].end() < self.spans(1)[i].start);
                    assert(self.spans(1)[at + 1].len > 0);
                }
            }
        }
        assert forall|id: usize| id < after.nodes.len() implies (#[trigger] after.nodes[id as int]).block.wf() by {
            if id != x {
                assert(self.nodes[id as int].block.wf());
            }
        }
        assert forall|id: usize| #[trigger] after.live(id) implies 1 <= after.nodes[id as int].height()
            <= LEVELS by {
            assert(self.live(id));
        }
        assert forall|level: int| 1 <= level <= LEVELS implies #[trigger] after.level_sound(
            level,
            0,
            1,
            hi,
        ) by {
            assert(self.level_sound(level, 0, 1, hi));
            let rung = self.rung(level);
            assert forall|i: int| 0 <= i < rung.len() implies after.due(
                level,
                #[trigger] after.rung(level)[i],
                0,
                1,
                hi,
            ) by {
                assert(self.due(level, rung[i], 0, 1, hi));
            }
            assert forall|i: int| -1 <= i < rung.len() implies after.link(
                #[trigger] after.anchor(level, i),
                level,
            ) == after.follower(level, i) by {
                assert(self.link(self.anchor(level, i), level) == self.follower(level, i));
                if i >= 0 {
                    assert(self.due(level, rung[i], 0, 1, hi));
                }
            }
            assert forall|id: usize| #[trigger]
                after.due(level, id, 0, 1, hi) implies after.rung(level).contains(id) by {
                assert(self.due(level, id, 0, 1, hi));
            }
            assert forall|i: int, j: int| 0 <= i < j < rung.len() implies after.spans(
                level,
            )[i].start < after.spans(level)[j].start by {
                assert(self.due(level, rung[i], 0, 1, hi));
                assert(self.due(level, rung[j], 0, 1, hi));
                assert(self.spans(level)[i].start < self.spans(level)[j].start);
                assert(self.live(rung[i]));
                assert(self.live(rung[j]));
            }
        }
        assert(after.spans(1) =~= self.spans(1).update(at, fresh)) by {
            assert forall|i: int| 0 <= i < base.len() implies after.spans(1)[i] == self.spans(
                1,
            ).update(at, fresh)[i] by {
                assert(self.due(1, base[i], 0, 1, hi));
                if i != at {
                    assert(self.spans(1)[i].start != self.spans(1)[at].start);
                }
            }
        }
        assert(coalesced(after.spans(1))) by {
            assert forall|i: int, j: int| 0 <= i < j < base.len() implies after.spans(1)[i].end()
                < after.spans(1)[j].start by {
                assert(self.spans(1)[i].end() < self.spans(1)[j].start);
                assert(self.due(1, base[i], 0, 1, hi));
                assert(self.due(1, base[j], 0, 1, hi));
                assert(self.live(base[i]));
                assert(self.live(base[j]));
                assert(self.spans(1)[i].len > 0);
                assert(self.spans(1)[j].len > 0);
            }
        }
    }
}

} // verus!
