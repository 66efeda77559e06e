//! The mathematical picture of the index, and what keeps it sound.
//!
//! A lattice is the sentinel, the table of nodes, and for each level the
//! list of the slots that are linked at that level, in the order of the
//! links. The index is sound where the links spell out exactly these lists,
//! each list is in address order and holds the nodes that are tall enough,
//! and the blocks of the base level neither overlap nor touch.

use crate::bk::chain::ascending;
use crate::bk::chain::coalesced;
use crate::bk::chain::holds;
use crate::bk::chain::lemma_scan_stops;
use crate::bk::chain::lemma_rank_bounds;
use crate::bk::chain::lemma_rank_parts;
use crate::bk::chain::rank;
use crate::bk::node::Node;
use crate::bk::seek::Anchor;
use crate::bk::shortcut::LEVELS;
use crate::span::Span;
use vstd::prelude::*;

verus! {

/// The picture of an index.
pub struct Lattice {
    /// The sentinel.
    pub head: Node,
    /// The table of slots.
    pub nodes: Seq<Node>,
    /// The slots that are linked at each level, the base level first.
    pub rungs: Seq<Seq<usize>>,
}

impl Lattice {
    /// The slots linked at `level`, in the order of the links.
    pub open spec fn rung(self, level: int) -> Seq<usize> {
        self.rungs[level - 1]
    }

    /// Slot `id` holds a node.
    pub open spec fn live(self, id: usize) -> bool {
        id < self.nodes.len() && self.nodes[id as int].block.len() > 0
    }

    /// The span of the block in slot `id`.
    pub open spec fn span(self, id: usize) -> Span {
        self.nodes[id as int].block@
    }

    /// The forward link that leaves `from` at `level`.
    pub open spec fn link(self, from: Anchor, level: int) -> Option<usize> {
        match from {
            Anchor::Head => self.head.link(level),
            Anchor::Slot(id) => self.nodes[id as int].link(level),
        }
    }

    /// The anchor at position `i` of `level`; the sentinel stands at -1.
    pub open spec fn anchor(self, level: int, i: int) -> Anchor {
        if i < 0 {
            Anchor::Head
        } else {
            Anchor::Slot(self.rung(level)[i])
        }
    }

    /// The slot that the list of `level` names behind position `i`.
    pub open spec fn follower(self, level: int, i: int) -> Option<usize> {
        if i + 1 < self.rung(level).len() {
            Some(self.rung(level)[i + 1])
        } else {
            None
        }
    }

    /// The spans of the blocks linked at `level`, in the order of the links.
    pub open spec fn spans(self, level: int) -> Seq<Span> {
        Seq::new(self.rung(level).len(), |i: int| self.span(self.rung(level)[i]))
    }

    /// The links of `level` spell out its list.
    pub open spec fn linked(self, level: int) -> bool {
        forall|i: int|
            -1 <= i < self.rung(level).len() ==> self.link(#[trigger] self.anchor(level, i), level)
                == self.follower(level, i)
    }

    /// Slot `id` is due in the list of `level`: it holds a node that is tall
    /// enough. The node in slot `x` is due only at the levels from `lo` up
    /// to, and without, `hi`.
    pub open spec fn due(self, level: int, id: usize, x: usize, lo: int, hi: int) -> bool {
        self.live(id) && level <= self.nodes[id as int].height() && (id == x ==> lo <= level < hi)
    }

    /// The list of `level` holds the slots that are due there, and no other.
    pub open spec fn placed(self, level: int, x: usize, lo: int, hi: int) -> bool {
        &&& forall|i: int|
            0 <= i < self.rung(level).len() ==> self.due(
                level,
                #[trigger] self.rung(level)[i],
                x,
                lo,
                hi,
            )
        &&& forall|id: usize| #[trigger]
            self.due(level, id, x, lo, hi) ==> self.rung(level).contains(id)
    }

    /// All is well at `level`.
    pub open spec fn level_sound(self, level: int, x: usize, lo: int, hi: int) -> bool {
        &&& self.linked(level)
        &&& ascending(self.spans(level))
        &&& self.placed(level, x, lo, hi)
    }

    /// All is well, but that the node in slot `x` is linked only at the
    /// levels from `lo` up to, and without, `hi`.
    pub open spec fn sound(self, x: usize, lo: int, hi: int) -> bool {
        &&& self.rungs.len() == LEVELS
        &&& self.head.height() == LEVELS
        &&& forall|id: usize|
            id < self.nodes.len() ==> (#[trigger] self.nodes[id as int]).block.wf()
        &&& forall|id: usize| #[trigger]
            self.live(id) ==> 1 <= self.nodes[id as int].height() <= LEVELS
        &&& forall|level: int|
            1 <= level <= LEVELS ==> #[trigger] self.level_sound(level, x, lo, hi)
        &&& coalesced(self.spans(1))
    }

    /// All is well.
    pub open spec fn whole(self) -> bool {
        self.sound(0, 1, LEVELS + 1)
    }

    /// `from` is a place of `level` at which a walk towards `target` can
    /// stand: the sentinel, or a node of the level that starts below
    /// `target`.
    pub open spec fn stands(self, from: Anchor, level: int, target: int) -> bool {
        match from {
            Anchor::Head => true,
            Anchor::Slot(id) => self.rung(level).contains(id) && self.span(id).start < target,
        }
    }

    /// The last anchor of `level` whose node starts below `target`.
    pub open spec fn pred(self, level: int, target: int) -> Anchor {
        self.anchor(level, rank(self.spans(level), target) - 1)
    }

    /// The predecessor at a level stands in the list of each level below, at
    /// a position that is below the target there too.
    pub proof fn lemma_descend(self, upper: int, lower: int, target: int) -> (at: int)
        requires
            self.whole(),
            1 <= lower < upper <= LEVELS,
        ensures
            -1 <= at < rank(self.spans(lower), target),
            self.anchor(lower, at) == self.pred(upper, target),
            self.stands(self.pred(upper, target), lower, target),
    {
        let above = rank(self.spans(upper), target);
        lemma_rank_bounds(self.spans(upper), target);
        assert(self.level_sound(upper, 0, 1, LEVELS + 1));
        assert(self.level_sound(lower, 0, 1, LEVELS + 1));
        if above == 0 {
            lemma_rank_bounds(self.spans(lower), target);
            -1
        } else {
            let id = self.rung(upper)[above - 1];
            assert(self.due(upper, id, 0, 1, LEVELS + 1));
            assert(self.due(lower, id, 0, 1, LEVELS + 1));
            let at = self.rung(lower).index_of(id);
            assert(self.spans(upper)[above - 1].start < target);
            assert(self.spans(upper)[above - 1] == self.span(id));
            assert(self.spans(lower)[at] == self.span(id));
            lemma_rank_parts(self.spans(lower), target);
            at
        }
    }

    /// `first` is `second`, or stands before it: it is the sentinel, or its
    /// node starts at a lower address.
    pub open spec fn precedes(self, first: Anchor, second: Anchor) -> bool {
        match (first, second) {
            (Anchor::Head, _) => true,
            (Anchor::Slot(_), Anchor::Head) => false,
            (Anchor::Slot(a), Anchor::Slot(b)) => a == b || self.span(a).start < self.span(
                b,
            ).start,
        }
    }

    /// The predecessors of a target come in order: the one at a higher level
    /// is the one at a lower level, or stands before it. Each is the
    /// sentinel or a node that starts below the target.
    pub proof fn lemma_preds_ordered(self, upper: int, lower: int, target: int)
        requires
            self.whole(),
            1 <= lower <= upper <= LEVELS,
        ensures
            self.precedes(self.pred(upper, target), self.pred(lower, target)),
            self.pred(lower, target) matches Anchor::Slot(id) ==> self.live(id) && self.span(
                id,
            ).start < target,
    {
        assert(self.level_sound(lower, 0, 1, LEVELS + 1));
        self.lemma_pred(lower, target, 0, 1, LEVELS + 1);
        if lower < upper {
            let at = self.lemma_descend(upper, lower, target);
            let below = rank(self.spans(lower), target);
            if 0 <= at < below - 1 {
                assert(self.spans(lower)[at].start < self.spans(lower)[below - 1].start);
            }
        }
    }

    /// The list of a level holds only slots that the list of each level
    /// below it holds too.
    pub proof fn lemma_rungs_nest(self, upper: int, lower: int, i: int)
        requires
            self.whole(),
            1 <= lower <= upper <= LEVELS,
            0 <= i < self.rung(upper).len(),
        ensures
            self.rung(lower).contains(self.rung(upper)[i]),
            self.spans(lower).contains(self.spans(upper)[i]),
    {
        assert(self.level_sound(upper, 0, 1, LEVELS + 1));
        assert(self.level_sound(lower, 0, 1, LEVELS + 1));
        let id = self.rung(upper)[i];
        assert(self.due(upper, id, 0, 1, LEVELS + 1));
        assert(self.due(lower, id, 0, 1, LEVELS + 1));
        let at = self.rung(lower).index_of(id);
        assert(self.spans(lower)[at] == self.spans(upper)[i]);
    }

    /// What a walk along `level` finds behind position `at`.
    pub proof fn lemma_walk(self, level: int, target: int, at: int)
        requires
            self.whole(),
            1 <= level <= LEVELS,
            -1 <= at < rank(self.spans(level), target),
        ensures
            at < self.rung(level).len(),
            self.link(self.anchor(level, at), level) == self.follower(level, at),
            match self.follower(level, at) {
                Some(next) => {
                    &&& self.live(next)
                    &&& self.span(next).start < target <==> at + 1 < rank(
                        self.spans(level),
                        target,
                    )
                    &&& self.span(next).start >= target <==> at + 1 == rank(
                        self.spans(level),
                        target,
                    )
                },
                None => at + 1 == rank(self.spans(level), target),
            },
    {
        lemma_rank_parts(self.spans(level), target);
        assert(self.level_sound(level, 0, 1, LEVELS + 1));
        if at + 1 < self.rung(level).len() {
            let next = self.rung(level)[at + 1];
            assert(self.due(level, next, 0, 1, LEVELS + 1));
            assert(self.spans(level)[at + 1] == self.span(next));
        }
    }

    /// An anchor in a list holds a node that reaches the level of the list.
    pub proof fn lemma_anchor_reaches(self, level: int, at: int)
        requires
            self.whole(),
            1 <= level <= LEVELS,
            -1 <= at < self.rung(level).len(),
        ensures
            match self.anchor(level, at) {
                Anchor::Head => true,
                Anchor::Slot(id) => self.live(id) && level <= self.nodes[id as int].height(),
            },
    {
        assert(self.level_sound(level, 0, 1, LEVELS + 1));
        if at >= 0 {
            assert(self.due(level, self.rung(level)[at], 0, 1, LEVELS + 1));
        }
    }

    /// `from` names the sentinel or a slot that holds a node of at least
    /// `level` levels.
    pub open spec fn reaches(self, from: Anchor, level: int) -> bool {
        match from {
            Anchor::Head => level <= self.head.height(),
            Anchor::Slot(id) => self.live(id) && level <= self.nodes[id as int].height(),
        }
    }

    /// A slot stands at one position of a list only.
    pub proof fn lemma_index(self, level: int, i: int, x: usize, lo: int, hi: int)
        requires
            self.level_sound(level, x, lo, hi),
            0 <= i < self.rung(level).len(),
        ensures
            self.rung(level).contains(self.rung(level)[i]),
            self.rung(level).index_of(self.rung(level)[i]) == i,
            self.spans(level)[i] == self.span(self.rung(level)[i]),
    {
        let j = self.rung(level).index_of(self.rung(level)[i]);
        if j < i {
            assert(self.spans(level)[j].start < self.spans(level)[i].start);
        } else if i < j {
            assert(self.spans(level)[i].start < self.spans(level)[j].start);
        }
    }

    /// The predecessor of a target at a level reaches that level, and its
    /// link there leads to the first node that does not start below the
    /// target.
    pub proof fn lemma_pred(self, level: int, target: int, x: usize, lo: int, hi: int)
        requires
            1 <= level <= LEVELS,
            self.head.height() == LEVELS,
            self.level_sound(level, x, lo, hi),
        ensures
            0 <= rank(self.spans(level), target) <= self.rung(level).len(),
            self.reaches(self.pred(level, target), level),
            self.link(self.pred(level, target), level) == self.follower(
                level,
                rank(self.spans(level), target) - 1,
            ),
            self.pred(level, target) matches Anchor::Slot(id) ==> {
                &&& rank(self.spans(level), target) > 0
                &&& self.rung(level)[rank(self.spans(level), target) - 1] == id
                &&& self.span(id).start < target
            },
            self.pred(level, target) is Head ==> rank(self.spans(level), target) == 0,
            self.link(self.pred(level, target), level) matches Some(id) ==> {
                &&& rank(self.spans(level), target) < self.rung(level).len()
                &&& self.rung(level)[rank(self.spans(level), target)] == id
                &&& self.live(id)
                &&& self.span(id).start >= target
            },
            self.link(self.pred(level, target), level) is None ==> rank(
                self.spans(level),
                target,
            ) == self.rung(level).len(),
    {
        let at = rank(self.spans(level), target);
        lemma_rank_bounds(self.spans(level), target);
        assert(self.link(self.anchor(level, at - 1), level) == self.follower(level, at - 1));
        if at > 0 {
            assert(self.due(level, self.rung(level)[at - 1], x, lo, hi));
            assert(self.spans(level)[at - 1].start < target);
        }
        if at < self.rung(level).len() {
            assert(self.due(level, self.rung(level)[at], x, lo, hi));
            assert(self.spans(level)[at].start >= target);
        }
    }

    /// A node stands in the list of each level that it reaches, and of no
    /// other; and it stands there exactly where its span stands among the
    /// spans of the level.
    pub proof fn lemma_holds(self, level: int, x: usize)
        requires
            self.whole(),
            1 <= level <= LEVELS,
            self.live(x),
        ensures
            self.rung(level).contains(x) <==> level <= self.nodes[x as int].height(),
            self.rung(level).contains(x) <==> holds(self.spans(level), self.span(x)),
            self.rung(level).contains(x) ==> self.rung(level).index_of(x) == rank(
                self.spans(level),
                self.span(x).start,
            ),
    {
        let hi = LEVELS + 1;
        let rung = self.rung(level);
        let spans = self.spans(level);
        assert(self.level_sound(level, 0, 1, hi));
        assert(self.level_sound(1, 0, 1, hi));
        if rung.contains(x) {
            let at = rung.index_of(x);
            assert(self.due(level, rung[at], 0, 1, hi));
            assert(spans[at] == self.span(x));
            assert forall|i: int| 0 <= i < at implies spans[i].start < self.span(x).start by {
                assert(spans[i].start < spans[at].start);
            }
            lemma_scan_stops(spans, self.span(x).start, 0, at);
        } else {
            if level <= self.nodes[x as int].height() {
                assert(self.due(level, x, 0, 1, hi));
            }
            if holds(spans, self.span(x)) {
                let at = rank(spans, self.span(x).start);
                lemma_rank_bounds(spans, self.span(x).start);
                let other = rung[at];
                assert(self.due(level, other, 0, 1, hi));
                assert(self.due(1, other, 0, 1, hi));
                assert(self.due(1, x, 0, 1, hi));
                let i = self.rung(1).index_of(other);
                let j = self.rung(1).index_of(x);
                assert(self.spans(1)[i] == self.span(other));
                assert(self.spans(1)[j] == self.span(x));
                if i < j {
                    assert(self.spans(1)[i].end() < self.spans(1)[j].start);
                } else if j < i {
                    assert(self.spans(1)[j].end() < self.spans(1)[i].start);
                }
                assert(self.spans(1)[i].valid());
            }
        }
    }
}

} // verus!
