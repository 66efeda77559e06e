//! Chains of spans: the mathematical picture of the free blocks, in the
//! order of their addresses.

use crate::span::Span;
use vstd::prelude::*;

verus! {

/// The spans start at strictly increasing addresses.
pub open spec fn ascending(spans: Seq<Span>) -> bool {
    forall|i: int, j: int| 0 <= i < j < spans.len() ==> spans[i].start < spans[j].start
}

/// Every span holds at least one byte and lies within the address space, and
/// between any two spans there is at least one byte that belongs to neither:
/// they neither overlap nor touch.
pub open spec fn coalesced(spans: Seq<Span>) -> bool {
    &&& forall|i: int| 0 <= i < spans.len() ==> spans[i].len > 0 && (#[trigger] spans[i]).valid()
    &&& forall|i: int, j: int| 0 <= i < j < spans.len() ==> spans[i].end() < spans[j].start
}

/// Walk the chain from position `from` for as long as the spans start below
/// `target`, and say where the walk stops.
pub open spec fn scan(spans: Seq<Span>, target: int, from: int) -> int
    decreases spans.len() - from,
{
    if 0 <= from < spans.len() && spans[from].start < target {
        scan(spans, target, from + 1)
    } else {
        from
    }
}

/// The number of spans at the front of the chain that start below `target`.
pub open spec fn rank(spans: Seq<Span>, target: int) -> int {
    scan(spans, target, 0)
}

/// `span` shares no byte with any span of the chain.
pub open spec fn clear_of(spans: Seq<Span>, span: Span) -> bool {
    forall|i: int| 0 <= i < spans.len() ==> (#[trigger] spans[i]).disjoint(span)
}

/// The chain after `span` has been given to it: folded into the span before
/// it, into the span behind it, into both, or set between them.
pub open spec fn absorb(spans: Seq<Span>, span: Span) -> Seq<Span> {
    let at = rank(spans, span.start);
    let left = at > 0 && spans[at - 1].left_to(span);
    let right = at < spans.len() && span.left_to(spans[at]);
    if span.is_empty() {
        spans
    } else if left && right {
        spans.remove(at).update(at - 1, spans[at - 1].merged(span).merged(spans[at]))
    } else if left {
        spans.update(at - 1, spans[at - 1].merged(span))
    } else if right {
        spans.update(at, span.merged(spans[at]))
    } else {
        spans.insert(at, span)
    }
}

/// `span` stands in the chain, which is ascending: it is the span at the rank
/// of its own start.
pub open spec fn holds(spans: Seq<Span>, span: Span) -> bool {
    rank(spans, span.start) < spans.len() && spans[rank(spans, span.start)] == span
}

/// The chain with `now` in the place of `was`, where it holds `was`.
pub open spec fn swapped(spans: Seq<Span>, was: Span, now: Span) -> Seq<Span> {
    if holds(spans, was) {
        spans.update(rank(spans, was.start), now)
    } else {
        spans
    }
}

/// The chain without `was`, where it holds `was`.
pub open spec fn dropped(spans: Seq<Span>, was: Span) -> Seq<Span> {
    if holds(spans, was) {
        spans.remove(rank(spans, was.start))
    } else {
        spans
    }
}

/// One level of the index after `span` has been given to the pool whose
/// base level is `base`. The level follows the base level in what it holds:
/// a span of the level that was widened is widened here, one that was folded
/// away leaves. Where `span` got a node of its own, the level takes it if
/// the node is `lifted` to it.
pub open spec fn absorb_at(tier: Seq<Span>, base: Seq<Span>, span: Span, lifted: bool) -> Seq<
    Span,
> {
    let at = rank(base, span.start);
    let left = at > 0 && base[at - 1].left_to(span);
    let right = at < base.len() && span.left_to(base[at]);
    if span.is_empty() {
        tier
    } else if left && right {
        swapped(dropped(tier, base[at]), base[at - 1], base[at - 1].merged(span).merged(base[at]))
    } else if left {
        swapped(tier, base[at - 1], base[at - 1].merged(span))
    } else if right {
        swapped(tier, base[at], span.merged(base[at]))
    } else if lifted {
        tier.insert(rank(tier, span.start), span)
    } else {
        tier
    }
}

/// Walk the chain from position `from` past the spans that do not fit, and
/// say where the walk stops.
pub open spec fn skip_unfit(spans: Seq<Span>, min_size: int, align: int, from: int) -> int
    decreases spans.len() - from,
{
    if 0 <= from < spans.len() && !spans[from].fits(min_size, align) {
        skip_unfit(spans, min_size, align, from + 1)
    } else {
        from
    }
}

/// The position of the first span that fits, or the length of the chain
/// where none does.
pub open spec fn first_fit(spans: Seq<Span>, min_size: int, align: int) -> int {
    skip_unfit(spans, min_size, align, 0)
}

/// Where a walk stops, and what it has passed.
pub proof fn lemma_scan_bounds(spans: Seq<Span>, target: int, from: int)
    requires
        0 <= from <= spans.len(),
    ensures
        from <= scan(spans, target, from) <= spans.len(),
        forall|i: int| from <= i < scan(spans, target, from) ==> spans[i].start < target,
        scan(spans, target, from) < spans.len() ==> spans[scan(spans, target, from)].start
            >= target,
    decreases spans.len() - from,
{
    if from < spans.len() && spans[from].start < target {
        lemma_scan_bounds(spans, target, from + 1);
    }
}

/// A walk stops at the first span that does not start below the target.
pub proof fn lemma_scan_stops(spans: Seq<Span>, target: int, from: int, at: int)
    requires
        0 <= from <= at <= spans.len(),
        forall|i: int| from <= i < at ==> spans[i].start < target,
        at < spans.len() ==> spans[at].start >= target,
    ensures
        scan(spans, target, from) == at,
    decreases at - from,
{
    if from < at {
        lemma_scan_stops(spans, target, from + 1, at);
    }
}

/// What the rank says of the chain.
pub proof fn lemma_rank_bounds(spans: Seq<Span>, target: int)
    ensures
        0 <= rank(spans, target) <= spans.len(),
        forall|i: int| 0 <= i < rank(spans, target) ==> spans[i].start < target,
        rank(spans, target) < spans.len() ==> spans[rank(spans, target)].start >= target,
{
    lemma_scan_bounds(spans, target, 0);
}

/// In an ascending chain the rank parts the spans that start below the
/// target from those that do not.
pub proof fn lemma_rank_parts(spans: Seq<Span>, target: int)
    requires
        ascending(spans),
    ensures
        0 <= rank(spans, target) <= spans.len(),
        forall|i: int| 0 <= i < spans.len() ==> (i < rank(spans, target) <==> spans[i].start < target),
{
    lemma_rank_bounds(spans, target);
}

/// Where a search for a fit stops, and what it has passed.
pub proof fn lemma_skip_unfit_bounds(spans: Seq<Span>, min_size: int, align: int, from: int)
    requires
        0 <= from <= spans.len(),
    ensures
        from <= skip_unfit(spans, min_size, align, from) <= spans.len(),
        forall|i: int|
            from <= i < skip_unfit(spans, min_size, align, from) ==> !spans[i].fits(
                min_size,
                align,
            ),
        skip_unfit(spans, min_size, align, from) < spans.len() ==> spans[skip_unfit(
            spans,
            min_size,
            align,
            from,
        )].fits(min_size, align),
    decreases spans.len() - from,
{
    if from < spans.len() && !spans[from].fits(min_size, align) {
        lemma_skip_unfit_bounds(spans, min_size, align, from + 1);
    }
}

/// The first fit is a position of the chain or its length; no span before it
/// fits, and the span at it does.
pub proof fn lemma_first_fit(spans: Seq<Span>, min_size: int, align: int)
    ensures
        0 <= first_fit(spans, min_size, align) <= spans.len(),
        forall|i: int|
            0 <= i < first_fit(spans, min_size, align) ==> !spans[i].fits(min_size, align),
        first_fit(spans, min_size, align) < spans.len() ==> spans[first_fit(
            spans,
            min_size,
            align,
        )].fits(min_size, align),
{
    lemma_skip_unfit_bounds(spans, min_size, align, 0);
}

/// A search for a fit stops at the first span that fits.
pub proof fn lemma_skip_unfit_stops(
    spans: Seq<Span>,
    min_size: int,
    align: int,
    from: int,
    at: int,
)
    requires
        0 <= from <= at <= spans.len(),
        forall|i: int| from <= i < at ==> !spans[i].fits(min_size, align),
        at < spans.len() ==> spans[at].fits(min_size, align),
    ensures
        skip_unfit(spans, min_size, align, from) == at,
    decreases at - from,
{
    if from < at {
        lemma_skip_unfit_stops(spans, min_size, align, from + 1, at);
    }
}

/// A coalesced chain is ascending.
pub proof fn lemma_coalesced_ascends(spans: Seq<Span>)
    requires
        coalesced(spans),
    ensures
        ascending(spans),
{
    assert forall|i: int, j: int| 0 <= i < j < spans.len() implies spans[i].start
        < spans[j].start by {
        assert(spans[i].valid());
    }
}

/// Where a span shares no byte with a coalesced chain, the spans below its
/// rank end at or before its start and the others start at or behind its
/// end; all but its two neighbours keep a gap.
pub proof fn lemma_neighbours(spans: Seq<Span>, span: Span)
    requires
        coalesced(spans),
        clear_of(spans, span),
        span.len > 0,
    ensures
        forall|i: int| 0 <= i < rank(spans, span.start) ==> spans[i].end() <= span.start,
        forall|i: int| rank(spans, span.start) <= i < spans.len() ==> span.end() <= spans[i].start,
        forall|i: int| 0 <= i < rank(spans, span.start) - 1 ==> spans[i].end() < span.start,
        forall|i: int| rank(spans, span.start) < i < spans.len() ==> span.end() < spans[i].start,
{
    let at = rank(spans, span.start);
    lemma_coalesced_ascends(spans);
    lemma_rank_parts(spans, span.start);
    assert forall|i: int| 0 <= i < at implies spans[i].end() <= span.start by {
        assert(spans[i].disjoint(span));
    }
    assert forall|i: int| at <= i < spans.len() implies span.end() <= spans[i].start by {
        assert(spans[i].disjoint(span));
    }
    assert forall|i: int| 0 <= i < at - 1 implies spans[i].end() < span.start by {
        assert(spans[i].end() < spans[at - 1].start);
        assert(spans[at - 1].valid());
    }
    assert forall|i: int| at < i < spans.len() implies span.end() < spans[i].start by {
        assert(spans[at].end() < spans[i].start);
        assert(spans[at].valid());
    }
}

/// In an ascending chain each span stands at the rank of its own start.
pub proof fn lemma_rank_of_own(spans: Seq<Span>, at: int)
    requires
        ascending(spans),
        0 <= at < spans.len(),
    ensures
        rank(spans, spans[at].start) == at,
        holds(spans, spans[at]),
{
    lemma_scan_stops(spans, spans[at].start, 0, at);
}

/// At the base level, which takes every new node, a level changes as the
/// chain of all free blocks does.
pub proof fn lemma_absorb_base(spans: Seq<Span>, span: Span)
    requires
        ascending(spans),
    ensures
        absorb_at(spans, spans, span, true) == absorb(spans, span),
{
    let at = rank(spans, span.start);
    lemma_rank_bounds(spans, span.start);
    if at > 0 {
        lemma_rank_of_own(spans, at - 1);
    }
    if at < spans.len() {
        lemma_rank_of_own(spans, at);
        if at > 0 {
            let rest = spans.remove(at);
            spans.remove_ensures(at);
            lemma_scan_stops(rest, spans[at - 1].start, 0, at - 1);
        }
    }
}

} // verus!
