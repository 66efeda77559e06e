//! Spans of addresses: the mathematical picture of a block of memory.

use vstd::prelude::*;

verus! {

/// `len` bytes of the address space, from `start` on.
pub struct Span {
    pub start: int,
    pub len: int,
}

impl Span {
    /// The first address behind the span.
    pub open spec fn end(self) -> int {
        self.start + self.len
    }

    /// The span lies within the address space.
    pub open spec fn valid(self) -> bool {
        0 <= self.start && 0 <= self.len && self.end() <= usize::MAX
    }

    /// The span holds no byte.
    pub open spec fn is_empty(self) -> bool {
        self.len == 0
    }

    /// The empty span at the left edge.
    pub open spec fn left_edge(self) -> Span {
        Span { start: self.start, len: 0 }
    }

    /// The empty span at the right edge.
    pub open spec fn right_edge(self) -> Span {
        Span { start: self.end(), len: 0 }
    }

    /// `self` ends exactly where `other` begins.
    pub open spec fn left_to(self, other: Span) -> bool {
        self.end() == other.start
    }

    /// `other` can be folded into `self` from the right: it is adjacent, or
    /// it holds nothing.
    pub open spec fn mergeable(self, other: Span) -> bool {
        self.left_to(other) || other.is_empty()
    }

    /// `self` widened by the bytes of `other`.
    pub open spec fn merged(self, other: Span) -> Span {
        Span { start: self.start, len: self.len + other.len }
    }

    /// The first `pos` bytes.
    pub open spec fn head(self, pos: int) -> Span {
        Span { start: self.start, len: pos }
    }

    /// All but the first `pos` bytes.
    pub open spec fn tail(self, pos: int) -> Span {
        Span { start: self.start + pos, len: self.len - pos }
    }

    /// The two spans share no byte.
    pub open spec fn disjoint(self, other: Span) -> bool {
        self.is_empty() || other.is_empty() || self.end() <= other.start || other.end()
            <= self.start
    }

    /// The bytes to skip from `start` to reach a multiple of `align`.
    pub open spec fn padding(self, align: int) -> int {
        (align - self.start % align) % align
    }

    /// Once padded to `align`, the span still holds `min_size` bytes and at
    /// least one.
    pub open spec fn fits(self, min_size: int, align: int) -> bool {
        self.padding(align) < self.len && min_size <= self.len - self.padding(align)
    }
}

/// The padding leads to a multiple of `align` and is smaller than `align`.
pub proof fn lemma_padding_aligns(span: Span, align: int)
    requires
        0 <= span.start,
        0 < align,
    ensures
        0 <= span.padding(align) < align,
        (span.start + span.padding(align)) % align == 0,
{
    let r = span.start % align;
    let q = span.start / align;
    vstd::arithmetic::div_mod::lemma_fundamental_div_mod(span.start, align);
    if r == 0 {
        vstd::arithmetic::div_mod::lemma_mod_self_0(align);
    } else {
        vstd::arithmetic::div_mod::lemma_small_mod((align - r) as nat, align as nat);
        assert(span.start + span.padding(align) == align * (q + 1)) by (nonlinear_arith)
            requires
                span.start == align * q + r,
                span.padding(align) == align - r,
        ;
        vstd::arithmetic::div_mod::lemma_mod_multiples_basic(q + 1, align);
    }
}

/// No smaller padding leads to a multiple of `align`.
pub proof fn lemma_padding_is_least(span: Span, align: int, less: int)
    requires
        0 <= span.start,
        0 < align,
        0 <= less < span.padding(align),
    ensures
        (span.start + less) % align != 0,
{
    let r = span.start % align;
    let q = span.start / align;
    vstd::arithmetic::div_mod::lemma_fundamental_div_mod(span.start, align);
    if r == 0 {
        vstd::arithmetic::div_mod::lemma_mod_self_0(align);
    } else {
        vstd::arithmetic::div_mod::lemma_small_mod((align - r) as nat, align as nat);
        assert(span.start + less == q * align + (r + less)) by (nonlinear_arith)
            requires
                span.start == align * q + r,
        ;
        vstd::arithmetic::div_mod::lemma_fundamental_div_mod_converse(
            span.start + less,
            align,
            q,
            r + less,
        );
    }
}

/// A span that is split and then merged again is the span that it was.
pub proof fn lemma_split_then_merge(span: Span, pos: int)
    requires
        0 <= pos <= span.len,
    ensures
        span.head(pos).mergeable(span.tail(pos)),
        span.head(pos).merged(span.tail(pos)) == span,
{
}

} // verus!
