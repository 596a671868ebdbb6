//! An axis-aligned clipping rectangle with intersection ("narrowing")
//! operations. A clip is a pure value: every narrowing operation returns a
//! new clip and never widens any bound.

use vstd::prelude::*;

verus! {

/// An axis-aligned rectangle in pixel units. The horizontal range is
/// `[left, right)` and the vertical range is `[top, bottom)`, both half-open.
#[derive(Copy, Clone, PartialEq, Eq, Structural, Debug)]
pub struct Clip {
    pub left: i32,
    pub top: i32,
    pub right: i32,
    pub bottom: i32,
}

impl Clip {
    /// The value of `clip_left`: the left bound moves right, never left.
    pub open spec fn spec_clip_left(self, left: i32) -> Clip {
        Clip { left: if self.left >= left { self.left } else { left }, ..self }
    }

    /// The value of `clip_right`: the right bound moves left, never right.
    pub open spec fn spec_clip_right(self, right: i32) -> Clip {
        Clip { right: if self.right <= right { self.right } else { right }, ..self }
    }

    /// The value of `clip_top`: the top bound moves down, never up.
    pub open spec fn spec_clip_top(self, top: i32) -> Clip {
        Clip { top: if self.top >= top { self.top } else { top }, ..self }
    }

    /// The value of `clip_bottom`: the bottom bound moves up, never down.
    pub open spec fn spec_clip_bottom(self, bottom: i32) -> Clip {
        Clip { bottom: if self.bottom <= bottom { self.bottom } else { bottom }, ..self }
    }

    /// The value of `clip`: all four bounds tightened at once.
    pub open spec fn spec_clip(self, left: i32, top: i32, right: i32, bottom: i32) -> Clip {
        self.spec_clip_left(left).spec_clip_top(top).spec_clip_right(right).spec_clip_bottom(
            bottom,
        )
    }

    /// Bound-wise containment: every bound of `inner` is at least as tight
    /// as the matching bound of `self`.
    pub open spec fn spec_contains(self, inner: Clip) -> bool {
        &&& self.left <= inner.left
        &&& inner.right <= self.right
        &&& self.top <= inner.top
        &&& inner.bottom <= self.bottom
    }

    /// Whether row `y` lies in the vertical range `[top, bottom)`.
    pub open spec fn spec_contains_row(self, y: int) -> bool {
        self.top <= y < self.bottom
    }

    /// Whether the clip is horizontally empty. Vertical emptiness is not
    /// part of this check: every drawing primitive intersects its clip with
    /// the active row strip first, which filters rows on its own.
    pub open spec fn spec_is_empty(self) -> bool {
        self.left >= self.right
    }

    pub fn left(&self) -> (r: i32)
        ensures
            r == self.left,
    {
        self.left
    }

    pub fn right(&self) -> (r: i32)
        ensures
            r == self.right,
    {
        self.right
    }

    pub fn top(&self) -> (r: i32)
        ensures
            r == self.top,
    {
        self.top
    }

    pub fn bottom(&self) -> (r: i32)
        ensures
            r == self.bottom,
    {
        self.bottom
    }

    pub fn clip_left(self, left: i32) -> (r: Clip)
        ensures
            r == self.spec_clip_left(left),
    {
        Clip { left: if self.left >= left { self.left } else { left }, ..self }
    }

    pub fn clip_right(self, right: i32) -> (r: Clip)
        ensures
            r == self.spec_clip_right(right),
    {
        Clip { right: if self.right <= right { self.right } else { right }, ..self }
    }

    pub fn clip_top(self, top: i32) -> (r: Clip)
        ensures
            r == self.spec_clip_top(top),
    {
        Clip { top: if self.top >= top { self.top } else { top }, ..self }
    }

    pub fn clip_bottom(self, bottom: i32) -> (r: Clip)
        ensures
            r == self.spec_clip_bottom(bottom),
    {
        Clip { bottom: if self.bottom <= bottom { self.bottom } else { bottom }, ..self }
    }

    /// Tighten all four bounds at once.
    pub fn clip(self, left: i32, top: i32, right: i32, bottom: i32) -> (r: Clip)
        ensures
            r == self.spec_clip(left, top, right, bottom),
    {
        self.clip_left(left).clip_top(top).clip_right(right).clip_bottom(bottom)
    }

    pub fn contains_row(self, row: i32) -> (r: bool)
        ensures
            r == self.spec_contains_row(row as int),
    {
        if row < self.top {
            false
        } else if row >= self.bottom {
            false
        } else {
            true
        }
    }

    pub fn is_empty(&self) -> (r: bool)
        ensures
            r == self.spec_is_empty(),
    {
        self.left >= self.right
    }
}

/// Clip narrowing is monotone: the intersection is contained in the original
/// clip and in the requested rectangle, and narrowing twice by the same
/// rectangle equals narrowing once.
pub proof fn lemma_clip_monotone(c: Clip, left: i32, top: i32, right: i32, bottom: i32)
    ensures
        c.spec_contains(c.spec_clip(left, top, right, bottom)),
        (Clip { left, top, right, bottom }).spec_contains(c.spec_clip(left, top, right, bottom)),
        c.spec_clip(left, top, right, bottom).spec_clip(left, top, right, bottom) == c.spec_clip(
            left,
            top,
            right,
            bottom,
        ),
{
}

/// Narrowing distributes over repetition with any second rectangle: a
/// narrowed clip is still contained in the original after further narrowing.
pub proof fn lemma_clip_narrowing_chain(
    c: Clip,
    l1: i32,
    t1: i32,
    r1: i32,
    b1: i32,
    l2: i32,
    t2: i32,
    r2: i32,
    b2: i32,
)
    ensures
        c.spec_contains(c.spec_clip(l1, t1, r1, b1).spec_clip(l2, t2, r2, b2)),
{
}

} // verus!
