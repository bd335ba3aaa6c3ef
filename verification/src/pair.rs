//! Values that come once for each side of a diff.

use vstd::prelude::*;

verus! {

/// One value for the left side (side 0) and one for the right (any other side).
#[derive(Clone, Copy, Debug)]
pub struct Pair<T> {
    pub left: T,
    pub right: T,
}

impl<T> Pair<T> {
    /// The value of side `i`.
    pub open spec fn side(self, i: int) -> T {
        if i == 0 {
            self.left
        } else {
            self.right
        }
    }

    /// Side `i`: the left one for 0, the right one otherwise.
    pub fn index(&self, i: usize) -> (r: &T)
        ensures
            *r == self.side(i as int),
    {
        if i == 0 {
            &self.left
        } else {
            &self.right
        }
    }

    /// Side `i`, to be changed.
    pub fn index_mut(&mut self, i: usize) -> (r: &mut T)
        ensures
            *r == old(self).side(i as int),
            i == 0 ==> final(self).left == *final(r) && final(self).right == old(self).right,
            i != 0 ==> final(self).right == *final(r) && final(self).left == old(self).left,
    {
        if i == 0 {
            &mut self.left
        } else {
            &mut self.right
        }
    }
}

/// A half-open range `start..end` of indices.
#[derive(Clone, Copy, Debug, PartialEq, Eq, Structural)]
pub struct Span {
    pub start: usize,
    pub end: usize,
}

impl Span {
    /// The number of indices in the range; zero where `end` is not above `start`.
    pub open spec fn spec_len(self) -> int {
        if self.start <= self.end {
            self.end - self.start
        } else {
            0
        }
    }

    /// The range from `start` up to `end`.
    pub fn new(start: usize, end: usize) -> (r: Span)
        ensures
            r.start == start,
            r.end == end,
    {
        Span { start, end }
    }

    /// The number of positions in the range.
    pub fn len(&self) -> (r: usize)
        ensures
            r == self.spec_len(),
    {
        if self.start <= self.end {
            self.end - self.start
        } else {
            0
        }
    }

    /// Whether the range holds no position.
    pub fn is_empty(&self) -> (r: bool)
        ensures
            r == (self.spec_len() == 0),
    {
        self.start >= self.end
    }
}

} // verus!
