//! Byte ranges into the source text.
//!
//! Every AST node carries a `Span` giving its position in the input as a
//! half-open byte range `[start, end)`.

use vstd::prelude::*;

verus! {

/// A half-open byte range `[start, end)` in the source text.
#[derive(Debug, Clone, Copy, PartialEq, Eq, Structural)]
pub struct Span {
    /// Starting byte offset (inclusive).
    pub start: u32,
    /// Ending byte offset (exclusive).
    pub end: u32,
}

impl Span {
    /// Create a new span from byte offsets.
    pub fn new(start: u32, end: u32) -> (s: Self)
        ensures
            s.start == start,
            s.end == end,
    {
        Span { start, end }
    }

    /// The length of this span in bytes; zero when `start >= end`.
    pub fn len(&self) -> (n: u32)
        ensures
            n == if self.start <= self.end { self.end - self.start } else { 0 },
    {
        if self.start <= self.end {
            self.end - self.start
        } else {
            0
        }
    }

    /// Whether this span covers no bytes.
    pub fn is_empty(&self) -> (r: bool)
        ensures
            r == (self.start >= self.end),
    {
        self.start >= self.end
    }

    /// Whether this span contains the given byte offset.
    pub fn contains(&self, offset: u32) -> (r: bool)
        ensures
            r == (self.start <= offset && offset < self.end),
    {
        offset >= self.start && offset < self.end
    }

    /// Merge two spans into the smallest span covering both.
    pub fn merge(self, other: Span) -> (m: Span)
        ensures
            m.start == if self.start <= other.start { self.start } else { other.start },
            m.end == if self.end >= other.end { self.end } else { other.end },
    {
        Span {
            start: if self.start <= other.start { self.start } else { other.start },
            end: if self.end >= other.end { self.end } else { other.end },
        }
    }
}

} // verus!

