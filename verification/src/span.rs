//! Half-open byte-offset ranges into a source buffer.

use vstd::prelude::*;

verus! {

/// A half-open range `[start, end)` of byte offsets into the original
/// source text.
#[derive(Debug, Clone, Copy, PartialEq, Eq, Structural)]
pub struct Span {
    /// Byte offset of the first byte covered by the span.
    pub start: u32,
    /// Byte offset one past the last byte covered by the span.
    pub end: u32,
}

impl Span {
    /// A span covering the bytes `[start, end)`.
    pub fn new(start: u32, end: u32) -> (s: Self)
        ensures
            s.start == start,
            s.end == end,
    {
        Span { start, end }
    }

    /// A zero-length span positioned at `at`.
    pub fn empty(at: u32) -> (s: Self)
        ensures
            s.start == at,
            s.end == at,
    {
        Span { start: at, end: at }
    }

    /// Whether the span is a well-formed range.
    pub open spec fn wf(self) -> bool {
        self.start <= self.end
    }

    /// The number of bytes the span covers.
    pub open spec fn spec_len(self) -> int {
        self.end - self.start
    }
}

} // verus!
