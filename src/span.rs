use vstd::prelude::*;

verus! {

/// A half-open byte range `[start, end)` over a document's text.
#[derive(Clone, Copy, Debug, PartialEq, Eq, Structural, Hash)]
pub struct Span {
    pub start: usize,
    pub end: usize,
}

impl Span {
    /// The range is not reversed.
    pub open spec fn wf(self) -> bool {
        self.start <= self.end
    }

    /// The cursor position `offset` touches the range (either end included).
    pub open spec fn touches(self, offset: int) -> bool {
        self.start <= offset && offset <= self.end
    }

    /// Build the range `[start, end)`.
    pub fn new(start: usize, end: usize) -> (r: Span)
        requires
            start <= end,
        ensures
            r.start == start,
            r.end == end,
            r.wf(),
    {
        Span { start, end }
    }

    /// Number of bytes in the range.
    pub fn len(&self) -> (r: usize)
        requires
            self.wf(),
        ensures
            r == self.end - self.start,
    {
        self.end - self.start
    }
}

} // verus!
