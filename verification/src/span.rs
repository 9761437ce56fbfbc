//! Source positions: byte spans and the lines they touch.

use vstd::prelude::*;

verus! {

/// A stretch of source text: the file it lies in and its byte offsets there.
#[derive(Copy, Clone, PartialEq, Eq, Debug, Structural)]
pub struct Span {
    /// The number of the file.
    pub file: u32,
    /// The offset of the first byte.
    pub lo: u32,
    /// The offset behind the last byte.
    pub hi: u32,
}

/// The lines that a span touches, from the lowest to the highest.
#[derive(Copy, Clone, PartialEq, Eq, Debug, Structural)]
pub struct LineRange {
    /// The number of the lowest line.
    pub first: usize,
    /// The number of the highest line.
    pub last: usize,
}

/// A span as unbounded numbers.
pub struct SpanView {
    pub file: int,
    pub lo: int,
    pub hi: int,
}

/// A line range as unbounded numbers.
pub struct LineRangeView {
    pub first: int,
    pub last: int,
}

impl View for Span {
    type V = SpanView;

    open spec fn view(&self) -> SpanView {
        SpanView { file: self.file as int, lo: self.lo as int, hi: self.hi as int }
    }
}

impl View for LineRange {
    type V = LineRangeView;

    open spec fn view(&self) -> LineRangeView {
        LineRangeView { first: self.first as int, last: self.last as int }
    }
}

impl SpanView {
    /// Whether `self` starts before `other`: files first, then start offsets.
    pub open spec fn starts_before(self, other: SpanView) -> bool {
        self.file < other.file || (self.file == other.file && self.lo < other.lo)
    }

    /// The smallest span of `self`'s file that covers the offsets of both.
    pub open spec fn union(self, other: SpanView) -> SpanView {
        SpanView {
            file: self.file,
            lo: if self.lo <= other.lo { self.lo } else { other.lo },
            hi: if self.hi >= other.hi { self.hi } else { other.hi },
        }
    }
}

impl LineRangeView {
    /// Whether the range reaches from the lowest to the highest of the given
    /// line numbers, of which there is at least one.
    pub open spec fn bounds(self, lines: Seq<usize>) -> bool {
        &&& exists|i: int| 0 <= i < lines.len() && lines[i] == self.first
        &&& exists|i: int| 0 <= i < lines.len() && lines[i] == self.last
        &&& forall|i: int|
            0 <= i < lines.len() ==> self.first <= #[trigger] lines[i] && lines[i] <= self.last
    }

    /// Whether no blank line can lie between `self` and a `next` range:
    /// `next` begins at most one line below the last line of `self`.
    pub open spec fn adjacent_to(self, next: LineRangeView) -> bool {
        self.last + 1 >= next.first
    }
}

impl LineRange {
    /// The range of the given line numbers, from the lowest to the highest
    /// of them; `None` where there is no line number.
    pub fn of_lines(lines: &[usize]) -> (range: Option<LineRange>)
        ensures
            match range {
                None => lines@.len() == 0,
                Some(range) => range@.bounds(lines@),
            },
    {
        let n = lines.len();
        if n == 0 {
            return None;
        }
        let mut first = lines[0];
        let mut last = lines[0];
        let ghost mut at_first: int = 0;
        let ghost mut at_last: int = 0;
        let mut i: usize = 1;
        while i < n
            invariant
                n == lines@.len(),
                1 <= i <= n,
                0 <= at_first < i && lines@[at_first] == first,
                0 <= at_last < i && lines@[at_last] == last,
                forall|k: int| 0 <= k < i ==> first <= #[trigger] lines@[k] && lines@[k] <= last,
            decreases n - i,
        {
            if lines[i] < first {
                first = lines[i];
                proof {
                    at_first = i as int;
                }
            }
            if lines[i] > last {
                last = lines[i];
                proof {
                    at_last = i as int;
                }
            }
            i += 1;
        }
        Some(LineRange { first, last })
    }
}

impl Span {
    /// Whether this span starts before `other`.
    pub fn starts_before(&self, other: &Span) -> (before: bool)
        ensures
            before == self@.starts_before(other@),
    {
        self.file < other.file || (self.file == other.file && self.lo < other.lo)
    }
}

/// Joins two spans into the one that reaches from the lower start to the
/// higher end. The result lies in the file of `span1`.
pub fn merge_span(span1: Span, span2: Span) -> (merged: Span)
    ensures
        merged@ == span1@.union(span2@),
{
    Span {
        file: span1.file,
        lo: if span1.lo <= span2.lo { span1.lo } else { span2.lo },
        hi: if span1.hi >= span2.hi { span1.hi } else { span2.hi },
    }
}

/// Whether `lines2` follows `lines1` with no blank line between them.
pub fn is_adjacent(lines1: &LineRange, lines2: &LineRange) -> (adjacent: bool)
    ensures
        adjacent == lines1@.adjacent_to(lines2@),
{
    lines2.first <= lines1.last || lines2.first - lines1.last <= 1
}

} // verus!
