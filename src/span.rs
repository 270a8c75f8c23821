//! Positions in source text, shared by comments and syntax nodes.
use proc_macro2::Span;
use vstd::prelude::*;

verus! {

#[verifier::external_type_specification]
#[verifier::external_body]
pub struct ExSpan(Span);

/// A range of source text.
///
/// Lines count from 1 and columns from 0. The byte offsets are kept for the
/// format's sake; they are zero wherever the position source cannot supply
/// them.
#[derive(Debug, Clone, Copy, PartialEq, Eq)]
pub struct SpanInfo {
    /// Byte offset of the start of the span (zero when unknown).
    pub start_offset: usize,
    /// Byte offset of the end of the span (zero when unknown).
    pub end_offset: usize,
    /// Line of the start of the span, counted from 1.
    pub start_line: usize,
    /// Column of the start of the span, counted from 0.
    pub start_column: usize,
    /// Line of the end of the span, counted from 1.
    pub end_line: usize,
    /// Column of the end of the span, counted from 0.
    pub end_column: usize,
}

impl SpanInfo {
    /// Whether the span ends no earlier than it starts, comparing by line and
    /// then by column.
    pub open spec fn well_formed(self) -> bool {
        self.start_line < self.end_line || (self.start_line == self.end_line
            && self.start_column <= self.end_column)
    }

    /// Builds a span from the start and end positions of a parsed construct,
    /// given as start line, start column, end line and end column. Where no
    /// position is known, the span is line 1, column 0 at both ends. The byte
    /// offsets are zero.
    pub fn from_positions(p: Option<(usize, usize, usize, usize)>) -> (r: SpanInfo)
        ensures
            r.start_offset == 0,
            r.end_offset == 0,
            p is None ==> r.start_line == 1 && r.start_column == 0 && r.end_line == 1
                && r.end_column == 0,
            p is Some ==> p == Some((r.start_line, r.start_column, r.end_line, r.end_column)),
    {
        match p {
            Some((start_line, start_column, end_line, end_column)) => SpanInfo {
                start_offset: 0,
                end_offset: 0,
                start_line,
                start_column,
                end_line,
                end_column,
            },
            None => SpanInfo {
                start_offset: 0,
                end_offset: 0,
                start_line: 1,
                start_column: 0,
                end_line: 1,
                end_column: 0,
            },
        }
    }

    /// A span of proc_macro2 for this position.
    ///
    /// proc_macro2 makes no span at a chosen position, so this is always the
    /// call-site span; the position stays available in `self`.
    pub fn to_span(&self) -> Span {
        call_site_span()
    }

    /// The span used where no position is known: line 1, column 0 at both
    /// ends, with zero offsets.
    pub fn call_site() -> (r: SpanInfo)
        ensures
            r.start_offset == 0,
            r.end_offset == 0,
            r.start_line == 1,
            r.start_column == 0,
            r.end_line == 1,
            r.end_column == 0,
    {
        SpanInfo::from_positions(None)
    }

    /// Whether the span starts and ends at the same position.
    pub fn is_point(&self) -> (r: bool)
        ensures
            r == (self.start_line == self.end_line && self.start_column == self.end_column),
    {
        self.start_line == self.end_line && self.start_column == self.end_column
    }

    /// The number of columns that a span on a single line covers: `None` for
    /// a span over several lines, zero where the end column precedes the
    /// start column.
    pub fn column_length(&self) -> (r: Option<usize>)
        ensures
            self.start_line == self.end_line ==> r == Some(
                (if self.end_column >= self.start_column {
                    self.end_column - self.start_column
                } else {
                    0
                }) as usize,
            ),
            self.start_line != self.end_line ==> r is None,
    {
        if self.start_line == self.end_line {
            if self.end_column >= self.start_column {
                Some(self.end_column - self.start_column)
            } else {
                Some(0)
            }
        } else {
            None
        }
    }
}

impl Default for SpanInfo {
    /// The span used where no position is known, as [`SpanInfo::call_site`]
    /// gives it.
    fn default() -> (r: SpanInfo)
        ensures
            r.start_offset == 0,
            r.end_offset == 0,
            r.start_line == 1,
            r.start_column == 0,
            r.end_line == 1,
            r.end_column == 0,
    {
        SpanInfo::call_site()
    }
}

/// Relies on proc_macro2::Span::call_site: the span of the current call site.
#[verifier::external_body]
fn call_site_span() -> Span {
    Span::call_site()
}

} // verus!
