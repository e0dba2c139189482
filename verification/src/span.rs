//! Byte spans into the original source text, and the covering operation used
//! to build the span of a composite syntax node from the spans of its parts.

use vstd::prelude::*;

verus! {

/// A contiguous byte range `[offset, offset + len)` in the original source
/// text.  Spans are plain immutable values: nothing in them refers back into
/// the source buffer.
#[derive(Clone, Copy, Debug, PartialEq, Eq, Structural)]
pub struct Span {
    pub offset: usize,
    pub len: usize,
}

/// One past the last byte of the span.
pub open spec fn span_end(s: Span) -> int {
    s.offset + s.len
}

/// A span is valid when its end does not exceed the machine's address range;
/// every span produced by the tokenizer satisfies this.
pub open spec fn span_valid(s: Span) -> bool {
    span_end(s) <= usize::MAX
}

/// The smallest span containing both arguments, regardless of their order.
pub open spec fn spec_covering(a: Span, b: Span) -> Span {
    let begin = if a.offset <= b.offset {
        a.offset
    } else {
        b.offset
    };
    let finish = if span_end(a) >= span_end(b) {
        span_end(a)
    } else {
        span_end(b)
    };
    Span { offset: begin, len: (finish - begin) as usize }
}

/// Build a span from a byte offset and a byte length.
pub fn span(start: usize, len: usize) -> (r: Span)
    ensures
        r == (Span { offset: start, len }),
{
    Span { offset: start, len }
}

/// The minimal span covering both arguments: it works even when `end` starts
/// before `start`.
pub fn covering(start: &Span, end: &Span) -> (r: Span)
    requires
        span_valid(*start),
        span_valid(*end),
    ensures
        r == spec_covering(*start, *end),
        span_valid(r),
        r.offset <= start.offset,
        r.offset <= end.offset,
        span_end(r) >= span_end(*start),
        span_end(r) >= span_end(*end),
{
    let begin = if start.offset <= end.offset {
        start.offset
    } else {
        end.offset
    };
    let start_end = start.offset + start.len;
    let end_end = end.offset + end.len;
    let finish = if start_end >= end_end {
        start_end
    } else {
        end_end
    };
    Span { offset: begin, len: finish - begin }
}

} // verus!
