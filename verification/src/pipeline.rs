//! Text output pipeline: spans in reading order, and the converters that render them.
use crate::layout::TextSpan;
use vstd::prelude::*;

pub mod converters;

verus! {

/// A text span with its position in reading order.
#[derive(Debug, Clone)]
pub struct OrderedTextSpan {
    /// The span.
    pub span: TextSpan,
    /// Its place in reading order; spans are rendered by ascending value.
    pub reading_order: usize,
}

impl OrderedTextSpan {
    /// A span placed at `reading_order`.
    pub fn new(span: TextSpan, reading_order: usize) -> (s: OrderedTextSpan)
        ensures
            s.span == span,
            s.reading_order == reading_order,
    {
        OrderedTextSpan { span, reading_order }
    }
}

} // verus!
