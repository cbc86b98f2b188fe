//! The Markdown event stream, as produced by pulldown-cmark.

use pulldown_cmark::{Event, Parser};
use std::ops::Range;
use vstd::prelude::*;

verus! {

#[verifier::external_type_specification]
#[verifier::external_body]
pub struct ExEvent<'a>(Event<'a>);

/// The byte ranges of a token sequence, as pairs of offsets.
pub open spec fn spans_of<'a>(tokens: Seq<(Event<'a>, Range<usize>)>) -> Seq<(usize, usize)> {
    tokens.map_values(|t: (Event<'a>, Range<usize>)| (t.1.start, t.1.end))
}

/// The byte range of each event that pulldown-cmark reports for a document.
pub uninterp spec fn markdown_spans(text: Seq<char>) -> Seq<(usize, usize)>;

/// The events that pulldown-cmark reports for a document, in order.
pub uninterp spec fn markdown_events(text: Seq<char>) -> Seq<Event<'static>>;

/// Relies on `pulldown_cmark::Parser::new` and `Parser::into_offset_iter`: the
/// events of `content` in document order, each with its byte range; both
/// depend on the text alone.
#[verifier::external_body]
pub(crate) fn offset_events<'a>(content: &'a str) -> (r: Vec<(Event<'a>, Range<usize>)>)
    ensures
        spans_of(r@) == markdown_spans(content@),
        r@.len() == markdown_events(content@).len(),
        forall|k: int| 0 <= k < r@.len() ==> #[trigger] r@[k].0 == markdown_events(content@)[k],
{
    Parser::new(content).into_offset_iter().collect()
}

} // verus!
