//! Styled lines and texts, as the terminal library draws them.
//!
//! A `Span` is a piece of text with a `Style`, a `Line` is a row of spans, and
//! a `Text` is a column of lines. They are built here span by span and line
//! by line. A `Style` is only ever handed on: nothing here looks into one.

use vstd::prelude::*;
use ratatui::style::Style;
use ratatui::text::{Line, Span, Text};
use crate::fragments::{joined, Fragment};

verus! {

/// `ratatui::style::Style`, as a value that is handed on.
#[verifier::external_type_specification]
#[verifier::external_body]
pub struct ExStyle(ratatui::style::Style);

/// `ratatui::text::Span`: a piece of text with its style.
#[verifier::external_type_specification]
#[verifier::external_body]
pub struct ExSpan<'a>(ratatui::text::Span<'a>);

/// `ratatui::text::Line`: a row of spans.
#[verifier::external_type_specification]
#[verifier::external_body]
pub struct ExLine<'a>(ratatui::text::Line<'a>);

/// `ratatui::text::Text`: a column of lines.
#[verifier::external_type_specification]
#[verifier::external_body]
pub struct ExText<'a>(ratatui::text::Text<'a>);

/// The style that `Span::raw` gives to a span with `content`: the style of
/// text that was not styled.
pub uninterp spec fn raw_style(content: Seq<char>) -> Style;

/// What `span` holds: its content and its style.
pub uninterp spec fn span_parts(span: Span<'_>) -> (Seq<char>, Style);

/// The spans of `line`, in order, each as its content and its style.
pub uninterp spec fn line_contents(line: Line<'_>) -> Seq<(Seq<char>, Style)>;

/// The lines of `text`, in order, each as its spans.
pub uninterp spec fn text_contents(text: Text<'_>) -> Seq<Seq<(Seq<char>, Style)>>;

/// A fragment as a span: a highlighted one carries `highlight`, a plain one
/// the style of text that was not styled.
pub open spec fn styled_fragment(fragment: Fragment, highlight: Style) -> (Seq<char>, Style) {
    if fragment.highlighted {
        (fragment.text, highlight)
    } else {
        (fragment.text, raw_style(fragment.text))
    }
}

/// `fragments` as spans, in the same order.
pub open spec fn styled(fragments: Seq<Fragment>, highlight: Style) -> Seq<(Seq<char>, Style)> {
    Seq::new(fragments.len(), |i: int| styled_fragment(fragments[i], highlight))
}

/// The contents of `spans`, one after the other.
pub open spec fn spelled(spans: Seq<(Seq<char>, Style)>) -> Seq<char>
    decreases spans.len(),
{
    if spans.len() == 0 {
        Seq::empty()
    } else {
        spelled(spans.drop_last()) + spans.last().0
    }
}

/// Fragments as spans spell what the fragments spell, whatever the style.
pub proof fn lemma_styled_spells(fragments: Seq<Fragment>, highlight: Style)
    ensures
        spelled(styled(fragments, highlight)) == joined(fragments),
    decreases fragments.len(),
{
    if fragments.len() > 0 {
        lemma_styled_spells(fragments.drop_last(), highlight);
        assert(styled(fragments, highlight).drop_last() =~= styled(
            fragments.drop_last(),
            highlight,
        ));
    }
}

/// `Span::raw`: a span with the given content, not styled.
#[verifier::external_body]
pub(crate) fn raw_span<'a>(content: &'a str) -> (span: Span<'a>)
    ensures
        span_parts(span) == (content@, raw_style(content@)),
{
    Span::raw(content)
}

/// `Span::style`: the span with its style replaced by `style`, and its
/// content as it was.
#[verifier::external_body]
pub(crate) fn with_style<'a>(span: Span<'a>, style: Style) -> (restyled: Span<'a>)
    ensures
        span_parts(restyled) == (span_parts(span).0, style),
{
    span.style(style)
}

/// `Line::default`: a line without spans.
#[verifier::external_body]
pub(crate) fn empty_line<'a>() -> (line: Line<'a>)
    ensures
        line_contents(line) == Seq::<(Seq<char>, Style)>::empty(),
{
    Line::default()
}

/// `Line::push_span`: the span is added at the end of the line, and the
/// spans before it stay.
#[verifier::external_body]
pub(crate) fn push_span<'a>(line: &mut Line<'a>, span: Span<'a>)
    ensures
        line_contents(*final(line)) == line_contents(*old(line)).push(span_parts(span)),
{
    line.push_span(span)
}

/// `Text::default`: a text without lines.
#[verifier::external_body]
pub(crate) fn empty_text<'a>() -> (text: Text<'a>)
    ensures
        text_contents(text) == Seq::<Seq<(Seq<char>, Style)>>::empty(),
{
    Text::default()
}

/// `Text::push_line`: the line is added at the end of the text, and the
/// lines before it stay.
#[verifier::external_body]
pub(crate) fn push_line<'a>(text: &mut Text<'a>, line: Line<'a>)
    ensures
        text_contents(*final(text)) == text_contents(*old(text)).push(line_contents(line)),
{
    text.push_line(line)
}

} // verus!
