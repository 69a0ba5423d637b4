//! Highlighting: from a line or a text and a pattern to styled spans.

use vstd::prelude::*;
use ratatui::style::Style;
use ratatui::text::{Line, Text};
use crate::fragments::{
    end_of, lemma_fit_earlier, lemma_fragments_cover, lemma_matched_push, lemma_no_match,
    line_fragments, matched_fragments, ranges_fit,
};
use crate::lines::{lemma_line_count, lines_of, newline_count, split_lines};
use crate::pattern::{compiles, regex_matches, IntoRegexRef, Pattern, PatternError};
use crate::slices::{lemma_ends_are_boundaries, slice};
use crate::styled::{
    empty_line, empty_text, lemma_styled_spells, line_contents, push_line, push_span, raw_span,
    raw_style, spelled, styled, text_contents, with_style,
};

verus! {

/// The spans of the line `line` when `pattern` is looked for in it: what the
/// pattern matches carries `highlight`, the rest is not styled.
pub open spec fn highlighted_line(line: Seq<char>, pattern: Seq<char>, highlight: Style) -> Seq<
    (Seq<char>, Style),
> {
    styled(line_fragments(line, regex_matches(pattern, line)), highlight)
}

/// The lines of `text`, each with its spans, when `pattern` is looked for in
/// each line.
pub open spec fn highlighted_text(text: Seq<char>, pattern: Seq<char>, highlight: Style) -> Seq<
    Seq<(Seq<char>, Style)>,
> {
    Seq::new(lines_of(text).len(), |k: int| highlighted_line(lines_of(text)[k], pattern, highlight))
}

/// The spans of a line in which nothing was found: the line as one span that
/// is not styled, or no span where the line is empty.
pub open spec fn unmatched_line(line: Seq<char>) -> Seq<(Seq<char>, Style)> {
    if line.len() == 0 {
        Seq::empty()
    } else {
        seq![(line, raw_style(line))]
    }
}

/// A line in which the pattern has no match comes back as it is, not styled.
pub proof fn lemma_unmatched_line(line: Seq<char>, pattern: Seq<char>, highlight: Style)
    requires
        regex_matches(pattern, line).len() == 0,
    ensures
        highlighted_line(line, pattern, highlight) == unmatched_line(line),
{
    lemma_no_match(line);
}

/// Highlighting looks at a pattern through its source alone. A pattern that
/// was compiled once gives, each time it is used, what a pattern compiled
/// afresh from the same source gives.
pub proof fn lemma_pattern_reuse(kept: Pattern, fresh: Pattern, text: Seq<char>, highlight: Style)
    requires
        kept@ == fresh@,
    ensures
        highlighted_line(text, kept@, highlight) == highlighted_line(text, fresh@, highlight),
        highlighted_text(text, kept@, highlight) == highlighted_text(text, fresh@, highlight),
{
}

/// The styled line for `line` when `ranges` are the matches in it: each
/// match is a span in `highlight`, and what lies before, between and after
/// the matches makes the spans that are not styled.
///
/// The ranges must fit the line; [`ranges_fit_in`](crate::fragments::ranges_fit_in)
/// tells whether they do, and the ranges that a pattern finds always do.
pub fn highlight_ranges<'a>(
    line: &'a str,
    ranges: &[(usize, usize)],
    highlight: Style,
) -> (styled_line: Line<'a>)
    requires
        ranges_fit(line@, ranges@),
    ensures
        line_contents(styled_line) == styled(line_fragments(line@, ranges@), highlight),
        spelled(line_contents(styled_line)) == line@,
{
    let mut styled_line: Line<'a> = empty_line();
    let mut cursor: usize = 0;
    let mut done: usize = 0;
    proof {
        lemma_ends_are_boundaries(line@);
    }
    while done < ranges.len()
        invariant
            done <= ranges@.len(),
            ranges_fit(line@, ranges@),
            cursor == end_of(ranges@.take(done as int)),
            line_contents(styled_line) == styled(
                matched_fragments(line@, ranges@.take(done as int)),
                highlight,
            ),
        decreases ranges@.len() - done,
    {
        let start: usize = ranges[done].0;
        let end: usize = ranges[done].1;
        let ghost earlier = ranges@.take(done as int);
        proof {
            lemma_fit_earlier(line@, ranges@, done as int);
            lemma_matched_push(line@, earlier, ranges@[done as int]);
            assert(ranges@.take(done + 1) =~= earlier.push(ranges@[done as int]));
        }
        if start > cursor {
            push_span(&mut styled_line, raw_span(slice(line, cursor, start)));
        }
        push_span(&mut styled_line, with_style(raw_span(slice(line, start, end)), highlight));
        cursor = end;
        done = done + 1;
    }
    proof {
        lemma_fit_earlier(line@, ranges@, ranges@.len() as int);
        lemma_ends_are_boundaries(line@);
    }
    let length: usize = line.as_bytes().len();
    if length > cursor {
        push_span(&mut styled_line, raw_span(slice(line, cursor, length)));
    }
    proof {
        lemma_styled_spells(line_fragments(line@, ranges@), highlight);
        lemma_fragments_cover(line@, ranges@);
    }
    styled_line
}

impl Pattern {
    /// The styled line for `line`: what the pattern matches in `highlight`,
    /// the rest not styled. The matches fit the line, the spans spell the
    /// line, and a line without a match is one span.
    pub fn highlight_line<'a>(&self, line: &'a str, highlight: Style) -> (styled_line: Line<'a>)
        ensures
            line_contents(styled_line) == highlighted_line(line@, self@, highlight),
            ranges_fit(line@, regex_matches(self@, line@)),
            spelled(line_contents(styled_line)) == line@,
            regex_matches(self@, line@).len() == 0 ==> line_contents(styled_line)
                == unmatched_line(line@),
    {
        let ranges = self.matches(line);
        proof {
            if ranges@.len() == 0 {
                lemma_unmatched_line(line@, self@, highlight);
            }
        }
        highlight_ranges(line, ranges.as_slice(), highlight)
    }

    /// The styled text for `text`, line by line, with this one pattern for
    /// all its lines. There is one styled line for each line of the text, in
    /// the same order, and each spells its line.
    pub fn highlight_text<'a>(&self, text: &'a str, highlight: Style) -> (styled_text: Text<'a>)
        ensures
            text_contents(styled_text) == highlighted_text(text@, self@, highlight),
            text_contents(styled_text).len() == newline_count(text@) + 1,
            forall|k: int|
                0 <= k < lines_of(text@).len() ==> spelled(
                    #[trigger] text_contents(styled_text)[k],
                ) == lines_of(text@)[k],
            forall|k: int|
                0 <= k < lines_of(text@).len() ==> ranges_fit(
                    #[trigger] lines_of(text@)[k],
                    regex_matches(self@, lines_of(text@)[k]),
                ),
    {
        let lines = split_lines(text);
        let mut styled_text: Text<'a> = empty_text();
        let mut done: usize = 0;
        while done < lines.len()
            invariant
                done <= lines@.len(),
                lines@.len() == lines_of(text@).len(),
                forall|k: int|
                    0 <= k < lines@.len() ==> (#[trigger] lines@[k])@ == lines_of(text@)[k],
                text_contents(styled_text) == highlighted_text(text@, self@, highlight).take(
                    done as int,
                ),
                forall|k: int|
                    0 <= k < done ==> spelled(#[trigger] text_contents(styled_text)[k])
                        == lines_of(text@)[k],
                forall|k: int|
                    0 <= k < done ==> ranges_fit(
                        #[trigger] lines_of(text@)[k],
                        regex_matches(self@, lines_of(text@)[k]),
                    ),
            decreases lines@.len() - done,
        {
            let styled_line = self.highlight_line(lines[done], highlight);
            push_line(&mut styled_text, styled_line);
            done = done + 1;
        }
        proof {
            lemma_line_count(text@);
        }
        styled_text
    }
}

/// Highlights in `line` what `pattern` matches: the matches carry
/// `highlight_style`, the rest of the line is not styled, and the spans spell
/// the line. A pattern handed over as text is compiled first, and
/// `InvalidPattern` comes back exactly where the text cannot be compiled,
/// whatever the line; a compiled pattern cannot fail.
pub fn highlight_line<'a, T: IntoRegexRef>(
    line: &'a str,
    pattern: T,
    highlight_style: Style,
) -> (made: Result<Line<'a>, PatternError>)
    ensures
        made is Ok <==> pattern.is_compiled() || compiles(pattern.source()),
        made matches Ok(styled_line) ==> line_contents(styled_line) == highlighted_line(
            line@,
            pattern.source(),
            highlight_style,
        ),
        made matches Ok(styled_line) ==> ranges_fit(
            line@,
            regex_matches(pattern.source(), line@),
        ),
        made matches Ok(styled_line) ==> spelled(line_contents(styled_line)) == line@,
        made matches Err(error) ==> error == PatternError::InvalidPattern,
{
    match pattern.into_regex_ref().resolve() {
        Ok(compiled) => Ok(compiled.highlight_line(line, highlight_style)),
        Err(error) => Err(error),
    }
}

/// Highlights in each line of `text` what `pattern` matches. The text is
/// split at its newlines, so there is one styled line more than the text has
/// newlines, and each styled line spells its line. The pattern is compiled
/// once, before any line is looked at, and `InvalidPattern` comes back
/// exactly where the text cannot be compiled, whatever the text; a compiled
/// pattern cannot fail.
pub fn highlight_text<'a, T: IntoRegexRef>(
    text: &'a str,
    pattern: T,
    highlight_style: Style,
) -> (made: Result<Text<'a>, PatternError>)
    ensures
        made is Ok <==> pattern.is_compiled() || compiles(pattern.source()),
        made matches Ok(styled_text) ==> text_contents(styled_text) == highlighted_text(
            text@,
            pattern.source(),
            highlight_style,
        ),
        made matches Ok(styled_text) ==> text_contents(styled_text).len() == newline_count(text@)
            + 1,
        made matches Ok(styled_text) ==> forall|k: int|
            0 <= k < lines_of(text@).len() ==> spelled(#[trigger] text_contents(styled_text)[k])
                == lines_of(text@)[k],
        made matches Ok(styled_text) ==> forall|k: int|
            0 <= k < lines_of(text@).len() ==> ranges_fit(
                #[trigger] lines_of(text@)[k],
                regex_matches(pattern.source(), lines_of(text@)[k]),
            ),
        made matches Err(error) ==> error == PatternError::InvalidPattern,
{
    match pattern.into_regex_ref().resolve() {
        Ok(compiled) => Ok(compiled.highlight_text(text, highlight_style)),
        Err(error) => Err(error),
    }
}

} // verus!
