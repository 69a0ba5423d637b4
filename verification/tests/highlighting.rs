use ratatui::style::{Color, Style};
use ratatui::text::{Line, Span, Text};
use tui_pattern_highlighter::{
    ranges_fit_in, highlight_line, highlight_ranges, highlight_text, IntoRegexRef, Pattern,
    PatternError, RegexRef,
};

const STYLE: Style = Style::new().bg(Color::Blue);
const TEXT: &str =
    "Hello @Henry. Why are you named @nobody\nBecause yes, and you @John. Btw Where @Bill is ?";

fn texts(line: &Line) -> Vec<String> {
    line.spans.iter().map(|span| span.content.to_string()).collect()
}

#[test]
fn highlighting_line_test() {
    let returned_line = highlight_line(&TEXT[0..39], r"@\w+", STYLE).unwrap();

    let regex = Pattern::compile(r"@\w+").unwrap();
    let returned_line_reg = highlight_line(&TEXT[0..39], &regex, STYLE).unwrap();

    let line = Line::from(vec![
        Span::from("Hello "),
        Span::from("@Henry").style(STYLE),
        Span::from(". Why are you named "),
        Span::from("@nobody").style(STYLE),
    ]);

    assert_eq!(returned_line, line);
    assert_eq!(returned_line_reg, line);
}

#[test]
fn highlighting_text_test() {
    let returned_text = highlight_text(TEXT, r"@\w+", STYLE).unwrap();

    let regex = Pattern::compile(r"@\w+").unwrap();
    let returned_text_reg = highlight_text(TEXT, &regex, STYLE).unwrap();

    let text = Text::from(vec![
        Line::from(vec![
            Span::from("Hello "),
            Span::from("@Henry").style(STYLE),
            Span::from(". Why are you named "),
            Span::from("@nobody").style(STYLE),
        ]),
        Line::from(vec![
            Span::from("Because yes, and you "),
            Span::from("@John").style(STYLE),
            Span::from(". Btw Where "),
            Span::from("@Bill").style(STYLE),
            Span::from(" is ?"),
        ]),
    ]);

    assert_eq!(returned_text, text);
    assert_eq!(returned_text_reg, text);
}

#[test]
fn mention_at_the_end_of_a_line() {
    let line = highlight_line("Hi @buddy", r"@\w+", STYLE).unwrap();
    let expected = Line::from(vec![Span::from("Hi "), Span::from("@buddy").style(STYLE)]);
    assert_eq!(line, expected);
}

#[test]
fn line_without_a_match_is_one_plain_span() {
    let line = highlight_line("no mentions here", r"@\w+", STYLE).unwrap();
    assert_eq!(line, Line::from(vec![Span::from("no mentions here")]));
    assert_eq!(line.spans[0].style, Style::default());
}

#[test]
fn two_lines_with_mentions() {
    let text = highlight_text("Hi @buddy\n@stranger hello", r"@\w+", STYLE).unwrap();
    let expected = Text::from(vec![
        Line::from(vec![Span::from("Hi "), Span::from("@buddy").style(STYLE)]),
        Line::from(vec![Span::from("@stranger").style(STYLE), Span::from(" hello")]),
    ]);
    assert_eq!(text, expected);
}

#[test]
fn adjacent_matches_have_nothing_between_them() {
    let line = highlight_line("@a@b", r"@\w", STYLE).unwrap();
    let expected =
        Line::from(vec![Span::from("@a").style(STYLE), Span::from("@b").style(STYLE)]);
    assert_eq!(line, expected);
    assert_eq!(line.spans.len(), 2);
}

#[test]
fn empty_line_has_no_span() {
    let line = highlight_line("", r"@\w+", STYLE).unwrap();
    assert!(line.spans.is_empty());
    assert_eq!(line, Line::default());
}

#[test]
fn spans_spell_the_line() {
    let lines = [
        "Hello @Henry. Why are you named @nobody",
        "@a@b",
        "@",
        "",
        "plain",
        "x @y z @w",
        "caf\u{e9} @zo\u{eb} \u{1f600} @\u{4e16}\u{754c}!",
    ];
    for source in lines {
        let line = highlight_line(source, r"@\w+", STYLE).unwrap();
        assert_eq!(texts(&line).concat(), source);
    }
}

#[test]
fn matches_are_highlighted_and_the_rest_is_not() {
    let pattern = Pattern::compile(r"@\w+").unwrap();
    let source = "x @y z @w";
    let line = highlight_line(source, &pattern, STYLE).unwrap();
    let found: Vec<String> =
        pattern.matches(source).iter().map(|&(from, to)| source[from..to].to_string()).collect();
    let highlighted: Vec<String> = line
        .spans
        .iter()
        .filter(|span| span.style == STYLE)
        .map(|span| span.content.to_string())
        .collect();
    assert_eq!(highlighted, found);
    assert_eq!(highlighted, vec!["@y", "@w"]);
    for span in &line.spans {
        assert!(span.style == STYLE || span.style == Style::default());
        if span.style != STYLE {
            assert!(!span.content.is_empty());
        }
    }
}

#[test]
fn anchored_match_and_equal_plain_text() {
    let line = highlight_line("aa", "^a", STYLE).unwrap();
    let expected = Line::from(vec![Span::from("a").style(STYLE), Span::from("a")]);
    assert_eq!(line, expected);
}

#[test]
fn whole_line_match() {
    let line = highlight_line("@all", r"@\w+", STYLE).unwrap();
    assert_eq!(line, Line::from(vec![Span::from("@all").style(STYLE)]));
}

#[test]
fn character_after_a_match_is_kept() {
    let line = highlight_line("@a.b", r"@\w", STYLE).unwrap();
    let expected = Line::from(vec![Span::from("@a").style(STYLE), Span::from(".b")]);
    assert_eq!(line, expected);
}

#[test]
fn empty_matches_make_empty_highlighted_spans() {
    let line = highlight_line("ab", "x*", STYLE).unwrap();
    let expected = Line::from(vec![
        Span::from("").style(STYLE),
        Span::from("a"),
        Span::from("").style(STYLE),
        Span::from("b"),
        Span::from("").style(STYLE),
    ]);
    assert_eq!(line, expected);
}

#[test]
fn offsets_count_bytes_not_characters() {
    let source = "\u{e9}t\u{e9} @\u{e9}t\u{e9} \u{1f600}";
    let pattern = Pattern::compile(r"@\w+").unwrap();
    assert_eq!(pattern.matches(source), vec![(6, 12)]);
    let line = highlight_line(source, &pattern, STYLE).unwrap();
    let expected = Line::from(vec![
        Span::from("\u{e9}t\u{e9} "),
        Span::from("@\u{e9}t\u{e9}").style(STYLE),
        Span::from(" \u{1f600}"),
    ]);
    assert_eq!(line, expected);
}

#[test]
fn given_ranges_are_cut_out() {
    let line = highlight_ranges("Hi @buddy, hi", &vec![(3, 9)], STYLE);
    let expected = Line::from(vec![
        Span::raw("Hi "),
        Span::styled("@buddy", STYLE),
        Span::raw(", hi"),
    ]);
    assert_eq!(line, expected);
}

#[test]
fn given_ranges_that_touch() {
    let line = highlight_ranges("abcd", &vec![(0, 1), (1, 3)], STYLE);
    let expected =
        Line::from(vec![Span::styled("a", STYLE), Span::styled("bc", STYLE), Span::raw("d")]);
    assert_eq!(line, expected);
}

#[test]
fn no_ranges_given() {
    assert_eq!(highlight_ranges("abc", &vec![], STYLE), Line::from(vec![Span::raw("abc")]));
    assert_eq!(highlight_ranges("", &vec![], STYLE), Line::default());
}

#[test]
fn empty_range_is_an_empty_highlighted_span() {
    let line = highlight_ranges("ab", &vec![(1, 1)], STYLE);
    let expected =
        Line::from(vec![Span::raw("a"), Span::styled("", STYLE), Span::raw("b")]);
    assert_eq!(line, expected);
}

#[test]
fn plain_spans_have_the_default_style() {
    let pattern = Pattern::compile(r"\d+").unwrap();
    let line = pattern.highlight_line("a1b22", STYLE);
    let expected = Line::from(vec![
        Span::styled("a", Style::default()),
        Span::styled("1", STYLE),
        Span::styled("b", Style::default()),
        Span::styled("22", STYLE),
    ]);
    assert_eq!(line, expected);
    assert_eq!(line.style, Style::default());
    assert_eq!(line.alignment, None);
}

#[test]
fn highlight_style_replaces_the_default_style() {
    let bold = Style::new().fg(Color::Red).bg(Color::Black);
    let line = highlight_line("x1", r"\d", bold).unwrap();
    assert_eq!(line.spans[1].style, bold);
    assert_eq!(line.spans[1].style.fg, Some(Color::Red));
    assert_eq!(line.spans[1].style.bg, Some(Color::Black));
    let plain = highlight_line("x1", r"\d", Style::default()).unwrap();
    assert_eq!(plain, Line::from(vec![Span::raw("x"), Span::raw("1")]));
}

#[test]
fn line_count_is_newline_count_plus_one() {
    let cases = ["", "a", "a\nb", "a\n", "\n", "\n\n", "a\n\nb", "a\nb\nc\n", "\u{e9}\n\u{1f600}"];
    for source in cases {
        let text = highlight_text(source, r"@\w+", STYLE).unwrap();
        let newlines = source.chars().filter(|&c| c == '\n').count();
        assert_eq!(text.lines.len(), newlines + 1, "{:?}", source);
    }
}

#[test]
fn empty_lines_are_kept() {
    let text = highlight_text("@a\n\n@b\n", r"@\w+", STYLE).unwrap();
    let expected = Text::from(vec![
        Line::from(vec![Span::from("@a").style(STYLE)]),
        Line::default(),
        Line::from(vec![Span::from("@b").style(STYLE)]),
        Line::default(),
    ]);
    assert_eq!(text, expected);
}

#[test]
fn empty_text_is_one_empty_line() {
    let text = highlight_text("", r"@\w+", STYLE).unwrap();
    assert_eq!(text, Text::from(vec![Line::default()]));
}

#[test]
fn text_lines_are_highlighted_like_single_lines() {
    let pattern = Pattern::compile(r"[A-Z]\w*").unwrap();
    let source = "One two\nthree Four\n\nfive";
    let text = pattern.highlight_text(source, STYLE);
    let expected: Vec<Line> =
        source.split('\n').map(|line| pattern.highlight_line(line, STYLE)).collect();
    assert_eq!(text.lines, expected);
    assert_eq!(text.lines.len(), 4);
    assert_eq!(text.style, Style::default());
    assert_eq!(text.alignment, None);
}

#[test]
fn newline_is_not_part_of_any_span() {
    let text = highlight_text("a\nb", r"(?s).+", STYLE).unwrap();
    let expected = Text::from(vec![
        Line::from(vec![Span::from("a").style(STYLE)]),
        Line::from(vec![Span::from("b").style(STYLE)]),
    ]);
    assert_eq!(text, expected);
}

#[test]
fn compiled_pattern_can_be_used_again() {
    let pattern = Pattern::compile(r"@\w+").unwrap();
    let first = highlight_line("Hi @buddy", &pattern, STYLE).unwrap();
    let second = highlight_line("Hi @buddy", &pattern, STYLE).unwrap();
    let fresh = highlight_line("Hi @buddy", r"@\w+", STYLE).unwrap();
    let fresh_again = highlight_line("Hi @buddy", r"@\w+", STYLE).unwrap();
    assert_eq!(first, second);
    assert_eq!(first, fresh);
    assert_eq!(fresh, fresh_again);
}

#[test]
fn invalid_pattern_is_an_error() {
    assert_eq!(highlight_line("Hi @buddy", r"@(\w+", STYLE), Err(PatternError::InvalidPattern));
    assert_eq!(highlight_text("Hi\n@buddy", r"@(\w+", STYLE), Err(PatternError::InvalidPattern));
    assert_eq!(highlight_line("", "[", STYLE), Err(PatternError::InvalidPattern));
    assert!(matches!(Pattern::compile("a{2,1}"), Err(PatternError::InvalidPattern)));
}

#[test]
fn oversized_pattern_is_an_error() {
    assert!(matches!(Pattern::compile(r"\w{1000}"), Err(PatternError::InvalidPattern)));
    assert!(Pattern::compile(r"(?-u:\w){1000}").is_ok());
}

#[test]
fn pattern_keeps_its_source() {
    let pattern = Pattern::compile(r"@\w+").unwrap();
    assert_eq!(pattern.as_str(), r"@\w+");
    assert_eq!(pattern.clone().as_str(), r"@\w+");
    assert_eq!(pattern.clone().matches("a @b"), pattern.matches("a @b"));
}

#[test]
fn matches_are_ranges_in_order() {
    let pattern = Pattern::compile(r"@\w+").unwrap();
    assert_eq!(pattern.matches("Hello @Henry. Why @nobody"), vec![(6, 12), (18, 25)]);
    assert_eq!(pattern.matches("nothing"), vec![]);
    assert_eq!(Pattern::compile("").unwrap().matches("ab"), vec![(0, 0), (1, 1), (2, 2)]);
}

#[test]
fn every_kind_of_pattern_is_accepted() {
    let expected = Line::from(vec![Span::from("Hi "), Span::from("@buddy").style(STYLE)]);
    let owned = String::from(r"@\w+");
    assert_eq!(highlight_line("Hi @buddy", &owned, STYLE).unwrap(), expected);
    assert_eq!(highlight_line("Hi @buddy", owned.clone(), STYLE).unwrap(), expected);
    assert_eq!(highlight_line("Hi @buddy", owned.as_str(), STYLE).unwrap(), expected);
    let compiled = Pattern::compile(&owned).unwrap();
    assert_eq!(highlight_line("Hi @buddy", &compiled, STYLE).unwrap(), expected);
    assert_eq!(highlight_line("Hi @buddy", compiled, STYLE).unwrap(), expected);
}

#[test]
fn handed_over_patterns_resolve() {
    assert!(matches!(r"@\w+".into_regex_ref(), RegexRef::Raw(source) if source == r"@\w+"));
    assert!(matches!(String::from("a").into_regex_ref(), RegexRef::Raw(source) if source == "a"));
    let compiled = Pattern::compile("a+").unwrap();
    assert!(matches!((&compiled).into_regex_ref(), RegexRef::Compiled(p) if p.as_str() == "a+"));
    assert_eq!(RegexRef::Raw(String::from("b+")).resolve().unwrap().as_str(), "b+");
    assert_eq!(RegexRef::Compiled(compiled).resolve().unwrap().as_str(), "a+");
    assert!(matches!(
        RegexRef::Raw(String::from("(")).resolve(),
        Err(PatternError::InvalidPattern)
    ));
}

#[test]
fn ranges_that_fit_are_accepted() {
    assert!(ranges_fit_in("Hi @buddy", &vec![]));
    assert!(ranges_fit_in("Hi @buddy", &vec![(3, 9)]));
    assert!(ranges_fit_in("Hi @buddy", &vec![(0, 0), (0, 2), (2, 2), (9, 9)]));
    assert!(ranges_fit_in("", &vec![(0, 0)]));
    assert!(ranges_fit_in("\u{e9}t\u{e9}", &vec![(0, 2), (3, 5)]));
}

#[test]
fn ranges_that_do_not_fit_are_refused() {
    assert!(!ranges_fit_in("Hi @buddy", &vec![(3, 10)]));
    assert!(!ranges_fit_in("Hi @buddy", &vec![(4, 3)]));
    assert!(!ranges_fit_in("Hi @buddy", &vec![(3, 9), (8, 9)]));
    assert!(!ranges_fit_in("Hi @buddy", &vec![(3, 9), (0, 1)]));
    assert!(!ranges_fit_in("\u{e9}t\u{e9}", &vec![(1, 2)]));
    assert!(!ranges_fit_in("\u{e9}t\u{e9}", &vec![(0, 4)]));
    assert!(!ranges_fit_in("", &vec![(0, 1)]));
}

#[test]
fn found_matches_always_fit() {
    let pattern = Pattern::compile(r"\w*").unwrap();
    for source in ["", "a b", "\u{e9}t\u{e9} \u{1f600}!", "  "] {
        assert!(ranges_fit_in(source, &pattern.matches(source)));
    }
}

#[test]
fn anchors_apply_to_each_line() {
    let text = highlight_text("ab\ncd\n", "^.", STYLE).unwrap();
    let expected = Text::from(vec![
        Line::from(vec![Span::from("a").style(STYLE), Span::from("b")]),
        Line::from(vec![Span::from("c").style(STYLE), Span::from("d")]),
        Line::default(),
    ]);
    assert_eq!(text, expected);
}

#[test]
fn highlighted_spans_borrow_from_the_line() {
    let source = String::from("Hi @buddy");
    let line = highlight_line(&source, r"@\w+", STYLE).unwrap();
    for span in &line.spans {
        assert!(matches!(span.content, std::borrow::Cow::Borrowed(_)));
    }
}

#[test]
fn long_text_keeps_every_line() {
    let source = "x @y\n".repeat(500);
    let text = highlight_text(&source, r"@\w+", STYLE).unwrap();
    assert_eq!(text.lines.len(), 501);
    let line = Line::from(vec![Span::from("x "), Span::from("@y").style(STYLE)]);
    assert!(text.lines[..500].iter().all(|found| *found == line));
    assert_eq!(text.lines[500], Line::default());
}

#[test]
fn compiling_again_gives_the_same_answer() {
    for source in [r"@\w+", "", "a|b", "(", "[", "a{2,1}", r"\w{1000}", "(?i)x"] {
        let first = Pattern::compile(source).is_ok();
        let again = Pattern::compile(source).is_ok();
        assert_eq!(first, again, "{:?}", source);
        assert_eq!(highlight_line("some line", source, STYLE).is_ok(), first, "{:?}", source);
        assert_eq!(highlight_line("", source, STYLE).is_ok(), first, "{:?}", source);
        assert_eq!(highlight_text("two\nlines", source, STYLE).is_ok(), first, "{:?}", source);
        assert_eq!(highlight_text("", source, STYLE).is_ok(), first, "{:?}", source);
        assert_eq!(source.into_regex_ref().resolve().is_ok(), first, "{:?}", source);
    }
}

#[test]
fn invalid_pattern_fails_on_empty_text() {
    assert_eq!(highlight_text("", "(", STYLE), Err(PatternError::InvalidPattern));
    assert_eq!(highlight_line("", "(", STYLE), Err(PatternError::InvalidPattern));
}

#[test]
fn valid_text_pattern_succeeds_on_every_line() {
    for line in ["", "a", "@x @y", "\u{e9}", "\n"] {
        assert!(highlight_line(line, r"@\w+", STYLE).is_ok());
        assert!(highlight_text(line, r"@\w+", STYLE).is_ok());
    }
}
