//! Pattern highlighting for terminal text.
//!
//! A line of text and a regular expression are turned into a styled line:
//! the parts that the expression matches carry a highlight style, the parts
//! between them the default style, and the parts in order spell the line
//! again. A text of several lines is split at its newlines and highlighted
//! line by line, with the expression compiled once for all of them.
//!
//! ```
//! use ratatui::style::{Color, Style};
//! use tui_pattern_highlighter::highlight_line;
//!
//! let mentions = Style::new().bg(Color::Blue);
//! let line = highlight_line("Hi @buddy", r"@\w+", mentions).unwrap();
//! assert_eq!(line.spans.len(), 2);
//! assert_eq!(line.spans[1].content, "@buddy");
//! assert_eq!(line.spans[1].style, mentions);
//! ```
//!
//! Offsets into a text count bytes, as the indices of a `str` do; the
//! contracts speak of a text as its characters and of a cut between two
//! offsets as the characters encoded there. In a text of ASCII characters
//! the two are the same, as `slices::lemma_ascii_slice` shows.

pub mod fragments;
pub mod highlight;
pub mod lines;
pub mod pattern;
pub mod slices;
pub mod styled;

pub use crate::fragments::ranges_fit_in;
pub use crate::highlight::{highlight_line, highlight_ranges, highlight_text};
pub use crate::lines::split_lines;
pub use crate::pattern::{IntoRegexRef, Pattern, PatternError, RegexRef};
