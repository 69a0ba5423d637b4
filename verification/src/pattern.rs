//! Patterns: regular expressions, compiled once and used on many lines.

use vstd::prelude::*;
use regex::Regex;
use crate::fragments::ranges_fit;

verus! {

/// `regex::Regex`: a compiled regular expression.
#[verifier::external_type_specification]
#[verifier::external_body]
pub struct ExRegex(regex::Regex);

/// `regex::Error`: why an expression was not compiled.
#[verifier::external_type_specification]
#[verifier::external_body]
pub struct ExRegexError(regex::Error);

/// The matches that the regular expression written as `pattern` has in
/// `haystack`: what `Regex::find_iter` yields for the expression that
/// `Regex::new` compiles from `pattern`, each match as the byte offsets of its
/// start and its end, in the order in which they are found.
pub uninterp spec fn regex_matches(pattern: Seq<char>, haystack: Seq<char>) -> Seq<(usize, usize)>;

/// Whether `Regex::new` compiles `pattern` where a machine word has
/// `word_bits` bits: whether the text is a regular expression in the syntax
/// of the regex crate, and its compiled form stays within the size limit that
/// `Regex::new` sets. The size of a compiled form is counted in bytes of
/// memory, which depends on the width of a machine word and on nothing else
/// besides the text.
pub uninterp spec fn regex_compiles(pattern: Seq<char>, word_bits: u32) -> bool;

/// Whether `pattern` can be compiled here.
pub open spec fn compiles(pattern: Seq<char>) -> bool {
    regex_compiles(pattern, usize::BITS)
}

/// Why a pattern was not accepted.
#[derive(Debug, Clone, Copy, PartialEq, Eq, Structural)]
pub enum PatternError {
    /// The pattern could not be compiled into a regular expression.
    InvalidPattern,
}

/// A compiled pattern. A value is only ever made by the two functions below
/// that call the regex crate, one compiling a source and one cloning a
/// pattern, so the expression it holds is always the one compiled from its
/// source.
pub struct Pattern {
    source: String,
    regex: Regex,
}

impl View for Pattern {
    type V = Seq<char>;

    /// The source that the pattern was compiled from.
    closed spec fn view(&self) -> Seq<char> {
        self.source@
    }
}

/// `Regex::new`: compiles `source` and keeps the source beside the compiled
/// expression. The contract claims that the text and the width of a machine
/// word decide whether the expression is compiled, and that a pattern made
/// here has `source` as its source.
#[verifier::external_body]
fn compile_pattern(source: &str) -> (compiled: Result<Pattern, regex::Error>)
    ensures
        compiled is Ok <==> regex_compiles(source@, usize::BITS),
        compiled matches Ok(pattern) ==> pattern@ == source@,
{
    match Regex::new(source) {
        Ok(regex) => Ok(Pattern { source: source.to_owned(), regex }),
        Err(error) => Err(error),
    }
}

/// `Regex::clone`: another handle on the same compiled expression, with the
/// same source beside it.
#[verifier::external_body]
fn clone_pattern(pattern: &Pattern) -> (copy: Pattern)
    ensures
        copy@ == pattern@,
{
    Pattern { source: pattern.source.clone(), regex: pattern.regex.clone() }
}

/// `Regex::find_iter`, with `Match::start` and `Match::end` of each match it
/// yields. The contract claims what the documentation of these promises: the
/// matches are those of the pattern's expression in `haystack`; they do not
/// overlap and come in the order of their offsets; each starts no later than
/// it ends; and every offset falls on a character boundary of `haystack`.
#[verifier::external_body]
fn find_ranges(pattern: &Pattern, haystack: &str) -> (ranges: Vec<(usize, usize)>)
    ensures
        ranges@ == regex_matches(pattern@, haystack@),
        ranges_fit(haystack@, ranges@),
{
    pattern.regex.find_iter(haystack).map(|found| (found.start(), found.end())).collect()
}

impl Pattern {
    /// The pattern once the compiler has answered: the compiled pattern as it
    /// is, and `InvalidPattern` for a refusal.
    pub(crate) fn from_compiled(compiled: Result<Pattern, regex::Error>) -> (made: Result<
        Pattern,
        PatternError,
    >)
        ensures
            compiled matches Ok(pattern) ==> made == Ok::<Pattern, PatternError>(pattern),
            compiled is Err ==> made == Err::<Pattern, PatternError>(PatternError::InvalidPattern),
    {
        match compiled {
            Ok(pattern) => Ok(pattern),
            Err(_) => Err(PatternError::InvalidPattern),
        }
    }

    /// Compiles `source`. The pattern is made exactly where `source` is a
    /// regular expression that is not too large when compiled; every other
    /// source gives `InvalidPattern`.
    pub fn compile(source: &str) -> (made: Result<Pattern, PatternError>)
        ensures
            made is Ok <==> compiles(source@),
            made matches Ok(pattern) ==> pattern@ == source@,
            made matches Err(error) ==> error == PatternError::InvalidPattern,
    {
        Pattern::from_compiled(compile_pattern(source))
    }

    /// The source that the pattern was compiled from.
    pub fn as_str(&self) -> (source: &str)
        ensures
            source@ == self@,
    {
        self.source.as_str()
    }

    /// The matches of the pattern in `haystack`, as ranges of byte offsets.
    pub fn matches(&self, haystack: &str) -> (ranges: Vec<(usize, usize)>)
        ensures
            ranges@ == regex_matches(self@, haystack@),
            ranges_fit(haystack@, ranges@),
    {
        find_ranges(self, haystack)
    }
}

impl Clone for Pattern {
    fn clone(&self) -> (copy: Self)
        ensures
            copy@ == self@,
    {
        clone_pattern(self)
    }
}

/// A pattern as a caller hands it over: still as text, or compiled already.
pub enum RegexRef {
    /// The source of a pattern, to be compiled.
    Raw(String),
    /// A compiled pattern, to be used as it is.
    Compiled(Pattern),
}

impl RegexRef {
    /// The source of the pattern.
    pub open spec fn source(self) -> Seq<char> {
        match self {
            RegexRef::Raw(text) => text@,
            RegexRef::Compiled(pattern) => pattern@,
        }
    }

    /// The compiled pattern: the one handed over, or the one compiled from
    /// the text handed over. Only text can fail: it fails with
    /// `InvalidPattern` exactly where it cannot be compiled.
    pub fn resolve(self) -> (made: Result<Pattern, PatternError>)
        ensures
            made is Ok <==> self is Compiled || compiles(self.source()),
            self matches RegexRef::Compiled(pattern) ==> made == Ok::<Pattern, PatternError>(
                pattern,
            ),
            made matches Ok(pattern) ==> pattern@ == self.source(),
            made matches Err(error) ==> error == PatternError::InvalidPattern,
    {
        match self {
            RegexRef::Raw(text) => Pattern::compile(text.as_str()),
            RegexRef::Compiled(pattern) => Ok(pattern),
        }
    }
}

/// What can be handed over as a pattern.
pub trait IntoRegexRef: Sized {
    /// The source of the pattern that the value stands for.
    spec fn source(self) -> Seq<char>;

    /// Whether the value is a compiled pattern.
    spec fn is_compiled(self) -> bool;

    /// The value as text or as a compiled pattern.
    fn into_regex_ref(self) -> (handed: RegexRef)
        ensures
            handed.source() == self.source(),
            handed is Compiled <==> self.is_compiled(),
    ;
}

impl IntoRegexRef for Pattern {
    open spec fn source(self) -> Seq<char> {
        self@
    }

    open spec fn is_compiled(self) -> bool {
        true
    }

    fn into_regex_ref(self) -> (handed: RegexRef) {
        RegexRef::Compiled(self)
    }
}

impl<'a> IntoRegexRef for &'a Pattern {
    open spec fn source(self) -> Seq<char> {
        self@
    }

    open spec fn is_compiled(self) -> bool {
        true
    }

    fn into_regex_ref(self) -> (handed: RegexRef) {
        RegexRef::Compiled(self.clone())
    }
}

impl IntoRegexRef for String {
    open spec fn source(self) -> Seq<char> {
        self@
    }

    open spec fn is_compiled(self) -> bool {
        false
    }

    fn into_regex_ref(self) -> (handed: RegexRef) {
        RegexRef::Raw(self)
    }
}

impl<'a> IntoRegexRef for &'a String {
    open spec fn source(self) -> Seq<char> {
        self@
    }

    open spec fn is_compiled(self) -> bool {
        false
    }

    fn into_regex_ref(self) -> (handed: RegexRef) {
        RegexRef::Raw(self.clone())
    }
}

impl<'a> IntoRegexRef for &'a str {
    open spec fn source(self) -> Seq<char> {
        self@
    }

    open spec fn is_compiled(self) -> bool {
        false
    }

    fn into_regex_ref(self) -> (handed: RegexRef) {
        RegexRef::Raw(self.to_owned())
    }
}

} // verus!
