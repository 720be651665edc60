use vstd::prelude::*;

use crate::error::EngineError;

verus! {

#[verifier::external_type_specification]
#[verifier::external_body]
pub struct ExRegex(regex::bytes::Regex);

/// Whether regex's builder accepts `source` with the given options.
pub uninterp spec fn regex_compiles(source: Seq<char>, case_insensitive: bool, unicode: bool) -> bool;

/// Whether the expression `source`, compiled with the given options, matches somewhere in
/// `haystack`.
pub uninterp spec fn regex_matches(
    source: Seq<char>,
    case_insensitive: bool,
    unicode: bool,
    haystack: Seq<u8>,
) -> bool;

/// What a compiled pattern stands for: its source text and the options it was built with.
pub struct PatternView {
    pub source: Seq<char>,
    pub case_insensitive: bool,
    pub unicode: bool,
}

/// A compiled filter expression, treated as a predicate over byte fields.
pub struct Pattern {
    source: String,
    case_insensitive: bool,
    unicode: bool,
    re: regex::bytes::Regex,
}

impl View for Pattern {
    type V = PatternView;

    closed spec fn view(&self) -> PatternView {
        PatternView {
            source: self.source@,
            case_insensitive: self.case_insensitive,
            unicode: self.unicode,
        }
    }
}

/// `p` matches somewhere in `field`.
pub open spec fn pattern_matches(p: PatternView, field: Seq<u8>) -> bool {
    regex_matches(p.source, p.case_insensitive, p.unicode, field)
}

/// Relies on regex's `bytes::RegexBuilder::new`, `case_insensitive`, `unicode` and `build`:
/// compiles `source`, the error rendered as text.
#[verifier::external_body]
fn build_regex(source: &str, case_insensitive: bool, unicode: bool) -> (r: Result<
    regex::bytes::Regex,
    String,
>)
    ensures
        r is Ok <==> regex_compiles(source@, case_insensitive, unicode),
{
    regex::bytes::RegexBuilder::new(source).case_insensitive(case_insensitive).unicode(
        unicode,
    ).build().map_err(|e| e.to_string())
}

/// Relies on regex's `bytes::Regex::is_match`, on the expression that `Pattern::new` built
/// from the pattern's source and options.
#[verifier::external_body]
fn regex_is_match(p: &Pattern, field: &[u8]) -> (r: bool)
    ensures
        r == regex_matches(p@.source, p@.case_insensitive, p@.unicode, field@),
{
    p.re.is_match(field)
}

impl Pattern {
    /// Compiles `source`; fails with `PatternCompile` exactly when regex refuses it.
    pub fn new(source: String, case_insensitive: bool, unicode: bool) -> (r: Result<
        Pattern,
        EngineError,
    >)
        ensures
            r is Ok <==> regex_compiles(source@, case_insensitive, unicode),
            r is Ok ==> r->Ok_0@ == (PatternView { source: source@, case_insensitive, unicode }),
            r is Err ==> r->Err_0 is PatternCompile,
    {
        match build_regex(source.as_str(), case_insensitive, unicode) {
            Ok(re) => Ok(Pattern { source, case_insensitive, unicode, re }),
            Err(message) => Err(EngineError::PatternCompile { message }),
        }
    }

    /// Whether the pattern matches somewhere in `field`.
    pub fn is_match(&self, field: &[u8]) -> (r: bool)
        ensures
            r == pattern_matches(self@, field@),
    {
        regex_is_match(self, field)
    }
}

} // verus!
