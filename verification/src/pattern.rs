//! Regular expressions of the `regex` crate, as used by input-format detection.
use regex::Error as RegexError;
use vstd::prelude::*;

verus! {

/// The compiled regular expression type of the `regex` crate.
#[verifier::external_type_specification]
#[verifier::external_body]
pub struct ExRegex(regex::Regex);

/// The error the `regex` crate reports for a pattern it cannot compile.
#[verifier::external_type_specification]
#[verifier::external_body]
pub struct ExRegexError(RegexError);

/// Whether the regular expression written `pattern` matches somewhere in
/// `text`, as `regex::Regex::is_match` decides it.
pub uninterp spec fn regex_is_match(pattern: Seq<char>, text: Seq<char>) -> bool;

/// Whether `regex::Regex::new` accepts the pattern written `pattern`.
pub uninterp spec fn regex_compiles(pattern: Seq<char>) -> bool;

/// A compiled regular expression together with its source text.
pub struct Pattern {
    source: String,
    compiled: regex::Regex,
}

impl View for Pattern {
    type V = Seq<char>;

    /// The source text the pattern was compiled from.
    closed spec fn view(&self) -> Seq<char> {
        self.source@
    }
}

/// Compiles `source` with `regex::Regex::new`.
/// Claimed: it succeeds exactly where `regex_compiles` names the text as
/// accepted, and a compiled pattern records `source` as its source text (the
/// wrapper stores the text it compiled).
#[verifier::external_body]
pub(crate) fn compile(source: &str) -> (r: Result<Pattern, RegexError>)
    ensures
        r is Ok <==> regex_compiles(source@),
        r matches Ok(p) ==> p@ == source@,
{
    match regex::Regex::new(source) {
        Ok(compiled) => Ok(Pattern { source: source.to_string(), compiled }),
        Err(e) => Err(e),
    }
}

/// Runs `regex::Regex::is_match` of the compiled pattern on `text`.
/// Claimed: the answer is the one `regex_is_match` names for the pattern's
/// source text and `text` (a `Pattern` is only built by `compile`, from that
/// very text).
#[verifier::external_body]
pub(crate) fn is_match(p: &Pattern, text: &str) -> (r: bool)
    ensures
        r == regex_is_match(p@, text@),
{
    p.compiled.is_match(text)
}

} // verus!
