//! Compiled regular expressions, kept with the pattern they were compiled from.
use vstd::prelude::*;

verus! {

/// The `regex` crate's compiled regular expression, carried through opaque.
#[verifier::external_type_specification]
#[verifier::external_body]
pub struct ExRegex(regex::Regex);

/// A name for whether `regex::Regex::new` accepts a pattern: a function of the
/// pattern alone.
pub uninterp spec fn regex_compiles(pattern: Seq<char>) -> bool;

/// A name for what `regex::Regex::is_match` answers for the expression compiled
/// from `pattern` and the text `text`: whether the expression matches anywhere
/// in the text. A function of the two alone.
pub uninterp spec fn regex_is_match(pattern: Seq<char>, text: Seq<char>) -> bool;

/// Calls `regex::Regex::new`; the result is there exactly when the pattern
/// compiles, by the name [`regex_compiles`]. The error itself is dropped.
#[verifier::external_body]
fn compile_regex(pattern: &str) -> (r: Option<regex::Regex>)
    ensures
        r is Some <==> regex_compiles(pattern@),
{
    regex::Regex::new(pattern).ok()
}

/// A compiled regular expression and the pattern it was compiled from.
pub struct KeywordRegex {
    pattern: String,
    regex: regex::Regex,
}

impl View for KeywordRegex {
    type V = Seq<char>;

    /// The pattern the expression was compiled from.
    closed spec fn view(&self) -> Seq<char> {
        self.pattern@
    }
}

/// Calls `regex::Regex::is_match` on the compiled expression of `re`; the answer
/// is, by the name [`regex_is_match`], that of the pattern `re` holds. This rests
/// on [`KeywordRegex::new`] being the only way to make a `KeywordRegex`: it
/// compiles the very pattern it stores.
#[verifier::external_body]
fn keyword_regex_is_match(re: &KeywordRegex, text: &str) -> (b: bool)
    ensures
        b == regex_is_match(re@, text@),
{
    re.regex.is_match(text)
}

impl KeywordRegex {
    /// Compiles `pattern`; `None` where it does not compile.
    pub fn new(pattern: String) -> (r: Option<KeywordRegex>)
        ensures
            r is Some <==> regex_compiles(pattern@),
            r matches Some(k) ==> k@ == pattern@,
    {
        match compile_regex(pattern.as_str()) {
            Some(regex) => Some(KeywordRegex { pattern, regex }),
            None => None,
        }
    }

    /// The pattern the expression was compiled from.
    pub fn as_str(&self) -> (s: &str)
        ensures
            s@ == self@,
    {
        self.pattern.as_str()
    }

    /// Whether the expression matches somewhere in `text`.
    pub fn is_match(&self, text: &str) -> (b: bool)
        ensures
            b == regex_is_match(self@, text@),
    {
        keyword_regex_is_match(self, text)
    }
}

/// The patterns of a sequence of compiled expressions.
pub open spec fn regex_views(v: Seq<KeywordRegex>) -> Seq<Seq<char>> {
    v.map_values(|r: KeywordRegex| r@)
}

} // verus!
