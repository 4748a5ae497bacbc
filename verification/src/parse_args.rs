//! Keywords and a path given together on the command line.
use vstd::prelude::*;
use crate::libs::errors::Error;
use crate::libs::fs::{backslash_is_separator, normalize_terminal_path, terminal_path};
use crate::libs::parse_args::{all_long_enough, comma_pieces, too_short_text};
use crate::text::string_views;

verus! {

/// Splits the comma-separated keywords (each at least two bytes long, else a
/// keyword length error) and, where `windows` holds, removes trailing `"` from
/// the path.
pub fn parse_args_for_platform(keywords: String, path: String, windows: bool) -> (r: Result<
    (Vec<String>, String),
    Error,
>)
    ensures
        r is Ok <==> all_long_enough(comma_pieces(keywords@)),
        r matches Ok(ok) ==> string_views(ok.0@) == comma_pieces(keywords@) && ok.1@ == terminal_path(
            path@,
            windows,
        ),
        r matches Err(e) ==> (e matches Error::KeywordLengthError(m) && m@ == too_short_text()),
{
    match crate::libs::parse_args::parse_args(keywords) {
        Ok(words) => Ok((words, normalize_terminal_path(path, windows))),
        Err(e) => Err(e),
    }
}

/// Splits the comma-separated keywords (each at least two bytes long, else a
/// keyword length error); on Windows, trailing `"` are removed from the path.
pub fn parse_args(keywords: String, path: String) -> (r: Result<(Vec<String>, String), Error>)
    ensures
        r is Ok <==> all_long_enough(comma_pieces(keywords@)),
        r matches Ok(ok) ==> string_views(ok.0@) == comma_pieces(keywords@) && (ok.1@
            == terminal_path(path@, true) || ok.1@ == terminal_path(path@, false)),
        r matches Err(e) ==> (e matches Error::KeywordLengthError(m) && m@ == too_short_text()),
{
    let windows = backslash_is_separator();
    parse_args_for_platform(keywords, path, windows)
}

} // verus!
