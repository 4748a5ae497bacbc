//! Keywords given on the command line.
use vstd::prelude::*;
use crate::libs::errors::Error;
use crate::text::{
    byte_len, chars_of, join_with, lemma_join_split, lemma_split_by_nonempty, split_by, split_chars,
    string_views, strings_from_char_vecs,
};

verus! {

/// The pieces of a comma-separated keyword list, empty pieces included.
pub open spec fn comma_pieces(s: Seq<char>) -> Seq<Seq<char>> {
    split_by(s, seq![','])
}

/// Every piece is at least two bytes long.
pub open spec fn all_long_enough(ps: Seq<Seq<char>>) -> bool {
    forall|i: int| 0 <= i < ps.len() ==> byte_len(#[trigger] ps[i]) >= 2
}

/// The text of the error for a keyword that is too short.
pub open spec fn too_short_text() -> Seq<char> {
    "keyword length must be more than 2"@
}

/// Splits a comma-separated keyword list. Every keyword must be at least two
/// bytes long; otherwise the result is a keyword length error.
pub fn parse_args(keywords: String) -> (r: Result<Vec<String>, Error>)
    ensures
        r is Ok <==> all_long_enough(comma_pieces(keywords@)),
        r matches Ok(v) ==> string_views(v@) == comma_pieces(keywords@),
        r matches Err(e) ==> e matches Error::KeywordLengthError(m) && m@ == too_short_text(),
{
    let chars = chars_of(keywords.as_str());
    let mut comma: Vec<char> = Vec::new();
    comma.push(',');
    assert(comma@ == seq![',']);
    let pieces = split_chars(&chars, &comma);
    let words = strings_from_char_vecs(&pieces);
    let mut i: usize = 0;
    while i < words.len()
        invariant
            i <= words@.len(),
            string_views(words@) == comma_pieces(keywords@),
            forall|j: int| 0 <= j < i ==> byte_len(#[trigger] words@[j]@) >= 2,
        decreases words@.len() - i,
    {
        if words[i].as_str().len() < 2 {
            assert(string_views(words@)[i as int] == words@[i as int]@);
            return Err(Error::KeywordLengthError(String::from_str("keyword length must be more than 2")));
        }
        i = i + 1;
    }
    assert forall|j: int| 0 <= j < comma_pieces(keywords@).len() implies byte_len(
        #[trigger] comma_pieces(keywords@)[j],
    ) >= 2 by {
        assert(string_views(words@)[j] == words@[j]@);
    }
    proof {
        lemma_split_by_nonempty(chars@, comma@);
    }
    if words.len() == 0 {
        return Err(Error::NoKeywordsFound);
    }
    Ok(words)
}

/// Law: the keywords that `parse_args` accepts, joined with commas, give the
/// argument back; nothing is lost or added by the split.
pub proof fn law_parse_args_rejoins(keywords: Seq<char>)
    ensures
        join_with(comma_pieces(keywords), ',') == keywords,
{
    lemma_join_split(keywords, ',');
}

} // verus!
