//! The plainer keyword rules: the space always separates keywords, pieces are not
//! trimmed, and a keyword must hold more than one character.
use vstd::prelude::*;
use crate::libs::counts::{
    count_in, lemma_tally_concat, lemma_tally_occurrences, occurrences, tally, KeywordCounts,
};
use crate::libs::keywords::{
    bracket_captures, keep_multichar, keep_multichar_exec, keyword_delimiters, outside_brackets,
    scan_brackets, strip_extension, strip_extension_chars,
};
use crate::text::{
    chars_of, split_by, split_chars, string_from_chars, string_views, strings_from_char_vecs,
};

verus! {

/// The keywords of a file name under these rules: with its extension removed,
/// the contents of its bracket groups, then the rest split at `,`, `-`, `_` and
/// the space; of each part the pieces that hold more than one character, in
/// order.
pub open spec fn plain_filename_keywords(name: Seq<char>) -> Seq<Seq<char>> {
    let base = strip_extension(name);
    keep_multichar(bracket_captures(base, 0)) + keep_multichar(
        split_by(outside_brackets(base, 0), keyword_delimiters(true)),
    )
}

/// The file name without its extension (see [`strip_extension`]).
pub fn extract_file_basename(filename: &String) -> (r: String)
    ensures
        r@ == strip_extension(filename@),
{
    let name = chars_of(filename.as_str());
    let base = strip_extension_chars(&name);
    let r = string_from_chars(&base, 0, base.len());
    assert(base@.subrange(0, base@.len() as int) == base@);
    r
}

/// The keywords of one file name (see [`plain_filename_keywords`]).
pub fn extract_keywords(filename_wo_ext: &String) -> (r: Vec<String>)
    ensures
        string_views(r@) == plain_filename_keywords(filename_wo_ext@),
{
    let name = chars_of(filename_wo_ext.as_str());
    let base = strip_extension_chars(&name);
    let (caps, rest) = scan_brackets(&base);
    let long_caps = keep_multichar_exec(&caps);
    let mut delims: Vec<char> = Vec::new();
    delims.push(',');
    delims.push('-');
    delims.push('_');
    delims.push(' ');
    assert(delims@ == keyword_delimiters(true));
    let pieces = split_chars(&rest, &delims);
    let long_pieces = keep_multichar_exec(&pieces);
    let mut keywords = strings_from_char_vecs(&long_caps);
    let mut tail = strings_from_char_vecs(&long_pieces);
    let ghost a = string_views(keywords@);
    let ghost b = string_views(tail@);
    keywords.append(&mut tail);
    assert(string_views(keywords@) == a + b);
    keywords
}

/// The keywords of all `names`, name after name.
pub open spec fn all_plain_keywords(names: Seq<Seq<char>>) -> Seq<Seq<char>>
    decreases names.len(),
{
    if names.len() == 0 {
        Seq::empty()
    } else {
        all_plain_keywords(names.drop_last()) + plain_filename_keywords(names.last())
    }
}

proof fn lemma_all_plain_keywords_prefix(names: Seq<Seq<char>>, i: int)
    requires
        0 <= i <= names.len(),
    ensures
        all_plain_keywords(names.take(i)).len() <= all_plain_keywords(names).len(),
    decreases names.len(),
{
    if i < names.len() {
        assert(names.take(i) == names.drop_last().take(i));
        lemma_all_plain_keywords_prefix(names.drop_last(), i);
    } else {
        assert(names.take(i) == names);
    }
}

proof fn lemma_all_plain_keywords_concat(a: Seq<Seq<char>>, b: Seq<Seq<char>>)
    ensures
        all_plain_keywords(a + b) == all_plain_keywords(a) + all_plain_keywords(b),
    decreases b.len(),
{
    if b.len() == 0 {
        assert(a + b == a);
        assert(all_plain_keywords(a) + Seq::<Seq<char>>::empty() == all_plain_keywords(a));
    } else {
        assert((a + b).drop_last() == a + b.drop_last());
        assert((a + b).last() == b.last());
        lemma_all_plain_keywords_concat(a, b.drop_last());
        assert(all_plain_keywords(a) + all_plain_keywords(b.drop_last()) + plain_filename_keywords(
            b.last(),
        ) == all_plain_keywords(a) + (all_plain_keywords(b.drop_last()) + plain_filename_keywords(
            b.last(),
        )));
    }
}

/// Law: the counts for two lists of names together are the sums of their
/// separate counts, keyword by keyword; so the counts do not depend on the order
/// of the lists, and no names give no counts.
pub proof fn law_plain_counts_add(a: Seq<Seq<char>>, b: Seq<Seq<char>>)
    ensures
        forall|k: Seq<char>|
            #[trigger] count_in(tally(all_plain_keywords(a + b)), k) == count_in(
                tally(all_plain_keywords(a)),
                k,
            ) + count_in(tally(all_plain_keywords(b)), k),
        forall|k: Seq<char>|
            #[trigger] count_in(tally(all_plain_keywords(a + b)), k) == count_in(
                tally(all_plain_keywords(b + a)),
                k,
            ),
        tally(all_plain_keywords(Seq::empty())) == Map::<Seq<char>, nat>::empty(),
{
    lemma_all_plain_keywords_concat(a, b);
    lemma_all_plain_keywords_concat(b, a);
    lemma_tally_concat(all_plain_keywords(a), all_plain_keywords(b));
    lemma_tally_concat(all_plain_keywords(b), all_plain_keywords(a));
}

/// Counts the keywords of all file names: each keyword maps to the number of its
/// occurrences among the keywords of all names (see [`plain_filename_keywords`]).
pub fn extract_keywords_from_filenames(filenames: &Vec<String>) -> (r: KeywordCounts)
    requires
        all_plain_keywords(string_views(filenames@)).len() <= usize::MAX,
    ensures
        r@ == tally(all_plain_keywords(string_views(filenames@))),
        forall|k: Seq<char>|
            #[trigger] r@.contains_key(k) <==> occurrences(
                all_plain_keywords(string_views(filenames@)),
                k,
            ) > 0,
        forall|k: Seq<char>|
            #[trigger] r@.contains_key(k) ==> r@[k] == occurrences(
                all_plain_keywords(string_views(filenames@)),
                k,
            ),
{
    let ghost names = string_views(filenames@);
    let mut counts = KeywordCounts::new();
    let mut i: usize = 0;
    while i < filenames.len()
        invariant
            i <= filenames@.len(),
            names == string_views(filenames@),
            all_plain_keywords(names).len() <= usize::MAX,
            counts@ == tally(all_plain_keywords(names.take(i as int))),
        decreases filenames@.len() - i,
    {
        let keywords = extract_keywords(&filenames[i]);
        let ghost done = all_plain_keywords(names.take(i as int));
        let ghost kws = string_views(keywords@);
        assert(names.take(i + 1).drop_last() == names.take(i as int));
        assert(names.take(i + 1).last() == filenames@[i as int]@);
        assert(all_plain_keywords(names.take(i + 1)) == done + kws);
        proof {
            lemma_all_plain_keywords_prefix(names, i + 1);
        }
        let mut j: usize = 0;
        assert(done + kws.take(0) == done);
        while j < keywords.len()
            invariant
                j <= keywords@.len(),
                kws == string_views(keywords@),
                (done + kws).len() <= usize::MAX,
                counts@ == tally(done + kws.take(j as int)),
            decreases keywords@.len() - j,
        {
            proof {
                lemma_tally_occurrences(done + kws.take(j as int));
            }
            assert((done + kws.take(j + 1)).drop_last() == done + kws.take(j as int));
            assert((done + kws.take(j + 1)).last() == keywords@[j as int]@);
            counts.increment(&keywords[j]);
            j = j + 1;
        }
        assert(kws.take(keywords@.len() as int) == kws);
        i = i + 1;
    }
    assert(names.take(filenames@.len() as int) == names);
    proof {
        lemma_tally_occurrences(all_plain_keywords(names));
    }
    counts
}

} // verus!
