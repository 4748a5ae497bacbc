//! Keywords in file names: extraction, counting, ordering, and the patterns
//! that recognise a directory's keywords in other names.
use vstd::prelude::*;
use crate::libs::counts::{
    count_in, keys_distinct, lemma_occurrences_concat, lemma_tally_concat, lemma_map_of, lemma_tally_occurrences, map_of, occurrences, pair_views, tally,
    KeywordCounts,
};
use crate::libs::regexen::{regex_compiles, regex_views, KeywordRegex};
use crate::text::{
    byte_len, char_vec_views, chars_of, concat_all, concat_strings, lemma_concat_split,
    lemma_split_by_nonempty, lemma_split_pieces_free, lemma_split_prepend, lemma_trim_len,
    lemma_trim_prepend_white, lemma_trim_push_white, split_each, is_white_space, lemma_trim_chars_from, lemma_trim_idempotent, lowercase, remove_char,
    slice_chars, split_by, split_chars, string_views, strings_from_char_vecs, to_lowercase, trim,
    trim_chars, trim_end, trim_start,
};

verus! {

// ---------------------------------------------------------------------------
// The file extension: a final `.` followed by ASCII letters and digits.
// ---------------------------------------------------------------------------

/// A character that may appear in a file extension: an ASCII letter or digit.
pub open spec fn is_ext_char(c: char) -> bool {
    ('a' <= c && c <= 'z') || ('A' <= c && c <= 'Z') || ('0' <= c && c <= '9')
}

/// Length of the longest suffix of `s` made of extension characters.
pub open spec fn ext_run(s: Seq<char>) -> nat
    decreases s.len(),
{
    if s.len() > 0 && is_ext_char(s.last()) {
        1 + ext_run(s.drop_last())
    } else {
        0
    }
}

/// `s` without its extension: where `s` ends in `.` and one or more ASCII letters
/// or digits, that ending is removed; otherwise `s` is returned as it is.
pub open spec fn strip_extension(s: Seq<char>) -> Seq<char> {
    let k = ext_run(s);
    if 0 < k && k < s.len() && s[s.len() - k - 1] == '.' {
        s.take(s.len() - k - 1)
    } else {
        s
    }
}

fn is_ext_char_exec(c: char) -> (b: bool)
    ensures
        b == is_ext_char(c),
{
    ('a' <= c && c <= 'z') || ('A' <= c && c <= 'Z') || ('0' <= c && c <= '9')
}

proof fn lemma_ext_run_append(x: Seq<char>, e: Seq<char>)
    requires
        forall|i: int|
            0 <= i < e.len() ==> ('a' <= #[trigger] e[i] && e[i] <= 'z') || ('A' <= e[i] && e[i]
                <= 'Z') || ('0' <= e[i] && e[i] <= '9'),
    ensures
        ext_run(x + e) == e.len() + ext_run(x),
    decreases e.len(),
{
    if e.len() == 0 {
        assert(x + e == x);
    } else {
        assert((x + e).drop_last() == x + e.drop_last());
        assert((x + e).last() == e[e.len() - 1]);
        lemma_ext_run_append(x, e.drop_last());
    }
}

/// Law: a name that ends in `.` and a non-empty run of ASCII letters and digits
/// (such as `.txt` or `.mp4`) loses exactly that ending, and the keywords are
/// found in what comes before it.
pub proof fn law_extension_removed(b: Seq<char>, e: Seq<char>)
    requires
        e.len() > 0,
        forall|i: int|
            0 <= i < e.len() ==> ('a' <= #[trigger] e[i] && e[i] <= 'z') || ('A' <= e[i] && e[i]
                <= 'Z') || ('0' <= e[i] && e[i] <= '9'),
    ensures
        strip_extension(b + seq!['.'] + e) == b,
{
    let bd = b + seq!['.'];
    assert(bd.drop_last() == b);
    assert(bd.last() == '.');
    assert(ext_run(bd) == 0);
    lemma_ext_run_append(bd, e);
    let s = bd + e;
    assert(s[s.len() - e.len() - 1] == '.');
    assert(s.take(s.len() - e.len() - 1) == b);
}

proof fn lemma_ext_run_chars(s: Seq<char>)
    ensures
        ext_run(s) <= s.len(),
        forall|i: int|
            s.len() - ext_run(s) <= i < s.len() ==> ('a' <= #[trigger] s[i] && s[i] <= 'z') || (
            'A' <= s[i] && s[i] <= 'Z') || ('0' <= s[i] && s[i] <= '9'),
    decreases s.len(),
{
    if s.len() > 0 && is_ext_char(s.last()) {
        lemma_ext_run_chars(s.drop_last());
        assert forall|i: int| s.len() - ext_run(s) <= i < s.len() implies ('a' <= #[trigger] s[i]
            && s[i] <= 'z') || ('A' <= s[i] && s[i] <= 'Z') || ('0' <= s[i] && s[i] <= '9') by {
            if i < s.len() - 1 {
                assert(s.drop_last()[i] == s[i]);
            }
        }
    }
}

/// Law: nothing but such an ending is ever removed: a name either stays as it is,
/// or it is what is left followed by `.` and a non-empty run of ASCII letters and
/// digits.
pub proof fn law_only_extension_removed(s: Seq<char>)
    ensures
        strip_extension(s) == s || exists|e: Seq<char>|
            #![trigger strip_extension(s) + seq!['.'] + e]
            e.len() > 0 && s == strip_extension(s) + seq!['.'] + e && forall|i: int|
                0 <= i < e.len() ==> ('a' <= #[trigger] e[i] && e[i] <= 'z') || ('A' <= e[i] && e[i]
                    <= 'Z') || ('0' <= e[i] && e[i] <= '9'),
{
    lemma_ext_run_chars(s);
    let k = ext_run(s);
    if 0 < k && k < s.len() && s[s.len() - k - 1] == '.' {
        let b = s.take(s.len() - k - 1);
        let e = s.skip(s.len() - k);
        assert(s == b + seq!['.'] + e);
        assert forall|i: int| 0 <= i < e.len() implies ('a' <= #[trigger] e[i] && e[i] <= 'z') || (
        'A' <= e[i] && e[i] <= 'Z') || ('0' <= e[i] && e[i] <= '9') by {
            assert(e[i] == s[s.len() - k + i]);
        }
    }
}

/// Executable form of [`strip_extension`].
pub fn strip_extension_chars(v: &Vec<char>) -> (r: Vec<char>)
    ensures
        r@ == strip_extension(v@),
{
    let n: usize = v.len();
    let mut hi: usize = n;
    assert(v@.take(n as int) == v@);
    while hi > 0 && is_ext_char_exec(v[hi - 1])
        invariant
            hi <= n == v@.len(),
            ext_run(v@) == (n - hi) + ext_run(v@.take(hi as int)),
        decreases hi,
    {
        assert(v@.take(hi as int).drop_last() == v@.take(hi - 1));
        hi = hi - 1;
    }
    assert(ext_run(v@) == n - hi);
    if hi < n && hi > 0 && v[hi - 1] == '.' {
        slice_chars(v, 0, hi - 1)
    } else {
        slice_chars(v, 0, n)
    }
}

// ---------------------------------------------------------------------------
// Bracketed keywords: `(..)`, `[..]` or `{..}` holding at least one character,
// matched from the left, the shortest group first, never across a line break.
// ---------------------------------------------------------------------------

/// The closing bracket that belongs to an opening one.
pub open spec fn closer_of(c: char) -> Option<char> {
    if c == '(' {
        Some(')')
    } else if c == '[' {
        Some(']')
    } else if c == '{' {
        Some('}')
    } else {
        None
    }
}

/// The first index `j >= k` with `s[j] == close` such that no line break lies in
/// `s[k-1..j]`; `None` where a line break or the end comes first.
pub open spec fn close_from(s: Seq<char>, k: int, close: char) -> Option<int>
    decreases s.len() - k,
{
    if k < 1 || k >= s.len() {
        None
    } else if s[k - 1] == '\n' {
        None
    } else if s[k] == close {
        Some(k)
    } else {
        close_from(s, k + 1, close)
    }
}

/// Where a bracket group that opens at `i` closes, if one does: the content runs
/// from `i + 1` to the closing index and holds at least one character.
pub open spec fn group_end(s: Seq<char>, i: int) -> Option<int> {
    if 0 <= i < s.len() {
        match closer_of(s[i]) {
            Some(c) => close_from(s, i + 2, c),
            None => None,
        }
    } else {
        None
    }
}

pub proof fn lemma_close_from_range(s: Seq<char>, k: int, close: char)
    ensures
        close_from(s, k, close) matches Some(j) ==> k <= j < s.len() && s[j] == close,
    decreases s.len() - k,
{
    if 1 <= k < s.len() && s[k - 1] != '\n' && s[k] != close {
        lemma_close_from_range(s, k + 1, close);
    }
}

pub proof fn lemma_group_end_range(s: Seq<char>, i: int)
    ensures
        group_end(s, i) matches Some(j) ==> i + 2 <= j < s.len(),
{
    if 0 <= i < s.len() {
        if let Some(c) = closer_of(s[i]) {
            lemma_close_from_range(s, i + 2, c);
        }
    }
}

/// The contents of the bracket groups of `s` found from index `i` on, in order.
pub open spec fn bracket_captures(s: Seq<char>, i: int) -> Seq<Seq<char>>
    decreases s.len() - i,
{
    if i < 0 || i >= s.len() {
        Seq::empty()
    } else {
        match group_end(s, i) {
            Some(j) => {
                proof {
                    lemma_group_end_range(s, i);
                }
                seq![s.subrange(i + 1, j)] + bracket_captures(s, j + 1)
            },
            None => bracket_captures(s, i + 1),
        }
    }
}

/// The characters of `s` from index `i` on that lie outside every bracket group.
pub open spec fn outside_brackets(s: Seq<char>, i: int) -> Seq<char>
    decreases s.len() - i,
{
    if i < 0 || i >= s.len() {
        Seq::empty()
    } else {
        match group_end(s, i) {
            Some(j) => {
                proof {
                    lemma_group_end_range(s, i);
                }
                outside_brackets(s, j + 1)
            },
            None => seq![s[i]] + outside_brackets(s, i + 1),
        }
    }
}

fn closer_of_exec(c: char) -> (r: Option<char>)
    ensures
        r == closer_of(c),
{
    if c == '(' {
        Some(')')
    } else if c == '[' {
        Some(']')
    } else if c == '{' {
        Some('}')
    } else {
        None
    }
}

fn find_group_end(v: &Vec<char>, i: usize) -> (r: Option<usize>)
    requires
        i < v@.len(),
    ensures
        r matches Some(j) ==> group_end(v@, i as int) == Some(j as int),
        r is None ==> group_end(v@, i as int) is None,
{
    match closer_of_exec(v[i]) {
        None => None,
        Some(close) => {
            if v.len() - i < 2 {
                return None;
            }
            let mut k: usize = i + 2;
            while k < v.len()
                invariant
                    i + 2 <= k <= v@.len(),
                    closer_of(v@[i as int]) == Some(close),
                    group_end(v@, i as int) == close_from(v@, k as int, close),
                decreases v@.len() - k,
            {
                if v[k - 1] == '\n' {
                    return None;
                }
                if v[k] == close {
                    return Some(k);
                }
                k = k + 1;
            }
            None
        },
    }
}

/// Executable form of [`bracket_captures`] and [`outside_brackets`] from index 0.
pub fn scan_brackets(v: &Vec<char>) -> (r: (Vec<Vec<char>>, Vec<char>))
    ensures
        char_vec_views(r.0@) == bracket_captures(v@, 0),
        r.1@ == outside_brackets(v@, 0),
{
    let mut caps: Vec<Vec<char>> = Vec::new();
    let mut rest: Vec<char> = Vec::new();
    let mut i: usize = 0;
    while i < v.len()
        invariant
            i <= v@.len(),
            char_vec_views(caps@) + bracket_captures(v@, i as int) == bracket_captures(v@, 0),
            rest@ + outside_brackets(v@, i as int) == outside_brackets(v@, 0),
        decreases v@.len() - i,
    {
        proof {
            lemma_group_end_range(v@, i as int);
        }
        match find_group_end(v, i) {
            Some(j) => {
                let ghost before = char_vec_views(caps@);
                let cap = slice_chars(v, i + 1, j);
                caps.push(cap);
                assert(char_vec_views(caps@) == before.push(v@.subrange(i + 1, j as int)));
                assert(char_vec_views(caps@) + bracket_captures(v@, j + 1) == before + (seq![
                    v@.subrange(i + 1, j as int),
                ] + bracket_captures(v@, j + 1)));
                i = j + 1;
            },
            None => {
                let ghost before = rest@;
                rest.push(v[i]);
                assert(rest@ + outside_brackets(v@, i + 1) == before + (seq![v@[i as int]]
                    + outside_brackets(v@, i + 1)));
                i = i + 1;
            },
        }
    }
    assert(char_vec_views(caps@) + Seq::<Seq<char>>::empty() == char_vec_views(caps@));
    assert(rest@ + Seq::<char>::empty() == rest@);
    (caps, rest)
}

// ---------------------------------------------------------------------------
// Keywords of one name.
// ---------------------------------------------------------------------------

/// The pieces of `ps` that hold more than one character, in order.
pub open spec fn keep_multichar(ps: Seq<Seq<char>>) -> Seq<Seq<char>>
    decreases ps.len(),
{
    if ps.len() == 0 {
        Seq::empty()
    } else {
        let r = keep_multichar(ps.drop_last());
        if ps.last().len() > 1 {
            r.push(ps.last())
        } else {
            r
        }
    }
}

/// The pieces of `ps`, each trimmed of white space, that then hold more than one
/// character, in order.
pub open spec fn trimmed_multichar(ps: Seq<Seq<char>>) -> Seq<Seq<char>>
    decreases ps.len(),
{
    if ps.len() == 0 {
        Seq::empty()
    } else {
        let r = trimmed_multichar(ps.drop_last());
        if trim(ps.last()).len() > 1 {
            r.push(trim(ps.last()))
        } else {
            r
        }
    }
}

/// The characters that separate keywords outside brackets: `,`, `-`, `_`, and
/// with `space` also the space.
pub open spec fn keyword_delimiters(space: bool) -> Seq<char> {
    if space {
        seq![',', '-', '_', ' ']
    } else {
        seq![',', '-', '_']
    }
}

/// The keywords of a file name: with its extension removed, first the contents of
/// its bracket groups that hold more than one character, then the rest of the name
/// split at the delimiters, each piece trimmed, those that hold more than one
/// character; each part in the order of the name.
pub open spec fn filename_keywords(name: Seq<char>, space: bool) -> Seq<Seq<char>> {
    let base = strip_extension(name);
    keep_multichar(bracket_captures(base, 0)) + trimmed_multichar(
        split_by(outside_brackets(base, 0), keyword_delimiters(space)),
    )
}

pub(crate) fn keep_multichar_exec(ps: &Vec<Vec<char>>) -> (r: Vec<Vec<char>>)
    ensures
        char_vec_views(r@) == keep_multichar(char_vec_views(ps@)),
{
    let mut r: Vec<Vec<char>> = Vec::new();
    let mut i: usize = 0;
    while i < ps.len()
        invariant
            i <= ps@.len(),
            char_vec_views(r@) == keep_multichar(char_vec_views(ps@).take(i as int)),
        decreases ps@.len() - i,
    {
        let ghost views = char_vec_views(ps@);
        assert(views.take(i + 1).drop_last() == views.take(i as int));
        assert(views.take(i + 1).last() == ps@[i as int]@);
        if ps[i].len() > 1 {
            let ghost before = char_vec_views(r@);
            r.push(slice_chars(&ps[i], 0, ps[i].len()));
            assert(ps@[i as int]@.subrange(0, ps@[i as int]@.len() as int) == ps@[i as int]@);
            assert(char_vec_views(r@) == before.push(ps@[i as int]@));
        }
        i = i + 1;
    }
    assert(char_vec_views(ps@).take(ps@.len() as int) == char_vec_views(ps@));
    r
}

fn trimmed_multichar_exec(ps: &Vec<Vec<char>>) -> (r: Vec<Vec<char>>)
    ensures
        char_vec_views(r@) == trimmed_multichar(char_vec_views(ps@)),
{
    let mut r: Vec<Vec<char>> = Vec::new();
    let mut i: usize = 0;
    while i < ps.len()
        invariant
            i <= ps@.len(),
            char_vec_views(r@) == trimmed_multichar(char_vec_views(ps@).take(i as int)),
        decreases ps@.len() - i,
    {
        let ghost views = char_vec_views(ps@);
        assert(views.take(i + 1).drop_last() == views.take(i as int));
        assert(views.take(i + 1).last() == ps@[i as int]@);
        let t = trim_chars(&ps[i]);
        if t.len() > 1 {
            let ghost before = char_vec_views(r@);
            r.push(t);
            assert(char_vec_views(r@) == before.push(trim(ps@[i as int]@)));
        }
        i = i + 1;
    }
    assert(char_vec_views(ps@).take(ps@.len() as int) == char_vec_views(ps@));
    r
}

fn keyword_delimiters_exec(space: bool) -> (r: Vec<char>)
    ensures
        r@ == keyword_delimiters(space),
{
    let mut r: Vec<char> = Vec::new();
    r.push(',');
    r.push('-');
    r.push('_');
    if space {
        r.push(' ');
    }
    r
}

/// The keywords of one name as characters; see [`filename_keywords`].
pub fn filename_keyword_chars(name: &Vec<char>, space_delimiters: bool) -> (r: Vec<Vec<char>>)
    ensures
        char_vec_views(r@) == filename_keywords(name@, space_delimiters),
{
    let base = strip_extension_chars(name);
    let (caps, rest) = scan_brackets(&base);
    let mut keywords = keep_multichar_exec(&caps);
    let delims = keyword_delimiters_exec(space_delimiters);
    let pieces = split_chars(&rest, &delims);
    let mut tail = trimmed_multichar_exec(&pieces);
    let ghost a = char_vec_views(keywords@);
    let ghost b = char_vec_views(tail@);
    keywords.append(&mut tail);
    assert(char_vec_views(keywords@) == a + b);
    keywords
}

/// Extracts the keywords of a file name (see [`filename_keywords`]); with
/// `space_delimiters` the space separates keywords too.
pub fn extract_keywords(filename_wo_ext: &String, space_delimiters: bool) -> (r: Vec<String>)
    ensures
        string_views(r@) == filename_keywords(filename_wo_ext@, space_delimiters),
{
    let name = chars_of(filename_wo_ext.as_str());
    let keywords = filename_keyword_chars(&name, space_delimiters);
    strings_from_char_vecs(&keywords)
}

proof fn lemma_keep_multichar_long(ps: Seq<Seq<char>>)
    ensures
        forall|i: int| 0 <= i < keep_multichar(ps).len() ==> (#[trigger] keep_multichar(ps)[i]).len() > 1,
    decreases ps.len(),
{
    if ps.len() > 0 {
        let r = keep_multichar(ps.drop_last());
        lemma_keep_multichar_long(ps.drop_last());
        assert forall|i: int| 0 <= i < keep_multichar(ps).len() implies (
        #[trigger] keep_multichar(ps)[i]).len() > 1 by {
            if i < r.len() {
                assert(keep_multichar(ps)[i] == r[i]);
            }
        }
    }
}

proof fn lemma_trimmed_multichar_long(ps: Seq<Seq<char>>)
    ensures
        forall|i: int|
            0 <= i < trimmed_multichar(ps).len() ==> (#[trigger] trimmed_multichar(ps)[i]).len() > 1
                && trim(trimmed_multichar(ps)[i]) == trimmed_multichar(ps)[i],
    decreases ps.len(),
{
    if ps.len() > 0 {
        let r = trimmed_multichar(ps.drop_last());
        lemma_trimmed_multichar_long(ps.drop_last());
        lemma_trim_idempotent(ps.last());
        assert forall|i: int| 0 <= i < trimmed_multichar(ps).len() implies (
        #[trigger] trimmed_multichar(ps)[i]).len() > 1 && trim(trimmed_multichar(ps)[i])
            == trimmed_multichar(ps)[i] by {
            if i < r.len() {
                assert(trimmed_multichar(ps)[i] == r[i]);
            }
        }
    }
}

/// Law: every keyword of a name holds more than one character, and every
/// keyword found outside brackets has no white space at either end.
pub proof fn law_keywords_have_several_chars(name: Seq<char>, space: bool)
    ensures
        forall|i: int|
            0 <= i < filename_keywords(name, space).len() ==> (#[trigger] filename_keywords(
                name,
                space,
            )[i]).len() > 1,
        forall|i: int|
            keep_multichar(bracket_captures(strip_extension(name), 0)).len() <= i < filename_keywords(
                name,
                space,
            ).len() ==> trim(#[trigger] filename_keywords(name, space)[i]) == filename_keywords(
                name,
                space,
            )[i],
{
    let base = strip_extension(name);
    let a = keep_multichar(bracket_captures(base, 0));
    let b = trimmed_multichar(split_by(outside_brackets(base, 0), keyword_delimiters(space)));
    lemma_keep_multichar_long(bracket_captures(base, 0));
    lemma_trimmed_multichar_long(split_by(outside_brackets(base, 0), keyword_delimiters(space)));
    assert forall|i: int| 0 <= i < (a + b).len() implies (#[trigger] (a + b)[i]).len() > 1 by {
        if i < a.len() {
            assert((a + b)[i] == a[i]);
        } else {
            assert((a + b)[i] == b[i - a.len()]);
        }
    }
    assert forall|i: int| a.len() <= i < (a + b).len() implies trim(#[trigger] (a + b)[i]) == (a
        + b)[i] by {
        assert((a + b)[i] == b[i - a.len()]);
    }
}

proof fn lemma_trimmed_multichar_free(ps: Seq<Seq<char>>, delims: Seq<char>)
    requires
        forall|i: int, j: int|
            0 <= i < ps.len() && 0 <= j < ps[i].len() ==> !delims.contains(#[trigger] ps[i][j]),
    ensures
        forall|i: int, j: int|
            0 <= i < trimmed_multichar(ps).len() && 0 <= j < trimmed_multichar(ps)[i].len()
                ==> !delims.contains(#[trigger] trimmed_multichar(ps)[i][j]),
    decreases ps.len(),
{
    if ps.len() > 0 {
        let p = ps.drop_last();
        let r = trimmed_multichar(p);
        assert forall|i: int, j: int| 0 <= i < p.len() && 0 <= j < p[i].len() implies !delims.contains(
            #[trigger] p[i][j],
        ) by {
            assert(p[i] == ps[i]);
        }
        lemma_trimmed_multichar_free(p, delims);
        lemma_trim_chars_from(ps.last());
        let t = trimmed_multichar(ps);
        assert forall|i: int, j: int| 0 <= i < t.len() && 0 <= j < t[i].len() implies !delims.contains(
            #[trigger] t[i][j],
        ) by {
            if i < r.len() {
                assert(t[i] == r[i]);
            } else {
                assert(t[i] == trim(ps.last()));
                let x = trim(ps.last())[j];
                assert(ps.last().contains(x));
                let k = choose|k: int| 0 <= k < ps.last().len() && ps.last()[k] == x;
                assert(ps[ps.len() - 1][k] == x);
            }
        }
    }
}

/// Law: no keyword found outside brackets holds a delimiter (`,`, `-`, `_`, and
/// with `space` the space): the delimiters separate keywords and never belong to
/// one.
pub proof fn law_keywords_hold_no_delimiter(name: Seq<char>, space: bool)
    ensures
        forall|i: int, j: int|
            keep_multichar(bracket_captures(strip_extension(name), 0)).len() <= i < filename_keywords(
                name,
                space,
            ).len() && 0 <= j < filename_keywords(name, space)[i].len() ==> !keyword_delimiters(
                space,
            ).contains(#[trigger] filename_keywords(name, space)[i][j]),
{
    let base = strip_extension(name);
    let a = keep_multichar(bracket_captures(base, 0));
    let pieces = split_by(outside_brackets(base, 0), keyword_delimiters(space));
    let b = trimmed_multichar(pieces);
    lemma_split_pieces_free(outside_brackets(base, 0), keyword_delimiters(space));
    lemma_trimmed_multichar_free(pieces, keyword_delimiters(space));
    assert forall|i: int, j: int|
        a.len() <= i < (a + b).len() && 0 <= j < (a + b)[i].len() implies !keyword_delimiters(
        space,
    ).contains(#[trigger] (a + b)[i][j]) by {
        assert((a + b)[i] == b[i - a.len()]);
    }
}

// ---------------------------------------------------------------------------
// The space as a further delimiter.
// ---------------------------------------------------------------------------

/// The keywords within one piece when it is split again at spaces: the parts,
/// trimmed, that hold more than one character.
pub open spec fn space_pieces_keywords(p: Seq<char>) -> Seq<Seq<char>> {
    trimmed_multichar(split_by(p, seq![' ']))
}

/// Each keyword split again at spaces (see [`space_pieces_keywords`]), the results
/// one after another.
pub open spec fn space_split_keywords(fs: Seq<Seq<char>>) -> Seq<Seq<char>>
    decreases fs.len(),
{
    if fs.len() == 0 {
        Seq::empty()
    } else {
        space_split_keywords(fs.drop_last()) + space_pieces_keywords(fs.last())
    }
}

proof fn lemma_split_refines(s: Seq<char>)
    ensures
        split_by(s, keyword_delimiters(true)) == split_each(split_by(s, keyword_delimiters(false)), ' '),
    decreases s.len(),
{
    let d3 = keyword_delimiters(false);
    let d4 = keyword_delimiters(true);
    if s.len() == 0 {
        let e = Seq::<char>::empty();
        assert(split_by(e, seq![' ']) == seq![e]);
        let p = seq![e];
        assert(p.drop_last() == Seq::<Seq<char>>::empty());
        assert(p.last() == e);
        assert(split_each(Seq::<Seq<char>>::empty(), ' ') == Seq::<Seq<char>>::empty());
        assert(split_each(p, ' ') == Seq::<Seq<char>>::empty() + seq![e]);
        assert(Seq::<Seq<char>>::empty() + seq![e] == seq![e]);
    } else {
        let c = s.last();
        lemma_split_refines(s.drop_last());
        lemma_split_by_nonempty(s.drop_last(), d3);
        let p3 = split_by(s.drop_last(), d3);
        let p4 = split_by(s.drop_last(), d4);
        let e = Seq::<char>::empty();
        assert(d3.contains(c) <==> (c == ',' || c == '-' || c == '_')) by {
            if d3.contains(c) {
                let i = choose|i: int| 0 <= i < d3.len() && d3[i] == c;
            }
            assert(d3[0] == ',' && d3[1] == '-' && d3[2] == '_');
        }
        assert(d4.contains(c) <==> (c == ',' || c == '-' || c == '_' || c == ' ')) by {
            if d4.contains(c) {
                let i = choose|i: int| 0 <= i < d4.len() && d4[i] == c;
            }
            assert(d4[0] == ',' && d4[1] == '-' && d4[2] == '_' && d4[3] == ' ');
        }
        assert(seq![' '].contains(c) <==> c == ' ') by {
            assert(seq![' '][0] == ' ');
        }
        if d3.contains(c) {
            let q = p3.push(e);
            assert(q.drop_last() == p3);
            assert(split_by(e, seq![' ']) == seq![e]);
            assert(split_each(q, ' ') == p4 + seq![e]);
            assert(p4 + seq![e] == p4.push(e));
        } else {
            let l = p3.last();
            let q = p3.update(p3.len() - 1, l.push(c));
            assert(q.drop_last() == p3.drop_last());
            assert(q.last() == l.push(c));
            let ed = split_each(p3.drop_last(), ' ');
            let t = split_by(l, seq![' ']);
            assert(split_each(p3, ' ') == ed + t);
            assert(l.push(c).drop_last() == l);
            assert(l.push(c).last() == c);
            lemma_split_by_nonempty(l, seq![' ']);
            if c == ' ' {
                assert(split_by(l.push(c), seq![' ']) == t.push(e));
                assert(split_each(q, ' ') == ed + t.push(e));
                assert(ed + t.push(e) == (ed + t).push(e));
            } else {
                let tu = t.update(t.len() - 1, t.last().push(c));
                assert(split_by(l.push(c), seq![' ']) == tu);
                assert(split_each(q, ' ') == ed + tu);
                assert((ed + t).last() == t.last());
                assert(ed + tu =~= (ed + t).update((ed + t).len() - 1, (ed + t).last().push(c)));
            }
        }
    }
}

proof fn lemma_trimmed_multichar_single(x: Seq<char>)
    ensures
        trimmed_multichar(seq![x]) == if trim(x).len() > 1 {
            seq![trim(x)]
        } else {
            Seq::<Seq<char>>::empty()
        },
{
    let p = seq![x];
    assert(p.drop_last() == Seq::<Seq<char>>::empty());
    assert(p.last() == x);
    assert(trimmed_multichar(Seq::<Seq<char>>::empty()) == Seq::<Seq<char>>::empty());
    assert(Seq::<Seq<char>>::empty().push(trim(x)) == seq![trim(x)]);
}

proof fn lemma_trimmed_multichar_concat(a: Seq<Seq<char>>, b: Seq<Seq<char>>)
    ensures
        trimmed_multichar(a + b) == trimmed_multichar(a) + trimmed_multichar(b),
    decreases b.len(),
{
    if b.len() == 0 {
        assert(a + b == a);
        assert(trimmed_multichar(a) + Seq::<Seq<char>>::empty() == trimmed_multichar(a));
    } else {
        assert((a + b).drop_last() == a + b.drop_last());
        assert((a + b).last() == b.last());
        lemma_trimmed_multichar_concat(a, b.drop_last());
        let x = trim(b.last());
        if x.len() > 1 {
            assert(trimmed_multichar(a) + trimmed_multichar(b.drop_last()).push(x) == (
            trimmed_multichar(a) + trimmed_multichar(b.drop_last())).push(x));
        }
    }
}

proof fn lemma_space_pieces_push_white(q: Seq<char>, w: char)
    requires
        is_white_space(w),
    ensures
        space_pieces_keywords(q.push(w)) == space_pieces_keywords(q),
{
    let p = q.push(w);
    let e = Seq::<char>::empty();
    let sq = split_by(q, seq![' ']);
    lemma_split_by_nonempty(q, seq![' ']);
    assert(p.drop_last() == q);
    assert(p.last() == w);
    assert(seq![' '].contains(w) <==> w == ' ') by {
        assert(seq![' '][0] == ' ');
    }
    if w == ' ' {
        assert(split_by(p, seq![' ']) == sq.push(e));
        assert(sq.push(e).drop_last() == sq);
        assert(trim(e) == e) by {
            assert(trim_end(e) == e);
        }
    } else {
        let l = sq.last();
        let su = sq.update(sq.len() - 1, l.push(w));
        assert(split_by(p, seq![' ']) == su);
        assert(su.drop_last() == sq.drop_last());
        assert(su.last() == l.push(w));
        lemma_trim_push_white(l, w);
    }
}

proof fn lemma_space_pieces_trim_end(p: Seq<char>)
    ensures
        space_pieces_keywords(p) == space_pieces_keywords(trim_end(p)),
    decreases p.len(),
{
    if p.len() > 0 && is_white_space(p.last()) {
        assert(p.drop_last().push(p.last()) == p);
        lemma_space_pieces_push_white(p.drop_last(), p.last());
        lemma_space_pieces_trim_end(p.drop_last());
    }
}

proof fn lemma_space_pieces_prepend_white(w: char, x: Seq<char>)
    requires
        is_white_space(w),
    ensures
        space_pieces_keywords(seq![w] + x) == space_pieces_keywords(x),
{
    let e = Seq::<char>::empty();
    let sx = split_by(x, seq![' ']);
    lemma_split_prepend(w, x, ' ');
    lemma_split_by_nonempty(x, seq![' ']);
    if w == ' ' {
        lemma_trimmed_multichar_concat(seq![e], sx);
        assert(seq![e].drop_last() == Seq::<Seq<char>>::empty());
        assert(trim(e) == e) by {
            assert(trim_end(e) == e);
        }
        lemma_trimmed_multichar_single(e);
        assert(Seq::<Seq<char>>::empty() + trimmed_multichar(sx) == trimmed_multichar(sx));
    } else {
        let s0 = sx[0];
        let rest = sx.drop_first();
        assert(sx == seq![s0] + rest);
        assert(sx.update(0, seq![w] + s0) == seq![seq![w] + s0] + rest);
        lemma_trimmed_multichar_concat(seq![seq![w] + s0], rest);
        lemma_trimmed_multichar_concat(seq![s0], rest);
        lemma_trim_prepend_white(w, s0);
        assert(seq![seq![w] + s0].drop_last() == Seq::<Seq<char>>::empty());
        assert(seq![s0].drop_last() == Seq::<Seq<char>>::empty());
        assert(trimmed_multichar(seq![seq![w] + s0]) == trimmed_multichar(seq![s0]));
    }
}

proof fn lemma_space_pieces_trim_start(p: Seq<char>)
    ensures
        space_pieces_keywords(p) == space_pieces_keywords(trim_start(p)),
    decreases p.len(),
{
    if p.len() > 0 && is_white_space(p[0]) {
        assert(seq![p[0]] + p.drop_first() == p);
        lemma_space_pieces_prepend_white(p[0], p.drop_first());
        lemma_space_pieces_trim_start(p.drop_first());
    }
}

proof fn lemma_space_pieces_short(x: Seq<char>)
    requires
        x.len() <= 1,
    ensures
        space_pieces_keywords(x) == Seq::<Seq<char>>::empty(),
{
    let e = Seq::<char>::empty();
    assert(split_by(e, seq![' ']) == seq![e]);
    lemma_trim_len(e);
    lemma_trimmed_multichar_single(e);
    if x.len() == 0 {
        assert(x == e);
    } else {
        let c = x[0];
        assert(x.drop_last() == e);
        assert(x.last() == c);
        assert(seq![' '].contains(c) <==> c == ' ') by {
            assert(seq![' '][0] == ' ');
        }
        if c == ' ' {
            assert(split_by(x, seq![' ']) == seq![e] + seq![e]);
            lemma_trimmed_multichar_concat(seq![e], seq![e]);
        } else {
            assert(split_by(x, seq![' ']) == seq![e.push(c)]);
            lemma_trim_len(e.push(c));
            lemma_trimmed_multichar_single(e.push(c));
        }
    }
}

proof fn lemma_space_pieces_of_piece(p: Seq<char>)
    ensures
        space_pieces_keywords(p) == if trim(p).len() > 1 {
            space_pieces_keywords(trim(p))
        } else {
            Seq::<Seq<char>>::empty()
        },
{
    lemma_space_pieces_trim_end(p);
    lemma_space_pieces_trim_start(trim_end(p));
    if trim(p).len() <= 1 {
        lemma_space_pieces_short(trim(p));
    }
}

proof fn lemma_trimmed_split_each(ps: Seq<Seq<char>>)
    ensures
        trimmed_multichar(split_each(ps, ' ')) == space_split_keywords(trimmed_multichar(ps)),
    decreases ps.len(),
{
    if ps.len() > 0 {
        let p = ps.last();
        lemma_trimmed_split_each(ps.drop_last());
        lemma_trimmed_multichar_concat(split_each(ps.drop_last(), ' '), split_by(p, seq![' ']));
        lemma_space_pieces_of_piece(p);
        let prev = trimmed_multichar(ps.drop_last());
        if trim(p).len() > 1 {
            assert(prev.push(trim(p)).drop_last() == prev);
        } else {
            assert(space_split_keywords(prev) + Seq::<Seq<char>>::empty() == space_split_keywords(prev));
        }
    }
}

/// Law: with the space as a further delimiter, the bracket keywords stay as they
/// are, and the other keywords are those found without it, each split again at
/// spaces, trimmed, and kept where they hold more than one character.
pub proof fn law_space_refines_keywords(name: Seq<char>)
    ensures
        ({
            let n = keep_multichar(bracket_captures(strip_extension(name), 0)).len() as int;
            filename_keywords(name, true) == filename_keywords(name, false).take(n)
                + space_split_keywords(filename_keywords(name, false).skip(n))
        }),
{
    let base = strip_extension(name);
    let a = keep_multichar(bracket_captures(base, 0));
    let rest = outside_brackets(base, 0);
    let b3 = trimmed_multichar(split_by(rest, keyword_delimiters(false)));
    lemma_split_refines(rest);
    lemma_trimmed_split_each(split_by(rest, keyword_delimiters(false)));
    assert((a + b3).take(a.len() as int) == a);
    assert((a + b3).skip(a.len() as int) == b3);
}

// ---------------------------------------------------------------------------
// Keywords of many names, counted.
// ---------------------------------------------------------------------------

/// The keywords of all `names`, name after name.
pub open spec fn all_keywords(names: Seq<Seq<char>>, space: bool) -> Seq<Seq<char>>
    decreases names.len(),
{
    if names.len() == 0 {
        Seq::empty()
    } else {
        all_keywords(names.drop_last(), space) + filename_keywords(names.last(), space)
    }
}

proof fn lemma_all_keywords_prefix(names: Seq<Seq<char>>, space: bool, i: int)
    requires
        0 <= i <= names.len(),
    ensures
        all_keywords(names.take(i), space).len() <= all_keywords(names, space).len(),
    decreases names.len(),
{
    if i < names.len() {
        assert(names.take(i) == names.drop_last().take(i));
        lemma_all_keywords_prefix(names.drop_last(), space, i);
    } else {
        assert(names.take(i) == names);
    }
}

proof fn lemma_all_keywords_concat(a: Seq<Seq<char>>, b: Seq<Seq<char>>, space: bool)
    ensures
        all_keywords(a + b, space) == all_keywords(a, space) + all_keywords(b, space),
    decreases b.len(),
{
    if b.len() == 0 {
        assert(a + b == a);
        assert(all_keywords(a, space) + Seq::<Seq<char>>::empty() == all_keywords(a, space));
    } else {
        assert((a + b).drop_last() == a + b.drop_last());
        assert((a + b).last() == b.last());
        lemma_all_keywords_concat(a, b.drop_last(), space);
        assert(all_keywords(a, space) + all_keywords(b.drop_last(), space) + filename_keywords(
            b.last(),
            space,
        ) == all_keywords(a, space) + (all_keywords(b.drop_last(), space) + filename_keywords(
            b.last(),
            space,
        )));
    }
}

/// Law: the counts for two lists of names together are the sums of their
/// separate counts, keyword by keyword; so the counts do not depend on the order
/// of the lists, and no names give no counts.
pub proof fn law_counts_add(a: Seq<Seq<char>>, b: Seq<Seq<char>>, space: bool)
    ensures
        forall|k: Seq<char>|
            #[trigger] count_in(tally(all_keywords(a + b, space)), k) == count_in(
                tally(all_keywords(a, space)),
                k,
            ) + count_in(tally(all_keywords(b, space)), k),
        forall|k: Seq<char>|
            #[trigger] count_in(tally(all_keywords(a + b, space)), k) == count_in(
                tally(all_keywords(b + a, space)),
                k,
            ),
        tally(all_keywords(Seq::empty(), space)) == Map::<Seq<char>, nat>::empty(),
{
    lemma_all_keywords_concat(a, b, space);
    lemma_all_keywords_concat(b, a, space);
    lemma_tally_concat(all_keywords(a, space), all_keywords(b, space));
    lemma_tally_concat(all_keywords(b, space), all_keywords(a, space));
}

/// The occurrences of `k` among the keywords of each name, summed over the names.
pub open spec fn occurrences_per_name(names: Seq<Seq<char>>, space: bool, k: Seq<char>) -> nat
    decreases names.len(),
{
    if names.len() == 0 {
        0
    } else {
        occurrences_per_name(names.drop_last(), space, k) + occurrences(
            filename_keywords(names.last(), space),
            k,
        )
    }
}

/// Law: the count of a keyword is the sum, over the names, of its occurrences
/// among the keywords that extraction gives for that name with the same choice
/// of delimiters; a single name is counted from its own keywords.
pub proof fn law_count_is_sum_over_names(names: Seq<Seq<char>>, space: bool)
    ensures
        forall|k: Seq<char>|
            #[trigger] count_in(tally(all_keywords(names, space)), k) == occurrences_per_name(
                names,
                space,
                k,
            ),
        names.len() == 1 ==> all_keywords(names, space) == filename_keywords(names[0], space),
    decreases names.len(),
{
    lemma_tally_occurrences(all_keywords(names, space));
    if names.len() > 0 {
        law_count_is_sum_over_names(names.drop_last(), space);
        lemma_tally_occurrences(all_keywords(names.drop_last(), space));
        assert forall|k: Seq<char>| #[trigger] count_in(tally(all_keywords(names, space)), k)
            == occurrences_per_name(names, space, k) by {
            lemma_occurrences_concat(
                all_keywords(names.drop_last(), space),
                filename_keywords(names.last(), space),
                k,
            );
            assert(count_in(tally(all_keywords(names.drop_last(), space)), k)
                == occurrences_per_name(names.drop_last(), space, k));
        }
        if names.len() == 1 {
            assert(names.drop_last() == Seq::<Seq<char>>::empty());
            assert(Seq::<Seq<char>>::empty() + filename_keywords(names[0], space) == filename_keywords(
                names[0],
                space,
            ));
        }
    } else {
        assert forall|k: Seq<char>| #[trigger] count_in(tally(all_keywords(names, space)), k)
            == occurrences_per_name(names, space, k) by {}
    }
}

/// Counts the keywords of all file names: each keyword maps to the number of its
/// occurrences among the keywords of all names (see [`filename_keywords`]).
pub fn extract_keywords_and_count_from_filenames(filenames: &Vec<String>, space_delimiters: bool) -> (r:
    KeywordCounts)
    requires
        all_keywords(string_views(filenames@), space_delimiters).len() <= usize::MAX,
    ensures
        r@ == tally(all_keywords(string_views(filenames@), space_delimiters)),
        forall|k: Seq<char>|
            #[trigger] r@.contains_key(k) <==> occurrences(
                all_keywords(string_views(filenames@), space_delimiters),
                k,
            ) > 0,
        forall|k: Seq<char>|
            #[trigger] r@.contains_key(k) ==> r@[k] == occurrences(
                all_keywords(string_views(filenames@), space_delimiters),
                k,
            ),
        forall|k: Seq<char>|
            #[trigger] count_in(r@, k) == occurrences_per_name(
                string_views(filenames@),
                space_delimiters,
                k,
            ),
{
    proof {
        law_count_is_sum_over_names(string_views(filenames@), space_delimiters);
    }
    let ghost names = string_views(filenames@);
    let mut counts = KeywordCounts::new();
    let mut i: usize = 0;
    while i < filenames.len()
        invariant
            i <= filenames@.len(),
            names == string_views(filenames@),
            all_keywords(names, space_delimiters).len() <= usize::MAX,
            counts@ == tally(all_keywords(names.take(i as int), space_delimiters)),
        decreases filenames@.len() - i,
    {
        let keywords = extract_keywords(&filenames[i], space_delimiters);
        let ghost done = all_keywords(names.take(i as int), space_delimiters);
        let ghost kws = string_views(keywords@);
        assert(names.take(i + 1).drop_last() == names.take(i as int));
        assert(names.take(i + 1).last() == filenames@[i as int]@);
        assert(all_keywords(names.take(i + 1), space_delimiters) == done + kws);
        proof {
            lemma_all_keywords_prefix(names, space_delimiters, i + 1);
        }
        let mut j: usize = 0;
        assert(done + kws.take(0) == done);
        while j < keywords.len()
            invariant
                j <= keywords@.len(),
                kws == string_views(keywords@),
                (done + kws).len() <= usize::MAX,
                counts@ == tally(done + kws.take(j as int)),
            decreases keywords@.len() - j,
        {
            proof {
                lemma_tally_occurrences(done + kws.take(j as int));
            }
            assert((done + kws.take(j + 1)).drop_last() == done + kws.take(j as int));
            assert((done + kws.take(j + 1)).last() == keywords@[j as int]@);
            counts.increment(&keywords[j]);
            j = j + 1;
        }
        assert(kws.take(keywords@.len() as int) == kws);
        i = i + 1;
    }
    assert(names.take(filenames@.len() as int) == names);
    proof {
        lemma_tally_occurrences(all_keywords(names, space_delimiters));
    }
    counts
}

// ---------------------------------------------------------------------------
// Ordering keywords: by count, then by length, then by first letter.
// ---------------------------------------------------------------------------

/// The code of the first character of the lowercase form of `k`; -1 where that
/// form is empty.
pub open spec fn first_lower_code(k: Seq<char>) -> int {
    let l = lowercase(k);
    if l.len() == 0 {
        -1
    } else {
        (l[0] as u32) as int
    }
}

/// The ordering key of a keyword and its count.
pub open spec fn rank_key(e: (Seq<char>, usize)) -> (int, int, int) {
    (e.1 as int, byte_len(e.0) as int, first_lower_code(e.0))
}

/// `a` comes strictly before `b`: a higher count first; at equal counts a longer
/// keyword (in bytes) first; at equal lengths the smaller first lowercase
/// character first, an empty keyword before all others.
pub open spec fn key_before(a: (int, int, int), b: (int, int, int)) -> bool {
    a.0 > b.0 || (a.0 == b.0 && (a.1 > b.1 || (a.1 == b.1 && a.2 < b.2)))
}

/// [`key_before`] on keyword and count pairs.
pub open spec fn ranks_before(a: (Seq<char>, usize), b: (Seq<char>, usize)) -> bool {
    key_before(rank_key(a), rank_key(b))
}

/// No pair of `s` comes strictly before a pair that precedes it.
pub open spec fn ranked(s: Seq<(Seq<char>, usize)>) -> bool {
    forall|i: int, j: int| 0 <= i < j < s.len() ==> !ranks_before(#[trigger] s[j], #[trigger] s[i])
}

/// The code of an optional character; -1 for none.
pub open spec fn char_code(c: Option<char>) -> int {
    match c {
        Some(c) => (c as u32) as int,
        None => -1,
    }
}

/// What a ranked sequence orders by, stated on the keywords themselves: a higher
/// count first; at equal counts a longer keyword in bytes first; at equal lengths
/// the keyword whose lowercase form starts with the smaller character first, one
/// whose lowercase form is empty before all others.
pub open spec fn ordered_by_count_length_first_letter(s: Seq<(Seq<char>, usize)>) -> bool {
    forall|i: int, j: int|
        0 <= i < s.len() && 0 <= j < s.len() ==> {
            &&& s[i].1 > s[j].1 ==> i < j
            &&& (s[i].1 == s[j].1 && byte_len(#[trigger] s[i].0) > byte_len(#[trigger] s[j].0)) ==> i < j
            &&& (s[i].1 == s[j].1 && byte_len(s[i].0) == byte_len(s[j].0) && lowercase(s[j].0).len()
                > 0 && (lowercase(s[i].0).len() == 0 || (lowercase(s[i].0)[0] as u32) < (lowercase(
                s[j].0,
            )[0] as u32))) ==> i < j
        }
}

/// Law: a ranked sequence puts higher counts first, then longer keywords, then
/// the keyword whose lowercase form starts with the smaller character.
pub proof fn law_ranked_order(s: Seq<(Seq<char>, usize)>)
    requires
        ranked(s),
    ensures
        ordered_by_count_length_first_letter(s),
{
    assert forall|i: int, j: int| 0 <= i < s.len() && 0 <= j < s.len() implies {
        &&& s[i].1 > s[j].1 ==> i < j
        &&& (s[i].1 == s[j].1 && byte_len(#[trigger] s[i].0) > byte_len(#[trigger] s[j].0)) ==> i < j
        &&& (s[i].1 == s[j].1 && byte_len(s[i].0) == byte_len(s[j].0) && lowercase(s[j].0).len() > 0
            && (lowercase(s[i].0).len() == 0 || (lowercase(s[i].0)[0] as u32) < (lowercase(
            s[j].0,
        )[0] as u32))) ==> i < j
    } by {
        if j <= i {
            if j < i {
                assert(!ranks_before(s[i], s[j]));
            }
        }
    }
}

fn first_lower_char(k: &String) -> (r: Option<char>)
    ensures
        char_code(r) == first_lower_code(k@),
{
    let lower = to_lowercase(k.as_str());
    let cs = chars_of(lower.as_str());
    if cs.len() == 0 {
        None
    } else {
        Some(cs[0])
    }
}

fn key_before_exec(a: (usize, usize, Option<char>), b: (usize, usize, Option<char>)) -> (r: bool)
    ensures
        r == key_before(
            (a.0 as int, a.1 as int, char_code(a.2)),
            (b.0 as int, b.1 as int, char_code(b.2)),
        ),
{
    let third = match (a.2, b.2) {
        (None, Some(_)) => true,
        (Some(x), Some(y)) => (x as u32) < (y as u32),
        _ => false,
    };
    a.0 > b.0 || (a.0 == b.0 && (a.1 > b.1 || (a.1 == b.1 && third)))
}

/// Orders keywords by count, highest first, then by length in bytes, longest
/// first, then by the first character of their lowercase form (see
/// [`ranks_before`]). Each keyword of the map comes out once with its count;
/// among keywords that no rule tells apart the order is left open.
pub fn sort_by_count_and_keyword_length(keyword_hash: KeywordCounts) -> (r: Vec<(String, usize)>)
    ensures
        r@.len() == keyword_hash@.len(),
        keys_distinct(pair_views(r@)),
        forall|i: int|
            0 <= i < r@.len() ==> keyword_hash@.contains_key(#[trigger] r@[i].0@)
                && keyword_hash@[r@[i].0@] == r@[i].1 as nat,
        forall|k: Seq<char>|
            #[trigger] keyword_hash@.contains_key(k) ==> exists|i: int|
                0 <= i < r@.len() && r@[i].0@ == k,
        ranked(pair_views(r@)),
        ordered_by_count_length_first_letter(pair_views(r@)),
{
    let entries = keyword_hash.to_vec();
    let ghost pairs = pair_views(entries@);
    proof {
        lemma_map_of(pairs);
    }
    let n: usize = entries.len();
    let mut keys: Vec<(usize, usize, Option<char>)> = Vec::new();
    let mut t: usize = 0;
    while t < n
        invariant
            t <= n == entries@.len() == pairs.len(),
            pairs == pair_views(entries@),
            keys@.len() == t,
            forall|u: int|
                0 <= u < t ==> (#[trigger] keys@[u].0 as int, keys@[u].1 as int, char_code(keys@[u].2))
                    == rank_key(pairs[u]),
        decreases n - t,
    {
        let blen: usize = entries[t].0.as_str().len();
        let code = first_lower_char(&entries[t].0);
        keys.push((entries[t].1, blen, code));
        t = t + 1;
    }
    let mut order: Vec<usize> = Vec::new();
    let mut i: usize = 0;
    while i < n
        invariant
            i <= n == entries@.len() == pairs.len() == keys@.len(),
            forall|u: int|
                0 <= u < n ==> (#[trigger] keys@[u].0 as int, keys@[u].1 as int, char_code(keys@[u].2))
                    == rank_key(pairs[u]),
            order@.len() == i,
            forall|q: int| 0 <= q < i ==> #[trigger] order@[q] < i,
            forall|a: int, b: int| 0 <= a < b < i ==> #[trigger] order@[a] != #[trigger] order@[b],
            forall|e: int| 0 <= e < i ==> #[trigger] order@.contains(e as usize),
            forall|a: int, b: int|
                0 <= a < b < i ==> !key_before(
                    rank_key(pairs[#[trigger] order@[b] as int]),
                    rank_key(pairs[#[trigger] order@[a] as int]),
                ),
        decreases n - i,
    {
        let mut p: usize = 0;
        while p < order.len() && !key_before_exec(keys[i], keys[order[p]])
            invariant
                i < n == keys@.len() == pairs.len(),
                forall|u: int|
                    0 <= u < n ==> (#[trigger] keys@[u].0 as int, keys@[u].1 as int, char_code(keys@[u].2))
                        == rank_key(pairs[u]),
                order@.len() == i,
                forall|q: int| 0 <= q < i ==> #[trigger] order@[q] < i,
                p <= order@.len(),
                forall|q: int|
                    0 <= q < p ==> !key_before(
                        rank_key(pairs[i as int]),
                        rank_key(pairs[#[trigger] order@[q] as int]),
                    ),
            decreases order@.len() - p,
        {
            p = p + 1;
        }
        let ghost old_order = order@;
        assert(p < old_order.len() ==> key_before(
            rank_key(pairs[i as int]),
            rank_key(pairs[old_order[p as int] as int]),
        ));
        order.insert(p, i);
        assert(order@ == old_order.insert(p as int, i));
        assert forall|a: int, b: int| 0 <= a < b < i + 1 implies !key_before(
            rank_key(pairs[#[trigger] order@[b] as int]),
            rank_key(pairs[#[trigger] order@[a] as int]),
        ) by {
            if b < p {
                assert(order@[a] == old_order[a] && order@[b] == old_order[b]);
            } else if b == p {
                assert(order@[a] == old_order[a]);
            } else if a < p {
                assert(order@[a] == old_order[a] && order@[b] == old_order[b - 1]);
            } else if a == p {
                assert(order@[b] == old_order[b - 1]);
                if b - 1 > p {
                    assert(!key_before(
                        rank_key(pairs[old_order[b - 1] as int]),
                        rank_key(pairs[old_order[p as int] as int]),
                    ));
                }
            } else {
                assert(order@[a] == old_order[a - 1] && order@[b] == old_order[b - 1]);
            }
        }
        assert forall|q: int| 0 <= q < i + 1 implies #[trigger] order@[q] < i + 1 by {
            if q < p {
                assert(order@[q] == old_order[q]);
            } else if q > p {
                assert(order@[q] == old_order[q - 1]);
            }
        }
        assert forall|a: int, b: int| 0 <= a < b < i + 1 implies #[trigger] order@[a]
            != #[trigger] order@[b] by {
            if a == p {
                assert(order@[b] == old_order[b - 1]);
            } else if b == p {
                assert(order@[a] == old_order[a]);
            } else {
                let oa = if a < p { a } else { a - 1 };
                let ob = if b < p { b } else { b - 1 };
                assert(order@[a] == old_order[oa] && order@[b] == old_order[ob]);
            }
        }
        assert forall|e: int| 0 <= e < i + 1 implies #[trigger] order@.contains(e as usize) by {
            if e == i {
                assert(order@[p as int] == i);
            } else {
                assert(old_order.contains(e as usize));
                let q = choose|q: int| 0 <= q < old_order.len() && old_order[q] == e as usize;
                if q < p {
                    assert(order@[q] == old_order[q]);
                } else {
                    assert(order@[q + 1] == old_order[q]);
                }
            }
        }
        i = i + 1;
    }
    let mut r: Vec<(String, usize)> = Vec::new();
    let mut q: usize = 0;
    while q < n
        invariant
            q <= n == entries@.len() == pairs.len() == order@.len(),
            pairs == pair_views(entries@),
            forall|x: int| 0 <= x < n ==> #[trigger] order@[x] < n,
            r@.len() == q,
            forall|x: int| 0 <= x < q ==> #[trigger] pair_views(r@)[x] == pairs[order@[x] as int],
        decreases n - q,
    {
        let ghost before = r@;
        let e = (entries[order[q]].0.clone(), entries[order[q]].1);
        r.push(e);
        assert forall|x: int| 0 <= x < q + 1 implies #[trigger] pair_views(r@)[x]
            == pairs[order@[x] as int] by {
            if x < q {
                assert(r@[x] == before[x]);
                assert(pair_views(r@)[x] == pair_views(before)[x]);
            } else {
                assert(pairs[order@[x] as int] == (
                    entries@[order@[x] as int].0@,
                    entries@[order@[x] as int].1,
                ));
            }
        }
        q = q + 1;
    }
    let ghost rv = pair_views(r@);
    assert(keys_distinct(rv)) by {
        assert forall|a: int, b: int| 0 <= a < rv.len() && 0 <= b < rv.len() && a != b implies #[trigger] rv[a].0
            != #[trigger] rv[b].0 by {
            assert(rv[a] == pairs[order@[a] as int] && rv[b] == pairs[order@[b] as int]);
            if a < b {
                assert(order@[a] != order@[b]);
            } else {
                assert(order@[b] != order@[a]);
            }
        }
    }
    assert forall|x: int| 0 <= x < r@.len() implies keyword_hash@.contains_key(#[trigger] r@[x].0@)
        && keyword_hash@[r@[x].0@] == r@[x].1 as nat by {
        assert(rv[x] == pairs[order@[x] as int]);
        assert(rv[x] == (r@[x].0@, r@[x].1));
        assert(map_of(pairs).contains_key(pairs[order@[x] as int].0));
    }
    assert forall|k: Seq<char>| #[trigger] keyword_hash@.contains_key(k) implies exists|x: int|
        0 <= x < r@.len() && r@[x].0@ == k by {
        let e = choose|e: int| 0 <= e < pairs.len() && pairs[e].0 == k;
        assert(order@.contains(e as usize));
        let x = choose|x: int| 0 <= x < order@.len() && order@[x] == e as usize;
        assert(rv[x] == pairs[e]);
        assert(rv[x] == (r@[x].0@, r@[x].1));
    }
    assert forall|a: int, b: int| 0 <= a < b < rv.len() implies !ranks_before(#[trigger] rv[b], #[trigger] rv[a]) by {
        assert(rv[a] == pairs[order@[a] as int] && rv[b] == pairs[order@[b] as int]);
    }
    proof {
        law_ranked_order(rv);
    }
    r
}

// ---------------------------------------------------------------------------
// Camel case.
// ---------------------------------------------------------------------------

/// An ASCII capital letter.
pub open spec fn is_ascii_upper(c: char) -> bool {
    'A' <= c && c <= 'Z'
}

/// `s` with a space put before each ASCII capital letter and its own spaces dropped.
pub open spec fn camel_spaced(s: Seq<char>) -> Seq<char>
    decreases s.len(),
{
    if s.len() == 0 {
        Seq::empty()
    } else {
        let prev = camel_spaced(s.drop_last());
        let c = s.last();
        if is_ascii_upper(c) {
            prev.push(' ').push(c)
        } else if c == ' ' {
            prev
        } else {
            prev.push(c)
        }
    }
}

proof fn lemma_camel_spaced_letters(s: Seq<char>)
    ensures
        remove_char(camel_spaced(s), ' ') == remove_char(s, ' '),
    decreases s.len(),
{
    if s.len() > 0 {
        lemma_camel_spaced_letters(s.drop_last());
        let prev = camel_spaced(s.drop_last());
        let c = s.last();
        if is_ascii_upper(c) {
            assert(prev.push(' ').push(c).drop_last() == prev.push(' '));
            assert(prev.push(' ').drop_last() == prev);
            assert(remove_char(prev.push(' '), ' ') == remove_char(prev, ' '));
            assert(remove_char(prev.push(' ').push(c), ' ') == remove_char(prev.push(' '), ' ').push(c));
            assert(remove_char(s, ' ') == remove_char(s.drop_last(), ' ').push(c));
        } else if c != ' ' {
            assert(prev.push(c).drop_last() == prev);
            assert(remove_char(prev.push(c), ' ') == remove_char(prev, ' ').push(c));
            assert(remove_char(s, ' ') == remove_char(s.drop_last(), ' ').push(c));
        } else {
            assert(remove_char(s, ' ') == remove_char(s.drop_last(), ' '));
        }
    }
}

/// Splits a camel-case name into words: a word starts at each ASCII capital
/// letter, and the name's own spaces are dropped (see [`camel_spaced`]). Where
/// the name starts with a capital, the first word is empty.
pub fn extract_keywords_from_camel_case(filename_wo_ext: &String) -> (r: Vec<String>)
    ensures
        string_views(r@) == split_by(camel_spaced(filename_wo_ext@), seq![' ']),
{
    let name = chars_of(filename_wo_ext.as_str());
    let mut spaced: Vec<char> = Vec::new();
    let mut i: usize = 0;
    while i < name.len()
        invariant
            i <= name@.len(),
            spaced@ == camel_spaced(name@.take(i as int)),
        decreases name@.len() - i,
    {
        assert(name@.take(i + 1).drop_last() == name@.take(i as int));
        assert(name@.take(i + 1).last() == name@[i as int]);
        let c = name[i];
        if 'A' <= c && c <= 'Z' {
            spaced.push(' ');
            spaced.push(c);
        } else if c != ' ' {
            spaced.push(c);
        }
        i = i + 1;
    }
    assert(name@.take(name@.len() as int) == name@);
    let mut space: Vec<char> = Vec::new();
    space.push(' ');
    assert(space@ == seq![' ']);
    let pieces = split_chars(&spaced, &space);
    strings_from_char_vecs(&pieces)
}

/// Law: the camel-case words, put end to end, are the name without its spaces;
/// no letter is lost, added or moved.
pub proof fn law_camel_case_words_rejoin(name: Seq<char>)
    ensures
        concat_all(split_by(camel_spaced(name), seq![' '])) == remove_char(name, ' '),
{
    lemma_concat_split(camel_spaced(name), ' ');
    lemma_camel_spaced_letters(name);
}

// ---------------------------------------------------------------------------
// Patterns that find a directory's keywords in file names.
// ---------------------------------------------------------------------------

/// The pattern for keyword `k`: an optional opening bracket or delimiter, the
/// keyword itself (as regular expression text), then a closing bracket or
/// delimiter, which `optional_end` makes optional.
pub open spec fn keyword_pattern(k: Seq<char>, optional_end: bool) -> Seq<char> {
    r"[\(\[\{\-_, ]?"@ + k + if optional_end {
        r"[\)\]\}\-_, ]?"@
    } else {
        r"[\)\]\}\-_, ]"@
    }
}

/// Executable form of [`keyword_pattern`].
pub fn keyword_pattern_string(k: &String, optional_end: bool) -> (r: String)
    ensures
        r@ == keyword_pattern(k@, optional_end),
{
    let head = concat_strings(r"[\(\[\{\-_, ]?", k.as_str());
    if optional_end {
        concat_strings(head.as_str(), r"[\)\]\}\-_, ]?")
    } else {
        concat_strings(head.as_str(), r"[\)\]\}\-_, ]")
    }
}

/// The pieces of `ps` longer than one byte, in order.
pub open spec fn keep_byte_long(ps: Seq<Seq<char>>) -> Seq<Seq<char>>
    decreases ps.len(),
{
    if ps.len() == 0 {
        Seq::empty()
    } else {
        let r = keep_byte_long(ps.drop_last());
        if byte_len(ps.last()) > 1 {
            r.push(ps.last())
        } else {
            r
        }
    }
}

/// The patterns for the keywords of a directory name (keywords found without the
/// space as delimiter, those longer than one byte), in order.
pub open spec fn dir_keyword_patterns(dirname: Seq<char>, optional_end: bool) -> Seq<Seq<char>> {
    keep_byte_long(filename_keywords(dirname, false)).map_values(
        |k: Seq<char>| keyword_pattern(k, optional_end),
    )
}

proof fn lemma_keep_byte_long_filters(ps: Seq<Seq<char>>)
    ensures
        keep_byte_long(ps) == ps.filter(|k: Seq<char>| byte_len(k) > 1),
    decreases ps.len(),
{
    reveal(Seq::filter);
    if ps.len() > 0 {
        lemma_keep_byte_long_filters(ps.drop_last());
    }
}

/// A directory name gives one pattern for each of its keywords (found without the
/// space as delimiter) that is longer than one byte, in the order of the keywords,
/// and no other: every such keyword has its pattern among them, and every pattern
/// is that of such a keyword.
pub proof fn law_dir_patterns_one_per_long_keyword(dirname: Seq<char>, optional_end: bool)
    ensures
        dir_keyword_patterns(dirname, optional_end) == filename_keywords(dirname, false).filter(
            |k: Seq<char>| byte_len(k) > 1,
        ).map_values(|k: Seq<char>| keyword_pattern(k, optional_end)),
        forall|i: int|
            0 <= i < filename_keywords(dirname, false).len() && byte_len(
                #[trigger] filename_keywords(dirname, false)[i],
            ) > 1 ==> dir_keyword_patterns(dirname, optional_end).contains(
                keyword_pattern(filename_keywords(dirname, false)[i], optional_end),
            ),
        forall|j: int|
            0 <= j < dir_keyword_patterns(dirname, optional_end).len() ==> exists|i: int|
                0 <= i < filename_keywords(dirname, false).len() && byte_len(
                    #[trigger] filename_keywords(dirname, false)[i],
                ) > 1 && #[trigger] dir_keyword_patterns(dirname, optional_end)[j]
                    == keyword_pattern(filename_keywords(dirname, false)[i], optional_end),
{
    let ks = filename_keywords(dirname, false);
    let f = |k: Seq<char>| byte_len(k) > 1;
    let g = |k: Seq<char>| keyword_pattern(k, optional_end);
    lemma_keep_byte_long_filters(ks);
    let fl = ks.filter(f);
    let ps = dir_keyword_patterns(dirname, optional_end);
    assert(ps == fl.map_values(g));
    assert forall|i: int| 0 <= i < ks.len() && byte_len(#[trigger] ks[i]) > 1 implies ps.contains(
        keyword_pattern(ks[i], optional_end),
    ) by {
        ks.lemma_filter_contains(f, i);
        let j = choose|j: int| 0 <= j < fl.len() && fl[j] == ks[i];
        assert(ps[j] == keyword_pattern(ks[i], optional_end));
    }
    assert forall|j: int| 0 <= j < ps.len() implies exists|i: int|
        0 <= i < ks.len() && byte_len(#[trigger] ks[i]) > 1 && #[trigger] ps[j] == keyword_pattern(
            ks[i],
            optional_end,
        ) by {
        ks.lemma_filter_pred(f, j);
        assert(fl.contains(fl[j]));
        ks.lemma_filter_contains_rev(f, fl[j]);
        let i = choose|i: int| 0 <= i < ks.len() && ks[i] == fl[j];
        assert(ps[j] == keyword_pattern(ks[i], optional_end));
    }
}

/// Every pattern compiles.
pub open spec fn all_compile(patterns: Seq<Seq<char>>) -> bool {
    forall|i: int| 0 <= i < patterns.len() ==> regex_compiles(#[trigger] patterns[i])
}

/// The patterns of [`dir_keyword_patterns`] as strings.
pub fn dir_keyword_pattern_strings(dirname: &String, optional_end: bool) -> (r: Vec<String>)
    ensures
        string_views(r@) == dir_keyword_patterns(dirname@, optional_end),
{
    let keywords = extract_keywords(dirname, false);
    let mut r: Vec<String> = Vec::new();
    let mut i: usize = 0;
    let ghost kws = string_views(keywords@);
    while i < keywords.len()
        invariant
            i <= keywords@.len(),
            kws == string_views(keywords@),
            string_views(r@) == keep_byte_long(kws.take(i as int)).map_values(
                |k: Seq<char>| keyword_pattern(k, optional_end),
            ),
        decreases keywords@.len() - i,
    {
        assert(kws.take(i + 1).drop_last() == kws.take(i as int));
        assert(kws.take(i + 1).last() == keywords@[i as int]@);
        if keywords[i].as_str().len() > 1 {
            let ghost before = string_views(r@);
            let p = keyword_pattern_string(&keywords[i], optional_end);
            r.push(p);
            assert(string_views(r@) =~= before.push(keyword_pattern(keywords@[i as int]@, optional_end)));
            assert(keep_byte_long(kws.take(i + 1)) == keep_byte_long(kws.take(i as int)).push(
                keywords@[i as int]@,
            ));
            assert(keep_byte_long(kws.take(i + 1)).map_values(
                |k: Seq<char>| keyword_pattern(k, optional_end),
            ) =~= before.push(keyword_pattern(keywords@[i as int]@, optional_end)));
        }
        i = i + 1;
    }
    assert(kws.take(keywords@.len() as int) == kws);
    r
}

/// Compiles each pattern in order; `None` where one does not compile.
pub fn compile_patterns(patterns: &Vec<String>) -> (r: Option<Vec<KeywordRegex>>)
    ensures
        r is Some <==> all_compile(string_views(patterns@)),
        r matches Some(v) ==> regex_views(v@) == string_views(patterns@),
{
    let mut v: Vec<KeywordRegex> = Vec::new();
    let mut i: usize = 0;
    while i < patterns.len()
        invariant
            i <= patterns@.len(),
            v@.len() == i,
            forall|j: int| 0 <= j < i ==> #[trigger] v@[j]@ == patterns@[j]@,
            forall|j: int| 0 <= j < i ==> regex_compiles(#[trigger] string_views(patterns@)[j]),
        decreases patterns@.len() - i,
    {
        assert(string_views(patterns@)[i as int] == patterns@[i as int]@);
        match KeywordRegex::new(patterns[i].clone()) {
            Some(re) => v.push(re),
            None => {
                return None;
            },
        }
        i = i + 1;
    }
    assert(regex_views(v@) =~= string_views(patterns@));
    Some(v)
}

/// The compiled patterns that recognise the keywords of a directory name in other
/// names (see [`dir_keyword_patterns`]; a closing bracket or delimiter must follow
/// the keyword). Every pattern must compile.
pub fn dirname_to_keyword_regexen(dirname: &String) -> (r: Vec<KeywordRegex>)
    requires
        all_compile(dir_keyword_patterns(dirname@, false)),
    ensures
        regex_views(r@) == dir_keyword_patterns(dirname@, false),
{
    let patterns = dir_keyword_pattern_strings(dirname, false);
    match compile_patterns(&patterns) {
        Some(v) => v,
        None => {
            assert(false);
            Vec::new()
        },
    }
}

/// [`dirname_to_keyword_regexen`] where every pattern compiles; `None` otherwise.
pub fn try_dirname_to_keyword_regexen(dirname: &String) -> (r: Option<Vec<KeywordRegex>>)
    ensures
        r is Some <==> all_compile(dir_keyword_patterns(dirname@, false)),
        r matches Some(v) ==> regex_views(v@) == dir_keyword_patterns(dirname@, false),
{
    let patterns = dir_keyword_pattern_strings(dirname, false);
    if compile_patterns(&patterns).is_none() {
        return None;
    }
    Some(dirname_to_keyword_regexen(dirname))
}

} // verus!
