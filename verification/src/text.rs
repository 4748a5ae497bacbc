//! Character-level helpers on strings, with their specifications.
use vstd::prelude::*;
use vstd::utf8::encode_utf8;

verus! {

/// Whether `c` has the Unicode `White_Space` property (what `char::is_whitespace` tests).
pub open spec fn is_white_space(c: char) -> bool {
    ||| c == ' '
    ||| ('\u{9}' <= c && c <= '\u{d}')
    ||| c == '\u{85}'
    ||| c == '\u{a0}'
    ||| c == '\u{1680}'
    ||| ('\u{2000}' <= c && c <= '\u{200a}')
    ||| c == '\u{2028}'
    ||| c == '\u{2029}'
    ||| c == '\u{202f}'
    ||| c == '\u{205f}'
    ||| c == '\u{3000}'
}

/// Executable form of [`is_white_space`].
pub fn char_is_white_space(c: char) -> (b: bool)
    ensures
        b == is_white_space(c),
{
    c == ' ' || ('\u{9}' <= c && c <= '\u{d}') || c == '\u{85}' || c == '\u{a0}' || c
        == '\u{1680}' || ('\u{2000}' <= c && c <= '\u{200a}') || c == '\u{2028}' || c
        == '\u{2029}' || c == '\u{202f}' || c == '\u{205f}' || c == '\u{3000}'
}

/// The characters of `s`, in order.
pub fn chars_of(s: &str) -> (v: Vec<char>)
    ensures
        v@ == s@,
{
    let mut v: Vec<char> = Vec::new();
    for c in it: s.chars()
        invariant
            v@ == it.seq().take(it.index() as int),
            it.seq() == s@,
    {
        v.push(c);
    }
    v
}

/// Calls `String::push`: the string afterwards is the one before with `c`
/// appended.
#[verifier::external_body]
pub(crate) fn push_char(s: &mut String, c: char)
    ensures
        final(s)@ == old(s)@.push(c),
{
    s.push(c);
}

/// The string made of `v[lo..hi]`.
pub fn string_from_chars(v: &Vec<char>, lo: usize, hi: usize) -> (s: String)
    requires
        lo <= hi <= v@.len(),
    ensures
        s@ == v@.subrange(lo as int, hi as int),
{
    let mut s = String::new();
    let mut i: usize = lo;
    while i < hi
        invariant
            lo <= i <= hi <= v@.len(),
            s@ == v@.subrange(lo as int, i as int),
        decreases hi - i,
    {
        push_char(&mut s, v[i]);
        assert(v@.subrange(lo as int, i + 1) == v@.subrange(lo as int, i as int).push(v@[i as int]));
        i = i + 1;
    }
    s
}

/// `v[lo..hi]` as a vector of its own.
pub fn slice_chars(v: &Vec<char>, lo: usize, hi: usize) -> (r: Vec<char>)
    requires
        lo <= hi <= v@.len(),
    ensures
        r@ == v@.subrange(lo as int, hi as int),
{
    let mut r: Vec<char> = Vec::new();
    let mut i: usize = lo;
    while i < hi
        invariant
            lo <= i <= hi <= v@.len(),
            r@ == v@.subrange(lo as int, i as int),
        decreases hi - i,
    {
        r.push(v[i]);
        assert(v@.subrange(lo as int, i + 1) == v@.subrange(lo as int, i as int).push(v@[i as int]));
        i = i + 1;
    }
    r
}

/// The views of a sequence of strings.
pub open spec fn string_views(v: Seq<String>) -> Seq<Seq<char>> {
    v.map_values(|s: String| s@)
}

/// The views of a sequence of character vectors.
pub open spec fn char_vec_views(v: Seq<Vec<char>>) -> Seq<Seq<char>> {
    v.map_values(|s: Vec<char>| s@)
}

/// Turns character vectors into strings, one for one.
pub fn strings_from_char_vecs(v: &Vec<Vec<char>>) -> (r: Vec<String>)
    ensures
        string_views(r@) == char_vec_views(v@),
{
    let mut r: Vec<String> = Vec::new();
    let mut i: usize = 0;
    while i < v.len()
        invariant
            i <= v@.len(),
            r@.len() == i,
            forall|k: int| 0 <= k < i ==> #[trigger] r@[k]@ == v@[k]@,
        decreases v@.len() - i,
    {
        let s = string_from_chars(&v[i], 0, v[i].len());
        assert(v[i as int]@.subrange(0, v[i as int]@.len() as int) == v[i as int]@);
        r.push(s);
        i = i + 1;
    }
    assert(string_views(r@) =~= char_vec_views(v@));
    r
}

/// `s` with trailing white space removed.
pub open spec fn trim_end(s: Seq<char>) -> Seq<char>
    decreases s.len(),
{
    if s.len() > 0 && is_white_space(s.last()) {
        trim_end(s.drop_last())
    } else {
        s
    }
}

/// `s` with leading white space removed.
pub open spec fn trim_start(s: Seq<char>) -> Seq<char>
    decreases s.len(),
{
    if s.len() > 0 && is_white_space(s[0]) {
        trim_start(s.drop_first())
    } else {
        s
    }
}

/// `s` with leading and trailing white space removed (what `str::trim` does).
pub open spec fn trim(s: Seq<char>) -> Seq<char> {
    trim_start(trim_end(s))
}

/// Executable form of [`trim`].
pub fn trim_chars(v: &Vec<char>) -> (r: Vec<char>)
    ensures
        r@ == trim(v@),
{
    let mut hi: usize = v.len();
    assert(v@.take(hi as int) == v@);
    while hi > 0 && char_is_white_space(v[hi - 1])
        invariant
            hi <= v@.len(),
            trim_end(v@) == trim_end(v@.take(hi as int)),
        decreases hi,
    {
        assert(v@.take(hi as int).drop_last() == v@.take(hi - 1));
        hi = hi - 1;
    }
    let ghost t = v@.take(hi as int);
    assert(trim_end(t) == t);
    let mut lo: usize = 0;
    while lo < hi && char_is_white_space(v[lo])
        invariant
            lo <= hi <= v@.len(),
            t == v@.take(hi as int),
            trim_start(t) == trim_start(v@.subrange(lo as int, hi as int)),
        decreases hi - lo,
    {
        assert(v@.subrange(lo as int, hi as int).drop_first() == v@.subrange(lo + 1, hi as int));
        lo = lo + 1;
    }
    assert(t == v@.subrange(0, hi as int));
    let r = slice_chars(v, lo, hi);
    assert(trim_start(r@) == r@);
    r
}

/// The pieces of `s` between the characters that `delims` holds, as `str::split`
/// gives them with a set of characters: empty pieces included, at least one piece.
pub open spec fn split_by(s: Seq<char>, delims: Seq<char>) -> Seq<Seq<char>>
    decreases s.len(),
{
    if s.len() == 0 {
        seq![Seq::<char>::empty()]
    } else {
        let prev = split_by(s.drop_last(), delims);
        if delims.contains(s.last()) {
            prev.push(Seq::<char>::empty())
        } else {
            prev.update(prev.len() - 1, prev.last().push(s.last()))
        }
    }
}

/// There is always at least one piece.
pub proof fn lemma_split_by_nonempty(s: Seq<char>, delims: Seq<char>)
    ensures
        split_by(s, delims).len() >= 1,
    decreases s.len(),
{
    if s.len() > 0 {
        lemma_split_by_nonempty(s.drop_last(), delims);
    }
}

/// Whether `c` is one of `delims`.
pub fn is_one_of(c: char, delims: &Vec<char>) -> (b: bool)
    ensures
        b == delims@.contains(c),
{
    let mut i: usize = 0;
    while i < delims.len()
        invariant
            i <= delims@.len(),
            forall|j: int| 0 <= j < i ==> delims@[j] != c,
        decreases delims@.len() - i,
    {
        if delims[i] == c {
            return true;
        }
        i = i + 1;
    }
    false
}

/// Executable form of [`split_by`].
pub fn split_chars(v: &Vec<char>, delims: &Vec<char>) -> (r: Vec<Vec<char>>)
    ensures
        char_vec_views(r@) == split_by(v@, delims@),
{
    let mut r: Vec<Vec<char>> = Vec::new();
    let mut start: usize = 0;
    let mut i: usize = 0;
    assert(v@.take(0) == Seq::<char>::empty());
    while i < v.len()
        invariant
            start <= i <= v@.len(),
            char_vec_views(r@).push(v@.subrange(start as int, i as int)) == split_by(
                v@.take(i as int),
                delims@,
            ),
        decreases v@.len() - i,
    {
        let ghost prev = split_by(v@.take(i as int), delims@);
        assert(v@.take(i + 1).drop_last() == v@.take(i as int));
        assert(v@.take(i + 1).last() == v@[i as int]);
        if is_one_of(v[i], delims) {
            let piece = slice_chars(v, start, i);
            r.push(piece);
            assert(char_vec_views(r@) == prev);
            start = i + 1;
            assert(v@.subrange(start as int, i + 1) == Seq::<char>::empty());
        } else {
            assert(v@.subrange(start as int, i + 1) == v@.subrange(start as int, i as int).push(
                v@[i as int],
            ));
            assert(char_vec_views(r@).push(v@.subrange(start as int, i + 1)) == prev.update(
                prev.len() - 1,
                prev.last().push(v@[i as int]),
            ));
        }
        i = i + 1;
    }
    let piece = slice_chars(v, start, v.len());
    r.push(piece);
    assert(v@.take(v@.len() as int) == v@);
    assert(char_vec_views(r@) == split_by(v@, delims@));
    r
}

/// Whether `p` occurs in `s` starting at index `i`.
pub open spec fn occurs_at(s: Seq<char>, p: Seq<char>, i: int) -> bool {
    0 <= i && i + p.len() <= s.len() && s.subrange(i, i + p.len()) == p
}

/// Whether `p` occurs somewhere in `s` (what `str::contains` tests with a string pattern).
pub open spec fn contains_seq(s: Seq<char>, p: Seq<char>) -> bool {
    exists|i: int| occurs_at(s, p, i)
}

/// Executable form of [`contains_seq`].
pub fn contains_chars(s: &Vec<char>, p: &Vec<char>) -> (b: bool)
    ensures
        b == contains_seq(s@, p@),
{
    if p.len() > s.len() {
        assert(forall|i: int| !occurs_at(s@, p@, i));
        return false;
    }
    let mut i: usize = 0;
    while i <= s.len() - p.len()
        invariant
            p@.len() <= s@.len(),
            i <= s@.len() - p@.len() + 1,
            forall|k: int| 0 <= k < i ==> !occurs_at(s@, p@, k),
        decreases s@.len() - i,
    {
        let mut j: usize = 0;
        let mut same = true;
        while j < p.len()
            invariant
                i + p@.len() <= s@.len() <= usize::MAX,
                j <= p@.len(),
                same == (forall|m: int| 0 <= m < j ==> s@[i + m] == p@[m]),
            decreases p@.len() - j,
        {
            if s[i + j] != p[j] {
                same = false;
            }
            j = j + 1;
        }
        if same {
            assert(s@.subrange(i as int, i + p@.len()) == p@);
            assert(occurs_at(s@, p@, i as int));
            return true;
        }
        assert(!occurs_at(s@, p@, i as int)) by {
            if s@.subrange(i as int, i + p@.len()) == p@ {
                assert(forall|m: int| 0 <= m < p@.len() ==> s@[i + m] == #[trigger] s@.subrange(i as int, i + p@.len())[m]);
            }
        }
        i = i + 1;
    }
    assert forall|k: int| !occurs_at(s@, p@, k) by {
        if 0 <= k && k + p@.len() <= s@.len() {
            assert(k < i);
        }
    }
    false
}

/// A name for what `str::to_lowercase` returns: the Unicode lowercase mapping of a string.
pub uninterp spec fn lowercase(s: Seq<char>) -> Seq<char>;

/// Calls `str::to_lowercase`; its result is, by name, [`lowercase`] of the argument.
/// Nothing more is claimed: the Unicode tables decide the mapping.
#[verifier::external_body]
pub(crate) fn to_lowercase(s: &str) -> (r: String)
    ensures
        r@ == lowercase(s@),
{
    s.to_lowercase()
}

/// The length of `s` in UTF-8 bytes, as `str::len` gives it.
pub open spec fn byte_len(s: Seq<char>) -> usize {
    encode_utf8(s).len() as usize
}

/// `s` without any trailing `"` characters (what `trim_end_matches("\"")` leaves).
pub open spec fn strip_trailing_quotes(s: Seq<char>) -> Seq<char>
    decreases s.len(),
{
    if s.len() > 0 && s.last() == '"' {
        strip_trailing_quotes(s.drop_last())
    } else {
        s
    }
}

/// Executable form of [`strip_trailing_quotes`].
pub fn strip_trailing_quotes_exec(s: &String) -> (r: String)
    ensures
        r@ == strip_trailing_quotes(s@),
{
    let v = chars_of(s.as_str());
    let mut hi: usize = v.len();
    assert(v@.take(hi as int) == v@);
    while hi > 0 && v[hi - 1] == '"'
        invariant
            hi <= v@.len(),
            strip_trailing_quotes(v@) == strip_trailing_quotes(v@.take(hi as int)),
        decreases hi,
    {
        assert(v@.take(hi as int).drop_last() == v@.take(hi - 1));
        hi = hi - 1;
    }
    assert(v@.take(hi as int) == v@.subrange(0, hi as int));
    string_from_chars(&v, 0, hi)
}

/// `a` followed by `b`, as a new string.
pub fn concat_strings(a: &str, b: &str) -> (r: String)
    ensures
        r@ == a@ + b@,
{
    let mut r = String::from_str(a);
    r.append(b);
    r
}

/// The decimal digit for `d < 10`.
pub open spec fn digit_char(d: nat) -> char {
    if d == 0 { '0' } else if d == 1 { '1' } else if d == 2 { '2' } else if d == 3 { '3' }
    else if d == 4 { '4' } else if d == 5 { '5' } else if d == 6 { '6' } else if d == 7 { '7' }
    else if d == 8 { '8' } else { '9' }
}

/// The decimal form of `n`, without leading zeros (`0` for zero), as `{}` formats it.
pub open spec fn decimal(n: nat) -> Seq<char>
    decreases n,
{
    if n < 10 {
        seq![digit_char(n)]
    } else {
        decimal(n / 10).push(digit_char(n % 10))
    }
}

fn digit_char_exec(d: usize) -> (c: char)
    requires
        d < 10,
    ensures
        c == digit_char(d as nat),
{
    if d == 0 { '0' } else if d == 1 { '1' } else if d == 2 { '2' } else if d == 3 { '3' }
    else if d == 4 { '4' } else if d == 5 { '5' } else if d == 6 { '6' } else if d == 7 { '7' }
    else if d == 8 { '8' } else { '9' }
}

/// Executable form of [`decimal`].
pub fn decimal_string(n: usize) -> (r: String)
    ensures
        r@ == decimal(n as nat),
    decreases n,
{
    if n < 10 {
        let mut r = String::new();
        push_char(&mut r, digit_char_exec(n));
        r
    } else {
        let mut r = decimal_string(n / 10);
        push_char(&mut r, digit_char_exec(n % 10));
        r
    }
}

/// The pieces joined into one sequence with `d` between each two.
pub open spec fn join_with(ps: Seq<Seq<char>>, d: char) -> Seq<char>
    decreases ps.len(),
{
    if ps.len() == 0 {
        Seq::empty()
    } else if ps.len() == 1 {
        ps[0]
    } else {
        join_with(ps.drop_last(), d).push(d) + ps.last()
    }
}

/// Splitting at a character and joining with it again gives the sequence back.
pub proof fn lemma_join_split(s: Seq<char>, d: char)
    ensures
        join_with(split_by(s, seq![d]), d) == s,
    decreases s.len(),
{
    if s.len() > 0 {
        let prev = split_by(s.drop_last(), seq![d]);
        lemma_join_split(s.drop_last(), d);
        lemma_split_by_nonempty(s.drop_last(), seq![d]);
        let c = s.last();
        if seq![d].contains(c) {
            assert(seq![d][0] == d);
            assert(c == d);
            let ps = prev.push(Seq::<char>::empty());
            assert(ps.drop_last() == prev);
            assert(join_with(ps, d) == s.drop_last().push(d) + Seq::<char>::empty());
            assert(s.drop_last().push(d) + Seq::<char>::empty() == s);
        } else {
            let ps = prev.update(prev.len() - 1, prev.last().push(c));
            if prev.len() == 1 {
                assert(join_with(ps, d) == prev[0].push(c));
                assert(s.drop_last().push(c) == s);
            } else {
                assert(ps.drop_last() == prev.drop_last());
                let j = join_with(prev.drop_last(), d).push(d);
                assert(join_with(ps, d) == j + prev.last().push(c));
                assert(j + prev.last().push(c) == (j + prev.last()).push(c));
                assert(s.drop_last().push(c) == s);
            }
        }
    }
}

/// `s` without any `d`.
pub open spec fn remove_char(s: Seq<char>, d: char) -> Seq<char>
    decreases s.len(),
{
    if s.len() == 0 {
        Seq::empty()
    } else if s.last() == d {
        remove_char(s.drop_last(), d)
    } else {
        remove_char(s.drop_last(), d).push(s.last())
    }
}

/// The pieces put end to end.
pub open spec fn concat_all(ps: Seq<Seq<char>>) -> Seq<char>
    decreases ps.len(),
{
    if ps.len() == 0 {
        Seq::empty()
    } else {
        concat_all(ps.drop_last()) + ps.last()
    }
}

/// The pieces of a split, put end to end, are the sequence without the delimiter.
pub proof fn lemma_concat_split(s: Seq<char>, d: char)
    ensures
        concat_all(split_by(s, seq![d])) == remove_char(s, d),
    decreases s.len(),
{
    if s.len() > 0 {
        let prev = split_by(s.drop_last(), seq![d]);
        lemma_concat_split(s.drop_last(), d);
        lemma_split_by_nonempty(s.drop_last(), seq![d]);
        let c = s.last();
        assert(seq![d].contains(c) <==> c == d) by {
            assert(seq![d][0] == d);
        }
        if c == d {
            let ps = prev.push(Seq::<char>::empty());
            assert(ps.drop_last() == prev);
            assert(concat_all(ps) == concat_all(prev) + Seq::<char>::empty());
        } else {
            let ps = prev.update(prev.len() - 1, prev.last().push(c));
            assert(ps.drop_last() == prev.drop_last());
            assert(concat_all(prev) == concat_all(prev.drop_last()) + prev.last());
            assert(concat_all(ps) == concat_all(prev.drop_last()) + prev.last().push(c));
            assert(concat_all(prev.drop_last()) + prev.last().push(c) == (concat_all(
                prev.drop_last(),
            ) + prev.last()).push(c));
            assert(remove_char(s, d) == remove_char(s.drop_last(), d).push(c));
        }
    } else {
        let ps = seq![Seq::<char>::empty()];
        assert(ps.drop_last() == Seq::<Seq<char>>::empty());
        assert(concat_all(ps) == concat_all(ps.drop_last()) + ps.last());
        assert(Seq::<char>::empty() + Seq::<char>::empty() == Seq::<char>::empty());
    }
}

proof fn lemma_trim_end_last(s: Seq<char>)
    ensures
        trim_end(s).len() == 0 || !is_white_space(trim_end(s).last()),
        trim_end(s).len() <= s.len(),
        trim_end(s) == s.take(trim_end(s).len() as int),
    decreases s.len(),
{
    if s.len() > 0 && is_white_space(s.last()) {
        lemma_trim_end_last(s.drop_last());
        assert(s.drop_last().take(trim_end(s).len() as int) == s.take(trim_end(s).len() as int));
    } else {
        assert(s.take(s.len() as int) == s);
    }
}

proof fn lemma_trim_start_keeps_end(s: Seq<char>)
    ensures
        trim_start(s).len() <= s.len(),
        trim_start(s) == s.skip(s.len() - trim_start(s).len()),
        trim_start(s).len() == 0 || !is_white_space(trim_start(s)[0]),
    decreases s.len(),
{
    if s.len() > 0 && is_white_space(s[0]) {
        lemma_trim_start_keeps_end(s.drop_first());
        assert(s.drop_first().skip(s.drop_first().len() - trim_start(s).len()) == s.skip(
            s.len() - trim_start(s).len(),
        ));
    } else {
        assert(s.skip(0) == s);
    }
}

proof fn lemma_trim_end_noop(s: Seq<char>)
    requires
        s.len() == 0 || !is_white_space(s.last()),
    ensures
        trim_end(s) == s,
{
}

proof fn lemma_trim_start_noop(s: Seq<char>)
    requires
        s.len() == 0 || !is_white_space(s[0]),
    ensures
        trim_start(s) == s,
{
}

/// Trimming twice is trimming once.
pub proof fn lemma_trim_idempotent(s: Seq<char>)
    ensures
        trim(trim(s)) == trim(s),
{
    let e = trim_end(s);
    lemma_trim_end_last(s);
    lemma_trim_start_keeps_end(e);
    let t = trim_start(e);
    // t is a suffix of e, so its last character (if any) is e's last
    if t.len() > 0 {
        assert(t.last() == e.last());
    }
    lemma_trim_end_noop(t);
    lemma_trim_start_noop(t);
}

/// Every character of the trimmed sequence is a character of the sequence.
pub proof fn lemma_trim_chars_from(s: Seq<char>)
    ensures
        forall|j: int| 0 <= j < trim(s).len() ==> s.contains(#[trigger] trim(s)[j]),
{
    let e = trim_end(s);
    lemma_trim_end_last(s);
    lemma_trim_start_keeps_end(e);
    assert forall|j: int| 0 <= j < trim(s).len() implies s.contains(#[trigger] trim(s)[j]) by {
        let k = e.len() - trim(s).len() + j;
        assert(trim(s)[j] == e[k]);
        assert(e[k] == s[k]);
    }
}

/// No piece of a split holds a delimiter.
pub proof fn lemma_split_pieces_free(s: Seq<char>, delims: Seq<char>)
    ensures
        forall|i: int, j: int|
            0 <= i < split_by(s, delims).len() && 0 <= j < split_by(s, delims)[i].len()
                ==> !delims.contains(#[trigger] split_by(s, delims)[i][j]),
    decreases s.len(),
{
    if s.len() > 0 {
        let prev = split_by(s.drop_last(), delims);
        lemma_split_pieces_free(s.drop_last(), delims);
        lemma_split_by_nonempty(s.drop_last(), delims);
        let ps = split_by(s, delims);
        assert forall|i: int, j: int|
            0 <= i < ps.len() && 0 <= j < ps[i].len() implies !delims.contains(#[trigger] ps[i][j]) by {
            if delims.contains(s.last()) {
                if i < prev.len() {
                    assert(ps[i] == prev[i]);
                }
            } else {
                if i < prev.len() - 1 {
                    assert(ps[i] == prev[i]);
                } else {
                    assert(ps[i] == prev.last().push(s.last()));
                    if j < prev.last().len() {
                        assert(ps[i][j] == prev[prev.len() - 1][j]);
                    }
                }
            }
        }
    } else {
        assert(split_by(s, delims)[0] == Seq::<char>::empty());
    }
}

/// Each piece split at `d`, the results one after another.
pub open spec fn split_each(ps: Seq<Seq<char>>, d: char) -> Seq<Seq<char>>
    decreases ps.len(),
{
    if ps.len() == 0 {
        Seq::empty()
    } else {
        split_each(ps.drop_last(), d) + split_by(ps.last(), seq![d])
    }
}

/// Splitting a sequence that starts with `c`: a delimiter opens an empty first
/// piece, any other character joins the first piece of the rest.
pub proof fn lemma_split_prepend(c: char, x: Seq<char>, d: char)
    ensures
        split_by(seq![c] + x, seq![d]) == if c == d {
            seq![Seq::<char>::empty()] + split_by(x, seq![d])
        } else {
            split_by(x, seq![d]).update(0, seq![c] + split_by(x, seq![d])[0])
        },
    decreases x.len(),
{
    assert(seq![d].contains(c) <==> c == d) by {
        assert(seq![d][0] == d);
    }
    let cx = seq![c] + x;
    if x.len() == 0 {
        assert(cx == seq![c]);
        assert(cx.drop_last() == Seq::<char>::empty());
        assert(x == Seq::<char>::empty());
        assert(split_by(Seq::<char>::empty(), seq![d]) == seq![Seq::<char>::empty()]);
        assert(cx.last() == c);
        if c == d {
            assert(split_by(cx, seq![d]) =~= seq![Seq::<char>::empty()] + split_by(x, seq![d]));
        } else {
            assert(Seq::<char>::empty().push(c) == seq![c] + Seq::<char>::empty());
            assert(split_by(cx, seq![d]) =~= split_by(x, seq![d]).update(
                0,
                seq![c] + split_by(x, seq![d])[0],
            ));
        }
    } else {
        let y = x.drop_last();
        let e = x.last();
        assert(seq![d].contains(e) <==> e == d) by {
            assert(seq![d][0] == d);
        }
        assert(cx.drop_last() == seq![c] + y);
        assert(cx.last() == e);
        lemma_split_prepend(c, y, d);
        lemma_split_by_nonempty(y, seq![d]);
        let t = split_by(y, seq![d]);
        let sv = split_by(seq![c] + y, seq![d]);
        if e == d {
            if c == d {
                assert(sv.push(Seq::<char>::empty()) =~= seq![Seq::<char>::empty()] + t.push(
                    Seq::<char>::empty(),
                ));
            } else {
                assert(sv.push(Seq::<char>::empty()) =~= t.push(Seq::<char>::empty()).update(
                    0,
                    seq![c] + t.push(Seq::<char>::empty())[0],
                ));
            }
        } else {
            let tu = t.update(t.len() - 1, t.last().push(e));
            if c == d {
                assert(sv.update(sv.len() - 1, sv.last().push(e)) =~= seq![Seq::<char>::empty()]
                    + tu);
            } else {
                if t.len() == 1 {
                    assert(seq![c] + t[0].push(e) == (seq![c] + t[0]).push(e));
                    assert(sv.update(sv.len() - 1, sv.last().push(e)) =~= tu.update(
                        0,
                        seq![c] + tu[0],
                    ));
                } else {
                    assert(sv.update(sv.len() - 1, sv.last().push(e)) =~= tu.update(
                        0,
                        seq![c] + tu[0],
                    ));
                }
            }
        }
    }
}

/// Trimming the end of a sequence that starts with `c`.
proof fn lemma_trim_end_prepend(c: char, x: Seq<char>)
    ensures
        trim_end(seq![c] + x) == if trim_end(x).len() == 0 && is_white_space(c) {
            Seq::<char>::empty()
        } else {
            seq![c] + trim_end(x)
        },
    decreases x.len(),
{
    let cx = seq![c] + x;
    if x.len() == 0 {
        assert(cx == seq![c]);
        assert(cx.drop_last() == Seq::<char>::empty());
        assert(x == Seq::<char>::empty());
        assert(trim_end(Seq::<char>::empty()) == Seq::<char>::empty());
        assert(cx.last() == c);
        assert(seq![c] + Seq::<char>::empty() == seq![c]);
    } else {
        assert(cx.drop_last() == seq![c] + x.drop_last());
        assert(cx.last() == x.last());
        lemma_trim_end_prepend(c, x.drop_last());
    }
}

/// White space in front does not change the trimmed sequence.
pub proof fn lemma_trim_prepend_white(w: char, x: Seq<char>)
    requires
        is_white_space(w),
    ensures
        trim(seq![w] + x) == trim(x),
{
    lemma_trim_end_prepend(w, x);
    if trim_end(x).len() > 0 {
        let t = seq![w] + trim_end(x);
        assert(t[0] == w);
        assert(t.drop_first() == trim_end(x));
    }
}

/// White space at the end does not change the trimmed sequence.
pub proof fn lemma_trim_push_white(x: Seq<char>, w: char)
    requires
        is_white_space(w),
    ensures
        trim(x.push(w)) == trim(x),
{
    assert(x.push(w).drop_last() == x);
}

/// Trimming never lengthens.
pub proof fn lemma_trim_len(s: Seq<char>)
    ensures
        trim(s).len() <= s.len(),
{
    lemma_trim_end_last(s);
    lemma_trim_start_keeps_end(trim_end(s));
}

} // verus!
