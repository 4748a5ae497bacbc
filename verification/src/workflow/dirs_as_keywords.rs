//! Existing directories as keywords: which file goes into which directory.
use vstd::prelude::*;
use crate::libs::errors::Error;
use crate::libs::fs::string_pair_views;
use crate::libs::keywords::{
    all_compile, compile_patterns, dir_keyword_pattern_strings, dir_keyword_patterns,
};
use crate::libs::regexen::{regex_is_match, regex_views, KeywordRegex};
use crate::text::string_views;

verus! {

/// A directory and the compiled patterns of its keywords.
pub struct DirMatcher {
    pub dirname: String,
    pub regexen: Vec<KeywordRegex>,
}

/// A directory name with the patterns of its keywords.
pub open spec fn matcher_view(m: DirMatcher) -> (Seq<char>, Seq<Seq<char>>) {
    (m.dirname@, regex_views(m.regexen@))
}

/// The views of a sequence of matchers.
pub open spec fn matcher_views(v: Seq<DirMatcher>) -> Seq<(Seq<char>, Seq<Seq<char>>)> {
    v.map_values(|m: DirMatcher| matcher_view(m))
}

/// Matchers for the directories: for each directory its keyword patterns, where
/// the closing bracket or delimiter after the keyword is optional. An error where
/// there is no directory; `None` where some pattern does not compile.
pub fn dir_matchers(dirnames: &Vec<String>) -> (r: Result<Option<Vec<DirMatcher>>, Error>)
    ensures
        r is Err <==> dirnames@.len() == 0,
        r matches Err(e) ==> e is NoKeywordsFound,
        r matches Ok(o) ==> (o is None <==> exists|i: int|
            0 <= i < dirnames@.len() && !all_compile(
                dir_keyword_patterns(#[trigger] dirnames@[i]@, true),
            )),
        r matches Ok(Some(ms)) ==> matcher_views(ms@).len() == dirnames@.len() && forall|i: int|
            0 <= i < dirnames@.len() ==> #[trigger] matcher_views(ms@)[i] == (
                dirnames@[i]@,
                dir_keyword_patterns(dirnames@[i]@, true),
            ),
{
    if dirnames.len() == 0 {
        return Err(Error::NoKeywordsFound);
    }
    let mut ms: Vec<DirMatcher> = Vec::new();
    let mut i: usize = 0;
    while i < dirnames.len()
        invariant
            i <= dirnames@.len(),
            ms@.len() == i,
            forall|x: int|
                0 <= x < i ==> #[trigger] matcher_view(ms@[x]) == (
                    dirnames@[x]@,
                    dir_keyword_patterns(dirnames@[x]@, true),
                ),
            forall|x: int|
                0 <= x < i ==> all_compile(dir_keyword_patterns(#[trigger] dirnames@[x]@, true)),
        decreases dirnames@.len() - i,
    {
        let patterns = dir_keyword_pattern_strings(&dirnames[i], true);
        let regexen = match compile_patterns(&patterns) {
            Some(v) => v,
            None => {
                return Ok(None);
            },
        };
        ms.push(DirMatcher { dirname: dirnames[i].clone(), regexen });
        i = i + 1;
    }
    assert(matcher_views(ms@).len() == dirnames@.len());
    assert forall|i: int| 0 <= i < dirnames@.len() implies #[trigger] matcher_views(ms@)[i] == (
        dirnames@[i]@,
        dir_keyword_patterns(dirnames@[i]@, true),
    ) by {
        assert(matcher_views(ms@)[i] == matcher_view(ms@[i]));
    }
    Ok(Some(ms))
}

/// The moves for one file and one directory: one for each of the directory's
/// patterns that matches the name, in order.
pub open spec fn pattern_hits(name: Seq<char>, dirname: Seq<char>, patterns: Seq<Seq<char>>) -> Seq<
    (Seq<char>, Seq<char>),
>
    decreases patterns.len(),
{
    if patterns.len() == 0 {
        Seq::empty()
    } else {
        let prev = pattern_hits(name, dirname, patterns.drop_last());
        if regex_is_match(patterns.last(), name) {
            prev.push((name, dirname))
        } else {
            prev
        }
    }
}

/// The moves for one file, directory after directory.
pub open spec fn dir_hits(name: Seq<char>, ms: Seq<(Seq<char>, Seq<Seq<char>>)>) -> Seq<
    (Seq<char>, Seq<char>),
>
    decreases ms.len(),
{
    if ms.len() == 0 {
        Seq::empty()
    } else {
        dir_hits(name, ms.drop_last()) + pattern_hits(name, ms.last().0, ms.last().1)
    }
}

/// The moves for all files, file after file: pairs of file name and directory.
pub open spec fn dir_move_plan(names: Seq<Seq<char>>, ms: Seq<(Seq<char>, Seq<Seq<char>>)>) -> Seq<
    (Seq<char>, Seq<char>),
>
    decreases names.len(),
{
    if names.len() == 0 {
        Seq::empty()
    } else {
        dir_move_plan(names.drop_last(), ms) + dir_hits(names.last(), ms)
    }
}

/// The moves to try, in the order they are tried (see [`dir_move_plan`]).
pub fn plan_dir_moves(filenames: &Vec<String>, matchers: &Vec<DirMatcher>) -> (r: Vec<(String, String)>)
    ensures
        string_pair_views(r@) == dir_move_plan(string_views(filenames@), matcher_views(matchers@)),
{
    let ghost names = string_views(filenames@);
    let ghost ms = matcher_views(matchers@);
    let mut r: Vec<(String, String)> = Vec::new();
    let mut i: usize = 0;
    while i < filenames.len()
        invariant
            i <= filenames@.len(),
            names == string_views(filenames@),
            ms == matcher_views(matchers@),
            string_pair_views(r@) == dir_move_plan(names.take(i as int), ms),
        decreases filenames@.len() - i,
    {
        let ghost done = string_pair_views(r@);
        let ghost name = filenames@[i as int]@;
        assert(names.take(i + 1).drop_last() == names.take(i as int));
        assert(names.take(i + 1).last() == name);
        let mut d: usize = 0;
        assert(ms.take(0) == Seq::<(Seq<char>, Seq<Seq<char>>)>::empty());
        assert(done + dir_hits(name, ms.take(0)) == done);
        while d < matchers.len()
            invariant
                i < filenames@.len(),
                name == filenames@[i as int]@,
                d <= matchers@.len(),
                ms == matcher_views(matchers@),
                string_pair_views(r@) == done + dir_hits(name, ms.take(d as int)),
            decreases matchers@.len() - d,
        {
            let ghost done2 = string_pair_views(r@);
            let ghost pats = regex_views(matchers@[d as int].regexen@);
            let ghost dname = matchers@[d as int].dirname@;
            assert(ms.take(d + 1).drop_last() == ms.take(d as int));
            assert(ms.take(d + 1).last() == (dname, pats));
            let mut p: usize = 0;
            assert(pats.take(0) == Seq::<Seq<char>>::empty());
            assert(done2 + pattern_hits(name, dname, pats.take(0)) == done2);
            while p < matchers[d].regexen.len()
                invariant
                    i < filenames@.len(),
                    d < matchers@.len(),
                    name == filenames@[i as int]@,
                    pats == regex_views(matchers@[d as int].regexen@),
                    dname == matchers@[d as int].dirname@,
                    p <= pats.len(),
                    string_pair_views(r@) == done2 + pattern_hits(name, dname, pats.take(p as int)),
                decreases pats.len() - p,
            {
                let ghost before = string_pair_views(r@);
                assert(pats.take(p + 1).drop_last() == pats.take(p as int));
                assert(pats.take(p + 1).last() == matchers@[d as int].regexen@[p as int]@);
                if matchers[d].regexen[p].is_match(filenames[i].as_str()) {
                    r.push((filenames[i].clone(), matchers[d].dirname.clone()));
                    assert(string_pair_views(r@) =~= before.push((name, dname)));
                }
                p = p + 1;
            }
            assert(pats.take(pats.len() as int) == pats);
            d = d + 1;
        }
        assert(ms.take(matchers@.len() as int) == ms);
        i = i + 1;
    }
    assert(names.take(filenames@.len() as int) == names);
    r
}

/// Some pattern of `patterns` matches `name`.
pub open spec fn some_pattern_matches(patterns: Seq<Seq<char>>, name: Seq<char>) -> bool {
    exists|p: int| 0 <= p < patterns.len() && regex_is_match(#[trigger] patterns[p], name)
}

/// `dirname` is a directory of `ms` one of whose patterns matches `name`.
pub open spec fn dir_takes(ms: Seq<(Seq<char>, Seq<Seq<char>>)>, dirname: Seq<char>, name: Seq<char>) -> bool {
    exists|d: int| 0 <= d < ms.len() && (#[trigger] ms[d]).0 == dirname && some_pattern_matches(ms[d].1, name)
}

proof fn lemma_pattern_hits(name: Seq<char>, dirname: Seq<char>, patterns: Seq<Seq<char>>)
    ensures
        forall|i: int|
            0 <= i < pattern_hits(name, dirname, patterns).len() ==> #[trigger] pattern_hits(
                name,
                dirname,
                patterns,
            )[i] == (name, dirname) && some_pattern_matches(patterns, name),
    decreases patterns.len(),
{
    if patterns.len() > 0 {
        let prev = pattern_hits(name, dirname, patterns.drop_last());
        lemma_pattern_hits(name, dirname, patterns.drop_last());
        assert forall|i: int| 0 <= i < pattern_hits(name, dirname, patterns).len() implies #[trigger] pattern_hits(
            name,
            dirname,
            patterns,
        )[i] == (name, dirname) && some_pattern_matches(patterns, name) by {
            if i < prev.len() {
                assert(pattern_hits(name, dirname, patterns)[i] == prev[i]);
                let p = choose|p: int|
                    0 <= p < patterns.drop_last().len() && regex_is_match(
                        #[trigger] patterns.drop_last()[p],
                        name,
                    );
                assert(patterns[p] == patterns.drop_last()[p]);
            } else {
                assert(patterns[patterns.len() - 1] == patterns.last());
            }
        }
    }
}

proof fn lemma_dir_hits(name: Seq<char>, ms: Seq<(Seq<char>, Seq<Seq<char>>)>)
    ensures
        forall|i: int|
            0 <= i < dir_hits(name, ms).len() ==> (#[trigger] dir_hits(name, ms)[i]).0 == name
                && dir_takes(ms, dir_hits(name, ms)[i].1, name),
    decreases ms.len(),
{
    if ms.len() > 0 {
        let prev = dir_hits(name, ms.drop_last());
        let last = pattern_hits(name, ms.last().0, ms.last().1);
        lemma_dir_hits(name, ms.drop_last());
        lemma_pattern_hits(name, ms.last().0, ms.last().1);
        assert forall|i: int| 0 <= i < dir_hits(name, ms).len() implies (#[trigger] dir_hits(name, ms)[i]).0
            == name && dir_takes(ms, dir_hits(name, ms)[i].1, name) by {
            if i < prev.len() {
                assert(dir_hits(name, ms)[i] == prev[i]);
                let d = choose|d: int|
                    0 <= d < ms.drop_last().len() && (#[trigger] ms.drop_last()[d]).0 == prev[i].1
                        && some_pattern_matches(ms.drop_last()[d].1, name);
                assert(ms[d] == ms.drop_last()[d]);
            } else {
                assert(dir_hits(name, ms)[i] == last[i - prev.len()]);
                assert(ms[ms.len() - 1] == ms.last());
            }
        }
    }
}

/// Law: a planned move takes a file named in `names` into a directory of the
/// matchers, one of whose keyword patterns matches the file's name.
pub proof fn law_dir_moves_match(names: Seq<Seq<char>>, ms: Seq<(Seq<char>, Seq<Seq<char>>)>)
    ensures
        forall|i: int|
            0 <= i < dir_move_plan(names, ms).len() ==> names.contains(
                (#[trigger] dir_move_plan(names, ms)[i]).0,
            ) && dir_takes(ms, dir_move_plan(names, ms)[i].1, dir_move_plan(names, ms)[i].0),
    decreases names.len(),
{
    if names.len() > 0 {
        let prev = dir_move_plan(names.drop_last(), ms);
        let last = dir_hits(names.last(), ms);
        law_dir_moves_match(names.drop_last(), ms);
        lemma_dir_hits(names.last(), ms);
        assert forall|i: int| 0 <= i < dir_move_plan(names, ms).len() implies names.contains(
            (#[trigger] dir_move_plan(names, ms)[i]).0,
        ) && dir_takes(ms, dir_move_plan(names, ms)[i].1, dir_move_plan(names, ms)[i].0) by {
            if i < prev.len() {
                assert(dir_move_plan(names, ms)[i] == prev[i]);
                let j = choose|j: int| 0 <= j < names.drop_last().len() && names.drop_last()[j] == prev[i].0;
                assert(names[j] == prev[i].0);
            } else {
                assert(dir_move_plan(names, ms)[i] == last[i - prev.len()]);
                assert(names[names.len() - 1] == names.last());
            }
        }
    }
}

} // verus!
