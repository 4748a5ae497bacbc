//! Paths given by the user, which files go into which keyword directory, and the
//! record of the moves made.
use vstd::prelude::*;
use crate::libs::errors::Error;
use crate::libs::stdout::{already_exists, already_moved, moved, Notice, Tone};
use crate::text::{
    chars_of, concat_strings, contains_chars, contains_seq, lowercase, string_views,
    strip_trailing_quotes, strip_trailing_quotes_exec, to_lowercase,
};

verus! {

// ---------------------------------------------------------------------------
// Paths given on the command line.
// ---------------------------------------------------------------------------

/// Calls `std::path::is_separator('\\')`: whether the backslash separates path
/// components on this platform, which is so on Windows alone. It depends on the
/// platform the program was built for, so nothing is claimed of the result.
#[verifier::external_body]
pub(crate) fn backslash_is_separator() -> bool {
    std::path::is_separator('\\')
}

/// Calls `std::path::Path::exists` on the path. It depends on what is on disk,
/// so nothing is claimed of the result.
#[verifier::external_body]
pub(crate) fn path_exists(path: &str) -> bool {
    std::path::Path::new(path).exists()
}

/// A path as a terminal may hand it over: on Windows a trailing `"` is left
/// behind by a quoted path that ends in a backslash, and is removed.
pub open spec fn terminal_path(path: Seq<char>, windows: bool) -> Seq<char> {
    if windows {
        strip_trailing_quotes(path)
    } else {
        path
    }
}

/// Executable form of [`terminal_path`].
pub fn normalize_terminal_path(path: String, windows: bool) -> (r: String)
    ensures
        r@ == terminal_path(path@, windows),
{
    if windows {
        strip_trailing_quotes_exec(&path)
    } else {
        path
    }
}

/// The text of the error for a path that does not exist.
pub open spec fn missing_path_text(path: Seq<char>) -> Seq<char> {
    "path "@ + path + " does not exist"@
}

/// The path if it exists, else an error that names it.
pub fn check_path(path: String, exists: bool) -> (r: Result<String, Error>)
    ensures
        exists ==> (r matches Ok(p) && p@ == path@),
        !exists ==> (r matches Err(e) && e matches Error::IOError(m) && m@ == missing_path_text(
            path@,
        )),
{
    if !exists {
        let head = concat_strings("path ", path.as_str());
        return Err(Error::IOError(concat_strings(head.as_str(), " does not exist")));
    }
    Ok(path)
}

/// The path given on the command line, ready to use: on Windows without trailing
/// `"`; an error where that path does not exist.
pub fn parse_path(path: String) -> (r: Result<String, Error>)
    ensures
        r matches Ok(p) ==> p@ == terminal_path(path@, true) || p@ == terminal_path(path@, false),
        r matches Err(e) ==> e matches Error::IOError(m) && (m@ == missing_path_text(
            terminal_path(path@, true),
        ) || m@ == missing_path_text(terminal_path(path@, false))),
{
    let windows = backslash_is_separator();
    let p = normalize_terminal_path(path, windows);
    let exists = path_exists(p.as_str());
    check_path(p, exists)
}

/// The text of the error for a base directory that does not exist.
pub open spec fn missing_base_text(path: Seq<char>) -> Seq<char> {
    "path "@ + path + " is not exists"@
}

/// The error for a base directory that does not exist.
pub fn missing_base_error(basepath: &String) -> (e: Error)
    ensures
        e matches Error::IOError(m) && m@ == missing_base_text(basepath@),
{
    let head = concat_strings("path ", basepath.as_str());
    Error::IOError(concat_strings(head.as_str(), " is not exists"))
}

// ---------------------------------------------------------------------------
// Which entries of a directory are listed.
// ---------------------------------------------------------------------------

/// A name that starts with `.`: a hidden entry.
pub open spec fn is_hidden(name: Seq<char>) -> bool {
    name.len() > 0 && name[0] == '.'
}

fn is_hidden_exec(name: &String) -> (b: bool)
    ensures
        b == is_hidden(name@),
{
    let cs = chars_of(name.as_str());
    cs.len() > 0 && cs[0] == '.'
}

/// Whether a directory entry is listed as a file: not hidden, not a directory.
pub fn lists_as_file(name: &String, is_dir: bool) -> (b: bool)
    ensures
        b == (!is_hidden(name@) && !is_dir),
{
    !(is_hidden_exec(name) || is_dir)
}

/// Whether a directory entry is listed as a directory: not hidden, a directory.
pub fn lists_as_dir(name: &String, is_dir: bool) -> (b: bool)
    ensures
        b == (!is_hidden(name@) && is_dir),
{
    !(is_hidden_exec(name) || !is_dir)
}

// ---------------------------------------------------------------------------
// Which file goes into which keyword directory.
// ---------------------------------------------------------------------------

/// A file name holds a keyword, ignoring case: the lowercase name contains the
/// lowercase keyword.
pub open spec fn keyword_matches(name: Seq<char>, keyword: Seq<char>) -> bool {
    contains_seq(lowercase(name), lowercase(keyword))
}

/// Executable form of [`keyword_matches`].
pub fn filename_matches_keyword(filename: &String, keyword: &String) -> (b: bool)
    ensures
        b == keyword_matches(filename@, keyword@),
{
    let name = chars_of(to_lowercase(filename.as_str()).as_str());
    let word = chars_of(to_lowercase(keyword.as_str()).as_str());
    contains_chars(&name, &word)
}

/// The moves for one file: for each keyword in order, the file goes to that
/// keyword's directory where its name holds the keyword; with `skip_same`, not
/// where the name is the keyword itself (then it is that directory).
pub open spec fn file_moves(name: Seq<char>, keywords: Seq<Seq<char>>, skip_same: bool) -> Seq<
    (Seq<char>, Seq<char>),
>
    decreases keywords.len(),
{
    if keywords.len() == 0 {
        Seq::empty()
    } else {
        let prev = file_moves(name, keywords.drop_last(), skip_same);
        let k = keywords.last();
        if !(skip_same && name == k) && keyword_matches(name, k) {
            prev.push((name, k))
        } else {
            prev
        }
    }
}

/// The moves for all files, file after file: pairs of file name and keyword.
pub open spec fn keyword_moves(names: Seq<Seq<char>>, keywords: Seq<Seq<char>>, skip_same: bool) -> Seq<
    (Seq<char>, Seq<char>),
>
    decreases names.len(),
{
    if names.len() == 0 {
        Seq::empty()
    } else {
        keyword_moves(names.drop_last(), keywords, skip_same) + file_moves(
            names.last(),
            keywords,
            skip_same,
        )
    }
}

/// Pairs of strings by view.
pub open spec fn string_pair_views(v: Seq<(String, String)>) -> Seq<(Seq<char>, Seq<char>)> {
    v.map_values(|p: (String, String)| (p.0@, p.1@))
}

fn plan_moves(filenames: &Vec<String>, keywords: &Vec<String>, skip_same: bool) -> (r: Vec<
    (String, String),
>)
    ensures
        string_pair_views(r@) == keyword_moves(
            string_views(filenames@),
            string_views(keywords@),
            skip_same,
        ),
{
    let ghost names = string_views(filenames@);
    let ghost kws = string_views(keywords@);
    let mut r: Vec<(String, String)> = Vec::new();
    let mut i: usize = 0;
    while i < filenames.len()
        invariant
            i <= filenames@.len(),
            names == string_views(filenames@),
            kws == string_views(keywords@),
            string_pair_views(r@) == keyword_moves(names.take(i as int), kws, skip_same),
        decreases filenames@.len() - i,
    {
        let ghost done = string_pair_views(r@);
        assert(names.take(i + 1).drop_last() == names.take(i as int));
        assert(names.take(i + 1).last() == filenames@[i as int]@);
        let mut j: usize = 0;
        assert(kws.take(0) == Seq::<Seq<char>>::empty());
        assert(done + file_moves(filenames@[i as int]@, kws.take(0), skip_same) == done);
        while j < keywords.len()
            invariant
                i < filenames@.len(),
                j <= keywords@.len(),
                kws == string_views(keywords@),
                string_pair_views(r@) == done + file_moves(filenames@[i as int]@, kws.take(j as int), skip_same),
            decreases keywords@.len() - j,
        {
            let ghost before = string_pair_views(r@);
            assert(kws.take(j + 1).drop_last() == kws.take(j as int));
            assert(kws.take(j + 1).last() == keywords@[j as int]@);
            if !(skip_same && filenames[i] == keywords[j]) && filename_matches_keyword(&filenames[i], &keywords[j]) {
                r.push((filenames[i].clone(), keywords[j].clone()));
                assert(string_pair_views(r@) == before.push((filenames@[i as int]@, keywords@[j as int]@)));
            }
            j = j + 1;
        }
        assert(kws.take(keywords@.len() as int) == kws);
        i = i + 1;
    }
    assert(names.take(filenames@.len() as int) == names);
    r
}

proof fn lemma_file_moves_complete(name: Seq<char>, keywords: Seq<Seq<char>>, skip_same: bool)
    ensures
        forall|j: int|
            0 <= j < keywords.len() && !(skip_same && name == keywords[j]) && contains_seq(
                lowercase(name),
                lowercase(#[trigger] keywords[j]),
            ) ==> file_moves(name, keywords, skip_same).contains((name, keywords[j])),
    decreases keywords.len(),
{
    if keywords.len() > 0 {
        let prev = file_moves(name, keywords.drop_last(), skip_same);
        lemma_file_moves_complete(name, keywords.drop_last(), skip_same);
        assert forall|j: int|
            0 <= j < keywords.len() && !(skip_same && name == keywords[j]) && contains_seq(
                lowercase(name),
                lowercase(#[trigger] keywords[j]),
            ) implies file_moves(name, keywords, skip_same).contains((name, keywords[j])) by {
            let fm = file_moves(name, keywords, skip_same);
            if j < keywords.len() - 1 {
                assert(keywords.drop_last()[j] == keywords[j]);
                let x = choose|x: int| 0 <= x < prev.len() && prev[x] == (name, keywords[j]);
                assert(fm[x] == prev[x]);
            } else {
                assert(keywords.last() == keywords[j]);
                assert(fm[fm.len() - 1] == (name, keywords[j]));
            }
        }
    }
}

/// Law: the plan is complete: every file of `names` moves into the directory of
/// every keyword that its name holds, ignoring case, except (with `skip_same`)
/// the keyword that is the name itself.
pub proof fn law_planned_moves_complete(names: Seq<Seq<char>>, keywords: Seq<Seq<char>>, skip_same: bool)
    ensures
        forall|i: int, j: int|
            0 <= i < names.len() && 0 <= j < keywords.len() && !(skip_same && names[i]
                == keywords[j]) && contains_seq(
                lowercase(#[trigger] names[i]),
                lowercase(#[trigger] keywords[j]),
            ) ==> keyword_moves(names, keywords, skip_same).contains((names[i], keywords[j])),
    decreases names.len(),
{
    if names.len() > 0 {
        let prev = keyword_moves(names.drop_last(), keywords, skip_same);
        let last = file_moves(names.last(), keywords, skip_same);
        law_planned_moves_complete(names.drop_last(), keywords, skip_same);
        lemma_file_moves_complete(names.last(), keywords, skip_same);
        assert forall|i: int, j: int|
            0 <= i < names.len() && 0 <= j < keywords.len() && !(skip_same && names[i]
                == keywords[j]) && contains_seq(
                lowercase(#[trigger] names[i]),
                lowercase(#[trigger] keywords[j]),
            ) implies keyword_moves(names, keywords, skip_same).contains((names[i], keywords[j])) by {
            let km = keyword_moves(names, keywords, skip_same);
            if i < names.len() - 1 {
                assert(names.drop_last()[i] == names[i]);
                let x = choose|x: int| 0 <= x < prev.len() && prev[x] == (names[i], keywords[j]);
                assert(km[x] == prev[x]);
            } else {
                assert(names.last() == names[i]);
                let x = choose|x: int| 0 <= x < last.len() && last[x] == (names[i], keywords[j]);
                assert(km[prev.len() + x] == last[x]);
            }
        }
    }
}

/// The moves to try, in the order they are tried: file after file, keyword after
/// keyword, where the name holds the keyword and is not the keyword itself (see
/// [`keyword_moves`]).
pub fn plan_keyword_moves(filenames: &Vec<String>, keywords: &Vec<String>) -> (r: Vec<(String, String)>)
    ensures
        string_pair_views(r@) == keyword_moves(string_views(filenames@), string_views(keywords@), true),
        forall|i: int, j: int|
            0 <= i < filenames@.len() && 0 <= j < keywords@.len() && filenames@[i]@
                != keywords@[j]@ && contains_seq(
                lowercase(#[trigger] filenames@[i]@),
                lowercase(#[trigger] keywords@[j]@),
            ) ==> string_pair_views(r@).contains((filenames@[i]@, keywords@[j]@)),
{
    let r = plan_moves(filenames, keywords, true);
    proof {
        let names = string_views(filenames@);
        let kws = string_views(keywords@);
        law_planned_moves_complete(names, kws, true);
        assert forall|i: int, j: int|
            0 <= i < filenames@.len() && 0 <= j < keywords@.len() && filenames@[i]@
                != keywords@[j]@ && contains_seq(
                lowercase(#[trigger] filenames@[i]@),
                lowercase(#[trigger] keywords@[j]@),
            ) implies string_pair_views(r@).contains((filenames@[i]@, keywords@[j]@)) by {
            assert(names[i] == filenames@[i]@ && kws[j] == keywords@[j]@);
        }
    }
    r
}

/// The moves to try for full paths, in order: file after file, keyword after
/// keyword, wherever the path holds the keyword (see [`keyword_moves`]).
pub fn plan_path_moves(files: &Vec<String>, keywords: &Vec<String>) -> (r: Vec<(String, String)>)
    ensures
        string_pair_views(r@) == keyword_moves(string_views(files@), string_views(keywords@), false),
{
    plan_moves(files, keywords, false)
}

proof fn lemma_file_moves_hold(name: Seq<char>, keywords: Seq<Seq<char>>, skip_same: bool)
    ensures
        forall|i: int|
            0 <= i < file_moves(name, keywords, skip_same).len() ==> {
                let m = #[trigger] file_moves(name, keywords, skip_same)[i];
                &&& m.0 == name
                &&& keywords.contains(m.1)
                &&& keyword_matches(m.0, m.1)
                &&& !(skip_same && m.0 == m.1)
            },
    decreases keywords.len(),
{
    if keywords.len() > 0 {
        let prev = file_moves(name, keywords.drop_last(), skip_same);
        lemma_file_moves_hold(name, keywords.drop_last(), skip_same);
        assert forall|i: int| 0 <= i < file_moves(name, keywords, skip_same).len() implies {
            let m = #[trigger] file_moves(name, keywords, skip_same)[i];
            &&& m.0 == name
            &&& keywords.contains(m.1)
            &&& keyword_matches(m.0, m.1)
            &&& !(skip_same && m.0 == m.1)
        } by {
            if i < prev.len() {
                assert(file_moves(name, keywords, skip_same)[i] == prev[i]);
                let j = choose|j: int| 0 <= j < keywords.drop_last().len() && keywords.drop_last()[j]
                    == prev[i].1;
                assert(keywords[j] == prev[i].1);
            } else {
                assert(keywords[keywords.len() - 1] == keywords.last());
            }
        }
    }
}

/// Law: a planned move takes a file named in `names` into the directory of one of
/// the `keywords`, which its name holds, ignoring case; with `skip_same`, never
/// into a directory of its own name.
pub proof fn law_planned_moves_hold_keyword(names: Seq<Seq<char>>, keywords: Seq<Seq<char>>, skip_same: bool)
    ensures
        forall|i: int|
            0 <= i < keyword_moves(names, keywords, skip_same).len() ==> {
                let m = #[trigger] keyword_moves(names, keywords, skip_same)[i];
                &&& names.contains(m.0)
                &&& keywords.contains(m.1)
                &&& contains_seq(lowercase(m.0), lowercase(m.1))
                &&& !(skip_same && m.0 == m.1)
            },
    decreases names.len(),
{
    if names.len() > 0 {
        let prev = keyword_moves(names.drop_last(), keywords, skip_same);
        let last = file_moves(names.last(), keywords, skip_same);
        law_planned_moves_hold_keyword(names.drop_last(), keywords, skip_same);
        lemma_file_moves_hold(names.last(), keywords, skip_same);
        assert forall|i: int| 0 <= i < keyword_moves(names, keywords, skip_same).len() implies {
            let m = #[trigger] keyword_moves(names, keywords, skip_same)[i];
            &&& names.contains(m.0)
            &&& keywords.contains(m.1)
            &&& contains_seq(lowercase(m.0), lowercase(m.1))
            &&& !(skip_same && m.0 == m.1)
        } by {
            if i < prev.len() {
                assert(keyword_moves(names, keywords, skip_same)[i] == prev[i]);
                let j = choose|j: int| 0 <= j < names.drop_last().len() && names.drop_last()[j] == prev[i].0;
                assert(names[j] == prev[i].0);
            } else {
                assert(keyword_moves(names, keywords, skip_same)[i] == last[i - prev.len()]);
                assert(names[names.len() - 1] == names.last());
            }
        }
    }
}

// ---------------------------------------------------------------------------
// The record of the moves made.
// ---------------------------------------------------------------------------

/// What happened when one planned move was tried.
pub enum MoveOutcome {
    /// The file is gone already: another keyword moved it.
    SourceMissing,
    /// The keyword's directory could not be made.
    DirectoryFailed(Error),
    /// A file of that name is in the directory already.
    DestinationExists,
    /// The file was moved to the given destination.
    Moved(String),
    /// Renaming failed; the text says why.
    RenameFailed(String),
}

/// The files moved so far and the directories that received them.
pub struct MoveLog {
    moved_files: Vec<String>,
    directories: Vec<String>,
}

impl MoveLog {
    /// The destinations of the files moved, in order.
    pub closed spec fn moved_view(self) -> Seq<Seq<char>> {
        string_views(self.moved_files@)
    }

    /// The directories that received a file, each once, in the order of their first file.
    pub closed spec fn dirs_view(self) -> Seq<Seq<char>> {
        string_views(self.directories@)
    }

    #[verifier::type_invariant]
    closed spec fn dirs_distinct(self) -> bool {
        string_views(self.directories@).no_duplicates()
    }

    /// A log with nothing in it.
    pub fn new() -> (r: MoveLog)
        ensures
            r.moved_view() == Seq::<Seq<char>>::empty(),
            r.dirs_view() == Seq::<Seq<char>>::empty(),
    {
        let r = MoveLog { moved_files: Vec::new(), directories: Vec::new() };
        assert(string_views(r.directories@) =~= Seq::<Seq<char>>::empty());
        assert(string_views(r.moved_files@) =~= Seq::<Seq<char>>::empty());
        r
    }

    /// The destinations of the files moved, in order.
    pub fn moved_files(&self) -> (r: Vec<String>)
        ensures
            string_views(r@) == self.moved_view(),
    {
        self.moved_files.clone()
    }

    /// How many directories received a file.
    pub fn updated_dir_count(&self) -> (n: usize)
        ensures
            n == self.dirs_view().len(),
            self.dirs_view().no_duplicates(),
    {
        proof {
            use_type_invariant(self);
        }
        self.directories.len()
    }

    fn note_directory(&mut self, dirname: &String)
        ensures
            final(self).moved_view() == old(self).moved_view(),
            final(self).dirs_view() == if old(self).dirs_view().contains(dirname@) {
                old(self).dirs_view()
            } else {
                old(self).dirs_view().push(dirname@)
            },
    {
        proof {
            use_type_invariant(&*self);
        }
        let mut i: usize = 0;
        while i < self.directories.len()
            invariant
                i <= self.directories@.len(),
                forall|j: int| 0 <= j < i ==> self.directories@[j]@ != dirname@,
            decreases self.directories@.len() - i,
        {
            if self.directories[i] == *dirname {
                assert(string_views(self.directories@)[i as int] == dirname@);
                return;
            }
            i = i + 1;
        }
        assert(!string_views(self.directories@).contains(dirname@)) by {
            if string_views(self.directories@).contains(dirname@) {
                let j = choose|j: int|
                    0 <= j < self.directories@.len() && string_views(self.directories@)[j] == dirname@;
                assert(self.directories@[j]@ == dirname@);
            }
        }
        let ghost before = string_views(self.directories@);
        let mut dirs: Vec<String> = Vec::new();
        std::mem::swap(&mut dirs, &mut self.directories);
        dirs.push(dirname.clone());
        assert(string_views(dirs@) =~= before.push(dirname@));
        self.directories = dirs;
    }

    fn note_moved(&mut self, dst: String)
        ensures
            final(self).moved_view() == old(self).moved_view().push(dst@),
            final(self).dirs_view() == old(self).dirs_view(),
    {
        proof {
            use_type_invariant(&*self);
        }
        let ghost before = string_views(self.moved_files@);
        let mut files: Vec<String> = Vec::new();
        std::mem::swap(&mut files, &mut self.moved_files);
        let ghost d = dst@;
        files.push(dst);
        assert(string_views(files@) =~= before.push(d));
        self.moved_files = files;
    }

    /// Takes in what happened to the planned move of `filename` into `dirname`:
    /// a missing source or an existing destination is reported and skipped, a
    /// failure ends the run with its error, a move is recorded (and reported
    /// with `verbose`).
    pub fn record(&mut self, filename: &String, dirname: &String, outcome: MoveOutcome, verbose: bool) -> (r:
        Result<Option<Notice>, Error>)
        ensures
            outcome is Moved ==> final(self).moved_view() == old(self).moved_view().push(
                outcome->Moved_0@,
            ) && final(self).dirs_view() == if old(self).dirs_view().contains(dirname@) {
                old(self).dirs_view()
            } else {
                old(self).dirs_view().push(dirname@)
            },
            !(outcome is Moved) ==> final(self).moved_view() == old(self).moved_view()
                && final(self).dirs_view() == old(self).dirs_view(),
            outcome is SourceMissing ==> (r matches Ok(Some(n)) && n.tone == Tone::Warning
                && n.text@ == "already moved: "@ + filename@),
            outcome is DestinationExists ==> (r matches Ok(Some(n)) && n.tone == Tone::Warning
                && n.text@ == "already exists: "@ + filename@),
            outcome is Moved && verbose ==> (r matches Ok(Some(n)) && n.tone == Tone::Info
                && n.text@ == "moved: "@ + filename@ + " → "@ + outcome->Moved_0@),
            outcome is Moved && !verbose ==> (r matches Ok(None)),
            outcome is DirectoryFailed ==> (r matches Err(e) && e == outcome->DirectoryFailed_0),
            outcome is RenameFailed ==> (r matches Err(e) && e matches Error::MoveFileError(m)
                && m@ == outcome->RenameFailed_0@),
    {
        match outcome {
            MoveOutcome::SourceMissing => Ok(Some(already_moved(filename.clone()))),
            MoveOutcome::DirectoryFailed(e) => Err(e),
            MoveOutcome::DestinationExists => Ok(Some(already_exists(filename.clone()))),
            MoveOutcome::Moved(dst) => {
                self.note_directory(dirname);
                let notice = if verbose {
                    Some(moved(filename.clone(), dst.clone()))
                } else {
                    None
                };
                self.note_moved(dst);
                Ok(notice)
            },
            MoveOutcome::RenameFailed(msg) => Err(Error::MoveFileError(msg)),
        }
    }
}

} // verus!
