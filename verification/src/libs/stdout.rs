//! The lines the program reports, with the tone each is shown in.
use vstd::prelude::*;
use crate::libs::errors::Error;
use crate::text::{concat_strings, decimal, decimal_string};

verus! {

/// How a line is shown: information, a warning, a success or an error.
#[derive(Clone, Copy, Debug, PartialEq, Eq, Structural)]
pub enum Tone {
    Info,
    Warning,
    Success,
    Error,
}

/// A line to show and its tone.
#[derive(Clone, Debug)]
pub struct Notice {
    pub tone: Tone,
    pub text: String,
}

/// The line for a file that another keyword has moved already.
pub fn already_moved(filename: String) -> (n: Notice)
    ensures
        n.tone == Tone::Warning,
        n.text@ == "already moved: "@ + filename@,
{
    Notice { tone: Tone::Warning, text: concat_strings("already moved: ", filename.as_str()) }
}

/// The line for a file whose destination exists already.
pub fn already_exists(filename: String) -> (n: Notice)
    ensures
        n.tone == Tone::Warning,
        n.text@ == "already exists: "@ + filename@,
{
    Notice { tone: Tone::Warning, text: concat_strings("already exists: ", filename.as_str()) }
}

/// The line for a file that has been moved to `dst`.
pub fn moved(filename: String, dst: String) -> (n: Notice)
    ensures
        n.tone == Tone::Info,
        n.text@ == "moved: "@ + filename@ + " → "@ + dst@,
{
    let head = concat_strings("moved: ", filename.as_str());
    let mid = concat_strings(head.as_str(), " → ");
    Notice { tone: Tone::Info, text: concat_strings(mid.as_str(), dst.as_str()) }
}

/// An error line.
pub fn error(msg: String) -> (n: Notice)
    ensures
        n.tone == Tone::Error,
        n.text@ == msg@,
{
    Notice { tone: Tone::Error, text: msg }
}

/// The text of the summary after files were moved into directories.
pub open spec fn summary_text(files: nat, dirs: nat) -> Seq<char> {
    "moved "@ + decimal(files) + " files to "@ + decimal(dirs) + " directories."@
}

/// The line that sums up a run: no file moved, how many files went into how many
/// directories, or the error that stopped it.
pub fn print_result(keywords_len: usize, result: &Result<Vec<String>, Error>) -> (n: Notice)
    ensures
        result matches Ok(v) ==> (v@.len() == 0 ==> n.tone == Tone::Info && n.text@
            == "no files are moved."@),
        result matches Ok(v) ==> (v@.len() > 0 ==> n.tone == Tone::Success && n.text@
            == summary_text(v@.len(), keywords_len as nat)),
        result matches Err(e) ==> n.tone == Tone::Error && n.text@ == e.message(),
{
    match result {
        Ok(v) => {
            if v.len() == 0 {
                Notice { tone: Tone::Info, text: String::from_str("no files are moved.") }
            } else {
                let a = concat_strings("moved ", decimal_string(v.len()).as_str());
                let b = concat_strings(a.as_str(), " files to ");
                let c = concat_strings(b.as_str(), decimal_string(keywords_len).as_str());
                let d = concat_strings(c.as_str(), " directories.");
                Notice { tone: Tone::Success, text: d }
            }
        },
        Err(e) => Notice { tone: Tone::Error, text: e.to_string() },
    }
}

} // verus!
