//! The command line and the mode it selects.
use vstd::prelude::*;

verus! {

/// What the command line holds.
pub struct Args {
    /// Keywords to group by, comma-separated; these skip the selection.
    pub keywords: Option<String>,
    /// The directory whose files are grouped.
    pub path: String,
    /// Report each file moved.
    pub verbose: bool,
    /// Use the names of the existing directories as keywords.
    pub dir_as_keyword: bool,
}

/// How the keywords are found.
pub enum Mode {
    /// The keywords given on the command line.
    UseKeywords(String),
    /// The names of the directories already there.
    DirsAsKeywords,
    /// Keywords found in the file names, chosen by the user.
    Interactive,
}

/// The mode the arguments select: given keywords come first, then directories as
/// keywords, else the interactive selection.
pub fn select_mode(args: &Args) -> (m: Mode)
    ensures
        args.keywords matches Some(k) ==> (m matches Mode::UseKeywords(k2) && k2@ == k@),
        args.keywords is None && args.dir_as_keyword ==> m is DirsAsKeywords,
        args.keywords is None && !args.dir_as_keyword ==> m is Interactive,
{
    match &args.keywords {
        Some(k) => Mode::UseKeywords(k.clone()),
        None => {
            if args.dir_as_keyword {
                Mode::DirsAsKeywords
            } else {
                Mode::Interactive
            }
        },
    }
}

} // verus!
