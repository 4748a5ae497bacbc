//! The errors the library reports.
use vstd::prelude::*;
use crate::text::concat_strings;

verus! {

/// What can go wrong while grouping files.
#[derive(Clone, Debug)]
pub enum Error {
    /// A file could not be moved; the text says why.
    MoveFileError(String),
    /// A keyword is too short; the text says so.
    KeywordLengthError(String),
    /// Reading or changing the file system failed; the text says why.
    IOError(String),
    /// There is no keyword to group by.
    NoKeywordsFound,
}

impl Error {
    /// The message of an error, as it is displayed.
    pub open spec fn message(self) -> Seq<char> {
        match self {
            Error::MoveFileError(m) => "move file error: "@ + m@,
            Error::KeywordLengthError(m) => "keyword length error: "@ + m@,
            Error::IOError(m) => "io error: "@ + m@,
            Error::NoKeywordsFound => "no keywords found"@,
        }
    }

    /// The message of the error (see [`Error::message`]).
    pub fn to_string(&self) -> (s: String)
        ensures
            s@ == self.message(),
    {
        match self {
            Error::MoveFileError(m) => concat_strings("move file error: ", m.as_str()),
            Error::KeywordLengthError(m) => concat_strings("keyword length error: ", m.as_str()),
            Error::IOError(m) => concat_strings("io error: ", m.as_str()),
            Error::NoKeywordsFound => String::from_str("no keywords found"),
        }
    }
}

} // verus!
