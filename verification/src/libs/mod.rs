//! The library's modules: keyword extraction, counting and ordering, argument
//! parsing, move planning and messages.
pub mod counts;
pub mod errors;
pub mod extract_keywords;
pub mod fs;
pub mod keywords;
pub mod parse_args;
pub mod regexen;
pub mod stdout;
