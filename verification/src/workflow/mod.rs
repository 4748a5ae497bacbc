//! The decisions of the program's modes: which keywords to offer, and which
//! files go into which existing directory.
pub mod dirs_as_keywords;
pub mod interactive;
