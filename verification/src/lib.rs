//! Group files into directories by keywords found in their names.
pub mod cli;
pub mod libs;
pub mod parse_args;
pub mod text;
pub mod workflow;
