use vstd::prelude::*;

pub mod cli;
pub mod config;
pub mod edit;
pub mod errors;
pub mod laws;
pub mod formatter;
pub mod lexer;
pub mod output;
pub mod rules;
pub mod syntax;
pub mod text;
pub mod trivia;

pub use formatter::{format_source, FormatResult};

verus! {
} // verus!
