//! Error values of the library: each carries the message it reports.
use vstd::prelude::*;

verus! {

/// `std::io::Error`, carried through unchanged.
#[verifier::external_type_specification]
#[verifier::external_body]
pub struct ExIoError(std::io::Error);

/// Source text that could not be read as Rust.
#[derive(Debug, Clone, PartialEq, Eq)]
pub struct ParseError {
    pub message: String,
}

impl ParseError {
    pub fn new(message: &str) -> (e: Self)
        ensures
            e.message@ == message@,
    {
        ParseError { message: message.to_owned() }
    }
}

/// A set of edits that cannot be applied to a source text.
#[derive(Debug, Clone, PartialEq, Eq)]
pub struct EditError {
    pub message: String,
}

impl EditError {
    pub fn new(message: &str) -> (e: Self)
        ensures
            e.message@ == message@,
    {
        EditError { message: message.to_owned() }
    }
}

/// A file that could not be read or written.
#[derive(Debug)]
pub struct FileError {
    pub operation: &'static str,
    pub path: String,
    pub source: std::io::Error,
}

impl FileError {
    pub fn new(operation: &'static str, path: &str, source: std::io::Error) -> (e: Self)
        ensures
            e.operation@ == operation@,
            e.path@ == path@,
            e.source == source,
    {
        FileError { operation, path: path.to_owned(), source }
    }
}

/// A command line that cannot be understood.
#[derive(Debug, Clone, PartialEq, Eq)]
pub struct CliError {
    pub message: String,
}

impl CliError {
    pub fn new(message: &str) -> (e: Self)
        ensures
            e.message@ == message@,
    {
        CliError { message: message.to_owned() }
    }
}

/// The error for a path on the command line that names nothing.
pub fn missing_path(path: &str) -> (e: CliError)
    ensures
        e.message@ == "path does not exist: "@ + path@,
{
    let mut message = "path does not exist: ".to_owned();
    message.append(path);
    CliError { message }
}

} // verus!
