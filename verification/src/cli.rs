//! The command line: which operation to run and with what arguments, and
//! the rule that exactly one way of describing the code to match is given.
use vstd::prelude::*;
use crate::text::string_of;

verus! {

/// The name of the program.
pub const PROGRAM_NAME: &'static str = "patchwork";

/// What the program does, in one line.
pub const PROGRAM_ABOUT: &'static str = "AST-aware code editing with tree-sitter";

/// The parsed command line.
pub struct Cli {
    /// A language forced with `-l`, overriding detection by extension.
    pub language: Option<String>,
    /// The operation to run.
    pub command: Command,
}

/// The operations, each with its own arguments.
pub enum Command {
    /// Print locations where code matches a pattern.
    Find { pattern: Option<String>, query: Option<String>, files: Vec<String> },
    /// Replace matched code.
    Replace {
        pattern: Option<String>,
        query: Option<String>,
        replacement: String,
        in_place: bool,
        files: Vec<String>,
    },
    /// Delete matched code.
    Delete { pattern: Option<String>, query: Option<String>, in_place: bool, files: Vec<String> },
    /// Insert code before each match.
    InsertBefore {
        pattern: Option<String>,
        query: Option<String>,
        code: String,
        in_place: bool,
        files: Vec<String>,
    },
    /// Insert code after each match.
    InsertAfter {
        pattern: Option<String>,
        query: Option<String>,
        code: String,
        in_place: bool,
        files: Vec<String>,
    },
}

/// The message when both a pattern and a query are given.
pub open spec fn both_given_message() -> Seq<char> {
    "Cannot use both --pattern (-p) and --query (-q)"@
}

/// The message when neither a pattern nor a query is given.
pub open spec fn none_given_message() -> Seq<char> {
    "Must provide either --pattern (-p) or --query (-q)"@
}

/// Checks that exactly one of `--pattern` and `--query` was given.
pub fn ensure_pattern_or_query(pattern: &Option<String>, query: &Option<String>) -> (res: Result<
    (),
    String,
>)
    ensures
        res is Ok <==> (pattern is Some) != (query is Some),
        pattern is Some && query is Some ==> (res matches Err(e) && e@ == both_given_message()),
        pattern is None && query is None ==> (res matches Err(e) && e@ == none_given_message()),
{
    match (pattern, query) {
        (Some(_), Some(_)) => Err(string_of("Cannot use both --pattern (-p) and --query (-q)")),
        (None, None) => Err(string_of("Must provide either --pattern (-p) or --query (-q)")),
        _ => Ok(()),
    }
}

} // verus!
