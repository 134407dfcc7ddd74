//! Failure kinds and how a command's result maps to a process exit.

use vstd::prelude::*;

verus! {

/// Why an operation did not produce a result.
#[derive(Clone, Copy, Debug, PartialEq, Eq, Structural)]
pub enum ErrorKind {
    /// The persisted file is present but cannot be decoded, or carries an
    /// unknown format version.
    Corrupt,
    /// No entry matches the query.
    NoMatch,
    /// The interactive selection was aborted.
    Cancelled,
    /// Creating, locking or replacing the file failed.
    IoFailure,
    /// An import record is malformed, or the path to remove is not stored.
    InvalidInput,
}

/// The exit code of a command that did what it was asked.
pub const EXIT_SUCCESS: i32 = 0;

/// The exit code of a command that failed; a diagnostic goes with it.
pub const EXIT_FAILURE: i32 = 1;

/// The exit code of a query that matched nothing; nothing is printed.
pub const EXIT_NO_MATCH: i32 = 2;

/// The exit code of a selection that was aborted; nothing is printed.
pub const EXIT_CANCELLED: i32 = 130;

/// How a command ended, as the outermost caller needs it.
#[derive(Clone, Copy, Debug, PartialEq, Eq, Structural)]
pub enum Outcome {
    /// The command did what it was asked.
    Success,
    /// There was nothing to do: the process exits with `code` and prints
    /// nothing.
    NoOp { code: i32 },
    /// The command failed: the process prints a diagnostic and exits with
    /// `EXIT_FAILURE`.
    Failure { kind: ErrorKind },
}

/// Whether a failure of this kind is an expected negative result, which is
/// reported by the exit code alone.
pub open spec fn is_silent(kind: ErrorKind) -> bool {
    kind == ErrorKind::NoMatch || kind == ErrorKind::Cancelled
}

/// The outcome that stands for a result.
pub open spec fn outcome_of(result: Result<(), ErrorKind>) -> Outcome {
    match result {
        Ok(()) => Outcome::Success,
        Err(ErrorKind::NoMatch) => Outcome::NoOp { code: EXIT_NO_MATCH },
        Err(ErrorKind::Cancelled) => Outcome::NoOp { code: EXIT_CANCELLED },
        Err(kind) => Outcome::Failure { kind },
    }
}

/// The exit code that stands for an outcome.
pub open spec fn exit_code_of(outcome: Outcome) -> i32 {
    match outcome {
        Outcome::Success => EXIT_SUCCESS,
        Outcome::NoOp { code } => code,
        Outcome::Failure { kind } => EXIT_FAILURE,
    }
}

impl ErrorKind {
    /// Whether a failure of this kind is reported by the exit code alone.
    pub fn silent(&self) -> (quiet: bool)
        ensures
            quiet == is_silent(*self),
    {
        match self {
            ErrorKind::NoMatch => true,
            ErrorKind::Cancelled => true,
            _ => false,
        }
    }

    /// The diagnostic for a failure of this kind: empty for the silent
    /// kinds, and for them alone.
    pub fn diagnostic(&self) -> (text: &'static str)
        ensures
            text@.len() == 0 <==> is_silent(*self),
    {
        proof {
            reveal_strlit("");
            reveal_strlit("the database file is corrupt or of an unknown version");
            reveal_strlit("could not read or write the database file");
            reveal_strlit("malformed record, or path not in the database");
        }
        match self {
            ErrorKind::NoMatch => "",
            ErrorKind::Cancelled => "",
            ErrorKind::Corrupt => "the database file is corrupt or of an unknown version",
            ErrorKind::IoFailure => "could not read or write the database file",
            ErrorKind::InvalidInput => "malformed record, or path not in the database",
        }
    }
}

/// Turns the result of a command into its outcome: the silent kinds become
/// a `NoOp` with their exit code, every other kind a `Failure`.
pub fn classify(result: Result<(), ErrorKind>) -> (outcome: Outcome)
    ensures
        outcome == outcome_of(result),
        outcome is Success <==> result is Ok,
        outcome is NoOp <==> (result matches Err(kind) && is_silent(kind)),
{
    match result {
        Ok(()) => Outcome::Success,
        Err(ErrorKind::NoMatch) => Outcome::NoOp { code: EXIT_NO_MATCH },
        Err(ErrorKind::Cancelled) => Outcome::NoOp { code: EXIT_CANCELLED },
        Err(kind) => Outcome::Failure { kind },
    }
}

/// The exit code of the process for an outcome: zero for success alone.
pub fn exit_code(outcome: Outcome) -> (code: i32)
    ensures
        code == exit_code_of(outcome),
{
    match outcome {
        Outcome::Success => EXIT_SUCCESS,
        Outcome::NoOp { code } => code,
        Outcome::Failure { kind } => EXIT_FAILURE,
    }
}

} // verus!
