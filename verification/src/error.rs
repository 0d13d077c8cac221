//! What can go wrong while the datasets are brought together.

use vstd::prelude::*;

verus! {

/// A failure of one of the steps that bring the datasets together.
#[derive(Debug, PartialEq, Eq)]
pub enum OldeError {
    /// A command ran and reported failure.
    CommandFailed {
        /// The command and its arguments.
        cmd: Vec<String>,
        /// The exit code, where the command ended with one.
        status: Option<i32>,
        /// What the command wrote to its standard output.
        stdout: Vec<u8>,
        /// What the command wrote to its standard error.
        stderr: Vec<u8>,
    },
    /// More than one step failed, or one of several that ran side by side.
    MultipleErrors(Vec<OldeError>),
    /// The step was told to stop before it had finished.
    Canceled(String),
    /// A step gave no record at all.
    EmptyOutput(String),
    /// A file or a path could not be read.
    IOError(String),
    /// The data was not of the expected form.
    JSONError(String),
    /// The text was not valid UTF-8.
    UTF8Error(String),
}

impl OldeError {
    /// The step named `what` was told to stop.
    pub open spec fn is_canceled(&self, what: Seq<char>) -> bool {
        match self {
            OldeError::Canceled(s) => s@ == what,
            _ => false,
        }
    }

    /// The step named `what` gave no record.
    pub open spec fn is_empty_output(&self, what: Seq<char>) -> bool {
        match self {
            OldeError::EmptyOutput(s) => s@ == what,
            _ => false,
        }
    }

    /// These failures together, in this order.
    pub open spec fn is_multiple(&self, errors: Seq<OldeError>) -> bool {
        match self {
            OldeError::MultipleErrors(v) => v@ == errors,
            _ => false,
        }
    }
}

} // verus!
