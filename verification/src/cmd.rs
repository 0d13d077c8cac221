//! What a command's outcome means.

use crate::error::OldeError;
use vstd::prelude::*;

verus! {

/// What a command left behind when it ended.
#[derive(Debug, PartialEq, Eq)]
pub struct Outcome {
    /// Whether the command reported success.
    pub success: bool,
    /// The exit code, where the command ended with one.
    pub status: Option<i32>,
    /// What the command wrote to its standard output.
    pub stdout: Vec<u8>,
    /// What the command wrote to its standard error.
    pub stderr: Vec<u8>,
}

/// The standard output of a command that succeeded; the failure of one that
/// did not, with the command and all that it wrote.
pub fn run_cmd(args: Vec<String>, outcome: Outcome) -> (r: Result<Vec<u8>, OldeError>)
    ensures
        outcome.success ==> r == Ok::<Vec<u8>, OldeError>(outcome.stdout),
        !outcome.success ==> r == Err::<Vec<u8>, OldeError>(
            OldeError::CommandFailed {
                cmd: args,
                status: outcome.status,
                stdout: outcome.stdout,
                stderr: outcome.stderr,
            },
        ),
{
    if outcome.success {
        Ok(outcome.stdout)
    } else {
        Err(
            OldeError::CommandFailed {
                cmd: args,
                status: outcome.status,
                stdout: outcome.stdout,
                stderr: outcome.stderr,
            },
        )
    }
}

} // verus!
