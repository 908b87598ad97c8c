//! The verdict on a finished external command.
//!
//! Running a process — spawning it, capturing its standard error, awaiting
//! it — is the caller's business; the rule that turns the observed exit
//! status into success or a uniform command-failure error lives here.

use vstd::prelude::*;

verus! {

/// The failures this library reports.
#[derive(Debug, Clone, Copy, PartialEq, Eq)]
pub enum Error {
    /// An external command finished with a non-zero exit status.
    CommandFailed,
}

/// Decides the outcome of a finished external command from its exit status:
/// success exactly when the process succeeded, and otherwise the uniform
/// command-failure error. The caller surfaces the captured standard error to
/// the operator before reporting the failure.
pub fn command_status_result(success: bool) -> (r: Result<(), Error>)
    ensures
        success <==> r is Ok,
        !success ==> r == Err::<(), Error>(Error::CommandFailed),
{
    if success {
        Ok(())
    } else {
        Err(Error::CommandFailed)
    }
}

} // verus!
