//! What is settled before a command runs: the state to start from, and
//! whether the command may run at all.

use vstd::prelude::*;
use crate::command::Command;
use crate::state::{GroupView, SavedData};

verus! {

/// Exit status of a run that did its work.
pub const EXIT_SUCCESS: i32 = 0;

/// Exit status of a run that gave up before doing any work.
pub const EXIT_FAILURE: i32 = 1;

/// Why a run gives up before doing any work.
#[derive(Debug, Clone, Copy, PartialEq, Eq, Structural)]
pub enum Failure {
    /// The state file was read, and its content is no saved state.
    CorruptState,
    /// The command installs, and the package manager is not at hand.
    BackendMissing,
}

impl Failure {
    /// The exit status of a run that gave up for this reason.
    pub fn exit_code(&self) -> (code: i32)
        ensures
            code == EXIT_FAILURE,
    {
        EXIT_FAILURE
    }
}

/// What was found where the state is kept.
#[derive(Debug)]
pub enum StateFile {
    /// Nothing could be read there.
    Missing,
    /// What was read there is no saved state.
    Corrupt,
    /// The saved state that was read there.
    Parsed(SavedData),
}

/// The state a run starts from. Where nothing could be read, the run starts
/// from the state that knows no group; where a saved state was read, from
/// that state; where the content was no saved state, the run gives up.
pub fn starting_state(file: StateFile) -> (start: Result<SavedData, Failure>)
    requires
        file matches StateFile::Parsed(state) ==> state.wf(),
    ensures
        match file {
            StateFile::Missing => start matches Ok(state) && state@ == Seq::<GroupView>::empty(),
            StateFile::Corrupt => start == Err::<SavedData, Failure>(Failure::CorruptState),
            StateFile::Parsed(read) => start == Ok::<SavedData, Failure>(read),
        },
        start matches Ok(state) ==> state.wf(),
{
    match file {
        StateFile::Missing => Ok(SavedData::new()),
        StateFile::Corrupt => Err(Failure::CorruptState),
        StateFile::Parsed(read) => Ok(read),
    }
}

/// Whether `command` may run: a command that installs may run only where
/// the package manager is at hand, the others always.
pub fn check_backend(command: &Command, available: bool) -> (checked: Result<(), Failure>)
    ensures
        checked == if command.installs() && !available {
            Err::<(), Failure>(Failure::BackendMissing)
        } else {
            Ok::<(), Failure>(())
        },
{
    if command.needs_backend() && !available {
        Err(Failure::BackendMissing)
    } else {
        Ok(())
    }
}

} // verus!
