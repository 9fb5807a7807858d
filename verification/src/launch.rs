//! The decisions of the executor, which starts a job's program apart from
//! the daemon: the daemon's process is duplicated, the duplicate starts a
//! session of its own and is duplicated again, and the second duplicate
//! becomes the program.

use vstd::prelude::*;

verus! {

/// Which duplication has just returned.
#[derive(Clone, Copy, Debug, PartialEq, Eq, Structural)]
pub enum Fork {
    /// The duplication of the daemon's process.
    First,
    /// The duplication of the first duplicate.
    Second,
}

/// What a process does after a duplication has returned in it.
#[derive(Clone, Copy, Debug, PartialEq, Eq, Structural)]
pub enum Duty {
    /// The daemon waits once, for the first duplicate to end.
    ReapIntermediate,
    /// The first duplicate starts a session and duplicates itself.
    DetachAndForkAgain,
    /// The second duplicate replaces itself by the job's program.
    RunCommand,
    /// The first duplicate ends at once, and waits for nothing.
    Exit,
}

/// What the process does in which a duplication has returned `pid`: zero
/// in the new process, and anything else in the one that asked.
pub fn duty_after(fork: Fork, pid: i32) -> (r: Duty)
    ensures
        r == (match fork {
            Fork::First => if pid == 0 {
                Duty::DetachAndForkAgain
            } else {
                Duty::ReapIntermediate
            },
            Fork::Second => if pid == 0 {
                Duty::RunCommand
            } else {
                Duty::Exit
            },
        }),
{
    match fork {
        Fork::First => if pid == 0 {
            Duty::DetachAndForkAgain
        } else {
            Duty::ReapIntermediate
        },
        Fork::Second => if pid == 0 {
            Duty::RunCommand
        } else {
            Duty::Exit
        },
    }
}

} // verus!
