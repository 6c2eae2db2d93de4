use vstd::prelude::*;

verus! {

/// What to do at one directory while looking upwards for the index directory.
#[derive(PartialEq, Eq, Structural)]
pub enum RootStep {
    /// Open the index directory found here.
    OpenHere,
    /// This is the repository root: create the index directory here.
    CreateHere,
    /// Look in the parent directory.
    GoUp,
    /// No index and no repository above: create the index in the starting directory.
    CreateAtStart,
}

/// Decides the next step of the search for the index from what the current directory
/// holds: an existing index directory wins, then a repository root (`.git`), then the
/// parent directory; with no parent left the index goes to the starting directory.
pub fn root_step(has_index: bool, has_git: bool, has_parent: bool) -> (step: RootStep)
    ensures
        step == if has_index {
            RootStep::OpenHere
        } else if has_git {
            RootStep::CreateHere
        } else if has_parent {
            RootStep::GoUp
        } else {
            RootStep::CreateAtStart
        },
{
    if has_index {
        RootStep::OpenHere
    } else if has_git {
        RootStep::CreateHere
    } else if has_parent {
        RootStep::GoUp
    } else {
        RootStep::CreateAtStart
    }
}

} // verus!
