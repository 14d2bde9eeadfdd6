//! The decisions of a buffer's sign refresh, as a step function: from
//! what the last action found to the next action. The caller performs
//! the actions (reading the buffer's name, running git, placing marks).

use vstd::prelude::*;

use crate::diff::Hunk;
use crate::git::GitError;

verus! {

/// What the last action of a sign refresh found.
pub enum RefreshEvent {
    /// The buffer's file name was read; `unnamed` when it is empty.
    NameRead { unnamed: bool },
    /// Whether the file lies inside a git repository.
    RepoChecked { in_repo: bool },
    /// The buffer's old signs were cleared.
    SignsCleared,
    /// `git diff` ran: the file's hunks, or why there are none.
    DiffRead(Result<Vec<Hunk>, GitError>),
    /// The new signs were placed.
    SignsPlaced,
}

/// The next action of a sign refresh.
pub enum RefreshAction {
    /// Ask git whether the file lies inside a repository.
    CheckRepo,
    /// Clear the buffer's old signs.
    ClearSigns,
    /// Run `git diff` on the file.
    RunDiff,
    /// Place the signs of these hunks.
    PlaceSigns(Vec<Hunk>),
    /// The refresh is over.
    Finish,
}

/// The next action of a sign refresh after `event`. Unnamed buffers and
/// files outside a repository are left alone; the old signs are cleared
/// before the diff runs; a failed diff leaves the buffer without signs.
pub fn refresh_step(event: RefreshEvent) -> (action: RefreshAction)
    ensures
        event matches RefreshEvent::NameRead { unnamed } ==> (if unnamed {
            action is Finish
        } else {
            action is CheckRepo
        }),
        event matches RefreshEvent::RepoChecked { in_repo } ==> (if in_repo {
            action is ClearSigns
        } else {
            action is Finish
        }),
        event is SignsCleared ==> action is RunDiff,
        event matches RefreshEvent::DiffRead(Ok(hunks)) ==> (action matches RefreshAction::PlaceSigns(
            h,
        ) && h@ == hunks@),
        event matches RefreshEvent::DiffRead(Err(_)) ==> action is Finish,
        event is SignsPlaced ==> action is Finish,
{
    match event {
        RefreshEvent::NameRead { unnamed } => {
            if unnamed {
                RefreshAction::Finish
            } else {
                RefreshAction::CheckRepo
            }
        },
        RefreshEvent::RepoChecked { in_repo } => {
            if in_repo {
                RefreshAction::ClearSigns
            } else {
                RefreshAction::Finish
            }
        },
        RefreshEvent::SignsCleared => RefreshAction::RunDiff,
        RefreshEvent::DiffRead(result) => match result {
            Ok(hunks) => RefreshAction::PlaceSigns(hunks),
            Err(_) => RefreshAction::Finish,
        },
        RefreshEvent::SignsPlaced => RefreshAction::Finish,
    }
}

} // verus!
