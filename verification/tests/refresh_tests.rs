use ayumi::diff::{ChangeKind, Hunk};
use ayumi::git::GitError;
use ayumi::refresh::{refresh_step, RefreshAction, RefreshEvent};

#[test]
fn unnamed_buffers_are_left_alone() {
    assert!(matches!(
        refresh_step(RefreshEvent::NameRead { unnamed: true }),
        RefreshAction::Finish
    ));
    assert!(matches!(
        refresh_step(RefreshEvent::NameRead { unnamed: false }),
        RefreshAction::CheckRepo
    ));
}

#[test]
fn files_outside_a_repository_are_left_alone() {
    assert!(matches!(
        refresh_step(RefreshEvent::RepoChecked { in_repo: false }),
        RefreshAction::Finish
    ));
    assert!(matches!(
        refresh_step(RefreshEvent::RepoChecked { in_repo: true }),
        RefreshAction::ClearSigns
    ));
}

#[test]
fn signs_are_cleared_before_the_diff_and_placed_after() {
    assert!(matches!(refresh_step(RefreshEvent::SignsCleared), RefreshAction::RunDiff));
    let hunks = vec![Hunk { kind: ChangeKind::Added, start: 3, count: 1 }];
    match refresh_step(RefreshEvent::DiffRead(Ok(hunks.clone()))) {
        RefreshAction::PlaceSigns(h) => assert_eq!(h, hunks),
        _ => panic!("expected the signs to be placed"),
    }
    assert!(matches!(refresh_step(RefreshEvent::SignsPlaced), RefreshAction::Finish));
}

#[test]
fn a_failed_diff_ends_the_refresh() {
    let failed = RefreshEvent::DiffRead(Err(GitError::Command("fatal".to_string())));
    assert!(matches!(refresh_step(failed), RefreshAction::Finish));
}
