use ayumi::diff::{ChangeKind, Hunk};
use ayumi::signs::{
    placement_lines_fit, sign_highlight, sign_placements, sign_text, SignPlacement, HL_ADD, HL_DELETE, HL_MODIFY,
    SIGN_ADD, SIGN_DELETE, SIGN_MODIFY,
};

fn hunk(kind: ChangeKind, start: usize, count: usize) -> Hunk {
    Hunk { kind, start, count }
}

fn at(row: usize, kind: ChangeKind) -> SignPlacement {
    SignPlacement { row, kind }
}

#[test]
fn added_and_modified_lines_get_one_sign_each() {
    let hunks = [hunk(ChangeKind::Added, 2, 2), hunk(ChangeKind::Modified, 5, 1)];
    assert_eq!(
        sign_placements(&hunks, 10),
        vec![
            at(1, ChangeKind::Added),
            at(2, ChangeKind::Added),
            at(4, ChangeKind::Modified)
        ]
    );
}

#[test]
fn lines_past_the_buffer_get_no_sign() {
    let hunks = [hunk(ChangeKind::Added, 3, 5)];
    assert_eq!(
        sign_placements(&hunks, 4),
        vec![at(2, ChangeKind::Added), at(3, ChangeKind::Added)]
    );
    assert!(sign_placements(&[hunk(ChangeKind::Modified, 9, 2)], 4).is_empty());
}

#[test]
fn line_zero_gets_no_sign() {
    let hunks = [hunk(ChangeKind::Added, 0, 2)];
    assert_eq!(sign_placements(&hunks, 5), vec![at(0, ChangeKind::Added)]);
}

#[test]
fn deletion_marker_rows() {
    let hunks = [
        hunk(ChangeKind::Deleted, 0, 0),
        hunk(ChangeKind::Deleted, 3, 0),
        hunk(ChangeKind::Deleted, 7, 0),
    ];
    assert_eq!(
        sign_placements(&hunks, 5),
        vec![at(0, ChangeKind::Deleted), at(2, ChangeKind::Deleted)]
    );
}

#[test]
fn empty_buffer_gets_no_signs() {
    let hunks = [hunk(ChangeKind::Deleted, 0, 0), hunk(ChangeKind::Added, 1, 3)];
    assert!(sign_placements(&hunks, 0).is_empty());
}

#[test]
fn zero_count_hunks_get_no_sign() {
    assert!(sign_placements(&[hunk(ChangeKind::Modified, 3, 0)], 9).is_empty());
}

#[test]
fn every_sign_is_inside_the_buffer() {
    let hunks = [
        hunk(ChangeKind::Added, 1, 100),
        hunk(ChangeKind::Deleted, 50, 0),
        hunk(ChangeKind::Modified, usize::MAX, 1),
    ];
    let placed = sign_placements(&hunks, 7);
    assert_eq!(placed.len(), 7);
    assert!(placed.iter().all(|p| p.row < 7));
}

#[test]
fn sign_text_and_highlight_of_each_kind() {
    assert_eq!(sign_text(ChangeKind::Added), SIGN_ADD);
    assert_eq!(sign_text(ChangeKind::Modified), SIGN_MODIFY);
    assert_eq!(sign_text(ChangeKind::Deleted), SIGN_DELETE);
    assert_eq!(SIGN_ADD, "\u{2502}");
    assert_eq!(SIGN_DELETE, "\u{25bc}");
    assert_eq!(sign_highlight(ChangeKind::Added), HL_ADD);
    assert_eq!(sign_highlight(ChangeKind::Modified), HL_MODIFY);
    assert_eq!(sign_highlight(ChangeKind::Deleted), HL_DELETE);
    assert_eq!(HL_ADD, "AyumiAdd");
    assert_eq!(HL_MODIFY, "AyumiModify");
    assert_eq!(HL_DELETE, "AyumiDelete");
}

#[test]
fn last_lines_past_usize_are_detected() {
    assert!(placement_lines_fit(&[hunk(ChangeKind::Added, usize::MAX, 1)]));
    assert!(!placement_lines_fit(&[hunk(ChangeKind::Added, usize::MAX, 2)]));
    assert!(placement_lines_fit(&[hunk(ChangeKind::Deleted, usize::MAX, 5)]));
    assert!(placement_lines_fit(&[hunk(ChangeKind::Modified, usize::MAX, 0)]));
}
