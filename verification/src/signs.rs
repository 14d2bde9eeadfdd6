//! Which buffer rows receive a sign for a list of hunks, and the sign
//! text and highlight group of each kind of change. Placing the marks in
//! the editor is left to the caller.

use vstd::prelude::*;

use crate::diff::{min, ChangeKind, Hunk};

verus! {

/// Sign column text for added lines (a vertical bar).
pub const SIGN_ADD: &'static str = "\u{2502}";

/// Sign column text for modified lines (a vertical bar).
pub const SIGN_MODIFY: &'static str = "\u{2502}";

/// Sign column text for deletions (a downward triangle).
pub const SIGN_DELETE: &'static str = "\u{25bc}";

/// Highlight group of added lines.
pub const HL_ADD: &'static str = "AyumiAdd";

/// Highlight group of modified lines.
pub const HL_MODIFY: &'static str = "AyumiModify";

/// Highlight group of deletion markers.
pub const HL_DELETE: &'static str = "AyumiDelete";

/// Highlight group of inline blame text.
pub const HL_BLAME: &'static str = "AyumiBlame";

/// A sign to place: on a 0-based buffer row, for a kind of change.
#[derive(Debug, Clone, Copy, PartialEq, Eq, Structural)]
pub struct SignPlacement {
    /// The 0-based row of the buffer.
    pub row: usize,
    /// The kind of change the sign shows.
    pub kind: ChangeKind,
}

/// The signs of one hunk in a buffer of `line_count` lines. An added or
/// modified hunk marks each of its lines `start .. start + count` that
/// exists in the buffer (lines are 1-based, rows 0-based); a deletion
/// marks line `start`, or line 1 when `start` is 0, if the buffer has it.
pub open spec fn hunk_placements(h: Hunk, line_count: usize) -> Seq<SignPlacement> {
    let first = if h.start == 0 {
        1
    } else {
        h.start as int
    };
    match h.kind {
        ChangeKind::Deleted => {
            if first <= line_count {
                seq![SignPlacement { row: (first - 1) as usize, kind: ChangeKind::Deleted }]
            } else {
                seq![]
            }
        },
        _ => {
            let last = min(h.start + h.count - 1, line_count as int);
            if first <= last {
                Seq::new(
                    (last - first + 1) as nat,
                    |k: int| SignPlacement { row: (first - 1 + k) as usize, kind: h.kind },
                )
            } else {
                seq![]
            }
        },
    }
}

/// The signs of all `hunks`, hunk by hunk.
pub open spec fn all_placements(hunks: Seq<Hunk>, line_count: usize) -> Seq<SignPlacement>
    decreases hunks.len(),
{
    if hunks.len() == 0 {
        seq![]
    } else {
        all_placements(hunks.drop_last(), line_count) + hunk_placements(hunks.last(), line_count)
    }
}

/// Whether the line numbers of every added or modified hunk fit in
/// `usize`.
pub open spec fn placements_fit(hunks: Seq<Hunk>) -> bool {
    forall|i: int|
        0 <= i < hunks.len() && hunks[i].kind != ChangeKind::Deleted && hunks[i].count > 0
            ==> #[trigger] hunks[i].start + hunks[i].count - 1 <= usize::MAX
}

/// The signs to place for `hunks` in a buffer of `line_count` lines.
pub fn sign_placements(hunks: &[Hunk], line_count: usize) -> (out: Vec<SignPlacement>)
    requires
        placements_fit(hunks@),
    ensures
        out@ == all_placements(hunks@, line_count),
        forall|j: int| 0 <= j < out@.len() ==> #[trigger] out@[j].row < line_count,
{
    let mut out: Vec<SignPlacement> = Vec::new();
    let mut i: usize = 0;
    assert(hunks@.take(0) =~= seq![]);
    while i < hunks.len()
        invariant
            i <= hunks.len(),
            placements_fit(hunks@),
            out@ == all_placements(hunks@.take(i as int), line_count),
            forall|j: int| 0 <= j < out@.len() ==> #[trigger] out@[j].row < line_count,
        decreases hunks.len() - i,
    {
        let ghost base = out@;
        let h = &hunks[i];
        let first = if h.start == 0 {
            1
        } else {
            h.start
        };
        match h.kind {
            ChangeKind::Deleted => {
                if first <= line_count {
                    out.push(SignPlacement { row: first - 1, kind: ChangeKind::Deleted });
                }
                assert(out@ =~= base + hunk_placements(*h, line_count));
            },
            _ => {
                if h.count > 0 {
                    assert(h.start + h.count - 1 <= usize::MAX);
                    let last_line = h.start + (h.count - 1);
                    let last = if last_line <= line_count {
                        last_line
                    } else {
                        line_count
                    };
                    if first <= last {
                        let mut row = first - 1;
                        while row < last
                            invariant
                                1 <= first <= last <= line_count,
                                first - 1 <= row <= last,
                                out@ == base + Seq::new(
                                    (row - (first - 1)) as nat,
                                    |k: int| SignPlacement {
                                        row: (first - 1 + k) as usize,
                                        kind: h.kind,
                                    },
                                ),
                                forall|j: int|
                                    0 <= j < out@.len() ==> #[trigger] out@[j].row < line_count,
                            decreases last - row,
                        {
                            out.push(SignPlacement { row, kind: h.kind });
                            row = row + 1;
                            assert(out@ =~= base + Seq::new(
                                (row - (first - 1)) as nat,
                                |k: int| SignPlacement {
                                    row: (first - 1 + k) as usize,
                                    kind: h.kind,
                                },
                            ));
                        }
                    }
                }
                assert(out@ =~= base + hunk_placements(*h, line_count));
            },
        }
        assert(hunks@.take(i + 1).drop_last() =~= hunks@.take(i as int));
        i = i + 1;
    }
    assert(hunks@.take(i as int) =~= hunks@);
    out
}

/// Whether [`sign_placements`] can compute the last line of every added
/// or modified hunk of `hunks` in `usize`.
pub fn placement_lines_fit(hunks: &[Hunk]) -> (b: bool)
    ensures
        b == placements_fit(hunks@),
{
    let mut i: usize = 0;
    while i < hunks.len()
        invariant
            i <= hunks.len(),
            forall|j: int|
                0 <= j < i && hunks@[j].kind != ChangeKind::Deleted && hunks@[j].count > 0
                    ==> #[trigger] hunks@[j].start + hunks@[j].count - 1 <= usize::MAX,
        decreases hunks.len() - i,
    {
        let h = &hunks[i];
        if h.kind != ChangeKind::Deleted && h.count > 0 && h.count - 1 > usize::MAX - h.start {
            return false;
        }
        i = i + 1;
    }
    true
}

/// The sign column text of a kind of change.
pub fn sign_text(kind: ChangeKind) -> (s: &'static str)
    ensures
        kind == ChangeKind::Added ==> s@ == SIGN_ADD@,
        kind == ChangeKind::Modified ==> s@ == SIGN_MODIFY@,
        kind == ChangeKind::Deleted ==> s@ == SIGN_DELETE@,
{
    match kind {
        ChangeKind::Added => SIGN_ADD,
        ChangeKind::Modified => SIGN_MODIFY,
        ChangeKind::Deleted => SIGN_DELETE,
    }
}

/// The highlight group of a kind of change.
pub fn sign_highlight(kind: ChangeKind) -> (s: &'static str)
    ensures
        kind == ChangeKind::Added ==> s@ == HL_ADD@,
        kind == ChangeKind::Modified ==> s@ == HL_MODIFY@,
        kind == ChangeKind::Deleted ==> s@ == HL_DELETE@,
{
    match kind {
        ChangeKind::Added => HL_ADD,
        ChangeKind::Modified => HL_MODIFY,
        ChangeKind::Deleted => HL_DELETE,
    }
}

} // verus!
