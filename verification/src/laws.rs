//! Properties of the diff parser that hold for every input: what the
//! sign hunks mark, and which part of a multi-file diff is read.

use vstd::prelude::*;

use crate::signs::{all_placements, hunk_placements, SignPlacement};
use crate::git::{blame_of, blame_fields, blame_step};
use crate::text::{has_prefix, lines_from, strip_cr, text_lines};
use crate::diff::{close_current, scan_start, ScanState, hunk_header, line_kind, lemma_scan_stays_stopped, scan_line, scan_lines, file_prefix, 
    classify, classify_all, content_hunks, count_hunks, diff_fits, diff_hunks, lemma_run_length_bounds,
    min, mk_hunk, new_lines_before, raw_hunk_fits, raw_hunks_of, run_length, ChangeKind, DiffLine,
    Hunk, RawHunkModel,
};

verus! {

// ---------------------------------------------------------------------
// Deletion hunks
// ---------------------------------------------------------------------

/// Whether every deletion hunk of `hs` has count 0.
pub open spec fn deletions_have_zero_count(hs: Seq<Hunk>) -> bool {
    forall|k: int|
        0 <= k < hs.len() && (#[trigger] hs[k]).kind == ChangeKind::Deleted ==> hs[k].count == 0
}

proof fn lemma_zero_count_concat(a: Seq<Hunk>, b: Seq<Hunk>)
    requires
        deletions_have_zero_count(a),
        deletions_have_zero_count(b),
    ensures
        deletions_have_zero_count(a + b),
{
    assert forall|k: int|
        0 <= k < (a + b).len() && (#[trigger] (a + b)[k]).kind == ChangeKind::Deleted implies (a
        + b)[k].count == 0 by {
        if k >= a.len() {
            assert((a + b)[k] == b[k - a.len()]);
        }
    }
}

proof fn lemma_content_deletions(ls: Seq<DiffLine>, i: int, line: int)
    ensures
        deletions_have_zero_count(content_hunks(ls, i, line)),
    decreases ls.len() - i,
{
    if 0 <= i < ls.len() {
        match ls[i] {
            DiffLine::Context => {
                lemma_content_deletions(ls, i + 1, line + 1);
            },
            DiffLine::Added => {
                lemma_run_length_bounds(ls, i, DiffLine::Added);
                let n = run_length(ls, i, DiffLine::Added);
                lemma_content_deletions(ls, i + n, line + n);
                lemma_zero_count_concat(
                    seq![mk_hunk(ChangeKind::Added, line, n as int)],
                    content_hunks(ls, i + n, line + n),
                );
            },
            DiffLine::Removed => {
                lemma_run_length_bounds(ls, i, DiffLine::Removed);
                let r = run_length(ls, i, DiffLine::Removed);
                lemma_run_length_bounds(ls, i + r, DiffLine::Added);
                let a = run_length(ls, i + r, DiffLine::Added);
                if a > 0 {
                    let m = min(r as int, a as int);
                    let p = seq![mk_hunk(ChangeKind::Modified, line, m)] + (if a > r {
                        seq![mk_hunk(ChangeKind::Added, line + m, a - r)]
                    } else if r > a {
                        seq![mk_hunk(ChangeKind::Deleted, line + m, 0)]
                    } else {
                        seq![]
                    });
                    assert(deletions_have_zero_count(p));
                    lemma_content_deletions(ls, i + r + a, line + a);
                    lemma_zero_count_concat(p, content_hunks(ls, i + r + a, line + a));
                } else {
                    lemma_content_deletions(ls, i + r, line);
                    lemma_zero_count_concat(
                        seq![mk_hunk(ChangeKind::Deleted, line, 0)],
                        content_hunks(ls, i + r, line),
                    );
                }
            },
        }
    }
}

proof fn lemma_classify_all_deletions(rs: Seq<RawHunkModel>)
    ensures
        deletions_have_zero_count(classify_all(rs)),
    decreases rs.len(),
{
    if rs.len() > 0 {
        lemma_classify_all_deletions(rs.drop_last());
        let r = rs.last();
        if r.lines.len() > 0 {
            lemma_content_deletions(r.lines, 0, r.new_start as int);
        } else {
            assert(deletions_have_zero_count(count_hunks(r)));
        }
        lemma_zero_count_concat(classify_all(rs.drop_last()), classify(r));
    }
}

/// A deletion marks a position, not lines: every `Deleted` hunk that the
/// parser returns has count 0.
pub proof fn lemma_deletions_have_zero_count(s: Seq<char>)
    ensures
        deletions_have_zero_count(diff_hunks(s)),
{
    lemma_classify_all_deletions(raw_hunks_of(s));
}

// ---------------------------------------------------------------------
// Which lines the sign hunks mark
// ---------------------------------------------------------------------

/// Whether `h` is an added or modified hunk that covers new-file line `n`.
pub open spec fn marks(h: Hunk, n: int) -> bool {
    h.kind != ChangeKind::Deleted && h.start <= n < h.start + h.count
}

/// Whether some added or modified hunk of `hs` covers new-file line `n`.
pub open spec fn is_marked(hs: Seq<Hunk>, n: int) -> bool {
    exists|k: int| 0 <= k < hs.len() && #[trigger] marks(hs[k], n)
}

/// Whether the added and modified hunks of `hs` come in increasing line
/// order without overlapping, so no line is covered twice.
pub open spec fn marks_in_order(hs: Seq<Hunk>) -> bool {
    forall|k1: int, k2: int|
        0 <= k1 < k2 < hs.len() && (#[trigger] hs[k1]).kind != ChangeKind::Deleted && (
        #[trigger] hs[k2]).kind != ChangeKind::Deleted ==> hs[k1].start + hs[k1].count
            <= hs[k2].start
}

/// Whether the added and modified hunks of `hs` lie within lines `lo..hi`.
pub open spec fn marks_within(hs: Seq<Hunk>, lo: int, hi: int) -> bool {
    forall|k: int|
        0 <= k < hs.len() && (#[trigger] hs[k]).kind != ChangeKind::Deleted ==> lo <= hs[k].start
            && hs[k].start + hs[k].count <= hi
}

/// Whether an added content line in `lo..hi` of `ls` is new-file line `x`,
/// where content line `j` is new-file line `off + new_lines_before(ls, j)`.
pub open spec fn added_between(ls: Seq<DiffLine>, lo: int, hi: int, off: int, x: int) -> bool {
    exists|j: int|
        lo <= j < hi && ls[j] == DiffLine::Added && x == off + #[trigger] new_lines_before(ls, j)
}

/// Whether new-file line `n` is an added content line of a hunk whose
/// content lines are `ls` and whose new side starts at line `new_start`.
pub open spec fn is_added_line(ls: Seq<DiffLine>, new_start: int, n: int) -> bool {
    added_between(ls, 0, ls.len() as int, new_start, n)
}

/// The new-file lines that a hunk adds: its added content lines, or,
/// for a header without content lines, `new_start .. new_start + new_count`.
pub open spec fn is_new_line_of(r: RawHunkModel, n: int) -> bool {
    if r.lines.len() > 0 {
        is_added_line(r.lines, r.new_start as int, n)
    } else {
        r.new_start <= n < r.new_start + r.new_count
    }
}

proof fn lemma_marked_concat(p: Seq<Hunk>, q: Seq<Hunk>, n: int)
    ensures
        is_marked(p + q, n) <==> (is_marked(p, n) || is_marked(q, n)),
{
    if is_marked(p + q, n) {
        let k = choose|k: int| 0 <= k < (p + q).len() && #[trigger] marks((p + q)[k], n);
        if k < p.len() {
            assert(marks(p[k], n));
        } else {
            assert((p + q)[k] == q[k - p.len()]);
            assert(marks(q[k - p.len()], n));
        }
    }
    if is_marked(p, n) {
        let k = choose|k: int| 0 <= k < p.len() && #[trigger] marks(p[k], n);
        assert(marks((p + q)[k], n));
    }
    if is_marked(q, n) {
        let k = choose|k: int| 0 <= k < q.len() && #[trigger] marks(q[k], n);
        assert((p + q)[k + p.len()] == q[k]);
        assert(marks((p + q)[k + p.len()], n));
    }
}

proof fn lemma_order_concat(p: Seq<Hunk>, q: Seq<Hunk>, lo: int, mid: int, hi: int)
    requires
        marks_in_order(p),
        marks_in_order(q),
        marks_within(p, lo, mid),
        marks_within(q, mid, hi),
        lo <= mid <= hi,
    ensures
        marks_in_order(p + q),
        marks_within(p + q, lo, hi),
{
    let s = p + q;
    assert forall|k: int|
        0 <= k < s.len() && (#[trigger] s[k]).kind != ChangeKind::Deleted implies lo
        <= s[k].start && s[k].start + s[k].count <= hi by {
        if k < p.len() {
            assert(s[k] == p[k]);
        } else {
            assert(s[k] == q[k - p.len()]);
        }
    }
    assert forall|k1: int, k2: int|
        0 <= k1 < k2 < s.len() && (#[trigger] s[k1]).kind != ChangeKind::Deleted && (
        #[trigger] s[k2]).kind != ChangeKind::Deleted implies s[k1].start + s[k1].count
        <= s[k2].start by {
        if k2 < p.len() {
            assert(s[k1] == p[k1] && s[k2] == p[k2]);
        } else if k1 >= p.len() {
            assert(s[k1] == q[k1 - p.len()] && s[k2] == q[k2 - p.len()]);
        } else {
            assert(s[k1] == p[k1] && s[k2] == q[k2 - p.len()]);
        }
    }
}

proof fn lemma_added_split(ls: Seq<DiffLine>, lo: int, mid: int, hi: int, off: int, x: int)
    requires
        lo <= mid <= hi,
    ensures
        added_between(ls, lo, hi, off, x) <==> (added_between(ls, lo, mid, off, x)
            || added_between(ls, mid, hi, off, x)),
{
    if added_between(ls, lo, hi, off, x) {
        let j = choose|j: int|
            lo <= j < hi && ls[j] == DiffLine::Added && x == off + #[trigger] new_lines_before(
                ls,
                j,
            );
        if j < mid {
            assert(added_between(ls, lo, mid, off, x));
        } else {
            assert(added_between(ls, mid, hi, off, x));
        }
    }
    if added_between(ls, lo, mid, off, x) {
        let j = choose|j: int|
            lo <= j < mid && ls[j] == DiffLine::Added && x == off + #[trigger] new_lines_before(
                ls,
                j,
            );
        assert(added_between(ls, lo, hi, off, x));
    }
    if added_between(ls, mid, hi, off, x) {
        let j = choose|j: int|
            mid <= j < hi && ls[j] == DiffLine::Added && x == off + #[trigger] new_lines_before(
                ls,
                j,
            );
        assert(added_between(ls, lo, hi, off, x));
    }
}

/// The lines of a run all have the run's kind, and the line after it
/// does not.
proof fn lemma_run_contents(ls: Seq<DiffLine>, i: int, k: DiffLine)
    requires
        0 <= i <= ls.len(),
    ensures
        forall|j: int| i <= j < i + run_length(ls, i, k) ==> ls[j] == k,
        i + run_length(ls, i, k) < ls.len() ==> ls[i + run_length(ls, i, k)] != k,
    decreases ls.len() - i,
{
    if i < ls.len() && ls[i] == k {
        lemma_run_contents(ls, i + 1, k);
        assert forall|j: int| i <= j < i + run_length(ls, i, k) implies ls[j] == k by {}
    }
}

/// Over lines of one kind, the count of new-file lines grows by one per
/// line, or not at all for removed lines.
proof fn lemma_new_lines_over_run(ls: Seq<DiffLine>, i: int, t: int, k: DiffLine)
    requires
        0 <= i,
        0 <= t,
        i + t <= ls.len(),
        forall|j: int| i <= j < i + t ==> ls[j] == k,
    ensures
        new_lines_before(ls, i + t) == new_lines_before(ls, i) + if k != DiffLine::Removed {
            t
        } else {
            0
        },
    decreases t,
{
    if t > 0 {
        lemma_new_lines_over_run(ls, i, t - 1, k);
        assert(ls[i + t - 1] == k);
    }
}

/// In a run of added lines from `lo` to `hi`, content line `j` is new-file
/// line `base + (j - lo)`, so the run adds exactly lines `base .. base +
/// (hi - lo)`.
proof fn lemma_added_run(ls: Seq<DiffLine>, lo: int, hi: int, off: int, x: int)
    requires
        0 <= lo <= hi <= ls.len(),
        forall|j: int| lo <= j < hi ==> ls[j] == DiffLine::Added,
    ensures
        added_between(ls, lo, hi, off, x) <==> (off + new_lines_before(ls, lo) <= x < off
            + new_lines_before(ls, lo) + (hi - lo)),
{
    let base = off + new_lines_before(ls, lo);
    if added_between(ls, lo, hi, off, x) {
        let j = choose|j: int|
            lo <= j < hi && ls[j] == DiffLine::Added && x == off + #[trigger] new_lines_before(
                ls,
                j,
            );
        lemma_new_lines_over_run(ls, lo, j - lo, DiffLine::Added);
    }
    if base <= x < base + (hi - lo) {
        let j = lo + (x - base);
        lemma_new_lines_over_run(ls, lo, j - lo, DiffLine::Added);
        assert(added_between(ls, lo, hi, off, x));
    }
}

/// A stretch without added lines adds no line.
proof fn lemma_no_added(ls: Seq<DiffLine>, lo: int, hi: int, off: int, x: int)
    requires
        forall|u: int| lo <= u < hi ==> ls[u] != DiffLine::Added,
    ensures
        !added_between(ls, lo, hi, off, x),
{
}

/// The central induction: from content line `i`, which is new-file line
/// `line`, the hunks cover exactly the added lines, in order, inside the
/// new lines that remain.
proof fn lemma_content_marks(ls: Seq<DiffLine>, i: int, line: int)
    requires
        0 <= i <= ls.len(),
        0 <= line,
        line + new_lines_before(ls, ls.len() as int) - new_lines_before(ls, i) <= usize::MAX,
    ensures
        forall|x: int|
            is_marked(content_hunks(ls, i, line), x) <==> added_between(
                ls,
                i,
                ls.len() as int,
                line - new_lines_before(ls, i),
                x,
            ),
        marks_in_order(content_hunks(ls, i, line)),
        marks_within(
            content_hunks(ls, i, line),
            line,
            line + new_lines_before(ls, ls.len() as int) - new_lines_before(ls, i),
        ),
    decreases ls.len() - i,
{
    let len = ls.len() as int;
    let off = line - new_lines_before(ls, i);
    let top = line + new_lines_before(ls, len) - new_lines_before(ls, i);
    let h = content_hunks(ls, i, line);
    if i == len {
        assert forall|x: int| is_marked(h, x) <==> added_between(ls, i, len, off, x) by {}
        return;
    }
    match ls[i] {
        DiffLine::Context => {
            crate::diff::lemma_new_lines_monotone(ls, i + 1, len);
            lemma_content_marks(ls, i + 1, line + 1);
            assert forall|x: int| is_marked(h, x) <==> added_between(ls, i, len, off, x) by {
                lemma_added_split(ls, i, i + 1, len, off, x);
                lemma_no_added(ls, i, i + 1, off, x);
            }
        },
        DiffLine::Added => {
            lemma_run_length_bounds(ls, i, DiffLine::Added);
            lemma_run_contents(ls, i, DiffLine::Added);
            let n = run_length(ls, i, DiffLine::Added) as int;
            lemma_new_lines_over_run(ls, i, n, DiffLine::Added);
            crate::diff::lemma_new_lines_monotone(ls, i + n, len);
            lemma_content_marks(ls, i + n, line + n);
            let p = seq![mk_hunk(ChangeKind::Added, line, n)];
            let q = content_hunks(ls, i + n, line + n);
            assert(h == p + q);
            assert(marks_within(p, line, line + n));
            lemma_order_concat(p, q, line, line + n, top);
            assert forall|x: int| is_marked(h, x) <==> added_between(ls, i, len, off, x) by {
                lemma_marked_concat(p, q, x);
                lemma_added_split(ls, i, i + n, len, off, x);
                lemma_added_run(ls, i, i + n, off, x);
                if marks(p[0], x) {
                    assert(is_marked(p, x));
                }
                if is_marked(p, x) {
                    let k = choose|k: int| 0 <= k < p.len() && #[trigger] marks(p[k], x);
                    assert(k == 0);
                }
            }
        },
        DiffLine::Removed => {
            lemma_run_length_bounds(ls, i, DiffLine::Removed);
            lemma_run_contents(ls, i, DiffLine::Removed);
            let r = run_length(ls, i, DiffLine::Removed) as int;
            lemma_run_length_bounds(ls, i + r, DiffLine::Added);
            lemma_run_contents(ls, i + r, DiffLine::Added);
            let a = run_length(ls, i + r, DiffLine::Added) as int;
            lemma_new_lines_over_run(ls, i, r, DiffLine::Removed);
            lemma_new_lines_over_run(ls, i + r, a, DiffLine::Added);
            crate::diff::lemma_new_lines_monotone(ls, i + r + a, len);
            lemma_content_marks(ls, i + r + a, line + a);
            let q = content_hunks(ls, i + r + a, line + a);
            let p = if a > 0 {
                let m = min(r, a);
                seq![mk_hunk(ChangeKind::Modified, line, m)] + (if a > r {
                    seq![mk_hunk(ChangeKind::Added, line + m, a - r)]
                } else if r > a {
                    seq![mk_hunk(ChangeKind::Deleted, line + m, 0)]
                } else {
                    seq![]
                })
            } else {
                seq![mk_hunk(ChangeKind::Deleted, line, 0)]
            };
            assert(h == p + q);
            assert(marks_within(p, line, line + a));
            assert(marks_in_order(p));
            lemma_order_concat(p, q, line, line + a, top);
            assert forall|x: int| is_marked(h, x) <==> added_between(ls, i, len, off, x) by {
                lemma_marked_concat(p, q, x);
                lemma_added_split(ls, i, i + r, len, off, x);
                lemma_added_split(ls, i + r, i + r + a, len, off, x);
                lemma_no_added(ls, i, i + r, off, x);
                lemma_added_run(ls, i + r, i + r + a, off, x);
                if line <= x < line + a {
                    if a > r && x >= line + r {
                        assert(marks(p[1], x));
                    } else {
                        assert(marks(p[0], x));
                    }
                }
                if is_marked(p, x) {
                    let k = choose|k: int| 0 <= k < p.len() && #[trigger] marks(p[k], x);
                    assert(line <= x < line + a);
                }
            }
        },
    }
}

/// The signs of a hunk mark exactly the lines it adds, each once: for
/// content lines, the new-file lines of its `+` lines; for a header alone,
/// the lines `new_start .. new_start + new_count`. Added and modified
/// hunks come in line order and never overlap.
pub proof fn lemma_hunk_marks_its_new_lines(r: RawHunkModel)
    requires
        raw_hunk_fits(r),
    ensures
        forall|x: int| is_marked(classify(r), x) <==> is_new_line_of(r, x),
        marks_in_order(classify(r)),
{
    if r.lines.len() > 0 {
        lemma_content_marks(r.lines, 0, r.new_start as int);
    } else {
        let h = count_hunks(r);
        assert forall|x: int| is_marked(h, x) <==> is_new_line_of(r, x) by {
            if is_marked(h, x) {
                let k = choose|k: int| 0 <= k < h.len() && #[trigger] marks(h[k], x);
            }
            if r.new_start <= x < r.new_start + r.new_count {
                if r.old_count == 0 && r.new_count > 0 {
                    assert(marks(h[0], x));
                } else if r.old_count > 0 && r.new_count == 0 {
                } else {
                    let m = min(r.old_count as int, r.new_count as int);
                    if x < r.new_start + m {
                        assert(marks(h[0], x));
                    } else {
                        assert(marks(h[1], x));
                    }
                }
            }
        }
    }
}

proof fn lemma_classify_all_marks(rs: Seq<RawHunkModel>, x: int)
    requires
        forall|i: int| 0 <= i < rs.len() ==> #[trigger] raw_hunk_fits(rs[i]),
    ensures
        is_marked(classify_all(rs), x) <==> exists|i: int|
            0 <= i < rs.len() && #[trigger] is_new_line_of(rs[i], x),
    decreases rs.len(),
{
    if rs.len() == 0 {
        assert(classify_all(rs) =~= seq![]);
    } else {
        let init = rs.drop_last();
        assert forall|i: int| 0 <= i < init.len() implies #[trigger] raw_hunk_fits(init[i]) by {
            assert(init[i] == rs[i]);
        }
        lemma_classify_all_marks(init, x);
        lemma_hunk_marks_its_new_lines(rs.last());
        lemma_marked_concat(classify_all(init), classify(rs.last()), x);
        if exists|i: int| 0 <= i < rs.len() && #[trigger] is_new_line_of(rs[i], x) {
            let i = choose|i: int| 0 <= i < rs.len() && #[trigger] is_new_line_of(rs[i], x);
            if i < init.len() {
                assert(init[i] == rs[i]);
            }
        }
        if exists|i: int| 0 <= i < init.len() && #[trigger] is_new_line_of(init[i], x) {
            let i = choose|i: int| 0 <= i < init.len() && #[trigger] is_new_line_of(init[i], x);
            assert(init[i] == rs[i]);
        }
        if is_new_line_of(rs.last(), x) {
            assert(is_new_line_of(rs[rs.len() - 1], x));
        }
    }
}

/// The added and modified signs of a diff mark exactly the lines that its
/// hunks add, and nothing else.
pub proof fn lemma_diff_marks_added_lines(s: Seq<char>, x: int)
    requires
        diff_fits(s),
    ensures
        is_marked(diff_hunks(s), x) <==> exists|i: int|
            0 <= i < raw_hunks_of(s).len() && #[trigger] is_new_line_of(raw_hunks_of(s)[i], x),
{
    lemma_classify_all_marks(raw_hunks_of(s), x);
}

// ---------------------------------------------------------------------
// Only the first file's section is read
// ---------------------------------------------------------------------

/// Lines are found the same way in `b` as in `b` behind any text `a`.
proof fn lemma_lines_shift(a: Seq<char>, b: Seq<char>, st: int, k: int)
    requires
        0 <= st <= k <= b.len(),
    ensures
        lines_from(a + b, a.len() + st, a.len() + k) == lines_from(b, st, k),
    decreases b.len() - k,
{
    let s = a + b;
    if k < b.len() {
        assert(s[a.len() + k] == b[k]);
        if b[k] == '\n' {
            lemma_lines_shift(a, b, k + 1, k + 1);
            assert(s.subrange(a.len() + st, a.len() + k) =~= b.subrange(st, k));
        } else {
            lemma_lines_shift(a, b, st, k + 1);
        }
    } else {
        assert(s.subrange(a.len() + st, s.len() as int) =~= b.subrange(st, b.len() as int));
    }
}

/// When `a` ends a line, the lines of `a + b` are those of `a` and then
/// those of `b`.
proof fn lemma_lines_concat(a: Seq<char>, b: Seq<char>, start: int, i: int)
    requires
        0 <= start <= i <= a.len(),
        a.len() > 0 ==> a.last() == '\n',
        i == a.len() ==> start == i,
    ensures
        lines_from(a + b, start, i) == lines_from(a, start, i) + lines_from(b, 0, 0),
    decreases a.len() - i,
{
    let s = a + b;
    if i == a.len() {
        lemma_lines_shift(a, b, 0, 0);
        assert(lines_from(a, start, i) =~= seq![]);
        assert(lines_from(a, start, i) + lines_from(b, 0, 0) =~= lines_from(b, 0, 0));
    } else {
        assert(s[i] == a[i]);
        if a[i] == '\n' {
            lemma_lines_concat(a, b, i + 1, i + 1);
            assert(s.subrange(start, i) =~= a.subrange(start, i));
            let l = seq![strip_cr(a.subrange(start, i))];
            assert(l + (lines_from(a, i + 1, i + 1) + lines_from(b, 0, 0)) =~= (l + lines_from(
                a,
                i + 1,
                i + 1,
            )) + lines_from(b, 0, 0));
        } else {
            lemma_lines_concat(a, b, start, i + 1);
        }
    }
}

/// Scanning past characters that are not line breaks changes nothing.
proof fn lemma_lines_skip(s: Seq<char>, start: int, i: int, j: int)
    requires
        0 <= i <= j <= s.len(),
        forall|k: int| i <= k < j ==> s[k] != '\n',
    ensures
        lines_from(s, start, i) == lines_from(s, start, j),
    decreases j - i,
{
    if i < j {
        lemma_lines_skip(s, start, i + 1, j);
    }
}

/// The line that starts at 0 keeps a prefix of five non-break characters
/// that `b` starts with.
proof fn lemma_first_line_prefix(b: Seq<char>, k: int)
    requires
        5 <= k <= b.len(),
        has_prefix(b, file_prefix()),
    ensures
        lines_from(b, 0, k).len() > 0,
        has_prefix(lines_from(b, 0, k)[0], file_prefix()),
    decreases b.len() - k,
{
    let p = file_prefix();
    if k == b.len() {
        assert(b.subrange(0, b.len() as int).take(5) =~= b.take(5));
    } else if b[k] == '\n' {
        let l = b.subrange(0, k);
        assert(l.take(5) =~= b.take(5));
        assert(b.take(5)[4] == ' ');
        assert(strip_cr(l).take(5) =~= l.take(5));
    } else {
        lemma_first_line_prefix(b, k + 1);
    }
}

/// Whether the first file's section has begun in the diff text `a`: it
/// holds a `diff ` line or a hunk header.
pub open spec fn first_file_begun(a: Seq<char>) -> bool {
    scan_lines(text_lines(a)).in_file
}

/// Only the first file of a diff is read: once its section has begun,
/// whatever follows from the next `diff ` line on changes nothing.
pub proof fn lemma_only_first_file_is_read(a: Seq<char>, b: Seq<char>)
    requires
        a.len() > 0,
        a.last() == '\n',
        first_file_begun(a),
        has_prefix(b, file_prefix()),
    ensures
        raw_hunks_of(a + b) == raw_hunks_of(a),
        diff_hunks(a + b) == diff_hunks(a),
{
    let la = text_lines(a);
    let lb = text_lines(b);
    lemma_lines_concat(a, b, 0, 0);
    assert(text_lines(a + b) == la + lb);
    assert forall|k: int| 0 <= k < 5 implies b[k] != '\n' by {
        assert(b[k] == b.take(5)[k]);
    }
    lemma_lines_skip(b, 0, 0, 5);
    lemma_first_line_prefix(b, 5);
    let first = lb[0];
    let st = scan_lines(la);
    let st1 = scan_lines(la.push(first));
    assert(la.push(first).drop_last() =~= la);
    assert(st1 == scan_line(st, first));
    assert(st1.stopped);
    assert(st1.done == st.done && st1.current == st.current);
    lemma_scan_stays_stopped(la.push(first), lb.skip(1));
    assert(la + lb =~= la.push(first) + lb.skip(1));
}

// ---------------------------------------------------------------------
// Signs
// ---------------------------------------------------------------------

/// Whether some sign of `ps` sits on 1-based buffer line `n`.
pub open spec fn has_sign_on(ps: Seq<SignPlacement>, n: int) -> bool {
    exists|k: int| 0 <= k < ps.len() && (#[trigger] ps[k]).row == n - 1
}

/// An added or modified hunk puts a sign on exactly the lines it covers
/// that exist in the buffer, each once and in order, all of its own kind.
pub proof fn lemma_signs_on_covered_lines(h: Hunk, line_count: usize, n: int)
    requires
        h.kind != ChangeKind::Deleted,
        h.count > 0 ==> h.start + h.count - 1 <= usize::MAX,
    ensures
        has_sign_on(hunk_placements(h, line_count), n) <==> (marks(h, n) && 1 <= n
            <= line_count),
        forall|k1: int, k2: int|
            0 <= k1 < k2 < hunk_placements(h, line_count).len() ==> (#[trigger] hunk_placements(
                h,
                line_count,
            )[k1]).row < (#[trigger] hunk_placements(h, line_count)[k2]).row,
        forall|k: int|
            0 <= k < hunk_placements(h, line_count).len() ==> (#[trigger] hunk_placements(
                h,
                line_count,
            )[k]).kind == h.kind,
{
    let ps = hunk_placements(h, line_count);
    let first = if h.start == 0 {
        1
    } else {
        h.start as int
    };
    if has_sign_on(ps, n) {
        let k = choose|k: int| 0 <= k < ps.len() && (#[trigger] ps[k]).row == n - 1;
    }
    if marks(h, n) && 1 <= n <= line_count {
        let k = n - first;
        assert(ps[k].row == n - 1);
    }
}

/// A deletion puts one sign, on the line after which lines were removed
/// (line 1 for a deletion at the top), when the buffer has that line.
pub proof fn lemma_deletion_sign(h: Hunk, line_count: usize)
    requires
        h.kind == ChangeKind::Deleted,
    ensures
        ({
            let line = if h.start == 0 {
                1
            } else {
                h.start as int
            };
            &&& line <= line_count ==> hunk_placements(h, line_count) == seq![
                SignPlacement { row: (line - 1) as usize, kind: ChangeKind::Deleted },
            ]
            &&& line > line_count ==> hunk_placements(h, line_count).len() == 0
        }),
{
}

// ---------------------------------------------------------------------
// Texts made of lines
// ---------------------------------------------------------------------

/// Whether `l` holds no line break, so that it can stand as one line.
pub open spec fn is_line(l: Seq<char>) -> bool {
    forall|k: int| 0 <= k < l.len() ==> l[k] != '\n'
}

/// The line `l` followed by a line break.
pub open spec fn line_text(l: Seq<char>) -> Seq<char> {
    l + seq!['\n']
}

/// The lines `ls`, each followed by a line break.
pub open spec fn joined_lines(ls: Seq<Seq<char>>) -> Seq<char>
    decreases ls.len(),
{
    if ls.len() == 0 {
        seq![]
    } else {
        joined_lines(ls.drop_last()) + line_text(ls.last())
    }
}

/// Whether `a` is empty or ends a line.
pub open spec fn ends_line(a: Seq<char>) -> bool {
    a.len() == 0 || a.last() == '\n'
}

proof fn lemma_text_lines_concat(a: Seq<char>, b: Seq<char>)
    requires
        ends_line(a),
    ensures
        text_lines(a + b) == text_lines(a) + text_lines(b),
{
    lemma_lines_concat(a, b, 0, 0);
}

proof fn lemma_one_line(l: Seq<char>)
    requires
        is_line(l),
    ensures
        text_lines(line_text(l)) == seq![strip_cr(l)],
{
    let x = line_text(l);
    assert forall|k: int| 0 <= k < l.len() implies x[k] != '\n' by {
        assert(x[k] == l[k]);
    }
    lemma_lines_skip(x, 0, 0, l.len() as int);
    assert(x[l.len() as int] == '\n');
    assert(x.subrange(0, l.len() as int) =~= l);
    assert(lines_from(x, l.len() + 1 as int, l.len() + 1 as int) =~= seq![]);
    assert(seq![strip_cr(l)] + seq![] =~= seq![strip_cr(l)]);
}

proof fn lemma_joined_lines(ls: Seq<Seq<char>>)
    requires
        forall|i: int| 0 <= i < ls.len() ==> is_line(#[trigger] ls[i]),
    ensures
        text_lines(joined_lines(ls)) == Seq::new(ls.len(), |i: int| strip_cr(ls[i])),
        ends_line(joined_lines(ls)),
    decreases ls.len(),
{
    if ls.len() == 0 {
        assert(text_lines(seq![]) =~= seq![]);
        assert(Seq::new(0, |i: int| strip_cr(ls[i])) =~= seq![]);
    } else {
        let init = ls.drop_last();
        assert forall|i: int| 0 <= i < init.len() implies is_line(#[trigger] init[i]) by {
            assert(init[i] == ls[i]);
        }
        lemma_joined_lines(init);
        assert(is_line(ls[ls.len() - 1]));
        lemma_one_line(ls.last());
        lemma_text_lines_concat(joined_lines(init), line_text(ls.last()));
        assert(Seq::new(ls.len(), |i: int| strip_cr(ls[i])) =~= Seq::new(
            init.len(),
            |i: int| strip_cr(init[i]),
        ) + seq![strip_cr(ls.last())]);
        let j = joined_lines(ls);
        assert(j.last() == '\n');
    }
}

// ---------------------------------------------------------------------
// Lines that a hunk's body skips
// ---------------------------------------------------------------------

proof fn lemma_scan_same_after(p: Seq<Seq<char>>, p2: Seq<Seq<char>>, q: Seq<Seq<char>>)
    requires
        scan_lines(p) == scan_lines(p2),
    ensures
        scan_lines(p + q) == scan_lines(p2 + q),
    decreases q.len(),
{
    if q.len() > 0 {
        lemma_scan_same_after(p, p2, q.drop_last());
        assert((p + q).drop_last() =~= p + q.drop_last());
        assert((p2 + q).drop_last() =~= p2 + q.drop_last());
    }
}

/// A line that starts with `\` (git's `\ No newline at end of file`) is
/// skipped wherever it stands: removing it from a diff, between any text
/// `a` that ends a line and any text `b`, changes neither the hunks read
/// nor the sign hunks.
pub proof fn lemma_backslash_line_is_skipped(a: Seq<char>, l: Seq<char>, b: Seq<char>)
    requires
        ends_line(a),
        is_line(l),
        l.len() > 0,
        l[0] == '\\',
    ensures
        raw_hunks_of(a + l + seq!['\n'] + b) == raw_hunks_of(a + b),
        diff_hunks(a + l + seq!['\n'] + b) == diff_hunks(a + b),
{
    let x = line_text(l);
    assert(a + l + seq!['\n'] + b =~= a + (x + b));
    lemma_one_line(l);
    assert(ends_line(x));
    lemma_text_lines_concat(x, b);
    lemma_text_lines_concat(a, x + b);
    lemma_text_lines_concat(a, b);
    let la = text_lines(a);
    let l2 = strip_cr(l);
    assert(l2[0] == '\\');
    assert(l2.len() > 0);
    // The line is neither a file line, nor a header, nor a content line.
    assert(!has_prefix(l2, file_prefix())) by {
        if has_prefix(l2, file_prefix()) {
            assert(l2.take(5)[0] == l2[0]);
        }
    }
    assert(hunk_header(l2) is None) by {
        if has_prefix(l2, crate::diff::header_prefix()) {
            assert(l2.take(3)[0] == l2[0]);
        }
    }
    assert(line_kind(l2) is None);
    assert(la.push(l2).drop_last() =~= la);
    assert(scan_lines(la.push(l2)) == scan_lines(la));
    lemma_scan_same_after(la.push(l2), la, text_lines(b));
    assert(la + (seq![l2] + text_lines(b)) =~= la.push(l2) + text_lines(b));
}

// ---------------------------------------------------------------------
// Content lines
// ---------------------------------------------------------------------

/// Whether `l` is a content line: it starts with `+`, `-` or a space.
pub open spec fn is_content_line(l: Seq<char>) -> bool {
    l.len() > 0 && (l[0] == '+' || l[0] == '-' || l[0] == ' ')
}

/// A content line's kind, by its first character alone.
pub open spec fn kind_by_first_char(l: Seq<char>) -> DiffLine {
    if l[0] == '+' {
        DiffLine::Added
    } else if l[0] == '-' {
        DiffLine::Removed
    } else {
        DiffLine::Context
    }
}

proof fn lemma_scan_content_lines(h: RawHunkModel, first: Seq<char>, ls: Seq<Seq<char>>)
    requires
        hunk_header(first) == Some(h),
        forall|i: int| 0 <= i < ls.len() ==> is_content_line(#[trigger] ls[i]),
    ensures
        scan_lines(seq![first] + ls) == (ScanState {
            done: seq![],
            current: Some(
                RawHunkModel {
                    old_start: h.old_start,
                    old_count: h.old_count,
                    new_start: h.new_start,
                    new_count: h.new_count,
                    lines: Seq::new(ls.len(), |i: int| kind_by_first_char(ls[i])),
                },
            ),
            in_file: true,
            stopped: false,
        }),
    decreases ls.len(),
{
    let kinds = Seq::new(ls.len(), |i: int| kind_by_first_char(ls[i]));
    if ls.len() == 0 {
        assert(seq![first] + ls =~= seq![first]);
        assert(seq![first].drop_last() =~= seq![]);
        assert(!has_prefix(first, file_prefix())) by {
            assert(has_prefix(first, crate::diff::header_prefix()));
            assert(first.take(3)[0] == '@');
            if has_prefix(first, file_prefix()) {
                assert(first.take(5)[0] == first.take(3)[0]);
            }
        }
        assert(h.lines =~= kinds);
        let one: Seq<Seq<char>> = seq![first];
        assert(one.drop_last() =~= Seq::<Seq<char>>::empty());
        assert(scan_lines(Seq::<Seq<char>>::empty()) == scan_start());
        assert(one.last() == first);
        assert(scan_lines(one) == scan_line(scan_start(), first));
    } else {
        let init = ls.drop_last();
        assert forall|i: int| 0 <= i < init.len() implies is_content_line(#[trigger] init[i]) by {
            assert(init[i] == ls[i]);
        }
        lemma_scan_content_lines(h, first, init);
        assert((seq![first] + ls).drop_last() =~= seq![first] + init);
        let l = ls.last();
        assert(is_content_line(ls[ls.len() - 1]));
        assert(!has_prefix(l, file_prefix())) by {
            if has_prefix(l, file_prefix()) {
                assert(l.take(5)[0] == l[0]);
            }
        }
        assert(hunk_header(l) is None) by {
            if has_prefix(l, crate::diff::header_prefix()) {
                assert(l.take(3)[0] == l[0]);
            }
        }
        assert(line_kind(l) == Some(kind_by_first_char(l)));
        assert(Seq::new(init.len(), |i: int| kind_by_first_char(init[i])).push(
            kind_by_first_char(l),
        ) =~= kinds);
        assert(scan_lines(seq![first] + ls) == scan_line(scan_lines(seq![first] + init), l));
    }
}

/// Inside a hunk, every content line is read by its first character alone
/// (`+` added, `-` removed, space context), whatever follows it: a header
/// line followed by content lines `ls` is one hunk whose line kinds are
/// those first characters, in order.
pub proof fn lemma_content_lines_by_first_char(header: Seq<char>, ls: Seq<Seq<char>>)
    requires
        is_line(header),
        hunk_header(strip_cr(header)) is Some,
        forall|i: int| 0 <= i < ls.len() ==> is_line(#[trigger] ls[i]),
        forall|i: int| 0 <= i < ls.len() ==> is_content_line(#[trigger] ls[i]),
    ensures
        ({
            let h = hunk_header(strip_cr(header))->0;
            raw_hunks_of(line_text(header) + joined_lines(ls)) == seq![
                RawHunkModel {
                    old_start: h.old_start,
                    old_count: h.old_count,
                    new_start: h.new_start,
                    new_count: h.new_count,
                    lines: Seq::new(ls.len(), |i: int| kind_by_first_char(ls[i])),
                },
            ]
        }),
{
    let h = hunk_header(strip_cr(header))->0;
    lemma_one_line(header);
    lemma_joined_lines(ls);
    lemma_text_lines_concat(line_text(header), joined_lines(ls));
    let stripped = Seq::new(ls.len(), |i: int| strip_cr(ls[i]));
    assert forall|i: int| 0 <= i < stripped.len() implies is_content_line(
        #[trigger] stripped[i],
    ) && kind_by_first_char(stripped[i]) == kind_by_first_char(ls[i]) by {
        let l = ls[i];
        assert(is_content_line(l));
        if l.len() > 0 && l.last() == '\r' {
            assert(l.len() > 1);
            assert(strip_cr(l)[0] == l[0]);
        }
    }
    lemma_scan_content_lines(h, strip_cr(header), stripped);
    assert(Seq::new(stripped.len(), |i: int| kind_by_first_char(stripped[i])) =~= Seq::new(
        ls.len(),
        |i: int| kind_by_first_char(ls[i]),
    ));
}

proof fn lemma_runs_of_block(kinds: Seq<DiffLine>, k: int, i: int)
    requires
        0 < k,
        kinds.len() == 2 * k,
        forall|j: int| 0 <= j < k ==> kinds[j] == DiffLine::Removed,
        forall|j: int| k <= j < 2 * k ==> kinds[j] == DiffLine::Added,
        0 <= i <= k,
    ensures
        run_length(kinds, i, DiffLine::Removed) == k - i,
        run_length(kinds, k + i, DiffLine::Added) == k - i,
    decreases k - i,
{
    if i < k {
        lemma_runs_of_block(kinds, k, i + 1);
    }
}

/// A hunk whose body is `k` removed lines followed by `k` added lines,
/// whatever their text (such as `--- old comment` and `+-- new comment`),
/// is one modification of `k` lines at the hunk's first new line.
pub proof fn lemma_removed_then_added_block_is_modified(
    header: Seq<char>,
    removed: Seq<Seq<char>>,
    added: Seq<Seq<char>>,
)
    requires
        is_line(header),
        hunk_header(strip_cr(header)) is Some,
        0 < removed.len() == added.len() <= usize::MAX,
        forall|i: int| 0 <= i < removed.len() ==> is_line(#[trigger] removed[i]),
        forall|i: int| 0 <= i < added.len() ==> is_line(#[trigger] added[i]),
        forall|i: int|
            0 <= i < removed.len() ==> (#[trigger] removed[i]).len() > 0 && removed[i][0] == '-',
        forall|i: int|
            0 <= i < added.len() ==> (#[trigger] added[i]).len() > 0 && added[i][0] == '+',
    ensures
        diff_hunks(line_text(header) + joined_lines(removed + added)) == seq![
            Hunk {
                kind: ChangeKind::Modified,
                start: hunk_header(strip_cr(header))->0.new_start,
                count: removed.len() as usize,
            },
        ],
{
    let ls = removed + added;
    let k = removed.len() as int;
    assert forall|i: int| 0 <= i < ls.len() implies is_line(#[trigger] ls[i])
        && is_content_line(ls[i]) by {
        if i < k {
            assert(ls[i] == removed[i]);
        } else {
            assert(ls[i] == added[i - k]);
        }
    }
    lemma_content_lines_by_first_char(header, ls);
    let h = hunk_header(strip_cr(header))->0;
    let kinds = Seq::new(ls.len(), |i: int| kind_by_first_char(ls[i]));
    assert forall|j: int| 0 <= j < k implies kinds[j] == DiffLine::Removed by {
        assert(ls[j] == removed[j]);
    }
    assert forall|j: int| k <= j < 2 * k implies kinds[j] == DiffLine::Added by {
        assert(ls[j] == added[j - k]);
    }
    lemma_runs_of_block(kinds, k, 0);
    let r = RawHunkModel {
        old_start: h.old_start,
        old_count: h.old_count,
        new_start: h.new_start,
        new_count: h.new_count,
        lines: kinds,
    };
    assert(kinds[0] == DiffLine::Removed);
    assert(content_hunks(kinds, 2 * k, h.new_start + k) =~= seq![]);
    assert(classify(r) =~= seq![mk_hunk(ChangeKind::Modified, h.new_start as int, k)]);
    assert(seq![r].drop_last() =~= seq![]);
    assert(classify_all(seq![r]) =~= classify_all(seq![]) + classify(r));
    assert(classify_all(seq![]) =~= seq![]);
}

// ---------------------------------------------------------------------
// Blame fields
// ---------------------------------------------------------------------

/// Once a hash is known, each further line of porcelain blame output sets
/// a field only by its first word: `author ` sets the author,
/// `author-time ` the date, `summary ` the summary, each to the rest of
/// the line; a line that begins with any other word (`committer `,
/// `previous `, `filename `, ...) changes nothing.
pub proof fn lemma_blame_line_sets_field_by_its_word(a: Seq<char>, l: Seq<char>)
    requires
        ends_line(a),
        is_line(l),
        l.len() == 0 || l.last() != '\r',
        blame_of(a).hash.len() > 0,
    ensures
        ({
            let before = blame_of(a);
            let after = blame_of(a + line_text(l));
            &&& after.hash == before.hash
            &&& after.author == if l.len() >= 7 && l.take(7) == seq![
                'a',
                'u',
                't',
                'h',
                'o',
                'r',
                ' ',
            ] {
                l.skip(7)
            } else {
                before.author
            }
            &&& after.date == if l.len() >= 12 && l.take(12) == seq![
                'a',
                'u',
                't',
                'h',
                'o',
                'r',
                '-',
                't',
                'i',
                'm',
                'e',
                ' ',
            ] {
                l.skip(12)
            } else {
                before.date
            }
            &&& after.summary == if l.len() >= 8 && l.take(8) == seq![
                's',
                'u',
                'm',
                'm',
                'a',
                'r',
                'y',
                ' ',
            ] {
                l.skip(8)
            } else {
                before.summary
            }
        }),
{
    lemma_one_line(l);
    lemma_text_lines_concat(a, line_text(l));
    let la = text_lines(a);
    assert(strip_cr(l) == l);
    assert(la.push(l).drop_last() =~= la);
    assert(la + seq![l] =~= la.push(l));
    assert(blame_fields(la.push(l)) == blame_step(blame_fields(la), l));
    let ap = seq!['a', 'u', 't', 'h', 'o', 'r', ' '];
    let tp = seq!['a', 'u', 't', 'h', 'o', 'r', '-', 't', 'i', 'm', 'e', ' '];
    let sp = seq!['s', 'u', 'm', 'm', 'a', 'r', 'y', ' '];
    assert(crate::git::author_prefix() =~= ap);
    assert(crate::git::author_time_prefix() =~= tp);
    assert(crate::git::summary_prefix() =~= sp);
    // The three words exclude one another.
    if l.len() >= 7 && l.take(7) == ap {
        assert(l.take(7)[6] == ' ');
        if l.len() >= 12 && l.take(12) == tp {
            assert(l.take(12)[6] == l.take(7)[6]);
        }
        if l.len() >= 8 && l.take(8) == sp {
            assert(l.take(8)[0] == l.take(7)[0]);
        }
    }
    if l.len() >= 12 && l.take(12) == tp {
        if l.len() >= 8 && l.take(8) == sp {
            assert(l.take(8)[0] == l.take(12)[0]);
        }
    }
}

/// Until a hash is known, a line that is one word gives the hash: its
/// first eight characters (all of it when shorter); the other fields stay
/// empty. A line of whitespace alone gives nothing.
pub proof fn lemma_blame_hash_from_first_word(a: Seq<char>, l: Seq<char>)
    requires
        ends_line(a),
        is_line(l),
        l.len() == 0 || l.last() != '\r',
        blame_of(a).hash.len() == 0,
        forall|k: int| 0 <= k < l.len() ==> !crate::text::is_whitespace(#[trigger] l[k]),
    ensures
        ({
            let after = blame_of(a + line_text(l));
            &&& after.hash == if l.len() > 8 {
                l.take(8)
            } else {
                l
            }
            &&& after.author == blame_of(a).author
            &&& after.date == blame_of(a).date
            &&& after.summary == blame_of(a).summary
        }),
{
    lemma_one_line(l);
    lemma_text_lines_concat(a, line_text(l));
    let la = text_lines(a);
    assert(strip_cr(l) == l);
    assert(la.push(l).drop_last() =~= la);
    assert(la + seq![l] =~= la.push(l));
    assert(blame_fields(la.push(l)) == blame_step(blame_fields(la), l));
    if l.len() > 0 {
        assert(crate::text::skip_whitespace(l, 0, l.len() as int) == 0);
        lemma_word_end(l, 0);
        if l.len() > 8 {
            assert(l.subrange(0, 8) =~= l.take(8));
        } else {
            assert(l.subrange(0, l.len() as int) =~= l);
        }
    }
}

proof fn lemma_word_end(l: Seq<char>, i: int)
    requires
        0 <= i <= l.len(),
        forall|k: int| 0 <= k < l.len() ==> !crate::text::is_whitespace(#[trigger] l[k]),
    ensures
        crate::text::token_end(l, i, l.len() as int) == l.len(),
    decreases l.len() - i,
{
    if i < l.len() {
        lemma_word_end(l, i + 1);
    }
}

// ---------------------------------------------------------------------
// Signs of a list of hunks
// ---------------------------------------------------------------------

/// The signs of a list of hunks are built hunk by hunk: adding a deletion
/// hunk at the end adds exactly one `Deleted` sign, on the row of line
/// `start` (line 1 when `start` is 0), when the buffer has that line, and
/// no sign otherwise; the signs before it stay as they were.
pub proof fn lemma_deletion_adds_one_sign(hs: Seq<Hunk>, h: Hunk, line_count: usize)
    requires
        h.kind == ChangeKind::Deleted,
    ensures
        ({
            let line = if h.start == 0 {
                1
            } else {
                h.start as int
            };
            &&& line <= line_count ==> all_placements(hs.push(h), line_count) == all_placements(
                hs,
                line_count,
            ).push(SignPlacement { row: (line - 1) as usize, kind: ChangeKind::Deleted })
            &&& line > line_count ==> all_placements(hs.push(h), line_count) == all_placements(
                hs,
                line_count,
            )
        }),
{
    assert(hs.push(h).drop_last() =~= hs);
    let line = if h.start == 0 {
        1
    } else {
        h.start as int
    };
    if line <= line_count {
        assert(all_placements(hs, line_count) + seq![
            SignPlacement { row: (line - 1) as usize, kind: ChangeKind::Deleted },
        ] =~= all_placements(hs, line_count).push(
            SignPlacement { row: (line - 1) as usize, kind: ChangeKind::Deleted },
        ));
    } else {
        assert(all_placements(hs, line_count) + seq![] =~= all_placements(hs, line_count));
    }
}

/// Adding an added or modified hunk at the end keeps the signs before it
/// and adds signs, all of the hunk's kind and in increasing rows, on
/// exactly the lines it covers that exist in the buffer.
pub proof fn lemma_covering_hunk_adds_its_signs(
    hs: Seq<Hunk>,
    h: Hunk,
    line_count: usize,
    n: int,
)
    requires
        h.kind != ChangeKind::Deleted,
        h.count > 0 ==> h.start + h.count - 1 <= usize::MAX,
    ensures
        ({
            let before = all_placements(hs, line_count);
            let after = all_placements(hs.push(h), line_count);
            let new_signs = after.skip(before.len() as int);
            &&& after.len() >= before.len()
            &&& after.take(before.len() as int) == before
            &&& has_sign_on(new_signs, n) <==> (marks(h, n) && 1 <= n <= line_count)
            &&& forall|k1: int, k2: int|
                0 <= k1 < k2 < new_signs.len() ==> (#[trigger] new_signs[k1]).row
                    < (#[trigger] new_signs[k2]).row
            &&& forall|k: int| 0 <= k < new_signs.len() ==> (#[trigger] new_signs[k]).kind == h.kind
        }),
{
    assert(hs.push(h).drop_last() =~= hs);
    let before = all_placements(hs, line_count);
    let after = all_placements(hs.push(h), line_count);
    assert(after.skip(before.len() as int) =~= hunk_placements(h, line_count));
    assert(after.take(before.len() as int) =~= before);
    lemma_signs_on_covered_lines(h, line_count, n);
}

} // verus!
