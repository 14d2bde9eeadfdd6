//! Parser for unified diff output (such as `git diff -U0`), producing the
//! hunks that a sign column shows: lines added, modified and deleted in
//! the working copy.

use vstd::prelude::*;

use crate::text::{
    chars_of, copy_range, decimal_usize, find_char, find_non_whitespace, find_whitespace,
    has_prefix, index_of, line_end, lines_from, parse_usize, skip_whitespace, starts_with, strip_cr,
    text_lines, token_end,
};

verus! {

/// The kind of change a diff line represents.
#[derive(Debug, Clone, Copy, PartialEq, Eq, Structural)]
pub enum ChangeKind {
    /// A line was added (exists in working copy but not in HEAD).
    Added,
    /// A line was modified (different content at the same logical position).
    Modified,
    /// A line was deleted (exists in HEAD but not in working copy).
    Deleted,
}

/// A contiguous range of changed lines in the new (working) file.
#[derive(Debug, Clone, PartialEq, Eq, Structural)]
pub struct Hunk {
    /// The kind of change.
    pub kind: ChangeKind,
    /// First line of the change in the new file (1-indexed).
    pub start: usize,
    /// Number of lines affected in the new file. For deletions this is 0;
    /// `start` points to the line *after* which the deletion occurred.
    pub count: usize,
}

/// The kind of a content line inside a hunk.
#[derive(Debug, Clone, Copy, PartialEq, Eq, Structural)]
pub enum DiffLine {
    /// A line in both files (`' '`).
    Context,
    /// A line only in the new file (`'+'`).
    Added,
    /// A line only in the old file (`'-'`).
    Removed,
}

/// A hunk header with the kinds of the content lines that follow it.
pub struct RawHunk {
    /// First line of the hunk in the old file.
    pub old_start: usize,
    /// Number of old-file lines the hunk spans.
    pub old_count: usize,
    /// First line of the hunk in the new file.
    pub new_start: usize,
    /// Number of new-file lines the hunk spans.
    pub new_count: usize,
    /// The kinds of the content lines after the header, in order.
    pub lines: Vec<DiffLine>,
}

/// The mathematical value of a [`RawHunk`].
#[verifier::ext_equal]
pub struct RawHunkModel {
    pub old_start: usize,
    pub old_count: usize,
    pub new_start: usize,
    pub new_count: usize,
    pub lines: Seq<DiffLine>,
}

impl View for RawHunk {
    type V = RawHunkModel;

    open spec fn view(&self) -> RawHunkModel {
        RawHunkModel {
            old_start: self.old_start,
            old_count: self.old_count,
            new_start: self.new_start,
            new_count: self.new_count,
            lines: self.lines@,
        }
    }
}

pub open spec fn option_view(o: Option<RawHunk>) -> Option<RawHunkModel> {
    match o {
        Some(r) => Some(r@),
        None => None,
    }
}

pub open spec fn raw_views(v: Seq<RawHunk>) -> Seq<RawHunkModel> {
    v.map_values(|r: RawHunk| r@)
}

// ---------------------------------------------------------------------
// The grammar of a diff, as functions on characters
// ---------------------------------------------------------------------

/// The first position `k >= i` where `" @@"` starts in `l`.
pub open spec fn marker_from(l: Seq<char>, i: int) -> Option<int>
    decreases l.len() - i,
{
    if i < 0 || i + 3 > l.len() {
        None
    } else if l[i] == ' ' && l[i + 1] == '@' && l[i + 2] == '@' {
        Some(i)
    } else {
        marker_from(l, i + 1)
    }
}

/// A range `start,count` or `start` (count 1), each number read as
/// `usize::from_str` reads it, split at the first comma.
pub open spec fn range_of(t: Seq<char>) -> Option<(usize, usize)> {
    let k = index_of(t, ',', 0);
    if k < t.len() {
        match (decimal_usize(t.take(k)), decimal_usize(t.skip(k + 1))) {
            (Some(a), Some(b)) => Some((a, b)),
            _ => None,
        }
    } else {
        match decimal_usize(t) {
            Some(a) => Some((a, 1)),
            None => None,
        }
    }
}

pub open spec fn header_prefix() -> Seq<char> {
    seq!['@', '@', ' ']
}

/// A header line `@@ -old_start[,old_count] +new_start[,new_count] @@...`:
/// after `"@@ "`, the text before the first `" @@"` holds at least two
/// whitespace-separated words, the first `-` and a range, the second `+`
/// and a range; further words are ignored.
pub open spec fn hunk_header(l: Seq<char>) -> Option<RawHunkModel> {
    if has_prefix(l, header_prefix()) {
        match marker_from(l, 3) {
            None => None,
            Some(e) => {
                let a = skip_whitespace(l, 3, e);
                let b = token_end(l, a, e);
                let c = skip_whitespace(l, b, e);
                let d = token_end(l, c, e);
                if a < b && c < d && l[a] == '-' && l[c] == '+' {
                    match (range_of(l.subrange(a + 1, b)), range_of(l.subrange(c + 1, d))) {
                        (Some(o), Some(n)) => Some(
                            RawHunkModel {
                                old_start: o.0,
                                old_count: o.1,
                                new_start: n.0,
                                new_count: n.1,
                                lines: seq![],
                            },
                        ),
                        _ => None,
                    }
                } else {
                    None
                }
            },
        }
    } else {
        None
    }
}

/// The kind of a content line, by its first character.
pub open spec fn line_kind(l: Seq<char>) -> Option<DiffLine> {
    if l.len() == 0 {
        None
    } else if l[0] == '+' {
        Some(DiffLine::Added)
    } else if l[0] == '-' {
        Some(DiffLine::Removed)
    } else if l[0] == ' ' {
        Some(DiffLine::Context)
    } else {
        None
    }
}

/// The beginning of a file's section in a multi-file diff.
pub open spec fn file_prefix() -> Seq<char> {
    seq!['d', 'i', 'f', 'f', ' ']
}

/// Where the scan of a diff's lines stands.
#[verifier::ext_equal]
pub struct ScanState {
    /// Hunks that are complete.
    pub done: Seq<RawHunkModel>,
    /// The hunk whose content lines are being read.
    pub current: Option<RawHunkModel>,
    /// Whether the first file's section has begun.
    pub in_file: bool,
    /// Whether the section of a second file was reached.
    pub stopped: bool,
}

pub open spec fn scan_start() -> ScanState {
    ScanState { done: seq![], current: None, in_file: false, stopped: false }
}

pub open spec fn close_current(done: Seq<RawHunkModel>, current: Option<RawHunkModel>) -> Seq<
    RawHunkModel,
> {
    match current {
        Some(c) => done.push(c),
        None => done,
    }
}

/// One line of the diff: a `diff ` line starts a file's section (a
/// second one ends the scan), a header starts a hunk, and `+`, `-` or
/// ` ` lines add to the current hunk; anything else is skipped.
pub open spec fn scan_line(st: ScanState, l: Seq<char>) -> ScanState {
    if st.stopped {
        st
    } else if has_prefix(l, file_prefix()) {
        if st.in_file {
            ScanState { done: st.done, current: st.current, in_file: true, stopped: true }
        } else {
            ScanState { done: st.done, current: st.current, in_file: true, stopped: false }
        }
    } else {
        match hunk_header(l) {
            Some(h) => ScanState {
                done: close_current(st.done, st.current),
                current: Some(h),
                in_file: true,
                stopped: false,
            },
            None => match (st.current, line_kind(l)) {
                (Some(c), Some(k)) => ScanState {
                    done: st.done,
                    current: Some(
                        RawHunkModel {
                            old_start: c.old_start,
                            old_count: c.old_count,
                            new_start: c.new_start,
                            new_count: c.new_count,
                            lines: c.lines.push(k),
                        },
                    ),
                    in_file: st.in_file,
                    stopped: false,
                },
                _ => st,
            },
        }
    }
}

pub open spec fn scan_lines(ls: Seq<Seq<char>>) -> ScanState
    decreases ls.len(),
{
    if ls.len() == 0 {
        scan_start()
    } else {
        scan_line(scan_lines(ls.drop_last()), ls.last())
    }
}

/// The hunks, headers and content line kinds, of the first file's
/// section of the diff `s`.
pub open spec fn raw_hunks_of(s: Seq<char>) -> Seq<RawHunkModel> {
    let st = scan_lines(text_lines(s));
    close_current(st.done, st.current)
}

// ---------------------------------------------------------------------
// Classification
// ---------------------------------------------------------------------

pub open spec fn min(a: int, b: int) -> int {
    if a <= b {
        a
    } else {
        b
    }
}

pub open spec fn mk_hunk(kind: ChangeKind, start: int, count: int) -> Hunk {
    Hunk { kind, start: start as usize, count: count as usize }
}

/// The number of lines of kind `k` in a row from `i`.
pub open spec fn run_length(ls: Seq<DiffLine>, i: int, k: DiffLine) -> nat
    decreases ls.len() - i,
{
    if 0 <= i < ls.len() && ls[i] == k {
        1 + run_length(ls, i + 1, k)
    } else {
        0
    }
}

/// A run never reaches past the end, and it is not empty when line `i`
/// has the kind.
pub proof fn lemma_run_length_bounds(ls: Seq<DiffLine>, i: int, k: DiffLine)
    requires
        0 <= i <= ls.len(),
    ensures
        i + run_length(ls, i, k) <= ls.len(),
        i < ls.len() && ls[i] == k ==> run_length(ls, i, k) >= 1,
    decreases ls.len() - i,
{
    if i < ls.len() && ls[i] == k {
        lemma_run_length_bounds(ls, i + 1, k);
    }
}

/// The number of lines before `i` that are in the new file (context or
/// added).
pub open spec fn new_lines_before(ls: Seq<DiffLine>, i: int) -> nat
    decreases i,
{
    if i <= 0 {
        0
    } else {
        new_lines_before(ls, i - 1) + if ls[i - 1] != DiffLine::Removed {
            1nat
        } else {
            0nat
        }
    }
}

/// The sign hunks of the content lines from `i`, where line `i` (if not
/// removed) is line `line` of the new file. A run of added lines is an
/// added hunk; a run of removed lines followed by a run of added lines
/// is a modification of as many lines as both runs share, then the
/// added rest, or a deletion marker for the removed rest; a run of
/// removed lines with no added lines after it is a deletion marker.
pub open spec fn content_hunks(ls: Seq<DiffLine>, i: int, line: int) -> Seq<Hunk>
    decreases ls.len() - i,
{
    if i < 0 || i >= ls.len() {
        seq![]
    } else {
        match ls[i] {
            DiffLine::Context => content_hunks(ls, i + 1, line + 1),
            DiffLine::Added => {
                let n = run_length(ls, i, DiffLine::Added);
                proof {
                    lemma_run_length_bounds(ls, i, DiffLine::Added);
                }
                seq![mk_hunk(ChangeKind::Added, line, n as int)] + content_hunks(
                    ls,
                    i + n,
                    line + n,
                )
            },
            DiffLine::Removed => {
                let r = run_length(ls, i, DiffLine::Removed);
                let a = run_length(ls, i + r, DiffLine::Added);
                proof {
                    lemma_run_length_bounds(ls, i, DiffLine::Removed);
                    lemma_run_length_bounds(ls, i + r, DiffLine::Added);
                }
                if a > 0 {
                    let m = min(r as int, a as int);
                    seq![mk_hunk(ChangeKind::Modified, line, m)] + (if a > r {
                        seq![mk_hunk(ChangeKind::Added, line + m, a - r)]
                    } else if r > a {
                        seq![mk_hunk(ChangeKind::Deleted, line + m, 0)]
                    } else {
                        seq![]
                    }) + content_hunks(ls, i + r + a, line + a)
                } else {
                    seq![mk_hunk(ChangeKind::Deleted, line, 0)] + content_hunks(ls, i + r, line)
                }
            },
        }
    }
}

pub proof fn lemma_new_lines_monotone(ls: Seq<DiffLine>, i: int, j: int)
    requires
        0 <= i <= j,
    ensures
        new_lines_before(ls, i) <= new_lines_before(ls, j),
    decreases j - i,
{
    if i < j {
        lemma_new_lines_monotone(ls, i, j - 1);
    }
}

/// The sign hunks of a header that has no content lines, from its
/// counts alone.
pub open spec fn count_hunks(r: RawHunkModel) -> Seq<Hunk> {
    if r.old_count == 0 && r.new_count > 0 {
        seq![Hunk { kind: ChangeKind::Added, start: r.new_start, count: r.new_count }]
    } else if r.old_count > 0 && r.new_count == 0 {
        seq![Hunk { kind: ChangeKind::Deleted, start: r.new_start, count: 0 }]
    } else {
        let m = min(r.old_count as int, r.new_count as int);
        seq![mk_hunk(ChangeKind::Modified, r.new_start as int, m)] + if r.new_count
            > r.old_count {
            seq![mk_hunk(ChangeKind::Added, r.new_start + m, r.new_count - m)]
        } else if r.old_count > r.new_count {
            seq![mk_hunk(ChangeKind::Deleted, r.new_start + m, 0)]
        } else {
            seq![]
        }
    }
}

pub open spec fn classify(r: RawHunkModel) -> Seq<Hunk> {
    if r.lines.len() > 0 {
        content_hunks(r.lines, 0, r.new_start as int)
    } else {
        count_hunks(r)
    }
}

pub open spec fn classify_all(rs: Seq<RawHunkModel>) -> Seq<Hunk>
    decreases rs.len(),
{
    if rs.len() == 0 {
        seq![]
    } else {
        classify_all(rs.drop_last()) + classify(rs.last())
    }
}

/// The sign hunks of the diff `s`.
pub open spec fn diff_hunks(s: Seq<char>) -> Seq<Hunk> {
    classify_all(raw_hunks_of(s))
}

/// Whether the line numbers that classifying `r` computes fit in
/// `usize`.
pub open spec fn raw_hunk_fits(r: RawHunkModel) -> bool {
    if r.lines.len() > 0 {
        r.new_start + new_lines_before(r.lines, r.lines.len() as int) <= usize::MAX
    } else if (r.old_count == 0 && r.new_count > 0) || (r.old_count > 0 && r.new_count == 0)
        || r.old_count == r.new_count {
        true
    } else {
        r.new_start + min(r.old_count as int, r.new_count as int) <= usize::MAX
    }
}

/// Whether every hunk of the diff `s` has line numbers that fit in
/// `usize`.
pub open spec fn diff_fits(s: Seq<char>) -> bool {
    forall|i: int|
        0 <= i < raw_hunks_of(s).len() ==> #[trigger] raw_hunk_fits(raw_hunks_of(s)[i])
}

// ---------------------------------------------------------------------
// Executable classification
// ---------------------------------------------------------------------

/// Walk the content lines of `raw` and append the hunks they describe.
fn classify_from_lines(raw: &RawHunk, out: &mut Vec<Hunk>)
    requires
        raw.new_start + new_lines_before(raw.lines@, raw.lines@.len() as int) <= usize::MAX,
    ensures
        final(out)@ == old(out)@ + content_hunks(raw.lines@, 0, raw.new_start as int),
{
    let ghost ls = raw.lines@;
    let ghost total = content_hunks(ls, 0, raw.new_start as int);
    let ghost out0 = out@;
    let lines = &raw.lines;
    let mut new_line: usize = raw.new_start;
    let mut i: usize = 0;
    assert(out0 + total =~= out@ + content_hunks(ls, i as int, new_line as int));
    while i < lines.len()
        invariant
            ls == lines@,
            i <= lines.len(),
            new_line == raw.new_start + new_lines_before(ls, i as int),
            raw.new_start + new_lines_before(ls, ls.len() as int) <= usize::MAX,
            out0 + total == out@ + content_hunks(ls, i as int, new_line as int),
        decreases lines.len() - i,
    {
        let ghost out1 = out@;
        let i0 = i;
        let start = new_line;
        match lines[i] {
            DiffLine::Context => {
                proof {
                    lemma_new_lines_monotone(ls, i + 1, ls.len() as int);
                }
                new_line = new_line + 1;
                i = i + 1;
            },
            DiffLine::Added => {
                let mut count: usize = 0;
                while i < lines.len() && lines[i] == DiffLine::Added
                    invariant
                        ls == lines@,
                        i0 <= i <= lines.len(),
                        count == i - i0,
                        new_line == start + count,
                        new_line == raw.new_start + new_lines_before(ls, i as int),
                        raw.new_start + new_lines_before(ls, ls.len() as int) <= usize::MAX,
                        run_length(ls, i0 as int, DiffLine::Added) == count + run_length(
                            ls,
                            i as int,
                            DiffLine::Added,
                        ),
                    decreases lines.len() - i,
                {
                    proof {
                        lemma_new_lines_monotone(ls, i + 1, ls.len() as int);
                    }
                    count = count + 1;
                    new_line = new_line + 1;
                    i = i + 1;
                }
                assert(run_length(ls, i as int, DiffLine::Added) == 0);
                let h = Hunk { kind: ChangeKind::Added, start, count };
                assert(content_hunks(ls, i0 as int, start as int) == seq![h] + content_hunks(
                    ls,
                    i as int,
                    new_line as int,
                ));
                out.push(h);
                assert(out1 + (seq![h] + content_hunks(ls, i as int, new_line as int)) =~= out@
                    + content_hunks(ls, i as int, new_line as int));
            },
            DiffLine::Removed => {
                let mut removed: usize = 0;
                while i < lines.len() && lines[i] == DiffLine::Removed
                    invariant
                        ls == lines@,
                        i0 <= i <= lines.len(),
                        removed == i - i0,
                        new_line == start,
                        new_line == raw.new_start + new_lines_before(ls, i as int),
                        run_length(ls, i0 as int, DiffLine::Removed) == removed + run_length(
                            ls,
                            i as int,
                            DiffLine::Removed,
                        ),
                    decreases lines.len() - i,
                {
                    removed = removed + 1;
                    i = i + 1;
                }
                assert(run_length(ls, i as int, DiffLine::Removed) == 0);
                let i1 = i;
                let mut added: usize = 0;
                while i < lines.len() && lines[i] == DiffLine::Added
                    invariant
                        ls == lines@,
                        i1 <= i <= lines.len(),
                        added == i - i1,
                        new_line == start + added,
                        new_line == raw.new_start + new_lines_before(ls, i as int),
                        raw.new_start + new_lines_before(ls, ls.len() as int) <= usize::MAX,
                        run_length(ls, i1 as int, DiffLine::Added) == added + run_length(
                            ls,
                            i as int,
                            DiffLine::Added,
                        ),
                    decreases lines.len() - i,
                {
                    proof {
                        lemma_new_lines_monotone(ls, i + 1, ls.len() as int);
                    }
                    added = added + 1;
                    new_line = new_line + 1;
                    i = i + 1;
                }
                assert(run_length(ls, i as int, DiffLine::Added) == 0);
                let ghost rest = content_hunks(ls, i as int, new_line as int);
                if added > 0 {
                    let modified = if removed <= added {
                        removed
                    } else {
                        added
                    };
                    let hm = Hunk { kind: ChangeKind::Modified, start, count: modified };
                    out.push(hm);
                    if added > removed {
                        let ha = Hunk {
                            kind: ChangeKind::Added,
                            start: start + modified,
                            count: added - removed,
                        };
                        out.push(ha);
                        assert(content_hunks(ls, i0 as int, start as int) == seq![hm] + seq![ha]
                            + rest);
                        assert(out1 + (seq![hm] + seq![ha] + rest) =~= out@ + rest);
                    } else if removed > added {
                        let hd = Hunk { kind: ChangeKind::Deleted, start: start + modified, count: 0 };
                        out.push(hd);
                        assert(content_hunks(ls, i0 as int, start as int) == seq![hm] + seq![hd]
                            + rest);
                        assert(out1 + (seq![hm] + seq![hd] + rest) =~= out@ + rest);
                    } else {
                        assert(content_hunks(ls, i0 as int, start as int) =~= seq![hm] + rest);
                        assert(out1 + (seq![hm] + rest) =~= out@ + rest);
                    }
                } else {
                    let hd = Hunk { kind: ChangeKind::Deleted, start: new_line, count: 0 };
                    out.push(hd);
                    assert(content_hunks(ls, i0 as int, start as int) == seq![hd] + rest);
                    assert(out1 + (seq![hd] + rest) =~= out@ + rest);
                }
            },
        }
    }
}

/// Append the hunks that `raw` describes: from its content lines where it
/// has any, else from the counts in its header.
fn classify_hunk(raw: &RawHunk, out: &mut Vec<Hunk>)
    requires
        raw_hunk_fits(raw@),
    ensures
        final(out)@ == old(out)@ + classify(raw@),
{
    if raw.lines.len() > 0 {
        classify_from_lines(raw, out);
        return;
    }
    let ghost out0 = out@;
    if raw.old_count == 0 && raw.new_count > 0 {
        out.push(Hunk { kind: ChangeKind::Added, start: raw.new_start, count: raw.new_count });
    } else if raw.old_count > 0 && raw.new_count == 0 {
        out.push(Hunk { kind: ChangeKind::Deleted, start: raw.new_start, count: 0 });
    } else {
        let modified = if raw.old_count <= raw.new_count {
            raw.old_count
        } else {
            raw.new_count
        };
        let hm = Hunk { kind: ChangeKind::Modified, start: raw.new_start, count: modified };
        out.push(hm);
        if raw.new_count > raw.old_count {
            let ha = Hunk {
                kind: ChangeKind::Added,
                start: raw.new_start + modified,
                count: raw.new_count - modified,
            };
            out.push(ha);
            assert(out@ =~= out0 + (seq![hm] + seq![ha]));
        } else if raw.old_count > raw.new_count {
            let hd = Hunk { kind: ChangeKind::Deleted, start: raw.new_start + modified, count: 0 };
            out.push(hd);
            assert(out@ =~= out0 + (seq![hm] + seq![hd]));
        } else {
            assert(out@ =~= out0 + seq![hm]);
        }
    }
    assert(out@ =~= out0 + classify(raw@));
}

// ---------------------------------------------------------------------
// Executable parsing of lines
// ---------------------------------------------------------------------

/// `start,count` or `start` in `t`.
fn range_in(t: &Vec<char>) -> (r: Option<(usize, usize)>)
    ensures
        r == range_of(t@),
{
    let k = find_char(t, ',', 0);
    if k < t.len() {
        let first = copy_range(t, 0, k);
        let second = copy_range(t, k + 1, t.len());
        assert(first@ =~= t@.take(k as int));
        assert(second@ =~= t@.skip(k + 1));
        match (parse_usize(&first), parse_usize(&second)) {
            (Some(a), Some(b)) => Some((a, b)),
            _ => None,
        }
    } else {
        match parse_usize(t) {
            Some(a) => Some((a, 1)),
            None => None,
        }
    }
}

/// Parse `start,count` or just `start` (count defaults to 1).
pub fn parse_range(s: &str) -> (r: Option<(usize, usize)>)
    ensures
        r == range_of(s@),
{
    let t = chars_of(s);
    range_in(&t)
}

/// The first position `k >= i` of `l` where `" @@"` starts.
fn find_marker(l: &Vec<char>, i: usize) -> (r: Option<usize>)
    ensures
        match r {
            Some(k) => marker_from(l@, i as int) == Some(k as int) && i <= k && k + 3 <= l.len(),
            None => marker_from(l@, i as int) is None,
        },
{
    let mut k = i;
    while k < l.len() && l.len() - k >= 3
        invariant
            i <= k,
            marker_from(l@, i as int) == marker_from(l@, k as int),
        decreases l.len() - k,
    {
        if l[k] == ' ' && l[k + 1] == '@' && l[k + 2] == '@' {
            return Some(k);
        }
        k = k + 1;
    }
    None
}

/// Parse a `@@ -old_start[,old_count] +new_start[,new_count] @@` header.
fn parse_hunk_header(l: &Vec<char>) -> (r: Option<RawHunk>)
    ensures
        option_view(r) == hunk_header(l@),
{
    let prefix = vec!['@', '@', ' '];
    assert(prefix@ =~= header_prefix());
    if !starts_with(l, &prefix) {
        return None;
    }
    let e = match find_marker(l, 3) {
        Some(e) => e,
        None => {
            return None;
        },
    };
    let a = find_non_whitespace(l, 3, e);
    let b = find_whitespace(l, a, e);
    let c = find_non_whitespace(l, b, e);
    let d = find_whitespace(l, c, e);
    if !(a < b && c < d && l[a] == '-' && l[c] == '+') {
        return None;
    }
    let old_part = copy_range(l, a + 1, b);
    let new_part = copy_range(l, c + 1, d);
    match (range_in(&old_part), range_in(&new_part)) {
        (Some(o), Some(n)) => Some(
            RawHunk {
                old_start: o.0,
                old_count: o.1,
                new_start: n.0,
                new_count: n.1,
                lines: Vec::new(),
            },
        ),
        _ => None,
    }
}

/// The kind of a content line, by its first character.
fn content_line_kind(l: &Vec<char>) -> (r: Option<DiffLine>)
    ensures
        r == line_kind(l@),
{
    if l.len() == 0 {
        None
    } else if l[0] == '+' {
        Some(DiffLine::Added)
    } else if l[0] == '-' {
        Some(DiffLine::Removed)
    } else if l[0] == ' ' {
        Some(DiffLine::Context)
    } else {
        None
    }
}

/// Once the scan has reached a second file, further lines change nothing.
pub proof fn lemma_scan_stays_stopped(p: Seq<Seq<char>>, q: Seq<Seq<char>>)
    requires
        scan_lines(p).stopped,
    ensures
        scan_lines(p + q) == scan_lines(p),
    decreases q.len(),
{
    if q.len() == 0 {
        assert(p + q =~= p);
    } else {
        lemma_scan_stays_stopped(p, q.drop_last());
        assert((p + q).drop_last() =~= p + q.drop_last());
    }
}

/// Parse hunk headers and their content lines from unified diff output,
/// up to the section of a second file.
fn parse_raw_hunks(diff: &str) -> (raws: Vec<RawHunk>)
    ensures
        raw_views(raws@) == raw_hunks_of(diff@),
{
    let v = chars_of(diff);
    let n = v.len();
    let file_pfx = vec!['d', 'i', 'f', 'f', ' '];
    assert(file_pfx@ =~= file_prefix());
    let mut done: Vec<RawHunk> = Vec::new();
    let mut cur: Option<RawHunk> = None;
    let mut in_file = false;
    let mut stopped = false;
    let mut pos: usize = 0;
    let ghost mut seen: Seq<Seq<char>> = seq![];
    assert(raw_views(done@) =~= seq![]);
    assert(text_lines(v@) =~= seen + lines_from(v@, 0, 0));
    while pos < n && !stopped
        invariant
            n == v.len(),
            pos <= n,
            v@ == diff@,
            file_pfx@ == file_prefix(),
            text_lines(v@) == seen + lines_from(v@, pos as int, pos as int),
            scan_lines(seen) == (ScanState {
                done: raw_views(done@),
                current: option_view(cur),
                in_file,
                stopped,
            }),
        decreases n - pos,
    {
        let r = line_end(&v, pos);
        let hi = if r < n && r > pos && v[r - 1] == '\r' {
            r - 1
        } else {
            r
        };
        let line = copy_range(&v, pos, hi);
        let ghost rest = lines_from(v@, r + 1, r + 1);
        proof {
            if r < n {
                assert(line@ =~= strip_cr(v@.subrange(pos as int, r as int)));
                assert(lines_from(v@, pos as int, r as int) == seq![line@] + rest);
            } else {
                assert(lines_from(v@, pos as int, r as int) == seq![line@]);
                assert(rest =~= seq![]);
            }
            assert(text_lines(v@) =~= seen.push(line@) + rest);
            assert(seen.push(line@).drop_last() =~= seen);
            seen = seen.push(line@);
        }
        let ghost before = done@;
        if starts_with(&line, &file_pfx) {
            if in_file {
                stopped = true;
            } else {
                in_file = true;
            }
        } else {
            match parse_hunk_header(&line) {
                Some(h) => {
                    let prev = cur;
                    match prev {
                        Some(c) => {
                            done.push(c);
                            assert(raw_views(done@) =~= raw_views(before).push(c@));
                        },
                        None => {},
                    }
                    cur = Some(h);
                    in_file = true;
                },
                None => {
                    match content_line_kind(&line) {
                        Some(k) => {
                            let prev = cur;
                            match prev {
                                Some(c) => {
                                    let mut c = c;
                                    c.lines.push(k);
                                    cur = Some(c);
                                },
                                None => {
                                    cur = None;
                                },
                            }
                        },
                        None => {},
                    }
                },
            }
        }
        pos = if r < n {
            r + 1
        } else {
            n
        };
        proof {
            if r >= n {
                assert(lines_from(v@, pos as int, pos as int) =~= seq![]);
            }
        }
    }
    proof {
        if stopped {
            lemma_scan_stays_stopped(seen, lines_from(v@, pos as int, pos as int));
        } else {
            assert(lines_from(v@, pos as int, pos as int) =~= seq![]);
            assert(text_lines(v@) =~= seen);
        }
    }
    let ghost before = done@;
    match cur {
        Some(c) => {
            done.push(c);
            assert(raw_views(done@) =~= raw_views(before).push(c@));
        },
        None => {},
    }
    done
}

/// Parse a unified diff string into a list of [`Hunk`]s.
///
/// The input should be the full output of `git diff -U0` or similar.
/// Only hunks for the first file in the diff are returned: the scan ends
/// at the second line that begins with `diff ` (or at the first such line
/// after a hunk header), so multi-file diffs are read by calling this once
/// per file section.
///
/// The line numbers that the hunks compute must fit in `usize`
/// ([`diff_fits`], tested by [`line_numbers_fit`]).
pub fn parse_unified_diff(diff: &str) -> (hunks: Vec<Hunk>)
    requires
        diff_fits(diff@),
    ensures
        hunks@ == diff_hunks(diff@),
{
    let raws = parse_raw_hunks(diff);
    let ghost rv = raw_views(raws@);
    let mut hunks: Vec<Hunk> = Vec::new();
    let mut i: usize = 0;
    assert(rv.take(0) =~= seq![]);
    while i < raws.len()
        invariant
            i <= raws.len(),
            rv == raw_views(raws@),
            rv == raw_hunks_of(diff@),
            diff_fits(diff@),
            hunks@ == classify_all(rv.take(i as int)),
        decreases raws.len() - i,
    {
        assert(raw_hunk_fits(rv[i as int]));
        classify_hunk(&raws[i], &mut hunks);
        assert(rv.take(i + 1).drop_last() =~= rv.take(i as int));
        i = i + 1;
    }
    assert(rv.take(i as int) =~= rv);
    hunks
}

/// Whether the line numbers of every hunk in `raw` fit in `usize`.
fn raw_hunk_numbers_fit(raw: &RawHunk) -> (b: bool)
    ensures
        b == raw_hunk_fits(raw@),
{
    let ghost ls = raw.lines@;
    if raw.lines.len() > 0 {
        let mut total: usize = 0;
        let mut i: usize = 0;
        while i < raw.lines.len()
            invariant
                ls == raw.lines@,
                i <= raw.lines.len(),
                total == new_lines_before(ls, i as int),
                total <= i,
            decreases raw.lines.len() - i,
        {
            if raw.lines[i] != DiffLine::Removed {
                total = total + 1;
            }
            i = i + 1;
        }
        total <= usize::MAX - raw.new_start
    } else if (raw.old_count == 0 && raw.new_count > 0) || (raw.old_count > 0 && raw.new_count
        == 0) || raw.old_count == raw.new_count {
        true
    } else {
        let m = if raw.old_count <= raw.new_count {
            raw.old_count
        } else {
            raw.new_count
        };
        m <= usize::MAX - raw.new_start
    }
}

/// Whether [`parse_unified_diff`] can compute the line numbers of every
/// hunk of `diff` in `usize`.
pub fn line_numbers_fit(diff: &str) -> (b: bool)
    ensures
        b == diff_fits(diff@),
{
    let raws = parse_raw_hunks(diff);
    let ghost rv = raw_views(raws@);
    let mut i: usize = 0;
    while i < raws.len()
        invariant
            i <= raws.len(),
            rv == raw_views(raws@),
            rv == raw_hunks_of(diff@),
            forall|j: int| 0 <= j < i ==> #[trigger] raw_hunk_fits(rv[j]),
        decreases raws.len() - i,
    {
        if !raw_hunk_numbers_fit(&raws[i]) {
            assert(!raw_hunk_fits(rv[i as int]));
            return false;
        }
        i = i + 1;
    }
    true
}

} // verus!
