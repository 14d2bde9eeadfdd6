use ayumi::diff::{parse_range, parse_unified_diff, ChangeKind};

#[test]
fn empty_diff_produces_no_hunks() {
    let hunks = parse_unified_diff("");
    assert!(hunks.is_empty());
}

#[test]
fn pure_addition_u0() {
    let diff = "\
diff --git a/foo.rs b/foo.rs
index abc..def 100644
--- a/foo.rs
+++ b/foo.rs
@@ -2,0 +3,2 @@
+new line 1
+new line 2
";
    let hunks = parse_unified_diff(diff);
    assert_eq!(hunks.len(), 1);
    assert_eq!(hunks[0].kind, ChangeKind::Added);
    assert_eq!(hunks[0].start, 3);
    assert_eq!(hunks[0].count, 2);
}

#[test]
fn pure_deletion_u0() {
    let diff = "\
diff --git a/foo.rs b/foo.rs
--- a/foo.rs
+++ b/foo.rs
@@ -5,3 +4,0 @@
-removed 1
-removed 2
-removed 3
";
    let hunks = parse_unified_diff(diff);
    assert_eq!(hunks.len(), 1);
    assert_eq!(hunks[0].kind, ChangeKind::Deleted);
    assert_eq!(hunks[0].start, 4);
    assert_eq!(hunks[0].count, 0);
}

#[test]
fn modification_same_count() {
    let diff = "\
diff --git a/foo.rs b/foo.rs
--- a/foo.rs
+++ b/foo.rs
@@ -3,2 +3,2 @@
-old line 1
-old line 2
+new line 1
+new line 2
";
    let hunks = parse_unified_diff(diff);
    assert_eq!(hunks.len(), 1);
    assert_eq!(hunks[0].kind, ChangeKind::Modified);
    assert_eq!(hunks[0].start, 3);
    assert_eq!(hunks[0].count, 2);
}

#[test]
fn modification_with_extra_adds() {
    // Replace 1 line with 3 lines: 1 modified + 2 added.
    let diff = "\
diff --git a/foo.rs b/foo.rs
--- a/foo.rs
+++ b/foo.rs
@@ -5,1 +5,3 @@
-old
+new 1
+new 2
+new 3
";
    let hunks = parse_unified_diff(diff);
    assert_eq!(hunks.len(), 2);
    assert_eq!(hunks[0].kind, ChangeKind::Modified);
    assert_eq!(hunks[0].start, 5);
    assert_eq!(hunks[0].count, 1);
    assert_eq!(hunks[1].kind, ChangeKind::Added);
    assert_eq!(hunks[1].start, 6);
    assert_eq!(hunks[1].count, 2);
}

#[test]
fn modification_with_extra_deletes() {
    // Replace 3 lines with 1 line: 1 modified + deletion marker.
    let diff = "\
diff --git a/foo.rs b/foo.rs
--- a/foo.rs
+++ b/foo.rs
@@ -2,3 +2,1 @@
-old 1
-old 2
-old 3
+replacement
";
    let hunks = parse_unified_diff(diff);
    assert_eq!(hunks.len(), 2);
    assert_eq!(hunks[0].kind, ChangeKind::Modified);
    assert_eq!(hunks[0].start, 2);
    assert_eq!(hunks[0].count, 1);
    assert_eq!(hunks[1].kind, ChangeKind::Deleted);
    assert_eq!(hunks[1].start, 3);
    assert_eq!(hunks[1].count, 0);
}

#[test]
fn multiple_hunks() {
    let diff = "\
diff --git a/foo.rs b/foo.rs
--- a/foo.rs
+++ b/foo.rs
@@ -1,0 +1,1 @@
+header
@@ -10,1 +11,1 @@
-old
+new
@@ -20,2 +21,0 @@
-gone 1
-gone 2
";
    let hunks = parse_unified_diff(diff);
    assert_eq!(hunks.len(), 3);

    assert_eq!(hunks[0].kind, ChangeKind::Added);
    assert_eq!(hunks[0].start, 1);
    assert_eq!(hunks[0].count, 1);

    assert_eq!(hunks[1].kind, ChangeKind::Modified);
    assert_eq!(hunks[1].start, 11);
    assert_eq!(hunks[1].count, 1);

    assert_eq!(hunks[2].kind, ChangeKind::Deleted);
    assert_eq!(hunks[2].start, 21);
    assert_eq!(hunks[2].count, 0);
}

#[test]
fn hunk_header_without_count() {
    // `@@ -5 +5 @@` means count=1 for both sides.
    let diff = "\
diff --git a/foo.rs b/foo.rs
--- a/foo.rs
+++ b/foo.rs
@@ -5 +5 @@
-old
+new
";
    let hunks = parse_unified_diff(diff);
    assert_eq!(hunks.len(), 1);
    assert_eq!(hunks[0].kind, ChangeKind::Modified);
    assert_eq!(hunks[0].start, 5);
    assert_eq!(hunks[0].count, 1);
}

#[test]
fn context_lines_between_changes() {
    let diff = "\
diff --git a/foo.rs b/foo.rs
--- a/foo.rs
+++ b/foo.rs
@@ -1,5 +1,6 @@
 context 1
+added
 context 2
-removed
+replaced
 context 3
";
    let hunks = parse_unified_diff(diff);
    // Should produce: Added at line 2, Modified at line 4.
    assert_eq!(hunks.len(), 2);
    assert_eq!(hunks[0].kind, ChangeKind::Added);
    assert_eq!(hunks[0].start, 2);
    assert_eq!(hunks[0].count, 1);
    assert_eq!(hunks[1].kind, ChangeKind::Modified);
    assert_eq!(hunks[1].start, 4);
    assert_eq!(hunks[1].count, 1);
}

#[test]
fn no_newline_at_end_of_file_marker() {
    let diff = "\
diff --git a/foo.rs b/foo.rs
--- a/foo.rs
+++ b/foo.rs
@@ -1,1 +1,1 @@
-old
+new
\\ No newline at end of file
";
    let hunks = parse_unified_diff(diff);
    assert_eq!(hunks.len(), 1);
    assert_eq!(hunks[0].kind, ChangeKind::Modified);
}

#[test]
fn header_only_no_content_lines_addition() {
    // Simulate `-U0` output where hunk has no content lines to parse.
    let diff = "@@ -0,0 +1,5 @@\n";
    let hunks = parse_unified_diff(diff);
    assert_eq!(hunks.len(), 1);
    assert_eq!(hunks[0].kind, ChangeKind::Added);
    assert_eq!(hunks[0].start, 1);
    assert_eq!(hunks[0].count, 5);
}

#[test]
fn header_only_no_content_lines_deletion() {
    let diff = "@@ -3,4 +2,0 @@\n";
    let hunks = parse_unified_diff(diff);
    assert_eq!(hunks.len(), 1);
    assert_eq!(hunks[0].kind, ChangeKind::Deleted);
    assert_eq!(hunks[0].start, 2);
    assert_eq!(hunks[0].count, 0);
}

#[test]
fn header_only_mixed_replace() {
    let diff = "@@ -10,3 +10,5 @@\n";
    let hunks = parse_unified_diff(diff);
    // 3 old → 5 new: 3 modified + 2 added.
    assert_eq!(hunks.len(), 2);
    assert_eq!(hunks[0].kind, ChangeKind::Modified);
    assert_eq!(hunks[0].start, 10);
    assert_eq!(hunks[0].count, 3);
    assert_eq!(hunks[1].kind, ChangeKind::Added);
    assert_eq!(hunks[1].start, 13);
    assert_eq!(hunks[1].count, 2);
}

#[test]
fn new_file_diff() {
    let diff = "\
diff --git a/new.rs b/new.rs
new file mode 100644
index 0000000..abc1234
--- /dev/null
+++ b/new.rs
@@ -0,0 +1,3 @@
+line 1
+line 2
+line 3
";
    let hunks = parse_unified_diff(diff);
    assert_eq!(hunks.len(), 1);
    assert_eq!(hunks[0].kind, ChangeKind::Added);
    assert_eq!(hunks[0].start, 1);
    assert_eq!(hunks[0].count, 3);
}

#[test]
fn deleted_file_diff() {
    let diff = "\
diff --git a/old.rs b/old.rs
deleted file mode 100644
index abc1234..0000000
--- a/old.rs
+++ /dev/null
@@ -1,4 +0,0 @@
-line 1
-line 2
-line 3
-line 4
";
    let hunks = parse_unified_diff(diff);
    assert_eq!(hunks.len(), 1);
    assert_eq!(hunks[0].kind, ChangeKind::Deleted);
    assert_eq!(hunks[0].start, 0);
    assert_eq!(hunks[0].count, 0);
}

#[test]
fn consecutive_add_and_delete_hunks() {
    let diff = "\
@@ -5,2 +5,0 @@
-del 1
-del 2
@@ -10,0 +8,3 @@
+add 1
+add 2
+add 3
";
    let hunks = parse_unified_diff(diff);
    assert_eq!(hunks.len(), 2);
    assert_eq!(hunks[0].kind, ChangeKind::Deleted);
    assert_eq!(hunks[0].start, 5);
    assert_eq!(hunks[1].kind, ChangeKind::Added);
    assert_eq!(hunks[1].start, 8);
    assert_eq!(hunks[1].count, 3);
}

#[test]
fn parse_range_helper() {
    assert_eq!(parse_range("10,3"), Some((10, 3)));
    assert_eq!(parse_range("7"), Some((7, 1)));
    assert_eq!(parse_range("0,0"), Some((0, 0)));
    assert_eq!(parse_range(""), None);
    assert_eq!(parse_range("abc"), None);
}
