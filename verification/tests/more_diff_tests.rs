use ayumi::diff::{line_numbers_fit, parse_range, parse_unified_diff, ChangeKind, Hunk};

fn hunk(kind: ChangeKind, start: usize, count: usize) -> Hunk {
    Hunk { kind, start, count }
}

#[test]
fn only_the_first_file_section_is_read() {
    let diff = "\
diff --git a/a.rs b/a.rs
--- a/a.rs
+++ b/a.rs
@@ -1,0 +2,1 @@
+one
diff --git a/b.rs b/b.rs
--- a/b.rs
+++ b/b.rs
@@ -7,1 +7,0 @@
-gone
";
    let hunks = parse_unified_diff(diff);
    assert_eq!(hunks, vec![hunk(ChangeKind::Added, 2, 1)]);
}

#[test]
fn a_second_file_after_a_file_without_hunks_is_not_read() {
    let diff = "\
diff --git a/bin b/bin
Binary files a/bin and b/bin differ
diff --git a/c.rs b/c.rs
@@ -1 +1 @@
-x
+y
";
    assert!(parse_unified_diff(diff).is_empty());
}

#[test]
fn hunks_before_a_file_header_belong_to_the_first_file() {
    let diff = "@@ -3,0 +4,2 @@\ndiff --git a/d b/d\n@@ -1,1 +1,0 @@\n";
    assert_eq!(parse_unified_diff(diff), vec![hunk(ChangeKind::Added, 4, 2)]);
}

#[test]
fn crlf_line_endings() {
    let diff = "@@ -1,2 +1,3 @@\r\n-a\r\n+b\r\n+c\r\n \r\n";
    assert_eq!(
        parse_unified_diff(diff),
        vec![hunk(ChangeKind::Modified, 1, 1), hunk(ChangeKind::Added, 2, 1)]
    );
}

#[test]
fn header_with_section_heading() {
    let diff = "@@ -10,2 +10,2 @@ fn main() {\n-a\n-b\n+c\n+d\n";
    assert_eq!(parse_unified_diff(diff), vec![hunk(ChangeKind::Modified, 10, 2)]);
}

#[test]
fn header_words_may_be_split_by_unicode_whitespace() {
    let diff = "@@ -1,0\u{3000}+5,2 @@\n";
    assert_eq!(parse_unified_diff(diff), vec![hunk(ChangeKind::Added, 5, 2)]);
}

#[test]
fn malformed_headers_are_not_hunks() {
    assert!(parse_unified_diff("@@ -1 +1\n+x\n").is_empty());
    assert!(parse_unified_diff("@@ +1 -1 @@\n").is_empty());
    assert!(parse_unified_diff("@@ -a +1 @@\n").is_empty());
    assert!(parse_unified_diff("@@-1 +1 @@\n").is_empty());
    assert!(parse_unified_diff("@@ -1 @@\n").is_empty());
}

#[test]
fn content_lines_before_any_header_are_ignored() {
    let diff = "+stray\n-stray\n@@ -4,0 +5,1 @@\n+x\n";
    assert_eq!(parse_unified_diff(diff), vec![hunk(ChangeKind::Added, 5, 1)]);
}

#[test]
fn removed_run_without_adds_marks_deletion_at_current_line() {
    let diff = "@@ -1,4 +1,2 @@\n a\n-b\n-c\n d\n";
    assert_eq!(parse_unified_diff(diff), vec![hunk(ChangeKind::Deleted, 2, 0)]);
}

#[test]
fn header_only_equal_counts_is_one_modification() {
    assert_eq!(
        parse_unified_diff("@@ -4,2 +4,2 @@\n"),
        vec![hunk(ChangeKind::Modified, 4, 2)]
    );
}

#[test]
fn header_only_more_old_lines_adds_deletion_marker() {
    assert_eq!(
        parse_unified_diff("@@ -4,5 +4,2 @@\n"),
        vec![hunk(ChangeKind::Modified, 4, 2), hunk(ChangeKind::Deleted, 6, 0)]
    );
}

#[test]
fn header_only_zero_counts_is_empty_modification() {
    assert_eq!(
        parse_unified_diff("@@ -0,0 +0,0 @@\n"),
        vec![hunk(ChangeKind::Modified, 0, 0)]
    );
}

#[test]
fn ranges_are_read_like_usize_from_str() {
    assert_eq!(parse_range("+7"), Some((7, 1)));
    assert_eq!(parse_range("3,+4"), Some((3, 4)));
    assert_eq!(parse_range("007,010"), Some((7, 10)));
    assert_eq!(parse_range("+"), None);
    assert_eq!(parse_range("-3"), None);
    assert_eq!(parse_range("7,"), None);
    assert_eq!(parse_range(",7"), None);
    assert_eq!(parse_range("1,2,3"), None);
    assert_eq!(parse_range(" 1"), None);
    let max = usize::MAX.to_string();
    assert_eq!(parse_range(&max), Some((usize::MAX, 1)));
    let too_big = format!("{}0", usize::MAX);
    assert_eq!(parse_range(&too_big), None);
}

#[test]
fn line_numbers_that_overflow_are_detected() {
    let ok = "@@ -1 +1 @@\n-a\n+b\n";
    assert!(line_numbers_fit(ok));
    let at_max = format!("@@ -1,0 +{},1 @@\n+a\n", usize::MAX - 1);
    assert!(line_numbers_fit(&at_max));
    let past_max = format!("@@ -1,0 +{},1 @@\n+a\n+b\n", usize::MAX);
    assert!(!line_numbers_fit(&past_max));
    let mixed = format!("@@ -1,1 +{},2 @@\n", usize::MAX);
    assert!(!line_numbers_fit(&mixed));
    let equal = format!("@@ -1,2 +{},2 @@\n", usize::MAX);
    assert!(line_numbers_fit(&equal));
}

#[test]
fn every_deletion_hunk_has_zero_count() {
    let diff = "@@ -1,3 +1,1 @@\n-a\n-b\n-c\n+d\n@@ -9,2 +7,0 @@\n@@ -20,4 +18,1 @@\n";
    let hunks = parse_unified_diff(diff);
    assert!(hunks.iter().any(|h| h.kind == ChangeKind::Deleted));
    for h in &hunks {
        if h.kind == ChangeKind::Deleted {
            assert_eq!(h.count, 0);
        }
    }
}

#[test]
fn added_lines_are_each_marked_once() {
    // New-file lines 2, 4, 5 and 6 are added ('+'); nothing else is.
    let diff = "@@ -1,5 +1,6 @@\n a\n+b\n c\n-d\n-e\n+f\n+g\n+h\n-i\n";
    let hunks = parse_unified_diff(diff);
    let mut marked = Vec::new();
    for h in &hunks {
        if h.kind != ChangeKind::Deleted {
            for n in h.start..h.start + h.count {
                marked.push(n);
            }
        }
    }
    assert_eq!(marked, vec![2, 4, 5, 6]);
}

#[test]
fn header_only_hunk_marks_its_new_lines() {
    let hunks = parse_unified_diff("@@ -10,3 +10,5 @@\n@@ -30,4 +32,2 @@\n");
    let mut marked = Vec::new();
    for h in &hunks {
        if h.kind != ChangeKind::Deleted {
            for n in h.start..h.start + h.count {
                marked.push(n);
            }
        }
    }
    assert_eq!(marked, vec![10, 11, 12, 13, 14, 32, 33]);
}
