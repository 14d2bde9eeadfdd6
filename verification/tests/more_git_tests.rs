use ayumi::diff::{ChangeKind, Hunk};
use ayumi::git::{blame_output_line, diff_output_hunks, parse_blame_porcelain, GitError};

#[test]
fn blame_hash_is_cut_to_eight_characters() {
    let out = "0123456789abcdef0123 3 3 1\nauthor A\nsummary S\n";
    let b = parse_blame_porcelain(out).unwrap();
    assert_eq!(b.hash, "01234567");
    assert_eq!(b.author, "A");
    assert_eq!(b.date, "");
    assert_eq!(b.summary, "S");
}

#[test]
fn blame_skips_blank_lines_before_the_hash() {
    let out = "\n   \nbeef 1 1\nauthor-time 42\n";
    let b = parse_blame_porcelain(out).unwrap();
    assert_eq!(b.hash, "beef");
    assert_eq!(b.date, "42");
}

#[test]
fn blame_last_field_line_wins_and_first_line_is_not_a_field() {
    let out = "author X 1 1\nauthor First\nauthor Second\nsummary One\nsummary Two\n";
    let b = parse_blame_porcelain(out).unwrap();
    assert_eq!(b.hash, "author");
    assert_eq!(b.author, "Second");
    assert_eq!(b.summary, "Two");
}

#[test]
fn blame_of_whitespace_only_output_is_a_parse_error() {
    match parse_blame_porcelain(" \n\t\n") {
        Err(GitError::Parse(m)) => assert_eq!(m, "empty blame output"),
        other => panic!("unexpected {:?}", other),
    }
}

#[test]
fn diff_exit_codes_zero_and_one_are_success() {
    let out = "@@ -1,0 +2,1 @@\n+x\n";
    for code in [Some(0), Some(1), None] {
        let hunks = diff_output_hunks(code, out, "ignored").unwrap();
        assert_eq!(hunks, vec![Hunk { kind: ChangeKind::Added, start: 2, count: 1 }]);
    }
}

#[test]
fn diff_exit_code_above_one_is_a_command_error() {
    for code in [Some(2), Some(128), Some(129)] {
        match diff_output_hunks(code, "@@ -1 +1 @@\n", "fatal: bad revision") {
            Err(GitError::Command(m)) => assert_eq!(m, "fatal: bad revision"),
            other => panic!("unexpected {:?}", other),
        }
    }
}

#[test]
fn failed_blame_is_a_command_error() {
    match blame_output_line(false, "abc 1 1\n", "fatal: no such path") {
        Err(GitError::Command(m)) => assert_eq!(m, "fatal: no such path"),
        other => panic!("unexpected {:?}", other),
    }
    let b = blame_output_line(true, "abc 1 1\nauthor Z\n", "").unwrap();
    assert_eq!(b.hash, "abc");
    assert_eq!(b.author, "Z");
}
