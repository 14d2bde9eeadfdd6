use ayumi::git::parse_blame_porcelain;

#[test]
fn parse_blame_porcelain_basic() {
    let output = "\
abcdef12 10 10 1
author Jane Doe
author-mail <jane@example.com>
author-time 1700000000
author-tz +0000
committer Jane Doe
committer-mail <jane@example.com>
committer-time 1700000000
committer-tz +0000
summary Fix the widget
filename src/lib.rs
\tlet x = 42;
";
    let blame = parse_blame_porcelain(output).unwrap();
    assert_eq!(blame.hash, "abcdef12");
    assert_eq!(blame.author, "Jane Doe");
    assert_eq!(blame.date, "1700000000");
    assert_eq!(blame.summary, "Fix the widget");
}

#[test]
fn parse_blame_empty_output() {
    let result = parse_blame_porcelain("");
    assert!(result.is_err());
}
