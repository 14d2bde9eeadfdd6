//! What the library decides about git's output: reading `git blame
//! --porcelain` output, and turning the exit status and output of
//! `git diff` and `git blame` into a result. Running git is left to the
//! caller.

use vstd::prelude::*;

use crate::diff::{diff_fits, diff_hunks, parse_unified_diff, Hunk};
use crate::text::{
    chars_of, copy_range, find_non_whitespace, find_whitespace, has_prefix, lines_from,
    lemma_token_bounds, line_end, skip_whitespace, starts_with, strip_cr, text_lines, token_end,
};

verus! {

/// A single blame line result.
#[derive(Debug, Clone)]
pub struct BlameLine {
    /// Short commit hash.
    pub hash: String,
    /// Author name.
    pub author: String,
    /// Date string (ISO-like).
    pub date: String,
    /// The commit summary.
    pub summary: String,
}

/// Errors from git subprocess operations.
#[derive(Debug)]
pub enum GitError {
    /// Git could not be started.
    Spawn(String),
    /// Git ran and failed; the text is what it wrote to stderr.
    Command(String),
    /// The file's path has no parent directory to run git in.
    InvalidPath(String),
    /// Git's output could not be read.
    Parse(String),
}

/// The fields of a [`BlameLine`] as characters.
#[verifier::ext_equal]
pub struct BlameFields {
    pub hash: Seq<char>,
    pub author: Seq<char>,
    pub date: Seq<char>,
    pub summary: Seq<char>,
}

pub open spec fn blame_start() -> BlameFields {
    BlameFields { hash: seq![], author: seq![], date: seq![], summary: seq![] }
}

pub open spec fn author_prefix() -> Seq<char> {
    seq!['a', 'u', 't', 'h', 'o', 'r', ' ']
}

pub open spec fn author_time_prefix() -> Seq<char> {
    seq!['a', 'u', 't', 'h', 'o', 'r', '-', 't', 'i', 'm', 'e', ' ']
}

pub open spec fn summary_prefix() -> Seq<char> {
    seq!['s', 'u', 'm', 'm', 'a', 'r', 'y', ' ']
}

/// One line of porcelain blame output. Until a hash is known, a line's
/// first whitespace-separated word gives it (its first eight
/// characters); after that, `author `, `author-time ` and `summary `
/// lines give the author, the date and the summary, the last such line
/// winning.
pub open spec fn blame_step(st: BlameFields, l: Seq<char>) -> BlameFields {
    if st.hash.len() == 0 {
        let a = skip_whitespace(l, 0, l.len() as int);
        let b = token_end(l, a, l.len() as int);
        if a < b {
            BlameFields {
                hash: l.subrange(
                    a,
                    if b - a > 8 {
                        a + 8
                    } else {
                        b
                    },
                ),
                author: st.author,
                date: st.date,
                summary: st.summary,
            }
        } else {
            st
        }
    } else if has_prefix(l, author_prefix()) {
        BlameFields { hash: st.hash, author: l.skip(7), date: st.date, summary: st.summary }
    } else if has_prefix(l, author_time_prefix()) {
        BlameFields { hash: st.hash, author: st.author, date: l.skip(12), summary: st.summary }
    } else if has_prefix(l, summary_prefix()) {
        BlameFields { hash: st.hash, author: st.author, date: st.date, summary: l.skip(8) }
    } else {
        st
    }
}

pub open spec fn blame_fields(ls: Seq<Seq<char>>) -> BlameFields
    decreases ls.len(),
{
    if ls.len() == 0 {
        blame_start()
    } else {
        blame_step(blame_fields(ls.drop_last()), ls.last())
    }
}

/// The fields that porcelain blame output `s` gives.
pub open spec fn blame_of(s: Seq<char>) -> BlameFields {
    blame_fields(text_lines(s))
}

/// A hash, once found, has at most eight characters.
pub proof fn lemma_blame_hash_short(ls: Seq<Seq<char>>)
    ensures
        blame_fields(ls).hash.len() <= 8,
    decreases ls.len(),
{
    if ls.len() > 0 {
        lemma_blame_hash_short(ls.drop_last());
        let l = ls.last();
        lemma_token_bounds(l, 0, l.len() as int);
        let a = skip_whitespace(l, 0, l.len() as int);
        lemma_token_bounds(l, a, l.len() as int);
    }
}

/// Parse porcelain blame output into a [`BlameLine`].
pub fn parse_blame_porcelain(output: &str) -> (r: Result<BlameLine, GitError>)
    ensures
        blame_of(output@).hash.len() == 0 <==> r is Err,
        r matches Err(e) ==> (e matches GitError::Parse(m) && m@ == "empty blame output"@),
        r matches Ok(b) ==> {
            &&& b.hash@ == blame_of(output@).hash
            &&& b.author@ == blame_of(output@).author
            &&& b.date@ == blame_of(output@).date
            &&& b.summary@ == blame_of(output@).summary
            &&& 1 <= b.hash@.len() <= 8
        },
{
    let v = chars_of(output);
    let n = v.len();
    let author_p = vec!['a', 'u', 't', 'h', 'o', 'r', ' '];
    let author_time_p = vec!['a', 'u', 't', 'h', 'o', 'r', '-', 't', 'i', 'm', 'e', ' '];
    let summary_p = vec!['s', 'u', 'm', 'm', 'a', 'r', 'y', ' '];
    assert(author_p@ =~= author_prefix());
    assert(author_time_p@ =~= author_time_prefix());
    assert(summary_p@ =~= summary_prefix());
    let mut hash: (usize, usize) = (0, 0);
    let mut author: (usize, usize) = (0, 0);
    let mut date: (usize, usize) = (0, 0);
    let mut summary: (usize, usize) = (0, 0);
    let mut pos: usize = 0;
    let ghost mut seen: Seq<Seq<char>> = seq![];
    assert(blame_fields(seen) =~= (BlameFields {
        hash: v@.subrange(0, 0),
        author: v@.subrange(0, 0),
        date: v@.subrange(0, 0),
        summary: v@.subrange(0, 0),
    }));
    while pos < n
        invariant
            n == v.len(),
            pos <= n,
            v@ == output@,
            author_p@ == author_prefix(),
            author_time_p@ == author_time_prefix(),
            summary_p@ == summary_prefix(),
            text_lines(v@) == seen + lines_from(v@, pos as int, pos as int),
            hash.0 <= hash.1 <= n,
            author.0 <= author.1 <= n,
            date.0 <= date.1 <= n,
            summary.0 <= summary.1 <= n,
            blame_fields(seen) == (BlameFields {
                hash: v@.subrange(hash.0 as int, hash.1 as int),
                author: v@.subrange(author.0 as int, author.1 as int),
                date: v@.subrange(date.0 as int, date.1 as int),
                summary: v@.subrange(summary.0 as int, summary.1 as int),
            }),
        decreases n - pos,
    {
        let r = line_end(&v, pos);
        let hi = if r < n && r > pos && v[r - 1] == '\r' {
            r - 1
        } else {
            r
        };
        let line = copy_range(&v, pos, hi);
        let ghost rest = lines_from(v@, r + 1, r + 1);
        proof {
            if r < n {
                assert(line@ =~= strip_cr(v@.subrange(pos as int, r as int)));
                assert(lines_from(v@, pos as int, r as int) == seq![line@] + rest);
            } else {
                assert(lines_from(v@, pos as int, r as int) == seq![line@]);
                assert(rest =~= seq![]);
            }
            assert(text_lines(v@) =~= seen.push(line@) + rest);
            assert(seen.push(line@).drop_last() =~= seen);
            seen = seen.push(line@);
        }
        let len = line.len();
        if hash.0 == hash.1 {
            let a = find_non_whitespace(&line, 0, len);
            let b = find_whitespace(&line, a, len);
            if a < b {
                let e = if b - a > 8 {
                    a + 8
                } else {
                    b
                };
                assert(line@.subrange(a as int, e as int) =~= v@.subrange(
                    pos + a,
                    pos + e,
                ));
                hash = (pos + a, pos + e);
            }
        } else if starts_with(&line, &author_p) {
            assert(line@.skip(7) =~= v@.subrange(pos + 7, hi as int));
            author = (pos + 7, hi);
        } else if starts_with(&line, &author_time_p) {
            assert(line@.skip(12) =~= v@.subrange(pos + 12, hi as int));
            date = (pos + 12, hi);
        } else if starts_with(&line, &summary_p) {
            assert(line@.skip(8) =~= v@.subrange(pos + 8, hi as int));
            summary = (pos + 8, hi);
        }
        pos = if r < n {
            r + 1
        } else {
            n
        };
        proof {
            if r >= n {
                assert(lines_from(v@, pos as int, pos as int) =~= seq![]);
            }
        }
    }
    proof {
        assert(lines_from(v@, pos as int, pos as int) =~= seq![]);
        assert(text_lines(v@) =~= seen);
        lemma_blame_hash_short(seen);
    }
    if hash.0 == hash.1 {
        return Err(GitError::Parse(String::from_str("empty blame output")));
    }
    Ok(
        BlameLine {
            hash: String::from_str(output.substring_char(hash.0, hash.1)),
            author: String::from_str(output.substring_char(author.0, author.1)),
            date: String::from_str(output.substring_char(date.0, date.1)),
            summary: String::from_str(output.substring_char(summary.0, summary.1)),
        },
    )
}

/// Whether an exit code of `git diff` means failure: `git diff` exits 0
/// when there is no difference and 1 when there is one; an exit by
/// signal (no code) is not taken for a failure either.
pub open spec fn diff_exit_failed(code: Option<i32>) -> bool {
    match code {
        Some(c) => c > 1,
        None => false,
    }
}

/// The result of `git diff` from its exit code and output: git's stderr
/// as an error when it failed, else the hunks of its stdout.
pub fn diff_output_hunks(exit_code: Option<i32>, stdout: &str, stderr: &str) -> (r: Result<
    Vec<Hunk>,
    GitError,
>)
    requires
        !diff_exit_failed(exit_code) ==> diff_fits(stdout@),
    ensures
        diff_exit_failed(exit_code) ==> (r matches Err(GitError::Command(m)) && m@ == stderr@),
        !diff_exit_failed(exit_code) ==> (r matches Ok(h) && h@ == diff_hunks(stdout@)),
{
    let failed = match exit_code {
        Some(c) => c > 1,
        None => false,
    };
    if failed {
        return Err(GitError::Command(String::from_str(stderr)));
    }
    Ok(parse_unified_diff(stdout))
}

/// The result of `git blame --porcelain` from whether it succeeded and
/// its output: git's stderr as an error when it failed, else the blame
/// read from its stdout.
pub fn blame_output_line(success: bool, stdout: &str, stderr: &str) -> (r: Result<
    BlameLine,
    GitError,
>)
    ensures
        !success ==> (r matches Err(GitError::Command(m)) && m@ == stderr@),
        success ==> (blame_of(stdout@).hash.len() == 0 <==> r is Err),
        success ==> (r matches Err(e) ==> (e matches GitError::Parse(m) && m@
            == "empty blame output"@)),
        success ==> (r matches Ok(b) ==> {
            &&& b.hash@ == blame_of(stdout@).hash
            &&& b.author@ == blame_of(stdout@).author
            &&& b.date@ == blame_of(stdout@).date
            &&& b.summary@ == blame_of(stdout@).summary
        }),
{
    if !success {
        return Err(GitError::Command(String::from_str(stderr)));
    }
    parse_blame_porcelain(stdout)
}

} // verus!
