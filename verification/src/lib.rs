//! Git sign-column support for an editor: a verified parser for unified
//! diff output, a parser for `git blame --porcelain` output, the
//! interpretation of git's exit status, and the computation of which
//! buffer rows receive a sign.

pub mod text;
pub mod diff;
pub mod git;
pub mod signs;
pub mod laws;
pub mod refresh;
