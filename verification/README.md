# ayumi

Git signs for an editor's sign column, with the logic verified by Verus.

- `src/text.rs` — lines as `str::lines` splits them, Unicode whitespace,
  and decimal numbers as `usize::from_str` reads them.
- `src/diff.rs` — the unified diff parser (`parse_unified_diff`), with
  its grammar and classification written as spec functions.
- `src/laws.rs` — properties proved of the parser: deletion hunks count
  no lines, the added and modified hunks mark exactly the lines a diff
  adds (each once), and only the first file of a multi-file diff is read.
- `src/git.rs` — porcelain blame parsing and the meaning of git's exit
  status.
- `src/signs.rs` — which buffer rows get which sign.
- `src/refresh.rs` — the decisions of a buffer's sign refresh.
- `app/` — the Neovim plugin (nvim-oxi, tane): running git and placing
  extmarks.
