# sandbox hunks

Hunk-level review of the changes staged in a sandbox: a changed file is
diffed against its original, the diff is read into hunks, hunks can be split
into smaller ones, and a selection of hunks is applied to the original (to
accept) or to the staged copy (to reject).

Layout:

- `src/text.rs` — lines, whitespace, decimal numbers over character sequences.
- `src/hunk.rs` — hunk lines, hunks, splitting a hunk, display, files of hunks.
- `src/diff_parser.rs` — hunk headers, ranges, patches, the hunks of a file.
- `src/interactive.rs` — applying selections, commands, the interactive
  session as a state machine, and what accepting or rejecting does per file.
- `app/` — the terminal front end: reading files, prompting, writing results.

The library in `src/` is written in Verus; its functions carry contracts that Verus proves.
