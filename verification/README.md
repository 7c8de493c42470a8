# editor_input

The editing logic of a multi-cursor code editor, verified with Verus: texts and
their rows, selections, line and comment commands, indentation, bracket pairs,
folding, search, snippets, completions, and what language servers tell of a text.

- `src/` is the library. Texts are modelled as sequences of UTF-8 bytes
  (`text.rs`), edits as byte ranges with what replaces them (`edit.rs`), and the
  commands as plans of edits with the selections after them. `state.rs` holds the
  state of one editor; `transaction.rs` and `cursor_edits.rs` carry plans out.
  `lsp/` holds the requests to language servers and what is kept of their
  replies: a function returns the request, another one takes the reply.
  `lsp/completion_insertion.rs` brings an accepted completion into the text: its
  snippet is read with the values of variables (`snippet.rs`,
  `snippet_variables.rs`), and its lines are fitted to the row of the cursor
  (`snippet_indentation.rs`).
- `rows.rs`, `deleted_rows.rs`, `insertions.rs`, `comment_rows.rs`,
  `comment_blocks.rs`, `indent_rows.rs` and `join_rows.rs` state what the commands
  do to the rows of a text, `line_endings.rs` which of them can be taken back to
  the last byte, `snippet_mirrors.rs` what the places of a tab stop read.
- Calls into other crates go through a few small functions whose contracts are
  believed: `rope.rs` (ropey), `matching.rs` (regex, aho-corasick),
  `snippet_transform.rs` (fancy-regex), `collation.rs` (ICU and the system's
  locale), `snippet_variables.rs` (std's paths, chrono, uuid), and `chars.rs` for
  what std knows of characters.
- `app/` is the host: provider traits, the loops that await their replies,
  protocol conversions, and everything measured in pixels.
