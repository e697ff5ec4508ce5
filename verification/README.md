# riparion_editor

The block model and editing logic of a block-swap live-preview editor,
verified with Verus.

A document is split into a lossless sequence of blocks (YAML frontmatter,
fenced code, atomic lines, blank-line-separated runs); the block being
edited is a raw textarea, the others are rendered. Every function that
decides something about the text lives in `src/` with a contract over a
character-level model of the text.

- `src/text.rs` — Unicode whitespace, trimming, lines, UTF-8/UTF-16 widths,
  and the character scanners the rest is built from.
- `src/blocks.rs` — `Block`, `split_blocks`, `join_blocks`, `frontmatter_len`,
  fence detection, `rejoin_normalized`, `normalize_body`, delete/insert.
- `src/block_laws.rs` — properties of every split: the round trip, the shape
  of the blocks, normalized bodies ending in a line break, frontmatter
  decided by its own run, insert-after as a plain splice.
- `src/normal_form.rs` — normalizing is idempotent: a normalized body splits
  and rejoins to itself.
- `src/autocomplete.rs` — `[[/` trigger detection, completion splicing, and
  the popup's state (`Popup`) and key handling.
- `src/positions.rs` — UTF-16 selection offsets ↔ byte offsets ↔ columns.
- `src/keys.rs` — collision-free render keys for blocks.
- `src/editor.rs` — structural edits of the block snapshot (add, delete,
  paste, drag-to-reorder, commit, split), and the editing session
  (`EditorState::step`): activation, blur and Escape, block moves, with the
  body kept equal to the join of the snapshot while a block is edited.
- `src/keyboard.rs` — double-Enter, cross-block arrow navigation, inline
  format wrapping.

`app/` holds the Dioxus components (`BlockEditor`, the autocomplete hook and
popup, and the demo's themed widgets). They keep the state in signals, read
the DOM (values, carets, key events), place carets and focus, and render;
each state change is one call of `EditorState::step` or of a `Popup`
method, and each key or caret decision is a call of the library.
