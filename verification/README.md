# gpui-notes core

The core of an outliner notes app in the style of Logseq, written in Verus:
the functions in `src/` carry contracts, and Verus proves them. The
exceptions are a few small trusted wrappers around outside code (markdown
events from pulldown-cmark, regex captures, Unicode segmentation, chrono
dates, and `char`/`str` functions of std such as `to_lowercase`); Verus
believes their contracts, and each one's doc comment says what it claims.

Block ids come from an `IdSource` that the caller passes in; the program
keeps one for its whole run, so no two blocks ever share an id. The tag and
link indexes hold their entries in vectors rather than hash or B-tree maps,
since Verus proves little about lookups by text keys in vstd's map
specifications; their invariants (each key once) are stated and proved
instead.

- `src/outline.rs`, `src/forest.rs`, `src/outline_text.rs` — the block tree, its
  mathematical model, its edits, and its markdown form (with the laws that tie
  parse, serialize and the edits together).
- `src/page.rs`, `src/store.rs`, `src/journal.rs`, `src/registry.rs` — pages,
  where they live on disk, journal dates, and page keys.
- `src/block_render.rs`, `src/tags.rs`, `src/page_links.rs` — markdown lowered
  into blocks and inlines, `#tags` and `[[links]]` found in it, and the tag and
  link indexes (re-indexing a page replaces what it was indexed with;
  journals are link sources too, but never known pages).
- `src/page_completion.rs`, `src/page_picker.rs`, `src/block_view.rs`,
  `src/outline_view.rs`, `src/linked_refs.rs`, `src/history.rs` — the decisions
  the editor makes: completion popups, the page picker, focus moves,
  back/forward history, and how references are listed.
- `src/edit.rs`, `src/text.rs` — text editing by grapheme and word, UTF-8 and
  UTF-16 offsets.
- `src/calc.rs` — `calc` blocks read into the steps of their evaluation, and
  which functions and aggregates their names stand for.
- `tests/` — tests of the library.
- `app/` — the program: disk I/O, today's date, and the floating-point
  evaluation of `calc` blocks.
