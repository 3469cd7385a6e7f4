# treemd

A markdown navigator library, verified with Verus: heading trees, sections and
line ranges of a document, and tables and code blocks drawn as styled terminal
text.

## Layout

- `src/parser/`: the document model. `document.rs` cuts the content into
  sections, `forest.rs` builds the heading tree, `render.rs` draws it,
  `lines.rs` counts lines, `laws.rs` states what holds of whole documents.
- `src/tui/`: `style.rs` and `theme.rs` are the styled text, `ui/` lays out
  tables, `code.rs`, `cache.rs` and `syntax.rs` highlight code blocks, and
  `theme_dates.rs` finds the theme files whose dates cannot be loaded.
- `src/tui/engine.rs` holds every call into `syntect`, and `src/tui/ui/util.rs`
  the one call into `ratatui`; their contracts are trusted, as are those of four
  functions of the standard library in `src/text.rs`. Everything else is proved.
- `tests/`: tests that run the library.
- `app/`: ordinary Rust around the library. It reads theme directories, turns
  styled text into `ratatui` lines and serializes headings.

## Limits

- The library does not parse markdown. A parser hands it the headings with their
  byte ranges.
- Inline formatting in table cells covers code spans.
- A document whose headings do not lie within the content, in order and on
  character boundaries, has no line ranges; `Document::lookup_section` tells
  whether a section can be extracted.
