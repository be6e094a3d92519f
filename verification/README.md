# visor_md

The verified core of a native, offline Markdown reader and editor. The
library's own functions in `src/` are verified by Verus against their
contracts. The calls into outside crates (ropey, comrak, tiny-skia) and into a
few `str` methods stand behind small trusted wrappers, which Verus believes
without proof. A wrapper states part of what the called code does, never more
than its source or documentation shows, and often less: the PNG decoder's
pixels and comrak's parse are named rather than described, and the conversion
wrappers that turn comrak's node values into the library's own carry no
contract at all.

One assumption stands outside every contract: that comrak's parser returns,
without panicking, on every input. Its source holds `unreachable!` and
`expect` calls that are not shown to be out of reach; the claim that the
verified functions do not panic holds, for anything that parses a document,
only under that assumption.

## Layout

- `src/text.rs`, `src/lines.rs`, `src/strings.rs`: UTF-8 text as characters
  and bytes, line starts and ends, string helpers.
- `src/rope.rs`, `src/editor.rs`: the editable text buffer, the bounded
  reversible history and the source editor (cursor, selection, edits,
  undo and redo), with the laws that undo and redo give back what they undo.
- `src/markdown.rs`, `src/parser.rs`: the Markdown tree, its flattening into
  the blocks that are drawn, and the parse with comrak.
- `src/document.rs`, `src/safe_view.rs`, `src/rendered.rs`: the block model,
  selections, links, the inert safe view and what it keeps of the source.
- `src/workspace.rs`, `src/walk.rs`, `src/path_order.rs`, `src/vfs.rs`: the
  index of a granted folder, the decisions of its walk, containment in the
  folder and the checks on relative references.
- `src/settings.rs`, `src/recovery.rs`, `src/files.rs`, `src/images.rs`,
  `src/keys.rs`, `src/theme.rs`, `src/limits.rs`: preferences, recovery file
  names, the opening policy, local PNG checks, key commands, colours and the
  hard limits.
- `tests/`: the tests, run against the compiled library.
- `app/`: a command-line front end that reads files, walks folders and
  prints what the reader shows; floating-point layout lives there too.
