# yamd

YAMD (Yet Another Markdown Document) parsing, written in Verus and verified.

## Layout

- `src/lexer.rs` — splits text into tokens; `tokenize` returns exactly the tokens of a
  specification of the lexer (`spec_tokens`) and they tile the input byte for byte. A `\`
  followed by a byte always starts a literal (`law_escape_is_literal`).
- `src/op/` — the flat parser. `parse` turns text into Start/End/Value operations, exactly
  those of `parse_ops`, a specification of the whole grammar over the tokens.
  - `parser.rs` — the token cursor, stop conditions and the scanning primitives.
  - one file per node (`italic.rs`, `bold.rs`, `list.rs`, `document.rs`, ...); each states
    which operations it appends and where it leaves the cursor (a `*_at`, `*_res` or `*_ops`
    specification of the node), and that it changes nothing when it does not match, but for
    a collapsible block's opening, which then turns literal.
  - `step.rs` — what a parsing step may do, and lemmas that compose steps.
  - `laws.rs` — the two properties of an operation stream: Start/End pairs nest
    (`balanced`) and contents cover a byte range exactly once, in order (`covers`).
    `parse` guarantees both for the whole input.
  - `to_yamd.rs` — turns an operation stream into the document tree: `to_yamd` gives exactly
    `spec_to_yamd`, the tree that a stack of nodes under construction builds from the stream,
    for every stream that never closes the document and leaves nothing else open
    (`keeps_root`, which every balanced stream meets).
    `deserialize` reads a text into its document tree, `spec_to_yamd` of `parse_ops`; every
    content that `parse` gives lies on character boundaries of the text.
- `src/nodes.rs` — the document tree (`Yamd` and its nodes), each type with a mathematical
  value.
- `src/node_parser/` — parsers that build nodes straight from the tokens, on a cursor that
  takes tokens from the lexer as it goes and can step back: links, images, headings, code
  blocks, embeds, bold, emphasised, italic, struck-through and inline code, paragraphs,
  highlights, lists (with nested lists, `parse_list`) and a document's metadata. Each states
  the node it reads and where it leaves the cursor, over a specification of its scan
  (`para_scan`, `highlight_scan`, `list_scan`, ...). Collapsible blocks and the whole document
  are not read this way; the document tree comes from `op::deserialize`, which is `parse`
  followed by `to_yamd`.
- `src/parser.rs`, `src/s.rs`, `src/text.rs` — reading a part of a text between a start and an
  end sequence of characters, strikethrough read with it, and plain text.
- `src/sd/`, `src/toolkit/` — character-level helpers: named values, pattern matchers and
  tokenizers (the tokenizers over ASCII text; the matcher over any text whose search reaches
  only starts of characters).
- `app/lib.rs` — serde forms of the operation stream, converting to and from the library's
  types.
- `tests/` — the test suite.
