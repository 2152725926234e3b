# marked_rs

A compact Markdown-to-HTML parser whose behaviour is stated in contracts and
proved with Verus. It supports ATX and setext headings, paragraphs, rules,
block quotes, ordered and unordered lists, fenced code blocks, emphasis, strong
emphasis, inline code, links and images, with HTML escaping by default, and,
behind `Options { gfm: true }`, GitHub-Flavored tables, task lists and
strikethrough. A stream parser renders Markdown arriving in chunks, and an
incremental parser keeps the HTML of an editable document current.

## Layout

- `src/text.rs` – the character-level model: whitespace, trimming, searching,
  splitting into lines, UTF-8 widths, decimal numbers.
- `src/tokenizer.rs` – splitting a source into lines.
- `src/grammar.rs` – the block grammar as spec functions over lines.
- `src/parser.rs` – the executable block parser, proved against the grammar.
- `src/ast.rs` – the document tree and its model.
- `src/inline.rs` – inline Markdown and escaping.
- `src/renderer.rs` – the HTML of a document.
- `src/markup.rs` – why the HTML is safe: every `<` in it opens or closes an
  element the renderer writes.
- `src/streaming.rs` – `StreamParser` and `IncrementalParser`.
- `src/lib.rs` – the public entry points and the laws that relate them.
- `app/` – the command-line program and the Node.js and WebAssembly bindings.

The entry points that return `String` or `Document` require that the source
parses; `try_parse_with_options` and `try_parse_document_with_options` return
`None` for the two inputs on which block parsing fails (an ordered-list number
beyond `u64`, or a list continuation line whose two-byte dedent falls inside a
multi-byte whitespace character).
