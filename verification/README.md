# otui_core

Language tooling for OTUI, the indentation-based language in which OTClient describes its widgets:
diagnostics, quick fixes, highlighting, outline, completion, hover, navigation, references,
formatting, folding, colors and asset links, together with the scans of Lua code that they need.

The library is written in Verus. What a function returns is stated over the bytes of the document,
and Verus proves it.

- `src/text.rs`, `src/ascii.rs`, `src/names.rs`, `src/order.rs`, `src/wording.rs`: texts as bytes,
  names in order, sorting by place, messages.
- `src/indent.rs`, `src/syntax.rs`, `src/nodes.rs`: lines, statements, and how they hang together.
- `src/catalog.rs`, `src/schema.rs`, `src/palette.rs`: what the engine knows.
- `src/doc_index.rs`, `src/style_index.rs`, `src/lua_refs.rs`, `src/lua_ui_loads.rs`,
  `src/lua_widgets.rs`, `src/widget_resolve.rs`: what a workspace holds.
- One module for each feature, from `src/diagnostics.rs` to `src/symbols.rs`.
- `src/format_laws.rs`, `src/ink.rs`, `src/indent_laws.rs`: of a document that is formatted, that
  formatting twice changes nothing more and that the statements stay; of every document, that its
  canonical layout differs in white space only; and when the indentation that is offered for a line
  is the one that formatting gives it. A document is formatted where each line fits some kind of
  statement and no block scalar would lose lines or take in others.
- `src/lua_laws.rs`: that a long comment in front of a Lua source only moves its references.
- `app/lib.rs`: asset paths as paths of the file system.
