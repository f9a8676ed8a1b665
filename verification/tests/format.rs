

/// Format `src`, expecting it to parse cleanly (panics otherwise).
fn fmt(src: &str) -> String {
    otui_core::format::format(src).expect("clean document formats")
}

#[test]
fn already_canonical_document_is_unchanged() {
    let src = "\
MainWindow < UIWindow
  id: main
  size: 100 200
  Button
    id: ok
    @onClick: |
      self:hide()
";
    assert_eq!(fmt(src), src);
}

#[test]
fn over_indented_structural_lines_are_normalized() {
    // `id` is one level under `Panel` but authored with four spaces.
    let src = "Panel\n    id: main\n";
    assert_eq!(fmt(src), "Panel\n  id: main\n");
}

#[test]
fn under_indented_structural_lines_are_normalized() {
    // A single-space (odd) indent still nests one level per the tree → 2 spaces.
    let src = "Panel\n id: main\n";
    assert_eq!(fmt(src), "Panel\n  id: main\n");
}

#[test]
fn tab_indented_structural_lines_are_normalized() {
    // A tab counts as one indent unit in the scanner → depth 1 → two spaces.
    let src = "Panel\n\tid: main\n";
    assert_eq!(fmt(src), "Panel\n  id: main\n");
}

#[test]
fn deep_nesting_normalized_to_two_spaces_per_level() {
    let src = "A\n      b:\n            c: 1\n";
    assert_eq!(fmt(src), "A\n  b:\n    c: 1\n");
}

#[test]
fn key_value_spacing_is_collapsed_to_one_space() {
    assert_eq!(fmt("Panel\n  width:10\n"), "Panel\n  width: 10\n");
    assert_eq!(fmt("Panel\n  width:   10\n"), "Panel\n  width: 10\n");
    assert_eq!(fmt("Panel\n  width: 10\n"), "Panel\n  width: 10\n");
}

#[test]
fn bare_key_and_block_header_keep_no_trailing_space() {
    // A colon with no value stays `key:` (no space appended), both for a block header and a
    // block-scalar marker line.
    assert_eq!(fmt("layout:\n  type: grid\n"), "layout:\n  type: grid\n");
    assert_eq!(
        fmt("W\n  @onClick: |\n    a()\n"),
        "W\n  @onClick: |\n    a()\n"
    );
}

#[test]
fn value_after_first_colon_is_kept_verbatim() {
    // An embedded `:` and a trailing `//`/`#` inside a value are data, preserved exactly after
    // the single normalized space.
    let src = "W\n  image-source:  /path/a:b // note\n";
    assert_eq!(fmt(src), "W\n  image-source: /path/a:b // note\n");
    let hash = "W\n  text:  a # b : c\n";
    assert_eq!(fmt(hash), "W\n  text: a # b : c\n");
}

#[test]
fn trailing_whitespace_is_stripped() {
    let src = "Panel   \n  id: main\t \n";
    assert_eq!(fmt(src), "Panel\n  id: main\n");
}

#[test]
fn final_newline_is_ensured() {
    assert_eq!(fmt("Panel\n  id: main"), "Panel\n  id: main\n");
    assert_eq!(fmt("Panel\n  id: main\n\n\n"), "Panel\n  id: main\n");
}

#[test]
fn ordinary_document_collapses_trailing_blank_lines() {
    // Guard: with no trailing block scalar, trailing blank lines still collapse into a single
    // final newline (scoping the block-scalar-tail exception correctly).
    assert_eq!(fmt("Panel\n  id: a\n\n\n\n"), "Panel\n  id: a\n");
    // The over-indented `id` is also normalized; only the trailing blanks are collapsed.
    assert_eq!(fmt("Panel\n    id: a\n  \n\n"), "Panel\n  id: a\n");
}

#[test]
fn keep_chomped_block_scalar_trailing_blanks_at_eof_are_preserved() {
    // A `|+` block scalar at EOF keeps its trailing blank lines as body content; they must
    // survive byte-for-byte rather than collapse into a single final newline. The (over-indented)
    // marker line is still normalized to depth 1, but the body and its trailing blanks are exact.
    let src = "Panel\n    @onClick: |+\n        body()\n\n\n";
    let out = fmt(src);
    assert_eq!(out, "Panel\n  @onClick: |+\n        body()\n\n\n");
    // The two trailing blank lines survive (three trailing newlines).
    assert!(out.ends_with("body()\n\n\n"), "{out:?}");
    // And re-formatting is a no-op (idempotent), never eroding the trailing blanks further.
    assert_eq!(fmt(&out), out);
}

#[test]
fn plain_block_scalar_at_eof_keeps_its_trailing_blank_lines_verbatim() {
    // The same protection applies to any block scalar whose body reaches EOF: the trailing blank
    // lines are part of its (byte-for-byte) body, and a blank line carrying stray spaces is kept
    // exactly as authored.
    let src = "W\n  @x: |\n    a()\n   \n\n";
    assert_eq!(fmt(src), src);
    assert_eq!(fmt(src), fmt(&fmt(src)));
}

#[test]
fn blank_lines_are_preserved_and_emptied() {
    // An interior blank line stays (blank), with any stray indentation removed.
    let src = "Panel\n  id: a\n   \n  id: b\n";
    assert_eq!(fmt(src), "Panel\n  id: a\n\n  id: b\n");
}

#[test]
fn empty_and_whitespace_only_documents_format_to_empty() {
    assert_eq!(fmt(""), "");
    assert_eq!(fmt("   \n\n"), "");
}

#[test]
fn state_selector_and_style_header_colons_are_untouched() {
    // The `:` terminating a `$state` selector, and a `Name < Base` header, are re-indented only
    // (no key/value spacing rule).
    let src = "Button\n  $hover !disabled:\n    color:red\n";
    assert_eq!(fmt(src), "Button\n  $hover !disabled:\n    color: red\n");
    assert_eq!(fmt("MainWindow < UIWindow\n"), "MainWindow < UIWindow\n");
}

#[test]
fn anchor_and_alias_and_event_colons_get_one_space() {
    let src = "W\n  anchors.top:parent.top\n  &c:#ff0000\n  !text:tr('x')\n";
    assert_eq!(
        fmt(src),
        "W\n  anchors.top: parent.top\n  &c: #ff0000\n  !text: tr('x')\n"
    );
}

#[test]
fn block_scalar_body_is_left_byte_for_byte_unchanged() {
    // The Lua body's own (irregular) indentation and content must survive exactly, including an
    // interior blank line, even though it is neither a 2-space multiple nor structurally valid.
    let src = "\
Panel
  @onClick: |
       self:hide()

         foo(  bar )
  id: y
";
    let out = fmt(src);
    // The body lines are preserved verbatim; only the surrounding structural lines are touched.
    assert!(out.contains("\n       self:hide()\n"), "{out}");
    assert!(out.contains("\n\n         foo(  bar )\n"), "{out}");
    // And the whole document was formattable and stable here.
    assert_eq!(out, src);
}

#[test]
fn block_scalar_body_is_not_reindented_even_when_marker_line_is() {
    // The marker and its sibling `id` are both authored one level under `Panel` but with four
    // spaces; the block body is deeper still (eight spaces) and carries trailing whitespace.
    let src = "Panel\n    @onClick: |\n        body:kept  \n    id: y\n";
    // The marker and `id` lines normalize to depth 1 (2 spaces), but the body line stays
    // verbatim (its eight-space indent and trailing whitespace preserved byte-for-byte).
    assert_eq!(
        fmt(src),
        "Panel\n  @onClick: |\n        body:kept  \n  id: y\n"
    );
}

#[test]
fn multiline_inline_array_continuation_is_left_verbatim() {
    // The continuation line of a multi-line array is not a node header: it is left untouched,
    // while the header line's key/value spacing and indentation are normalized.
    let src = "W\n    x:[a,\n     b, c]\n";
    assert_eq!(fmt(src), "W\n  x: [a,\n     b, c]\n");
}

#[test]
fn comment_lines_are_reindented_to_their_block_depth() {
    // A comment before a depth-1 line belongs to that block → 2 spaces; a comment before a
    // depth-0 line belongs to the top level → 0 spaces. Content is otherwise intact.
    let src = "Panel\n// keep me\n  id: main\n   # trailing note\nWidget\n";
    assert_eq!(
        fmt(src),
        "Panel\n  // keep me\n  id: main\n# trailing note\nWidget\n"
    );
}

#[test]
fn list_items_are_reindented_without_touching_their_dash() {
    let src = "items:\n    - one\n    - two\n";
    assert_eq!(fmt(src), "items:\n  - one\n  - two\n");
}

#[test]
fn a_document_with_a_parse_error_yields_none() {
    assert!(otui_core::format::format("x: [a, b\n").is_none());
}

#[test]
fn formatting_is_idempotent() {
    let inputs = [
        "Panel\n    id: main\n\twidth:10\n",
        "MainWindow < UIWindow\n id: main\n  Button\n      id: ok\n   @onClick: |\n         self:hide()\n",
        "Button\n  $hover:\n      color:red\n  anchors.top:parent.top\n",
        "items:\n    - one\n\n    - two\n",
        "W\n  x:[a,\n     b, c]\n// note\n",
        "Panel\n  @onClick: |+\n    body()\n\n\n",
        "",
        "   \n\n",
    ];
    for src in inputs {
        let once = otui_core::format::format(src).expect("formats");
        let twice = otui_core::format::format(&once).expect("re-formats");
        assert_eq!(once, twice, "not idempotent for {src:?}");
    }
}
