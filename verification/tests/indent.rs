use otui_core::indent::indent_for_line;

#[test]
fn first_line_is_always_zero() {
    assert_eq!(indent_for_line("", 0), Some(0));
    assert_eq!(indent_for_line("Panel\n  id: main\n", 0), Some(0));
}

#[test]
fn after_a_style_header_indents_one_level() {
    let src = "MainWindow < UIWindow\n";
    assert_eq!(indent_for_line(src, 1), Some(2));
}

#[test]
fn after_a_bare_container_tag_indents_one_level() {
    let src = "Panel\n";
    assert_eq!(indent_for_line(src, 1), Some(2));
}

#[test]
fn after_an_inline_valued_property_keeps_the_same_indent() {
    let src = "Panel\n  id: main\n";
    assert_eq!(indent_for_line(src, 2), Some(2));
}

#[test]
fn after_an_empty_valued_colon_key_indents_one_level() {
    // `anchors:` (block form) has no inline value: it opens a block.
    let src = "Panel\n  anchors:\n";
    assert_eq!(indent_for_line(src, 2), Some(4));
}

#[test]
fn after_a_state_selector_indents_one_level() {
    let src = "Panel\n  $hover:\n";
    assert_eq!(indent_for_line(src, 2), Some(4));
}

#[test]
fn blank_and_comment_lines_are_skipped_when_looking_backward() {
    let src = "\
Panel
  id: main

  // a comment

";
    // Line 5 (blank) should still look past the comment and the blank line to `id: main`.
    assert_eq!(indent_for_line(src, 5), Some(2));
}

#[test]
fn a_broken_mid_edit_document_still_produces_an_answer() {
    let src = "Panel\n  x: [a, b\n";
    assert_eq!(indent_for_line(src, 2), Some(2));

    // Enter pressed right after an unterminated style header line: no trailing content line
    // exists yet in `source`, but the lookback still resolves from the last real line.
    let src = "MainWindow < \n";
    assert_eq!(indent_for_line(src, 1), Some(2));
}

#[test]
fn enter_at_end_of_file_with_no_trailing_line_still_resolves() {
    // `source` ends with a `\n` and carries no line after it (per `split_lines`'s contract);
    // `line` (1) is past the end of the document, exactly the state right after pressing Enter
    // at EOF.
    let src = "Panel\n";
    assert_eq!(indent_for_line(src, 1), Some(2));
}

#[test]
fn inside_a_block_scalar_body_refuses_to_guess() {
    let src = "\
Panel
  @onClick: |
    self:hide()
";
    // The (blank) line right after the marker, still inside the open body.
    assert_eq!(indent_for_line(src, 2), None);
    // A line already holding block-scalar content.
    let src2 = "Panel\n  @onClick: |\n    one()\n    two()\n";
    assert_eq!(indent_for_line(src2, 3), None);
}

#[test]
fn a_fresh_blank_line_right_after_a_block_scalar_body_stays_open() {
    let src = "Panel\n  @onClick: |\n    self:hide()\n";
    assert_eq!(indent_for_line(src, 3), None);
}

#[test]
fn tab_indented_reference_line_refuses_to_guess() {
    let src = "Panel\n\tid: main\n";
    assert_eq!(indent_for_line(src, 2), None);
}

#[test]
fn tab_indented_target_line_refuses_to_guess() {
    let src = "Panel\n  id: main\n\tsize: 1 2\n";
    assert_eq!(indent_for_line(src, 2), None);
}

#[test]
fn agrees_with_format_line_edits_on_clean_document() {
    // On a clean, already-canonical document where depth never decreases from one line to the
    // next (every consecutive pair is either a sibling — same depth — or a first child — one
    // level deeper, exactly what pressing Enter can ever need), `indent_for_line` must compute
    // exactly the indentation `format_line_edits` would produce for that line: the same one
    // indentation rule, never two subtly different ones. (A dedent, e.g. `@onClick:` returning
    // to `Button`'s level after `$hover:`'s nested `color:`, is a separate, user-driven action —
    // see the module docs — and is deliberately outside this test's claim.)
    let src = "\
MainWindow < UIWindow
  id: main
  size: 100 200
  Button
    id: ok
    $hover:
      color: red
      width: 5
";
    let lines: Vec<&str> = src.lines().collect();
    assert!(
        otui_core::format::format_line_edits(src, 0, lines.len() as u32).expect("formats") == Vec::new(),
        "fixture must already be canonical"
    );
    for (i, text) in lines.iter().enumerate().skip(1) {
        let expected =
            indent_for_line(src, i as u32).expect("no block scalars in this fixture");
        let actual_indent = text.len() - text.trim_start().len();
        assert_eq!(
            expected, actual_indent,
            "line {i} ({text:?}): indent_for_line={expected}, formatter={actual_indent}"
        );
    }
}
