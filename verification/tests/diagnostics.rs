use otui_core::diagnostics::{
    ANCHOR_PARENT_NO_ANCHOR_LAYOUT, INVALID_ANCHOR_EDGE, INVALID_INDENTATION_DEPTH,
    INVALID_PROPERTY_VALUE, ODD_INDENTATION, PROPERTY_AFTER_CHILD, SYNTAX_ERROR, TAB_INDENTATION,
    UNKNOWN_BASE, UNKNOWN_PROPERTY, UNKNOWN_ROOT_STYLE, UNKNOWN_STATE, WidgetContext, analyze,
    analyze_with_widgets, line_indentation_is_valid,
};
use otui_core::lang_api::{ByteSpan, Diagnostic, Severity};
use otui_core::lua_widgets::{LuaWidgetIndex, scan_widgets};
use otui_core::style_index::{StyleIndex, extract_style_defs};
use otui_core::syntax::SyntaxTree;

fn codes(diags: &[Diagnostic]) -> Vec<&str> {
    diags.iter().map(|d| d.code).collect()
}

#[test]
fn line_indentation_is_valid_mirrors_the_pass() {
    // Byte offset of `needle` in `src`.
    let at = |src: &str, needle: &str| src.find(needle).expect("needle present");

    // Valid +1 level under a widget.
    let src = "Panel\n  wid\n";
    assert!(line_indentation_is_valid(src, at(src, "wid") + 1));

    // Odd (3-space) indentation → invalid.
    let src = "Panel\n   wid\n";
    assert!(!line_indentation_is_valid(src, at(src, "wid") + 1));

    // Depth jump of two levels (0 → 2) → invalid.
    let src = "Panel\n    wid\n";
    assert!(!line_indentation_is_valid(src, at(src, "wid") + 1));

    // Tab indentation → invalid.
    let src = "Panel\n\twid\n";
    assert!(!line_indentation_is_valid(src, at(src, "wid") + 1));

    // A cursor inside a `|` block-scalar body is raw text, not structure → invalid.
    let src = "Panel\n  @onClick: |\n    some\n";
    assert!(!line_indentation_is_valid(src, at(src, "some") + 1));

    // Valid +1 under a nested widget (depth 2 under depth 1).
    let src = "Panel\n  Child\n    wid\n";
    assert!(line_indentation_is_valid(src, at(src, "wid") + 1));
}

#[test]
fn clean_document_has_no_diagnostics() {
    let src = "\
MainWindow < UIWindow
  id: main
  size: 100 200
  Button
    id: ok
    @onClick: |
      self:hide()
";
    assert!(analyze(src).is_empty(), "clean doc: {:?}", analyze(src));
}

#[test]
fn tab_indentation_is_flagged_at_the_tab() {
    // Second line is indented with a tab.
    let src = "Panel\n\tid: main\n";
    let diags = analyze(src);
    assert_eq!(codes(&diags), vec![TAB_INDENTATION]);
    let d = &diags[0];
    assert!(d.severity == Severity::Error);
    // The tab is the first byte of line 2 (after "Panel\n" = 6 bytes).
    assert_eq!(d.span, ByteSpan::new(6, 7));
    assert_eq!(&src[d.span.start..d.span.end], "\t");
}

#[test]
fn tab_after_spaces_is_flagged() {
    let src = "Panel\n  \tid: x\n"; // two spaces then a tab
    let diags = analyze(src);
    assert_eq!(codes(&diags), vec![TAB_INDENTATION]);
    // "Panel\n" = 6, plus two spaces => tab at byte 8.
    assert_eq!(diags[0].span, ByteSpan::new(8, 9));
}

#[test]
fn odd_one_space_indentation_is_flagged() {
    let src = "Panel\n id: x\n"; // one space
    let diags = analyze(src);
    assert_eq!(codes(&diags), vec![ODD_INDENTATION]);
    assert_eq!(diags[0].span, ByteSpan::new(6, 7));
}

#[test]
fn odd_three_space_indentation_is_flagged() {
    let src = "Panel\n  id: x\n   size: y\n"; // 0,2,3 spaces
    let diags = analyze(src);
    assert_eq!(codes(&diags), vec![ODD_INDENTATION]);
}

#[test]
fn invalid_depth_jump_is_flagged() {
    // 0 -> 2 levels (4 spaces) with no intervening level.
    let src = "Panel\n    id: x\n";
    let diags = analyze(src);
    assert_eq!(codes(&diags), vec![INVALID_INDENTATION_DEPTH]);
    assert_eq!(diags[0].severity, Severity::Error);
}

#[test]
fn deep_but_valid_nesting_is_not_flagged() {
    // `a`/`b`/`c` carry nested blocks (container form, not leaf style properties) so they are
    // not unknown-property candidates; `width` is a known leaf property. The test exercises
    // depth-4 nesting producing no indentation-depth diagnostics.
    let src = "\
a:
  b:
    c:
      width: 1
";
    assert!(analyze(src).is_empty(), "{:?}", analyze(src));
}

#[test]
fn comments_and_blanks_do_not_affect_depth() {
    let src = "\
Panel

  // a comment
  id: main

  size: 1 2
";
    assert!(analyze(src).is_empty(), "{:?}", analyze(src));
}

#[test]
fn block_scalar_content_is_not_validated_as_structure() {
    // The lua body is indented far past one level and would otherwise look like a depth jump
    // and odd indentation; inside a block scalar it must be ignored.
    let src = "\
btn:
  @onClick: |
       self:hide()
  id: y
";
    assert!(analyze(src).is_empty(), "{:?}", analyze(src));
}

#[test]
fn block_scalar_content_with_odd_extra_indent_is_not_flagged() {
    let src = "\
Panel
  @onClick: |
   one()
  id: y
";
    let diags = analyze(src);
    assert!(diags.is_empty(), "{:?}", diags);
}

#[test]
fn block_scalar_content_with_five_space_indent_is_not_flagged() {
    let src = "\
Panel
  @onClick: |-
     one()
  id: y
";
    let diags = analyze(src);
    assert!(diags.is_empty(), "{:?}", diags);
}

#[test]
fn malformed_inline_array_is_a_syntax_error() {
    let src = "x: [a, b\n";
    let diags = analyze(src);
    assert!(
        codes(&diags).contains(&SYNTAX_ERROR),
        "expected syntax-error, got {:?}",
        diags
    );
    let d = diags.iter().find(|d| d.code == SYNTAX_ERROR).unwrap();
    assert_eq!(d.severity, Severity::Error);
    assert!(!d.span.is_empty());
}

#[test]
fn tab_takes_precedence_over_odd_on_the_same_line() {
    let src = "Panel\n \tid: x\n";
    let diags = analyze(src);
    assert_eq!(codes(&diags), vec![TAB_INDENTATION]);
}

#[test]
fn diagnostics_are_sorted_by_span() {
    let src = "Panel\n id: a\n   size: b\n";
    let diags = analyze(src);
    for w in diags.windows(2) {
        assert!(w[0].span.start <= w[1].span.start);
    }
}

// --- semantic pass: unknown $state (hint) -------------------------------------------------

fn only<'a>(diags: &'a [Diagnostic], code: &str) -> &'a Diagnostic {
    let matches: Vec<_> = diags.iter().filter(|d| d.code == code).collect();
    assert_eq!(
        matches.len(),
        1,
        "expected exactly one {code}, got {diags:?}"
    );
    matches[0]
}

#[test]
fn unknown_state_is_a_hint_on_the_name_token() {
    let src = "\
Button
  $foo:
    color: red
";
    let diags = analyze(src);
    let d = only(&diags, UNKNOWN_STATE);
    assert_eq!(d.severity, Severity::Hint);
    assert_eq!(&src[d.span.start..d.span.end], "foo");
}

#[test]
fn known_states_produce_no_hint_including_miscased() {
    // Every known state, plus a deliberately mis-cased one, must be silent (case-insensitive).
    for state in [
        "active",
        "focus",
        "hover",
        "pressed",
        "checked",
        "disabled",
        "on",
        "first",
        "middle",
        "last",
        "alternate",
        "dragging",
        "hidden",
        "mobile",
        "Hover",
        "PRESSED",
    ] {
        let src = format!("Button\n  ${state}:\n    color: red\n");
        let diags = analyze(&src);
        assert!(
            diags.iter().all(|d| d.code != UNKNOWN_STATE),
            "state `{state}` must not be flagged: {diags:?}"
        );
    }
}

#[test]
fn state_selector_with_valid_and_invalid_yields_one_hint() {
    // `$hover !bogus:` — one valid, one unknown (negated) — exactly one hint, on `bogus`.
    let src = "\
Button
  $hover !bogus:
    color: red
";
    let diags = analyze(src);
    let d = only(&diags, UNKNOWN_STATE);
    assert_eq!(&src[d.span.start..d.span.end], "bogus");
}

// --- semantic pass: invalid anchor edge (error) -------------------------------------------

#[test]
fn invalid_property_side_anchor_edge_is_an_error() {
    let src = "\
Widget
  anchors.middle: parent.top
";
    let diags = analyze(src);
    let d = only(&diags, INVALID_ANCHOR_EDGE);
    assert_eq!(d.severity, Severity::Error);
    // Span is the property-side edge token `middle`, not the valid target edge `top`.
    assert_eq!(&src[d.span.start..d.span.end], "middle");
}

#[test]
fn invalid_target_side_anchor_edge_is_an_error() {
    let src = "\
Widget
  anchors.top: parent.bogus
";
    let diags = analyze(src);
    let d = only(&diags, INVALID_ANCHOR_EDGE);
    assert_eq!(d.severity, Severity::Error);
    // Only the offending target-edge token is spanned, not the whole `parent.bogus`.
    assert_eq!(&src[d.span.start..d.span.end], "bogus");
}

#[test]
fn valid_anchors_with_magic_targets_and_shorthands_are_silent() {
    let src = "\
Widget
  anchors.top: parent.top
  anchors.left: sibling.right
  anchors.fill: parent
  anchors.centerIn: parent
  anchors.bottom: none
";
    let diags = analyze(src);
    assert!(
        diags.iter().all(|d| d.code != INVALID_ANCHOR_EDGE),
        "valid anchors must not be flagged: {diags:?}"
    );
}

#[test]
fn anchor_edge_check_is_case_insensitive() {
    let src = "\
Widget
  anchors.HorizontalCenter: parent.VerticalCenter
";
    let diags = analyze(src);
    assert!(
        diags.iter().all(|d| d.code != INVALID_ANCHOR_EDGE),
        "case-insensitive edges must not be flagged: {diags:?}"
    );
}

#[test]
fn parse_level_and_semantic_diagnostics_coexist() {
    // A tab-indented line (parse level) alongside an unknown state (semantic) — both fire.
    let src = "Panel\n\tid: main\n$foo:\n  color: red\n";
    let diags = analyze(src);
    let cs = codes(&diags);
    assert!(
        cs.contains(&TAB_INDENTATION),
        "parse level intact: {diags:?}"
    );
    assert!(cs.contains(&UNKNOWN_STATE), "semantic present: {diags:?}");
}

// --- semantic pass: unknown property (hint) -----------------------------------------------

#[test]
fn known_property_produces_no_hint() {
    let src = "\
Panel
  width: 10
";
    let diags = analyze(src);
    assert!(
        diags.iter().all(|d| d.code != UNKNOWN_PROPERTY),
        "known property must not be flagged: {diags:?}"
    );
}

#[test]
fn unknown_property_is_a_hint_on_the_key_token() {
    // `widht` is a typo for `width`.
    let src = "\
Panel
  widht: 10
";
    let diags = analyze(src);
    let d = only(&diags, UNKNOWN_PROPERTY);
    assert_eq!(d.severity, Severity::Hint);
    assert_eq!(&src[d.span.start..d.span.end], "widht");
}

#[test]
fn miscased_known_property_is_a_hint() {
    let src = "\
Panel
  Width: 10
";
    let diags = analyze(src);
    let d = only(&diags, UNKNOWN_PROPERTY);
    assert_eq!(d.severity, Severity::Hint);
    assert_eq!(&src[d.span.start..d.span.end], "Width");
}

#[test]
fn non_property_kinds_are_never_flagged_as_unknown_property() {
    let src = "\
Panel
  id: main
  anchors.top: parent.top
  @onClick: |
    self:hide()
  $hover:
    color: red
  items:
    - one
    - two
  Button
    id: ok
  Label < UILabel
    id: title
";
    let diags = analyze(src);
    assert!(
        diags.iter().all(|d| d.code != UNKNOWN_PROPERTY),
        "no unknown-property should fire here: {diags:?}"
    );
}

#[test]
fn unknown_property_nested_in_child_widget_is_flagged() {
    // A property may sit on a widget at any depth; the child's typo must still be flagged.
    let src = "\
Panel
  id: main
  Button
    id: ok
    widht: 10
";
    let diags = analyze(src);
    let d = only(&diags, UNKNOWN_PROPERTY);
    assert_eq!(d.severity, Severity::Hint);
    assert_eq!(&src[d.span.start..d.span.end], "widht");
}

#[test]
fn unknown_property_never_error_or_warning() {
    // Hard fidelity rule: an unknown property is a hint, never an error or warning.
    let src = "Panel\n  not-a-real-prop: 1\n";
    let diags = analyze(src);
    let d = only(&diags, UNKNOWN_PROPERTY);
    assert_ne!(d.severity, Severity::Error);
    assert_ne!(d.severity, Severity::Warning);
    assert_eq!(d.severity, Severity::Hint);
}

#[test]
fn a_compound_state_selector_is_valid() {
    for src in [
        "Button\n  $pressed disabled:\n    color: #111111\n",
        "Button\n  $checked hover !disabled:\n    color: #222222\n",
        "Button\n  $first on:\n    color: #333333\n",
    ] {
        assert!(analyze(src).is_empty(), "{src:?} -> {:?}", analyze(src));
    }
}

#[test]
fn the_states_of_a_compound_selector_are_still_validated() {
    // Accepting the shape must not stop us checking the names in it.
    let src = "Button\n  $bogus disabled:\n    color: #111111\n";
    let diags = analyze(src);
    let d = only(&diags, UNKNOWN_STATE);
    assert_eq!(&src[d.span.start..d.span.end], "bogus");
}

#[test]
fn a_style_meta_key_is_not_an_unknown_property() {
    assert!(analyze("SpinBox < TextEdit\n  __class: UISpinBox\n").is_empty());
    assert!(analyze("Win < UIWindow\n  __unique: true\n").is_empty());
}

// --- semantic pass: property after child (hint) --------------------------------------------

#[test]
fn property_after_a_child_widget_is_a_hint_on_the_key() {
    let src = "\
Panel
  Button
    id: ok
  margin-bottom: 3
";
    let diags = analyze(src);
    let d = only(&diags, PROPERTY_AFTER_CHILD);
    assert_eq!(d.severity, Severity::Hint);
    assert_eq!(&src[d.span.start..d.span.end], "margin-bottom");
}

#[test]
fn property_before_a_child_widget_is_silent() {
    let src = "\
Panel
  margin-bottom: 3
  Button
    id: ok
";
    let diags = analyze(src);
    assert!(
        diags.iter().all(|d| d.code != PROPERTY_AFTER_CHILD),
        "{diags:?}"
    );
}

#[test]
fn a_bare_tag_at_the_document_root_is_not_a_child_widget() {
    let src = "\
MainWindow
  id: x
stray: value
";
    let diags = analyze(src);
    assert!(
        diags.iter().all(|d| d.code != PROPERTY_AFTER_CHILD),
        "{diags:?}"
    );
}

#[test]
fn a_tag_inside_a_state_block_is_not_a_child_widget() {
    let src = "\
Panel
  $on:
    Button
    color: red
";
    let diags = analyze(src);
    assert!(
        diags.iter().all(|d| d.code != PROPERTY_AFTER_CHILD),
        "{diags:?}"
    );
}

#[test]
fn a_child_declared_with_an_explicit_base_also_counts_as_a_child() {
    let src = "\
MainWindow < UIWindow
  Label < UILabel
    id: title
  margin-bottom: 3
";
    let diags = analyze(src);
    let d = only(&diags, PROPERTY_AFTER_CHILD);
    assert_eq!(d.severity, Severity::Hint);
    assert_eq!(&src[d.span.start..d.span.end], "margin-bottom");
}

#[test]
fn a_top_level_style_declaration_is_not_a_child_widget() {
    let src = "\
Button < UIButton
  color: red

Label < UILabel
  color: blue
";
    let diags = analyze(src);
    assert!(
        diags.iter().all(|d| d.code != PROPERTY_AFTER_CHILD),
        "{diags:?}"
    );
}

#[test]
fn a_state_block_after_a_child_widget_is_silent() {
    let src = "\
Panel
  Button
    id: ok
  $on:
    color: red
";
    let diags = analyze(src);
    assert!(
        diags.iter().all(|d| d.code != PROPERTY_AFTER_CHILD),
        "{diags:?}"
    );
}

#[test]
fn nested_blocks_reset_the_seen_child_flag_independently() {
    // Both the outer widget (Panel) and the inner one (Button) have a property after their own
    // child — each block tracks its own "seen a child" state, so both fire independently.
    let src = "\
Panel
  Button
    id: ok
    Label
    icon-color: red
  margin-bottom: 3
";
    let diags = analyze(src);
    let flagged: Vec<&str> = diags
        .iter()
        .filter(|d| d.code == PROPERTY_AFTER_CHILD)
        .map(|d| &src[d.span.start..d.span.end])
        .collect();
    assert_eq!(flagged, vec!["icon-color", "margin-bottom"], "{diags:?}");
}

#[test]
fn a_widget_with_no_children_is_silent() {
    let src = "\
Panel
  id: main
  margin-bottom: 3
";
    let diags = analyze(src);
    assert!(
        diags.iter().all(|d| d.code != PROPERTY_AFTER_CHILD),
        "{diags:?}"
    );
}

#[test]
fn a_malformed_line_never_synthesizes_a_bogus_child_widget() {
    let src = "\
Label
  id: day
  anchors:top: parent.top
  height: 15
  text-align: topleft
";
    let diags = analyze(src);
    assert!(
        diags.iter().all(|d| d.code != PROPERTY_AFTER_CHILD),
        "{diags:?}"
    );
    assert!(
        diags.iter().any(|d| d.code == SYNTAX_ERROR),
        "the malformed line itself must still be a syntax error: {diags:?}"
    );
}

// --- semantic pass: anchor vs the parent's layout ------------------------------------------

#[test]
fn anchoring_under_a_non_anchor_layout_parent_is_an_error() {
    let src = "\
Panel
  layout:
    type: horizontalBox

  Button
    anchors.left: parent.left
";
    let diags = analyze(src);
    let d = only(&diags, ANCHOR_PARENT_NO_ANCHOR_LAYOUT);
    assert_eq!(d.severity, Severity::Error);
    assert_eq!(&src[d.span.start..d.span.end], "left");
}

#[test]
fn anchoring_under_the_leaf_layout_form_is_also_an_error() {
    let src = "Panel\n  layout: verticalBox\n  Button\n    anchors.top: parent.top\n";
    assert_eq!(
        only(&analyze(src), ANCHOR_PARENT_NO_ANCHOR_LAYOUT).severity,
        Severity::Error
    );
}

#[test]
fn anchoring_under_a_default_layout_parent_is_silent() {
    // Every widget defaults to UIAnchorLayout, so a parent with no `layout:` anchors fine.
    let src = "Panel\n  Button\n    anchors.left: parent.left\n";
    assert!(analyze(src).is_empty(), "{:?}", analyze(src));
}

#[test]
fn anchoring_under_an_explicit_anchor_layout_parent_is_silent() {
    let src = "Panel\n  layout:\n    type: anchor\n  Button\n    anchors.left: parent.left\n";
    assert!(analyze(src).is_empty(), "{:?}", analyze(src));
}

#[test]
fn a_top_level_widgets_anchors_are_not_judged() {
    // Its runtime parent is unknown (it depends on where the style is instantiated), so we
    // cannot know the parent's layout — stay silent rather than guess.
    let src = "Panel\n  anchors.fill: parent\n";
    assert!(analyze(src).is_empty(), "{:?}", analyze(src));
}

#[test]
fn a_variable_layout_type_does_not_trigger_the_anchor_check() {
    // `$var` resolves at runtime; we cannot know it is non-anchor, so we must not flag.
    let src =
        "Panel\n  layout:\n    type: $myLayout\n  Button\n    anchors.left: parent.left\n";
    assert!(
        analyze(src)
            .iter()
            .all(|d| d.code != ANCHOR_PARENT_NO_ANCHOR_LAYOUT),
        "{:?}",
        analyze(src)
    );
}

#[test]
fn the_anchoring_widgets_own_layout_does_not_matter() {
    let src = "\
Panel
  Button
    layout:
      type: grid
    anchors.left: parent.left
";
    assert!(
        analyze(src)
            .iter()
            .all(|d| d.code != ANCHOR_PARENT_NO_ANCHOR_LAYOUT),
        "{:?}",
        analyze(src)
    );
}

// --- semantic pass: `layout:` block keys ---------------------------------------------------

#[test]
fn layout_block_keys_are_not_unknown_properties() {
    let src = "\
Panel
  layout:
    type: grid
    cell-size: 32 32
    cell-spacing: 2
    num-columns: 4
    fit-children: true
    flow: true
";
    assert!(
        analyze(src).is_empty(),
        "a grid `layout:` block must be silent, got {:?}",
        analyze(src)
    );
}

#[test]
fn box_layout_block_keys_are_not_unknown_properties() {
    // The box family: `spacing`/`fit-children` from `UIBoxLayout`, `align-bottom` from
    // `UIVerticalLayout`, `align-right` from `UIHorizontalLayout`.
    let src = "\
Panel
  layout:
    type: verticalBox
    spacing: 4
    fit-children: true
    align-bottom: true
";
    assert!(analyze(src).is_empty(), "{:?}", analyze(src));
}

#[test]
fn real_otclient_layout_fixture_is_silent() {
    let src = "\
Panel
  layout:
    type: horizontalBox
    spacing: 8
";
    assert!(analyze(src).is_empty(), "{:?}", analyze(src));
}

#[test]
fn layout_leaf_form_still_works() {
    // The leaf form (`layout: <type>`) has no block, so it is value-validated as before.
    assert!(analyze("Panel\n  layout: verticalBox\n").is_empty());
    let diags = analyze("Panel\n  layout: bogusLayout\n");
    assert_eq!(
        only(&diags, INVALID_PROPERTY_VALUE).severity,
        Severity::Error
    );
}

#[test]
fn unknown_key_inside_layout_block_is_still_hinted() {
    let src = "Panel\n  layout:\n    type: grid\n    cell-siz: 32 32\n";
    let diags = analyze(src);
    let d = only(&diags, UNKNOWN_PROPERTY);
    assert_eq!(d.severity, Severity::Hint);
    assert_eq!(&src[d.span.start..d.span.end], "cell-siz");
}

#[test]
fn a_block_shaped_key_inside_a_layout_block_is_still_hinted() {
    // Every key a layout reads is a leaf, so a *container-form* key inside `layout:` is read by
    // nobody. The generic `has_block` skip (which exists for child-widget groups and list
    // parents) must not swallow it, or the layout check stops being exclusive.
    let src = "Panel\n  layout:\n    type: grid\n    bogus:\n      x: 1\n";
    let diags = analyze(src);
    let d = diags
        .iter()
        .find(|d| d.code == UNKNOWN_PROPERTY && &src[d.span.start..d.span.end] == "bogus")
        .unwrap_or_else(|| panic!("`bogus` must be hinted: {diags:?}"));
    assert_eq!(d.severity, Severity::Hint);
}

#[test]
fn layout_key_at_widget_level_is_still_unknown() {
    // The layout catalog is exclusive to the block: a bare `cell-size:` on a widget is read by
    // nobody, so it remains an unknown property.
    let src = "Panel\n  cell-size: 32 32\n";
    let diags = analyze(src);
    let d = only(&diags, UNKNOWN_PROPERTY);
    assert_eq!(d.severity, Severity::Hint);
    assert_eq!(&src[d.span.start..d.span.end], "cell-size");
}

#[test]
fn value_families_are_not_validated_inside_a_layout_block() {
    let src = "Panel\n  layout:\n    type: grid\n    display: bogus\n";
    let diags = analyze(src);
    assert!(
        diags.iter().all(|d| d.code != INVALID_PROPERTY_VALUE),
        "a key inside a layout block must not be value-validated, got {diags:?}"
    );
    assert_eq!(only(&diags, UNKNOWN_PROPERTY).severity, Severity::Hint);
}

// --- semantic pass: invalid property value (error) ----------------------------------------

#[test]
fn valid_display_value_is_silent() {
    let src = "Panel\n  display: flex\n";
    let diags = analyze(src);
    assert!(
        diags.iter().all(|d| d.code != INVALID_PROPERTY_VALUE),
        "valid display must not be flagged: {diags:?}"
    );
}

#[test]
fn invalid_display_value_is_an_error_on_the_value() {
    let src = "Panel\n  display: blocky\n";
    let diags = analyze(src);
    let d = only(&diags, INVALID_PROPERTY_VALUE);
    assert_eq!(d.severity, Severity::Error);
    assert_eq!(&src[d.span.start..d.span.end], "blocky");
}

#[test]
fn miscased_display_value_is_accepted() {
    let src = "Panel\n  display: Flex\n";
    let diags = analyze(src);
    assert!(
        diags.iter().all(|d| d.code != INVALID_PROPERTY_VALUE),
        "case-insensitive display value must not be flagged: {diags:?}"
    );
}

#[test]
fn valid_layout_leaf_value_is_silent() {
    let src = "Panel\n  layout: verticalBox\n";
    let diags = analyze(src);
    assert!(
        diags.iter().all(|d| d.code != INVALID_PROPERTY_VALUE),
        "valid layout must not be flagged: {diags:?}"
    );
}

#[test]
fn invalid_layout_leaf_value_is_an_error_on_the_value() {
    let src = "Panel\n  layout: bogusBox\n";
    let diags = analyze(src);
    let d = only(&diags, INVALID_PROPERTY_VALUE);
    assert_eq!(d.severity, Severity::Error);
    assert_eq!(&src[d.span.start..d.span.end], "bogusBox");
}

#[test]
fn miscased_layout_type_is_an_error() {
    let src = "Panel\n  layout: verticalbox\n";
    let diags = analyze(src);
    let d = only(&diags, INVALID_PROPERTY_VALUE);
    assert_eq!(&src[d.span.start..d.span.end], "verticalbox");
}

#[test]
fn valid_layout_block_type_is_silent() {
    let src = "\
Panel
  layout:
    type: grid
    cell-size: 32 32
";
    let diags = analyze(src);
    assert!(
        diags.iter().all(|d| d.code != INVALID_PROPERTY_VALUE),
        "valid block-form layout must not be flagged: {diags:?}"
    );
}

#[test]
fn invalid_layout_block_type_is_an_error_on_the_type_value() {
    let src = "\
Panel
  layout:
    type: bogusBox
";
    let diags = analyze(src);
    let d = only(&diags, INVALID_PROPERTY_VALUE);
    assert_eq!(d.severity, Severity::Error);
    assert_eq!(&src[d.span.start..d.span.end], "bogusBox");
}

#[test]
fn layout_block_without_type_is_not_an_error() {
    let src = "\
Panel
  layout:
    cell-size: 32 32
";
    let diags = analyze(src);
    assert!(
        diags.iter().all(|d| d.code != INVALID_PROPERTY_VALUE),
        "typeless layout block must not be flagged: {diags:?}"
    );
}

#[test]
fn valid_border_shorthand_is_silent() {
    let src = "Panel\n  border: 2 solid red\n";
    let diags = analyze(src);
    assert!(
        diags.iter().all(|d| d.code != INVALID_PROPERTY_VALUE),
        "valid border must not be flagged: {diags:?}"
    );
}

#[test]
fn border_none_keyword_is_silent() {
    let src = "Panel\n  border: none\n";
    let diags = analyze(src);
    assert!(
        diags.iter().all(|d| d.code != INVALID_PROPERTY_VALUE),
        "`border: none` must not be flagged: {diags:?}"
    );
}

#[test]
fn border_with_only_a_color_is_an_error() {
    let src = "Panel\n  border: red\n";
    let diags = analyze(src);
    let d = only(&diags, INVALID_PROPERTY_VALUE);
    assert_eq!(d.severity, Severity::Error);
    assert_eq!(&src[d.span.start..d.span.end], "red");
}

#[test]
fn border_with_only_a_width_is_an_error() {
    let src = "Panel\n  border: 3\n";
    let diags = analyze(src);
    let d = only(&diags, INVALID_PROPERTY_VALUE);
    assert_eq!(d.severity, Severity::Error);
    assert_eq!(&src[d.span.start..d.span.end], "3");
}

#[test]
fn valid_border_color_is_silent() {
    let src = "Panel\n  border-color: #ff0000\n";
    let diags = analyze(src);
    assert!(
        diags.iter().all(|d| d.code != INVALID_PROPERTY_VALUE),
        "valid border-color must not be flagged: {diags:?}"
    );
}

#[test]
fn invalid_border_color_is_an_error() {
    let src = "Panel\n  border-color-top: notacolor\n";
    let diags = analyze(src);
    let d = only(&diags, INVALID_PROPERTY_VALUE);
    assert_eq!(d.severity, Severity::Error);
    assert_eq!(&src[d.span.start..d.span.end], "notacolor");
}

#[test]
fn nonnumeric_border_width_is_not_validated() {
    let src = "Panel\n  border-width: fat\n";
    let diags = analyze(src);
    assert!(
        diags.iter().all(|d| d.code != INVALID_PROPERTY_VALUE),
        "border-width is not value-validated: {diags:?}"
    );
}

#[test]
fn ordinary_property_with_a_weird_value_is_not_a_value_error() {
    let src = "Panel\n  width: not-a-number\n";
    let diags = analyze(src);
    assert!(
        diags.iter().all(|d| d.code != INVALID_PROPERTY_VALUE),
        "non-validating property value must not be flagged: {diags:?}"
    );
}

#[test]
fn value_validation_only_fires_for_the_named_properties() {
    // A mis-cased `Display` is an unknown property (a hint), not value-validated even though its
    // value would be invalid for the real `display` property.
    let src = "Panel\n  Display: blocky\n";
    let diags = analyze(src);
    assert!(
        diags.iter().all(|d| d.code != INVALID_PROPERTY_VALUE),
        "mis-cased property must not be value-validated: {diags:?}"
    );
}

#[test]
fn bad_color_value_is_an_error_on_every_color_property() {
    for key in ["color", "background", "background-color", "icon-color"] {
        let src = format!("Panel\n  {key}: notacolor\n");
        let diags = analyze(&src);
        let d = only(&diags, INVALID_PROPERTY_VALUE);
        assert_eq!(d.severity, Severity::Error);
        assert_eq!(&src[d.span.start..d.span.end], "notacolor", "for `{key}`");
    }
}

#[test]
fn valid_color_on_a_plain_color_property_is_silent() {
    for src in [
        "Panel\n  color: #ff0000\n",
        "Panel\n  background-color: red\n",
    ] {
        let diags = analyze(src);
        assert!(
            diags.iter().all(|d| d.code != INVALID_PROPERTY_VALUE),
            "valid color must not be flagged: {diags:?}"
        );
    }
}

#[test]
fn a_color_list_value_is_flagged_because_the_engine_cannot_cast_it() {
    // OTML parses `color: [red, #00ff00]` into child nodes (otmlparser `writeIn`), leaving the
    // color node's own value empty, so `node->value<Color>()` casts "" and throws. A color
    // property takes a single color, never a list — so the whole `[...]` token is an error.
    for src in [
        "Panel\n  color: [red, #00ff00]\n",
        "Panel\n  background-color: [red, blue]\n",
    ] {
        let diags = analyze(src);
        let d = only(&diags, INVALID_PROPERTY_VALUE);
        assert_eq!(d.severity, Severity::Error);
        let flagged = &src[d.span.start..d.span.end];
        assert!(
            flagged.starts_with('[') && flagged.ends_with(']'),
            "flags the list: {flagged:?}"
        );
        assert!(
            d.message.contains("single color, not a list"),
            "message: {}",
            d.message
        );
    }
}

#[test]
fn a_variable_reference_value_is_never_flagged() {
    for src in [
        "Panel\n  color: $textColor\n",
        "Panel\n  background-color: $bg\n",
        "Panel\n  display: $mode\n",
        "Panel\n  layout: $l\n",
        "Panel\n  border-color: $c\n",
    ] {
        let diags = analyze(src);
        assert!(
            diags.iter().all(|d| d.code != INVALID_PROPERTY_VALUE),
            "a $var value must not be flagged: {src:?} -> {diags:?}"
        );
    }
}

#[test]
fn dotless_anchor_target_on_a_real_edge_is_an_error() {
    let src = "Widget\n  anchors.left: parent\n";
    let diags = analyze(src);
    let d = only(&diags, INVALID_ANCHOR_EDGE);
    assert_eq!(d.severity, Severity::Error);
    assert!(&src[d.span.start..d.span.end] == "parent");
}

#[test]
fn multidot_anchor_target_is_an_error() {
    let src = "Widget\n  anchors.top: parent.top.bottom\n";
    let diags = analyze(src);
    let d = only(&diags, INVALID_ANCHOR_EDGE);
    assert_eq!(&src[d.span.start..d.span.end], "parent.top.bottom");
}

#[test]
fn valid_and_exempt_anchor_targets_are_silent() {
    // `id.edge` targets, `none`, and the fill/centerIn shorthands (plain target) are all fine.
    for src in [
        "Widget\n  anchors.top: parent.top\n",
        "Widget\n  anchors.left: sibling.right\n",
        "Widget\n  anchors.bottom: none\n",
        "Widget\n  anchors.fill: parent\n",
        "Widget\n  anchors.centerIn: parent\n",
    ] {
        let diags = analyze(src);
        assert!(
            diags.iter().all(|d| d.code != INVALID_ANCHOR_EDGE),
            "must be silent: {src:?} -> {diags:?}"
        );
    }
}

#[test]
fn tab_indented_comment_is_flagged() {
    let src = "Panel\n\t// note\n";
    assert_eq!(codes(&analyze(src)), vec![TAB_INDENTATION]);
}

#[test]
fn odd_indented_comment_is_flagged() {
    let src = "Panel\n   # note\n"; // 3 spaces
    assert_eq!(codes(&analyze(src)), vec![ODD_INDENTATION]);
}

#[test]
fn a_validly_indented_comment_is_silent() {
    let src = "Panel\n  // fine\n  id: main\n";
    assert!(analyze(src).is_empty(), "{:?}", analyze(src));
}

// --- widget-aware unknown property (Lua-added style properties) ----------------------------

/// A [`StyleIndex`] built from `(doc, otui_source)` pairs.
fn styles(docs: &[(&str, &str)]) -> StyleIndex {
    let mut index = StyleIndex::new();
    for (doc, src) in docs {
        let tree = SyntaxTree::parse(src).expect("parse otui");
        index.set_document(*doc, extract_style_defs(&tree));
    }
    index
}

/// A [`LuaWidgetIndex`] built from `(doc, lua_source)` pairs.
fn lua(docs: &[(&str, &str)]) -> LuaWidgetIndex {
    let mut index = LuaWidgetIndex::new();
    for (doc, src) in docs {
        index.set_document(*doc, scan_widgets(src));
    }
    index
}

/// The `uitable.lua` shape used across the widget-aware tests: `UITable` extends `UIWidget` and
/// declares `column-style` in its `onStyleApply`.
const UITABLE_LUA: &str = "\
UITable = extends(UIWidget, 'UITable')

function UITable:onStyleApply(styleName, styleNode)
  for name, value in pairs(styleNode) do
    if name == 'column-style' then
    end
  end
end
";

#[test]
fn lua_property_on_a_matching_style_header_is_accepted() {
    // `column-style` is not a C++ catalog property, but on a `< UITable` header it is a valid
    // Lua-added property, so no hint.
    let styles = styles(&[]);
    let lua = lua(&[("uitable.lua", UITABLE_LUA)]);
    let ctx = WidgetContext {
        styles: &styles,
        lua: &lua,
    };
    let src = "Table < UITable\n  column-style: SomeColumn\n";
    let diags = analyze_with_widgets(src, &ctx);
    assert!(
        diags.iter().all(|d| d.code != UNKNOWN_PROPERTY),
        "column-style on a UITable must be accepted: {diags:?}"
    );
}

#[test]
fn lua_property_on_a_widget_instance_tag_is_accepted_cross_file() {
    // The property sits on a nested `Table` container whose type resolves cross-file
    // (`Table < UITable`, defined in the workspace index) to the native UITable.
    let styles = styles(&[("lib.otui", "Table < UITable\n")]);
    let lua = lua(&[("uitable.lua", UITABLE_LUA)]);
    let ctx = WidgetContext {
        styles: &styles,
        lua: &lua,
    };
    let src = "\
Window < UIWindow
  Table
    column-style: SomeColumn
";
    let diags = analyze_with_widgets(src, &ctx);
    assert!(
        diags.iter().all(|d| d.code != UNKNOWN_PROPERTY),
        "column-style on a Table instance must be accepted: {diags:?}"
    );
}

#[test]
fn lua_property_on_an_unrelated_widget_still_hints() {
    // `column-style` on a Button (which does not descend from UITable) is still unknown.
    let styles = styles(&[]);
    let lua = lua(&[("uitable.lua", UITABLE_LUA)]);
    let ctx = WidgetContext {
        styles: &styles,
        lua: &lua,
    };
    let src = "Button < UIButton\n  column-style: SomeColumn\n";
    let diags = analyze_with_widgets(src, &ctx);
    let d = only(&diags, UNKNOWN_PROPERTY);
    assert_eq!(d.severity, Severity::Hint);
    assert_eq!(&src[d.span.start..d.span.end], "column-style");
}

#[test]
fn genuinely_misspelled_property_still_hints_with_context() {
    // A real typo (`widht`) is unknown to both the catalog and the widget's Lua ancestry.
    let styles = styles(&[]);
    let lua = lua(&[("uitable.lua", UITABLE_LUA)]);
    let ctx = WidgetContext {
        styles: &styles,
        lua: &lua,
    };
    let src = "Table < UITable\n  widht: 10\n";
    let diags = analyze_with_widgets(src, &ctx);
    let d = only(&diags, UNKNOWN_PROPERTY);
    assert_eq!(&src[d.span.start..d.span.end], "widht");
}

#[test]
fn a_class_reroot_applies_inside_the_declaring_styles_own_body() {
    let styles = styles(&[(
        "a.otui",
        "TextEdit < UITextEdit\nSpinBox < TextEdit\n  __class: UISpinBox\n",
    )]);
    let lua = lua(&[(
        "s.lua",
        "UISpinBox = extends(UITextEdit, 'UISpinBox')\n\
             function UISpinBox:onStyleApply(styleName, styleNode)\n\
               for name, value in pairs(styleNode) do\n\
                 if name == 'minimum' then self:setMinimum(value) end\n\
               end\n\
             end\n",
    )]);
    let ctx = WidgetContext {
        styles: &styles,
        lua: &lua,
    };

    let src = "SpinBox < TextEdit\n  __class: UISpinBox\n  minimum: 0\n";
    assert!(
        analyze_with_widgets(src, &ctx).is_empty(),
        "{:?}",
        analyze_with_widgets(src, &ctx)
    );

    // Still exclusive: the same property on the *base* style is not valid there.
    let base_src = "TextEdit < UITextEdit\n  minimum: 0\n";
    assert_eq!(
        only(&analyze_with_widgets(base_src, &ctx), UNKNOWN_PROPERTY).severity,
        Severity::Hint
    );
}

#[test]
fn an_unindexed_style_header_still_resolves_through_its_base() {
    let styles = styles(&[]); // `Table` is deliberately NOT indexed
    let lua = lua(&[(
        "t.lua",
        "UITable = extends(UIWidget, 'UITable')\n\
             function UITable:onStyleApply(styleName, styleNode)\n\
               for name, value in pairs(styleNode) do\n\
                 if name == 'column-style' then self:setColumnStyle(value) end\n\
               end\n\
             end\n",
    )]);
    let ctx = WidgetContext {
        styles: &styles,
        lua: &lua,
    };

    let src = "Table < UITable\n  column-style: SomeColumn\n";
    assert!(
        analyze_with_widgets(src, &ctx).is_empty(),
        "must fall back to the base: {:?}",
        analyze_with_widgets(src, &ctx)
    );
}

#[test]
fn empty_context_degrades_to_catalog_only() {
    // With no styles and no Lua widgets, a Lua-added property is (correctly) still just a hint —
    // identical to catalog-only `analyze`.
    let styles = styles(&[]);
    let lua = lua(&[]);
    let ctx = WidgetContext {
        styles: &styles,
        lua: &lua,
    };
    let src = "Table < UITable\n  column-style: SomeColumn\n";
    let with = analyze_with_widgets(src, &ctx);
    let without = analyze(src);
    assert_eq!(
        only(&with, UNKNOWN_PROPERTY).span,
        only(&without, UNKNOWN_PROPERTY).span
    );
}

#[test]
fn a_base_that_resolves_in_the_workspace_index_is_silent() {
    let styles = styles(&[("a.otui", "Base < UIWidget\n")]);
    let lua = lua(&[]);
    let ctx = WidgetContext {
        styles: &styles,
        lua: &lua,
    };
    let src = "Derived < Base\n";
    let diags = analyze_with_widgets(src, &ctx);
    assert!(diags.iter().all(|d| d.code != UNKNOWN_BASE), "{diags:?}");
}

#[test]
fn a_native_ui_prefixed_base_is_never_flagged() {
    let styles = styles(&[]);
    let lua = lua(&[]);
    let ctx = WidgetContext {
        styles: &styles,
        lua: &lua,
    };
    let src = "MainWindow < UIWindow\n";
    let diags = analyze_with_widgets(src, &ctx);
    assert!(diags.iter().all(|d| d.code != UNKNOWN_BASE), "{diags:?}");
}

#[test]
fn a_base_declared_only_in_lua_is_not_flagged() {
    // A widget class whose only declaration is a Lua module (an `extends` line with no
    // `.otui` `Name < Base`, and not a `UI*`-prefixed name) must still resolve.
    let styles = styles(&[]);
    let lua = lua(&[("w.lua", "MyThing = extends(UIWidget, 'MyThing')\n")]);
    let ctx = WidgetContext {
        styles: &styles,
        lua: &lua,
    };
    let src = "Derived < MyThing\n";
    let diags = analyze_with_widgets(src, &ctx);
    assert!(diags.iter().all(|d| d.code != UNKNOWN_BASE), "{diags:?}");
}

#[test]
fn a_dangling_base_is_a_warning_on_the_base_token_span() {
    let styles = styles(&[]);
    let lua = lua(&[]);
    let ctx = WidgetContext {
        styles: &styles,
        lua: &lua,
    };
    let src = "Derived < Nonexistent\n";
    let diags = analyze_with_widgets(src, &ctx);
    let d = only(&diags, UNKNOWN_BASE);
    assert_eq!(d.severity, Severity::Warning);
    assert_eq!(&src[d.span.start..d.span.end], "Nonexistent");
}

#[test]
fn a_dangling_base_nested_in_a_widget_body_is_not_flagged() {
    // Only *top-level* `Name < Base` headers are style declarations; a nested one is a
    // child-widget instance, out of scope for this check.
    let styles = styles(&[]);
    let lua = lua(&[]);
    let ctx = WidgetContext {
        styles: &styles,
        lua: &lua,
    };
    let src = "MainWindow < UIWindow\n  Inner < NoSuchBase\n";
    let diags = analyze_with_widgets(src, &ctx);
    assert!(diags.iter().all(|d| d.code != UNKNOWN_BASE), "{diags:?}");
}

#[test]
fn a_style_only_file_with_no_root_instance_is_silent() {
    let styles = styles(&[]);
    let lua = lua(&[]);
    let ctx = WidgetContext {
        styles: &styles,
        lua: &lua,
    };
    let src = "MainWindow < UIWindow\nButton < UIButton\n";
    let diags = analyze_with_widgets(src, &ctx);
    assert!(
        diags.iter().all(|d| d.code != UNKNOWN_ROOT_STYLE),
        "{diags:?}"
    );
}

#[test]
fn the_root_instance_resolving_is_silent() {
    let styles = styles(&[("a.otui", "Base < UIWidget\n")]);
    let lua = lua(&[]);
    let ctx = WidgetContext {
        styles: &styles,
        lua: &lua,
    };
    let src = "Base\n  id: main\n";
    let diags = analyze_with_widgets(src, &ctx);
    assert!(
        diags.iter().all(|d| d.code != UNKNOWN_ROOT_STYLE),
        "{diags:?}"
    );
}

#[test]
fn an_unresolved_root_instance_is_an_error_on_the_tag_span() {
    let styles = styles(&[]);
    let lua = lua(&[]);
    let ctx = WidgetContext {
        styles: &styles,
        lua: &lua,
    };
    let src = "NoSuchWidget\n  id: main\n";
    let diags = analyze_with_widgets(src, &ctx);
    let d = only(&diags, UNKNOWN_ROOT_STYLE);
    assert_eq!(d.severity, Severity::Error);
    assert_eq!(&src[d.span.start..d.span.end], "NoSuchWidget");
}

#[test]
fn a_native_root_instance_is_never_flagged() {
    let styles = styles(&[]);
    let lua = lua(&[]);
    let ctx = WidgetContext {
        styles: &styles,
        lua: &lua,
    };
    let src = "UIWidget\n  id: main\n";
    let diags = analyze_with_widgets(src, &ctx);
    assert!(
        diags.iter().all(|d| d.code != UNKNOWN_ROOT_STYLE),
        "{diags:?}"
    );
}

#[test]
fn plain_analyze_without_a_workspace_context_never_produces_style_resolution_diagnostics() {
    let src = "Derived < Nonexistent\nNoSuchWidget\n  id: main\n";
    let diags = analyze(src);
    assert!(
        diags
            .iter()
            .all(|d| d.code != UNKNOWN_BASE && d.code != UNKNOWN_ROOT_STYLE),
        "{diags:?}"
    );
}

#[test]
fn a_dangling_base_on_a_declaration_with_a_body_is_still_flagged() {
    let styles = styles(&[]);
    let lua = lua(&[]);
    let ctx = WidgetContext {
        styles: &styles,
        lua: &lua,
    };
    let src = "Derived < Nonexistent\n  id: x\n  color: red\n";
    let diags = analyze_with_widgets(src, &ctx);
    let d = only(&diags, UNKNOWN_BASE);
    assert_eq!(d.severity, Severity::Warning);
    assert_eq!(&src[d.span.start..d.span.end], "Nonexistent");
}
