use otui_core::catalog;
use otui_core::completion::{
    child_widget_snippet, complete_at, complete_at_with_widgets, property_key_snippet,
    snippet_escape,
};
use otui_core::lang_api::{CompletionItem, CompletionKind, InsertFormat};
use otui_core::lua_widgets::{LuaWidgetIndex, scan_widgets};
use otui_core::schema;
use otui_core::style_index::{StyleIndex, extract_style_defs};
use otui_core::syntax::SyntaxTree;

/// Byte offset of the first occurrence of `needle` in `src` (panics if absent).
fn at(src: &str, needle: &str) -> usize {
    src.find(needle).expect("needle present")
}

/// The labels of the returned items, in order — the determinism surface the tests assert on.
fn labels(items: &[CompletionItem]) -> Vec<String> {
    items.iter().map(|i| i.label.clone()).collect()
}

#[test]
fn cursor_after_dollar_offers_all_states() {
    let src = "Button\n  $\n";
    let offset = at(src, "$") + 1; // just past the `$`
    let items = complete_at(src, offset);
    assert_eq!(labels(&items), &schema::STATES);
    assert!(items.iter().all(|i| i.kind == CompletionKind::EnumMember));
}

#[test]
fn partial_state_word_still_offers_the_whole_set() {
    let src = "Button\n  $ho\n";
    let offset = at(src, "$ho") + 3;
    assert_eq!(labels(&complete_at(src, offset)), &schema::STATES);
}

#[test]
fn cursor_after_negation_in_a_multi_state_selector_offers_states() {
    let src = "Button\n  $hover !\n";
    let offset = at(src, "!") + 1;
    assert_eq!(labels(&complete_at(src, offset)), &schema::STATES);
}

#[test]
fn cursor_after_anchors_dot_offers_edges_and_shorthands() {
    let src = "Widget\n  anchors.\n";
    let offset = at(src, "anchors.") + "anchors.".len();
    let mut expected: Vec<&str> = schema::ANCHOR_EDGES.to_vec();
    expected.extend_from_slice(&schema::SHORTHAND_ANCHORS);
    assert_eq!(labels(&complete_at(src, offset)), expected);
    assert!(
        complete_at(src, offset)
            .iter()
            .all(|i| i.kind == CompletionKind::EnumMember)
    );
}

#[test]
fn cursor_at_anchor_value_start_offers_magic_targets() {
    let src = "Widget\n  anchors.top: \n";
    let offset = at(src, "anchors.top: ") + "anchors.top: ".len();
    let items = complete_at(src, offset);
    assert_eq!(labels(&items), &schema::MAGIC_ANCHOR_TARGETS);
    assert!(items.iter().all(|i| i.kind == CompletionKind::Value));
}

#[test]
fn cursor_after_target_dot_in_anchor_value_offers_edges() {
    let src = "Widget\n  anchors.top: parent.\n";
    let offset = at(src, "parent.") + "parent.".len();
    let items = complete_at(src, offset);
    assert_eq!(labels(&items), &schema::ANCHOR_EDGES);
    assert!(items.iter().all(|i| i.kind == CompletionKind::EnumMember));
}

#[test]
fn cursor_after_at_offers_events() {
    let src = "Button\n  @\n";
    let offset = at(src, "@") + 1;
    let items = complete_at(src, offset);
    assert_eq!(labels(&items), &schema::EVENTS);
    assert!(items.iter().all(|i| i.kind == CompletionKind::Event));
}

#[test]
fn partial_event_word_still_offers_the_whole_set() {
    let src = "Button\n  @onCl\n";
    let offset = at(src, "@onCl") + "@onCl".len();
    assert_eq!(labels(&complete_at(src, offset)), &schema::EVENTS);
}

#[test]
fn freeform_property_value_offers_nothing() {
    // A freeform value (an arbitrary string) has no closed set to complete.
    let src = "Widget\n  text: hel\n";
    assert!(complete_at(src, at(src, "hel") + 1).is_empty());
}

#[test]
fn value_position_for_display_offers_the_display_values() {
    let src = "Widget\n  display: fl\n";
    assert_eq!(
        labels(&complete_at(src, at(src, "fl") + 2)),
        &schema::DISPLAY_VALUES
    );
}

#[test]
fn value_position_right_after_the_colon_offers_the_whole_set() {
    let src = "Widget\n  layout:\n";
    let off = at(src, "layout:") + "layout:".len();
    assert_eq!(labels(&complete_at(src, off)), &schema::LAYOUT_TYPES);
}

// --- `layout:` block completion --------------------------------------------------------------

#[test]
fn key_slot_inside_a_layout_block_offers_the_layout_property_set() {
    // Cursor building a bare key nested under a `layout:` header: the block's own closed key
    // set (never the global catalog nor child-widget names — a layout block holds no widgets).
    let src = "Panel\n  layout:\n    fit\n";
    let items = complete_at(src, at(src, "fit") + "fit".len());
    assert_eq!(labels(&items), &catalog::LAYOUT_PROPERTIES);
    assert!(items.iter().all(|i| i.kind == CompletionKind::Keyword));
    assert!(
        items
            .iter()
            .all(|i| i.detail.as_deref() == Some("layout property"))
    );
}

#[test]
fn empty_key_slot_inside_a_layout_block_offers_the_layout_property_set() {
    let src = "Panel\n  layout:\n    fit\n";
    let off = at(src, "fit"); // cursor right before the word
    assert_eq!(labels(&complete_at(src, off)), &catalog::LAYOUT_PROPERTIES);
}

#[test]
fn layout_block_key_snippet_continues_into_the_value_slot() {
    let src = "Panel\n  layout:\n    fit\n";
    let items = complete_at(src, at(src, "fit") + "fit".len());
    let fit = items
        .iter()
        .find(|i| i.label == "fit-children")
        .expect("fit-children offered");
    assert_eq!(fit.insert_text.as_deref(), Some("fit-children: $0"));
    assert_eq!(fit.insert_format, InsertFormat::Snippet);
}

#[test]
fn layout_block_type_value_offers_the_four_layout_types() {
    let src = "Panel\n  layout:\n    type: ver\n";
    let items = complete_at(src, at(src, "ver") + "ver".len());
    assert_eq!(labels(&items), &schema::LAYOUT_TYPES);
    assert!(items.iter().all(|i| i.kind == CompletionKind::EnumMember));
}

#[test]
fn layout_block_boolean_keys_offer_true_and_false() {
    for key in [
        "fit-children",
        "align-right",
        "align-bottom",
        "auto-spacing",
        "flow",
    ] {
        let src = format!("Panel\n  layout:\n    {key}: t\n");
        let items = complete_at(&src, at(&src, "t\n") + 1);
        assert_eq!(labels(&items), ["true", "false"], "{key}");
    }
}

#[test]
fn layout_block_numeric_key_offers_no_value() {
    // `spacing`, the cell-* keys and num-columns/num-lines are free numeric/dimension input —
    // never fabricated.
    for key in [
        "spacing",
        "cell-size",
        "cell-width",
        "cell-height",
        "cell-spacing",
        "num-columns",
        "num-lines",
    ] {
        let src = format!("Panel\n  layout:\n    {key}: 1\n");
        let items = complete_at(&src, at(&src, "1\n") + 1);
        assert!(items.is_empty(), "{key} must offer no value completion");
    }
}

#[test]
fn layout_shorthand_value_is_unaffected_by_the_block_context() {
    let src = "Widget\n  layout: ver\n";
    let items = complete_at(src, at(src, "ver") + "ver".len());
    assert_eq!(labels(&items), &schema::LAYOUT_TYPES);
}

#[test]
fn layout_block_child_at_a_sibling_property_indent_is_not_mistaken_for_the_block() {
    // A property at the SAME indentation as `layout:` (a sibling, not a child) must not be
    // routed into the layout-block key set.
    let src = "Panel\n  layout:\n    type: grid\n  wid\n";
    let items = complete_at(src, at(src, "wid") + "wid".len());
    assert_eq!(labels(&items), &catalog::PROPERTIES);
}

#[test]
fn nested_widget_after_a_layout_block_is_not_mistaken_for_the_block() {
    let src = "Panel\n  layout:\n    type: grid\n  Child\n    wid\n";
    let items = complete_at(src, at(src, "wid") + "wid".len());
    assert_eq!(labels(&items), &catalog::PROPERTIES);
}

#[test]
fn a_layout_header_with_both_a_shorthand_value_and_block_children_still_opens_the_block() {
    let src = "Panel\n  layout: verticalBox\n    spa\n";
    let items = complete_at(src, at(src, "spa") + "spa".len());
    assert_eq!(labels(&items), &catalog::LAYOUT_PROPERTIES);
}

#[test]
fn value_position_for_a_boolean_property_offers_true_and_false() {
    let src = "Widget\n  enabled:\n";
    let off = at(src, "enabled:") + "enabled:".len();
    let items = complete_at(src, off);
    assert_eq!(labels(&items), ["true", "false"]);
    assert!(items.iter().all(|i| i.kind == CompletionKind::Value));
}

#[test]
fn value_position_for_the_flexbox_and_alignment_enums_offers_their_keywords() {
    let src = "Widget\n  text-align: ce\n";
    assert_eq!(
        labels(&complete_at(src, at(src, "ce\n") + 2)),
        &schema::ALIGNMENT_VALUES
    );
    let src = "Widget\n  overflow: hi\n";
    assert_eq!(
        labels(&complete_at(src, at(src, "hi\n") + 2)),
        &schema::OVERFLOW_VALUES
    );
}

#[test]
fn value_position_for_the_second_batch_of_keyword_enums_offers_their_keywords() {
    let cases: &[(&str, &'static [&'static str])] = &[
        ("flex-wrap: no", &schema::FLEX_WRAP_VALUES),
        ("align-content: ce", &schema::ALIGN_CONTENT_VALUES),
        ("align-self: au", &schema::ALIGN_SELF_VALUES),
        ("position: ab", &schema::POSITION_VALUES),
        ("float: le", &schema::FLOAT_VALUES),
        ("clear: bo", &schema::CLEAR_VALUES),
        ("justify-items: ce", &schema::JUSTIFY_ITEMS_VALUES),
        ("auto-focus: fi", &schema::AUTO_FOCUS_VALUES),
    ];
    for (line, values) in cases {
        let src = format!("Widget\n  {line}\n");
        let offset = at(&src, line) + line.len();
        assert_eq!(labels(&complete_at(&src, offset)), *values, "{line}");
    }
}

#[test]
fn an_unverified_property_still_offers_no_values() {
    // `min-width` is a known catalog property but carries no audited value kind: it must not
    // spuriously gain a completion set.
    let src = "Widget\n  min-width: ab\n";
    assert!(complete_at(src, at(src, "ab\n") + 2).is_empty());
}

#[test]
fn value_position_for_a_color_property_offers_named_colors() {
    let src = "Widget\n  color: re\n";
    let items = complete_at(src, at(src, "re\n") + 2);
    assert!(
        items.iter().any(|i| i.label == "red"),
        "named colors offered"
    );
    assert!(items.iter().all(|i| i.kind == CompletionKind::Value));
    // A different color property (background-color) also offers colors.
    let src2 = "Widget\n  background-color: wh\n";
    assert!(
        complete_at(src2, at(src2, "wh") + 2)
            .iter()
            .any(|i| i.label == "white")
    );
}

#[test]
fn value_completion_honors_the_indentation_gate() {
    // A 3-space (odd) indent is a hard OTML error; no value is offered on such a line.
    let src = "Widget\n   display: fl\n";
    assert!(complete_at(src, at(src, "fl") + 2).is_empty());
}

#[test]
fn event_value_position_offers_nothing() {
    // After the `@event:` colon the value is embedded Lua — explicitly out of scope.
    let src = "Button\n  @onClick: foo\n";
    assert!(complete_at(src, at(src, "foo") + 1).is_empty());
}

#[test]
fn generic_dotted_key_is_not_an_anchor() {
    // Only the literal `anchors.` object is an anchor; `foo.left:` is a generic property.
    let src = "Widget\n  foo.\n";
    assert!(complete_at(src, at(src, "foo.") + "foo.".len()).is_empty());
}

#[test]
fn value_dollar_reference_offers_nothing() {
    // A `$var` value is a variable reference, not a literal from the property's fixed set, so the
    // value branch suppresses it (even for a color property that would otherwise offer colors).
    let src = "Widget\n  color: $pri\n";
    assert!(complete_at(src, at(src, "$pri") + "$pri".len()).is_empty());
}

#[test]
fn a_completed_value_followed_by_whitespace_offers_nothing() {
    // The value sets are single-token, so after a completed value the branch stops offering —
    // no re-offering of the whole set on a trailing space or a second token.
    let src = "Widget\n  color: red \n";
    assert!(complete_at(src, at(src, "red ") + "red ".len()).is_empty());
    let src2 = "Widget\n  color: red gr\n";
    assert!(complete_at(src2, at(src2, "gr\n") + 2).is_empty());
}

#[test]
fn inside_a_block_scalar_body_offers_nothing() {
    // A `|` block body is raw Lua: a line starting with `$` there is not a state selector.
    let src = "Button\n  @onClick: |\n    $foo\n";
    let offset = at(src, "$foo") + 1;
    assert!(complete_at(src, offset).is_empty());
}

#[test]
fn inside_a_full_line_comment_offers_nothing() {
    let src = "Button\n  // $hover\n";
    let offset = at(src, "$hover") + 1;
    assert!(complete_at(src, offset).is_empty());
}

#[test]
fn tab_indented_line_offers_nothing() {
    // Tab indentation is a hard OTML parse error; no closed set may be offered on such a line.
    let src = "Button\n\t$hover\n";
    let offset = at(src, "$") + 1;
    assert!(complete_at(src, offset).is_empty());
}

#[test]
fn complete_event_name_followed_by_space_offers_nothing() {
    let src = "Button\n  @onClick \n";
    let offset = at(src, "@onClick ") + "@onClick ".len();
    assert!(complete_at(src, offset).is_empty());
}

#[test]
fn complete_anchor_target_followed_by_space_offers_nothing() {
    let src = "Widget\n  anchors.top: parent \n";
    let offset = at(src, "parent ") + "parent ".len();
    assert!(complete_at(src, offset).is_empty());
}

#[test]
fn still_building_tokens_keep_offering_their_sets() {
    // Partial tokens (the cursor actively building them) still get the whole set.
    let src = "Button\n  @onCl\n";
    assert_eq!(
        labels(&complete_at(src, at(src, "@onCl") + "@onCl".len())),
        &schema::EVENTS
    );

    let src = "Button\n  $hov\n";
    assert_eq!(
        labels(&complete_at(src, at(src, "$hov") + "$hov".len())),
        &schema::STATES
    );

    // `anchors.to` (partial edge, no colon) still offers edges + shorthands.
    let src = "Widget\n  anchors.to\n";
    let mut edges: Vec<&str> = schema::ANCHOR_EDGES.to_vec();
    edges.extend_from_slice(&schema::SHORTHAND_ANCHORS);
    assert_eq!(
        labels(&complete_at(
            src,
            at(src, "anchors.to") + "anchors.to".len()
        )),
        edges
    );

    // `anchors.top: par` (partial target) still offers the target set (magic targets here — no
    // ids in this doc).
    let src = "Widget\n  anchors.top: par\n";
    assert_eq!(
        labels(&complete_at(src, at(src, "par\n") + "par".len())),
        &schema::MAGIC_ANCHOR_TARGETS
    );
}

#[test]
fn anchor_target_without_ids_offers_only_magic_targets() {
    // A document with no widget ids: the target slot offers just `parent`/`next`/`prev`.
    let src = "Widget\n  anchors.top: \n";
    let offset = at(src, "anchors.top: ") + "anchors.top: ".len();
    assert_eq!(
        labels(&complete_at(src, offset)),
        &schema::MAGIC_ANCHOR_TARGETS
    );
}

#[test]
fn anchor_target_offers_direct_siblings_not_ancestors() {
    // Button owns the anchor. `UIAnchor::getHookedWidget` resolves a concrete target only via
    // `parentWidget->getChildById`, a non-recursive lookup over direct children — so only
    // Button's sibling `Label` (id `lbl`) is offered. Its ancestor `Panel` (id `root`) can never
    // be reached that way and must NOT be offered; Button's own id `btn` is excluded too (a
    // widget cannot anchor to itself).
    let src = "\
Panel
  id: root
  Button
    id: btn
    anchors.top:
  Label
    id: lbl
";
    let offset = at(src, "anchors.top:") + "anchors.top:".len();
    let mut expected: Vec<String> = schema::MAGIC_ANCHOR_TARGETS
        .iter()
        .map(|s| (*s).to_owned())
        .collect();
    expected.push("lbl".to_owned());
    assert_eq!(labels(&complete_at(src, offset)), expected);
    // Button's own id and its ancestor's id are not targets; magic targets stay `Value`, ids
    // are tagged `widget id`.
    let items = complete_at(src, offset);
    assert!(items.iter().all(|i| i.kind == CompletionKind::Value));
    assert!(!items.iter().any(|i| i.label == "btn"));
    assert!(!items.iter().any(|i| i.label == "root"));
    assert_eq!(
        items
            .iter()
            .find(|i| i.label == "lbl")
            .and_then(|i| i.detail.as_deref()),
        Some("widget id")
    );
}

#[test]
fn anchor_target_top_level_style_headers_are_not_siblings_of_each_other() {
    let src = "\
First < UIWidget
  anchors.top:
Second < UIWidget
  id: other
";
    let offset = at(src, "anchors.top:") + "anchors.top:".len();
    assert_eq!(
        labels(&complete_at(src, offset)),
        &schema::MAGIC_ANCHOR_TARGETS
    );
    let items = complete_at(src, offset);
    assert!(!items.iter().any(|i| i.label == "other"));
}

#[test]
fn offscreen_or_unknown_offset_offers_nothing() {
    assert!(complete_at("", 0).is_empty());
    let src = "Button\n  $\n";
    assert!(complete_at(src, src.len() + 100).is_empty());
}

#[test]
fn indented_partial_property_word_offers_the_catalog() {
    // `  wid` — a bare property key being typed on an indented line: offer all catalog
    // property names (the client filters by `wid` → `width`). Deterministic, catalog order.
    let src = "Button\n  wid\n";
    let items = complete_at(src, at(src, "wid") + "wid".len());
    assert_eq!(labels(&items), &catalog::PROPERTIES);
    assert!(items.iter().all(|i| i.kind == CompletionKind::Keyword));
    assert!(
        items
            .iter()
            .all(|i| i.detail.as_deref() == Some("property"))
    );
}

#[test]
fn catalog_property_completion_carries_its_curated_documentation() {
    // `width` has a curated one-line note in `property_hover::PROPERTY_DOCS`; the completion
    // item must surface it, not just the one-word `detail`.
    let src = "Button\n  wid\n";
    let items = complete_at(src, at(src, "wid") + "wid".len());
    let width = items.iter().find(|i| i.label == "width").expect("width");
    let doc = width.documentation.as_deref().expect("width has a doc");
    assert!(
        doc.contains("dimension"),
        "expected width's curated doc, got {doc:?}"
    );
}

#[test]
fn enum_valued_property_completion_documentation_lists_its_values() {
    let src = "Button\n  disp\n";
    let items = complete_at(src, at(src, "disp") + "disp".len());
    let display = items
        .iter()
        .find(|i| i.label == "display")
        .expect("display");
    let doc = display.documentation.as_deref().expect("display has a doc");
    assert!(
        doc.contains("One of:"),
        "expected an enum list, got {doc:?}"
    );
    for value in &schema::DISPLAY_VALUES {
        assert!(
            doc.contains(&format!("`{value}`")),
            "expected `{value}` listed in {doc:?}"
        );
    }
}

#[test]
fn a_known_property_outside_the_curated_set_still_gets_the_validation_note() {
    let src = "Button\n  min-wid\n";
    let items = complete_at(src, at(src, "min-wid") + "min-wid".len());
    let min_width = items
        .iter()
        .find(|i| i.label == "min-width")
        .expect("min-width");
    let doc = min_width
        .documentation
        .as_deref()
        .expect("min-width has a doc");
    assert!(doc.contains("silently ignored"), "{doc}");
}

#[test]
fn named_color_completion_documentation_carries_its_hex_value() {
    // A named-color value item's documentation is the color's packed hex, not prose.
    let src = "Widget\n  color: re\n";
    let items = complete_at(src, at(src, "re\n") + 2);
    let red = items.iter().find(|i| i.label == "red").expect("red");
    assert_eq!(red.documentation.as_deref(), Some("`#ff0000`"));
}

#[test]
fn property_key_context_is_deterministic() {
    // The returned labels equal exactly the catalog set, in const (sorted) order.
    let src = "Button\n  colo\n";
    assert_eq!(
        labels(&complete_at(src, at(src, "colo") + "colo".len())),
        &catalog::PROPERTIES
    );
}

#[test]
fn wholly_blank_indented_line_offers_nothing() {
    // A line that is *entirely* whitespace is treated as blank by the indentation validity gate
    // (it carries no structural depth), so completion stays silent there. The union opens up as
    // soon as the line has content — a typed word, or an empty slot before an existing word
    // (see `empty_slot_before_existing_content_offers_the_union`).
    let src = "Button\n  \n";
    let offset = at(src, "  \n") + 2; // just past the two indent spaces
    assert!(complete_at(src, offset).is_empty());
}

#[test]
fn completed_property_key_and_colon_offers_nothing() {
    // `  width:` — past the `:` we are in VALUE position; property-value/color completion is
    // deferred (needs per-property type metadata), so nothing is offered.
    let src = "Button\n  width:\n";
    let offset = at(src, "width:") + "width:".len();
    assert!(complete_at(src, offset).is_empty());
}

#[test]
fn completed_property_word_followed_by_space_offers_nothing() {
    let src = "Button\n  width \n";
    let offset = at(src, "width ") + "width ".len();
    assert!(complete_at(src, offset).is_empty());
}

#[test]
fn unindented_top_level_word_offers_nothing() {
    // `Button` at column 0 is a widget/style-header, NOT a property → offer nothing.
    let src = "Butt\n";
    assert!(complete_at(src, at(src, "Butt") + "Butt".len()).is_empty());
}

#[test]
fn indented_uppercase_word_offers_widget_names_in_the_union() {
    // An indented CamelCase word is a child-widget position. The slot now offers the union, so
    // widget names are present (the client filters them in as the user types `Button`); a
    // catalog property is present too but the client's case-based filter drops it for `Button`.
    let styles = styles(&[("lib.otui", "Button < UIButton\nPanel < UIWidget\n")]);
    let lua = lua(&[]);
    let src = "Panel\n  Button\n";
    let items =
        complete_at_with_widgets(src, at(src, "  Button") + "  Button".len(), &styles, &lua);
    let button = items
        .iter()
        .find(|i| i.label == "Button")
        .expect("Button offered");
    assert_eq!(button.kind, CompletionKind::Class);
    assert_eq!(button.detail.as_deref(), Some("style"));
    // A lowercase-initial word at the same indentation still surfaces the catalog properties.
    let src = "Panel\n  wid\n";
    let got = labels(&complete_at_with_widgets(
        src,
        at(src, "wid") + "wid".len(),
        &styles,
        &lua,
    ));
    assert!(got.contains(&"width".to_owned()));
}

#[test]
fn odd_indented_property_word_offers_nothing() {
    // A 3-space (odd) indent is a hard OTML error (`odd-indentation`); the key context must
    // honor the same indentation rule the diagnostics pass enforces → offer nothing.
    let src = "Panel\n   wid\n";
    assert!(complete_at(src, at(src, "wid") + "wid".len()).is_empty());
}

#[test]
fn invalid_depth_jump_property_word_offers_nothing() {
    // `    wid` jumps from depth 0 (`Panel`) straight to depth 2 — an `invalid-indentation-depth`
    // error — so no property key may be offered on it.
    let src = "Panel\n    wid\n";
    assert!(complete_at(src, at(src, "wid") + "wid".len()).is_empty());
}

#[test]
fn valid_plus_one_level_offers_the_catalog() {
    // A correctly-indented +1 level under a nested widget is valid depth: offer the catalog.
    let src = "Panel\n  Child\n    wid\n";
    assert_eq!(
        labels(&complete_at(src, at(src, "wid") + "wid".len())),
        &catalog::PROPERTIES
    );
}

#[test]
fn tab_indented_property_word_offers_nothing() {
    // Tab indentation is a hard OTML parse error; no set may be offered on such a line — the key
    // context honors the same guard as the closed sets.
    let src = "Button\n\twid\n";
    assert!(complete_at(src, at(src, "wid") + "wid".len()).is_empty());
}

#[test]
fn dotted_key_is_not_a_property_key() {
    // A generic dotted key (`foo.bar`) is neither a property nor an `anchors.` object → nothing.
    let src = "Button\n  foo.bar\n";
    assert!(complete_at(src, at(src, "foo.bar") + "foo.bar".len()).is_empty());
}

#[test]
fn list_item_line_is_not_a_property_key() {
    // A `- item` list line opens with `-`, which is not an IDENT start → nothing.
    let src = "Button\n  - item\n";
    assert!(complete_at(src, at(src, "- item") + "- item".len()).is_empty());
    // ...even mid-word right after the dash.
    assert!(complete_at(src, at(src, "- item") + "- ".len()).is_empty());
}

#[test]
fn special_form_keys_still_offer_their_own_sets_not_properties() {
    // The property-key branch runs AFTER the special forms, so `$` / `@` / `anchors.` keep
    // offering their own closed sets and never fall through to PROPERTIES.
    let src = "Button\n  $\n";
    assert_eq!(labels(&complete_at(src, at(src, "$") + 1)), &schema::STATES);

    let src = "Button\n  @onC\n";
    assert_eq!(
        labels(&complete_at(src, at(src, "@onC") + "@onC".len())),
        &schema::EVENTS
    );

    let src = "Widget\n  anchors.\n";
    let mut edges: Vec<&str> = schema::ANCHOR_EDGES.to_vec();
    edges.extend_from_slice(&schema::SHORTHAND_ANCHORS);
    assert_eq!(
        labels(&complete_at(src, at(src, "anchors.") + "anchors.".len())),
        edges
    );
}

#[test]
fn property_key_suppressed_inside_block_scalar_and_comment() {
    let src = "Button\n  @onClick: |\n    width\n";
    assert!(complete_at(src, at(src, "width\n") + "width".len()).is_empty());

    let src = "Button\n  // width\n";
    assert!(complete_at(src, at(src, "width\n") + "width".len()).is_empty());
}

#[test]
fn states_context_is_deterministic() {
    // The returned labels for one context equal exactly the schema set, in const order.
    let src = "Button\n  $\n";
    assert_eq!(labels(&complete_at(src, at(src, "$") + 1)), &schema::STATES);
}

// --- widget-aware property completion (Lua-added properties) -------------------------------

fn styles(docs: &[(&str, &str)]) -> StyleIndex {
    let mut index = StyleIndex::new();
    for (doc, src) in docs {
        let tree = SyntaxTree::parse(src).expect("parse otui");
        index.set_document(*doc, extract_style_defs(&tree));
    }
    index
}

fn lua(docs: &[(&str, &str)]) -> LuaWidgetIndex {
    let mut index = LuaWidgetIndex::new();
    for (doc, src) in docs {
        index.set_document(*doc, scan_widgets(src));
    }
    index
}

const UITABLE_LUA: &str = "\
UITable = extends(UIWidget, 'UITable')

function UITable:onStyleApply(styleName, styleNode)
  for name, value in pairs(styleNode) do
    if name == 'column-style' then
    elseif name == 'row-style' then
    end
  end
end
";

#[test]
fn slot_offers_lua_props_ranked_above_the_catalog() {
    // Under a `< UITable` header, the slot offers UITable's Lua-added properties alongside the
    // catalog, tagged and ranked above it (sort_text group `0_` < `1_`).
    let styles = styles(&[]);
    let lua = lua(&[("uitable.lua", UITABLE_LUA)]);
    let src = "Table < UITable\n  col\n";
    let items = complete_at_with_widgets(src, at(src, "col") + "col".len(), &styles, &lua);

    let col = items
        .iter()
        .find(|i| i.label == "column-style")
        .expect("lua prop offered");
    assert_eq!(col.detail.as_deref(), Some("widget property"));
    assert_eq!(col.kind, CompletionKind::Keyword);
    assert_eq!(col.sort_text.as_deref(), Some("0_column-style"));
    assert!(items.iter().any(|i| i.label == "row-style"));

    // A catalog property is present and ranked below the Lua props.
    let width = items
        .iter()
        .find(|i| i.label == "width")
        .expect("catalog prop offered");
    assert_eq!(width.sort_text.as_deref(), Some("1_width"));
    assert!(col.sort_text < width.sort_text);
}

#[test]
fn slot_lua_props_resolve_cross_file_on_a_widget_instance() {
    // The cursor is under a nested `Table` container whose type resolves cross-file
    // (`Table < UITable`) to the native UITable that declares the Lua props.
    let styles = styles(&[("lib.otui", "Table < UITable\n")]);
    let lua = lua(&[("uitable.lua", UITABLE_LUA)]);
    let src = "\
Window < UIWindow
  Table
    col
";
    let got = labels(&complete_at_with_widgets(
        src,
        at(src, "col") + "col".len(),
        &styles,
        &lua,
    ));
    assert!(got.contains(&"column-style".to_owned()));
    assert!(got.contains(&"row-style".to_owned()));
}

#[test]
fn slot_omits_lua_props_of_an_unrelated_widget() {
    // A Button does not descend from UITable, so UITable's Lua props are not offered on it (the
    // catalog still is; UITable may appear only as a child-widget *name*, never as a property).
    let styles = styles(&[]);
    let lua = lua(&[("uitable.lua", UITABLE_LUA)]);
    let src = "Button < UIButton\n  col\n";
    let items = complete_at_with_widgets(src, at(src, "col") + "col".len(), &styles, &lua);
    assert!(
        !items.iter().any(
            |i| i.label == "column-style" && i.detail.as_deref() == Some("widget property")
        )
    );
    assert!(items.iter().any(|i| i.label == "width"));
}

#[test]
fn slot_offers_widget_names_from_every_source() {
    // Child-widget names come from workspace `.otui` styles, native bases in use, and Lua widget
    // classes — each tagged with its origin and kind `Class`.
    let styles = styles(&[("lib.otui", "Panel < UIWidget\n")]);
    let lua = lua(&[("uitable.lua", UITABLE_LUA)]);
    let src = "Panel\n  Pa\n";
    let items = complete_at_with_widgets(src, at(src, "Pa\n") + "Pa".len(), &styles, &lua);

    let named = |label: &str| items.iter().find(|i| i.label == label).cloned();
    let panel = named("Panel").expect("user style offered");
    assert_eq!(panel.kind, CompletionKind::Class);
    assert_eq!(panel.detail.as_deref(), Some("style"));
    assert_eq!(panel.sort_text.as_deref(), Some("2_Panel"));

    assert_eq!(
        named("UIWidget").and_then(|i| i.detail),
        Some("native widget".to_owned())
    );
    assert_eq!(
        named("UITable").and_then(|i| i.detail),
        Some("lua widget".to_owned())
    );
}

#[test]
fn native_widget_classes_surface_from_lua_parents_without_a_style_reference() {
    // No `.otui` style references `UIWidget`, but the scanned Lua widget `UITable` extends it, so
    // the native base is still offered as a child type — the built-in `UI*` classes come from the
    // corelib/gamelib widgets' parents, not a hardcoded list.
    let styles = styles(&[]);
    let lua = lua(&[("uitable.lua", UITABLE_LUA)]); // UITable = extends(UIWidget, 'UITable')
    let src = "SomeWidget\n  UI\n";
    let items = complete_at_with_widgets(src, at(src, "UI\n") + "UI".len(), &styles, &lua);
    let ui_widget = items.iter().find(|i| i.label == "UIWidget").cloned();
    assert_eq!(
        ui_widget.and_then(|i| i.detail),
        Some("native widget".to_owned()),
        "UIWidget must be offered as a native child even with no style referencing it"
    );
}

#[test]
fn empty_slot_before_existing_content_offers_the_union() {
    // The cursor sits at the start of an indented line that already has a word after it — an
    // empty slot the classifier now opens (the line is not wholly blank, so the indentation gate
    // passes). The union (catalog + widget names) is offered.
    let styles = styles(&[("lib.otui", "Button < UIButton\n")]);
    let lua = lua(&[]);
    let src = "Panel\n  Button\n";
    let items = complete_at_with_widgets(src, at(src, "Button"), &styles, &lua);
    let got = labels(&items);
    assert!(got.contains(&"width".to_owned()), "catalog present");
    assert!(got.contains(&"Button".to_owned()), "widget names present");
}

#[test]
fn empty_slot_before_a_special_form_offers_nothing() {
    // The cursor sits at the start of a line whose real content is a `$state` / `@event` /
    // `anchors.` token (the empty prefix cannot see it). The property/widget union must NOT fire
    // there — offer nothing rather than the wrong set.
    let styles = styles(&[("lib.otui", "Button < UIButton\n")]);
    let lua = lua(&[]);
    for line in [
        "$hover",
        "@onClick: x",
        "anchors.top: parent",
        "&alias: 1",
        "- item",
    ] {
        let src = format!("Button\n  {line}\n");
        let offset = src.find(line).expect("token present"); // cursor before the token
        assert!(
            complete_at_with_widgets(&src, offset, &styles, &lua).is_empty(),
            "empty slot before `{line}` must offer nothing"
        );
    }
}

#[test]
fn empty_indexes_degrade_to_the_catalog_only() {
    // The workspace-unaware `complete_at` (empty indexes) offers exactly the catalog on a key —
    // no Lua props and no widget names, so the labels are the catalog in const order.
    let src = "Table < UITable\n  col\n";
    assert_eq!(
        labels(&complete_at(src, at(src, "col") + "col".len())),
        &catalog::PROPERTIES
    );
}

// --- snippets --------------------------------------------------------------------------------

#[test]
fn catalog_property_key_snippet_is_key_colon_dollar_zero() {
    // `width` → `width: $0`: the colon-space and a final tab-stop for the value, saving a
    // keystroke on every property.
    let src = "Button\n  wid\n";
    let items = complete_at(src, at(src, "wid") + "wid".len());
    let width = items.iter().find(|i| i.label == "width").expect("width");
    assert_eq!(width.insert_text.as_deref(), Some("width: $0"));
    assert_eq!(width.insert_format, InsertFormat::Snippet);
}

#[test]
fn lua_property_key_also_carries_the_key_colon_snippet() {
    let styles = styles(&[]);
    let lua = lua(&[("uitable.lua", UITABLE_LUA)]);
    let src = "Table < UITable\n  col\n";
    let items = complete_at_with_widgets(src, at(src, "col") + "col".len(), &styles, &lua);
    let col = items
        .iter()
        .find(|i| i.label == "column-style")
        .expect("lua prop");
    assert_eq!(col.insert_text.as_deref(), Some("column-style: $0"));
    assert_eq!(col.insert_format, InsertFormat::Snippet);
}

#[test]
fn child_widget_snippet_carries_a_nested_id_tab_stop_one_level_deeper() {
    // Cursor at 2-space indent (top-level child slot): the snippet's `id:` line sits at 4 spaces
    // — one level deeper than the widget itself.
    let styles = styles(&[("lib.otui", "Button < UIButton\n")]);
    let lua = lua(&[]);
    let src = "Panel\n  But\n";
    let items = complete_at_with_widgets(src, at(src, "But") + "But".len(), &styles, &lua);
    let button = items.iter().find(|i| i.label == "Button").expect("Button");
    assert_eq!(
        button.insert_text.as_deref(),
        Some("Button\n    id: $1\n    $0")
    );
    assert_eq!(button.insert_format, InsertFormat::Snippet);
}

#[test]
fn child_widget_snippet_nests_relative_to_a_deeper_current_indent() {
    // A child slot at 4-space indent (already one level deep): the nested `id:` line sits at 6
    // spaces, still exactly one level deeper than the current slot, not a fixed absolute amount.
    let styles = styles(&[("lib.otui", "Button < UIButton\n")]);
    let lua = lua(&[]);
    let src = "Panel\n  Child\n    But\n";
    let items = complete_at_with_widgets(src, at(src, "But") + "But".len(), &styles, &lua);
    let button = items.iter().find(|i| i.label == "Button").expect("Button");
    assert_eq!(
        button.insert_text.as_deref(),
        Some("Button\n      id: $1\n      $0")
    );
}

#[test]
fn event_key_snippet_continues_into_the_value_slot() {
    let src = "Button\n  @onCl\n";
    let items = complete_at(src, at(src, "@onCl") + "@onCl".len());
    let on_click = items
        .iter()
        .find(|i| i.label == "onClick")
        .expect("onClick");
    assert_eq!(on_click.insert_text.as_deref(), Some("onClick: $0"));
    assert_eq!(on_click.insert_format, InsertFormat::Snippet);
}

#[test]
fn anchor_edge_key_snippet_continues_into_the_target_slot() {
    let src = "Widget\n  anchors.\n";
    let items = complete_at(src, at(src, "anchors.") + "anchors.".len());
    let top = items.iter().find(|i| i.label == "top").expect("top edge");
    assert_eq!(top.insert_text.as_deref(), Some("top: $0"));
    assert_eq!(top.insert_format, InsertFormat::Snippet);
}

#[test]
fn anchor_shorthand_key_also_carries_the_key_colon_snippet() {
    let src = "Widget\n  anchors.\n";
    let items = complete_at(src, at(src, "anchors.") + "anchors.".len());
    for &shorthand in &schema::SHORTHAND_ANCHORS {
        let item = items
            .iter()
            .find(|i| i.label == shorthand)
            .unwrap_or_else(|| panic!("{shorthand} offered"));
        assert_eq!(
            item.insert_text.as_deref(),
            Some(format!("{shorthand}: $0")).as_deref()
        );
    }
}

#[test]
fn anchor_edge_and_shorthand_completions_carry_documentation() {
    let src = "Widget\n  anchors.\n";
    let items = complete_at(src, at(src, "anchors.") + "anchors.".len());
    let top = items.iter().find(|i| i.label == "top").expect("top edge");
    let top_doc = top.documentation.as_deref().expect("top has a doc");
    assert!(top_doc.contains("edge"), "{top_doc}");
    assert!(top_doc.contains("rejects an invalid"), "{top_doc}");
    assert!(top_doc.contains("direct sibling"), "{top_doc}");

    let fill = items.iter().find(|i| i.label == "fill").expect("fill");
    let fill_doc = fill.documentation.as_deref().expect("fill has a doc");
    assert!(
        fill_doc.to_lowercase().contains("all four edges"),
        "{fill_doc}"
    );
    assert!(fill_doc.contains("rejects an invalid"), "{fill_doc}");
    assert!(fill_doc.contains("direct sibling"), "{fill_doc}");

    // An `@event` name gets no documentation — no curated note exists for those.
    let src = "Button\n  @onCl\n";
    let items = complete_at(src, at(src, "@onCl") + "@onCl".len());
    let on_click = items
        .iter()
        .find(|i| i.label == "onClick")
        .expect("onClick");
    assert_eq!(on_click.documentation, None);
}

#[test]
fn anchor_target_edge_and_states_and_property_values_stay_plain() {
    // The target-side edge (`parent.top`), a `$state`, and a fixed-set value (`display: flex`)
    // have no natural "what comes next" — they stay plain-label insertion (no snippet).
    let src = "Widget\n  anchors.top: parent.\n";
    let items = complete_at(src, at(src, "parent.") + "parent.".len());
    assert!(
        items
            .iter()
            .all(|i| i.insert_text.is_none() && i.insert_format == InsertFormat::Plain)
    );

    let src = "Button\n  $\n";
    let items = complete_at(src, at(src, "$") + 1);
    assert!(
        items
            .iter()
            .all(|i| i.insert_text.is_none() && i.insert_format == InsertFormat::Plain)
    );

    let src = "Widget\n  display: fl\n";
    let items = complete_at(src, at(src, "fl") + 2);
    assert!(
        items
            .iter()
            .all(|i| i.insert_text.is_none() && i.insert_format == InsertFormat::Plain)
    );

    // Anchor targets (magic keywords / widget ids) are also plain.
    let src = "Widget\n  anchors.top: \n";
    let items = complete_at(src, at(src, "anchors.top: ") + "anchors.top: ".len());
    assert!(
        items
            .iter()
            .all(|i| i.insert_text.is_none() && i.insert_format == InsertFormat::Plain)
    );
}

#[test]
fn snippet_escape_protects_dollar_backslash_and_closing_brace() {
    // The direct unit: a literal `$`, `\` or `}` in text embedded into a snippet body must come
    // back escaped, or the client would read it as the client's own tab-stop syntax instead of
    // literal text. Not a theoretical hazard: OTML property values and identifiers routinely
    // start with `$` (`$state`, `$variable`).
    assert_eq!(snippet_escape("plain"), "plain");
    assert_eq!(snippet_escape("$state"), "\\$state");
    assert_eq!(snippet_escape("a}b"), "a\\}b");
    assert_eq!(snippet_escape("a\\b"), "a\\\\b");
    assert_eq!(snippet_escape("$a}b\\c"), "\\$a\\}b\\\\c");
}

#[test]
fn property_key_snippet_escapes_a_dollar_bearing_key() {
    // A defensive, end-to-end check through the actual snippet builder (not just the escape
    // helper): a hypothetical key containing `$` must not corrupt the emitted snippet's tab-stop
    // syntax.
    assert_eq!(property_key_snippet("$weird"), "\\$weird: $0");
}

#[test]
fn child_widget_snippet_escapes_a_dollar_bearing_widget_name() {
    assert_eq!(
        child_widget_snippet("$Weird", "  "),
        "\\$Weird\n  id: $1\n  $0"
    );
}

#[test]
fn a_lua_property_named_with_a_dollar_sign_is_escaped_in_its_snippet() {
    // End-to-end through the workspace-aware path: a Lua-scanned custom property name flowing
    // into the snippet body is escaped, not just the schema/catalog constants.
    const WEIRD_LUA: &str = "\
Weird = extends(UIWidget, 'Weird')

function Weird:onStyleApply(styleName, styleNode)
  for name, value in pairs(styleNode) do
    if name == '$odd-style' then
    end
  end
end
";
    let styles = styles(&[]);
    let lua = lua(&[("weird.lua", WEIRD_LUA)]);
    let src = "Table < Weird\n  od\n";
    let items = complete_at_with_widgets(src, at(src, "od") + "od".len(), &styles, &lua);
    let odd = items
        .iter()
        .find(|i| i.label == "$odd-style")
        .expect("lua prop offered even with a $ in its name");
    assert_eq!(odd.insert_text.as_deref(), Some("\\$odd-style: $0"));
}

#[test]
fn base_slot_offers_workspace_styles_and_native_bases() {
    // Cursor right after `<` on a top-level header: offer the valid-base union — every
    // workspace style name plus the `UI*` native classes in use.
    let styles = styles(&[("lib.otui", "Panel < UIWidget\n")]);
    let lua = lua(&[]);
    let src = "Table < \n";
    let items = complete_at_with_widgets(src, at(src, "< ") + "< ".len(), &styles, &lua);
    let got = labels(&items);
    assert!(got.contains(&"Panel".to_owned()), "workspace style offered");
    assert!(got.contains(&"UIWidget".to_owned()), "native base offered");
    assert!(items.iter().all(|i| i.kind == CompletionKind::Class));
    // A base is a plain type reference — no `id:` child snippet, unlike a child-widget entry.
    assert!(items.iter().all(|i| i.insert_text.is_none()));
    assert!(items.iter().all(|i| i.insert_format == InsertFormat::Plain));
}

#[test]
fn base_slot_partial_token_still_offers_the_whole_union() {
    // A partial base name being typed still offers the whole set; the client filters.
    let styles = styles(&[("lib.otui", "Panel < UIWidget\n")]);
    let lua = lua(&[]);
    let src = "Foo < UIB\n";
    let items = complete_at_with_widgets(src, at(src, "UIB") + "UIB".len(), &styles, &lua);
    let got = labels(&items);
    assert!(got.contains(&"Panel".to_owned()));
    assert!(got.contains(&"UIWidget".to_owned()));
}

#[test]
fn frozen_header_base_slot_offers_nothing() {
    let styles = styles(&[("lib.otui", "Panel < UIWidget\n")]);
    let lua = lua(&[]);
    let src = "#Table < \n";
    let items = complete_at_with_widgets(src, at(src, "< ") + "< ".len(), &styles, &lua);
    assert!(items.is_empty());
}

#[test]
fn slashslash_comment_containing_an_angle_bracket_offers_nothing() {
    let styles = styles(&[("lib.otui", "Panel < UIWidget\n")]);
    let lua = lua(&[]);
    let src = "// a < b\n";
    let items = complete_at_with_widgets(src, at(src, "< ") + "< ".len(), &styles, &lua);
    assert!(items.is_empty());
}

#[test]
fn base_slot_name_side_offers_nothing() {
    // Before the `<`, the cursor sits on the header's NAME side — the author's own new name,
    // not a reference — so nothing is offered there.
    let src = "Tab\n";
    assert!(complete_at(src, at(src, "Tab") + "Tab".len()).is_empty());
}

#[test]
fn base_slot_whitespace_variants_after_the_angle_bracket_both_offer_the_union() {
    // `Name <|` (no space yet) and `Name < |` (a space already typed) both offer the union —
    // the segment's leading whitespace is stripped either way.
    let styles = styles(&[("lib.otui", "Panel < UIWidget\n")]);
    let lua = lua(&[]);

    let src = "Table <\n";
    let items = complete_at_with_widgets(src, at(src, "<") + 1, &styles, &lua);
    assert!(labels(&items).contains(&"Panel".to_owned()));

    let src2 = "Table < \n";
    let items2 = complete_at_with_widgets(src2, at(src2, "< ") + 2, &styles, &lua);
    assert!(labels(&items2).contains(&"Panel".to_owned()));
}

#[test]
fn base_slot_completed_token_followed_by_more_content_offers_nothing() {
    let src = "Table < UIWidget extra\n";
    let offset = at(src, "extra") + "extra".len();
    assert!(complete_at(src, offset).is_empty());
}

#[test]
fn indented_line_is_unaffected_by_the_base_slot_branch() {
    let styles = styles(&[("lib.otui", "Panel < UIWidget\n")]);
    let lua = lua(&[]);
    let src = "Table < UIWidget\n  wid\n";
    let items = complete_at_with_widgets(src, at(src, "wid") + "wid".len(), &styles, &lua);
    assert!(
        labels(&items).contains(&"width".to_owned()),
        "catalog present"
    );
}
