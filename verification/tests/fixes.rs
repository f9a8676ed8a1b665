use otui_core::diagnostics;
use otui_core::fixes::{Fix, edit_distance, quick_fixes};
use otui_core::lang_api::ByteSpan;

/// Byte offset of the first occurrence of `needle` in `src`.
fn at(src: &str, needle: &str) -> usize {
    src.find(needle).expect("needle present")
}

/// A range covering the whole document.
fn whole(src: &str) -> ByteSpan {
    ByteSpan::new(0, src.len())
}

fn titles(fixes: &[Fix]) -> Vec<&str> {
    fixes.iter().map(|f| f.title.as_str()).collect()
}

// --- edit-distance helper -----------------------------------------------------------------

#[test]
fn edit_distance_known_pairs() {
    assert_eq!(edit_distance("widht", "width"), 1); // one adjacent transposition
    assert_eq!(edit_distance("kitten", "sitting"), 3);
    assert_eq!(edit_distance("hoer", "hover"), 1); // one insertion
    assert_eq!(edit_distance("", "abc"), 3);
    assert_eq!(edit_distance("abc", "abc"), 0);
    assert_eq!(edit_distance("flaw", "lawn"), 2);
}

// --- tab-indentation ----------------------------------------------------------------------

#[test]
fn tab_indentation_yields_tabs_to_spaces_fix() {
    // A single leading tab becomes two spaces (one indent level).
    let src = "Panel\n\tid: main\n";
    let fixes = quick_fixes(src, whole(src));
    assert_eq!(titles(&fixes), vec!["Convert tabs to spaces"]);
    let (span, repl) = &fixes[0].edits[0];
    // The edit replaces the leading `\t` (byte 6..7) with two spaces.
    assert_eq!(*span, ByteSpan::new(6, 7));
    assert_eq!(repl, "  ");
    assert_eq!(fixes[0].fixes_code, diagnostics::TAB_INDENTATION);
}

#[test]
fn tab_after_spaces_converts_the_whole_leading_run() {
    // Two spaces then a tab: the whole leading run is rewritten to `  ` + `  ` = four spaces.
    let src = "Panel\n  \tid: x\n";
    let fixes = quick_fixes(src, whole(src));
    assert_eq!(titles(&fixes), vec!["Convert tabs to spaces"]);
    let (span, repl) = &fixes[0].edits[0];
    // Leading run is bytes 6..9 ("  \t").
    assert_eq!(*span, ByteSpan::new(6, 9));
    assert_eq!(repl, "    ");
}

// --- odd-indentation ----------------------------------------------------------------------

#[test]
fn odd_indentation_rounds_to_engine_depth() {
    // Three leading spaces (depth 1) round down to two spaces.
    let src = "Panel\n  id: x\n   size: y\n";
    let fixes = quick_fixes(src, whole(src));
    assert_eq!(titles(&fixes), vec!["Fix indentation to 2 spaces"]);
    let (span, repl) = &fixes[0].edits[0];
    // The three spaces before `size` are the flagged span.
    let start = at(src, "   size");
    assert_eq!(*span, ByteSpan::new(start, start + 3));
    assert_eq!(repl, "  ");
    assert_eq!(fixes[0].fixes_code, diagnostics::ODD_INDENTATION);
}

#[test]
fn one_space_indentation_rounds_to_zero() {
    let src = "Panel\n id: x\n";
    let fixes = quick_fixes(src, whole(src));
    assert_eq!(titles(&fixes), vec!["Fix indentation to 0 spaces"]);
    assert_eq!(fixes[0].edits[0].1, "");
}

// --- unknown-property ---------------------------------------------------------------------

#[test]
fn unknown_property_suggests_the_closest_catalog_entry() {
    // `colr` has exactly one catalog entry within the threshold: `color`.
    let src = "Panel\n  colr: red\n";
    let fixes = quick_fixes(src, whole(src));
    assert_eq!(titles(&fixes), vec!["Did you mean `color`?"]);
    let (span, repl) = &fixes[0].edits[0];
    let start = at(src, "colr");
    assert_eq!(*span, ByteSpan::new(start, start + 4));
    assert_eq!(repl, "color");
    assert_eq!(fixes[0].fixes_code, diagnostics::UNKNOWN_PROPERTY);
}

#[test]
fn widht_suggests_width_first() {
    // The DoD's canonical typo: `widht` → `width` is the best (single-transposition) suggestion.
    let src = "Panel\n  widht: 10\n";
    let fixes = quick_fixes(src, whole(src));
    assert_eq!(fixes[0].title, "Did you mean `width`?");
    assert_eq!(fixes[0].edits[0].1, "width");
    assert!(
        fixes
            .iter()
            .all(|f| f.fixes_code == diagnostics::UNKNOWN_PROPERTY),
        "{:?}",
        titles(&fixes)
    );
}

#[test]
fn nonsense_property_gets_no_suggestion() {
    // Nothing in the catalog is within the edit-distance threshold of this token.
    let src = "Panel\n  zzzzzzzz: 1\n";
    let fixes = quick_fixes(src, whole(src));
    assert!(fixes.is_empty(), "expected no fix, got {fixes:?}");
}

#[test]
fn unknown_property_offers_at_most_three_suggestions() {
    // `widt` is close to several `width`-family tags; at most three come back, best-first.
    let src = "Panel\n  widt: 1\n";
    let fixes = quick_fixes(src, whole(src));
    assert!(fixes.len() <= 3, "at most three: {:?}", titles(&fixes));
    assert!(
        fixes
            .iter()
            .all(|f| f.fixes_code == diagnostics::UNKNOWN_PROPERTY),
        "{:?}",
        titles(&fixes)
    );
    // The single-edit `width` must be the first, best suggestion.
    assert_eq!(fixes[0].title, "Did you mean `width`?");
}

// --- unknown-state ------------------------------------------------------------------------

#[test]
fn unknown_state_suggests_the_closest_state() {
    // `$hoer` is one edit from `hover`.
    let src = "Button\n  $hoer:\n    color: red\n";
    let fixes = quick_fixes(src, whole(src));
    assert_eq!(titles(&fixes), vec!["Did you mean `hover`?"]);
    let (span, repl) = &fixes[0].edits[0];
    let start = at(src, "hoer");
    assert_eq!(*span, ByteSpan::new(start, start + 4));
    assert_eq!(repl, "hover");
    assert_eq!(fixes[0].fixes_code, diagnostics::UNKNOWN_STATE);
}

// --- invalid-anchor-edge ------------------------------------------------------------------

#[test]
fn invalid_anchor_edge_suggests_the_nearest_edge() {
    // `topp` is one edit from the `top` edge.
    let src = "Widget\n  anchors.topp: parent.top\n";
    let fixes = quick_fixes(src, whole(src));
    assert_eq!(titles(&fixes), vec!["Did you mean `top`?"]);
    let (span, repl) = &fixes[0].edits[0];
    let start = at(src, "topp");
    assert_eq!(*span, ByteSpan::new(start, start + 4));
    assert_eq!(repl, "top");
    assert_eq!(fixes[0].fixes_code, diagnostics::INVALID_ANCHOR_EDGE);
}

// --- invalid-property-value ---------------------------------------------------------------

#[test]
fn invalid_display_value_suggests_the_nearest_display() {
    let src = "Panel\n  display: blocky\n";
    let fixes = quick_fixes(src, whole(src));
    assert_eq!(titles(&fixes), vec!["Did you mean `block`?"]);
    let (span, repl) = &fixes[0].edits[0];
    let start = at(src, "blocky");
    assert_eq!(*span, ByteSpan::new(start, start + 6));
    assert_eq!(repl, "block");
    assert_eq!(fixes[0].fixes_code, diagnostics::INVALID_PROPERTY_VALUE);
}

#[test]
fn invalid_layout_value_suggests_the_nearest_layout() {
    // Mis-cased `verticalbox` is one edit from `verticalBox`.
    let src = "Panel\n  layout: verticalbox\n";
    let fixes = quick_fixes(src, whole(src));
    assert_eq!(titles(&fixes), vec!["Did you mean `verticalBox`?"]);
    assert_eq!(fixes[0].edits[0].1, "verticalBox");
}

#[test]
fn invalid_border_value_gets_no_suggestion() {
    // `border` is a composite value we deliberately do not auto-fix.
    let src = "Panel\n  border: red\n";
    let fixes = quick_fixes(src, whole(src));
    assert!(fixes.is_empty(), "border must not be suggested: {fixes:?}");
}

// --- range filtering ----------------------------------------------------------------------

#[test]
fn only_diagnostics_overlapping_the_range_yield_fixes() {
    // Two unknown properties on different lines; a range over just the second offers only its fix.
    let src = "Panel\n  hieght: 1\n  colr: red\n";
    let colr = at(src, "colr");
    let range = ByteSpan::new(colr, colr + 4);
    let fixes = quick_fixes(src, range);
    assert_eq!(titles(&fixes), vec!["Did you mean `color`?"]);
}

#[test]
fn a_range_over_the_first_diagnostic_excludes_the_second() {
    let src = "Panel\n  hieght: 1\n  colr: red\n";
    let hieght = at(src, "hieght");
    let range = ByteSpan::new(hieght, hieght + 6);
    let fixes = quick_fixes(src, range);
    // `hieght` → `height` (a single transposition) leads; crucially the out-of-range `colr`
    // line contributes nothing.
    assert_eq!(fixes[0].title, "Did you mean `height`?");
    assert!(
        !titles(&fixes).contains(&"Did you mean `color`?"),
        "out-of-range diagnostic leaked in: {:?}",
        titles(&fixes)
    );
}

#[test]
fn a_zero_width_cursor_touching_a_diagnostic_still_offers_the_fix() {
    // Caret exactly at the start of the flagged token (an empty range) still overlaps it.
    let src = "Panel\n  colr: red\n";
    let colr = at(src, "colr");
    let fixes = quick_fixes(src, ByteSpan::new(colr, colr));
    assert_eq!(titles(&fixes), vec!["Did you mean `color`?"]);
}

#[test]
fn unfixable_codes_produce_no_fix() {
    // A structural syntax error has no mechanical correction.
    let src = "x: [a, b\n";
    let fixes = quick_fixes(src, whole(src));
    assert!(fixes.is_empty(), "syntax errors are not fixable: {fixes:?}");
}
