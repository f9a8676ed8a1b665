use otui_core::folding::{FoldKind, FoldRange, folding_ranges};

/// The `FoldRange` for the widget/block whose fold starts on `start_line` (panics if absent).
fn fold_starting_at(folds: &[FoldRange], start_line: u32) -> FoldRange {
    *folds
        .iter()
        .find(|f| f.start_line == start_line)
        .unwrap_or_else(|| panic!("expected a fold starting at line {start_line}: {folds:?}"))
}

#[test]
fn widget_with_a_body_folds_from_header_to_last_body_line() {
    // line 0: Panel
    // line 1:   id: main
    // line 2:   text: Hi
    let src = "Panel\n  id: main\n  text: Hi\n";
    let folds = folding_ranges(src);
    assert_eq!(folds.len(), 1);
    assert_eq!(
        folds[0],
        FoldRange {
            start_line: 0,
            end_line: 2,
            kind: FoldKind::Region,
        }
    );
}

#[test]
fn nested_widget_yields_its_own_inner_fold_plus_the_outer() {
    // line 0: MainWindow < UIWindow
    // line 1:   id: main
    // line 2:   Panel
    // line 3:     id: content
    // line 4:     Button
    // line 5:       text: Click
    let src = "\
MainWindow < UIWindow
  id: main
  Panel
    id: content
    Button
      text: Click
";
    let folds = folding_ranges(src);
    // Outer style_header (0..5), inner Panel (2..5), inner Button (4..5).
    assert_eq!(folds.len(), 3);
    assert_eq!(fold_starting_at(&folds, 0).end_line, 5);
    assert_eq!(fold_starting_at(&folds, 2).end_line, 5);
    assert_eq!(fold_starting_at(&folds, 4).end_line, 5);
    assert!(folds.iter().all(|f| f.kind == FoldKind::Region));
}

#[test]
fn single_line_widget_or_property_yields_no_fold() {
    // A bare one-line container and a lone property: neither spans more than a line.
    assert!(folding_ranges("Panel\n").is_empty());
    assert!(folding_ranges("width: 10\n").is_empty());
}

#[test]
fn multi_line_block_scalar_body_folds() {
    // line 0: Button
    // line 1:   @onClick: |
    // line 2:     print(1)
    // line 3:     print(2)
    let src = "Button\n  @onClick: |\n    print(1)\n    print(2)\n";
    let folds = folding_ranges(src);
    // The block scalar spans lines 1..3; the enclosing Button spans 0..3.
    let scalar = fold_starting_at(&folds, 1);
    assert_eq!(scalar.end_line, 3);
    assert_eq!(scalar.kind, FoldKind::Region);
    let button = fold_starting_at(&folds, 0);
    assert_eq!(button.end_line, 3);
}

#[test]
fn flat_document_yields_no_folds() {
    // Only single-line siblings, nothing nested: nothing to collapse.
    let src = "id: a\nwidth: 10\nheight: 20\n";
    assert!(folding_ranges(src).is_empty());
}

#[test]
fn line_numbers_are_zero_based_with_correct_start_and_end() {
    // A leading blank line pushes the widget down: the header is line 1, the last body line 3.
    // line 0: (blank)
    // line 1: Panel
    // line 2:   id: main
    // line 3:   text: Hi
    let src = "\nPanel\n  id: main\n  text: Hi\n";
    let folds = folding_ranges(src);
    assert_eq!(folds.len(), 1);
    assert_eq!(folds[0].start_line, 1);
    assert_eq!(folds[0].end_line, 3);
}

#[test]
fn a_run_of_consecutive_comments_folds_as_a_comment_region() {
    // line 0: // one
    // line 1: // two
    // line 2: // three
    // line 3: Panel
    let src = "// one\n// two\n// three\nPanel\n";
    let folds = folding_ranges(src);
    assert_eq!(folds.len(), 1);
    assert_eq!(
        folds[0],
        FoldRange {
            start_line: 0,
            end_line: 2,
            kind: FoldKind::Comment,
        }
    );
}

#[test]
fn a_lone_comment_does_not_fold() {
    let src = "// just one\nPanel\n";
    assert!(folding_ranges(src).is_empty());
}

#[test]
fn empty_source_has_no_folds() {
    assert!(folding_ranges("").is_empty());
}

#[test]
fn a_document_with_a_parse_error_yields_no_folds() {
    let src = "Panel\n  id: main\n  items: [1, 2\n";
    assert!(folding_ranges(src).is_empty());
}
