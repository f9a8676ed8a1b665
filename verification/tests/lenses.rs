use otui_core::doc_index::DocId;
use otui_core::lenses::style_lenses;
use otui_core::style_index::{StyleIndex, extract_style_defs};
use otui_core::syntax::SyntaxTree;

/// Build a [`StyleIndex`] from `(doc, otui_source)` pairs.
fn index(docs: &[(&str, &str)]) -> StyleIndex {
    let mut idx = StyleIndex::new();
    for (doc, src) in docs {
        let tree = SyntaxTree::parse(src).expect("parse otui");
        idx.set_document(DocId::new(*doc), extract_style_defs(&tree));
    }
    idx
}

#[test]
fn a_style_with_subtypes_gets_a_lens_with_the_exact_count() {
    // Button has two direct derivations, one in another document.
    let idx = index(&[
        ("a.otui", "Button < UIButton\nOkButton < Button\n"),
        ("b.otui", "CancelButton < Button\n"),
    ]);
    let src = "Button < UIButton\n";
    let lenses = style_lenses(src, &idx);
    assert_eq!(lenses.len(), 1);
    assert_eq!(lenses[0].derived_count, 2);
    assert_eq!(
        &src[lenses[0].name_span.start..lenses[0].name_span.end],
        "Button"
    );
}

#[test]
fn a_style_with_no_subtypes_gets_no_lens() {
    let idx = index(&[("a.otui", "Leaf < UIWidget\n")]);
    let lenses = style_lenses("Leaf < UIWidget\n", &idx);
    assert!(lenses.is_empty());
}

#[test]
fn only_direct_subtypes_are_counted_not_the_whole_subtree() {
    // Grandchild derives from Child, not from Base directly, so Base's count is 1, not 2.
    let idx = index(&[(
        "a.otui",
        "Base < UIWidget\nChild < Base\nGrandchild < Child\n",
    )]);
    let src = "Base < UIWidget\nChild < Base\nGrandchild < Child\n";
    let lenses = style_lenses(src, &idx);
    let base_lens = lenses
        .iter()
        .find(|l| &src[l.name_span.start..l.name_span.end] == "Base")
        .expect("Base has a lens");
    assert_eq!(base_lens.derived_count, 1);
    let child_lens = lenses
        .iter()
        .find(|l| &src[l.name_span.start..l.name_span.end] == "Child")
        .expect("Child has a lens");
    assert_eq!(child_lens.derived_count, 1);
}

#[test]
fn multiple_top_level_styles_each_get_their_own_lens() {
    let idx = index(&[("a.otui", "A < UIWidget\nB < A\nC < A\nD < UIWidget\n")]);
    let src = "A < UIWidget\nB < A\nC < A\nD < UIWidget\n";
    let lenses = style_lenses(src, &idx);
    // Only A has subtypes (B, C); D has none, B and C have none either.
    assert_eq!(lenses.len(), 1);
    assert_eq!(
        &src[lenses[0].name_span.start..lenses[0].name_span.end],
        "A"
    );
    assert_eq!(lenses[0].derived_count, 2);
}

#[test]
fn unparseable_source_yields_no_lenses() {
    assert!(style_lenses("\t\t< <\n", &StyleIndex::new()).is_empty());
}
