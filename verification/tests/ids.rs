use otui_core::ids::{IdOrigin, VisibleId, visible_ids};
use otui_core::style_index::{StyleIndex, extract_style_defs};
use otui_core::syntax::SyntaxTree;

/// Build a [`StyleIndex`] from `(doc, otui_source)` pairs.
fn styles(docs: &[(&str, &str)]) -> StyleIndex {
    let mut index = StyleIndex::new();
    for (doc, src) in docs {
        let tree = SyntaxTree::parse(src).expect("parse otui");
        index.set_document(*doc, extract_style_defs(&tree));
    }
    index
}

fn ids_of(visible: &[VisibleId]) -> Vec<&str> {
    let mut v: Vec<&str> = visible.iter().map(|x| x.id.as_str()).collect();
    v.sort_unstable();
    v
}

#[test]
fn inherits_ids_declared_in_an_instantiated_styles_body() {
    let styles = styles(&[(
        "data/styles/30-miniwindow.otui",
        "MiniWindow < UIMiniWindow\n  MiniWindowContents\n    id: contentsPanel\n  \
             Button\n    id: closeButton\n",
    )]);
    let doc = "MainWindow < MiniWindow\n  Label\n    id: title\n";

    let visible = visible_ids(doc, &styles);
    assert_eq!(ids_of(&visible), ["closeButton", "contentsPanel", "title"]);

    let close = visible
        .iter()
        .find(|v| v.id == "closeButton")
        .expect("present");
    match &close.origin {
        IdOrigin::InheritedStyle { style, doc } => {
            assert_eq!(style, "MiniWindow");
            assert_eq!(doc.as_str(), "data/styles/30-miniwindow.otui");
        }
        IdOrigin::Document => panic!("closeButton must be inherited, not local"),
    }
    // Its span lands on the id token *in the declaring document*, not the asking one.
    let src = "MiniWindow < UIMiniWindow\n  MiniWindowContents\n    id: contentsPanel\n  \
                    Button\n    id: closeButton\n";
    assert_eq!(&src[close.span.start..close.span.end], "closeButton");

    let title = visible.iter().find(|v| v.id == "title").expect("present");
    assert_eq!(title.origin, IdOrigin::Document);
}

#[test]
fn a_locally_declared_id_has_document_origin() {
    let visible = visible_ids("Panel\n  id: header\n", &StyleIndex::new());
    assert_eq!(visible.len(), 1);
    assert_eq!(visible[0].id, "header");
    assert_eq!(visible[0].origin, IdOrigin::Document);
}

#[test]
fn a_style_chain_two_levels_deep_is_walked() {
    // A < B < C, and the id lives in C's body; a document instantiating A must still see it.
    let styles = styles(&[("a.otui", "A < B\nB < C\nC < UIWidget\n  id: deep\n")]);
    let doc = "Instance < A\n";
    let visible = visible_ids(doc, &styles);
    assert_eq!(ids_of(&visible), ["deep"]);
    match &visible[0].origin {
        IdOrigin::InheritedStyle { style, .. } => assert_eq!(style, "C"),
        IdOrigin::Document => panic!("must be inherited"),
    }
}

#[test]
fn a_cyclic_base_chain_terminates_instead_of_hanging() {
    // A < B and B < A: resolve_ancestry's cycle guard must still make this return promptly.
    let styles = styles(&[("a.otui", "A < B\n  id: onA\nB < A\n  id: onB\n")]);
    let doc = "Instance < A\n";
    let visible = visible_ids(doc, &styles);
    assert_eq!(ids_of(&visible), ["onA", "onB"]);
}

#[test]
fn a_local_declaration_shadows_an_inherited_id_of_the_same_name() {
    // MiniWindow's body declares `closeButton`; the document redeclares an id with the same
    // name locally. Only the local (Document-origin) entry must be returned.
    let styles = styles(&[(
        "styles.otui",
        "MiniWindow < UIMiniWindow\n  Button\n    id: closeButton\n",
    )]);
    let doc = "MainWindow < MiniWindow\n  Button\n    id: closeButton\n";

    let visible = visible_ids(doc, &styles);
    let matches: Vec<&VisibleId> = visible.iter().filter(|v| v.id == "closeButton").collect();
    assert_eq!(
        matches.len(),
        1,
        "the inherited duplicate must be dropped: {visible:?}"
    );
    assert_eq!(matches[0].origin, IdOrigin::Document);
}

#[test]
fn nested_widget_instantiations_contribute_their_own_inherited_ids() {
    // A widget nested (not just top-level) can itself instantiate another style.
    let styles = styles(&[("styles.otui", "InnerPanel < UIWidget\n  id: innerId\n")]);
    let doc = "Outer < UIWidget\n  InnerPanel\n    id: outerOverride\n";
    let visible = visible_ids(doc, &styles);
    assert_eq!(ids_of(&visible), ["innerId", "outerOverride"]);
}

#[test]
fn no_styles_and_no_local_ids_yields_nothing() {
    assert!(visible_ids("Panel < UIWidget\n", &StyleIndex::new()).is_empty());
}

#[test]
fn unparseable_source_yields_nothing() {
    assert!(visible_ids("", &StyleIndex::new()).is_empty());
}

#[test]
fn repeated_instantiations_of_the_same_style_do_not_duplicate_ids() {
    let styles = styles(&[("styles.otui", "Item < UIWidget\n  id: itemId\n")]);
    let doc = "Outer < UIWidget\n  Item\n  Item\n  Item\n";
    let visible = visible_ids(doc, &styles);
    let matches: Vec<&VisibleId> = visible.iter().filter(|v| v.id == "itemId").collect();
    assert_eq!(matches.len(), 1, "must not duplicate: {visible:?}");
}

#[test]
fn an_id_nested_inside_a_state_block_is_never_visible() {
    let local_doc = "Outer < UIWidget\n  $pressed:\n    VerticalScrollBar\n      id: phantom\n";
    assert!(visible_ids(local_doc, &StyleIndex::new()).is_empty());

    // ...or inherited through a style the document instantiates.
    let styles = styles(&[(
        "styles.otui",
        "MiniWindow < UIMiniWindow\n  $pressed:\n    VerticalScrollBar\n      id: phantom\n",
    )]);
    let doc = "MainWindow < MiniWindow\n";
    assert!(visible_ids(doc, &styles).is_empty());
}

#[test]
fn an_id_nested_under_a_plain_property_block_is_never_visible() {
    let local_doc =
        "CharacterTitles < UIWidget\n  visible: false\n    VerticalScrollBar\n      \
             id: ListScrollbar\n";
    assert!(visible_ids(local_doc, &StyleIndex::new()).is_empty());

    let styles = styles(&[(
        "styles.otui",
        "CharacterTitles < UIWidget\n  visible: false\n    VerticalScrollBar\n      \
             id: ListScrollbar\n",
    )]);
    let doc = "Instance < CharacterTitles\n";
    assert!(visible_ids(doc, &styles).is_empty());
}

#[test]
fn a_shared_ancestor_reached_by_two_instantiated_types_contributes_its_id_once() {
    // A and B both derive from Base; Base declares `shared`. Instantiating both A and B walks
    // Base's ancestry twice (once per starting type), so without deduping by declaration site
    // the exact same (id, span, doc) triple would be pushed twice.
    let styles = styles(&[(
        "styles.otui",
        "Base < UIWidget\n  id: shared\nA < Base\nB < Base\n",
    )]);
    let doc = "Outer < UIWidget\n  A\n  B\n";
    let visible = visible_ids(doc, &styles);
    let matches: Vec<&VisibleId> = visible.iter().filter(|v| v.id == "shared").collect();
    assert_eq!(
        matches.len(),
        1,
        "the shared ancestor's id must appear once, not once per instantiating type: \
             {visible:?}"
    );
}
