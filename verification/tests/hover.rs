use otui_core::doc_index::DocId;
use otui_core::hover::{Inheritance, StyleHoverKind, style_hover_at};
use otui_core::style_index::{StyleIndex, extract_style_defs};
use otui_core::syntax::SyntaxTree;

/// Build a workspace index from `(doc_id, source)` entries, indexing each document's style defs.
fn index_of(entries: &[(&str, &str)]) -> StyleIndex {
    let mut index = StyleIndex::new();
    for (id, src) in entries {
        let tree = SyntaxTree::parse(src).expect("parses");
        index.set_document(DocId::new(*id), extract_style_defs(&tree));
    }
    index
}

/// Byte offset of the first occurrence of `needle` in `src`.
fn at(src: &str, needle: &str) -> usize {
    src.find(needle).expect("needle present")
}

#[test]
fn native_base_is_classified_as_built_in() {
    let index = index_of(&[("file:///a.otui", "MyPanel < UIWidget\n")]);
    let src = "MyPanel < UIWidget\n";
    let hover = style_hover_at(src, at(src, "UIWidget"), &index).expect("hit");
    assert_eq!(
        hover.kind,
        StyleHoverKind::NativeBase {
            name: "UIWidget".to_owned()
        }
    );
    // The span is the base token.
    assert_eq!(&src[hover.span.start..hover.span.end], "UIWidget");
}

#[test]
fn user_base_resolves_with_its_own_inheritance() {
    let index = index_of(&[
        ("file:///defs.otui", "MyPanel < UIWidget\n"),
        ("file:///use.otui", "Child < MyPanel\n"),
    ]);
    let src = "Child < MyPanel\n";
    let hover = style_hover_at(src, at(src, "MyPanel"), &index).expect("hit");
    assert_eq!(
        hover.kind,
        StyleHoverKind::UserBase {
            name: "MyPanel".to_owned(),
            def_count: 1,
            inherits: Some(Inheritance {
                base: "UIWidget".to_owned(),
                native: true,
            }),
        }
    );
}

#[test]
fn dangling_base_has_no_definition() {
    let index = index_of(&[("file:///a.otui", "Child < Missing\n")]);
    let src = "Child < Missing\n";
    let hover = style_hover_at(src, at(src, "Missing"), &index).expect("hit");
    assert_eq!(
        hover.kind,
        StyleHoverKind::DanglingBase {
            name: "Missing".to_owned()
        }
    );
}

#[test]
fn duplicate_definitions_report_their_count_deterministically() {
    // The same base name declared in two files, each inheriting from a different native class.
    // The chosen next-hop base must be stable across runs (ordered by doc id, then span).
    let index = index_of(&[
        ("file:///b.otui", "Dup < UIWindow\n"),
        ("file:///a.otui", "Dup < UIWidget\n"),
    ]);
    let src = "Child < Dup\n";
    let hover = style_hover_at(src, at(src, "Dup"), &index).expect("hit");
    match hover.kind {
        StyleHoverKind::UserBase {
            name,
            def_count,
            inherits,
        } => {
            assert_eq!(name, "Dup");
            assert_eq!(def_count, 2);
            // `file:///a.otui` sorts before `file:///b.otui`, so its base (`UIWidget`) wins.
            assert_eq!(
                inherits,
                Some(Inheritance {
                    base: "UIWidget".to_owned(),
                    native: true,
                })
            );
        }
        other => panic!("expected UserBase, got {other:?}"),
    }
}

#[test]
fn declared_name_describes_the_style_and_its_base() {
    let index = index_of(&[("file:///a.otui", "MainWindow < UIWindow\n")]);
    let src = "MainWindow < UIWindow\n";
    let hover = style_hover_at(src, at(src, "MainWindow"), &index).expect("hit");
    assert_eq!(
        hover.kind,
        StyleHoverKind::StyleName {
            name: "MainWindow".to_owned(),
            inherits: Some(Inheritance {
                base: "UIWindow".to_owned(),
                native: true,
            }),
        }
    );
    assert_eq!(&src[hover.span.start..hover.span.end], "MainWindow");
}

#[test]
fn bare_header_name_has_no_inheritance() {
    let index = index_of(&[("file:///a.otui", "Standalone\n  id: x\n")]);
    let src = "Standalone\n  id: x\n";
    let hover = style_hover_at(src, at(src, "Standalone"), &index).expect("hit");
    assert_eq!(
        hover.kind,
        StyleHoverKind::StyleName {
            name: "Standalone".to_owned(),
            inherits: None,
        }
    );
}

#[test]
fn non_header_offset_yields_nothing() {
    let index = index_of(&[("file:///a.otui", "MainWindow < UIWindow\n  id: main\n")]);
    let src = "MainWindow < UIWindow\n  id: main\n";
    assert!(style_hover_at(src, at(src, "main"), &index).is_none());
}
