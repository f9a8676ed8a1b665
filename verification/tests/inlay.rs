use otui_core::doc_index::DocId;
use otui_core::inlay::ancestor_hints;
use otui_core::lua_widgets::{LuaWidgetIndex, scan_widgets};
use otui_core::style_index::{StyleIndex, extract_style_defs};
use otui_core::syntax::SyntaxTree;

fn styles(docs: &[(&str, &str)]) -> StyleIndex {
    let mut index = StyleIndex::new();
    for (doc, src) in docs {
        let tree = SyntaxTree::parse(src).expect("parse otui");
        index.set_document(DocId::new(*doc), extract_style_defs(&tree));
    }
    index
}

#[test]
fn a_multi_hop_chain_yields_the_native_ancestor() {
    // Foo < Bar < UIButton: Foo's hint should resolve all the way to UIButton, not stop at Bar.
    let src = "Foo < Bar\nBar < UIButton\n";
    let idx = styles(&[("a.otui", src)]);
    let hints = ancestor_hints(src, &idx, &LuaWidgetIndex::new());

    let foo_hint = hints
        .iter()
        .find(|h| h.anchor == src.find("Bar\n").unwrap() + "Bar".len())
        .expect("Foo's hint present");
    assert_eq!(foo_hint.native, "UIButton");
}

#[test]
fn a_dead_end_base_yields_no_hint() {
    let src = "Thing < NoSuchBase\n";
    let idx = styles(&[("a.otui", src)]);
    assert!(ancestor_hints(src, &idx, &LuaWidgetIndex::new()).is_empty());
}

#[test]
fn a_base_that_already_names_the_resolved_native_is_a_no_op_echo() {
    // Button < UIButton: the base *is* the native class already, so no hint (no redundant
    // →UIButton right after UIButton itself).
    let src = "Button < UIButton\n";
    let idx = styles(&[("a.otui", src)]);
    assert!(ancestor_hints(src, &idx, &LuaWidgetIndex::new()).is_empty());
}

#[test]
fn a_base_that_differs_from_the_native_gets_a_hint() {
    // Foo < Button: Button's own native is UIButton, which differs from the literal "Button"
    // written on the line, so a hint is warranted.
    let src = "Foo < Button\nButton < UIButton\n";
    let idx = styles(&[("a.otui", src)]);
    let hints = ancestor_hints(src, &idx, &LuaWidgetIndex::new());
    let foo_hint = hints
        .iter()
        .find(|h| h.anchor == src.find("Button\n").unwrap() + "Button".len())
        .expect("Foo's hint present");
    assert_eq!(foo_hint.native, "UIButton");
}

#[test]
fn the_hint_anchors_at_the_end_of_the_base_token() {
    let src = "Foo < Button\nButton < UIButton\n";
    let idx = styles(&[("a.otui", src)]);
    let hints = ancestor_hints(src, &idx, &LuaWidgetIndex::new());
    let base_end = src.find("Button\n").unwrap() + "Button".len();
    assert!(hints.iter().any(|h| h.anchor == base_end));
}

#[test]
fn the_lua_parent_chain_does_not_change_which_native_is_reported() {
    // Foo < MyTable < UITable, with UITable's own Lua `extends` chain reaching UIWidget: the
    // hint must still say "UITable" (the native class the .otui chain resolves to), not walk
    // on into UITable's own Lua ancestors.
    let src = "Foo < MyTable\nMyTable < UITable\n";
    let idx = styles(&[("a.otui", src)]);
    let lua_idx = {
        let mut l = LuaWidgetIndex::new();
        l.set_document(
            "uitable.lua",
            scan_widgets("UITable = extends(UIWidget, 'UITable')\n"),
        );
        l
    };
    let hints = ancestor_hints(src, &idx, &lua_idx);
    let foo_hint = hints
        .iter()
        .find(|h| h.anchor == src.find("MyTable\n").unwrap() + "MyTable".len())
        .expect("Foo's hint present");
    assert_eq!(foo_hint.native, "UITable");
}

#[test]
fn unparseable_source_yields_no_hints() {
    assert!(ancestor_hints("\t\t< <\n", &StyleIndex::new(), &LuaWidgetIndex::new()).is_empty());
}
