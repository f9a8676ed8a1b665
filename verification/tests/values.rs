//! Exact results for small documents.

use otui_core::diagnostics::{analyze, analyze_with_widgets, WidgetContext};
use otui_core::doc_index::DocId;
use otui_core::lang_api::{
    ByteSpan, CompletionKind, LanguageService, SemanticTokenKind, Severity, SymbolKind,
};
use otui_core::lua_widgets::{scan_widgets, LuaWidgetIndex};
use otui_core::manifest::{analyze_font_manifest, analyze_manifest};
use otui_core::palette::{color_value, is_valid_border, Rgba};
use otui_core::property_hover::{property_hover_at, PropertyOrigin};
use otui_core::references::{id_occurrences, style_name_occurrences};
use otui_core::schema::{classify_value, PropertyValueKind};
use otui_core::semantic::tokens;
use otui_core::style_index::{extract_style_defs, StyleIndex};
use otui_core::symbols::document_symbols;
use otui_core::syntax::{StmtKind, SyntaxTree};
use otui_core::widget_resolve::resolve_ancestry;
use otui_core::OtuiService;

fn styles(docs: &[(&str, &str)]) -> StyleIndex {
    let mut index = StyleIndex::new();
    for (doc, src) in docs {
        let tree = SyntaxTree::parse(src).expect("every document has a tree");
        index.set_document(*doc, extract_style_defs(&tree));
    }
    index
}

fn lua(docs: &[(&str, &str)]) -> LuaWidgetIndex {
    let mut index = LuaWidgetIndex::new();
    for (doc, src) in docs {
        index.set_document(*doc, scan_widgets(src));
    }
    index
}

fn kinds(src: &str) -> Vec<(&str, SemanticTokenKind)> {
    tokens(src)
        .iter()
        .map(|t| (&src[t.span.start..t.span.end], t.kind))
        .collect()
}

fn codes(src: &str) -> Vec<&'static str> {
    analyze(src).iter().map(|d| d.code).collect()
}

#[test]
fn statements_of_a_document() {
    let src = "A < UIB\n  id: x\n  - item\n  &v: 1\n  !e: f()\n  @on: g()\n  $hover:\n  C\n  // c\n  ?\n  k: v\n  anchors.top: parent.top\n";
    let tree = SyntaxTree::parse(src).expect("a tree");
    let found: Vec<StmtKind> = tree.statements().iter().map(|s| s.kind).collect();
    assert_eq!(
        found,
        [
            StmtKind::StyleHeader,
            StmtKind::IdProperty,
            StmtKind::ListItem,
            StmtKind::AliasProperty,
            StmtKind::ExprProperty,
            StmtKind::EventProperty,
            StmtKind::StateSelector,
            StmtKind::Container,
            StmtKind::Comment,
            StmtKind::Error,
            StmtKind::Property,
            StmtKind::AnchorProperty,
        ]
    );
    assert!(tree.has_error());
    assert!(tree.statements()[1..].iter().all(|s| s.parent == Some(0)));
}

#[test]
fn a_block_scalar_reaches_to_its_last_deeper_line() {
    let src = "A\n  @x: |\n    one\n\n    two\n\nB\n";
    let tree = SyntaxTree::parse(src).expect("a tree");
    let event = &tree.statements()[1];
    assert_eq!(event.last_line, 4);
    assert_eq!(event.body, Some(ByteSpan::new(10, 26)));
    assert_eq!(tree.statements()[2].line, 6);
}

#[test]
fn an_array_reaches_to_its_bracket() {
    let src = "A\n  k: [a,\n    b]\n  m: [c\n";
    let tree = SyntaxTree::parse(src).expect("a tree");
    let array = &tree.statements()[1];
    assert_eq!(array.kind, StmtKind::Property);
    assert_eq!(array.last_line, 2);
    assert_eq!(array.value, Some(ByteSpan::new(7, 17)));
    assert_eq!(tree.statements()[2].kind, StmtKind::Error);
}

#[test]
fn tokens_of_a_document() {
    let src = "Win < UIWindow\n  id: main\n  width: -1.5%\n  visible: true\n  color: $c\n  font: ~\n  text: hi\n";
    assert_eq!(
        kinds(src),
        [
            ("Win", SemanticTokenKind::Type),
            ("UIWindow", SemanticTokenKind::BuiltinType),
            ("id", SemanticTokenKind::Property),
            ("main", SemanticTokenKind::Variable),
            ("width", SemanticTokenKind::Property),
            ("-1.5%", SemanticTokenKind::Number),
            ("visible", SemanticTokenKind::Property),
            ("true", SemanticTokenKind::Boolean),
            ("color", SemanticTokenKind::Property),
            ("$c", SemanticTokenKind::Variable),
            ("font", SemanticTokenKind::Property),
            ("~", SemanticTokenKind::Keyword),
            ("text", SemanticTokenKind::Property),
            ("hi", SemanticTokenKind::String),
        ]
    );
}

#[test]
fn tokens_of_selectors_anchors_and_arrays() {
    let src = "A < B\n  $hover !nope:\n  anchors.top: parent.top\n  anchors.left: x.left\n  k: [1, a, rgb(1,2,3)]\n  @e: f()\n  &v: #fff\n  // c\n";
    assert_eq!(
        kinds(src),
        [
            ("A", SemanticTokenKind::Type),
            ("B", SemanticTokenKind::InheritedType),
            ("hover", SemanticTokenKind::EnumMember),
            ("!", SemanticTokenKind::Operator),
            ("nope", SemanticTokenKind::UnknownState),
            ("anchors.top", SemanticTokenKind::Property),
            ("parent", SemanticTokenKind::Keyword),
            ("top", SemanticTokenKind::Variable),
            ("anchors.left", SemanticTokenKind::Property),
            ("x", SemanticTokenKind::Variable),
            ("left", SemanticTokenKind::Variable),
            ("k", SemanticTokenKind::Property),
            ("1", SemanticTokenKind::Number),
            ("a", SemanticTokenKind::String),
            ("rgb(1,2,3)", SemanticTokenKind::String),
            ("e", SemanticTokenKind::Event),
            ("v", SemanticTokenKind::Property),
            ("#fff", SemanticTokenKind::String),
            ("// c", SemanticTokenKind::Comment),
        ]
    );
}

#[test]
fn outline_of_a_document() {
    let src = "Win < UIWindow\n  Button\n    id: ok\n  Label\n";
    let outline = document_symbols(src);
    assert_eq!(outline.len(), 1);
    let win = &outline[0];
    assert_eq!(win.name, "Win");
    assert_eq!(win.detail.as_deref(), Some("UIWindow"));
    assert_eq!(win.kind, SymbolKind::Object);
    assert_eq!(win.span, ByteSpan::new(0, 42));
    assert_eq!(win.selection_span, ByteSpan::new(0, 3));
    let ok = &win.children[0];
    assert_eq!(ok.name, "ok");
    assert_eq!(ok.detail.as_deref(), Some("Button"));
    assert_eq!(ok.kind, SymbolKind::Field);
    assert_eq!(ok.span, ByteSpan::new(17, 34));
    assert_eq!(ok.selection_span, ByteSpan::new(32, 34));
    assert_eq!(win.children[1].name, "Label");
}

#[test]
fn uses_of_a_style_and_of_an_id() {
    let src = "A < UIX\nB < A\n  id: a\n  C\n    id: a\n    anchors.top: a.bottom\n";
    let style = style_name_occurrences(src, "A");
    assert_eq!(style.declarations, [ByteSpan::new(0, 1)]);
    assert_eq!(style.base_refs, [ByteSpan::new(12, 13)]);
    let id = id_occurrences(src, "a");
    assert_eq!(id.declaration, Some(ByteSpan::new(20, 21)));
    assert!(id.has_duplicate_declaration);
    assert_eq!(id.anchor_refs.len(), 1);
    let none = id_occurrences(src, "zzz");
    assert_eq!(none.declaration, None);
    assert!(none.anchor_refs.is_empty() && !none.has_duplicate_declaration);
}

#[test]
fn styles_of_a_workspace() {
    let index = styles(&[
        ("a.otui", "Base < UIWidget\nSub < Base\n"),
        ("b.otui", "Sub < Base\n  id: root\n  __class: UIThing\n"),
    ]);
    assert_eq!(index.lookup("Sub").len(), 2);
    assert_eq!(index.subtypes("Base").len(), 2);
    assert!(index.declares("Base"));
    assert!(!index.declares("UIWidget"));
    assert_eq!(index.iter().len(), 3);
    let docs: Vec<&DocId> = index.lookup("Base").into_iter().map(|(doc, _)| doc).collect();
    assert_eq!(docs, [&DocId::new("a.otui")]);
    let hit = index.lookup("Sub")[1].1;
    assert_eq!(hit.base.as_deref(), Some("Base"));
    assert_eq!(hit.class.as_deref(), Some("UIThing"));
    assert_eq!(hit.body_ids.len(), 1);
    assert_eq!(hit.body_ids[0].id, "root");
}

#[test]
fn an_ancestry_goes_through_styles_and_lua() {
    let index = styles(&[("a", "Fancy < Table\nTable < UITable\n")]);
    let classes = lua(&[("t.lua", "UITable = extends(UIWidget, 'UITable')\n")]);
    let ancestry = resolve_ancestry("Fancy", &index, &classes);
    assert_eq!(ancestry.chain, ["Fancy", "Table", "UITable", "UIWidget"]);
    assert_eq!(ancestry.native.as_deref(), Some("UITable"));
}

#[test]
fn colors_and_borders() {
    assert_eq!(color_value("#f80"), Some(Rgba::from_u8(0xff, 0x88, 0x00, 0xff)));
    assert_eq!(color_value("#11223344"), Some(Rgba::from_u8(0x11, 0x22, 0x33, 0x44)));
    assert_eq!(color_value("red"), Some(Rgba::from_u8(255, 0, 0, 255)));
    assert_eq!(color_value("#12345"), None);
    assert_eq!(color_value("nonsense"), None);
    assert!(is_valid_border("1 solid red"));
    assert!(is_valid_border("none"));
    assert!(!is_valid_border("solid"));
}

#[test]
fn what_a_property_takes() {
    assert!(matches!(classify_value("color"), PropertyValueKind::Color));
    assert!(matches!(classify_value("border"), PropertyValueKind::Border));
    assert!(matches!(classify_value("image-source"), PropertyValueKind::AssetPath));
    assert!(matches!(classify_value("display"), PropertyValueKind::Enum { .. }));
}

#[test]
fn hover_on_a_property() {
    let none = styles(&[]);
    let no_lua = lua(&[]);
    let src = "Panel\n  color: red\n  zzz: 1\n";
    let hover = property_hover_at(src, 9, &none, &no_lua).expect("a hover");
    assert_eq!(hover.name, "color");
    assert_eq!(hover.span, ByteSpan::new(8, 13));
    assert!(matches!(
        hover.origin,
        PropertyOrigin::Engine { kind: PropertyValueKind::Color }
    ));
    assert!(property_hover_at(src, 15, &none, &no_lua).is_none());
    assert!(property_hover_at(src, 22, &none, &no_lua).is_none());
    let classes = lua(&[(
        "p.lua",
        "Panel = extends(UIWidget, 'Panel')\nfunction Panel:onStyleApply(n, node)\n  for name, value in pairs(node) do\n    if name == 'zzz' then\n    end\n  end\nend\n",
    )]);
    let hover = property_hover_at(src, 22, &none, &classes).expect("a hover");
    assert!(matches!(hover.origin, PropertyOrigin::Widget));
}

#[test]
fn every_kind_of_finding() {
    assert_eq!(codes("Panel\n\tid: a\n"), ["tab-indentation"]);
    assert_eq!(codes("Panel\n id: a\n"), ["odd-indentation"]);
    assert_eq!(codes("Panel\n    id: a\n"), ["invalid-indentation-depth"]);
    assert_eq!(codes("Panel\n  x: [a\n"), ["syntax-error"]);
    assert_eq!(codes("Panel\n  $nope:\n    opacity: 1\n"), ["unknown-state"]);
    assert_eq!(codes("Panel\n  anchors.tpo: parent.top\n"), ["invalid-anchor-edge"]);
    assert_eq!(codes("Panel\n  Label\n  width: 3\n"), ["property-after-child"]);
    assert_eq!(
        codes("Panel\n  layout: verticalBox\n  Label\n    anchors.top: parent.top\n"),
        ["anchor-parent-no-anchor-layout"]
    );
    assert_eq!(codes("Panel\n  widht: 3\n"), ["unknown-property"]);
    assert_eq!(codes("Panel\n  display: nope\n"), ["invalid-property-value"]);
    let none = styles(&[]);
    let no_lua = lua(&[]);
    let ctx = WidgetContext { styles: &none, lua: &no_lua };
    let base = analyze_with_widgets("A < B\n", &ctx);
    assert_eq!(base[0].code, "unknown-base");
    assert_eq!(base[0].severity, Severity::Warning);
    assert_eq!(base[0].span, ByteSpan::new(4, 5));
    let root = analyze_with_widgets("Nowhere\n", &ctx);
    assert_eq!(root[0].code, "unknown-root-style");
    assert_eq!(root[0].severity, Severity::Error);
}

#[test]
fn every_kind_of_finding_about_a_manifest() {
    let codes = |found: Vec<otui_core::lang_api::Diagnostic>| -> Vec<&'static str> {
        found.iter().map(|d| d.code).collect()
    };
    assert_eq!(codes(analyze_manifest("Panel\n")), ["missing-module-root"]);
    assert_eq!(codes(analyze_manifest("Module\n  nonsense: x\n")), ["unknown-manifest-key"]);
    assert_eq!(codes(analyze_font_manifest("Module\n")), ["missing-font-root"]);
    assert!(analyze_manifest("Module\n  name: x\n").is_empty());
}

#[test]
fn the_service_hands_on_what_the_modules_find() {
    let service = OtuiService::default();
    let src = "Win < UIWindow\n  id: main\n  image-source: /a\n  color: #ff0000\n  Button\n    anchors.top: main.top\n";
    let index = styles(&[("w.otui", src)]);
    let classes = lua(&[]);
    assert_eq!(service.style_defs(src).len(), 1);
    assert_eq!(service.lua_widgets("X = extends(UIY, 'X')\n").len(), 1);
    assert_eq!(service.lua_id_refs("w:getChildById('x')\n").len(), 1);
    assert_eq!(service.lua_id_defs("w:setId('x')\n").len(), 1);
    assert!(service.diagnostics(src).is_empty());
    let (found, paths) = service.diagnostics_with_widgets_and_links(src, &index, &classes);
    assert_eq!(found, service.diagnostics_with_widgets(src, &index, &classes));
    assert_eq!(paths, service.document_links(src));
    assert_eq!(paths.len(), 1);
    assert_eq!(service.asset_ref_at(src, paths[0].span.start).as_ref(), Some(&paths[0]));
    assert_eq!(service.base_reference_at(src, 7).map(|r| r.name).as_deref(), Some("UIWindow"));
    assert_eq!(service.style_header_at(src, 0).map(|r| r.name).as_deref(), Some("Win"));
    assert_eq!(service.id_at(src, 21).map(|r| r.id).as_deref(), Some("main"));
    assert_eq!(service.style_name_occurrences(src, "Win").declarations.len(), 1);
    assert_eq!(service.id_occurrences(src, "main").anchor_refs.len(), 1);
    assert!(service.style_hover_at(src, 0, &index, &classes).is_some());
    assert!(service.property_hover_at(src, src.find("color").unwrap(), &index, &classes).is_some());
    assert_eq!(
        service.style_type_at(src, src.find("Button").unwrap()).map(|r| r.name).as_deref(),
        Some("Button")
    );
    assert_eq!(service.document_colors(src).len(), 1);
    assert_eq!(service.format(src).as_deref(), Some(src));
    assert_eq!(service.format_line_edits(src, 0, 9).map(|e| e.len()), Some(0));
    assert_eq!(service.indent_for_line(src, 1), Some(2));
    assert_eq!(service.folding_ranges(src).len(), 2);
    assert_eq!(service.document_symbols(src).len(), 1);
    assert!(!service.semantic_tokens(src).is_empty());
    let states = service.complete_at("Panel\n  $\n", 9);
    assert!(states.iter().all(|item| item.kind == CompletionKind::EnumMember));
    assert_eq!(states.len(), 14);
    let more = service.complete_with_widgets("Panel\n  $\n", 9, &index, &classes);
    assert_eq!(more.len(), 14);
    let whole = ByteSpan::new(0, 20);
    assert_eq!(service.quick_fixes("Panel\n  widht: 3\n", whole).len(), 1);
    assert_eq!(service.quick_fixes_structural("Panel\n  widht: 3\n", whole).len(), 0);
    assert_eq!(service.quick_fixes_structural("Panel\n\tid: a\n", whole).len(), 1);
}
