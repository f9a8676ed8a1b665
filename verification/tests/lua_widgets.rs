use otui_core::doc_index::DocId;
use otui_core::lua_widgets::{LuaWidgetDef, LuaWidgetIndex, scan_widgets};

fn props(def: &LuaWidgetDef) -> Vec<&str> {
    def.custom_props.iter().map(String::as_str).collect()
}

#[test]
fn scans_extends_parent_and_on_style_apply_props() {
    // The canonical UITable shape: an `extends` parent plus a five-branch equality chain.
    let src = "\
UITable = extends(UIWidget, 'UITable')

function UITable:onStyleApply(styleName, styleNode)
  for name, value in pairs(styleNode) do
    if name == 'table-data' then
      foo()
    elseif name == 'column-style' then
      bar()
    elseif name == 'row-style' then
      baz()
    elseif name == 'header-column-style' then
      qux()
    elseif name == 'header-row-style' then
      quux()
    end
  end
end
";
    let defs = scan_widgets(src);
    assert_eq!(defs.len(), 1);
    let table = &defs[0];
    assert_eq!(table.name, "UITable");
    assert_eq!(table.lua_parent.as_deref(), Some("UIWidget"));
    assert_eq!(
        props(table),
        [
            "column-style",
            "header-column-style",
            "header-row-style",
            "row-style",
            "table-data",
        ]
    );
}

#[test]
fn handles_single_and_double_quoted_literals() {
    let src = "\
Widget = extends(UIWidget, \"Widget\")

function Widget:onStyleApply(styleName, styleNode)
  for name, value in pairs(styleNode) do
    if name == 'single-quoted' then
    elseif name == \"double-quoted\" then
    end
  end
end
";
    let defs = scan_widgets(src);
    assert_eq!(props(&defs[0]), ["double-quoted", "single-quoted"]);
}

#[test]
fn reads_the_extends_parent_when_double_quoted_name() {
    // The registered name uses double quotes here (`"UIProgressBarSD"`); the parent is still
    // the first, bare-identifier argument.
    let src = "UIProgressBarSD = extends(UIWidget, \"UIProgressBarSD\")\n";
    let defs = scan_widgets(src);
    assert_eq!(defs.len(), 1);
    assert_eq!(defs[0].name, "UIProgressBarSD");
    assert_eq!(defs[0].lua_parent.as_deref(), Some("UIWidget"));
    assert!(defs[0].custom_props.is_empty());
}

#[test]
fn a_widget_with_props_but_no_extends_has_no_parent() {
    // No `extends` line in the scanned text: props are captured, parent is None.
    let src = "\
function UIMinimap:onStyleApply(styleName, styleNode)
  for name, value in pairs(styleNode) do
    if name == 'autowalk' then
      self.autowalk = value
    end
  end
end
";
    let defs = scan_widgets(src);
    assert_eq!(defs.len(), 1);
    assert_eq!(defs[0].name, "UIMinimap");
    assert_eq!(defs[0].lua_parent, None);
    assert_eq!(props(&defs[0]), ["autowalk"]);
}

#[test]
fn a_file_with_no_on_style_apply_yields_no_props() {
    // An `extends` line but no `onStyleApply`: the widget is known (for the parent chain) but
    // contributes no custom properties.
    let src = "\
UIButton = extends(UIWidget, 'UIButton')

function UIButton:onClick()
  doSomething()
end
";
    let defs = scan_widgets(src);
    assert_eq!(defs.len(), 1);
    assert_eq!(defs[0].name, "UIButton");
    assert_eq!(defs[0].lua_parent.as_deref(), Some("UIWidget"));
    assert!(defs[0].custom_props.is_empty());
}

#[test]
fn source_with_neither_construct_is_empty() {
    let src = "local x = 1\nprint('hello')\n";
    assert!(scan_widgets(src).is_empty());
}

#[test]
fn multiple_widgets_in_one_file_are_separated() {
    // uitable.lua declares three widgets in one file; each keeps its own parent and props.
    let src = "\
UITable = extends(UIWidget, 'UITable')

function UITable:onStyleApply(styleName, styleNode)
  for name, value in pairs(styleNode) do
    if name == 'row-style' then
    end
  end
end

UITableRow = extends(UIWidget, 'UITableRow')

function UITableRow:onStyleApply(styleName, styleNode)
  for name, value in pairs(styleNode) do
    if name == 'even-background-color' then
    elseif name == 'odd-background-color' then
    end
  end
end

UITableHeaderColumn = extends(UIButton, 'UITableHeaderColumn')

function UITableHeaderColumn:onClick()
end
";
    let defs = scan_widgets(src);
    assert_eq!(defs.len(), 3);

    let table = defs.iter().find(|d| d.name == "UITable").unwrap();
    assert_eq!(table.lua_parent.as_deref(), Some("UIWidget"));
    assert_eq!(props(table), ["row-style"]);

    let row = defs.iter().find(|d| d.name == "UITableRow").unwrap();
    assert_eq!(row.lua_parent.as_deref(), Some("UIWidget"));
    assert_eq!(
        props(row),
        ["even-background-color", "odd-background-color"]
    );

    let header = defs
        .iter()
        .find(|d| d.name == "UITableHeaderColumn")
        .unwrap();
    assert_eq!(header.lua_parent.as_deref(), Some("UIButton"));
    assert!(header.custom_props.is_empty());
}

#[test]
fn props_from_one_body_do_not_bleed_into_the_next_widget() {
    // The body boundary must stop at the closing `end` so a later method's comparisons are not
    // attributed to the wrong widget.
    let src = "\
function UIScrollArea:onStyleApply(styleName, styleNode)
  for name, value in pairs(styleNode) do
    if name == 'vertical-scrollbar' then
    end
  end
end

function UIScrollArea:someOtherMethod(kind)
  if kind == 'not-a-style-prop' then
  end
end
";
    let defs = scan_widgets(src);
    assert_eq!(defs.len(), 1);
    assert_eq!(props(&defs[0]), ["vertical-scrollbar"]);
}

#[test]
fn honors_a_non_default_loop_key_variable() {
    // The key variable is `k`, not `name`; only `k == '<lit>'` comparisons are props, and the
    // unrelated `other == 'ignored'` on a different variable is not collected.
    let src = "\
function W:onStyleApply(styleName, styleNode)
  for k, v in pairs(styleNode) do
    if k == 'real-prop' then
    elseif other == 'ignored' then
    end
  end
end
";
    let defs = scan_widgets(src);
    assert_eq!(props(&defs[0]), ["real-prop"]);
}

#[test]
fn captures_direct_dot_field_reads() {
    // The UIComboBox shape: `options`/`data` are read as direct fields (before and inside the
    // loop), the rest through `name == '...'`. All are custom props.
    let src = "\
function UIComboBox:onStyleApply(styleName, styleNode)
  if styleNode.options then
    for k, option in pairs(styleNode.options) do
    end
  end
  if styleNode.data then
  end
  for name, value in pairs(styleNode) do
    if name == 'mouse-scroll' then
    elseif name == 'menu-height' then
    end
  end
end
";
    let defs = scan_widgets(src);
    assert_eq!(
        props(&defs[0]),
        ["data", "menu-height", "mouse-scroll", "options"]
    );
}

#[test]
fn captures_bracket_index_reads_including_hyphenated_keys() {
    // The UIMoveableTabBar shape: everything is read via `styleNode['...']`, and the keys are
    // hyphenated — which a bare field access cannot express.
    let src = "\
function UIMoveableTabBar:onStyleApply(styleName, styleNode)
  if styleNode['movable'] then
    self.tabsMoveable = styleNode['movable']
  end
  if styleNode['tab-spacing'] then
    self:setTabSpacing(styleNode['tab-spacing'])
  end
end
";
    let defs = scan_widgets(src);
    assert_eq!(props(&defs[0]), ["movable", "tab-spacing"]);
}

#[test]
fn honors_a_non_default_style_node_parameter_name() {
    // The style-node parameter is `sn`, not `styleNode`; direct reads must key off it.
    let src = "\
function W:onStyleApply(sname, sn)
  if sn.foo then
  end
  if sn['bar-baz'] then
  end
end
";
    let defs = scan_widgets(src);
    assert_eq!(props(&defs[0]), ["bar-baz", "foo"]);
}

#[test]
fn style_node_iteration_and_similar_names_are_not_field_reads() {
    // `pairs(styleNode)` is not a `.`/`[` read, and `myStyleNode` is a different variable — the
    // only real prop here is the `== '...'` one.
    let src = "\
function W:onStyleApply(styleName, styleNode)
  local myStyleNode = something()
  if myStyleNode.ignored then end
  for name, value in pairs(styleNode) do
    if name == 'real' then
    end
  end
end
";
    let defs = scan_widgets(src);
    assert_eq!(props(&defs[0]), ["real"]);
}

#[test]
fn honors_a_renamed_style_node_param_in_the_equality_chain() {
    // The style-node param is renamed (`sn`) AND the loop key is non-default (`k`): the loop-key
    // detection must key off the resolved node var (`pairs(sn)`), not the literal `styleNode`,
    // otherwise the `k == '...'` comparison is missed.
    let src = "\
function W:onStyleApply(sname, sn)
  for k, v in pairs(sn) do
    if k == 'real-prop' then
    end
  end
end
";
    let defs = scan_widgets(src);
    assert_eq!(props(&defs[0]), ["real-prop"]);
}

#[test]
fn accepts_the_reversed_comparison_order() {
    let src = "\
function W:onStyleApply(styleName, styleNode)
  for name, value in pairs(styleNode) do
    if 'flipped' == name then
    end
  end
end
";
    let defs = scan_widgets(src);
    assert_eq!(props(&defs[0]), ["flipped"]);
}

#[test]
fn extends_with_non_identifier_first_arg_has_no_parent() {
    // A first argument that is not a bare identifier leaves the parent unresolved rather than
    // guessing.
    let src = "W = extends('notclass', 'W')\n";
    let defs = scan_widgets(src);
    assert_eq!(defs.len(), 1);
    assert_eq!(defs[0].name, "W");
    assert_eq!(defs[0].lua_parent, None);
}

#[test]
fn index_aggregates_across_documents() {
    let mut index = LuaWidgetIndex::new();
    index.set_document(
        "uitable.lua",
        scan_widgets("UITable = extends(UIWidget, 'UITable')\n"),
    );
    index.set_document(
        "uibutton.lua",
        scan_widgets("UIButton = extends(UIWidget, 'UIButton')\n"),
    );
    assert_eq!(index.document_count(), 2);

    assert_eq!(index.parent_of("UITable"), Some("UIWidget"));
    assert_eq!(index.parent_of("UIButton"), Some("UIWidget"));
    assert_eq!(index.parent_of("Missing"), None);

    assert_eq!(index.lookup("UITable").len(), 1);
    assert!(index.lookup("Missing").is_empty());
}

#[test]
fn parent_of_is_deterministic_for_a_widget_declared_in_two_documents() {
    // The same widget with different `extends` parents in two files (e.g. a fork override) — the
    // winner is picked by document id, stably, never by unordered map iteration.
    let mut index = LuaWidgetIndex::new();
    index.set_document(
        "a.lua",
        scan_widgets("UITable = extends(UIWidget, 'UITable')\n"),
    );
    index.set_document(
        "b.lua",
        scan_widgets("UITable = extends(UIScrollArea, 'UITable')\n"),
    );
    // "a.lua" sorts before "b.lua", so its parent wins — and stays the same every call.
    for _ in 0..8 {
        assert_eq!(index.parent_of("UITable"), Some("UIWidget"));
    }
    // Both declarations are still retained by lookup.
    assert_eq!(index.lookup("UITable").len(), 2);
}

#[test]
fn index_declares_checks_custom_props() {
    let src = "\
UITable = extends(UIWidget, 'UITable')

function UITable:onStyleApply(styleName, styleNode)
  for name, value in pairs(styleNode) do
    if name == 'column-style' then
    end
  end
end
";
    let mut index = LuaWidgetIndex::new();
    index.set_document("uitable.lua", scan_widgets(src));

    assert!(index.declares("UITable", "column-style"));
    assert!(!index.declares("UITable", "not-a-prop"));
    assert!(!index.declares("UIButton", "column-style"));
}

#[test]
fn set_document_replaces_and_remove_drops() {
    let mut index = LuaWidgetIndex::new();
    let doc = DocId::new("w.lua");
    index.set_document(
        doc.clone(),
        scan_widgets("Old = extends(UIWidget, 'Old')\n"),
    );
    assert_eq!(index.parent_of("Old"), Some("UIWidget"));

    // Re-index the same doc: the old widget is gone.
    index.set_document(
        doc.clone(),
        scan_widgets("New = extends(UIWidget, 'New')\n"),
    );
    assert_eq!(index.parent_of("Old"), None);
    assert_eq!(index.parent_of("New"), Some("UIWidget"));
    assert_eq!(index.document_count(), 1);

    let removed = index.remove_document(&doc).expect("was present");
    assert_eq!(removed.len(), 1);
    assert!(index.is_empty());
    assert!(index.remove_document(&doc).is_none());
}
