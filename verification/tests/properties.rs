//! Properties that hold of every document, tried on a few.

use otui_core::completion::{complete_at, snippet_escape};
use otui_core::diagnostics::{analyze, analyze_with_widgets, WidgetContext};
use otui_core::fixes::{edit_distance, quick_fixes};
use otui_core::folding::folding_ranges;
use otui_core::indent::indent_for_line;
use otui_core::lang_api::{ByteSpan, Diagnostic, DocumentSymbol, Severity};
use otui_core::links::{asset_ref_at, document_links, resolve_asset_candidates};
use otui_core::lenses::style_lenses;
use otui_core::lua_refs::{excluded_ranges, scan_id_refs, LuaRefIndex};
use otui_core::lua_ui_loads::scan_ui_loads;
use otui_core::lua_widgets::{scan_widgets, LuaWidgetIndex};
use otui_core::manifest::analyze_manifest;
use otui_core::names::{comes_before, contains_name, insert_name};
use otui_core::navigation::{base_reference_at, id_at, style_header_at};
use otui_core::order::sort_by_place;
use otui_core::references::id_occurrences;
use otui_core::semantic::tokens;
use otui_core::style_index::{extract_style_defs, StyleIndex};
use otui_core::symbols::document_symbols;
use otui_core::syntax::SyntaxTree;
use otui_core::widget_resolve::resolve_ancestry;

const WINDOW: &str = "\
MainWindow < UIWindow
  id: main
  // the frame
  size: 200 300
  image-source: /images/ui/window
  $hover !disabled:
    opacity: 0.5
  Button
    id: close
    anchors.top: parent.top
    anchors.left: main.left
    @onClick: |
      self:hide()
      return true
  Label
    !text: tr('Hello')
    color: [red, #00ff00]
";

const CROOKED: &str = "Panel\n   id:a\n\twidth:  3  \n\n   Label\n      text :  x y\n\n\n";

fn styles(docs: &[(&str, &str)]) -> StyleIndex {
    let mut index = StyleIndex::new();
    for (doc, src) in docs {
        let tree = SyntaxTree::parse(src).expect("every document has a tree");
        index.set_document(*doc, extract_style_defs(&tree));
    }
    index
}

fn lua(docs: &[(&str, &str)]) -> LuaWidgetIndex {
    let mut index = LuaWidgetIndex::new();
    for (doc, src) in docs {
        index.set_document(*doc, scan_widgets(src));
    }
    index
}

fn words(text: &str) -> String {
    text.chars().filter(|c| !c.is_whitespace()).collect()
}

#[test]
fn formatting_twice_is_formatting_once() {
    for src in [WINDOW, CROOKED, "", "\n\n", "A\n  @x: |\n    y()\n\n\n"] {
        let once = otui_core::format::format(src).expect("formats");
        assert_eq!(otui_core::format::format(&once), Some(once.clone()));
    }
}

#[test]
fn a_document_whose_block_scalar_would_lose_or_gain_lines_is_not_formatted() {
    for src in [
        "A\n b:\n  c:\n   @x: |\n     y()\n",
        "Panel\n x: |\n  a:b\n",
        "Panel\n x: |\n  body\n",
        "Panel\n  x: |\n  // c\n    k:v\n",
    ] {
        assert_eq!(otui_core::format::format(src), None, "{src:?}");
        assert_eq!(otui_core::format::format_line_edits(src, 0, 9), None, "{src:?}");
    }
    assert_eq!(
        otui_core::format::format("Panel\n x: |\n   a:b\n"),
        Some("Panel\n  x: |\n   a:b\n".to_owned())
    );
}

#[test]
fn formatting_keeps_the_lines_of_a_block_scalar() {
    let src = "Panel\n    @x:|\n      a:b  \n\n         c\n";
    assert_eq!(
        otui_core::format::format(src),
        Some("Panel\n  @x: |\n      a:b  \n\n         c\n".to_owned())
    );
}

#[test]
fn formatting_keeps_every_word() {
    for src in [WINDOW, CROOKED, "A\n  b:   c\u{a0}d\u{3000}\n"] {
        let formatted = otui_core::format::format(src).expect("formats");
        assert_eq!(words(&formatted), words(src));
    }
}

#[test]
fn formatting_keeps_kinds_keys_and_parents() {
    let formatted = otui_core::format::format(CROOKED).expect("formats");
    let old = SyntaxTree::parse(CROOKED).expect("a tree");
    let new = SyntaxTree::parse(&formatted).expect("a tree");
    assert_eq!(old.statements().len(), new.statements().len());
    for (a, b) in old.statements().iter().zip(new.statements()) {
        assert_eq!(a.kind, b.kind);
        assert_eq!(a.parent, b.parent);
        assert_eq!(
            CROOKED[a.key.start..a.key.end],
            formatted[b.key.start..b.key.end]
        );
    }
}

#[test]
fn a_crooked_document_is_straightened() {
    assert_eq!(
        otui_core::format::format("Panel\n   id:a\n   Label\n      text :  x y\n\n\n"),
        Some("Panel\n  id: a\n  Label\n    text : x y\n".to_owned())
    );
}

#[test]
fn a_document_with_an_unreadable_line_is_not_formatted() {
    assert_eq!(otui_core::format::format("Panel\n  x: [a, b\n"), None);
    assert_eq!(
        otui_core::format::format_line_edits("Panel\n  x: [a, b\n", 0, 9),
        None
    );
}

#[test]
fn line_edits_are_the_lines_that_formatting_changes() {
    let src = "Panel\n   id:a\n  width: 3\n";
    let edits = otui_core::format::format_line_edits(src, 0, 9).expect("formats");
    assert_eq!(edits.len(), 2);
    assert_eq!(edits[0].span, ByteSpan::new(6, 13));
    assert_eq!(edits[0].text, "  id: a");
    let lines: Vec<&str> = src.lines().collect();
    let formatted = otui_core::format::format(src).expect("formats");
    let changed: Vec<&str> = formatted
        .lines()
        .zip(&lines)
        .filter(|(new, old)| new != *old)
        .map(|(new, _)| new)
        .collect();
    let texts: Vec<&str> = edits.iter().map(|e| e.text.as_str()).collect();
    assert_eq!(texts, changed);
    assert!(otui_core::format::format_line_edits(src, 5, 9)
        .expect("formats")
        .is_empty());
}

#[test]
fn the_offered_indentation_is_that_of_the_formatted_line() {
    let src = "Panel\n  id: a\n  Label\n    text: x\n    width: 3\n";
    for (i, line) in src.lines().enumerate() {
        let own = line.len() - line.trim_start().len();
        if i != 0 {
            assert_eq!(indent_for_line(src, i as u32), Some(own), "line {i}");
        }
    }
    assert_eq!(indent_for_line(src, 0), Some(0));
    assert_eq!(indent_for_line(src, 5), Some(4));
    assert_eq!(indent_for_line("A\n\tid: x\n", 2), None);
    assert_eq!(indent_for_line("Panel\n\t// note\n", 1), None);
    assert_eq!(indent_for_line("Panel\n\t\t\n", 1), None);
    assert_eq!(indent_for_line("Panel\n  // note\n", 1), Some(2));
    assert_eq!(indent_for_line("Panel\n\t// note\n", 2), Some(2));
    assert_eq!(indent_for_line("A\n  @x: |\n    y\n", 2), None);
}

#[test]
fn tokens_follow_each_other() {
    let mut end: usize = 0;
    for token in tokens(WINDOW) {
        assert!(end <= token.span.start);
        assert!(token.span.start <= token.span.end);
        end = token.span.end;
    }
    assert!(end <= WINDOW.len());
}

fn nests(symbol: &DocumentSymbol) {
    assert!(symbol.span.start <= symbol.selection_span.start);
    assert!(symbol.selection_span.end <= symbol.span.end);
    for child in &symbol.children {
        assert!(symbol.span.start <= child.span.start);
        assert!(child.span.end <= symbol.span.end);
        nests(child);
    }
}

#[test]
fn symbols_lie_in_each_other() {
    let symbols = document_symbols(WINDOW);
    assert_eq!(symbols.len(), 1);
    assert_eq!(symbols[0].children.len(), 2);
    for symbol in &symbols {
        nests(symbol);
    }
}

#[test]
fn pointing_at_a_path_finds_the_path_of_the_document() {
    let all = document_links(WINDOW);
    assert_eq!(all.len(), 1);
    for offset in 0..WINDOW.len() {
        let expected = all
            .iter()
            .find(|p| p.span.start <= offset && offset < p.span.end);
        assert_eq!(asset_ref_at(WINDOW, offset).as_ref(), expected);
    }
}

#[test]
fn pointing_at_an_id_finds_its_uses() {
    for offset in 0..WINDOW.len() {
        if let Some(id) = id_at(WINDOW, offset) {
            let uses = id_occurrences(WINDOW, &id.id);
            let mut all = uses.anchor_refs.clone();
            all.extend(uses.declaration);
            assert!(all.contains(&id.span), "{offset}");
        }
    }
    let main = id_occurrences(WINDOW, "main");
    for span in main.anchor_refs.iter().chain(&main.declaration) {
        assert_eq!(id_at(WINDOW, span.start).map(|r| r.span), Some(*span));
    }
    assert_eq!(main.anchor_refs.len(), 1);
    assert!(!main.has_duplicate_declaration);
}

#[test]
fn a_base_belongs_to_the_header_under_the_same_offset() {
    for offset in 0..WINDOW.len() {
        if let Some(base) = base_reference_at(WINDOW, offset) {
            let header = style_header_at(WINDOW, offset).expect("a header");
            assert_eq!(header.base_span, Some(base.span));
            assert_eq!(header.base, Some(base.name));
        }
    }
}

#[test]
fn findings_are_ordered_and_lie_in_the_text() {
    let src = "Panel\n\tid: a\n   width: x\n  $nowhere:\n    displai: none\n  display: nope\n";
    let findings = analyze(src);
    assert!(findings.len() >= 4);
    for pair in findings.windows(2) {
        assert!(
            (pair[0].span.start, pair[0].span.end) <= (pair[1].span.start, pair[1].span.end)
        );
    }
    for finding in &findings {
        assert!(finding.span.start <= finding.span.end && finding.span.end <= src.len());
    }
}

#[test]
fn an_empty_workspace_changes_no_finding_where_only_classes_are_named() {
    let src = "A < UIWidget\n  foo: 1\n  id: a\n";
    let none = styles(&[]);
    let no_lua = lua(&[]);
    let ctx = WidgetContext {
        styles: &none,
        lua: &no_lua,
    };
    assert_eq!(analyze_with_widgets(src, &ctx), analyze(src));
    assert_eq!(analyze(src).len(), 1);
}

#[test]
fn a_name_that_is_no_class_is_unknown_in_an_empty_workspace() {
    let none = styles(&[]);
    let no_lua = lua(&[]);
    let ctx = WidgetContext {
        styles: &none,
        lua: &no_lua,
    };
    let findings = analyze_with_widgets("A < Nowhere\n", &ctx);
    assert_eq!(findings.len(), 1);
    assert_eq!(findings[0].code, "unknown-base");
    assert!(analyze("A < Nowhere\n").is_empty());
}

#[test]
fn a_correction_rewrites_what_its_finding_points_at() {
    let src = "Panel\n   displai: none\n\tid: x\n";
    let findings = analyze(src);
    let fixes = quick_fixes(src, ByteSpan::new(0, src.len()));
    assert!(fixes.len() >= 3);
    for fix in &fixes {
        assert_eq!(fix.edits.len(), 1);
        let span = fix.edits[0].0;
        let blank = src[span.start..span.end].chars().all(|c| c == ' ' || c == '\t');
        assert!(findings
            .iter()
            .any(|d| d.code == fix.fixes_code && (d.span == span || blank)));
    }
}

#[test]
fn a_word_in_a_snippet_is_inserted_as_it_was() {
    for word in ["plain", "a$b", "x}", "back\\slash", "$}\\"] {
        let snippet = snippet_escape(word);
        let mut inserted = String::new();
        let mut chars = snippet.chars();
        while let Some(c) = chars.next() {
            inserted.push(if c == '\\' { chars.next().expect("a character") } else { c });
        }
        assert_eq!(inserted, word);
    }
}

#[test]
fn the_edit_distance_is_a_distance() {
    for (a, b, d) in [
        ("", "", 0),
        ("", "abc", 3),
        ("widht", "width", 1),
        ("kitten", "sitting", 3),
        ("a", "b", 1),
        ("héllo", "hello", 1),
    ] {
        assert_eq!(edit_distance(a, b), d);
        assert_eq!(edit_distance(b, a), d);
    }
}

#[test]
fn a_fold_ends_behind_its_start() {
    let folds = folding_ranges(WINDOW);
    assert!(!folds.is_empty());
    for fold in folds {
        assert!(fold.start_line < fold.end_line);
        assert!((fold.end_line as usize) < WINDOW.lines().count());
    }
}

#[test]
fn a_document_in_an_index_is_replaced_and_removed() {
    let mut index = LuaRefIndex::new();
    index.set_document("a", scan_id_refs("w:getChildById('x')\n"));
    index.set_document("b", scan_id_refs("w:getChildById('x')\n"));
    index.set_document("a", scan_id_refs("w:getChildById('y')\n"));
    assert_eq!(index.document_count(), 2);
    assert_eq!(index.lookup("x").len(), 1);
    assert_eq!(index.lookup("y").len(), 1);
    let doc = otui_core::doc_index::DocId::new("b");
    assert_eq!(index.remove_document(&doc).map(|refs| refs.len()), Some(1));
    assert!(index.document(&doc).is_none());
    assert!(index.remove_document(&doc).is_none());
    assert_eq!(index.lookup("y").len(), 1);
}

#[test]
fn a_cycle_of_bases_ends() {
    let index = styles(&[("a", "A < B\nB < C\nC < A\n")]);
    let ancestry = resolve_ancestry("A", &index, &lua(&[]));
    assert_eq!(ancestry.chain, ["A", "B", "C"]);
    assert_eq!(ancestry.native, None);
}

#[test]
fn a_path_has_four_candidates_for_each_installation() {
    let roots = vec!["/one".to_owned(), "/two/".to_owned()];
    let all = resolve_asset_candidates("/a/b", "/doc", &roots);
    assert_eq!(
        all,
        [
            "/one/mods/a/b.png",
            "/one/modules/a/b.png",
            "/one/data/a/b.png",
            "/one/a/b.png",
            "/two/mods/a/b.png",
            "/two/modules/a/b.png",
            "/two/data/a/b.png",
            "/two/a/b.png",
        ]
    );
    assert_eq!(resolve_asset_candidates("a/b.png", "/doc", &roots), ["/doc/a/b.png"]);
    assert!(resolve_asset_candidates("  ", "/doc", &roots).is_empty());
    assert!(resolve_asset_candidates("\"\"", "/doc", &roots).is_empty());
}

#[test]
fn lua_scans_are_ordered() {
    let src = "c.ui.b.a\nw:getChildById('z')\ng_ui.loadUI('q')\ng_ui.displayUI('p')\n";
    let refs: Vec<usize> = scan_id_refs(src).iter().map(|r| r.span.start).collect();
    assert_eq!(refs.len(), 3);
    assert!(refs.windows(2).all(|p| p[0] <= p[1]));
    let loads: Vec<usize> = scan_ui_loads(src).iter().map(|l| l.span.start).collect();
    assert_eq!(loads.len(), 2);
    assert!(loads.windows(2).all(|p| p[0] <= p[1]));
}

#[test]
fn findings_about_a_manifest_are_ordered() {
    let src = "Panel\n\tname: x\n   nonsense: y\n";
    let places: Vec<usize> = analyze_manifest(src).iter().map(|d| d.span.start).collect();
    assert!(places.len() >= 3);
    assert!(places.windows(2).all(|p| p[0] <= p[1]));
}

#[test]
fn comments_and_strings_follow_each_other_and_hold_no_reference() {
    let src = "-- w:getChildById('a')\nx = \"c.ui.b\" --[[ g_ui.loadUI('p') ]]\nw:getChildById('c')\n";
    let ranges = excluded_ranges(src);
    assert!(ranges.len() >= 3);
    assert!(ranges.iter().all(|r| r.0 < r.1 && r.1 <= src.len()));
    assert!(ranges.windows(2).all(|p| p[0].1 <= p[1].0));
    let ids: Vec<String> = scan_id_refs(src).into_iter().map(|r| r.id).collect();
    assert_eq!(ids, ["c"]);
    assert!(scan_ui_loads(src).is_empty());
}

#[test]
fn names_have_one_order() {
    let names = ["", "A", "B", "a", "ab", "b", "\u{e9}"];
    for (i, a) in names.iter().enumerate() {
        for (j, b) in names.iter().enumerate() {
            assert_eq!(comes_before(a, b), i < j, "{a} {b}");
        }
    }
    let mut set: Vec<String> = Vec::new();
    for name in ["b", "a", "ab", "a", "B"] {
        insert_name(&mut set, name.to_owned());
    }
    assert_eq!(set, ["B", "a", "ab", "b"]);
    assert!(contains_name(&set, "ab"));
    assert!(!contains_name(&set, "A"));
}

#[test]
fn sorting_by_place_keeps_the_order_of_equals() {
    let at = |code: &'static str, start: usize, end: usize| Diagnostic {
        severity: Severity::Hint,
        code,
        message: String::new(),
        span: ByteSpan::new(start, end),
    };
    let sorted = sort_by_place(vec![
        at("c", 4, 5),
        at("a", 1, 9),
        at("b", 1, 9),
        at("first", 1, 2),
    ]);
    let codes: Vec<&str> = sorted.iter().map(|d| d.code).collect();
    assert_eq!(codes, ["first", "a", "b", "c"]);
    let again: Vec<&str> = codes.clone();
    let twice: Vec<&str> = sort_by_place(sorted).iter().map(|d| d.code).collect();
    assert_eq!(twice, again);
}

#[test]
fn a_lens_counts_at_least_one_style() {
    let src = "Base < UIWidget\nLeaf < Base\nOther < Base\n";
    let lenses = style_lenses(src, &styles(&[("a", src)]));
    assert_eq!(lenses.len(), 1);
    assert_eq!(lenses[0].derived_count, 2);
    assert_eq!(lenses[0].name_span, ByteSpan::new(0, 4));
}

#[test]
fn a_property_that_a_class_reads_in_lua_is_no_finding() {
    let src = "Grid < UITable\n  column-style: x\n  nonsense: y\n";
    let classes = lua(&[(
        "t.lua",
        "UITable = extends(UIWidget, 'UITable')\nfunction UITable:onStyleApply(n, node)\n  for name, value in pairs(node) do\n    if name == 'column-style' then\n    end\n  end\nend\n",
    )]);
    let index = styles(&[("g", src)]);
    let ctx = WidgetContext {
        styles: &index,
        lua: &classes,
    };
    let alone: Vec<usize> = analyze(src).iter().map(|d| d.span.start).collect();
    let inside: Vec<usize> = analyze_with_widgets(src, &ctx)
        .iter()
        .map(|d| d.span.start)
        .collect();
    assert_eq!(alone.len(), 2);
    assert_eq!(inside, alone[1..]);
}

#[test]
fn a_header_that_closes_a_body_opens_the_next() {
    let src = "function A:onStyleApply(styleName, styleNode)\n  if styleNode.x then\nfunction B:onStyleApply(styleName, styleNode)\n  if styleNode.y then\nend\n";
    let defs = scan_widgets(src);
    assert_eq!(defs.len(), 2);
    assert_eq!(defs[0].name, "A");
    assert_eq!(defs[0].lua_parent, None);
    assert_eq!(defs[0].custom_props, ["x"]);
    assert_eq!(defs[1].name, "B");
    assert_eq!(defs[1].lua_parent, None);
    assert_eq!(defs[1].custom_props, ["y"]);
}

#[test]
fn a_parent_class_is_a_bare_identifier() {
    let defs = scan_widgets("A = extends( UIB , 'A')\nC = extends(x.y, 'C')\nD = extends(a b, 'D')\n");
    let parents: Vec<Option<&str>> = defs.iter().map(|d| d.lua_parent.as_deref()).collect();
    assert_eq!(parents, [Some("UIB"), None, None]);
}

#[test]
fn a_body_ends_before_the_line_that_closes_it() {
    let src = "function A:onStyleApply(styleName, styleNode)\nend styleNode.z\n";
    let defs = scan_widgets(src);
    assert_eq!(defs.len(), 1);
    assert!(defs[0].custom_props.is_empty());
}

#[test]
fn a_long_comment_in_front_moves_the_references() {
    let src = "c.ui.b.a\nw:getChildById('z') -- w:getChildById('q')\nw:recursiveGetChildById(\"y\")\n";
    let plain = scan_id_refs(src);
    assert_eq!(plain.len(), 4);
    for comment in [
        "--[==[ w:getChildById('a') \" ' ]] ]=] .ui.x ]==]",
        "--[==[]==]==]",
        "--[[ x ]]",
    ] {
        let n = comment.len();
        let moved = scan_id_refs(&format!("{comment}{src}"));
        assert_eq!(moved.len(), plain.len(), "{comment}");
        for (a, b) in plain.iter().zip(&moved) {
            assert_eq!(a.id, b.id);
            assert_eq!(a.kind, b.kind);
            assert_eq!((a.span.start + n, a.span.end + n), (b.span.start, b.span.end));
        }
    }
}

#[test]
fn every_part_of_a_state_is_offered_all_states() {
    let whole = complete_at("Button\n  $\n", 10);
    assert_eq!(whole.len(), 14);
    for word in ["h", "ho", "!", "!dis", "zzz", "hover !d"] {
        let src = format!("Button\n  ${word}\n");
        assert_eq!(complete_at(&src, 10 + word.len()), whole, "{word}");
    }
}
