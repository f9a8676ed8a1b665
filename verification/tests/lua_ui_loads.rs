use otui_core::lang_api::ByteSpan;
use otui_core::lua_ui_loads::{UiLoadKind, scan_ui_loads};

fn text(src: &str, span: ByteSpan) -> &str {
    &src[span.start..span.end]
}

#[test]
fn load_ui_with_a_bare_name_is_indexed() {
    let src = "wheelWindow = g_ui.loadUI('wheel')\n";
    let refs = scan_ui_loads(src);
    assert_eq!(refs.len(), 1);
    assert_eq!(refs[0].kind, UiLoadKind::LoadUi);
    assert_eq!(refs[0].path, "wheel");
    assert_eq!(text(src, refs[0].span), "wheel");
}

#[test]
fn load_ui_with_a_path_argument_is_indexed() {
    let src = "wheelOfDestinyWindow = g_ui.loadUI('styles/wheelMenu', mainPanel)\n";
    let refs = scan_ui_loads(src);
    assert_eq!(refs.len(), 1);
    assert_eq!(refs[0].path, "styles/wheelMenu");
    assert_eq!(text(src, refs[0].span), "styles/wheelMenu");
}

#[test]
fn display_ui_is_indexed() {
    let src = "serverListWindow = g_ui.displayUI('serverlist')\n";
    let refs = scan_ui_loads(src);
    assert_eq!(refs.len(), 1);
    assert_eq!(refs[0].kind, UiLoadKind::DisplayUi);
    assert_eq!(refs[0].path, "serverlist");
}

#[test]
fn import_style_is_indexed() {
    let src = "g_ui.importStyle(\"styles/style.otui\")\n";
    let refs = scan_ui_loads(src);
    assert_eq!(refs.len(), 1);
    assert_eq!(refs[0].kind, UiLoadKind::ImportStyle);
    assert_eq!(refs[0].path, "styles/style.otui");
}

#[test]
fn set_ui_with_a_bare_name_is_indexed() {
    let src = "function init()\n  controller:setUI('game_highscore')\nend\n";
    let refs = scan_ui_loads(src);
    assert_eq!(refs.len(), 1);
    assert_eq!(refs[0].kind, UiLoadKind::SetUi);
    assert_eq!(refs[0].path, "game_highscore");
    assert_eq!(text(src, refs[0].span), "game_highscore");
}

#[test]
fn set_ui_without_a_colon_receiver_is_not_indexed() {
    assert!(scan_ui_loads("setUI('x')\n").is_empty());
    assert!(scan_ui_loads("foo.setUI('x')\n").is_empty());
    assert!(scan_ui_loads("g_ui.setUI('x')\n").is_empty());
}

#[test]
fn set_ui_with_a_parent_second_argument_is_indexed() {
    let src = "controller:setUI('options', parentWidget)\n";
    let refs = scan_ui_loads(src);
    assert_eq!(refs.len(), 1);
    assert_eq!(refs[0].kind, UiLoadKind::SetUi);
    assert_eq!(refs[0].path, "options");
}

#[test]
fn set_ui_method_definition_site_is_not_indexed() {
    // `Controller:setUI`'s own definition (`modules/modulelib/controller.lua`): the first
    // "argument" is the bare identifier `name`, not a string literal, so it is rejected by the
    // same rule that rejects any variable argument — no special-casing needed.
    let src = "function Controller:setUI(name, parent)\n  self.dataUI = { name = name, parent = parent }\nend\n";
    assert!(scan_ui_loads(src).is_empty());
}

#[test]
fn set_ui_inside_a_comment_is_not_indexed() {
    let src = "-- controller:setUI('ghost')\n";
    assert!(scan_ui_loads(src).is_empty());
}

#[test]
fn set_ui_as_a_substring_of_a_longer_identifier_is_not_indexed() {
    // The bare-word scan must reject identifiers that merely CONTAIN `setUI`: the whole-word
    // boundary check guards both sides — a preceding ident byte (`resetUI`) and a following one
    // (`setUIState`) both disqualify the match.
    assert!(scan_ui_loads("controller:resetUI('x')\n").is_empty());
    assert!(scan_ui_loads("controller:setUIState('x')\n").is_empty());
}

#[test]
fn set_ui_inside_a_string_is_not_indexed() {
    let src = "local code = [[ controller:setUI('ghost') ]]\ncontroller:setUI('real')\n";
    let refs = scan_ui_loads(src);
    assert_eq!(refs.len(), 1);
    assert_eq!(refs[0].path, "real");
}

#[test]
fn a_second_argument_does_not_suppress_the_first() {
    let src = "panels.generalPanel = g_ui.loadUI('styles/controls/general', \
                   controller.ui.optionsTabContent)\n";
    let refs = scan_ui_loads(src);
    assert_eq!(refs.len(), 1);
    assert_eq!(refs[0].path, "styles/controls/general");
}

#[test]
fn lua_ui_loads_a_concatenated_argument_is_not_indexed() {
    let src = "ui = g_ui.loadUI('/' .. self.name .. '/' .. source, parent or rootWidget)\n";
    assert!(
        scan_ui_loads(src).is_empty(),
        "a concatenation-built path must never be indexed"
    );
}

#[test]
fn lua_ui_loads_a_variable_argument_is_not_indexed() {
    let src = "actionBars[i] = g_ui.loadUI(layout, parent)\n";
    assert!(scan_ui_loads(src).is_empty());
}

#[test]
fn a_load_inside_a_line_comment_is_not_indexed() {
    let src = "-- g_ui.loadUI('ghost')\n";
    assert!(scan_ui_loads(src).is_empty());
}

#[test]
fn a_load_inside_a_block_comment_is_not_indexed() {
    let src = "--[[\ng_ui.loadUI('ghost')\n]]\nlocal x = 1\n";
    assert!(scan_ui_loads(src).is_empty());
}

#[test]
fn a_load_inside_a_string_is_not_indexed() {
    let src = "local code = [[ g_ui.loadUI('ghost') ]]\ng_ui.loadUI('real')\n";
    let refs = scan_ui_loads(src);
    assert_eq!(refs.len(), 1);
    assert_eq!(refs[0].path, "real");
}

#[test]
fn lua_ui_loads_both_quote_styles_are_recognized() {
    let single = scan_ui_loads("g_ui.loadUI('single')\n");
    assert_eq!(single[0].path, "single");
    let double = scan_ui_loads("g_ui.loadUI(\"double\")\n");
    assert_eq!(double[0].path, "double");
}

#[test]
fn all_four_forms_in_one_file_are_all_found_in_span_order() {
    let src = "g_ui.importStyle('style.otui')\ng_ui.loadUI('a')\ng_ui.displayUI('b')\n\
                   controller:setUI('c')\n";
    let refs = scan_ui_loads(src);
    let kinds: Vec<UiLoadKind> = refs.iter().map(|r| r.kind).collect();
    assert_eq!(
        kinds,
        [
            UiLoadKind::ImportStyle,
            UiLoadKind::LoadUi,
            UiLoadKind::DisplayUi,
            UiLoadKind::SetUi,
        ]
    );
    let paths: Vec<&str> = refs.iter().map(|r| r.path.as_str()).collect();
    assert_eq!(paths, ["style.otui", "a", "b", "c"]);
}

#[test]
fn a_name_with_g_ui_load_ui_only_as_a_substring_is_not_matched() {
    // The whole-word boundary check must apply to the full multi-segment name, not just its
    // first character: `my_g_ui.loadUI(...)` contains the literal substring `g_ui.loadUI`, but
    // the byte immediately before it (`_`) is an identifier character, so this is not a call to
    // the real `g_ui` global at all.
    let src = "local x = my_g_ui.loadUI('not-real')\n";
    assert!(scan_ui_loads(src).is_empty());
}
