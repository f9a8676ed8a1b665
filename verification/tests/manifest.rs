use otui_core::lang_api::{Diagnostic, Severity};
use otui_core::manifest::{
    MISSING_FONT_ROOT, MISSING_MODULE_ROOT, UNKNOWN_MANIFEST_KEY, analyze_font_manifest,
    analyze_manifest,
};

fn codes(diags: &[Diagnostic]) -> Vec<&str> {
    diags.iter().map(|d| d.code).collect()
}

#[test]
fn a_well_formed_manifest_has_no_diagnostics() {
    let src = "\
Module
  name: game_shop
  description: In-game shop
  author: someone
  website: https://example.invalid
  version: 1.0
  enabled: true
  autoload: false
  reloadable: true
  sandboxed: true
  autoload-priority: 100
  dependencies: [ game_things ]
  scripts: [ game_shop ]
  load-later: [ game_bosstiary ]
  @onLoad: init()
  @onUnload: terminate()
";
    let diags = analyze_manifest(src);
    assert!(diags.is_empty(), "unexpected diagnostics: {diags:?}");
}

#[test]
fn an_unknown_key_is_a_hint_never_an_error() {
    let src = "Module\n  name: game_shop\n  minClientVersion: 1511\n";
    let diags = analyze_manifest(src);
    assert_eq!(codes(&diags), vec![UNKNOWN_MANIFEST_KEY]);
    assert_eq!(diags[0].severity, Severity::Hint);
    assert_eq!(
        &src[diags[0].span.start..diags[0].span.end],
        "minClientVersion"
    );
}

#[test]
fn onload_and_onunload_are_known_events_not_flagged() {
    let src = "Module\n  @onLoad: init()\n  @onUnload: terminate()\n";
    assert!(analyze_manifest(src).is_empty());
}

#[test]
fn scripts_and_dependencies_and_load_later_are_accepted() {
    let src = "Module\n  scripts: [ a, b ]\n  dependencies: [ c ]\n  load-later: [ d ]\n";
    assert!(analyze_manifest(src).is_empty());
}

#[test]
fn a_missing_module_root_is_an_error() {
    let src = "SomethingElse\n  name: x\n";
    let diags = analyze_manifest(src);
    assert_eq!(codes(&diags), vec![MISSING_MODULE_ROOT]);
    assert_eq!(diags[0].severity, Severity::Error);
}

#[test]
fn an_empty_document_is_also_a_missing_module_root() {
    let diags = analyze_manifest("");
    assert_eq!(codes(&diags), vec![MISSING_MODULE_ROOT]);
}

#[test]
fn a_module_root_found_among_other_top_level_nodes_is_accepted() {
    let src = "SomethingElse\n  x: 1\nModule\n  name: y\n";
    assert!(analyze_manifest(src).is_empty());
}

#[test]
fn a_module_with_an_inline_base_does_not_count_as_the_root() {
    let src = "Module < Something\n  name: x\n";
    let diags = analyze_manifest(src);
    assert_eq!(codes(&diags), vec![MISSING_MODULE_ROOT]);
}

#[test]
fn tab_indentation_is_still_a_hard_error_on_a_manifest() {
    // The structural passes are schema-agnostic and still apply to a manifest.
    let src = "Module\n\tname: x\n";
    let diags = analyze_manifest(src);
    assert!(
        diags
            .iter()
            .any(|d| d.code == otui_core::diagnostics::TAB_INDENTATION
                && d.severity == Severity::Error),
        "{diags:?}"
    );
}

#[test]
fn a_syntax_error_is_still_reported_on_a_manifest() {
    let src = "Module\n  name\tbroken: value\n";
    let diags = analyze_manifest(src);
    assert!(
        diags
            .iter()
            .any(|d| d.code == otui_core::diagnostics::SYNTAX_ERROR),
        "{diags:?}"
    );
}

#[test]
fn no_widget_unknown_property_ever_fires_on_a_manifest() {
    let src = "\
Module
  name: game_shop
  description: In-game shop
  scripts: [ game_shop ]
  sandboxed: true
  @onLoad: init()
";
    let diags = analyze_manifest(src);
    assert!(
        diags.iter().all(|d| d.code != "unknown-property"),
        "{diags:?}"
    );
    assert!(diags.is_empty(), "{diags:?}");
}

#[test]
fn a_real_engine_manifest_shape_is_accepted_verbatim() {
    // `modules/game_topmenu/topmenu.otmod`-style real manifest shape.
    let src = "\
Module
  name: client_topmenu
  description: Client topmenu
  author: OTClient team
  website: https://github.com/edubart/otclient
  sandboxed: true
  scripts: [ topmenu ]
  @onLoad: init()
  @onUnload: terminate()
";
    assert!(analyze_manifest(src).is_empty());
}

#[test]
fn a_well_formed_font_manifest_has_no_diagnostics() {
    // `data/fonts/otfont/small-9px.otfont`-style real shape.
    let src = "\
Font
  name: small-9px
  texture: small-9px
  height: 9
  glyph-size: 9 9
  space-width: 3
  spacing: 1 0
  y-offset: 0
  first-glyph: 32
  fixed-glyph-width: 9
  default: true
  widget-default: true
";
    let diags = analyze_font_manifest(src);
    assert!(diags.is_empty(), "unexpected diagnostics: {diags:?}");
}

#[test]
fn an_unknown_font_key_is_a_hint_never_an_error() {
    // `verdana-10px-rounded.otfont`'s real `x-offset:` key — `BitmapFont::load` reads
    // `y-offset` but never `x-offset`.
    let src = "Font\n  name: verdana-10px-rounded\n  x-offset: 1\n";
    let diags = analyze_font_manifest(src);
    assert_eq!(codes(&diags), vec![UNKNOWN_MANIFEST_KEY]);
    assert_eq!(diags[0].severity, Severity::Hint);
    assert_eq!(&src[diags[0].span.start..diags[0].span.end], "x-offset");
}

#[test]
fn a_missing_font_root_is_an_error() {
    let src = "SomethingElse\n  name: x\n";
    let diags = analyze_font_manifest(src);
    assert_eq!(codes(&diags), vec![MISSING_FONT_ROOT]);
    assert_eq!(diags[0].severity, Severity::Error);
}

#[test]
fn a_module_manifest_key_is_unknown_under_the_font_schema_and_vice_versa() {
    // The two schemas are disjoint: `scripts:` (a module key) is not a font key, and `texture:`
    // (a font key) is not a module key. Each is judged only against its own schema.
    let module_src = "Module\n  name: m\n  texture: t\n";
    let diags = analyze_manifest(module_src);
    assert_eq!(codes(&diags), vec![UNKNOWN_MANIFEST_KEY]);
    assert_eq!(
        &module_src[diags[0].span.start..diags[0].span.end],
        "texture"
    );

    let font_src = "Font\n  name: f\n  scripts: [ x ]\n";
    let diags = analyze_font_manifest(font_src);
    assert_eq!(codes(&diags), vec![UNKNOWN_MANIFEST_KEY]);
    assert_eq!(&font_src[diags[0].span.start..diags[0].span.end], "scripts");
}
