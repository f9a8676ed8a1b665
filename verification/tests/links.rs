use otui_core::links::{
    asset_ref_at, document_links, is_asset_sentinel_value, is_runtime_variable_path,
    resolve_asset_candidates,
};

/// Byte offset of the first occurrence of `needle` in `src` (panics if absent) — the house cursor
/// helper shared across this crate's `*_at` locator tests.
fn at(src: &str, needle: &str) -> usize {
    src.find(needle).expect("needle present")
}

/// The `(text slice, path)` for each link found, for readable assertions.
fn links_with_text(source: &str) -> Vec<(&str, String)> {
    document_links(source)
        .into_iter()
        .map(|r| (&source[r.span.start..r.span.end], r.path))
        .collect()
}

#[test]
fn finds_image_source_value_with_span() {
    let source = "Panel\n  image-source: /images/ui/window\n";
    let links = document_links(source);
    assert_eq!(links.len(), 1);
    assert_eq!(links[0].path, "/images/ui/window");
    // The span covers exactly the path text.
    assert_eq!(
        &source[links[0].span.start..links[0].span.end],
        "/images/ui/window"
    );
    assert_eq!(links[0].span.start, source.find("/images").unwrap());
}

#[test]
fn finds_icon_and_icon_source_paths() {
    let source =
        "Button\n  icon: /images/icons/ok.png\nOther\n  icon-source: things/sprites.png\n";
    let found = links_with_text(source);
    assert_eq!(
        found,
        vec![
            ("/images/icons/ok.png", "/images/icons/ok.png".to_owned()),
            ("things/sprites.png", "things/sprites.png".to_owned()),
        ]
    );
}

#[test]
fn path_ref_key_is_the_exact_property_tag() {
    let source = "A\n  image-source: a.png\nB\n  icon: b.png\nC\n  icon-source: c.png\n";
    let links = document_links(source);
    let keys: Vec<&str> = links.iter().map(|r| r.key).collect();
    assert_eq!(keys, ["image-source", "icon", "icon-source"]);
}

#[test]
fn ignores_non_path_properties() {
    // `id:` is an `id_property`, `text:` is a non-path `property`; neither is a link.
    let source = "Panel\n  id: main\n  text: Hello World\n  color: red\n";
    assert!(document_links(source).is_empty());
}

#[test]
fn ignores_non_property_nodes() {
    // A bare container tag and a style header must never be links, even one literally spelled
    // like a path-valued key would be (there is none here — these are structural nodes).
    let source = "MainWindow < UIWindow\n  Panel\n    id: body\n";
    assert!(document_links(source).is_empty());
}

#[test]
fn empty_value_yields_no_link() {
    // `image-source:` with no value is not a link (nothing to open).
    let source = "Panel\n  image-source:\n";
    assert!(document_links(source).is_empty());
}

#[test]
fn span_covers_exactly_the_path_and_leaves_the_key_out() {
    // The reported span underlines the path token only — never the `image-source:` key, the `:`,
    // or the separating space. A path with an interior `.` and `/` is reported verbatim, so the
    // extension and directory separators are inside the link.
    let source = "Panel\n  image-source: assets/ui/bg.9.png\n";
    let r = &document_links(source)[0];
    let text = &source[r.span.start..r.span.end];
    assert_eq!(text, "assets/ui/bg.9.png");
    assert_eq!(text, r.path, "span text and stored path agree");
    // The span sits strictly after the `: ` separator (the key/colon are not underlined).
    let colon = source.find(':').unwrap();
    assert!(
        r.span.start > colon + 1,
        "span starts past the `: ` separator"
    );
}

#[test]
fn multiple_links_across_widgets_in_source_order() {
    let source =
        "A\n  image-source: a.png\nB\n  image-source: b.png\nC\n  image-source: c.png\n";
    let paths: Vec<String> = document_links(source).into_iter().map(|r| r.path).collect();
    assert_eq!(paths, ["a.png", "b.png", "c.png"]);
}

#[test]
fn asset_ref_at_cursor_in_image_source_value_returns_it() {
    let source = "Panel\n  image-source: /images/ui/window\n";
    let offset = at(source, "/images") + 1;
    let got = asset_ref_at(source, offset).expect("hit");
    assert_eq!(got.path, "/images/ui/window");
    assert_eq!(&source[got.span.start..got.span.end], "/images/ui/window");
}

#[test]
fn asset_ref_at_cursor_on_key_is_none() {
    // The key position is `property_hover_at`'s job, not this locator's.
    let source = "Panel\n  image-source: /images/ui/window\n";
    assert!(asset_ref_at(source, at(source, "image-source") + 1).is_none());
}

#[test]
fn asset_ref_at_cursor_in_non_path_property_value_is_none() {
    let source = "Panel\n  text: Hello World\n  color: red\n";
    assert!(asset_ref_at(source, at(source, "Hello") + 1).is_none());
    assert!(asset_ref_at(source, at(source, "red") + 1).is_none());
}

#[test]
fn asset_ref_at_cursor_outside_any_property_is_none() {
    let source = "Panel\n  image-source: /images/ui/window\n";
    // On the widget tag name.
    assert!(asset_ref_at(source, at(source, "Panel")).is_none());
    assert!(asset_ref_at("", 0).is_none());
}

#[test]
fn asset_ref_at_covers_each_path_property() {
    let source =
        "Button\n  icon: a.png\nOther\n  icon-source: b.png\nThird\n  image-source: c.png\n";
    assert_eq!(
        asset_ref_at(source, at(source, "a.png") + 1).map(|r| r.path),
        Some("a.png".to_owned())
    );
    assert_eq!(
        asset_ref_at(source, at(source, "b.png") + 1).map(|r| r.path),
        Some("b.png".to_owned())
    );
    assert_eq!(
        asset_ref_at(source, at(source, "c.png") + 1).map(|r| r.path),
        Some("c.png".to_owned())
    );
}

#[test]
fn asset_ref_at_boundary_matches_half_open_convention() {
    // Half-open `[start, end)`: the first char of the path is a hit, and the last char is a hit,
    // but the offset exactly at `end` (one past the last char) is not — consistent with
    // `navigation::base_reference_at`'s `offset_just_past_base_is_not_a_hit`.
    let source = "Panel\n  image-source: a.png\n";
    let start = at(source, "a.png");
    let end = start + "a.png".len();
    assert!(asset_ref_at(source, start).is_some());
    assert!(asset_ref_at(source, end - 1).is_some());
    assert!(asset_ref_at(source, end).is_none());
}

#[test]
fn asset_ref_at_agrees_with_document_links_no_regression_from_refactor() {
    // The shared `path_ref` helper still produces exactly what `document_links` produced before
    // the point-locator was factored out.
    let source = "A\n  image-source: a.png\nB\n  icon: b.png\nC\n  icon-source: c.png\n";
    let bulk = document_links(source);
    assert_eq!(bulk.len(), 3);
    for r in &bulk {
        let offset = r.span.start;
        assert_eq!(asset_ref_at(source, offset).as_ref(), Some(r));
    }
}

// --- asset path resolution ------------------------------------------------

#[test]
fn resolve_asset_candidates_maps_rooted_path_against_workspace_roots() {
    let doc_dir = "/project/modules/game_things";
    let roots = vec![String::from("/data-a"), String::from("/data-b")];
    let candidates = resolve_asset_candidates("/images/ui/window.png", doc_dir, &roots);
    assert_eq!(
        candidates,
        vec![
            String::from("/data-a/mods/images/ui/window.png"),
            String::from("/data-a/modules/images/ui/window.png"),
            String::from("/data-a/data/images/ui/window.png"),
            String::from("/data-a/images/ui/window.png"),
            String::from("/data-b/mods/images/ui/window.png"),
            String::from("/data-b/modules/images/ui/window.png"),
            String::from("/data-b/data/images/ui/window.png"),
            String::from("/data-b/images/ui/window.png"),
        ]
    );
}

#[test]
fn resolve_asset_candidates_finds_an_asset_placed_directly_at_the_bare_install_root() {
    let roots = vec![String::from("/client-root")];
    let candidates =
        resolve_asset_candidates("/foo.png", "/irrelevant/doc/dir", &roots);
    assert!(
        candidates.contains(&String::from("/client-root/foo.png")),
        "the bare install root must be a probed candidate: {candidates:?}"
    );
}

#[test]
fn resolve_asset_candidates_probes_the_overlay_before_the_bare_root() {
    let roots = vec![String::from("/client-root")];
    let candidates =
        resolve_asset_candidates("/foo.png", "/irrelevant/doc/dir", &roots);
    let overlay = candidates
        .iter()
        .position(|c| c == &String::from("/client-root/mods/foo.png"))
        .expect("mods overlay candidate present");
    let bare = candidates
        .iter()
        .position(|c| c == &String::from("/client-root/foo.png"))
        .expect("bare-root candidate present");
    assert!(
        overlay < bare,
        "the mods overlay must be probed before the bare root: {candidates:?}"
    );
}

#[test]
fn resolve_asset_candidates_maps_relative_path_against_doc_dir() {
    // A relative path resolves against the current file's directory, ignoring workspace roots.
    let doc_dir = "/project/modules/game_things";
    let roots = vec![String::from("/data-root")];
    let candidates = resolve_asset_candidates("sprites/ok.png", doc_dir, &roots);
    assert_eq!(
        candidates,
        vec![String::from("/project/modules/game_things/sprites/ok.png")]
    );
}

#[test]
fn resolve_asset_candidates_rooted_with_no_workspace_yields_nothing() {
    // Offline, a `/`-rooted path has no data root to resolve against when no workspace is open.
    let candidates = resolve_asset_candidates("/images/x.png", "/project/sub", &[]);
    assert!(candidates.is_empty());
}

#[test]
fn resolve_asset_candidates_appends_png_to_an_extensionless_path() {
    let roots = vec![String::from("/data")];
    let candidates =
        resolve_asset_candidates("/images/ui/button", "/project", &roots);
    assert_eq!(
        candidates,
        vec![
            String::from("/data/mods/images/ui/button.png"),
            String::from("/data/modules/images/ui/button.png"),
            String::from("/data/data/images/ui/button.png"),
            String::from("/data/images/ui/button.png"),
        ]
    );
}

#[test]
fn resolve_asset_candidates_keeps_an_explicit_extension_as_is() {
    // A path that already carries an extension is probed verbatim — no `.png.png`.
    let candidates = resolve_asset_candidates(
        "sprites/ok.png",
        "/project/mod",
        &[String::from("/data")],
    );
    assert_eq!(
        candidates,
        vec![String::from("/project/mod/sprites/ok.png")]
    );
}

#[test]
fn resolve_asset_candidates_appends_png_to_a_dotted_stem_that_is_not_already_png() {
    let roots = vec![String::from("/data")];
    let candidates =
        resolve_asset_candidates("/images/icon.small", "/project", &roots);
    assert_eq!(
        candidates[0],
        String::from("/data/mods/images/icon.small.png"),
        "the concatenated .png form must be probed: {candidates:?}"
    );
    assert!(
        !candidates.contains(&String::from("/data/mods/images/icon.small")),
        "the literal must NOT be probed — the real engine never falls back to it: {candidates:?}"
    );
}

#[test]
fn resolve_asset_candidates_strips_a_double_quoted_value_before_resolving() {
    let roots = vec![String::from("/data")];
    let candidates =
        resolve_asset_candidates("\"sprites/ok.png\"", "/project", &roots);
    assert_eq!(candidates, vec![String::from("/project/sprites/ok.png")]);
}

#[test]
fn resolve_asset_candidates_does_not_strip_single_quotes() {
    let candidates =
        resolve_asset_candidates("'ok.png'", "/project", &[String::from("/data")]);
    assert_eq!(candidates, vec![String::from("/project/'ok.png'.png")]);
}

#[test]
fn is_asset_sentinel_value_recognizes_an_inline_base64_image() {
    assert!(is_asset_sentinel_value(
        "image-source",
        "base64:iVBORw0KGgoAAAANSUhEUg=="
    ));
    // Quoted, like the other sentinels this function already recognizes.
    assert!(is_asset_sentinel_value(
        "image-source",
        "\"base64:iVBORw0KGgo=\""
    ));
    assert!(!is_asset_sentinel_value("image-source", "base64:"));
    // The bare word "base64" (no colon at all) is just an unusual literal path, not the inline
    // scheme.
    assert!(!is_asset_sentinel_value("image-source", "base64"));
    // Existing sentinels are unaffected.
    assert!(is_asset_sentinel_value("image-source", ""));
    assert!(is_asset_sentinel_value("image-source", "none"));
    assert!(!is_asset_sentinel_value(
        "image-source",
        "/images/real/path.png"
    ));
}

#[test]
fn is_asset_sentinel_value_never_applies_to_icon_or_icon_source() {
    for value in ["", "none", "base64:iVBORw0KGgo=", "\"\""] {
        assert!(
            !is_asset_sentinel_value("icon", value),
            "icon: {value:?} must not be treated as a sentinel"
        );
        assert!(
            !is_asset_sentinel_value("icon-source", value),
            "icon-source: {value:?} must not be treated as a sentinel"
        );
    }
    // A genuinely real icon path is unaffected either way.
    assert!(!is_asset_sentinel_value("icon", "/images/icons/ok.png"));
}

#[test]
fn is_runtime_variable_path_recognizes_a_dollar_substitution() {
    assert!(is_runtime_variable_path("$imagePath"));
    assert!(is_runtime_variable_path("/images/$name/icon.png"));
    assert!(!is_runtime_variable_path("/images/ui/window.png"));
}
