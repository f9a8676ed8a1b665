use otui_core::lang_api::ByteSpan;
use otui_core::navigation::{
    AnchorTargetResolution, IdRefKind, base_reference_at, id_at, resolve_anchor_target,
    style_header_at,
};

/// Byte offset of the first occurrence of `needle` in `src` (panics if absent) — a readable way
/// to place the cursor in a test.
fn at(src: &str, needle: &str) -> usize {
    src.find(needle).expect("needle present")
}

#[test]
fn cursor_on_base_returns_it() {
    let src = "MainWindow < UIWindow\n";
    let start = at(src, "UIWindow");
    let got = base_reference_at(src, start).expect("hit");
    assert_eq!(got.name, "UIWindow");
    assert_eq!(&src[got.span.start..got.span.end], "UIWindow");
    // A cursor in the middle of the token is the same hit.
    assert_eq!(base_reference_at(src, start + 2).as_ref(), Some(&got));
}

#[test]
fn cursor_on_declared_name_is_not_a_base_ref() {
    // The `Name` left of `<` is the declaration target, not a base reference.
    let src = "MainWindow < UIWindow\n";
    assert!(base_reference_at(src, at(src, "MainWindow")).is_none());
}

#[test]
fn cursor_on_a_property_value_is_not_a_base_ref() {
    let src = "MainWindow < UIWindow\n  id: main\n";
    assert!(base_reference_at(src, at(src, "main")).is_none());
}

#[test]
fn native_base_is_still_located() {
    // Classification (native vs. user) is the index's job; the locator returns the ref anyway.
    let src = "Button < UIButton\n";
    let got = base_reference_at(src, at(src, "UIButton")).expect("hit");
    assert_eq!(got.name, "UIButton");
}

#[test]
fn user_base_is_located() {
    let src = "Base < UIWidget\nChild < Base\n";
    // The `Base` in `Child < Base` (a user base) is located.
    let base_in_child = src.rfind("Base").expect("present");
    let got = base_reference_at(src, base_in_child).expect("hit");
    assert_eq!(got.name, "Base");
}

#[test]
fn offset_just_past_base_is_not_a_hit() {
    // Half-open spans: the offset at `end` is the boundary just past the token, not inside it.
    let src = "MainWindow < UIWindow\n";
    let end = at(src, "UIWindow") + "UIWindow".len();
    assert!(base_reference_at(src, end).is_none());
    // ...but the last byte of the token (end - 1) is inside.
    assert!(base_reference_at(src, end - 1).is_some());
}

#[test]
fn nested_widget_name_is_not_a_base_ref() {
    // The nested `Inner < UIWidget` is an instance, not an inheritance decl: its base must not
    // be reported. Only the top-level `Outer < UIWidget` base is a hit.
    let src = "Outer < UIWidget\n  Inner < UIButton\n    id: x\n";
    // The nested base `UIButton` is not located.
    assert!(base_reference_at(src, at(src, "UIButton")).is_none());
    // The top-level base `UIWidget` is.
    assert_eq!(
        base_reference_at(src, at(src, "UIWidget")).map(|r| r.name),
        Some("UIWidget".to_owned())
    );
}

#[test]
fn empty_or_offscreen_offset_yields_nothing() {
    assert!(base_reference_at("", 0).is_none());
    let src = "MainWindow < UIWindow\n";
    assert!(base_reference_at(src, src.len() + 100).is_none());
}

#[test]
fn header_at_cursor_on_declared_name_returns_the_header() {
    let src = "MainWindow < UIWindow\n";
    let got = style_header_at(src, at(src, "MainWindow")).expect("hit");
    assert_eq!(got.name, "MainWindow");
    assert_eq!(got.base.as_deref(), Some("UIWindow"));
    assert_eq!(&src[got.name_span.start..got.name_span.end], "MainWindow");
    let base_span = got.base_span.expect("base present");
    assert_eq!(&src[base_span.start..base_span.end], "UIWindow");
    // A cursor in the middle of the name is the same hit.
    assert_eq!(
        style_header_at(src, at(src, "MainWindow") + 3).as_ref(),
        Some(&got)
    );
}

#[test]
fn header_at_cursor_on_base_returns_the_header() {
    let src = "MainWindow < UIWindow\n";
    let got = style_header_at(src, at(src, "UIWindow")).expect("hit");
    assert_eq!(got.name, "MainWindow");
    assert_eq!(got.base.as_deref(), Some("UIWindow"));
}

#[test]
fn header_at_bare_header_has_no_base() {
    let src = "Standalone\n  id: x\n";
    let got = style_header_at(src, at(src, "Standalone")).expect("hit");
    assert_eq!(got.name, "Standalone");
    assert_eq!(got.base, None);
    assert_eq!(got.base_span, None);
}

#[test]
fn header_at_nested_widget_name_is_none() {
    // The nested `Inner` name is an instance, not a style header.
    let src = "Outer < UIWidget\n  Inner < UIButton\n    id: x\n";
    assert!(style_header_at(src, at(src, "Inner")).is_none());
    // ...but the top-level name is a hit.
    assert_eq!(
        style_header_at(src, at(src, "Outer")).map(|h| h.name),
        Some("Outer".to_owned())
    );
}

#[test]
fn header_at_property_value_is_none() {
    let src = "MainWindow < UIWindow\n  id: main\n";
    assert!(style_header_at(src, at(src, "main")).is_none());
}

#[test]
fn id_at_cursor_on_id_value_returns_it() {
    let src = "Panel\n  id: header\n";
    let got = id_at(src, at(src, "header")).expect("hit");
    assert_eq!(got.id, "header");
    assert_eq!(&src[got.span.start..got.span.end], "header");
    // A declaration hit is discriminated `Declaration`, not `AnchorTarget`.
    assert_eq!(got.kind, IdRefKind::Declaration);
    // A cursor in the middle of the value is the same hit.
    assert_eq!(id_at(src, at(src, "header") + 2).as_ref(), Some(&got));
}

#[test]
fn id_at_cursor_on_anchor_target_id_prefix_returns_it() {
    // The `header` prefix of `header.bottom` is the id reference; its span excludes `.bottom`.
    let src = "Other\n  anchors.top: header.bottom\n";
    let got = id_at(src, at(src, "header.bottom")).expect("hit");
    assert_eq!(got.id, "header");
    assert_eq!(&src[got.span.start..got.span.end], "header");
    // An anchor-target hit is discriminated `AnchorTarget`, not `Declaration` — this is the guard
    // the id-value hover (a later node) relies on to never fire on an anchor target.
    assert_eq!(got.kind, IdRefKind::AnchorTarget);
}

#[test]
fn id_at_cursor_on_anchor_edge_suffix_is_none() {
    // A hit on the `.bottom` edge (after the dot) is not an id token.
    let src = "Other\n  anchors.top: header.bottom\n";
    assert!(id_at(src, at(src, "bottom")).is_none());
}

#[test]
fn id_at_cursor_on_bare_magic_target_is_none() {
    // `parent` is a magic keyword (no dot), not an id.
    let src = "Other\n  anchors.fill: parent\n";
    assert!(id_at(src, at(src, "parent")).is_none());
}

#[test]
fn id_at_cursor_on_dotted_magic_target_prefix_is_none() {
    // `parent.bottom` references the magic parent widget, not a user id — the `parent` prefix
    // must not be classified as an id even though it is dotted.
    let src = "Other\n  anchors.top: parent.bottom\n";
    assert!(id_at(src, at(src, "parent")).is_none());
    // ...while a real id prefix in the same shape IS a hit.
    let src2 = "Other\n  anchors.top: header.bottom\n";
    assert_eq!(
        id_at(src2, at(src2, "header")).map(|r| r.id),
        Some("header".to_owned())
    );
}

#[test]
fn id_at_cursor_off_any_id_is_none() {
    let src = "MainWindow < UIWindow\n";
    assert!(id_at(src, at(src, "UIWindow")).is_none());
    assert!(id_at("", 0).is_none());
}

#[test]
fn resolve_anchor_target_dotted_sibling_resolves_to_its_kind_and_id_span() {
    let src = "Outer < UIWidget\n  Header < UILabel\n    id: header\n  Body < UIWidget\n    anchors.top: header.bottom\n";
    let got = resolve_anchor_target(src, at(src, "header.bottom")).expect("hit");
    let AnchorTargetResolution::Sibling {
        id,
        kind,
        id_decl_span,
        target_span,
    } = got
    else {
        panic!("expected Sibling, got {got:?}");
    };
    assert_eq!(id, "header");
    assert_eq!(kind, "UILabel");
    // `id_decl_span` points at the sibling's own `id: header` value, not the anchor target.
    assert_eq!(&src[id_decl_span.start..id_decl_span.end], "header");
    assert_eq!(
        id_decl_span,
        ByteSpan::new(at(src, "id: header") + 4, at(src, "id: header") + 10)
    );
    assert_eq!(&src[target_span.start..target_span.end], "header");
}

#[test]
fn resolve_anchor_target_bare_fill_shorthand_resolves_the_sibling() {
    // The bare `fill:`/`centerIn:` shorthand target carries no `.edge` suffix at all — `id_at`
    // does not recognize this shape, but the resolver must.
    let src = "Outer < UIWidget\n  Header < UILabel\n    id: header\n  Body < UIWidget\n    anchors.fill: header\n";
    // The target `header` (not the earlier `id: header` declaration) is the last occurrence.
    let got = resolve_anchor_target(src, src.rfind("header").expect("present")).expect("hit");
    match got {
        AnchorTargetResolution::Sibling { id, kind, .. } => {
            assert_eq!(id, "header");
            assert_eq!(kind, "UILabel");
        }
        other => panic!("expected Sibling, got {other:?}"),
    }
}

#[test]
fn resolve_anchor_target_bare_center_in_shorthand_resolves_the_sibling() {
    let src = "Outer < UIWidget\n  Header < UILabel\n    id: header\n  Body < UIWidget\n    anchors.centerIn: header\n";
    let got = resolve_anchor_target(src, src.rfind("header").expect("present")).expect("hit");
    assert!(matches!(got, AnchorTargetResolution::Sibling { .. }));
}

#[test]
fn resolve_anchor_target_bare_magic_keyword_is_magic() {
    let src = "Outer < UIWidget\n  Body < UIWidget\n    anchors.fill: parent\n";
    let got = resolve_anchor_target(src, at(src, "parent")).expect("hit");
    match got {
        AnchorTargetResolution::Magic {
            keyword,
            target_span,
        } => {
            assert_eq!(keyword, "parent");
            assert_eq!(&src[target_span.start..target_span.end], "parent");
        }
        other => panic!("expected Magic, got {other:?}"),
    }
}

#[test]
fn resolve_anchor_target_dotted_magic_keyword_is_magic() {
    // `parent.bottom` — the magic keyword can carry a dotted edge too.
    let src = "Outer < UIWidget\n  Body < UIWidget\n    anchors.top: parent.bottom\n";
    let got = resolve_anchor_target(src, at(src, "parent.bottom")).expect("hit");
    assert!(
        matches!(got, AnchorTargetResolution::Magic { keyword, .. } if keyword == "parent")
    );
}

#[test]
fn resolve_anchor_target_next_and_prev_are_magic_too() {
    let src = "Outer < UIWidget\n  A < UIWidget\n    anchors.top: prev.bottom\n  B < UIWidget\n    anchors.top: next.bottom\n";
    assert!(matches!(
        resolve_anchor_target(src, at(src, "prev.bottom")),
        Some(AnchorTargetResolution::Magic { .. })
    ));
    assert!(matches!(
        resolve_anchor_target(src, at(src, "next.bottom")),
        Some(AnchorTargetResolution::Magic { .. })
    ));
}

#[test]
fn resolve_anchor_target_ancestor_id_is_unresolved_not_a_sibling() {
    // `outer` is the *ancestor*'s own id, not a sibling of `Body` — `getChildById` only ever
    // searches direct children, so this can never resolve at runtime either.
    let src = "Outer < UIWidget\n  id: outer\n  Body < UIWidget\n    anchors.fill: outer\n";
    let got = resolve_anchor_target(src, src.rfind("outer").expect("present")).expect("hit");
    match got {
        AnchorTargetResolution::Unresolved { id, target_span } => {
            assert_eq!(id, "outer");
            assert_eq!(&src[target_span.start..target_span.end], "outer");
        }
        other => panic!("expected Unresolved, got {other:?}"),
    }
}

#[test]
fn resolve_anchor_target_own_id_is_unresolved_not_its_own_sibling() {
    // A widget anchoring to its own id: it is excluded from its own sibling set.
    let src = "Outer < UIWidget\n  Body < UIWidget\n    id: body\n    anchors.fill: body\n";
    let got = resolve_anchor_target(src, src.rfind("body").expect("present")).expect("hit");
    assert!(matches!(got, AnchorTargetResolution::Unresolved { .. }));
}

#[test]
fn resolve_anchor_target_unknown_id_is_unresolved() {
    let src = "Outer < UIWidget\n  Body < UIWidget\n    anchors.fill: nosuchwidget\n";
    let got = resolve_anchor_target(src, at(src, "nosuchwidget")).expect("hit");
    assert!(
        matches!(got, AnchorTargetResolution::Unresolved { id, .. } if id == "nosuchwidget")
    );
}

#[test]
fn resolve_anchor_target_duplicate_sibling_id_last_one_wins() {
    let src = "Outer < UIWidget\n  A < UILabel\n    id: dup\n  B < UIButton\n    id: dup\n  Body < UIWidget\n    anchors.fill: dup\n";
    let got = resolve_anchor_target(src, src.rfind("dup").expect("present")).expect("hit");
    match got {
        AnchorTargetResolution::Sibling { kind, .. } => assert_eq!(kind, "UIButton"),
        other => panic!("expected Sibling, got {other:?}"),
    }
}

#[test]
fn resolve_anchor_target_edge_suffix_hit_is_none() {
    let src = "Outer < UIWidget\n  Header < UILabel\n    id: header\n  Body < UIWidget\n    anchors.top: header.bottom\n";
    assert!(resolve_anchor_target(src, at(src, "bottom")).is_none());
}

#[test]
fn resolve_anchor_target_off_any_target_is_none() {
    let src = "Outer < UIWidget\n  id: main\n";
    assert!(resolve_anchor_target(src, at(src, "main")).is_none());
    assert!(resolve_anchor_target("", 0).is_none());
}

#[test]
fn resolve_anchor_target_container_sibling_kind_is_its_tag() {
    // A bare-tag (`container`) sibling's kind is its own tag, not a `Name < Base` header.
    let src =
        "Outer < UIWidget\n  Button\n    id: btn\n  Body < UIWidget\n    anchors.fill: btn\n";
    let got = resolve_anchor_target(src, src.rfind("btn").expect("present")).expect("hit");
    assert!(matches!(got, AnchorTargetResolution::Sibling { kind, .. } if kind == "Button"));
}
