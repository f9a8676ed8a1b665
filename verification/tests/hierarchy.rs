use otui_core::hierarchy::style_type_at;

/// Byte offset of the first occurrence of `needle` in `src` (panics if absent).
fn at(src: &str, needle: &str) -> usize {
    src.find(needle).expect("needle present")
}

#[test]
fn type_at_widget_instance_tag_returns_the_tag_name() {
    // A nested `Button` container is a widget instance; its tag is its type.
    let src = "MainWindow < UIWindow\n  Button\n    id: ok\n";
    let got = style_type_at(src, at(src, "Button")).expect("hit");
    assert_eq!(got.name, "Button");
    assert_eq!(&src[got.span.start..got.span.end], "Button");
    // A cursor in the middle of the tag is the same hit.
    assert_eq!(
        style_type_at(src, at(src, "Button") + 2).as_ref(),
        Some(&got)
    );
}

#[test]
fn type_at_top_level_bare_container_tag_returns_it() {
    let src = "Panel\n  id: root\n";
    let got = style_type_at(src, at(src, "Panel")).expect("hit");
    assert_eq!(got.name, "Panel");
}

#[test]
fn type_at_style_header_name_returns_the_name() {
    let src = "MainWindow < UIWindow\n";
    let got = style_type_at(src, at(src, "MainWindow")).expect("hit");
    assert_eq!(got.name, "MainWindow");
    assert_eq!(&src[got.span.start..got.span.end], "MainWindow");
}

#[test]
fn type_at_style_header_base_returns_the_base() {
    let src = "MainWindow < UIWindow\n";
    let got = style_type_at(src, at(src, "UIWindow")).expect("hit");
    assert_eq!(got.name, "UIWindow");
}

#[test]
fn type_at_off_symbol_is_none() {
    let src = "MainWindow < UIWindow\n  id: main\n";
    // On the `id:` value, not a type token.
    assert!(style_type_at(src, at(src, "main")).is_none());
    assert!(style_type_at("", 0).is_none());
    // Just past the base token (half-open) is not a hit.
    let end = at(src, "UIWindow") + "UIWindow".len();
    assert!(style_type_at(src, end).is_none());
}

#[test]
fn type_at_unparseable_source_is_none() {
    // Never panic on a tab-indented (scanner-rejected) document; return `None`.
    assert!(style_type_at("\t\t< <\n", 1).is_none());
}
