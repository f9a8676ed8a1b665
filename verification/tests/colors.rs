use otui_core::colors::document_colors;
use otui_core::palette::Rgba;

/// The `(text slice, rgba)` for each color found, for readable assertions.
fn colors_with_text(source: &str) -> Vec<(&str, Rgba)> {
    document_colors(source)
        .into_iter()
        .map(|(span, rgba)| (&source[span.start..span.end], rgba))
        .collect()
}

#[test]
fn finds_hex_and_functional_colors_with_spans() {
    let source = "Panel\n  color: #ff0000\n  background-color: rgb(0, 255, 0)\n";
    let found = document_colors(source);
    assert_eq!(found.len(), 2);

    // First swatch: the `#ff0000` token, red.
    let (span0, rgba0) = found[0];
    assert_eq!(&source[span0.start..span0.end], "#ff0000");
    assert_eq!(rgba0, Rgba::from_u8(255, 0, 0, 255));

    // Second swatch: the `rgb(0, 255, 0)` token, green.
    let (span1, rgba1) = found[1];
    assert_eq!(&source[span1.start..span1.end], "rgb(0, 255, 0)");
    assert_eq!(rgba1, Rgba::from_u8(0, 255, 0, 255));
}

#[test]
fn named_color_in_a_color_typed_property_is_swatched() {
    // A bare named color in a color-typed property value position is swatched.
    let found = colors_with_text("Label\n  color: red\n");
    assert_eq!(found.len(), 1);
    assert_eq!(found[0].0, "red");
    assert_eq!(found[0].1, Rgba::from_u8(255, 0, 0, 255));

    // `border-color` is a color-typed property too; a hex literal there is context-free anyway.
    let found = colors_with_text("Panel\n  border-color: #ffffff\n");
    assert_eq!(found.len(), 1);
    assert_eq!(found[0].0, "#ffffff");
    assert_eq!(found[0].1, Rgba::from_u8(255, 255, 255, 255));

    // `transparent` in a color property swatches as fully transparent.
    let found = colors_with_text("Panel\n  background-color: transparent\n");
    assert_eq!(found.len(), 1);
    assert_eq!(found[0].1, Rgba::from_u8(0, 0, 0, 0));
}

#[test]
fn legacy_named_color_in_color_property_swatches_with_alpha() {
    let found = colors_with_text("Panel\n  color: darkPink\n");
    assert_eq!(found.len(), 1);
    assert_eq!(found[0].1, Rgba::from_u8(0x80, 0x00, 0x80, 255));

    let found = colors_with_text("Panel\n  color: green\n");
    assert_eq!(found[0].1, Rgba::from_u8(0, 255, 0, 255));
}

#[test]
fn a_named_item_in_a_color_list_is_not_swatched_but_a_literal_still_is() {
    let found = colors_with_text("Widget\n  color: [red, #00ff00]\n");
    let texts: Vec<&str> = found.iter().map(|(t, _)| *t).collect();
    assert_eq!(
        texts,
        ["#00ff00"],
        "only the context-free literal swatches, not the named list item"
    );
}

#[test]
fn named_color_in_a_non_color_property_is_not_swatched() {
    // The value of a non-color property is never a named swatch, even inside an array.
    assert!(document_colors("Widget\n  text: [red, blue]\n").is_empty());
}

#[test]
fn identifier_spelled_like_a_color_is_not_a_swatch() {
    // The classic false-positive: an `id:` value spelled exactly like a named color must yield
    // no color (an id_property is not a color-typed property), and neither does a non-color
    // property like `text`.
    assert!(document_colors("Panel\n  id: red\n").is_empty());
    assert!(document_colors("Panel\n  text: blue\n").is_empty());
}

#[test]
fn ignores_non_color_values() {
    // A number, a plain word and an id are not colors — even `width`/`text` are non-color props.
    let source = "Panel\n  width: 100\n  text: Hello World\n  id: main\n";
    assert!(document_colors(source).is_empty());
}

#[test]
fn unparsable_source_yields_no_colors() {
    assert!(document_colors("x: [a, b\n").is_empty());
}
