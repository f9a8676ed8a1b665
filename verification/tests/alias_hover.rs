use otui_core::alias_hover::{AliasHover, alias_hover_at, alias_hover_body};

/// Byte offset of the first occurrence of `needle` in `src` (panics if absent).
fn at(src: &str, needle: &str) -> usize {
    src.find(needle).expect("needle present")
}

fn hover(src: &str, needle: &str) -> Option<AliasHover> {
    alias_hover_at(src, at(src, needle) + 1)
}

#[test]
fn detects_the_hash_literal_carve_out() {
    let h = hover("Panel\n  &primaryColor: #33AAFF\n", "primaryColor").expect("hover");
    assert_eq!(h.name, "primaryColor");
    assert!(h.is_hash_literal);
}

#[test]
fn detects_a_plain_lua_expression_value() {
    let h = hover("Panel\n  &foo: bar()\n", "foo").expect("hover");
    assert_eq!(h.name, "foo");
    assert!(!h.is_hash_literal);
}

#[test]
fn a_quoted_hash_string_is_not_the_carve_out() {
    // `'#FFFFFF'` is a quoted Lua string literal (a `lua_value`), not the bare `#` carve-out
    // (`hash_literal`) — the `#` must be the value's own first character, not inside quotes.
    let h = hover("Panel\n  &color: '#FFFFFF'\n", "color").expect("hover");
    assert!(!h.is_hash_literal);
}

#[test]
fn a_multiline_block_scalar_value_is_not_the_carve_out() {
    let h = hover("Panel\n  &multi: |\n    line1\n    line2\n", "multi").expect("hover");
    assert!(!h.is_hash_literal);
}

#[test]
fn a_block_scalar_body_starting_with_a_bare_hash_is_the_carve_out() {
    let h = hover("Panel\n  &note: |\n    #hello\n    world\n", "note").expect("hover");
    assert!(h.is_hash_literal);
}

#[test]
fn the_span_excludes_the_leading_ampersand() {
    let src = "Panel\n  &primaryColor: #33AAFF\n";
    let h = hover(src, "primaryColor").expect("hover");
    assert_eq!(&src[h.span.start..h.span.end], "primaryColor");
}

#[test]
fn a_nested_alias_is_also_detected() {
    let h = hover("Panel\n  Child\n    &nested: yes\n", "nested").expect("hover");
    assert_eq!(h.name, "nested");
    assert!(!h.is_hash_literal);
}

#[test]
fn the_value_position_has_no_alias_hover() {
    // Only the key fires — a hit on the value's span is not attempted.
    assert!(hover("Panel\n  &foo: bar()\n", "bar()").is_none());
}

#[test]
fn an_ordinary_property_key_has_no_alias_hover() {
    assert!(hover("Panel\n  color: red\n", "color").is_none());
}

// --- alias_hover_body: both meanings always present -------------------------------------------

#[test]
fn body_always_states_the_otml_variable_meaning() {
    for is_hash_literal in [true, false] {
        let body = alias_hover_body("primaryColor", is_hash_literal);
        assert!(body.contains("OTML variable"), "{body}");
        assert!(body.contains("$primaryColor"), "{body}");
        assert!(body.contains("document-global"), "{body}");
        assert!(body.contains("file-local"), "{body}");
    }
}

#[test]
fn body_always_states_the_lua_field_meaning() {
    for is_hash_literal in [true, false] {
        let body = alias_hover_body("primaryColor", is_hash_literal);
        assert!(body.contains("Lua widget field"), "{body}");
    }
}

#[test]
fn body_says_evaluated_when_not_hash_literal() {
    let body = alias_hover_body("foo", false);
    assert!(body.contains("evaluated as a Lua expression"), "{body}");
    assert!(!body.contains("plain string"), "{body}");
}

#[test]
fn body_says_plain_string_when_hash_literal() {
    let body = alias_hover_body("color", true);
    assert!(body.contains("plain string, not"), "{body}");
    assert!(body.contains("carve-out"), "{body}");
    assert!(!body.contains("evaluated as a Lua expression"), "{body}");
}
