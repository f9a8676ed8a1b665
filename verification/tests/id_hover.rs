use otui_core::id_hover::id_hover_body;

#[test]
fn header_names_the_id_and_calls_it_this_widgets_id() {
    let body = id_hover_body("header", 0, 0, false);
    assert!(
        body.starts_with("**`header`** — this widget's id."),
        "{body}"
    );
}

#[test]
fn zero_references_says_no_references() {
    let body = id_hover_body("solo", 0, 0, false);
    assert!(body.contains("No references."), "{body}");
}

#[test]
fn one_reference_is_singular() {
    let body = id_hover_body("header", 1, 0, false);
    assert!(body.contains("1 reference."), "{body}");
    assert!(!body.contains("1 references"), "{body}");
}

#[test]
fn one_lua_reference_alone_is_also_singular() {
    let body = id_hover_body("header", 0, 1, false);
    assert!(body.contains("1 reference."), "{body}");
}

#[test]
fn many_references_are_plural() {
    let body = id_hover_body("header", 3, 0, false);
    assert!(body.contains("3 references."), "{body}");
}

#[test]
fn otui_only_references_have_no_breakdown() {
    // Only one of the two counts is nonzero: no parenthetical breakdown, just the plain count.
    let body = id_hover_body("header", 2, 0, false);
    assert!(body.contains("2 references."), "{body}");
    assert!(!body.contains("("), "{body}");
}

#[test]
fn lua_only_references_have_no_breakdown() {
    let body = id_hover_body("header", 0, 2, false);
    assert!(body.contains("2 references."), "{body}");
    assert!(!body.contains("("), "{body}");
}

#[test]
fn mixed_references_get_a_breakdown() {
    let body = id_hover_body("header", 2, 1, false);
    assert!(
        body.contains(
            "3 references (2 anchors in this file, 1 in the paired Lua controller(s))."
        ),
        "{body}"
    );
}

#[test]
fn a_single_anchor_in_the_breakdown_is_singular() {
    let body = id_hover_body("header", 1, 1, false);
    assert!(
        body.contains(
            "2 references (1 anchor in this file, 1 in the paired Lua controller(s))."
        ),
        "{body}"
    );
}

#[test]
fn no_duplicate_caveat_when_declared_once() {
    let body = id_hover_body("header", 0, 0, false);
    assert!(
        !body.to_lowercase().contains("declared more than once"),
        "{body}"
    );
}

#[test]
fn duplicate_declaration_adds_a_not_unique_caveat() {
    let body = id_hover_body("header", 0, 0, true);
    assert!(body.contains("declared more than once"), "{body}");
    assert!(body.contains("last-writer-wins"), "{body}");
    assert!(body.contains("first-writer-wins"), "{body}");
    assert!(!body.to_lowercase().contains("must be unique"), "{body}");
}

#[test]
fn duplicate_caveat_coexists_with_a_populated_reference_count() {
    let body = id_hover_body("dup", 2, 1, true);
    assert!(
        body.contains(
            "3 references (2 anchors in this file, 1 in the paired Lua controller(s))."
        ),
        "{body}"
    );
    assert!(body.contains("declared more than once"), "{body}");
}
