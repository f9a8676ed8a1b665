use otui_core::doc_index::DocId;
use otui_core::lang_api::ByteSpan;
use otui_core::lua_refs::{LuaIdRefKind, LuaRefIndex, scan_id_defs, scan_id_refs};

fn text(src: &str, span: ByteSpan) -> &str {
    &src[span.start..span.end]
}

#[test]
fn get_child_by_id_span_lands_on_the_id_token() {
    let src = "widget:getChildById('closeButton')\n";
    let refs = scan_id_refs(src);
    assert_eq!(refs.len(), 1);
    assert_eq!(refs[0].kind, LuaIdRefKind::GetChildById);
    assert_eq!(refs[0].id, "closeButton");
    assert_eq!(text(src, refs[0].span), "closeButton");
}

#[test]
fn recursive_get_child_by_id_span_lands_on_the_id_token() {
    let src = "widget:recursiveGetChildById('closeButton')\n";
    let refs = scan_id_refs(src);
    assert_eq!(refs.len(), 1);
    assert_eq!(refs[0].kind, LuaIdRefKind::RecursiveGetChildById);
    assert_eq!(refs[0].id, "closeButton");
    assert_eq!(text(src, refs[0].span), "closeButton");
}

#[test]
fn dot_ui_chain_segment_span_lands_on_the_identifier() {
    let src = "controller.ui.closeButton:setText('x')\n";
    let refs = scan_id_refs(src);
    assert_eq!(refs.len(), 1);
    assert_eq!(refs[0].kind, LuaIdRefKind::DotUi);
    assert_eq!(refs[0].id, "closeButton");
    assert_eq!(text(src, refs[0].span), "closeButton");
}

#[test]
fn dot_ui_chain_indexes_every_segment_after_ui() {
    let src = "rewardWallController.ui.restingAreaPanel.restingAreaInfo.rewardStreakIcon:setText(x)\n";
    let refs = scan_id_refs(src);
    let ids: Vec<&str> = refs.iter().map(|r| r.id.as_str()).collect();
    assert_eq!(
        ids,
        ["restingAreaPanel", "restingAreaInfo", "rewardStreakIcon"]
    );
    assert!(refs.iter().all(|r| r.kind == LuaIdRefKind::DotUi));
}

#[test]
fn dot_ui_chain_stops_at_a_method_call() {
    let src = "c.ui.dailyRewardsPanel:getChildById(\"reward\" .. index)\n";
    let refs = scan_id_refs(src);
    let ids: Vec<&str> = refs.iter().map(|r| r.id.as_str()).collect();
    assert_eq!(ids, ["dailyRewardsPanel"]);
}

#[test]
fn lua_refs_both_quote_styles_are_recognized() {
    let single = scan_id_refs("widget:getChildById('single')\n");
    assert_eq!(single[0].id, "single");
    let double = scan_id_refs("widget:getChildById(\"double\")\n");
    assert_eq!(double[0].id, "double");
}

#[test]
fn lua_refs_a_concatenated_argument_is_not_indexed() {
    // `getChildById('perkColumn_' .. i)` builds the id at runtime; it is not a compile-time
    // literal, so it can never be navigated or diagnosed — indexing it would be a false
    // positive (a "reference" that does not point anywhere real). The text right after the
    // closing quote is ` .. i)`, not `)`, so `sole_string_literal_arg` rejects the whole call.
    let src = "widget:getChildById('perkColumn_' .. i)\n";
    assert!(
        scan_id_refs(src).is_empty(),
        "a concatenation-built id must never be indexed"
    );
}

#[test]
fn lua_refs_a_variable_argument_is_not_indexed() {
    let src = "widget:getChildById(someVariable)\n";
    assert!(scan_id_refs(src).is_empty());
}

#[test]
fn set_id_with_a_literal_is_indexed_as_a_def() {
    let src = "button:setId(\"bidButton\")\n";
    let defs = scan_id_defs(src);
    assert_eq!(defs.len(), 1);
    assert_eq!(defs[0].id, "bidButton");
    assert_eq!(text(src, defs[0].span), "bidButton");
}

#[test]
fn set_id_with_a_variable_is_not_indexed() {
    let src = "button:setId(data.id)\n";
    assert!(scan_id_defs(src).is_empty());
}

#[test]
fn a_string_ending_in_an_escaped_backslash_does_not_swallow_the_rest_of_the_file() {
    let src = "local p = tostring(path or ''):gsub('\\\\', '/')\nw:getChildById('realId')\n";
    let refs = scan_id_refs(src);
    let ids: Vec<&str> = refs.iter().map(|r| r.id.as_str()).collect();
    assert_eq!(
        ids,
        ["realId"],
        "the file after the gsub must still be scanned"
    );
}

#[test]
fn an_unterminated_quote_costs_only_its_own_line() {
    let src = "local broken = 'oops\nw:getChildById('survivor')\n";
    let ids: Vec<String> = scan_id_refs(src).into_iter().map(|r| r.id).collect();
    assert!(
        ids.contains(&"survivor".to_owned()),
        "a stray quote must not blank the rest of the file: {ids:?}"
    );
}

#[test]
fn a_level_n_long_comment_body_is_not_indexed() {
    // `--[[ … ]]` was handled, but `--[==[ … ]==]` was not: it fell through to the line-comment
    // branch, which excludes only the first line, leaving the body to be scanned as code. The
    // result is the worst kind of wrong — a clickable Location pointing inside a comment.
    let src = "--[==[\nw:getChildById('ghost')\ncontroller.ui.phantom:hide()\n]==]\nw:getChildById('realId')\n";
    let ids: Vec<String> = scan_id_refs(src).into_iter().map(|r| r.id).collect();
    assert_eq!(
        ids,
        ["realId"],
        "a level-N long comment must be opaque: {ids:?}"
    );
}

#[test]
fn a_long_bracket_string_body_is_not_indexed() {
    let src = "local code = [[ w:getChildById('inString') ]]\nw:getChildById('realId')\n";
    let ids: Vec<String> = scan_id_refs(src).into_iter().map(|r| r.id).collect();
    assert_eq!(
        ids,
        ["realId"],
        "a long-bracket string must be opaque: {ids:?}"
    );
}

#[test]
fn a_span_is_a_byte_offset_and_survives_multibyte_text() {
    let src = "local t = 'ação'\nw:getChildById('mbId')\n";
    let r = scan_id_refs(src);
    assert_eq!(r.len(), 1, "{r:?}");
    assert_eq!(
        &src[r[0].span.start..r[0].span.end],
        "mbId",
        "the span must slice to exactly the id token"
    );
}

#[test]
fn a_reference_inside_a_line_comment_is_not_indexed() {
    let src = "-- widget:getChildById('closeButton')\n";
    assert!(scan_id_refs(src).is_empty());
}

#[test]
fn a_reference_inside_a_block_comment_is_not_indexed() {
    let src = "--[[\nwidget:getChildById('closeButton')\n]]\nlocal x = 1\n";
    assert!(scan_id_refs(src).is_empty());
}

#[test]
fn a_dot_ui_chain_inside_a_comment_is_not_indexed() {
    let src = "-- controller.ui.closeButton:setText('x')\n";
    assert!(scan_id_refs(src).is_empty());
}

#[test]
fn a_reference_after_a_block_comment_is_still_indexed() {
    let src = "--[[ header comment ]]\nwidget:getChildById('closeButton')\n";
    let refs = scan_id_refs(src);
    assert_eq!(refs.len(), 1);
    assert_eq!(refs[0].id, "closeButton");
}

#[test]
fn a_dot_ui_reference_not_preceded_by_an_identifier_is_ignored() {
    // A bare `.ui.foo` with nothing (identifier-wise) before the leading dot is not a member
    // access on anything and is not indexed.
    let src = "= .ui.foo\n";
    assert!(scan_id_refs(src).is_empty());
}

#[test]
fn index_set_remove_and_lookup_round_trip() {
    let mut index = LuaRefIndex::new();
    assert!(index.is_empty());

    index.set_document(
        "a.lua",
        scan_id_refs("widget:getChildById('closeButton')\n"),
    );
    index.set_document(
        "b.lua",
        scan_id_refs("controller.ui.closeButton:setText('x')\n"),
    );
    assert_eq!(index.document_count(), 2);
    assert!(!index.is_empty());

    assert_eq!(
        index.document(&DocId::new("a.lua")).map(<[_]>::len),
        Some(1)
    );
    assert!(index.document(&DocId::new("missing.lua")).is_none());

    let hits = index.lookup("closeButton");
    assert_eq!(hits.len(), 2);

    index.set_document("a.lua", scan_id_refs("widget:getChildById('other')\n"));
    assert_eq!(index.lookup("closeButton").len(), 1);
    assert_eq!(index.lookup("other").len(), 1);

    let removed = index
        .remove_document(&DocId::new("b.lua"))
        .expect("was present");
    assert_eq!(removed.len(), 1);
    assert_eq!(index.document_count(), 1);
    assert!(index.remove_document(&DocId::new("b.lua")).is_none());
}
