//! What is offered where, told by the text in front of the cursor and by what the workspace holds.

use crate::ascii;
use crate::catalog;
use crate::completion;
use crate::diagnostics;
use crate::diagnostics::Workspace;
use crate::doc_index;
use crate::lang_api::{CompletionKind, CompletionView};
use crate::lua_widgets;
use crate::lua_widgets::LuaWidgetDef;
use crate::names;
use crate::schema;
use crate::slots;
use crate::style_index;
use crate::style_index::StyleDef;
use crate::syntax;
use crate::syntax::StmtKind;
use crate::text;
use crate::widget_resolve;
use crate::workspace_laws;
use vstd::prelude::*;
use vstd::string::*;
use vstd::utf8::*;

verus! {

/// Whether some style of the workspace derives from `name`.
pub open spec fn has_base(docs: style_index::StyleDocs, name: Seq<char>) -> bool {
    exists|d: int, i: int|
        0 <= d < docs.len() && 0 <= i < docs[d].1.len() && (
        (#[trigger] docs[d].1[i]).base matches Some(b) && b@ == name)
}

/// Whether some Lua class of the workspace extends `name`.
pub open spec fn has_parent(docs: doc_index::DocItems<LuaWidgetDef>, name: Seq<char>) -> bool {
    exists|d: int, i: int|
        0 <= d < docs.len() && 0 <= i < docs[d].1.len() && (
        (#[trigger] docs[d].1[i]).lua_parent matches Some(b) && b@ == name)
}

/// Whether a name is one of a widget of the workspace: a style, a Lua class, or a class of the engine
/// that one of them derives from.
pub open spec fn widget_name(ws: Workspace, name: Seq<char>) -> bool {
    ||| workspace_laws::has_style(ws.styles, name)
    ||| workspace_laws::has_lua_class(ws.lua, name)
    ||| workspace_laws::starts_with_ui(name) && (has_base(ws.styles, name) || has_parent(
        ws.lua,
        name,
    ))
}

/// Whether an entry of the list has the name.
spec fn named(found: Seq<(Seq<char>, Seq<char>)>, name: Seq<char>) -> bool {
    exists|i: int| 0 <= i < found.len() && (#[trigger] found[i]).0 == name
}

proof fn lemma_named_in_either(
    a: Seq<(Seq<char>, Seq<char>)>,
    b: Seq<(Seq<char>, Seq<char>)>,
    name: Seq<char>,
)
    ensures
        named(a + b, name) <==> named(a, name) || named(b, name),
{
    let c = a + b;
    if named(a, name) {
        let i = choose|i: int| 0 <= i < a.len() && (#[trigger] a[i]).0 == name;
        assert(c[i].0 == name);
    }
    if named(b, name) {
        let i = choose|i: int| 0 <= i < b.len() && (#[trigger] b[i]).0 == name;
        assert(c[a.len() + i].0 == name);
    }
    if named(c, name) {
        let i = choose|i: int| 0 <= i < c.len() && (#[trigger] c[i]).0 == name;
        if i < a.len() {
            assert(a[i].0 == name);
        } else {
            assert(b[i - a.len()].0 == name);
        }
    }
}

/// Whether a style has the name or derives from it as a class of the engine.
spec fn style_gives(def: StyleDef, name: Seq<char>) -> bool {
    def.name@ == name || (workspace_laws::starts_with_ui(name) && (def.base matches Some(b) && b@
        == name))
}

/// Whether a Lua class has the name or extends it as a class of the engine.
spec fn lua_gives(def: LuaWidgetDef, name: Seq<char>) -> bool {
    def.name@ == name || (workspace_laws::starts_with_ui(name) && (def.lua_parent matches Some(b)
        && b@ == name))
}

proof fn lemma_style_names(def: StyleDef, name: Seq<char>)
    ensures
        named(completion::style_names(def), name) <==> style_gives(def, name),
{
    let all = completion::style_names(def);
    if let Some(b) = def.base {
        workspace_laws::law_classes_start_with_ui(b@);
    }
    assert(all[0].0 == def.name@);
    if let Some(b) = def.base {
        if style_index::native(b@) {
            assert(all[1].0 == b@);
        }
    }
}

proof fn lemma_lua_names(def: LuaWidgetDef, name: Seq<char>)
    ensures
        named(completion::lua_names(def), name) <==> lua_gives(def, name),
{
    let all = completion::lua_names(def);
    if let Some(b) = def.lua_parent {
        workspace_laws::law_classes_start_with_ui(b@);
    }
    assert(all[0].0 == def.name@);
    if let Some(b) = def.lua_parent {
        if style_index::native(b@) {
            assert(all[1].0 == b@);
        }
    }
}

proof fn lemma_style_names_upto(defs: Seq<(Seq<char>, StyleDef)>, k: int, name: Seq<char>)
    requires
        0 <= k <= defs.len(),
    ensures
        named(completion::style_names_upto(defs, k), name) <==> exists|i: int|
            0 <= i < k && style_gives((#[trigger] defs[i]).1, name),
    decreases k,
{
    if k > 0 {
        lemma_style_names_upto(defs, k - 1, name);
        lemma_style_names(defs[k - 1].1, name);
        lemma_named_in_either(
            completion::style_names_upto(defs, k - 1),
            completion::style_names(defs[k - 1].1),
            name,
        );
    }
}

proof fn lemma_lua_names_upto(defs: Seq<LuaWidgetDef>, k: int, name: Seq<char>)
    requires
        0 <= k <= defs.len(),
    ensures
        named(completion::lua_names_upto(defs, k), name) <==> exists|i: int|
            0 <= i < k && lua_gives(#[trigger] defs[i], name),
    decreases k,
{
    if k > 0 {
        lemma_lua_names_upto(defs, k - 1, name);
        lemma_lua_names(defs[k - 1], name);
        lemma_named_in_either(
            completion::lua_names_upto(defs, k - 1),
            completion::lua_names(defs[k - 1]),
            name,
        );
    }
}

proof fn lemma_found(ws: Workspace, name: Seq<char>)
    ensures
        named(completion::found_names(ws), name) <==> widget_name(ws, name),
{
    let styles = doc_index::pairs(ws.styles);
    let pairs = doc_index::pairs(ws.lua);
    let lua = lua_widgets::all_defs(ws.lua);
    lemma_style_names_upto(styles, styles.len() as int, name);
    lemma_lua_names_upto(lua, lua.len() as int, name);
    lemma_named_in_either(
        completion::style_names_upto(styles, styles.len() as int),
        completion::lua_names_upto(lua, lua.len() as int),
        name,
    );
    assert forall|i: int| 0 <= i < styles.len() && style_gives(
        (#[trigger] styles[i]).1,
        name,
    ) implies widget_name(ws, name) by {
        assert(styles.contains(styles[i]));
        workspace_laws::law_pairs_hold_all(ws.styles, styles[i]);
        let (d, j) = choose|d: int, j: int|
            0 <= d < ws.styles.len() && 0 <= j < ws.styles[d].1.len() && ws.styles[d].0
                == styles[i].0 && #[trigger] ws.styles[d].1[j] == styles[i].1;
        assert(ws.styles[d].1[j] == styles[i].1);
    }
    assert forall|i: int| 0 <= i < lua.len() && lua_gives(#[trigger] lua[i], name) implies widget_name(
        ws,
        name,
    ) by {
        assert(pairs.contains(pairs[i]));
        workspace_laws::law_pairs_hold_all(ws.lua, pairs[i]);
        let (d, j) = choose|d: int, j: int|
            0 <= d < ws.lua.len() && 0 <= j < ws.lua[d].1.len() && ws.lua[d].0 == pairs[i].0
                && #[trigger] ws.lua[d].1[j] == pairs[i].1;
        assert(ws.lua[d].1[j] == lua[i]);
    }
    assert forall|d: int, j: int|
        0 <= d < ws.styles.len() && 0 <= j < ws.styles[d].1.len() && style_gives(
            #[trigger] ws.styles[d].1[j],
            name,
        ) implies named(completion::found_names(ws), name) by {
        let pair = (ws.styles[d].0, ws.styles[d].1[j]);
        assert(ws.styles[d].1[j] == pair.1);
        workspace_laws::law_pairs_hold_all(ws.styles, pair);
        assert(style_gives(styles[styles.index_of(pair)].1, name));
    }
    assert forall|d: int, j: int|
        0 <= d < ws.lua.len() && 0 <= j < ws.lua[d].1.len() && lua_gives(
            #[trigger] ws.lua[d].1[j],
            name,
        ) implies named(completion::found_names(ws), name) by {
        let pair = (ws.lua[d].0, ws.lua[d].1[j]);
        assert(ws.lua[d].1[j] == pair.1);
        workspace_laws::law_pairs_hold_all(ws.lua, pair);
        assert(lua_gives(lua[pairs.index_of(pair)], name));
    }
}

proof fn lemma_name_bytes(found: Seq<(Seq<char>, Seq<char>)>, k: int, b: Seq<u8>)
    requires
        0 <= k <= found.len(),
    ensures
        completion::name_bytes(found, k).finite(),
        completion::name_bytes(found, k).contains(b) <==> exists|i: int|
            0 <= i < k && text::bytes_of((#[trigger] found[i]).0) == b,
    decreases k,
{
    if k > 0 {
        lemma_name_bytes(found, k - 1, b);
    }
}

/// The list of the widget names holds each name of a widget of the workspace, and no other.
proof fn lemma_widget_names(ws: Workspace, name: Seq<char>)
    ensures
        named(completion::widget_names_of(ws), name) <==> widget_name(ws, name),
{
    let found = completion::found_names(ws);
    let n = found.len() as int;
    let set = completion::name_bytes(found, n);
    let ordered = names::in_order(set);
    let all = completion::widget_names_of(ws);
    lemma_found(ws, name);
    lemma_name_bytes(found, n, text::bytes_of(name));
    names::law_in_order_lists_all(set);
    encode_utf8_decode_utf8(name);
    if widget_name(ws, name) {
        let i = choose|i: int| 0 <= i < n && (#[trigger] found[i]).0 == name;
        assert(text::bytes_of(found[i].0) == text::bytes_of(name));
        assert(set.contains(text::bytes_of(name)));
        assert(all[ordered.index_of(text::bytes_of(name))].0 == name);
    }
    if named(all, name) {
        let j = choose|j: int| 0 <= j < all.len() && (#[trigger] all[j]).0 == name;
        assert(ordered.contains(ordered[j]));
        lemma_name_bytes(found, n, ordered[j]);
        assert(set.contains(ordered[j]));
        let i = choose|i: int| 0 <= i < n && text::bytes_of((#[trigger] found[i]).0) == ordered[j];
        encode_utf8_decode_utf8(found[i].0);
        assert(found[i].0 == name);
    }
}

// ---------------------------------------------------------------------------------------------
// What a name is said to be
// ---------------------------------------------------------------------------------------------

/// Whether each entry that a list of styles gives is said to be a style, or a class of the engine
/// whose name tells so.
spec fn said_style(e: (Seq<char>, Seq<char>)) -> bool {
    e.1 == "style"@ || (e.1 == "native widget"@ && workspace_laws::starts_with_ui(e.0))
}

/// Whether each entry that a list of Lua classes gives is said to be one, or a class of the engine
/// whose name tells so.
spec fn said_lua(e: (Seq<char>, Seq<char>)) -> bool {
    e.1 == "lua widget"@ || (e.1 == "native widget"@ && workspace_laws::starts_with_ui(e.0))
}

proof fn lemma_said_styles(defs: Seq<(Seq<char>, StyleDef)>, k: int)
    requires
        0 <= k <= defs.len(),
    ensures
        forall|i: int|
            0 <= i < completion::style_names_upto(defs, k).len() ==> said_style(
                #[trigger] completion::style_names_upto(defs, k)[i],
            ),
    decreases k,
{
    if k > 0 {
        lemma_said_styles(defs, k - 1);
        if let Some(b) = defs[k - 1].1.base {
            workspace_laws::law_classes_start_with_ui(b@);
        }
        let a = completion::style_names_upto(defs, k - 1);
        let b = completion::style_names(defs[k - 1].1);
        let all = completion::style_names_upto(defs, k);
        assert forall|i: int| 0 <= i < all.len() implies said_style(#[trigger] all[i]) by {
            if i < a.len() {
                assert(all[i] == a[i]);
            } else {
                assert(all[i] == b[i - a.len()]);
            }
        }
    }
}

proof fn lemma_said_lua(defs: Seq<LuaWidgetDef>, k: int)
    requires
        0 <= k <= defs.len(),
    ensures
        forall|i: int|
            0 <= i < completion::lua_names_upto(defs, k).len() ==> said_lua(
                #[trigger] completion::lua_names_upto(defs, k)[i],
            ),
    decreases k,
{
    if k > 0 {
        lemma_said_lua(defs, k - 1);
        if let Some(b) = defs[k - 1].lua_parent {
            workspace_laws::law_classes_start_with_ui(b@);
        }
        let a = completion::lua_names_upto(defs, k - 1);
        let b = completion::lua_names(defs[k - 1]);
        let all = completion::lua_names_upto(defs, k);
        assert forall|i: int| 0 <= i < all.len() implies said_lua(#[trigger] all[i]) by {
            if i < a.len() {
                assert(all[i] == a[i]);
            } else {
                assert(all[i] == b[i - a.len()]);
            }
        }
    }
}

/// What is said of a name is what its first entry says.
proof fn lemma_detail(found: Seq<(Seq<char>, Seq<char>)>, name: Seq<char>, i: int) -> (r: int)
    requires
        0 <= i,
        exists|j: int| i <= j < found.len() && (#[trigger] found[j]).0 == name,
    ensures
        i <= r < found.len(),
        found[r].0 == name,
        completion::detail_from(found, text::bytes_of(name), i) == found[r].1,
        forall|j: int| i <= j < r ==> (#[trigger] found[j]).0 != name,
    decreases found.len() - i,
{
    text::lemma_bytes_injective(found[i].0, name);
    if found[i].0 == name {
        i
    } else {
        let j = choose|j: int| i <= j < found.len() && (#[trigger] found[j]).0 == name;
        assert(i + 1 <= j);
        lemma_detail(found, name, i + 1)
    }
}

/// What a widget by the given name is said to be: a style or a Lua class, where its name does not
/// mark it as a class of the engine; what is both is a style.
pub open spec fn said_of(ws: Workspace, name: Seq<char>, detail: Seq<char>) -> bool {
    &&& detail == "style"@ || detail == "lua widget"@ || detail == "native widget"@
    &&& !workspace_laws::starts_with_ui(name) && workspace_laws::has_style(ws.styles, name)
        ==> detail == "style"@
    &&& !workspace_laws::starts_with_ui(name) && !workspace_laws::has_style(ws.styles, name)
        ==> detail == "lua widget"@
}

proof fn lemma_said(ws: Workspace, name: Seq<char>)
    requires
        widget_name(ws, name),
    ensures
        said_of(
            ws,
            name,
            completion::detail_from(completion::found_names(ws), text::bytes_of(name), 0),
        ),
{
    let pairs = doc_index::pairs(ws.styles);
    let defs = lua_widgets::all_defs(ws.lua);
    let a = completion::style_names_upto(pairs, pairs.len() as int);
    let b = completion::lua_names_upto(defs, defs.len() as int);
    let found = completion::found_names(ws);
    lemma_found(ws, name);
    lemma_said_styles(pairs, pairs.len() as int);
    lemma_said_lua(defs, defs.len() as int);
    let j = choose|j: int| 0 <= j < found.len() && (#[trigger] found[j]).0 == name;
    assert(0 <= j < found.len() && found[j].0 == name);
    let r = lemma_detail(found, name, 0);
    if r < a.len() {
        assert(found[r] == a[r]);
    } else {
        assert(found[r] == b[r - a.len()]);
    }
    if !workspace_laws::starts_with_ui(name) {
        lemma_style_names_upto(pairs, pairs.len() as int, name);
        if workspace_laws::has_style(ws.styles, name) {
            let (d, i) = choose|d: int, i: int|
                0 <= d < ws.styles.len() && 0 <= i < ws.styles[d].1.len() && (
                #[trigger] ws.styles[d].1[i]).name@ == name;
            let pair = (ws.styles[d].0, ws.styles[d].1[i]);
            assert(ws.styles[d].1[i] == pair.1);
            workspace_laws::law_pairs_hold_all(ws.styles, pair);
            assert(style_gives(pairs[pairs.index_of(pair)].1, name));
            let x = choose|x: int| 0 <= x < a.len() && (#[trigger] a[x]).0 == name;
            assert(found[x].0 == name);
            assert(r < a.len());
        } else if r < a.len() {
            assert(a[r].0 == name);
            let k = choose|k: int| 0 <= k < pairs.len() && style_gives((#[trigger] pairs[k]).1, name);
            assert(pairs.contains(pairs[k]));
            workspace_laws::law_pairs_hold_all(ws.styles, pairs[k]);
            let (d, i) = choose|d: int, i: int|
                0 <= d < ws.styles.len() && 0 <= i < ws.styles[d].1.len() && ws.styles[d].0
                    == pairs[k].0 && #[trigger] ws.styles[d].1[i] == pairs[k].1;
            assert(ws.styles[d].1[i].name@ == name);
        }
    }
}

// ---------------------------------------------------------------------------------------------
// Bases
// ---------------------------------------------------------------------------------------------

/// Where the base of a style is expected, exactly the widget names of the workspace are offered, each
/// once and in ascending order: every style that a document declares, whatever it derives from, every
/// Lua class, and the classes of the engine that one of them derives from.
pub proof fn law_base_items(ws: Workspace)
    ensures
        forall|name: Seq<char>| #[trigger]
            completion::has_label(completion::base_items(ws), name) <==> widget_name(ws, name),
        forall|i: int|
            0 <= i < completion::base_items(ws).len() ==> {
                let item = #[trigger] completion::base_items(ws)[i];
                &&& item.kind == CompletionKind::Class
                &&& item.insert_text is None
                &&& item.detail matches Some(detail) && said_of(ws, item.label, detail)
            },
        completion::labels_differ(completion::base_items(ws)),
        forall|i: int, j: int|
            0 <= i < j < completion::base_items(ws).len() ==> names::before(
                text::bytes_of((#[trigger] completion::base_items(ws)[i]).label),
                text::bytes_of((#[trigger] completion::base_items(ws)[j]).label),
            ),
{
    let all = completion::widget_names_of(ws);
    let items = completion::base_items(ws);
    assert forall|name: Seq<char>| #[trigger] completion::has_label(items, name) <==> widget_name(
        ws,
        name,
    ) by {
        lemma_widget_names(ws, name);
        if named(all, name) {
            let i = choose|i: int| 0 <= i < all.len() && (#[trigger] all[i]).0 == name;
            assert(items[i].label == name);
        }
        if completion::has_label(items, name) {
            let i = choose|i: int| 0 <= i < items.len() && (#[trigger] items[i]).label == name;
            assert(all[i].0 == name);
        }
    }
    lemma_names_ordered(ws);
    assert forall|i: int| 0 <= i < items.len() implies {
        let item = #[trigger] items[i];
        &&& item.kind == CompletionKind::Class
        &&& item.insert_text is None
        &&& item.detail matches Some(detail) && said_of(ws, item.label, detail)
    } by {
        assert(items[i].label == all[i].0);
    }
    assert forall|i: int, j: int| 0 <= i < j < items.len() implies names::before(
        text::bytes_of((#[trigger] items[i]).label),
        text::bytes_of((#[trigger] items[j]).label),
    ) by {
        assert(items[i].label == all[i].0 && items[j].label == all[j].0);
    }
    assert forall|i: int, j: int| #![trigger items[i], items[j]] 0 <= i < j
        < items.len() implies items[i].label != items[j].label by {
        names::law_before_total(
            text::bytes_of(items[i].label),
            text::bytes_of(items[j].label),
        );
    }
}

/// The widget names ascend, and what is said of each fits it.
proof fn lemma_names_ordered(ws: Workspace)
    ensures
        forall|i: int, j: int|
            0 <= i < j < completion::widget_names_of(ws).len() ==> names::before(
                text::bytes_of((#[trigger] completion::widget_names_of(ws)[i]).0),
                text::bytes_of((#[trigger] completion::widget_names_of(ws)[j]).0),
            ),
        forall|i: int|
            0 <= i < completion::widget_names_of(ws).len() ==> said_of(
                ws,
                (#[trigger] completion::widget_names_of(ws)[i]).0,
                completion::widget_names_of(ws)[i].1,
            ),
{
    let found = completion::found_names(ws);
    let n = found.len() as int;
    let set = completion::name_bytes(found, n);
    let ordered = names::in_order(set);
    let all = completion::widget_names_of(ws);
    lemma_name_bytes(found, n, Seq::empty());
    names::law_in_order_lists_all(set);
    assert forall|i: int| 0 <= i < all.len() implies text::bytes_of((#[trigger] all[i]).0)
        == ordered[i] && said_of(ws, all[i].0, all[i].1) by {
        assert(ordered.contains(ordered[i]));
        assert(set.contains(ordered[i]));
        lemma_name_bytes(found, n, ordered[i]);
        let k = choose|k: int| 0 <= k < n && text::bytes_of((#[trigger] found[k]).0) == ordered[i];
        encode_utf8_decode_utf8(found[k].0);
        assert(all[i].0 == found[k].0);
        lemma_found(ws, found[k].0);
        lemma_said(ws, found[k].0);
    }
    assert forall|i: int, j: int| 0 <= i < j < all.len() implies names::before(
        text::bytes_of((#[trigger] all[i]).0),
        text::bytes_of((#[trigger] all[j]).0),
    ) by {
        assert(names::before(ordered[i], ordered[j]));
    }
}

// ---------------------------------------------------------------------------------------------
// Properties and child widgets
// ---------------------------------------------------------------------------------------------

proof fn lemma_merged_from(items: Seq<CompletionView>, new: Seq<CompletionView>, k: int)
    requires
        0 <= k <= new.len(),
    ensures
        forall|i: int|
            0 <= i < completion::merged(items, new, k).len() ==> items.contains(
                #[trigger] completion::merged(items, new, k)[i],
            ) || new.contains(completion::merged(items, new, k)[i]),
    decreases k,
{
    let all = completion::merged(items, new, k);
    if k > 0 {
        lemma_merged_from(items, new, k - 1);
        let before = completion::merged(items, new, k - 1);
        assert forall|i: int| 0 <= i < all.len() implies items.contains(#[trigger] all[i])
            || new.contains(all[i]) by {
            if i < before.len() {
                assert(all[i] == before[i]);
            } else {
                assert(all[i] == new[k - 1]);
            }
        }
    } else {
        assert forall|i: int| 0 <= i < all.len() implies items.contains(#[trigger] all[i]) by {
            assert(all[i] == items[i]);
        }
    }
}

proof fn lemma_merged_label(
    items: Seq<CompletionView>,
    new: Seq<CompletionView>,
    label: Seq<char>,
)
    requires
        completion::labels_differ(items),
    ensures
        completion::labels_differ(completion::with_items(items, new)),
        completion::has_label(items, label) || completion::has_label(new, label)
            ==> completion::has_label(completion::with_items(items, new), label),
{
    let all = completion::with_items(items, new);
    completion::law_merged(items, new, new.len() as int);
    if completion::has_label(items, label) {
        let i = choose|i: int| 0 <= i < items.len() && (#[trigger] items[i]).label == label;
        assert(all.take(items.len() as int)[i] == items[i]);
        assert(all[i].label == label);
    } else if completion::has_label(new, label) {
        let i = choose|i: int| 0 <= i < new.len() && (#[trigger] new[i]).label == label;
        assert(completion::has_label(all, new[i].label));
    }
}

/// Whether an item of a place for a property or a child widget is offered for a reason: a widget name
/// of the workspace, ranked last, a property that every widget reads, or one that this widget reads,
/// ranked first.
pub open spec fn fits_slot(ws: Workspace, item: CompletionView) -> bool {
    ||| item.kind == CompletionKind::Class && widget_name(ws, item.label) && item.sort_text == Some(
        "2_"@ + item.label,
    ) && (item.detail matches Some(d) && said_of(ws, item.label, d))
    ||| item.kind == CompletionKind::Keyword && item.detail == Some("property"@) && item.sort_text
        == Some("1_"@ + item.label) && schema::member(
        catalog::PROPERTIES@,
        text::bytes_of(item.label),
    )
    ||| item.kind == CompletionKind::Keyword && item.detail == Some("widget property"@)
        && item.sort_text == Some("0_"@ + item.label)
}

/// Whether each of the items fits.
spec fn all_fit(ws: Workspace, items: Seq<CompletionView>) -> bool {
    forall|i: int| 0 <= i < items.len() ==> fits_slot(ws, #[trigger] items[i])
}

proof fn lemma_merged_fit(ws: Workspace, items: Seq<CompletionView>, new: Seq<CompletionView>)
    requires
        all_fit(ws, items),
        all_fit(ws, new),
    ensures
        all_fit(ws, completion::with_items(items, new)),
{
    let all = completion::with_items(items, new);
    lemma_merged_from(items, new, new.len() as int);
    assert forall|i: int| 0 <= i < all.len() implies fits_slot(ws, #[trigger] all[i]) by {
        if items.contains(all[i]) {
            assert(items[items.index_of(all[i])] == all[i]);
        } else {
            assert(new[new.index_of(all[i])] == all[i]);
        }
    }
}

proof fn lemma_props_fit(ws: Workspace, props: Seq<Seq<u8>>)
    ensures
        all_fit(ws, completion::widget_property_items(props)),
{
}

proof fn lemma_catalog_fits(ws: Workspace)
    ensures
        all_fit(ws, completion::catalog_items()),
        forall|k: int|
            0 <= k < catalog::PROPERTIES@.len() ==> completion::has_label(
                completion::catalog_items(),
                (#[trigger] catalog::PROPERTIES@[k])@,
            ),
{
    let all = catalog::PROPERTIES@;
    let items = completion::catalog_items();
    lemma_catalog_items(ws, all);
    assert forall|k: int| 0 <= k < all.len() implies completion::has_label(
        items,
        (#[trigger] all[k])@,
    ) by {
        assert(items[k].label == all[k]@);
    }
}

proof fn lemma_catalog_items(ws: Workspace, all: Seq<&'static str>)
    requires
        all == catalog::PROPERTIES@,
    ensures
        all_fit(ws, completion::catalog_items()),
        completion::catalog_items().len() == all.len(),
        forall|k: int|
            0 <= k < all.len() ==> (#[trigger] completion::catalog_items()[k]).label == all[k]@,
{
    let items = completion::catalog_items();
    assert forall|k: int| 0 <= k < items.len() implies fits_slot(ws, #[trigger] items[k]) by {
        assert(items[k].label == all[k]@);
        assert(all[k].spec_bytes() == text::bytes_of(items[k].label));
    }
}

proof fn lemma_children_fit(ws: Workspace, margin: Seq<char>)
    ensures
        all_fit(ws, completion::child_items(completion::widget_names_of(ws), margin)),
        forall|name: Seq<char>| #[trigger]
            widget_name(ws, name) ==> completion::has_label(
                completion::child_items(completion::widget_names_of(ws), margin),
                name,
            ),
        forall|k: int|
            0 <= k < completion::child_items(completion::widget_names_of(ws), margin).len() ==> {
                let d = (#[trigger] completion::child_items(
                    completion::widget_names_of(ws),
                    margin,
                )[k]).detail;
                d == Some("style"@) || d == Some("lua widget"@) || d == Some("native widget"@)
            },
{
    let all = completion::widget_names_of(ws);
    let items = completion::child_items(all, margin);
    lemma_names_ordered(ws);
    assert forall|i: int| 0 <= i < items.len() implies fits_slot(ws, #[trigger] items[i]) by {
        lemma_widget_names(ws, all[i].0);
        assert(named(all, all[i].0));
    }
    assert forall|name: Seq<char>| #[trigger] widget_name(ws, name) implies completion::has_label(
        items,
        name,
    ) by {
        lemma_widget_names(ws, name);
        let i = choose|i: int| 0 <= i < all.len() && (#[trigger] all[i]).0 == name;
        assert(items[i].label == name);
    }
}

/// Where a property or a child widget is expected, every property that every widget reads is offered
/// and every widget name of the workspace, each label once; and whatever is offered is offered for a
/// reason.
pub proof fn law_slot_items(s: Seq<u8>, ws: Workspace, offset: int)
    ensures
        completion::labels_differ(completion::slot_items(s, ws, offset)),
        forall|name: Seq<char>| #[trigger]
            widget_name(ws, name) ==> completion::has_label(
                completion::slot_items(s, ws, offset),
                name,
            ),
        forall|k: int|
            0 <= k < catalog::PROPERTIES@.len() ==> completion::has_label(
                completion::slot_items(s, ws, offset),
                (#[trigger] catalog::PROPERTIES@[k])@,
            ),
        forall|i: int|
            0 <= i < completion::slot_items(s, ws, offset).len() ==> fits_slot(
                ws,
                #[trigger] completion::slot_items(s, ws, offset)[i],
            ),
{
    let none = Seq::<CompletionView>::empty();
    let props = completion::widget_property_items(
        completion::slot_properties(s, syntax::stmts(s), ws, offset),
    );
    let fixed = completion::catalog_items();
    let margin = completion::child_margin(s, offset);
    let children = completion::child_items(completion::widget_names_of(ws), margin);
    lemma_props_fit(ws, completion::slot_properties(s, syntax::stmts(s), ws, offset));
    lemma_catalog_fits(ws);
    lemma_children_fit(ws, margin);
    lemma_slot_merged(ws, props, fixed, children);
}

proof fn lemma_slot_merged(
    ws: Workspace,
    props: Seq<CompletionView>,
    fixed: Seq<CompletionView>,
    children: Seq<CompletionView>,
)
    requires
        all_fit(ws, props),
        all_fit(ws, fixed),
        all_fit(ws, children),
    ensures
        ({
            let none = Seq::<CompletionView>::empty();
            let first = completion::with_items(none, props);
            let all = completion::with_items(completion::with_items(first, fixed), children);
            &&& completion::labels_differ(all)
            &&& all_fit(ws, all)
            &&& forall|label: Seq<char>| #[trigger]
                completion::has_label(fixed, label) ==> completion::has_label(all, label)
            &&& forall|label: Seq<char>| #[trigger]
                completion::has_label(children, label) ==> completion::has_label(all, label)
            &&& forall|label: Seq<char>| #[trigger]
                completion::has_label(props, label) ==> completion::has_label(all, label)
        }),
{
    let none = Seq::<CompletionView>::empty();
    let first = completion::with_items(none, props);
    let second = completion::with_items(first, fixed);
    let all = completion::with_items(second, children);
    lemma_merged_label(none, props, Seq::empty());
    lemma_merged_label(first, fixed, Seq::empty());
    lemma_merged_label(second, children, Seq::empty());
    lemma_merged_fit(ws, none, props);
    lemma_merged_fit(ws, first, fixed);
    lemma_merged_fit(ws, second, children);
    assert forall|label: Seq<char>| #[trigger]
        completion::has_label(props, label) implies completion::has_label(all, label) by {
        lemma_merged_label(none, props, label);
        lemma_merged_label(first, fixed, label);
        lemma_merged_label(second, children, label);
    }
    assert forall|label: Seq<char>| #[trigger]
        completion::has_label(fixed, label) implies completion::has_label(all, label) by {
        lemma_merged_label(first, fixed, label);
        lemma_merged_label(second, children, label);
    }
    assert forall|label: Seq<char>| #[trigger]
        completion::has_label(children, label) implies completion::has_label(all, label) by {
        lemma_merged_label(second, children, label);
    }
}

/// Whether some Lua document has a class of one of the names in the chain that reads the property.
pub open spec fn read_in_lua(ws: Workspace, chain: Seq<Seq<char>>, prop: Seq<char>) -> bool {
    exists|c: int, d: int, i: int, p: int|
        #![trigger chain[c], ws.lua[d].1[i].custom_props@[p]]
        0 <= c < chain.len() && 0 <= d < ws.lua.len() && 0 <= i < ws.lua[d].1.len() && 0 <= p
            < ws.lua[d].1[i].custom_props@.len() && ws.lua[d].1[i].name@ == chain[c]
            && ws.lua[d].1[i].custom_props@[p]@ == prop
}

/// Reading a property in the sense of the ancestry is reading it in the sense of the documents.
pub proof fn lemma_read_in_lua(ws: Workspace, chain: Seq<Seq<char>>, prop: Seq<char>)
    ensures
        widget_resolve::reads(ws.lua, chain, text::bytes_of(prop)) <==> read_in_lua(
            ws,
            chain,
            prop,
        ),
{
    let b = text::bytes_of(prop);
    let defs = lua_widgets::all_defs(ws.lua);
    let pairs = doc_index::pairs(ws.lua);
    if widget_resolve::reads(ws.lua, chain, b) {
        let c = choose|c: int|
            0 <= c < chain.len() && #[trigger] lua_widgets::declares_in(ws.lua, chain[c], b);
        let k = choose|k: int|
            0 <= k < defs.len() && (#[trigger] defs[k]).name@ == chain[c] && names::name_set(
                defs[k].custom_props@,
            ).contains(b);
        let spelled = names::spelled(defs[k].custom_props@);
        let p = choose|p: int| 0 <= p < spelled.len() && spelled[p] == b;
        text::lemma_bytes_injective(defs[k].custom_props@[p]@, prop);
        assert(pairs.contains(pairs[k]));
        workspace_laws::law_pairs_hold_all(ws.lua, pairs[k]);
        let (d, i) = choose|d: int, i: int|
            0 <= d < ws.lua.len() && 0 <= i < ws.lua[d].1.len() && ws.lua[d].0 == pairs[k].0
                && #[trigger] ws.lua[d].1[i] == pairs[k].1;
        assert(ws.lua[d].1[i] == defs[k]);
        assert(ws.lua[d].1[i].custom_props@[p]@ == prop);
        assert(chain[c] == ws.lua[d].1[i].name@);
    }
    if read_in_lua(ws, chain, prop) {
        let (c, d, i, p) = choose|c: int, d: int, i: int, p: int|
            #![trigger chain[c], ws.lua[d].1[i].custom_props@[p]]
            0 <= c < chain.len() && 0 <= d < ws.lua.len() && 0 <= i < ws.lua[d].1.len() && 0 <= p
                < ws.lua[d].1[i].custom_props@.len() && ws.lua[d].1[i].name@ == chain[c]
                && ws.lua[d].1[i].custom_props@[p]@ == prop;
        let def = ws.lua[d].1[i];
        let pair = (ws.lua[d].0, def);
        assert(ws.lua[d].1[i] == pair.1);
        workspace_laws::law_pairs_hold_all(ws.lua, pair);
        let k = pairs.index_of(pair);
        assert(defs[k] == def);
        assert(names::spelled(def.custom_props@)[p] == b);
        assert(names::name_set(def.custom_props@).contains(b));
        assert(lua_widgets::declares_in(ws.lua, chain[c], b));
    }
}

/// The names that the first `k` classes read.
spec fn all_read(defs: Seq<LuaWidgetDef>, k: int) -> Set<Seq<u8>>
    decreases k,
{
    if k <= 0 {
        Set::empty()
    } else {
        all_read(defs, k - 1).union(names::name_set(defs[k - 1].custom_props@))
    }
}

proof fn lemma_all_read(defs: Seq<LuaWidgetDef>, k: int)
    requires
        0 <= k <= defs.len(),
    ensures
        all_read(defs, k).finite(),
        forall|i: int, p: Seq<u8>|
            0 <= i < k && #[trigger] names::name_set(defs[i].custom_props@).contains(p)
                ==> all_read(defs, k).contains(p),
    decreases k,
{
    if k > 0 {
        lemma_all_read(defs, k - 1);
        vstd::seq_lib::seq_to_set_is_finite(names::spelled(defs[k - 1].custom_props@));
    }
}

proof fn lemma_finitely_many(ws: Workspace, chain: Seq<Seq<char>>)
    ensures
        widget_resolve::properties_read(ws.lua, chain).finite(),
{
    let defs = lua_widgets::all_defs(ws.lua);
    let all = all_read(defs, defs.len() as int);
    let some = widget_resolve::properties_read(ws.lua, chain);
    lemma_all_read(defs, defs.len() as int);
    assert forall|p: Seq<u8>| some.contains(p) implies all.contains(p) by {
        let c = choose|c: int|
            0 <= c < chain.len() && #[trigger] lua_widgets::declares_in(ws.lua, chain[c], p);
        let k = choose|k: int|
            0 <= k < defs.len() && (#[trigger] defs[k]).name@ == chain[c] && names::name_set(
                defs[k].custom_props@,
            ).contains(p);
        assert(names::name_set(defs[k].custom_props@).contains(p));
    }
    vstd::set_lib::lemma_set_subset_finite(all, some);
}

proof fn lemma_props_items(ws: Workspace, chain: Seq<Seq<char>>, prop: Seq<char>)
    ensures
        completion::has_label(
            completion::widget_property_items(
                names::in_order(widget_resolve::properties_read(ws.lua, chain)),
            ),
            prop,
        ) <==> read_in_lua(ws, chain, prop),
{
    let set = widget_resolve::properties_read(ws.lua, chain);
    let all = names::in_order(set);
    let items = completion::widget_property_items(all);
    let b = text::bytes_of(prop);
    let defs = lua_widgets::all_defs(ws.lua);
    lemma_finitely_many(ws, chain);
    names::law_in_order_lists_all(set);
    lemma_read_in_lua(ws, chain, prop);
    encode_utf8_decode_utf8(prop);
    if set.contains(b) {
        assert(items[all.index_of(b)].label == prop);
    }
    if completion::has_label(items, prop) {
        let k = choose|k: int| 0 <= k < items.len() && (#[trigger] items[k]).label == prop;
        assert(all.contains(all[k]));
        assert(set.contains(all[k]));
        let c = choose|c: int|
            0 <= c < chain.len() && #[trigger] lua_widgets::declares_in(ws.lua, chain[c], all[k]);
        let j = choose|j: int|
            0 <= j < defs.len() && (#[trigger] defs[j]).name@ == chain[c] && names::name_set(
                defs[j].custom_props@,
            ).contains(all[k]);
        let spelled = names::spelled(defs[j].custom_props@);
        let p = choose|p: int| 0 <= p < spelled.len() && spelled[p] == all[k];
        encode_utf8_decode_utf8(defs[j].custom_props@[p]@);
        assert(all[k] == b);
    }
}

/// Where a property or a child widget is expected in the body of a widget, every property is offered
/// that a Lua class in the ancestry of that widget reads, and no other property is said to be one of
/// that widget.
pub proof fn law_widget_properties(
    s: Seq<u8>,
    ws: Workspace,
    offset: int,
    name: Seq<char>,
    prop: Seq<char>,
)
    requires
        completion::slot_type(s, syntax::stmts(s), offset) == Some(name),
    ensures
        read_in_lua(ws, widget_resolve::ancestry(ws.styles, ws.lua, name), prop)
            ==> completion::has_label(completion::slot_items(s, ws, offset), prop),
        forall|i: int|
            0 <= i < completion::slot_items(s, ws, offset).len() && (
            #[trigger] completion::slot_items(s, ws, offset)[i]).detail == Some(
                "widget property"@,
            ) ==> read_in_lua(
                ws,
                widget_resolve::ancestry(ws.styles, ws.lua, name),
                completion::slot_items(s, ws, offset)[i].label,
            ),
{
    let chain = widget_resolve::ancestry(ws.styles, ws.lua, name);
    let listed = completion::slot_properties(s, syntax::stmts(s), ws, offset);
    let margin = completion::child_margin(s, offset);
    let children = completion::child_items(completion::widget_names_of(ws), margin);
    assert(listed == names::in_order(widget_resolve::properties_read(ws.lua, chain)));
    lemma_catalog_fits(ws);
    lemma_fixed_details();
    lemma_children_fit(ws, margin);
    lemma_props_offered(ws, chain, completion::catalog_items(), children, prop);
}

proof fn lemma_props_offered(
    ws: Workspace,
    chain: Seq<Seq<char>>,
    fixed: Seq<CompletionView>,
    children: Seq<CompletionView>,
    prop: Seq<char>,
)
    requires
        all_fit(ws, fixed),
        all_fit(ws, children),
        forall|k: int|
            0 <= k < fixed.len() ==> (#[trigger] fixed[k]).detail == Some("property"@),
        forall|k: int|
            0 <= k < children.len() ==> {
                let d = (#[trigger] children[k]).detail;
                d == Some("style"@) || d == Some("lua widget"@) || d == Some("native widget"@)
            },
    ensures
        ({
            let props = completion::widget_property_items(
                names::in_order(widget_resolve::properties_read(ws.lua, chain)),
            );
            let first = completion::with_items(Seq::empty(), props);
            let all = completion::with_items(completion::with_items(first, fixed), children);
            &&& read_in_lua(ws, chain, prop) ==> completion::has_label(all, prop)
            &&& forall|i: int|
                0 <= i < all.len() && (#[trigger] all[i]).detail == Some("widget property"@)
                    ==> read_in_lua(ws, chain, all[i].label)
        }),
{
    let listed = names::in_order(widget_resolve::properties_read(ws.lua, chain));
    let props = completion::widget_property_items(listed);
    let first = completion::with_items(Seq::empty(), props);
    let all = completion::with_items(completion::with_items(first, fixed), children);
    lemma_props_fit(ws, listed);
    lemma_slot_merged(ws, props, fixed, children);
    lemma_props_items(ws, chain, prop);
    lemma_own_properties(props, fixed, children);
    assert forall|i: int|
        0 <= i < all.len() && (#[trigger] all[i]).detail == Some(
            "widget property"@,
        ) implies read_in_lua(ws, chain, all[i].label) by {
        assert(props[props.index_of(all[i])].label == all[i].label);
        lemma_props_items(ws, chain, all[i].label);
    }
}

/// What is said to be a property of the widget comes from the list of these.
proof fn lemma_own_properties(
    props: Seq<CompletionView>,
    fixed: Seq<CompletionView>,
    children: Seq<CompletionView>,
)
    requires
        forall|k: int|
            0 <= k < fixed.len() ==> (#[trigger] fixed[k]).detail == Some("property"@),
        forall|k: int|
            0 <= k < children.len() ==> {
                let d = (#[trigger] children[k]).detail;
                d == Some("style"@) || d == Some("lua widget"@) || d == Some("native widget"@)
            },
    ensures
        ({
            let none = Seq::<CompletionView>::empty();
            let first = completion::with_items(none, props);
            let all = completion::with_items(completion::with_items(first, fixed), children);
            forall|i: int|
                0 <= i < all.len() && (#[trigger] all[i]).detail == Some("widget property"@)
                    ==> props.contains(all[i])
        }),
{
    let none = Seq::<CompletionView>::empty();
    let first = completion::with_items(none, props);
    let second = completion::with_items(first, fixed);
    let all = completion::with_items(second, children);
    lemma_merged_from(none, props, props.len() as int);
    lemma_merged_from(first, fixed, fixed.len() as int);
    lemma_merged_from(second, children, children.len() as int);
    lemma_details_differ();
    assert forall|i: int|
        0 <= i < all.len() && (#[trigger] all[i]).detail == Some(
            "widget property"@,
        ) implies props.contains(all[i]) by {
        let item = all[i];
        if children.contains(item) {
            assert(children[children.index_of(item)] == item);
        } else {
            assert(second.contains(item));
            assert(second[second.index_of(item)] == item);
            if fixed.contains(item) {
                assert(fixed[fixed.index_of(item)] == item);
            } else {
                assert(first[first.index_of(item)] == item);
            }
        }
    }
}

proof fn lemma_fixed_details()
    ensures
        forall|k: int|
            0 <= k < completion::catalog_items().len() ==> (
            #[trigger] completion::catalog_items()[k]).detail == Some("property"@),
{
}

proof fn lemma_details_differ()
    ensures
        "widget property"@ != "property"@,
        "widget property"@ != "style"@,
        "widget property"@ != "lua widget"@,
        "widget property"@ != "native widget"@,
{
    reveal_strlit("widget property");
    reveal_strlit("property");
    reveal_strlit("style");
    reveal_strlit("lua widget");
    reveal_strlit("native widget");
    assert("widget property"@.len() == 15);
    assert("property"@.len() == 8);
    assert("style"@.len() == 5);
    assert("lua widget"@.len() == 10);
    assert("native widget"@.len() == 13);
}

// ---------------------------------------------------------------------------------------------
// The cursor
// ---------------------------------------------------------------------------------------------

/// Whether a byte is an ASCII letter.
pub open spec fn letter(c: u8) -> bool {
    0x41 <= c <= 0x5a || 0x61 <= c <= 0x7a
}

/// Whether a byte can stand in a name: a letter, a digit, `_` or `-`.
pub open spec fn word_byte(c: u8) -> bool {
    letter(c) || 0x30 <= c <= 0x39 || c == 0x5f || c == 0x2d
}

/// Whether the bytes from `i` to `j` are those of a name.
pub open spec fn word_between(p: Seq<u8>, i: int, j: int) -> bool {
    forall|x: int| i <= x < j ==> word_byte(#[trigger] p[x])
}

/// Whether the bytes from `i` to `j` are spaces.
pub open spec fn spaces_between(p: Seq<u8>, i: int, j: int) -> bool {
    forall|x: int| i <= x < j ==> #[trigger] p[x] == 0x20
}

/// Whether the cursor at `offset` is behind the text `p` on its line, in no comment and in no block
/// scalar.
pub open spec fn cursor_behind(s: Seq<u8>, offset: int, p: Seq<u8>) -> bool {
    &&& text::boundary(s, offset)
    &&& p.len() <= offset
    &&& p == s.subrange(offset - p.len(), offset)
    &&& offset == p.len() || s[offset - p.len() - 1] == 0x0a
    &&& forall|i: int| 0 <= i < p.len() ==> #[trigger] p[i] != 0x0a
    &&& forall|k: int|
        0 <= k < syntax::stmts(s).len() ==> {
            let st = #[trigger] syntax::stmts(s)[k];
            &&& st.kind == StmtKind::Comment ==> offset < st.span.start || (offset
                == st.span.start && offset > 0) || st.span.end < offset
            &&& st.body matches Some(b) ==> offset < b.start || b.end < offset
        }
}

proof fn lemma_cursor(s: Seq<u8>, offset: int, p: Seq<u8>, ws: Workspace)
    requires
        cursor_behind(s, offset, p),
    ensures
        completion::completions(s, offset, ws) == match slots::slot_at(p) {
            Some(slot) => completion::items_in(s, ws, offset, p, slot),
            None => Seq::empty(),
        },
{
    let a = offset - p.len();
    assert forall|i: int| a <= i < offset implies #[trigger] s[i] != 0x0a by {
        assert(s[i] == p[i - a]);
    }
    lemma_line_start(s, a, offset);
    assert(!completion::suppressed(syntax::stmts(s), offset)) by {
        if completion::suppressed(syntax::stmts(s), offset) {
            let k = choose|k: int|
                0 <= k < syntax::stmts(s).len() && #[trigger] completion::raw_at(
                    syntax::stmts(s)[k],
                    offset,
                );
            assert(syntax::stmts(s)[k] == syntax::stmts(s)[k]);
        }
    }
}

proof fn lemma_line_start(s: Seq<u8>, a: int, j: int)
    requires
        0 <= a <= j <= s.len(),
        a == 0 || s[a - 1] == 0x0a,
        forall|i: int| a <= i < j ==> #[trigger] s[i] != 0x0a,
    ensures
        text::line_start(s, j) == a,
    decreases j - a,
{
    if a < j {
        assert(s[j - 1] != 0x0a);
        lemma_line_start(s, a, j - 1);
    }
}

proof fn lemma_after_spaces(p: Seq<u8>, i: int, n: int)
    requires
        0 <= i <= n <= p.len(),
        spaces_between(p, i, n),
        n < p.len() ==> 0x21 <= p[n] <= 0x7e,
    ensures
        text::skip_ws(p, i) == n,
    decreases n - i,
{
    if i < n {
        assert(p[i] == 0x20);
        lemma_after_spaces(p, i + 1, n);
    }
}

proof fn lemma_absent(t: Seq<u8>, c: u8, i: int)
    requires
        0 <= i,
        forall|j: int| i <= j < t.len() ==> #[trigger] t[j] != c,
    ensures
        text::find_byte(t, c, i) is None,
    decreases t.len() - i,
{
    if i < t.len() {
        lemma_absent(t, c, i + 1);
    }
}

proof fn lemma_first(t: Seq<u8>, c: u8, i: int, k: int)
    requires
        0 <= i <= k < t.len(),
        t[k] == c,
        forall|j: int| i <= j < k ==> #[trigger] t[j] != c,
    ensures
        text::find_byte(t, c, i) == Some(k),
    decreases k - i,
{
    if i < k {
        lemma_first(t, c, i + 1, k);
    }
}

proof fn lemma_last(t: Seq<u8>, c: u8, k: int, j: int)
    requires
        0 <= k < j <= t.len(),
        t[k] == c,
        forall|x: int| k < x < j ==> #[trigger] t[x] != c,
    ensures
        text::rfind_byte(t, c, j) == Some(k),
    decreases j - k,
{
    if k < j - 1 {
        assert(t[j - 1] != c);
        lemma_last(t, c, k, j - 1);
    }
}

/// The indentation of the text in front of the cursor, and what is left behind it.
proof fn lemma_indented(p: Seq<u8>, n: int)
    requires
        0 <= n <= p.len(),
        spaces_between(p, 0, n),
        n < p.len() ==> 0x21 <= p[n] <= 0x7e,
    ensures
        slots::slot_at(p) == slots::slot_after(p.subrange(n, p.len() as int), n > 0),
{
    lemma_after_spaces(p, 0, n);
    lemma_absent(text::upto(p, n), ascii::TAB, 0);
}

/// A text without a dot does not start with the word of an anchor.
proof fn lemma_no_anchor(t: Seq<u8>)
    requires
        t.len() > 7 ==> t[7] != 0x2e,
    ensures
        !text::occurs(t, 0, "anchors.".spec_bytes()),
{
    reveal_strlit("anchors.");
    is_ascii_chars_encode_utf8("anchors."@);
    let a = "anchors.".spec_bytes();
    assert(a.len() == 8 && a[7] == 0x2e);
    if text::occurs(t, 0, a) {
        assert(t.subrange(0, 8)[7] == t[7]);
    }
}

/// Whether a header is being typed: a name at the start of the line, `<` at `k`, and what there is of
/// the base from `m` on.
pub open spec fn typing_base(p: Seq<u8>, k: int, m: int) -> bool {
    &&& 0 < k < m <= p.len()
    &&& letter(p[0])
    &&& forall|x: int| 0 <= x < k ==> word_byte(#[trigger] p[x]) || p[x] == 0x20
    &&& p[k] == 0x3c
    &&& spaces_between(p, k + 1, m)
    &&& word_between(p, m, p.len() as int)
}

/// Behind the `<` of a header, what is offered are the widget names of the workspace, whatever of the
/// base is there already.
pub proof fn law_bases_are_offered(
    s: Seq<u8>,
    offset: int,
    p: Seq<u8>,
    ws: Workspace,
    k: int,
    m: int,
)
    requires
        cursor_behind(s, offset, p),
        typing_base(p, k, m),
    ensures
        forall|name: Seq<char>| #[trigger]
            completion::has_label(completion::completions(s, offset, ws), name) <==> widget_name(
                ws,
                name,
            ),
        completion::completions(s, offset, ws) == completion::base_items(ws),
{
    lemma_cursor(s, offset, p, ws);
    lemma_indented(p, 0);
    let t = p.subrange(0, p.len() as int);
    assert(t =~= p);
    assert forall|x: int| 0 <= x < p.len() implies #[trigger] p[x] != 0x3a && p[x] != 0x2e by {
        assert(x < k ==> word_byte(p[x]) || p[x] == 0x20);
        assert(k < x < m ==> p[x] == 0x20);
        assert(m <= x ==> word_byte(p[x]));
    }
    lemma_absent(p, ascii::COLON, 0);
    lemma_no_anchor(p);
    assert forall|x: int| k < x < p.len() implies #[trigger] p[x] != 0x3c by {
        assert(x < m ==> p[x] == 0x20);
        assert(m <= x ==> word_byte(p[x]));
    }
    lemma_last(p, ascii::LESS, k, p.len() as int);
    let r = text::from(p, k + 1);
    assert forall|x: int| 0 <= x < m - k - 1 implies #[trigger] r[x] == 0x20 by {
        assert(r[x] == p[k + 1 + x]);
    }
    if m < p.len() {
        assert(r[m - k - 1] == p[m]);
    }
    lemma_after_spaces(r, 0, m - k - 1);
    let u = text::trim_start(r);
    assert forall|x: int| 0 <= x < u.len() implies slots::word_byte(#[trigger] u[x]) by {
        assert(u[x] == p[m + x]);
        assert(word_byte(p[m + x]));
    }
    assert(slots::slot_at(p) == Some(slots::Slot::BaseSlot));
    law_base_items(ws);
}

/// Whether a key or a tag is being typed: spaces up to `n`, and behind them a part of a name.
pub open spec fn typing_word(p: Seq<u8>, n: int) -> bool {
    &&& 0 < n < p.len()
    &&& spaces_between(p, 0, n)
    &&& letter(p[n])
    &&& word_between(p, n, p.len() as int)
}

proof fn lemma_word_slot(p: Seq<u8>, n: int)
    requires
        typing_word(p, n),
    ensures
        slots::slot_at(p) == Some(slots::Slot::IndentedSlot),
        text::trim(p).len() > 0,
{
    assert(word_byte(p[n]));
    lemma_indented(p, n);
    let t = p.subrange(n, p.len() as int);
    assert forall|x: int| 0 <= x < t.len() implies word_byte(#[trigger] t[x]) by {
        assert(t[x] == p[n + x]);
        assert(word_byte(p[n + x]));
    }
    assert(t[0] == p[n]);
    assert(t.len() > 7 ==> t[7] != 0x2e);
    lemma_no_anchor(t);
    lemma_absent(t, ascii::COLON, 0);
    assert(slots::all_word(t, 1)) by {
        assert forall|x: int| 1 <= x < t.len() implies slots::word_byte(#[trigger] t[x]) by {
            assert(word_byte(t[x]));
        }
    }
    assert(slots::letter(t[0]));
    lemma_after_spaces(p, 0, n);
    assert(text::trim_start(p) =~= t);
    assert(word_byte(t[t.len() - 1]));
    assert(text::ws_len_before(t, t.len() as int) == 0);
}

/// In the body of a widget, where a line of structure is in order, a part of a name is followed by
/// what a statement can be: the items of a place for a property or a child widget are offered, every
/// widget name of the workspace among them.
pub proof fn law_statements_are_offered(
    s: Seq<u8>,
    offset: int,
    p: Seq<u8>,
    ws: Workspace,
    n: int,
)
    requires
        cursor_behind(s, offset, p),
        typing_word(p, n),
        diagnostics::well_indented_at(s, offset),
        !completion::in_layout_block(s, offset),
    ensures
        completion::completions(s, offset, ws) == completion::slot_items(s, ws, offset),
        forall|name: Seq<char>| #[trigger]
            widget_name(ws, name) ==> completion::has_label(
                completion::completions(s, offset, ws),
                name,
            ),
{
    lemma_statement_items(s, offset, p, ws, n);
    law_slot_items(s, ws, offset);
}

proof fn lemma_statement_items(s: Seq<u8>, offset: int, p: Seq<u8>, ws: Workspace, n: int)
    requires
        cursor_behind(s, offset, p),
        typing_word(p, n),
        diagnostics::well_indented_at(s, offset),
    ensures
        completion::completions(s, offset, ws) == if completion::in_layout_block(s, offset) {
            completion::layout_key_items()
        } else {
            completion::slot_items(s, ws, offset)
        },
{
    lemma_cursor(s, offset, p, ws);
    lemma_word_slot(p, n);
}

/// In the body of `layout:`, the keys of a layout are offered in the order of their list.
pub proof fn law_layout_keys_are_offered(
    s: Seq<u8>,
    offset: int,
    p: Seq<u8>,
    ws: Workspace,
    n: int,
)
    requires
        cursor_behind(s, offset, p),
        typing_word(p, n),
        diagnostics::well_indented_at(s, offset),
        completion::in_layout_block(s, offset),
    ensures
        completion::completions(s, offset, ws).len() == catalog::LAYOUT_PROPERTIES@.len(),
        forall|k: int|
            0 <= k < catalog::LAYOUT_PROPERTIES@.len() ==> (#[trigger] completion::completions(
                s,
                offset,
                ws,
            )[k]).label == catalog::LAYOUT_PROPERTIES@[k]@,
{
    lemma_statement_items(s, offset, p, ws, n);
}

/// Whether an event is being typed: spaces up to `n`, `@`, and a part of a name.
pub open spec fn typing_event(p: Seq<u8>, n: int) -> bool {
    0 <= n < p.len() && spaces_between(p, 0, n) && p[n] == 0x40 && word_between(
        p,
        n + 1,
        p.len() as int,
    )
}

proof fn lemma_not_spaced(t: Seq<u8>, i: int)
    requires
        0 <= i,
        word_between(t, i, t.len() as int),
    ensures
        !slots::spaced(t, i),
    decreases t.len() - i,
{
    if i < t.len() {
        assert(word_byte(t[i]));
        lemma_not_spaced(t, i + 1);
    }
}

/// Behind `@`, all events are offered in the order of their list.
pub proof fn law_events_are_offered(s: Seq<u8>, offset: int, p: Seq<u8>, ws: Workspace, n: int)
    requires
        cursor_behind(s, offset, p),
        typing_event(p, n),
    ensures
        completion::completions(s, offset, ws).len() == schema::EVENTS@.len(),
        forall|i: int|
            0 <= i < schema::EVENTS@.len() ==> {
                let item = #[trigger] completion::completions(s, offset, ws)[i];
                item.label == schema::EVENTS@[i]@ && item.kind == CompletionKind::Event
            },
{
    lemma_cursor(s, offset, p, ws);
    lemma_indented(p, n);
    let t = p.subrange(n, p.len() as int);
    let r = text::from(t, 1);
    assert forall|x: int| 0 <= x < r.len() implies word_byte(#[trigger] r[x]) by {
        assert(r[x] == p[n + 1 + x]);
        assert(word_byte(p[n + 1 + x]));
    }
    assert(t[0] == p[n]);
    lemma_absent(r, ascii::COLON, 0);
    lemma_not_spaced(r, 0);
    assert(slots::slot_at(p) == Some(slots::Slot::Events));
}

/// Whether a value is being typed: spaces up to `n`, a key up to the `:` at `c`, spaces up to `m`, and
/// a part of a word.
pub open spec fn typing_value(p: Seq<u8>, n: int, c: int, m: int) -> bool {
    &&& 0 < n < c < m <= p.len()
    &&& spaces_between(p, 0, n)
    &&& word_between(p, n, c)
    &&& p[c] == 0x3a
    &&& spaces_between(p, c + 1, m)
    &&& word_between(p, m, p.len() as int)
}

proof fn lemma_value_slot(p: Seq<u8>, n: int, c: int, m: int)
    requires
        typing_value(p, n, c, m),
    ensures
        slots::slot_at(p) == Some(slots::Slot::PropertyValue(p.subrange(n, c))),
{
    assert(word_byte(p[n]));
    lemma_indented(p, n);
    let t = p.subrange(n, p.len() as int);
    let k = c - n;
    assert(t[0] == p[n]);
    assert(t[k] == 0x3a);
    assert forall|x: int| 0 <= x < k implies #[trigger] t[x] != 0x3a && t[x] != 0x2e by {
        assert(t[x] == p[n + x]);
        assert(word_byte(p[n + x]));
    }
    assert forall|x: int| k < x < t.len() implies #[trigger] t[x] == 0x20 || word_byte(t[x]) by {
        assert(t[x] == p[n + x]);
        if n + x < m {
            assert(p[n + x] == 0x20);
        } else {
            assert(word_byte(p[n + x]));
        }
    }
    assert(t.len() > 7 ==> t[7] != 0x2e);
    lemma_no_anchor(t);
    lemma_first(t, ascii::COLON, 0, k);
    let r = text::from(t, k + 1);
    assert forall|x: int| 0 <= x < m - c - 1 implies #[trigger] r[x] == 0x20 by {
        assert(r[x] == p[c + 1 + x]);
    }
    if m < p.len() {
        assert(word_byte(p[m]));
        assert(r[m - c - 1] == p[m]);
    }
    lemma_after_spaces(r, 0, m - c - 1);
    let v = text::trim_start(r);
    assert forall|x: int| 0 <= x < v.len() implies word_byte(#[trigger] v[x]) by {
        assert(v[x] == p[m + x]);
        assert(word_byte(p[m + x]));
    }
    lemma_not_spaced(v, 0);
    if v.len() > 0 {
        assert(word_byte(v[0]));
    }
    let key = text::upto(t, k);
    assert(key =~= p.subrange(n, c));
    assert(word_byte(p[c - 1]));
    assert(key[key.len() - 1] == p[c - 1]);
    assert(text::ws_len_before(key, key.len() as int) == 0);
    assert(text::trim_end(key) =~= key);
    assert(!text::has(v, 0, ascii::DOLLAR));
    assert(slots::value_slot(t, k) == Some(slots::Slot::PropertyValue(p.subrange(n, c))));
}

/// Behind the key of a property, the words are offered that the property takes: where they form a
/// closed set these, behind a switch `true` and `false`, and behind a color the named colors.
pub proof fn law_values_are_offered(
    s: Seq<u8>,
    offset: int,
    p: Seq<u8>,
    ws: Workspace,
    n: int,
    c: int,
    m: int,
)
    requires
        cursor_behind(s, offset, p),
        typing_value(p, n, c, m),
        diagnostics::well_indented_at(s, offset),
        !completion::in_layout_block(s, offset),
    ensures
        ({
            let key = p.subrange(n, c);
            let all = completion::completions(s, offset, ws);
            match schema::value_set(key) {
                Some(set) => all.len() == set.len() && forall|i: int|
                    0 <= i < set.len() ==> (#[trigger] all[i]).label == set[i]@,
                None => if schema::member(catalog::BOOLEAN_PROPERTIES@, key) {
                    all.len() == 2 && all[0].label == "true"@ && all[1].label == "false"@
                } else if schema::member(catalog::COLOR_PROPERTIES@, key) {
                    all.len() == catalog::NAMED_COLORS@.len() && forall|i: int|
                        0 <= i < all.len() ==> (#[trigger] all[i]).label
                            == catalog::NAMED_COLORS@[i].0@
                } else {
                    all.len() == 0
                },
            }
        }),
{
    lemma_cursor(s, offset, p, ws);
    lemma_value_slot(p, n, c, m);
}

} // verus!
