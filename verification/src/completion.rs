//! What can be inserted at the cursor.
//!
//! Where a closed set of words applies, all of it is offered, and the host narrows it down to what is
//! being typed: states, anchor edges and targets, events, the values of some properties, the keys of a
//! `layout:` block. An indented line on which a word is being typed takes a property or a child
//! widget, so it is offered both. Where no set applies, nothing is offered.

use crate::ascii;
use crate::anchors;
use crate::anchors::{anchor_owner_widget, direct_sibling_widgets, widget_id_span};
use crate::catalog;
use crate::diagnostics;
use crate::diagnostics::{line_indentation_is_valid, Workspace};
use crate::doc_index;
use crate::indent;
use crate::indent::{is_comment, leading_spaces, split_lines, Line};
use crate::lang_api;
use crate::lang_api::{CompletionItem, CompletionKind, CompletionView, InsertFormat};
use crate::lua_widgets;
use crate::lua_widgets::{LuaWidgetDef, LuaWidgetIndex};
use crate::names;
use crate::names::insert_name;
use crate::nodes;
use crate::nodes::{find_stmt_under, span_text};
use crate::property_hover;
use crate::property_hover::documentation_body;
use crate::schema;
use crate::schema::{
    classify_layout_value, classify_value, is_layout_block_property, PropertyValueKind,
};
use crate::slots;
use crate::slots::{classify, Context, Slot};
use crate::style_index;
use crate::style_index::{is_native_base, StyleDef, StyleIndex};
use crate::syntax;
use crate::syntax::{Stmt, StmtKind, SyntaxTree};
use crate::text;
use crate::text::{
    find_byte_at, has_at, is_boundary, line_start_of, occurs_at, same_str, str_upto, substr,
    trimmed, trimmed_start,
};
use crate::widget_resolve;
use crate::widget_resolve::{find_widget_at, resolve_ancestry, widget_type};
use crate::wording;
use crate::wording::blank_text;
use vstd::prelude::*;
use vstd::string::*;
use vstd::utf8::*;

verus! {

// ---------------------------------------------------------------------------------------------
// Items
// ---------------------------------------------------------------------------------------------

/// An item whose label is what is inserted.
pub open spec fn plain_item(
    label: Seq<char>,
    kind: CompletionKind,
    detail: Seq<char>,
) -> CompletionView {
    CompletionView {
        label,
        kind,
        detail: Some(detail),
        sort_text: None,
        insert_text: None,
        insert_format: InsertFormat::Plain,
        documentation: None,
    }
}

/// Whether a character has a meaning of its own in a snippet.
pub open spec fn special(c: char) -> bool {
    c == '\\' || c == '$' || c == '}'
}

/// The first `k` characters of `t` as they are written in a snippet.
pub open spec fn escaped(t: Seq<char>, k: int) -> Seq<char>
    decreases k,
{
    if k <= 0 {
        Seq::empty()
    } else if special(t[k - 1]) {
        escaped(t, k - 1) + "\\"@ + t.subrange(k - 1, k)
    } else {
        escaped(t, k - 1) + t.subrange(k - 1, k)
    }
}

/// What a snippet inserts, as far as it holds no placeholders: a backslash makes the character behind
/// it plain.
pub open spec fn inserted(t: Seq<char>) -> Seq<char>
    decreases t.len(),
{
    if t.len() == 0 {
        Seq::empty()
    } else if t[0] == '\\' && t.len() > 1 {
        seq![t[1]] + inserted(t.subrange(2, t.len() as int))
    } else {
        seq![t[0]] + inserted(t.subrange(1, t.len() as int))
    }
}

proof fn lemma_inserted(t: Seq<char>, k: int, rest: Seq<char>)
    requires
        0 <= k <= t.len(),
    ensures
        inserted(escaped(t, k) + rest) == t.take(k) + inserted(rest),
    decreases k,
{
    if k > 0 {
        let c = t.subrange(k - 1, k);
        let before = escaped(t, k - 1);
        let piece = if special(t[k - 1]) {
            "\\"@ + c
        } else {
            c
        };
        reveal_strlit("\\");
        assert(escaped(t, k) + rest =~= before + (piece + rest));
        lemma_inserted(t, k - 1, piece + rest);
        assert((piece + rest).subrange(piece.len() as int, (piece + rest).len() as int) =~= rest);
        assert(inserted(piece + rest) == seq![t[k - 1]] + inserted(rest));
        assert(t.take(k) =~= t.take(k - 1) + seq![t[k - 1]]);
        assert(t.take(k - 1) + (seq![t[k - 1]] + inserted(rest)) =~= t.take(k) + inserted(rest));
    } else {
        assert(escaped(t, k) + rest =~= rest);
        assert(t.take(0) + inserted(rest) =~= inserted(rest));
    }
}

/// What is written into a snippet is inserted as it was.
pub proof fn law_escaped_inserted(t: Seq<char>)
    ensures
        inserted(escaped(t, t.len() as int)) == t,
{
    lemma_inserted(t, t.len() as int, Seq::empty());
    assert(escaped(t, t.len() as int) + Seq::empty() =~= escaped(t, t.len() as int));
    assert(t.take(t.len() as int) + Seq::empty() =~= t);
}

/// The snippet for a key: the key, and the cursor where its value goes.
pub open spec fn key_snippet(key: Seq<char>) -> Seq<char> {
    escaped(key, key.len() as int) + ": $0"@
}

/// The snippet for a child widget: its tag, its id on a line of its own, and the cursor on the next.
pub open spec fn widget_snippet(label: Seq<char>, margin: Seq<char>) -> Seq<char> {
    escaped(label, label.len() as int) + "\n"@ + margin + "id: $1\n"@ + margin + "$0"@
}

/// An item that goes on to its value.
pub open spec fn key_item(
    label: &'static str,
    kind: CompletionKind,
    detail: Seq<char>,
) -> CompletionView {
    CompletionView {
        insert_text: Some(key_snippet(label@)),
        insert_format: InsertFormat::Snippet,
        documentation: property_hover::documentation(label.spec_bytes()),
        ..plain_item(label@, kind, detail)
    }
}

/// The words of a set.
pub open spec fn set_items_of(
    set: Seq<&'static str>,
    kind: CompletionKind,
    detail: Seq<char>,
) -> Seq<CompletionView> {
    set.map_values(|label: &'static str| plain_item(label@, kind, detail))
}

/// The keys of a set, each of which goes on to its value.
pub open spec fn key_items_of(
    set: Seq<&'static str>,
    kind: CompletionKind,
    detail: Seq<char>,
) -> Seq<CompletionView> {
    set.map_values(|label: &'static str| key_item(label, kind, detail))
}

/// The keys of a `layout:` block.
pub open spec fn layout_key_items() -> Seq<CompletionView> {
    catalog::LAYOUT_PROPERTIES@.map_values(
        |label: &'static str|
            CompletionView {
                insert_text: Some(key_snippet(label@)),
                insert_format: InsertFormat::Snippet,
                ..plain_item(label@, CompletionKind::Keyword, "layout property"@)
            },
    )
}

/// The two values of a switch.
pub const SWITCH_VALUES: [&'static str; 2] = ["true", "false"];

/// The hexadecimal digits.
pub const HEX_DIGITS: [&'static str; 16] = [
    "0",
    "1",
    "2",
    "3",
    "4",
    "5",
    "6",
    "7",
    "8",
    "9",
    "a",
    "b",
    "c",
    "d",
    "e",
    "f",
];

/// The last `k` hexadecimal digits of `n`.
pub open spec fn hex(n: int, k: int) -> Seq<char>
    decreases k,
{
    if k <= 0 {
        Seq::empty()
    } else {
        hex(n / 16, k - 1) + HEX_DIGITS@[n % 16]@
    }
}

/// A color as it is written: six digits, or more where the number has more.
pub open spec fn hex_color(rgb: u32) -> Seq<char> {
    "#"@ + hex(
        rgb as int,
        if rgb < 0x1000000 {
            6
        } else if rgb < 0x10000000 {
            7
        } else {
            8
        },
    )
}

/// The named colors.
pub open spec fn color_items() -> Seq<CompletionView> {
    catalog::NAMED_COLORS@.map_values(
        |c: (&'static str, u32)|
            CompletionView {
                documentation: Some("`"@ + hex_color(c.1) + "`"@),
                ..plain_item(c.0@, CompletionKind::Value, "named color"@)
            },
    )
}

/// The values of the property `key`, where they form a closed set.
pub open spec fn value_items(key: Seq<u8>) -> Seq<CompletionView> {
    match schema::value_set(key) {
        Some(values) => set_items_of(values, CompletionKind::EnumMember, "value"@),
        None => if schema::member(catalog::BOOLEAN_PROPERTIES@, key) {
            set_items_of(SWITCH_VALUES@, CompletionKind::Value, "value"@)
        } else if schema::member(catalog::COLOR_PROPERTIES@, key) {
            color_items()
        } else {
            Seq::empty()
        },
    }
}

/// The values of the key `key` of a `layout:` block, where they form a closed set.
pub open spec fn layout_items(key: Seq<u8>) -> Seq<CompletionView> {
    if key == "type".spec_bytes() {
        set_items_of(schema::LAYOUT_TYPES@, CompletionKind::EnumMember, "layout type"@)
    } else if schema::member(catalog::LAYOUT_BOOLEANS@, key) {
        set_items_of(SWITCH_VALUES@, CompletionKind::Value, "value"@)
    } else {
        Seq::empty()
    }
}

/// Whether some item has the given label.
pub open spec fn has_label(items: Seq<CompletionView>, label: Seq<char>) -> bool {
    exists|i: int| 0 <= i < items.len() && (#[trigger] items[i]).label == label
}

/// `items` with those of the first `k` new ones whose label is new.
pub open spec fn merged(items: Seq<CompletionView>, new: Seq<CompletionView>, k: int) -> Seq<
    CompletionView,
>
    decreases k,
{
    if k <= 0 {
        items
    } else {
        let before = merged(items, new, k - 1);
        if has_label(before, new[k - 1].label) {
            before
        } else {
            before.push(new[k - 1])
        }
    }
}

/// `items` with those of the new ones whose label is new.
pub open spec fn with_items(items: Seq<CompletionView>, new: Seq<CompletionView>) -> Seq<
    CompletionView,
> {
    merged(items, new, new.len() as int)
}

/// Whether no two items have the same label.
pub open spec fn labels_differ(items: Seq<CompletionView>) -> bool {
    forall|i: int, j: int|
        #![trigger items[i], items[j]]
        0 <= i < j < items.len() ==> items[i].label != items[j].label
}

/// Adding items whose label is new keeps the labels distinct, and every label is offered.
pub proof fn law_merged(items: Seq<CompletionView>, new: Seq<CompletionView>, k: int)
    requires
        labels_differ(items),
        0 <= k <= new.len(),
    ensures
        labels_differ(merged(items, new, k)),
        forall|i: int| 0 <= i < k ==> has_label(merged(items, new, k), (#[trigger] new[i]).label),
        items.len() <= merged(items, new, k).len(),
        merged(items, new, k).take(items.len() as int) == items,
    decreases k,
{
    if k > 0 {
        law_merged(items, new, k - 1);
        let before = merged(items, new, k - 1);
        let all = merged(items, new, k);
        if has_label(before, new[k - 1].label) {
            assert(all == before);
        } else {
            assert(all == before.push(new[k - 1]));
            assert forall|i: int| 0 <= i < k implies has_label(all, (#[trigger] new[i]).label) by {
                if i < k - 1 {
                    let j = choose|j: int|
                        0 <= j < before.len() && (#[trigger] before[j]).label == new[i].label;
                    assert(all[j].label == new[i].label);
                } else {
                    assert(all[all.len() - 1].label == new[i].label);
                }
            }
            assert forall|i: int, j: int| #![trigger all[i], all[j]] 0 <= i < j
                < all.len() implies all[i].label != all[j].label by {
                if j == all.len() - 1 {
                    assert(before[i].label == all[i].label);
                } else {
                    assert(before[i].label != before[j].label);
                }
            }
            assert(all.take(items.len() as int) =~= before.take(items.len() as int));
        }
    } else {
        assert(items.take(items.len() as int) =~= items);
    }
}

// ---------------------------------------------------------------------------------------------
// The statement slot
// ---------------------------------------------------------------------------------------------

/// An item of the statement slot. The group orders it among the items of the other groups.
pub open spec fn ranked_item(
    label: Seq<char>,
    kind: CompletionKind,
    detail: Seq<char>,
    group: Seq<char>,
    insert: Seq<char>,
    documentation: Option<Seq<char>>,
) -> CompletionView {
    CompletionView {
        sort_text: Some(group + label),
        insert_text: Some(insert),
        insert_format: InsertFormat::Snippet,
        documentation,
        ..plain_item(label, kind, detail)
    }
}

/// The properties that the widget reads in Lua, in order.
pub open spec fn widget_property_items(props: Seq<Seq<u8>>) -> Seq<CompletionView> {
    props.map_values(
        |prop: Seq<u8>|
            ranked_item(
                text::chars_of(prop),
                CompletionKind::Keyword,
                "widget property"@,
                "0_"@,
                key_snippet(text::chars_of(prop)),
                None,
            ),
    )
}

/// The properties that the engine reads.
pub open spec fn catalog_items() -> Seq<CompletionView> {
    catalog::PROPERTIES@.map_values(
        |prop: &'static str|
            ranked_item(
                prop@,
                CompletionKind::Keyword,
                "property"@,
                "1_"@,
                key_snippet(prop@),
                property_hover::documentation(prop.spec_bytes()),
            ),
    )
}

/// The names that a style contributes, each with what it is: its own, and that of the class that it
/// derives from.
pub open spec fn style_names(def: StyleDef) -> Seq<(Seq<char>, Seq<char>)> {
    let own = seq![(def.name@, "style"@)];
    match def.base {
        Some(base) => if style_index::native(base@) {
            own.push((base@, "native widget"@))
        } else {
            own
        },
        None => own,
    }
}

/// The names that a Lua class contributes, each with what it is.
pub open spec fn lua_names(def: LuaWidgetDef) -> Seq<(Seq<char>, Seq<char>)> {
    let own = seq![(def.name@, "lua widget"@)];
    match def.lua_parent {
        Some(parent) => if style_index::native(parent@) {
            own.push((parent@, "native widget"@))
        } else {
            own
        },
        None => own,
    }
}

/// The names that the first `k` styles contribute.
pub open spec fn style_names_upto(defs: Seq<(Seq<char>, StyleDef)>, k: int) -> Seq<
    (Seq<char>, Seq<char>),
>
    decreases k,
{
    if k <= 0 {
        Seq::empty()
    } else {
        style_names_upto(defs, k - 1) + style_names(defs[k - 1].1)
    }
}

/// The names that the first `k` Lua classes contribute.
pub open spec fn lua_names_upto(defs: Seq<LuaWidgetDef>, k: int) -> Seq<(Seq<char>, Seq<char>)>
    decreases k,
{
    if k <= 0 {
        Seq::empty()
    } else {
        lua_names_upto(defs, k - 1) + lua_names(defs[k - 1])
    }
}

/// The names of the workspace, each with what it is, in the order in which they are come upon.
pub open spec fn found_names(ws: Workspace) -> Seq<(Seq<char>, Seq<char>)> {
    let styles = doc_index::pairs(ws.styles);
    let lua = lua_widgets::all_defs(ws.lua);
    style_names_upto(styles, styles.len() as int) + lua_names_upto(lua, lua.len() as int)
}

/// The bytes of the names among the first `k` entries.
pub open spec fn name_bytes(found: Seq<(Seq<char>, Seq<char>)>, k: int) -> Set<Seq<u8>>
    decreases k,
{
    if k <= 0 {
        Set::empty()
    } else {
        name_bytes(found, k - 1).insert(text::bytes_of(found[k - 1].0))
    }
}

/// What the first entry at or after entry `i` says of a name.
pub open spec fn detail_from(found: Seq<(Seq<char>, Seq<char>)>, name: Seq<u8>, i: int) -> Seq<char>
    decreases found.len() - i,
{
    if !(0 <= i < found.len()) {
        Seq::empty()
    } else if text::bytes_of(found[i].0) == name {
        found[i].1
    } else {
        detail_from(found, name, i + 1)
    }
}

/// The names of the workspace in order, each once, with what it was first said to be.
pub open spec fn widget_names_of(ws: Workspace) -> Seq<(Seq<char>, Seq<char>)> {
    let found = found_names(ws);
    names::in_order(name_bytes(found, found.len() as int)).map_values(
        |name: Seq<u8>| (text::chars_of(name), detail_from(found, name, 0)),
    )
}

/// The widgets that can stand below a widget, with the margin of their body.
pub open spec fn child_items(named: Seq<(Seq<char>, Seq<char>)>, margin: Seq<char>) -> Seq<
    CompletionView,
> {
    named.map_values(
        |n: (Seq<char>, Seq<char>)|
            ranked_item(
                n.0,
                CompletionKind::Class,
                n.1,
                "2_"@,
                widget_snippet(n.0, margin),
                None,
            ),
    )
}

/// The styles and classes that a style can derive from.
pub open spec fn base_items(ws: Workspace) -> Seq<CompletionView> {
    widget_names_of(ws).map_values(
        |n: (Seq<char>, Seq<char>)| plain_item(n.0, CompletionKind::Class, n.1),
    )
}

/// The type of the widget that the line of `offset` belongs to. A widget that starts on that line is
/// what is being typed.
pub open spec fn slot_type(s: Seq<u8>, stmts: Seq<Stmt>, offset: int) -> Option<Seq<char>> {
    match nodes::stmt_under(s, stmts, offset, stmts.len() as int) {
        Some(i) => match widget_resolve::widget_at(stmts, i, text::line_start(s, offset)) {
            Some(w) => Some(text::chars_of(widget_resolve::type_of(s, stmts[w]))),
            None => None,
        },
        None => None,
    }
}

/// The properties that the widget reads in Lua to which the line of `offset` belongs, in order.
pub open spec fn slot_properties(
    s: Seq<u8>,
    stmts: Seq<Stmt>,
    ws: Workspace,
    offset: int,
) -> Seq<Seq<u8>> {
    match slot_type(s, stmts, offset) {
        Some(name) => names::in_order(
            widget_resolve::properties_read(
                ws.lua,
                widget_resolve::ancestry(ws.styles, ws.lua, name),
            ),
        ),
        None => Seq::empty(),
    }
}

/// The margin of the body of a widget that starts on the line of `offset`.
pub open spec fn child_margin(s: Seq<u8>, offset: int) -> Seq<char> {
    wording::blanks(indent::spaces_from(s, text::line_start(s, offset))) + "  "@
}

/// What can be inserted where a property or a child widget can stand.
pub open spec fn slot_items(s: Seq<u8>, ws: Workspace, offset: int) -> Seq<CompletionView> {
    let props = widget_property_items(slot_properties(s, syntax::stmts(s), ws, offset));
    let children = child_items(widget_names_of(ws), child_margin(s, offset));
    with_items(with_items(with_items(Seq::empty(), props), catalog_items()), children)
}

// ---------------------------------------------------------------------------------------------
// Anchor targets
// ---------------------------------------------------------------------------------------------

/// The ids of the first `k` of the given widgets, each once.
pub open spec fn ids_of(s: Seq<u8>, stmts: Seq<Stmt>, widgets: Seq<int>, k: int) -> Seq<
    CompletionView,
>
    decreases k,
{
    if k <= 0 {
        Seq::empty()
    } else {
        match anchors::id_of(stmts, widgets[k - 1]) {
            Some(v) => ids_of(s, stmts, widgets, k - 1).push(
                plain_item(
                    text::chars_of(syntax::cut(s, v)),
                    CompletionKind::Value,
                    "widget id"@,
                ),
            ),
            None => ids_of(s, stmts, widgets, k - 1),
        }
    }
}

/// The targets that an anchor on the line of `offset` can have.
pub open spec fn target_items(s: Seq<u8>, offset: int) -> Seq<CompletionView> {
    let stmts = syntax::stmts(s);
    let magic = set_items_of(
        schema::MAGIC_ANCHOR_TARGETS@,
        CompletionKind::Value,
        "anchor target"@,
    );
    match anchors::owner_at(s, stmts, offset) {
        Some(w) => {
            let widgets = anchors::siblings(stmts, w);
            with_items(magic, ids_of(s, stmts, widgets, widgets.len() as int))
        },
        None => magic,
    }
}

// ---------------------------------------------------------------------------------------------
// The cursor
// ---------------------------------------------------------------------------------------------

/// Whether `offset` lies in a comment or in the body of a block scalar.
pub open spec fn suppressed(stmts: Seq<Stmt>, offset: int) -> bool {
    exists|k: int| 0 <= k < stmts.len() && #[trigger] raw_at(stmts[k], offset)
}

/// Whether `offset` lies in a statement that is a comment, or in the body of a block scalar.
pub open spec fn raw_at(st: Stmt, offset: int) -> bool {
    ||| st.kind == StmtKind::Comment && st.span.start <= (if offset > 0 {
        offset - 1
    } else {
        0
    }) && offset <= st.span.end
    ||| (st.body matches Some(b) && b.start <= offset <= b.end)
}

/// Whether what follows `offset` on its line is no property and no widget.
pub open spec fn special_form_behind(s: Seq<u8>, offset: int) -> bool {
    let rest = text::trim_start(s.subrange(offset, text::line_end(s, offset)));
    text::has(rest, 0, ascii::DOLLAR) || text::has(rest, 0, ascii::AT_SIGN) || text::has(rest, 0, ascii::AMPERSAND)
        || text::has(rest, 0, ascii::BANG) || text::has(rest, 0, ascii::DASH) || text::occurs(
        rest,
        0,
        "anchors.".spec_bytes(),
    )
}

/// The first line at or after line `k` that holds `offset` or ends right before it.
pub open spec fn line_holding(s: Seq<u8>, offset: int, k: int) -> Option<int>
    decreases indent::lines(s).len() - k,
{
    if !(0 <= k < indent::lines(s).len()) {
        None
    } else if diagnostics::on_line(s, k, offset) {
        Some(k)
    } else {
        line_holding(s, offset, k + 1)
    }
}

/// The key of a line that reads `t`: what stands in front of the first `:`, or all of it.
pub open spec fn line_key(t: Seq<u8>) -> Seq<u8> {
    match text::find_byte(t, ascii::COLON, 0) {
        Some(c) => text::trim(text::upto(t, c)),
        None => text::trim(t),
    }
}

/// Whether the nearest of the first `k` lines with fewer than `sp` spaces in front has the key
/// `layout`. Blank lines and comments do not count.
pub open spec fn layout_above(texts: Seq<Seq<u8>>, sp: int, k: int) -> bool
    decreases k,
{
    if k <= 0 {
        false
    } else {
        let t = text::trim(texts[k - 1]);
        if t.len() > 0 && !indent::comment(t) && indent::spaces(texts[k - 1]) < sp {
            line_key(t) == "layout".spec_bytes()
        } else {
            layout_above(texts, sp, k - 1)
        }
    }
}

/// Whether `offset` lies in a `layout:` block.
pub open spec fn in_layout_block(s: Seq<u8>, offset: int) -> bool {
    match line_holding(s, offset, 0) {
        Some(k) => {
            let sp = indent::spaces(indent::texts(s)[k]);
            sp > 0 && layout_above(indent::texts(s), sp, k)
        },
        None => false,
    }
}

/// What can be inserted in a slot at `offset`, behind `prefix`.
pub open spec fn items_in(
    s: Seq<u8>,
    ws: Workspace,
    offset: int,
    prefix: Seq<u8>,
    slot: Slot,
) -> Seq<CompletionView> {
    match slot {
        Slot::States => set_items_of(schema::STATES@, CompletionKind::EnumMember, "state"@),
        Slot::AnchorEdgeKey => key_items_of(
            schema::ANCHOR_EDGES@,
            CompletionKind::EnumMember,
            "anchor edge"@,
        ) + key_items_of(
            schema::SHORTHAND_ANCHORS@,
            CompletionKind::EnumMember,
            "anchor shorthand"@,
        ),
        Slot::AnchorTargetEdge => set_items_of(
            schema::ANCHOR_EDGES@,
            CompletionKind::EnumMember,
            "anchor edge"@,
        ),
        Slot::AnchorTarget => target_items(s, offset),
        Slot::Events => key_items_of(schema::EVENTS@, CompletionKind::Event, "event handler"@),
        Slot::IndentedSlot => if !diagnostics::well_indented_at(s, offset) || (text::trim(
            prefix,
        ).len() == 0 && special_form_behind(s, offset)) {
            Seq::empty()
        } else if in_layout_block(s, offset) {
            layout_key_items()
        } else {
            slot_items(s, ws, offset)
        },
        Slot::PropertyValue(key) => if !diagnostics::well_indented_at(s, offset) {
            Seq::empty()
        } else if schema::member(catalog::LAYOUT_PROPERTIES@, key) && in_layout_block(s, offset) {
            layout_items(key)
        } else {
            value_items(key)
        },
        Slot::BaseSlot => base_items(ws),
    }
}

/// What can be inserted at `offset`.
pub open spec fn completions(s: Seq<u8>, offset: int, ws: Workspace) -> Seq<CompletionView> {
    if !text::boundary(s, offset) || suppressed(syntax::stmts(s), offset) {
        Seq::empty()
    } else {
        let prefix = s.subrange(text::line_start(s, offset), offset);
        match slots::slot_at(prefix) {
            Some(slot) => items_in(s, ws, offset, prefix, slot),
            None => Seq::empty(),
        }
    }
}

/// Whether a state can be inserted at `offset`.
pub open spec fn takes_state(s: Seq<u8>, offset: int) -> bool {
    &&& text::boundary(s, offset)
    &&& !suppressed(syntax::stmts(s), offset)
    &&& slots::slot_at(s.subrange(text::line_start(s, offset), offset)) == Some(Slot::States)
}

/// Wherever a state can be inserted, all states are offered, in the order of their list, whatever
/// part of a word is there already and whatever the workspace holds.
pub proof fn law_states_are_offered_whole(
    s: Seq<u8>,
    offset: int,
    ws: Workspace,
    other: Seq<u8>,
    other_offset: int,
    other_ws: Workspace,
)
    requires
        takes_state(s, offset),
        takes_state(other, other_offset),
    ensures
        completions(s, offset, ws) == completions(other, other_offset, other_ws),
        completions(s, offset, ws).len() == schema::STATES@.len(),
        forall|i: int|
            0 <= i < schema::STATES@.len() ==> {
                let item = #[trigger] completions(s, offset, ws)[i];
                &&& item.label == schema::STATES@[i]@
                &&& item.kind == CompletionKind::EnumMember
                &&& item.insert_text is None
                &&& item.insert_format == InsertFormat::Plain
            },
{
}

// ---------------------------------------------------------------------------------------------
// Building items
// ---------------------------------------------------------------------------------------------

/// `text` as it is written in a snippet.
pub fn snippet_escape(text: &str) -> (r: String)
    ensures
        r@ == escaped(text@, text@.len() as int),
{
    let n: usize = text.unicode_len();
    let mut r = String::new();
    let mut i: usize = 0;
    while i < n
        invariant
            n == text@.len(),
            i <= n,
            r@ == escaped(text@, i as int),
        decreases n - i,
    {
        let c = text.get_char(i);
        if c == '\\' || c == '$' || c == '}' {
            r.append("\\");
        }
        r.append(text.substring_char(i, i + 1));
        i += 1;
    }
    r
}

/// The snippet for a key.
pub fn property_key_snippet(key: &str) -> (r: String)
    ensures
        r@ == key_snippet(key@),
{
    let mut r = snippet_escape(key);
    r.append(": $0");
    r
}

/// The snippet for a child widget.
pub fn child_widget_snippet(label: &str, child_indent: &str) -> (r: String)
    ensures
        r@ == widget_snippet(label@, child_indent@),
{
    let mut r = snippet_escape(label);
    r.append("\n");
    r.append(child_indent);
    r.append("id: $1\n");
    r.append(child_indent);
    r.append("$0");
    r
}

/// An item whose label is what is inserted.
fn make_item(label: &str, kind: CompletionKind, detail: &str) -> (r: CompletionItem)
    ensures
        r@ == plain_item(label@, kind, detail@),
{
    CompletionItem {
        label: label.to_owned(),
        kind,
        detail: Some(detail.to_owned()),
        sort_text: None,
        insert_text: None,
        insert_format: InsertFormat::Plain,
        documentation: None,
    }
}

/// The words of a set.
fn set_items(set: &[&'static str], kind: CompletionKind, detail: &str) -> (items: Vec<
    CompletionItem,
>)
    ensures
        lang_api::views(items@) == set_items_of(set@, kind, detail@),
{
    let ghost model = set_items_of(set@, kind, detail@);
    let mut items: Vec<CompletionItem> = Vec::new();
    let mut i: usize = 0;
    assert(lang_api::views(items@) =~= model.take(0));
    while i < set.len()
        invariant
            i <= set@.len(),
            model == set_items_of(set@, kind, detail@),
            lang_api::views(items@) == model.take(i as int),
        decreases set@.len() - i,
    {
        let item = make_item(set[i], kind, detail);
        proof {
            lang_api::lemma_views_push(items@, item);
            assert(model.take(i + 1) =~= model.take(i as int).push(model[i as int]));
        }
        items.push(item);
        i += 1;
    }
    assert(model.take(set@.len() as int) =~= model);
    items
}

/// The keys of a set, each of which goes on to its value.
fn key_snippet_items(set: &[&'static str], kind: CompletionKind, detail: &str) -> (items: Vec<
    CompletionItem,
>)
    ensures
        lang_api::views(items@) == key_items_of(set@, kind, detail@),
{
    let ghost model = key_items_of(set@, kind, detail@);
    let mut items: Vec<CompletionItem> = Vec::new();
    let mut i: usize = 0;
    assert(lang_api::views(items@) =~= model.take(0));
    while i < set.len()
        invariant
            i <= set@.len(),
            model == key_items_of(set@, kind, detail@),
            lang_api::views(items@) == model.take(i as int),
        decreases set@.len() - i,
    {
        let mut item = make_item(set[i], kind, detail);
        item.insert_text = Some(property_key_snippet(set[i]));
        item.insert_format = InsertFormat::Snippet;
        item.documentation = documentation_body(set[i]);
        proof {
            lang_api::lemma_views_push(items@, item);
            assert(item@ == key_item(set@[i as int], kind, detail@));
            assert(model.take(i + 1) =~= model.take(i as int).push(model[i as int]));
        }
        items.push(item);
        i += 1;
    }
    assert(model.take(set@.len() as int) =~= model);
    items
}

/// The keys of a `layout:` block.
fn layout_block_key_items() -> (items: Vec<CompletionItem>)
    ensures
        lang_api::views(items@) == layout_key_items(),
{
    let set: &[&'static str] = &catalog::LAYOUT_PROPERTIES;
    let ghost model = layout_key_items();
    let mut items: Vec<CompletionItem> = Vec::new();
    let mut i: usize = 0;
    assert(lang_api::views(items@) =~= model.take(0));
    while i < set.len()
        invariant
            i <= set@.len(),
            set@ == catalog::LAYOUT_PROPERTIES@,
            model == layout_key_items(),
            model.len() == set@.len(),
            lang_api::views(items@) == model.take(i as int),
        decreases set@.len() - i,
    {
        let mut item = make_item(set[i], CompletionKind::Keyword, "layout property");
        item.insert_text = Some(property_key_snippet(set[i]));
        item.insert_format = InsertFormat::Snippet;
        proof {
            lang_api::lemma_views_push(items@, item);
            assert(item@ == model[i as int]);
            assert(model.take(i + 1) =~= model.take(i as int).push(model[i as int]));
        }
        items.push(item);
        i += 1;
    }
    assert(model.take(set@.len() as int) =~= model);
    items
}

/// The last `k` hexadecimal digits of `n`.
fn hex_text(n: u32, k: usize) -> (r: String)
    ensures
        r@ == hex(n as int, k as int),
    decreases k,
{
    if k == 0 {
        String::new()
    } else {
        let mut r = hex_text(n / 16, k - 1);
        let d: usize = (n % 16) as usize;
        r.append(HEX_DIGITS[d]);
        r
    }
}

/// A color as it is written.
fn packed_rgb_to_hex(rgb: u32) -> (r: String)
    ensures
        r@ == hex_color(rgb),
{
    let k: usize = if rgb < 0x1000000 {
        6
    } else if rgb < 0x10000000 {
        7
    } else {
        8
    };
    let mut r = "#".to_owned();
    r.append(hex_text(rgb, k).as_str());
    r
}

/// The named colors.
fn named_color_items() -> (items: Vec<CompletionItem>)
    ensures
        lang_api::views(items@) == color_items(),
{
    let set: &[(&'static str, u32)] = &catalog::NAMED_COLORS;
    let ghost model = color_items();
    let mut items: Vec<CompletionItem> = Vec::new();
    let mut i: usize = 0;
    assert(lang_api::views(items@) =~= model.take(0));
    while i < set.len()
        invariant
            i <= set@.len(),
            set@ == catalog::NAMED_COLORS@,
            model == color_items(),
            model.len() == set@.len(),
            lang_api::views(items@) == model.take(i as int),
        decreases set@.len() - i,
    {
        let mut item = make_item(set[i].0, CompletionKind::Value, "named color");
        let mut note = "`".to_owned();
        note.append(packed_rgb_to_hex(set[i].1).as_str());
        note.append("`");
        item.documentation = Some(note);
        proof {
            lang_api::lemma_views_push(items@, item);
            assert(item@ == model[i as int]);
            assert(model.take(i + 1) =~= model.take(i as int).push(model[i as int]));
        }
        items.push(item);
        i += 1;
    }
    assert(model.take(set@.len() as int) =~= model);
    items
}

/// The values of the property `key`, where they form a closed set.
fn property_value_items(key: &str) -> (items: Vec<CompletionItem>)
    ensures
        lang_api::views(items@) == value_items(key.spec_bytes()),
{
    match classify_value(key) {
        PropertyValueKind::Enum { values } => set_items(
            values,
            CompletionKind::EnumMember,
            "value",
        ),
        PropertyValueKind::Boolean => set_items(&SWITCH_VALUES, CompletionKind::Value, "value"),
        PropertyValueKind::Color => named_color_items(),
        _ => {
            let items: Vec<CompletionItem> = Vec::new();
            assert(lang_api::views(items@) =~= Seq::empty());
            items
        },
    }
}

/// The values of the key `key` of a `layout:` block, where they form a closed set.
fn layout_value_items(key: &str) -> (items: Vec<CompletionItem>)
    ensures
        lang_api::views(items@) == layout_items(key.spec_bytes()),
{
    match classify_layout_value(key) {
        PropertyValueKind::Enum { values } => set_items(
            values,
            CompletionKind::EnumMember,
            "layout type",
        ),
        PropertyValueKind::Boolean => set_items(&SWITCH_VALUES, CompletionKind::Value, "value"),
        _ => {
            let items: Vec<CompletionItem> = Vec::new();
            assert(lang_api::views(items@) =~= Seq::empty());
            items
        },
    }
}

/// Adds an item, unless its label is there already.
fn add_item(items: &mut Vec<CompletionItem>, item: CompletionItem)
    ensures
        lang_api::views(final(items)@) == if has_label(lang_api::views(old(items)@), item@.label) {
            lang_api::views(old(items)@)
        } else {
            lang_api::views(old(items)@).push(item@)
        },
{
    let ghost model = lang_api::views(items@);
    let mut i: usize = 0;
    while i < items.len()
        invariant
            i <= items@.len(),
            model == lang_api::views(items@),
            *items == *old(items),
            forall|k: int| 0 <= k < i ==> (#[trigger] model[k]).label != item@.label,
        decreases items@.len() - i,
    {
        if same_str(items[i].label.as_str(), item.label.as_str()) {
            assert(model[i as int].label == item@.label);
            return;
        }
        i += 1;
    }
    proof {
        lang_api::lemma_views_push(items@, item);
    }
    items.push(item);
}

/// An item of the statement slot.
fn ranked(
    label: &str,
    kind: CompletionKind,
    detail: &str,
    group: &str,
    insert: String,
    documentation: Option<String>,
) -> (r: CompletionItem)
    ensures
        r@ == ranked_item(
            label@,
            kind,
            detail@,
            group@,
            insert@,
            lang_api::opt_text(documentation),
        ),
{
    let mut item = make_item(label, kind, detail);
    let mut order = group.to_owned();
    order.append(label);
    item.sort_text = Some(order);
    item.insert_text = Some(insert);
    item.insert_format = InsertFormat::Snippet;
    item.documentation = documentation;
    item
}

/// The model of names with what they are.
spec fn entries(found: Seq<(String, &'static str)>) -> Seq<(Seq<char>, Seq<char>)> {
    found.map_values(|e: (String, &'static str)| (e.0@, e.1@))
}

/// Adds a name with what it is, and the class that goes with it.
fn add_names(
    found: &mut Vec<(String, &'static str)>,
    name: &String,
    detail: &'static str,
    class: &Option<String>,
)
    ensures
        entries(final(found)@) == entries(old(found)@) + match *class {
            Some(base) => if style_index::native(base@) {
                seq![(name@, detail@), (base@, "native widget"@)]
            } else {
                seq![(name@, detail@)]
            },
            None => seq![(name@, detail@)],
        },
{
    let ghost before = entries(found@);
    found.push((name.clone(), detail));
    assert(entries(found@) =~= before + seq![(name@, detail@)]);
    if let Some(base) = class {
        if is_native_base(base.as_str()) {
            found.push((base.clone(), "native widget"));
            assert(entries(found@) =~= before + seq![
                (name@, detail@),
                (base@, "native widget"@),
            ]);
        }
    }
}

/// The names of the workspace, each with what it is, in the order in which they are come upon.
fn find_names(styles: &StyleIndex, lua: &LuaWidgetIndex) -> (found: Vec<(String, &'static str)>)
    ensures
        entries(found@) == found_names((Workspace { styles: styles@, lua: lua@ })),
{
    let mut found: Vec<(String, &'static str)> = Vec::new();
    let defs = styles.iter();
    let ghost model = doc_index::pairs(styles@);
    let mut i: usize = 0;
    assert(entries(found@) =~= style_names_upto(model, 0));
    while i < defs.len()
        invariant
            i <= defs@.len(),
            style_index::lists(defs@, model),
            entries(found@) == style_names_upto(model, i as int),
        decreases defs@.len() - i,
    {
        let def = defs[i].1;
        assert(*defs@[i as int].1 == model[i as int].1);
        let ghost before = entries(found@);
        add_names(&mut found, &def.name, "style", &def.base);
        assert(entries(found@) =~= before + style_names(model[i as int].1));
        i += 1;
    }
    let classes = lua.iter();
    let ghost front = entries(found@);
    let ghost all = lua_widgets::all_defs(lua@);
    let mut k: usize = 0;
    assert(front + lua_names_upto(all, 0) =~= front);
    while k < classes.len()
        invariant
            k <= classes@.len(),
            classes@.len() == all.len(),
            forall|j: int| 0 <= j < classes@.len() ==> *(#[trigger] classes@[j]) == all[j],
            entries(found@) == front + lua_names_upto(all, k as int),
        decreases classes@.len() - k,
    {
        let def = classes[k];
        assert(*classes@[k as int] == all[k as int]);
        let ghost before = entries(found@);
        add_names(&mut found, &def.name, "lua widget", &def.lua_parent);
        assert(entries(found@) =~= before + lua_names(all[k as int]));
        assert(front + lua_names_upto(all, k as int) + lua_names(all[k as int]) =~= front
            + lua_names_upto(all, k + 1));
        k += 1;
    }
    found
}

/// What the first entry says of a name.
fn detail_of(found: &[(String, &'static str)], name: &str) -> (r: &'static str)
    requires
        name_bytes(entries(found@), found@.len() as int).contains(name.spec_bytes()),
    ensures
        r@ == detail_from(entries(found@), name.spec_bytes(), 0),
{
    let ghost model = entries(found@);
    let mut i: usize = 0;
    while i < found.len()
        invariant
            i <= found@.len(),
            model == entries(found@),
            detail_from(model, name.spec_bytes(), i as int) == detail_from(
                model,
                name.spec_bytes(),
                0,
            ),
            name_bytes(model, found@.len() as int).contains(name.spec_bytes()),
            forall|k: int| 0 <= k < i ==> text::bytes_of((#[trigger] model[k]).0)
                != name.spec_bytes(),
        decreases found@.len() - i,
    {
        assert(model[i as int] == (found@[i as int].0@, found@[i as int].1@));
        if same_str(found[i].0.as_str(), name) {
            return found[i].1;
        }
        i += 1;
    }
    proof {
        lemma_name_found(model, name.spec_bytes(), model.len() as int);
    }
    ""
}

proof fn lemma_name_found(found: Seq<(Seq<char>, Seq<char>)>, name: Seq<u8>, k: int)
    requires
        k <= found.len(),
        name_bytes(found, k).contains(name),
    ensures
        exists|i: int| 0 <= i < k && text::bytes_of((#[trigger] found[i]).0) == name,
    decreases k,
{
    if k > 0 {
        if text::bytes_of(found[k - 1].0) != name {
            lemma_name_found(found, name, k - 1);
        }
    }
}

/// The names of the workspace in order, each once, with what it was first said to be.
fn widget_names(styles: &StyleIndex, lua: &LuaWidgetIndex) -> (r: Vec<(String, &'static str)>)
    ensures
        entries(r@) == widget_names_of((Workspace { styles: styles@, lua: lua@ })),
{
    let found = find_names(styles, lua);
    let ghost model = entries(found@);
    let mut ordered: Vec<String> = Vec::new();
    let mut i: usize = 0;
    assert(names::spelled(ordered@) =~= Seq::empty());
    assert(names::name_set(ordered@) =~= name_bytes(model, 0));
    while i < found.len()
        invariant
            i <= found@.len(),
            model == entries(found@),
            names::ascending(names::spelled(ordered@)),
            names::name_set(ordered@) == name_bytes(model, i as int),
        decreases found@.len() - i,
    {
        assert(model[i as int].0 == found@[i as int].0@);
        insert_name(&mut ordered, found[i].0.clone());
        i += 1;
    }
    let ghost set = name_bytes(model, model.len() as int);
    let ghost list = names::spelled(ordered@);
    proof {
        names::law_in_order(list);
        assert(names::in_order(set) == list);
    }
    let mut r: Vec<(String, &'static str)> = Vec::new();
    let mut k: usize = 0;
    while k < ordered.len()
        invariant
            k <= ordered@.len(),
            list == names::spelled(ordered@),
            list.to_set() == set,
            model == entries(found@),
            set == name_bytes(model, model.len() as int),
            r@.len() == k,
            forall|j: int|
                0 <= j < k ==> (#[trigger] r@[j]).0@ == text::chars_of(list[j]) && r@[j].1@
                    == detail_from(model, list[j], 0),
        decreases ordered@.len() - k,
    {
        assert(list[k as int] == text::bytes_of(ordered@[k as int]@));
        assert(list.contains(list[k as int]));
        assert(set.contains(list[k as int]));
        let detail = detail_of(found.as_slice(), ordered[k].as_str());
        proof {
            encode_utf8_decode_utf8(ordered@[k as int]@);
        }
        r.push((ordered[k].clone(), detail));
        k += 1;
    }
    assert(entries(r@) =~= widget_names_of((Workspace { styles: styles@, lua: lua@ })));
    r
}

/// The styles and classes that a style can derive from.
fn base_slot_items(styles: &StyleIndex, lua: &LuaWidgetIndex) -> (items: Vec<CompletionItem>)
    ensures
        lang_api::views(items@) == base_items((Workspace { styles: styles@, lua: lua@ })),
{
    let named = widget_names(styles, lua);
    let ghost all = entries(named@);
    let ghost model = base_items((Workspace { styles: styles@, lua: lua@ }));
    let mut items: Vec<CompletionItem> = Vec::new();
    let mut i: usize = 0;
    assert(lang_api::views(items@) =~= model.take(0));
    while i < named.len()
        invariant
            i <= named@.len(),
            all == entries(named@),
            model == all.map_values(
                |n: (Seq<char>, Seq<char>)| plain_item(n.0, CompletionKind::Class, n.1),
            ),
            lang_api::views(items@) == model.take(i as int),
        decreases named@.len() - i,
    {
        let item = make_item(named[i].0.as_str(), CompletionKind::Class, named[i].1);
        proof {
            assert(all[i as int] == (named@[i as int].0@, named@[i as int].1@));
            lang_api::lemma_views_push(items@, item);
            assert(item@ == model[i as int]);
            assert(model.take(i + 1) =~= model.take(i as int).push(model[i as int]));
        }
        items.push(item);
        i += 1;
    }
    assert(model.take(named@.len() as int) =~= model);
    items
}

/// The type of the widget that the line of `offset` belongs to.
fn enclosing_widget_type_at(source: &str, lines: &[Line], stmts: &[Stmt], offset: usize) -> (r: Option<
    String,
>)
    requires
        indent::are_lines(lines@, source.spec_bytes()),
        stmts@ == syntax::stmts(source.spec_bytes()),
        offset <= source.spec_bytes().len(),
    ensures
        style_index::opt_chars(r) == slot_type(source.spec_bytes(), stmts@, offset as int),
{
    match find_stmt_under(source, lines, stmts, offset) {
        Some(i) => match find_widget_at(stmts, i, line_start_of(source, offset)) {
            Some(w) => Some(widget_type(source, stmts, w)),
            None => None,
        },
        None => None,
    }
}

/// Adds the properties that the widget reads in Lua to which the line of `offset` belongs.
fn add_widget_properties(
    source: &str,
    stmts: &[Stmt],
    offset: usize,
    styles: &StyleIndex,
    lua: &LuaWidgetIndex,
    items: &mut Vec<CompletionItem>,
)
    requires
        stmts@ == syntax::stmts(source.spec_bytes()),
        offset <= source.spec_bytes().len(),
    ensures
        lang_api::views(final(items)@) == with_items(
            lang_api::views(old(items)@),
            widget_property_items(
                slot_properties(
                    source.spec_bytes(),
                    stmts@,
                    (Workspace { styles: styles@, lua: lua@ }),
                    offset as int,
                ),
            ),
        ),
{
    let ghost start = lang_api::views(items@);
    let lines = split_lines(source);
    if let Some(name) = enclosing_widget_type_at(source, lines.as_slice(), stmts, offset) {
        let props = resolve_ancestry(name.as_str(), styles, lua).custom_properties(lua);
        let ghost list = names::spelled(props@);
        proof {
            names::law_in_order(list);
        }
        let ghost new = widget_property_items(list);
        let mut i: usize = 0;
        while i < props.len()
            invariant
                i <= props@.len(),
                list == names::spelled(props@),
                new == widget_property_items(list),
                lang_api::views(items@) == merged(start, new, i as int),
            decreases props@.len() - i,
        {
            proof {
                assert(list[i as int] == text::bytes_of(props@[i as int]@));
                encode_utf8_decode_utf8(props@[i as int]@);
            }
            let prop = props[i].as_str();
            let item = ranked(
                prop,
                CompletionKind::Keyword,
                "widget property",
                "0_",
                property_key_snippet(prop),
                None,
            );
            assert(item@ == new[i as int]);
            add_item(items, item);
            i += 1;
        }
    }
}

/// Adds the properties that the engine reads.
fn add_catalog(items: &mut Vec<CompletionItem>)
    ensures
        lang_api::views(final(items)@) == with_items(lang_api::views(old(items)@), catalog_items()),
{
    let ghost start = lang_api::views(items@);
    let ghost new = catalog_items();
    let set: &[&'static str] = &catalog::PROPERTIES;
    let mut i: usize = 0;
    while i < set.len()
        invariant
            i <= set@.len(),
            set@ == catalog::PROPERTIES@,
            new == catalog_items(),
            new.len() == set@.len(),
            lang_api::views(items@) == merged(start, new, i as int),
        decreases set@.len() - i,
    {
        let prop = set[i];
        let item = ranked(
            prop,
            CompletionKind::Keyword,
            "property",
            "1_",
            property_key_snippet(prop),
            documentation_body(prop),
        );
        assert(item@ == new[i as int]);
        add_item(items, item);
        i += 1;
    }
}

/// Adds the widgets that can stand below a widget.
fn add_children(
    styles: &StyleIndex,
    lua: &LuaWidgetIndex,
    margin: &str,
    items: &mut Vec<CompletionItem>,
)
    ensures
        lang_api::views(final(items)@) == with_items(
            lang_api::views(old(items)@),
            child_items(
                widget_names_of((Workspace { styles: styles@, lua: lua@ })),
                margin@,
            ),
        ),
{
    let ghost start = lang_api::views(items@);
    let named = widget_names(styles, lua);
    let ghost all = entries(named@);
    let ghost new = child_items(all, margin@);
    let mut i: usize = 0;
    while i < named.len()
        invariant
            i <= named@.len(),
            all == entries(named@),
            new == child_items(all, margin@),
            lang_api::views(items@) == merged(start, new, i as int),
        decreases named@.len() - i,
    {
        assert(all[i as int] == (named@[i as int].0@, named@[i as int].1@));
        let name = named[i].0.as_str();
        let item = ranked(
            name,
            CompletionKind::Class,
            named[i].1,
            "2_",
            child_widget_snippet(name, margin),
            None,
        );
        assert(item@ == new[i as int]);
        add_item(items, item);
        i += 1;
    }
}

/// The number of spaces at the start of the line of `offset`.
fn line_indent(source: &str, offset: usize) -> (r: usize)
    requires
        offset <= source.spec_bytes().len(),
    ensures
        r == indent::spaces_from(
            source.spec_bytes(),
            text::line_start(source.spec_bytes(), offset as int),
        ),
{
    let b = source.as_bytes();
    let n: usize = b.len();
    let start: usize = line_start_of(source, offset);
    let mut i: usize = start;
    while i < n && b[i] == ascii::SPACE
        invariant
            b@ == source.spec_bytes(),
            n == b@.len(),
            start <= i <= b@.len(),
            (i - start) + indent::spaces_from(b@, i as int) == indent::spaces_from(
                b@,
                start as int,
            ),
        decreases b@.len() - i,
    {
        i += 1;
    }
    i - start
}

/// What can be inserted where a property or a child widget can stand.
fn indented_slot_items(
    source: &str,
    stmts: &[Stmt],
    offset: usize,
    styles: &StyleIndex,
    lua: &LuaWidgetIndex,
) -> (items: Vec<CompletionItem>)
    requires
        stmts@ == syntax::stmts(source.spec_bytes()),
        offset <= source.spec_bytes().len(),
    ensures
        lang_api::views(items@) == slot_items(
            source.spec_bytes(),
            (Workspace { styles: styles@, lua: lua@ }),
            offset as int,
        ),
{
    let mut items: Vec<CompletionItem> = Vec::new();
    assert(lang_api::views(items@) =~= Seq::empty());
    add_widget_properties(source, stmts, offset, styles, lua, &mut items);
    add_catalog(&mut items);
    let mut margin = blank_text(line_indent(source, offset));
    margin.append("  ");
    add_children(styles, lua, margin.as_str(), &mut items);
    items
}

/// Adds the ids of the given widgets.
fn add_ids(source: &str, stmts: &[Stmt], widgets: &[usize], items: &mut Vec<CompletionItem>)
    requires
        stmts@ == syntax::stmts(source.spec_bytes()),
    ensures
        lang_api::views(final(items)@) == with_items(
            lang_api::views(old(items)@),
            ids_of(
                source.spec_bytes(),
                stmts@,
                widgets@.map_values(|j: usize| j as int),
                widgets@.len() as int,
            ),
        ),
{
    let ghost s = source.spec_bytes();
    let ghost all = widgets@.map_values(|j: usize| j as int);
    let ghost start = lang_api::views(items@);
    let n: usize = source.as_bytes().len();
    proof {
        text::lemma_valid(source);
    }
    let mut i: usize = 0;
    while i < widgets.len()
        invariant
            s == source.spec_bytes(),
            valid_utf8(s),
            s.len() <= usize::MAX,
            stmts@ == syntax::stmts(s),
            all == widgets@.map_values(|j: usize| j as int),
            i <= widgets@.len(),
            lang_api::views(items@) == with_items(start, ids_of(s, stmts@, all, i as int)),
        decreases widgets@.len() - i,
    {
        let ghost before = ids_of(s, stmts@, all, i as int);
        assert(all[i as int] == widgets@[i as int]);
        if let Some(v) = widget_id_span(stmts, widgets[i]) {
            proof {
                anchors::lemma_id_in_text(s, widgets@[i as int] as int, 0);
            }
            let item = make_item(span_text(source, v), CompletionKind::Value, "widget id");
            proof {
                let new = ids_of(s, stmts@, all, i + 1);
                assert(new == before.push(item@));
                lemma_merged_prefix(start, new, before, before.len() as int);
            }
            add_item(items, item);
        }
        i += 1;
    }
}

proof fn lemma_merged_prefix(
    items: Seq<CompletionView>,
    a: Seq<CompletionView>,
    b: Seq<CompletionView>,
    k: int,
)
    requires
        k <= a.len(),
        k <= b.len(),
        forall|i: int| 0 <= i < k ==> #[trigger] a[i] == b[i],
    ensures
        merged(items, a, k) == merged(items, b, k),
    decreases k,
{
    if k > 0 {
        lemma_merged_prefix(items, a, b, k - 1);
        assert(a[k - 1] == b[k - 1]);
    }
}

/// The targets that an anchor on the line of `offset` can have.
fn anchor_target_items(source: &str, stmts: &[Stmt], offset: usize) -> (items: Vec<CompletionItem>)
    requires
        stmts@ == syntax::stmts(source.spec_bytes()),
    ensures
        lang_api::views(items@) == target_items(source.spec_bytes(), offset as int),
{
    let mut items = set_items(
        &schema::MAGIC_ANCHOR_TARGETS,
        CompletionKind::Value,
        "anchor target",
    );
    let lines = split_lines(source);
    if let Some(owner) = anchor_owner_widget(source, lines.as_slice(), stmts, offset) {
        let widgets = direct_sibling_widgets(stmts, owner);
        add_ids(source, stmts, widgets.as_slice(), &mut items);
    }
    items
}

/// Whether `offset` lies in a comment or in the body of a block scalar.
fn in_suppressed_context(stmts: &[Stmt], offset: usize) -> (r: bool)
    ensures
        r == suppressed(stmts@, offset as int),
{
    let probe: usize = if offset > 0 {
        offset - 1
    } else {
        0
    };
    let mut k: usize = 0;
    while k < stmts.len()
        invariant
            k <= stmts@.len(),
            probe == (if offset > 0 {
                offset - 1
            } else {
                0
            }),
            forall|j: int| 0 <= j < k ==> !#[trigger] raw_at(stmts@[j], offset as int),
        decreases stmts@.len() - k,
    {
        let st = &stmts[k];
        let in_comment: bool = st.kind == StmtKind::Comment && st.span.start <= probe && offset
            <= st.span.end;
        let in_body: bool = match st.body {
            Some(b) => b.start <= offset && offset <= b.end,
            None => false,
        };
        if in_comment || in_body {
            assert(raw_at(stmts@[k as int], offset as int));
            return true;
        }
        k += 1;
    }
    false
}

/// Whether what follows `offset` on its line is no property and no widget.
fn rest_of_line_is_special_form(source: &str, offset: usize) -> (r: bool)
    requires
        text::boundary(source.spec_bytes(), offset as int),
    ensures
        r == special_form_behind(source.spec_bytes(), offset as int),
{
    let b = source.as_bytes();
    proof {
        text::lemma_valid(source);
        text::lemma_ends_boundary(b@);
        text::lemma_find_byte(b@, ascii::NEWLINE, offset as int);
    }
    let end: usize = match find_byte_at(b, ascii::NEWLINE, offset) {
        Some(k) => {
            proof {
                text::lemma_ascii_boundary(b@, k as int);
            }
            k
        },
        None => b.len(),
    };
    let rest = trimmed_start(substr(source, offset, end));
    let t = rest.as_bytes();
    has_at(t, 0, ascii::DOLLAR) || has_at(t, 0, ascii::AT_SIGN) || has_at(t, 0, ascii::AMPERSAND) || has_at(t, 0, ascii::BANG) || has_at(
        t,
        0,
        ascii::DASH,
    ) || occurs_at(t, 0, "anchors.".as_bytes())
}

/// Whether the key of a line is `layout`.
fn has_layout_key(t: &str) -> (r: bool)
    ensures
        r == (line_key(t.spec_bytes()) == "layout".spec_bytes()),
{
    let b = t.as_bytes();
    match find_byte_at(b, ascii::COLON, 0) {
        Some(c) => {
            proof {
                text::lemma_valid(t);
                text::lemma_ascii_boundary(b@, c as int);
            }
            same_str(trimmed(str_upto(t, c)), "layout")
        },
        None => same_str(trimmed(t), "layout"),
    }
}

/// Whether `offset` lies in a `layout:` block.
pub fn enclosing_layout_block(source: &str, offset: usize) -> (r: bool)
    ensures
        r == in_layout_block(source.spec_bytes(), offset as int),
{
    let ghost s = source.spec_bytes();
    let n: usize = source.as_bytes().len();
    let lines = split_lines(source);
    let mut k: usize = 0;
    while k < lines.len()
        invariant
            s == source.spec_bytes(),
            s.len() <= usize::MAX,
            indent::are_lines(lines@, s),
            k <= lines@.len(),
            line_holding(s, offset as int, k as int) == line_holding(s, offset as int, 0),
        decreases lines@.len() - k,
    {
        let line = &lines[k];
        if line.start <= offset && offset <= line.start + line.text.as_bytes().len() {
            let sp: usize = leading_spaces(line.text);
            if sp == 0 {
                return false;
            }
            let mut j: usize = k;
            while j > 0
                invariant
                    indent::are_lines(lines@, s),
                    j <= k < lines@.len(),
                    layout_above(indent::texts(s), sp as int, j as int) == layout_above(
                        indent::texts(s),
                        sp as int,
                        k as int,
                    ),
                    line_holding(s, offset as int, 0) == Some(k as int),
                    sp > 0,
                    sp == indent::spaces(indent::texts(s)[k as int]),
                    s == source.spec_bytes(),
                decreases j,
            {
                let above = &lines[j - 1];
                let t = trimmed(above.text);
                if t.as_bytes().len() > 0 && !is_comment(t) && leading_spaces(above.text) < sp {
                    return has_layout_key(t);
                }
                j -= 1;
            }
            return false;
        }
        k += 1;
    }
    false
}

/// What can be inserted at `offset`, in a workspace.
pub fn complete_at_with_widgets(
    source: &str,
    offset: usize,
    styles: &StyleIndex,
    lua: &LuaWidgetIndex,
) -> (items: Vec<CompletionItem>)
    ensures
        lang_api::views(items@) == completions(
            source.spec_bytes(),
            offset as int,
            (Workspace { styles: styles@, lua: lua@ }),
        ),
{
    let nothing: Vec<CompletionItem> = Vec::new();
    assert(lang_api::views(nothing@) =~= Seq::empty());
    if !is_boundary(source, offset) {
        return nothing;
    }
    let tree = match SyntaxTree::parse(source) {
        Some(tree) => tree,
        None => {
            return nothing;
        },
    };
    let stmts = tree.statements();
    if in_suppressed_context(stmts, offset) {
        return nothing;
    }
    let start: usize = line_start_of(source, offset);
    proof {
        text::lemma_valid(source);
        text::lemma_line_start(source.spec_bytes(), offset as int);
    }
    let prefix = substr(source, start, offset);
    match classify(prefix) {
        Some(Context::States) => set_items(&schema::STATES, CompletionKind::EnumMember, "state"),
        Some(Context::AnchorEdgeKey) => {
            let mut items = key_snippet_items(
                &schema::ANCHOR_EDGES,
                CompletionKind::EnumMember,
                "anchor edge",
            );
            let mut more = key_snippet_items(
                &schema::SHORTHAND_ANCHORS,
                CompletionKind::EnumMember,
                "anchor shorthand",
            );
            let ghost a = items@;
            let ghost b = more@;
            items.append(&mut more);
            assert(lang_api::views(items@) =~= lang_api::views(a) + lang_api::views(b));
            items
        },
        Some(Context::AnchorTargetEdge) => set_items(
            &schema::ANCHOR_EDGES,
            CompletionKind::EnumMember,
            "anchor edge",
        ),
        Some(Context::AnchorTarget) => anchor_target_items(source, stmts, offset),
        Some(Context::Events) => key_snippet_items(
            &schema::EVENTS,
            CompletionKind::Event,
            "event handler",
        ),
        Some(Context::IndentedSlot) => {
            if !line_indentation_is_valid(source, offset) {
                return nothing;
            }
            if trimmed(prefix).as_bytes().len() == 0 && rest_of_line_is_special_form(
                source,
                offset,
            ) {
                return nothing;
            }
            if enclosing_layout_block(source, offset) {
                return layout_block_key_items();
            }
            indented_slot_items(source, stmts, offset, styles, lua)
        },
        Some(Context::PropertyValue(key)) => {
            if !line_indentation_is_valid(source, offset) {
                return nothing;
            }
            if is_layout_block_property(key.as_str()) && enclosing_layout_block(source, offset) {
                return layout_value_items(key.as_str());
            }
            property_value_items(key.as_str())
        },
        Some(Context::BaseSlot) => base_slot_items(styles, lua),
        None => nothing,
    }
}

/// What can be inserted at `offset`, outside a workspace.
pub fn complete_at(source: &str, offset: usize) -> (items: Vec<CompletionItem>)
    ensures
        lang_api::views(items@) == completions(
            source.spec_bytes(),
            offset as int,
            (Workspace { styles: Seq::empty(), lua: Seq::empty() }),
        ),
{
    complete_at_with_widgets(source, offset, &StyleIndex::new(), &LuaWidgetIndex::new())
}

} // verus!
