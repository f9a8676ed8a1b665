//! What there is to say about a property: for the reader who points at its key, and beside the items
//! that complete it.

use crate::catalog;
use crate::diagnostics::WidgetContext;
use crate::diagnostics;
use crate::lang_api;
use crate::lang_api::ByteSpan;
use crate::lua_widgets::LuaWidgetIndex;
use crate::nodes;
use crate::nodes::{enclosing_widget, is_in_block, key_text};
use crate::schema;
use crate::schema::{
    classify_layout_value, classify_value, is_anchor_edge, is_color_property, is_known_property,
    is_layout_block_property, is_shorthand_anchor, values_of, PropertyValueKind,
};
use crate::style_index::StyleIndex;
use crate::syntax;
use crate::syntax::{Stmt, StmtKind, SyntaxTree};
use crate::text;
use crate::text::same_str;
use crate::widget_resolve;
use crate::widget_resolve::{resolve_ancestry, widget_type};
use vstd::prelude::*;
use vstd::string::*;

verus! {

/// The note on the word `key`.
pub open spec fn note_from(
    notes: Seq<(&'static str, &'static str)>,
    key: Seq<u8>,
    i: int,
) -> Option<Seq<char>>
    decreases notes.len() - i,
{
    if !(0 <= i < notes.len()) {
        None
    } else if notes[i].0.spec_bytes() == key {
        Some(notes[i].1@)
    } else {
        note_from(notes, key, i + 1)
    }
}

/// The first `k` words, each in backquotes.
pub open spec fn quoted_words(words: Seq<&'static str>, k: int) -> Seq<char>
    decreases k,
{
    if k <= 0 {
        Seq::empty()
    } else if k == 1 {
        "`"@ + words[0]@ + "`"@
    } else {
        quoted_words(words, k - 1) + ", `"@ + words[k - 1]@ + "`"@
    }
}

/// A paragraph with a blank line behind it, or nothing.
pub open spec fn paragraph(text: Option<Seq<char>>) -> Seq<char> {
    match text {
        Some(t) => t + "\n\n"@,
        None => Seq::empty(),
    }
}

/// Whether the engine rejects a value of the property `key` that it cannot read.
pub open spec fn validates(key: Seq<u8>) -> bool {
    key == "display".spec_bytes() || key == "layout".spec_bytes() || key == "border".spec_bytes()
        || schema::member(catalog::COLOR_PROPERTIES@, key)
}

/// The sentence that lists the values of the property `key`, where they form a closed set.
pub open spec fn value_sentence(key: Seq<u8>) -> Option<Seq<char>> {
    match schema::value_set(key) {
        Some(values) => Some("One of: "@ + quoted_words(values, values.len() as int)),
        None => None,
    }
}

/// What the engine does with a value that it cannot read.
pub open spec fn validation_sentence(key: Seq<u8>) -> Seq<char> {
    if validates(key) {
        "The engine rejects an invalid value: the file does not load."@
    } else {
        "An invalid value is silently ignored."@
    }
}

/// What there is to say about the property, anchor edge or anchor shorthand `key`.
#[verifier::opaque]
pub open spec fn documentation(key: Seq<u8>) -> Option<Seq<char>> {
    if schema::known_property(key) {
        Some(
            paragraph(note_from(catalog::PROPERTY_DOCS@, key, 0)) + paragraph(value_sentence(key))
                + validation_sentence(key),
        )
    } else if schema::member_any_case(schema::ANCHOR_EDGES@, key) || schema::member(
        schema::SHORTHAND_ANCHORS@,
        key,
    ) {
        Some(
            paragraph(note_from(catalog::ANCHOR_DOCS@, key, 0))
                + "The engine rejects an invalid edge. A target is the id of a direct sibling, or `parent`, `next` or `prev`."@,
        )
    } else {
        None
    }
}

/// The note on the word `key`.
fn find_note(notes: &[(&'static str, &'static str)], key: &str) -> (r: Option<&'static str>)
    ensures
        match r {
            Some(t) => note_from(notes@, key.spec_bytes(), 0) == Some(t@),
            None => note_from(notes@, key.spec_bytes(), 0) is None,
        },
{
    let mut i: usize = 0;
    while i < notes.len()
        invariant
            i <= notes@.len(),
            note_from(notes@, key.spec_bytes(), i as int) == note_from(
                notes@,
                key.spec_bytes(),
                0,
            ),
        decreases notes@.len() - i,
    {
        if same_str(notes[i].0, key) {
            return Some(notes[i].1);
        }
        i += 1;
    }
    None
}

/// The words, each in backquotes.
fn quote_words(words: &[&'static str]) -> (r: String)
    ensures
        r@ == quoted_words(words@, words@.len() as int),
{
    let mut r = String::new();
    let mut i: usize = 0;
    while i < words.len()
        invariant
            i <= words@.len(),
            r@ == quoted_words(words@, i as int),
        decreases words@.len() - i,
    {
        if i == 0 {
            r.append("`");
            assert(r@ =~= "`"@);
        } else {
            r.append(", `");
        }
        r.append(words[i]);
        r.append("`");
        i += 1;
    }
    r
}

/// Adds a paragraph with a blank line behind it.
fn add_paragraph(out: &mut String, text: Option<&str>)
    ensures
        final(out)@ == old(out)@ + paragraph(
            match text {
                Some(t) => Some(t@),
                None => None,
            },
        ),
{
    if let Some(t) = text {
        let ghost before = out@;
        out.append(t);
        out.append("\n\n");
        assert(out@ =~= before + (t@ + "\n\n"@));
    } else {
        assert(out@ + Seq::<char>::empty() =~= out@);
    }
}

/// What there is to say about the property, anchor edge or anchor shorthand `key`.
pub fn documentation_body(key: &str) -> (r: Option<String>)
    ensures
        lang_api::opt_text(r) == documentation(key.spec_bytes()),
{
    reveal(documentation);
    let mut out = String::new();
    if is_known_property(key) {
        add_paragraph(&mut out, find_note(&catalog::PROPERTY_DOCS, key));
        assert(out@ =~= paragraph(note_from(catalog::PROPERTY_DOCS@, key.spec_bytes(), 0)));
        match values_of(key) {
            Some(values) => {
                let mut list = "One of: ".to_owned();
                list.append(quote_words(values).as_str());
                add_paragraph(&mut out, Some(list.as_str()));
            },
            None => {
                add_paragraph(&mut out, None);
            },
        }
        if same_str(key, "display") || same_str(key, "layout") || same_str(key, "border")
            || is_color_property(key) {
            out.append("The engine rejects an invalid value: the file does not load.");
        } else {
            out.append("An invalid value is silently ignored.");
        }
        return Some(out);
    }
    if is_anchor_edge(key) || is_shorthand_anchor(key) {
        add_paragraph(&mut out, find_note(&catalog::ANCHOR_DOCS, key));
        assert(out@ =~= paragraph(note_from(catalog::ANCHOR_DOCS@, key.spec_bytes(), 0)));
        out.append(
            "The engine rejects an invalid edge. A target is the id of a direct sibling, or `parent`, `next` or `prev`.",
        );
        return Some(out);
    }
    None
}

/// Who reads a property.
#[derive(Debug, Clone, Copy, PartialEq, Eq)]
pub enum PropertyOrigin {
    /// The engine reads it off every widget.
    Engine {
        /// What kind of value it takes.
        kind: PropertyValueKind,
    },
    /// The layout of the widget reads it off the `layout:` block.
    Layout {
        /// What kind of value it takes.
        kind: PropertyValueKind,
    },
    /// The class of the widget reads it in Lua.
    Widget,
}

/// The property that the cursor points at.
#[derive(Debug, Clone, PartialEq, Eq)]
pub struct PropertyHover {
    /// The key.
    pub name: String,
    /// Where the key stands.
    pub span: ByteSpan,
    /// Who reads the property.
    pub origin: PropertyOrigin,
    /// What there is to say about it.
    pub documentation: Option<String>,
}

/// Whether the widget that statement `i` belongs to reads the property `key` in Lua.
pub open spec fn widget_reads(
    s: Seq<u8>,
    stmts: Seq<Stmt>,
    ws: diagnostics::Workspace,
    i: int,
    key: Seq<u8>,
) -> bool {
    match nodes::widget_above(stmts, i) {
        Some(w) => widget_resolve::reads(
            ws.lua,
            widget_resolve::ancestry(
                ws.styles,
                ws.lua,
                text::chars_of(widget_resolve::type_of(s, stmts[w])),
            ),
            key,
        ),
        None => false,
    }
}

/// Whether statement `i` is a property at whose key `offset` points.
pub open spec fn key_holds(stmts: Seq<Stmt>, i: int, offset: int) -> bool {
    stmts[i].kind == StmtKind::Property && stmts[i].key.holds(offset)
}

/// The first property at or after statement `i` at whose key `offset` points.
pub open spec fn property_at(stmts: Seq<Stmt>, offset: int, i: int) -> Option<int>
    decreases stmts.len() - i,
{
    if !(0 <= i < stmts.len()) {
        None
    } else if key_holds(stmts, i, offset) {
        Some(i)
    } else {
        property_at(stmts, offset, i + 1)
    }
}

/// Whether `origin` says who reads the property of statement `i`.
pub open spec fn is_origin(
    s: Seq<u8>,
    stmts: Seq<Stmt>,
    ws: diagnostics::Workspace,
    i: int,
    origin: Option<PropertyOrigin>,
) -> bool {
    let key = nodes::key_of(s, stmts[i]);
    if nodes::in_block(s, stmts, i, "layout".spec_bytes()) {
        if schema::member(catalog::LAYOUT_PROPERTIES@, key) {
            origin matches Some(PropertyOrigin::Layout { kind }) && schema::layout_takes(key, kind)
        } else {
            origin is None
        }
    } else if schema::known_property(key) {
        origin matches Some(PropertyOrigin::Engine { kind }) && schema::takes(key, kind)
    } else if widget_reads(s, stmts, ws, i, key) {
        origin == Some(PropertyOrigin::Widget)
    } else {
        origin is None
    }
}

/// Who reads the property of statement `i`.
fn origin_of(source: &str, stmts: &[Stmt], ctx: &WidgetContext, i: usize) -> (r: Option<
    PropertyOrigin,
>)
    requires
        stmts@ == syntax::stmts(source.spec_bytes()),
        i < stmts@.len(),
    ensures
        is_origin(source.spec_bytes(), stmts@, ctx@, i as int, r),
{
    let key = key_text(source, stmts, i);
    if is_in_block(source, stmts, i, "layout") {
        if is_layout_block_property(key) {
            return Some(PropertyOrigin::Layout { kind: classify_layout_value(key) });
        }
        return None;
    }
    if is_known_property(key) {
        return Some(PropertyOrigin::Engine { kind: classify_value(key) });
    }
    if let Some(w) = enclosing_widget(stmts, i) {
        proof {
            nodes::lemma_widget_above(stmts@, i as int);
        }
        let name = widget_type(source, stmts, w);
        if resolve_ancestry(name.as_str(), ctx.styles, ctx.lua).declares_custom_property(
            ctx.lua,
            key,
        ) {
            return Some(PropertyOrigin::Widget);
        }
    }
    None
}

/// The property at whose key `offset` points, where somebody reads it.
pub fn property_hover_at(
    source: &str,
    offset: usize,
    styles: &StyleIndex,
    lua: &LuaWidgetIndex,
) -> (r: Option<PropertyHover>)
    ensures
        ({
            let s = source.spec_bytes();
            let stmts = syntax::stmts(s);
            let ws = diagnostics::Workspace { styles: styles@, lua: lua@ };
            match property_at(stmts, offset as int, 0) {
                Some(i) => match r {
                    Some(hover) => is_origin(s, stmts, ws, i, Some(hover.origin)) && hover.name@
                        == text::chars_of(nodes::key_of(s, stmts[i])) && hover.span == stmts[i].key
                        && lang_api::opt_text(hover.documentation) == documentation(
                        nodes::key_of(s, stmts[i]),
                    ),
                    None => is_origin(s, stmts, ws, i, None),
                },
                None => r is None,
            }
        }),
{
    let tree = match SyntaxTree::parse(source) {
        Some(tree) => tree,
        None => {
            return None;
        },
    };
    let stmts = tree.statements();
    let ctx = WidgetContext { styles, lua };
    let mut i: usize = 0;
    while i < stmts.len()
        invariant
            stmts@ == syntax::stmts(source.spec_bytes()),
            i <= stmts@.len(),
            ctx@ == (diagnostics::Workspace { styles: styles@, lua: lua@ }),
            property_at(stmts@, offset as int, i as int) == property_at(
                stmts@,
                offset as int,
                0,
            ),
        decreases stmts@.len() - i,
    {
        if stmts[i].kind == StmtKind::Property && stmts[i].key.contains(offset) {
            let key = key_text(source, stmts, i);
            return match origin_of(source, stmts, &ctx, i) {
                Some(origin) => Some(
                    PropertyHover {
                        name: key.to_owned(),
                        span: stmts[i].key,
                        origin,
                        documentation: documentation_body(key),
                    },
                ),
                None => None,
            };
        }
        i += 1;
    }
    None
}

} // verus!
