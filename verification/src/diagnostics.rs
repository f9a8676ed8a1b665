//! What is wrong with a document, and how serious it is.
//!
//! The severity follows what the engine does. What keeps a file from loading is an error. A base that
//! cannot be found is a warning: the style is registered all the same. What the engine ignores is a
//! hint, however wrong it looks.
//!
//! Four passes contribute: the indentation of the lines, the lines that fit no kind of statement, the
//! statements themselves, and the styles that the top level names. The last one needs the workspace
//! and runs only where it is given.

use crate::ascii;
use crate::catalog;
use crate::doc_index;
use crate::indent;
use crate::indent::{
    has_tab_indent, is_block_scalar_marker, is_comment, leading_spaces, line_value, split_lines,
    Line,
};
use crate::lang_api;
use crate::lang_api::{ByteSpan, Diagnostic, DiagnosticView, Severity};
use crate::lua_widgets;
use crate::lua_widgets::{LuaWidgetDef, LuaWidgetIndex};
use crate::nodes;
use crate::nodes::{
    enclosing_widget, has_children, is_child, is_in_block, key_text, span_text, value_text,
};
use crate::order;
use crate::order::{sort_by_place, HasPlace, Placed};
use crate::palette;
use crate::palette::{is_border_color_value, is_valid_border};
use crate::schema;
use crate::schema::{
    is_anchor_edge, is_color_property, is_display_value, is_known_property, is_known_state,
    is_layout_block_property, is_layout_type, is_shorthand_anchor,
};
use crate::style_index;
use crate::style_index::{is_native_base, is_widget, property_named, StyleIndex};
use crate::syntax;
use crate::syntax::{state_names, Stmt, StmtKind, SyntaxTree};
use crate::text;
use crate::text::{find_byte_at, has_at, same_str, substr, trim_range, trimmed, trimmed_end};
use crate::widget_resolve;
use crate::widget_resolve::resolve_ancestry;
use crate::wording::join3;
use vstd::prelude::*;
use vstd::string::*;
use vstd::utf8::*;

verus! {

/// A tab in the indentation of a line.
pub const TAB_INDENTATION: &'static str = "tab-indentation";

/// A number of spaces in front of a line that is not even.
pub const ODD_INDENTATION: &'static str = "odd-indentation";

/// A line that is more than one level deeper than the one above.
pub const INVALID_INDENTATION_DEPTH: &'static str = "invalid-indentation-depth";

/// A line that fits no kind of statement.
pub const SYNTAX_ERROR: &'static str = "syntax-error";

/// A state in a selector that the engine does not know; the block never applies.
pub const UNKNOWN_STATE: &'static str = "unknown-state";

/// An anchor whose edge or target the engine rejects.
pub const INVALID_ANCHOR_EDGE: &'static str = "invalid-anchor-edge";

/// A property below a child widget. The engine applies all properties before it creates a child.
pub const PROPERTY_AFTER_CHILD: &'static str = "property-after-child";

/// An anchor on a widget whose parent places its children by another layout.
pub const ANCHOR_PARENT_NO_ANCHOR_LAYOUT: &'static str = "anchor-parent-no-anchor-layout";

/// A property that the engine ignores.
pub const UNKNOWN_PROPERTY: &'static str = "unknown-property";

/// A value that the engine rejects.
pub const INVALID_PROPERTY_VALUE: &'static str = "invalid-property-value";

/// A base that is neither a style of the workspace nor a class.
pub const UNKNOWN_BASE: &'static str = "unknown-base";

/// A root widget that is neither a style of the workspace nor a class.
pub const UNKNOWN_ROOT_STYLE: &'static str = "unknown-root-style";

/// The styles and Lua classes of a workspace.
pub struct WidgetContext<'a> {
    /// The styles.
    pub styles: &'a StyleIndex,
    /// The Lua classes.
    pub lua: &'a LuaWidgetIndex,
}

/// The model of a [`WidgetContext`].
pub struct Workspace {
    /// What each document declares.
    pub styles: style_index::StyleDocs,
    /// What each Lua document declares.
    pub lua: doc_index::DocItems<LuaWidgetDef>,
}

impl<'a> View for WidgetContext<'a> {
    type V = Workspace;

    open spec fn view(&self) -> Workspace {
        Workspace { styles: self.styles@, lua: self.lua@ }
    }
}

/// The model of the workspace, where there is one.
pub open spec fn workspace(ctx: Option<&WidgetContext>) -> Option<Workspace> {
    match ctx {
        Some(c) => Some(c@),
        None => None,
    }
}

impl Placed for DiagnosticView {
    open spec fn place(&self) -> (int, int) {
        (self.span.start as int, self.span.end as int)
    }
}

impl HasPlace for Diagnostic {
    fn place_of(&self) -> (r: (usize, usize)) {
        (self.span.start, self.span.end)
    }
}

/// A finding between two offsets.
pub open spec fn finding(
    severity: Severity,
    code: Seq<char>,
    message: Seq<char>,
    a: int,
    b: int,
) -> DiagnosticView {
    DiagnosticView { severity, code, message, span: syntax::span(a, b) }
}

// ---------------------------------------------------------------------------------------------
// Indentation
// ---------------------------------------------------------------------------------------------

/// What is wrong with the indentation of a line.
#[derive(Clone, Copy, PartialEq, Eq, Structural)]
pub enum Flaw {
    /// Nothing.
    Fine,
    /// A tab follows the spaces.
    Tab,
    /// The number of spaces is not even.
    Odd,
    /// The line is more than one level deeper than the one above.
    Jump,
}

/// What the indentation pass makes of a line.
#[derive(Clone, Copy, PartialEq, Eq, Structural)]
pub struct Verdict {
    /// Whether the line is one of structure: not blank, no comment, not in a block scalar.
    pub structural: bool,
    /// What is wrong with its indentation.
    pub flaw: Flaw,
}

/// What is wrong with the white space in front of a line; a tab counts before the rest.
pub open spec fn space_flaw(t: Seq<u8>) -> Flaw {
    if indent::tabbed(t) {
        Flaw::Tab
    } else if indent::spaces(t) % 2 != 0 {
        Flaw::Odd
    } else {
        Flaw::Fine
    }
}

/// What is wrong with the indentation of a line of structure below a line of the given depth.
pub open spec fn node_flaw(t: Seq<u8>, depth: int) -> Flaw {
    if space_flaw(t) == Flaw::Fine && indent::spaces(t) / 2 > depth + 1 {
        Flaw::Jump
    } else {
        space_flaw(t)
    }
}

/// What the pass makes of a line that reads `t`, below a line of structure of the given depth, where
/// the block scalar `open` is open; with the depth and the block scalar for the line below.
pub open spec fn judged(t: Seq<u8>, depth: int, open: Option<int>) -> (Verdict, int, Option<int>) {
    if indent::continues(t, open) {
        (Verdict { structural: false, flaw: Flaw::Fine }, depth, open)
    } else if text::trim(t).len() == 0 {
        (Verdict { structural: false, flaw: Flaw::Fine }, depth, None)
    } else if indent::comment(text::trim(t)) {
        (Verdict { structural: false, flaw: space_flaw(t) }, depth, None)
    } else {
        (
            Verdict { structural: true, flaw: node_flaw(t, depth) },
            indent::spaces(t) / 2,
            indent::opened(t),
        )
    }
}

/// What the pass makes of the lines from line `i` on.
pub open spec fn verdicts_from(lines: Seq<Seq<u8>>, i: int, depth: int, open: Option<int>) -> Seq<
    Verdict,
>
    decreases lines.len() - i,
{
    if !(0 <= i < lines.len()) {
        Seq::empty()
    } else {
        let j = judged(lines[i], depth, open);
        seq![j.0] + verdicts_from(lines, i + 1, j.1, j.2)
    }
}

/// What the pass makes of each line of a document.
pub open spec fn verdicts(s: Seq<u8>) -> Seq<Verdict> {
    verdicts_from(indent::texts(s), 0, 0, None)
}

/// The finding about a line that starts at `start` and reads `t`.
pub open spec fn flaw_findings(start: int, t: Seq<u8>, flaw: Flaw) -> Seq<DiagnosticView> {
    let sp = indent::spaces(t);
    match flaw {
        Flaw::Fine => Seq::empty(),
        Flaw::Tab => seq![
            finding(
                Severity::Error,
                TAB_INDENTATION@,
                "indentation with tabs is not allowed"@,
                start + sp,
                start + sp + 1,
            ),
        ],
        Flaw::Odd => seq![
            finding(
                Severity::Error,
                ODD_INDENTATION@,
                "indentation must be a multiple of 2 spaces"@,
                start,
                start + sp,
            ),
        ],
        Flaw::Jump => seq![
            finding(
                Severity::Error,
                INVALID_INDENTATION_DEPTH@,
                "invalid indentation depth"@,
                start + sp,
                start + text::trim_end(t).len(),
            ),
        ],
    }
}

/// The findings about the first `k` lines.
pub open spec fn indentation_upto(s: Seq<u8>, k: int) -> Seq<DiagnosticView>
    decreases k,
{
    if k <= 0 {
        Seq::empty()
    } else {
        indentation_upto(s, k - 1) + flaw_findings(
            indent::lines(s)[k - 1].0,
            indent::texts(s)[k - 1],
            verdicts(s)[k - 1].flaw,
        )
    }
}

/// The findings about the indentation of a document.
pub open spec fn indentation_findings(s: Seq<u8>) -> Seq<DiagnosticView> {
    indentation_upto(s, indent::lines(s).len() as int)
}

/// Whether `offset` lies on line `k` or right behind it.
pub open spec fn on_line(s: Seq<u8>, k: int, offset: int) -> bool {
    indent::lines(s)[k].0 <= offset <= indent::lines(s)[k].1
}

/// Whether `offset` lies on a line of structure whose indentation is in order.
pub open spec fn well_indented_at(s: Seq<u8>, offset: int) -> bool {
    exists|k: int|
        0 <= k < indent::lines(s).len() && #[trigger] on_line(s, k, offset) && verdicts(s)[k]
            == (Verdict { structural: true, flaw: Flaw::Fine })
}

proof fn lemma_verdicts_len(lines: Seq<Seq<u8>>, i: int, depth: int, open: Option<int>)
    requires
        0 <= i <= lines.len(),
    ensures
        verdicts_from(lines, i, depth, open).len() == lines.len() - i,
    decreases lines.len() - i,
{
    if i < lines.len() {
        let j = judged(lines[i], depth, open);
        lemma_verdicts_len(lines, i + 1, j.1, j.2);
    }
}

/// An offset lies on one line at most.
proof fn lemma_one_line(s: Seq<u8>, i: int, j: int, offset: int)
    requires
        0 <= i < indent::lines(s).len(),
        0 <= j < indent::lines(s).len(),
        on_line(s, i, offset),
        on_line(s, j, offset),
    ensures
        i == j,
{
    if i < j {
        syntax::lemma_lines_ordered(s, i, j);
    } else if j < i {
        syntax::lemma_lines_ordered(s, j, i);
    }
}

/// The check of one line agrees with the pass over all lines: on a line of structure, the indentation
/// is in order exactly where the pass has no finding about that line.
pub proof fn law_line_check_agrees_with_pass(s: Seq<u8>, k: int, offset: int)
    requires
        0 <= k < indent::lines(s).len(),
        on_line(s, k, offset),
        verdicts(s)[k].structural,
    ensures
        well_indented_at(s, offset) == (indentation_upto(s, k + 1) == indentation_upto(s, k)),
{
    let extra = flaw_findings(indent::lines(s)[k].0, indent::texts(s)[k], verdicts(s)[k].flaw);
    if well_indented_at(s, offset) {
        let j = choose|j: int|
            0 <= j < indent::lines(s).len() && #[trigger] on_line(s, j, offset) && verdicts(s)[j]
                == (Verdict { structural: true, flaw: Flaw::Fine });
        lemma_one_line(s, k, j, offset);
        assert(indentation_upto(s, k + 1) =~= indentation_upto(s, k));
    } else {
        assert(verdicts(s)[k].flaw != Flaw::Fine);
        assert(extra.len() == 1);
        assert(indentation_upto(s, k + 1).len() == indentation_upto(s, k).len() + 1);
    }
}

// ---------------------------------------------------------------------------------------------
// Statements
// ---------------------------------------------------------------------------------------------

/// The finding about a line that fits no kind of statement.
pub open spec fn error_findings(st: Stmt) -> Seq<DiagnosticView> {
    if st.kind == StmtKind::Error {
        seq![
            finding(
                Severity::Error,
                SYNTAX_ERROR@,
                "syntax error"@,
                st.span.start as int,
                st.span.end as int,
            ),
        ]
    } else {
        Seq::empty()
    }
}

/// The findings about the lines among the first `k` statements that fit no kind.
pub open spec fn errors_upto(stmts: Seq<Stmt>, k: int) -> Seq<DiagnosticView>
    decreases k,
{
    if k <= 0 {
        Seq::empty()
    } else {
        errors_upto(stmts, k - 1) + error_findings(stmts[k - 1])
    }
}

/// The findings about properties below a child widget in the body of statement `i`, from statement
/// `j` on, where `seen` tells whether a child widget came before. Behind a line that fits no kind
/// nothing is said.
pub open spec fn after_child_from(stmts: Seq<Stmt>, i: int, j: int, seen: bool) -> Seq<
    DiagnosticView,
>
    decreases stmts.len() - j,
{
    if !(0 <= j < stmts.len()) {
        Seq::empty()
    } else if stmts[j].parent != Some(i as usize) {
        after_child_from(stmts, i, j + 1, seen)
    } else if stmts[j].kind == StmtKind::Error {
        Seq::empty()
    } else if style_index::widget(stmts[j]) {
        after_child_from(stmts, i, j + 1, true)
    } else if stmts[j].kind == StmtKind::Property && seen {
        seq![
            finding(
                Severity::Hint,
                PROPERTY_AFTER_CHILD@,
                "property declared after a child widget: the engine applies all of a widget's properties before creating any of its children, so this has no effect on behavior — purely a readability issue"@,
                stmts[j].key.start as int,
                stmts[j].key.end as int,
            ),
        ] + after_child_from(stmts, i, j + 1, seen)
    } else {
        after_child_from(stmts, i, j + 1, seen)
    }
}

/// The findings about properties below a child widget in the body of statement `i`. Only a widget
/// has such a body.
pub open spec fn after_child(stmts: Seq<Stmt>, i: int) -> Seq<DiagnosticView> {
    if style_index::widget(stmts[i]) {
        after_child_from(stmts, i, 0, false)
    } else {
        Seq::empty()
    }
}

/// The findings about the first `k` state names of a selector that reads `h` and starts at `a`.
pub open spec fn states_upto(h: Seq<u8>, a: int, k: int) -> Seq<DiagnosticView>
    decreases k,
{
    if k <= 0 {
        Seq::empty()
    } else {
        let p = syntax::states_from(h, 1)[k - 1];
        let name = h.subrange(p.0, p.1);
        if schema::member_any_case(schema::STATES@, name) {
            states_upto(h, a, k - 1)
        } else {
            states_upto(h, a, k - 1).push(
                finding(
                    Severity::Hint,
                    UNKNOWN_STATE@,
                    "unknown state `"@ + text::chars_of(name) + "`: never matches at runtime"@,
                    a + p.0,
                    a + p.1,
                ),
            )
        }
    }
}

/// The findings about the states of a selector.
pub open spec fn state_findings(s: Seq<u8>, st: Stmt) -> Seq<DiagnosticView> {
    let h = syntax::cut(s, st.span);
    states_upto(h, st.span.start as int, syntax::states_from(h, 1).len() as int)
}

/// Where the value of a statement lies, when it is neither missing nor the name of a variable, which
/// only the engine can resolve.
pub open spec fn literal_value(s: Seq<u8>, st: Stmt) -> Option<(int, int)> {
    match st.value {
        Some(v) => {
            let p = text::trim_at(s, v.start as int, v.end as int);
            if p.0 < p.1 && s[p.0] != ascii::DOLLAR {
                Some(p)
            } else {
                None
            }
        },
        None => None,
    }
}

/// The layout that a widget declares, when it is given literally: `layout: type`, or a `type:` in
/// the body of `layout:`.
pub open spec fn declared_layout(s: Seq<u8>, stmts: Seq<Stmt>, w: int) -> Option<(int, int)> {
    match style_index::find_property(s, stmts, w, "layout".spec_bytes(), 0) {
        Some(l) => if stmts[l].value is Some {
            literal_value(s, stmts[l])
        } else {
            match style_index::find_property(s, stmts, l, "type".spec_bytes(), 0) {
                Some(t) => literal_value(s, stmts[t]),
                None => None,
            }
        },
        None => None,
    }
}

/// The finding about an anchor on a widget whose parent does not place its children by anchors.
pub open spec fn anchor_layout_findings(s: Seq<u8>, stmts: Seq<Stmt>, i: int) -> Seq<
    DiagnosticView,
> {
    match nodes::widget_above(stmts, i) {
        Some(w) => match nodes::widget_above(stmts, w) {
            Some(parent) => match declared_layout(s, stmts, parent) {
                Some(p) => {
                    let name = s.subrange(p.0, p.1);
                    if name != "anchor".spec_bytes() && schema::member(schema::LAYOUT_TYPES@, name) {
                        seq![
                            finding(
                                Severity::Error,
                                ANCHOR_PARENT_NO_ANCHOR_LAYOUT@,
                                "cannot anchor: the parent widget uses `"@ + text::chars_of(name)
                                    + "` layout, not an anchor layout"@,
                                stmts[i].key.start as int,
                                stmts[i].key.end as int,
                            ),
                        ]
                    } else {
                        Seq::empty()
                    }
                },
                None => Seq::empty(),
            },
            None => Seq::empty(),
        },
        None => Seq::empty(),
    }
}

/// The finding about the edge of an anchor.
pub open spec fn anchor_edge_findings(s: Seq<u8>, st: Stmt) -> Seq<DiagnosticView> {
    let edge = syntax::cut(s, st.key);
    if schema::member_any_case(schema::ANCHOR_EDGES@, edge) || schema::member(
        schema::SHORTHAND_ANCHORS@,
        edge,
    ) {
        Seq::empty()
    } else {
        seq![
            finding(
                Severity::Error,
                INVALID_ANCHOR_EDGE@,
                "`"@ + text::chars_of(edge) + "` is not a valid anchor edge"@,
                st.key.start as int,
                st.key.end as int,
            ),
        ]
    }
}

/// The number of dots in `t` from offset `i` on.
pub open spec fn dots(t: Seq<u8>, i: int) -> int
    decreases t.len() - i,
{
    if !(0 <= i < t.len()) {
        0
    } else if t[i] == ascii::DOT {
        1 + dots(t, i + 1)
    } else {
        dots(t, i + 1)
    }
}

/// The finding about the target of an anchor: on an edge it is `none` or an id, a dot and an edge.
pub open spec fn anchor_target_findings(s: Seq<u8>, st: Stmt) -> Seq<DiagnosticView> {
    match st.value {
        Some(v) => {
            let target = syntax::cut(s, v);
            if target == "none".spec_bytes() || schema::member(
                schema::SHORTHAND_ANCHORS@,
                syntax::cut(s, st.key),
            ) {
                Seq::empty()
            } else if dots(target, 0) != 1 {
                seq![
                    finding(
                        Severity::Error,
                        INVALID_ANCHOR_EDGE@,
                        "`"@ + text::chars_of(target)
                            + "` is not a valid anchor target: expected `<id>.<edge>`"@,
                        v.start as int,
                        v.end as int,
                    ),
                ]
            } else {
                let dot = text::find_byte(target, ascii::DOT, 0)->0;
                let edge = text::from(target, dot + 1);
                if edge.len() == 0 || schema::member_any_case(schema::ANCHOR_EDGES@, edge) {
                    Seq::empty()
                } else {
                    seq![
                        finding(
                            Severity::Error,
                            INVALID_ANCHOR_EDGE@,
                            "`"@ + text::chars_of(edge) + "` is not a valid anchor edge"@,
                            v.start + dot + 1,
                            v.end as int,
                        ),
                    ]
                }
            }
        },
        None => Seq::empty(),
    }
}

/// The findings about an anchor.
pub open spec fn anchor_findings(s: Seq<u8>, stmts: Seq<Stmt>, i: int) -> Seq<DiagnosticView> {
    anchor_layout_findings(s, stmts, i) + anchor_edge_findings(s, stmts[i])
        + anchor_target_findings(s, stmts[i])
}

/// The type of the widget that the statements in the body of statement `p` belong to. A header gives
/// its name where the workspace knows it, since a declaration may put a class in place of the one it
/// derives, and its base otherwise.
pub open spec fn scope_type(s: Seq<u8>, stmts: Seq<Stmt>, w: Workspace, p: int) -> Option<Seq<char>>
    decreases p,
{
    if !(0 <= p < stmts.len()) {
        None
    } else if stmts[p].kind == StmtKind::StyleHeader {
        let name = text::chars_of(syntax::cut(s, stmts[p].key));
        if style_index::definition(w.styles, name) is Some {
            Some(name)
        } else {
            Some(text::chars_of(syntax::cut(s, stmts[p].value->0)))
        }
    } else if stmts[p].kind == StmtKind::Container {
        Some(text::chars_of(syntax::cut(s, stmts[p].key)))
    } else {
        match stmts[p].parent {
            Some(q) => if q < p {
                scope_type(s, stmts, w, q as int)
            } else {
                None
            },
            None => None,
        }
    }
}

/// Whether the widget that statement `i` belongs to reads the property `key` in Lua.
pub open spec fn lua_accepts(
    s: Seq<u8>,
    stmts: Seq<Stmt>,
    w: Option<Workspace>,
    i: int,
    key: Seq<u8>,
) -> bool {
    match (w, stmts[i].parent) {
        (Some(ws), Some(p)) => match scope_type(s, stmts, ws, p as int) {
            Some(name) => widget_resolve::reads(
                ws.lua,
                widget_resolve::ancestry(ws.styles, ws.lua, name),
                key,
            ),
            None => false,
        },
        _ => false,
    }
}

/// The finding about the key of a property. A key with a body is a group of its own, and no style
/// property; in a `layout:` block other keys count.
pub open spec fn key_findings(s: Seq<u8>, stmts: Seq<Stmt>, w: Option<Workspace>, i: int) -> Seq<
    DiagnosticView,
> {
    let st = stmts[i];
    let key = syntax::cut(s, st.key);
    let a = st.key.start as int;
    let b = st.key.end as int;
    if nodes::in_block(s, stmts, i, "layout".spec_bytes()) {
        if schema::member(catalog::LAYOUT_PROPERTIES@, key) {
            Seq::empty()
        } else {
            seq![
                finding(
                    Severity::Hint,
                    UNKNOWN_PROPERTY@,
                    "unknown layout property `"@ + text::chars_of(key)
                        + "`: ignored by the engine, has no effect"@,
                    a,
                    b,
                ),
            ]
        }
    } else if nodes::has_body(stmts, i) || schema::known_property(key) || lua_accepts(s, stmts, w, i, key) {
        Seq::empty()
    } else {
        seq![
            finding(
                Severity::Hint,
                UNKNOWN_PROPERTY@,
                "unknown property `"@ + text::chars_of(key)
                    + "`: ignored by the engine, has no effect"@,
                a,
                b,
            ),
        ]
    }
}

/// The finding about a value between two offsets.
pub open spec fn value_finding(message: Seq<char>, p: (int, int)) -> Seq<DiagnosticView> {
    seq![finding(Severity::Error, INVALID_PROPERTY_VALUE@, message, p.0, p.1)]
}

/// The finding about a layout that the engine does not know.
pub open spec fn layout_findings(s: Seq<u8>, p: (int, int)) -> Seq<DiagnosticView> {
    let value = s.subrange(p.0, p.1);
    if schema::member(schema::LAYOUT_TYPES@, value) {
        Seq::empty()
    } else {
        value_finding("`"@ + text::chars_of(value) + "` is not a valid `layout` type"@, p)
    }
}

/// The finding about the value of a `layout:` property, or of the `type:` in its body.
pub open spec fn layout_value_findings(s: Seq<u8>, stmts: Seq<Stmt>, i: int) -> Seq<
    DiagnosticView,
> {
    match literal_value(s, stmts[i]) {
        Some(p) => layout_findings(s, p),
        None => match style_index::find_property(s, stmts, i, "type".spec_bytes(), 0) {
            Some(t) => match literal_value(s, stmts[t]) {
                Some(p) => layout_findings(s, p),
                None => Seq::empty(),
            },
            None => Seq::empty(),
        },
    }
}

/// The finding about the value of a property.
pub open spec fn value_findings(s: Seq<u8>, stmts: Seq<Stmt>, i: int) -> Seq<DiagnosticView> {
    let key = syntax::cut(s, stmts[i].key);
    if key == "layout".spec_bytes() {
        layout_value_findings(s, stmts, i)
    } else {
        match literal_value(s, stmts[i]) {
            Some(p) => {
                let value = s.subrange(p.0, p.1);
                let word = text::chars_of(value);
                if key == "display".spec_bytes() {
                    if schema::member_any_case(schema::DISPLAY_VALUES@, value) {
                        Seq::empty()
                    } else {
                        value_finding("`"@ + word + "` is not a valid `display` value"@, p)
                    }
                } else if key == "border".spec_bytes() {
                    if palette::border(value) {
                        Seq::empty()
                    } else {
                        value_finding(
                            "`"@ + word
                                + "` is not a valid `border` value: expected a width and a color"@,
                            p,
                        )
                    }
                } else if schema::member(catalog::COLOR_PROPERTIES@, key) {
                    if palette::color(value) is Some {
                        Seq::empty()
                    } else if value[0] == ascii::OPEN_BRACKET {
                        value_finding(
                            "`"@ + word + "`: a color property takes a single color, not a list"@,
                            p,
                        )
                    } else {
                        value_finding("`"@ + word + "` is not a valid color"@, p)
                    }
                } else {
                    Seq::empty()
                }
            },
            None => Seq::empty(),
        }
    }
}

/// The findings about statement `i` itself.
pub open spec fn own_findings(s: Seq<u8>, stmts: Seq<Stmt>, w: Option<Workspace>, i: int) -> Seq<
    DiagnosticView,
> {
    match stmts[i].kind {
        StmtKind::StateSelector => state_findings(s, stmts[i]),
        StmtKind::AnchorProperty => anchor_findings(s, stmts, i),
        StmtKind::Property => if nodes::in_block(s, stmts, i, "layout".spec_bytes()) {
            key_findings(s, stmts, w, i)
        } else {
            key_findings(s, stmts, w, i) + value_findings(s, stmts, i)
        },
        _ => Seq::empty(),
    }
}

/// The findings about the first `k` statements.
pub open spec fn semantic_upto(s: Seq<u8>, stmts: Seq<Stmt>, w: Option<Workspace>, k: int) -> Seq<
    DiagnosticView,
>
    decreases k,
{
    if k <= 0 {
        Seq::empty()
    } else {
        semantic_upto(s, stmts, w, k - 1) + (after_child(stmts, k - 1) + own_findings(
            s,
            stmts,
            w,
            k - 1,
        ))
    }
}

// ---------------------------------------------------------------------------------------------
// Styles
// ---------------------------------------------------------------------------------------------

/// Whether `name` is a class, a style of the workspace or a Lua class.
pub open spec fn resolves(w: Workspace, name: Seq<char>) -> bool {
    style_index::native(name) || style_index::definition(w.styles, name) is Some
        || lua_widgets::defs_named(lua_widgets::all_defs(w.lua), name).len() > 0
}

/// The finding about the style that a statement of the top level names.
pub open spec fn resolution_findings(s: Seq<u8>, st: Stmt, w: Workspace) -> Seq<DiagnosticView> {
    if st.parent is Some {
        Seq::empty()
    } else if st.kind == StmtKind::StyleHeader {
        let v = st.value->0;
        let name = text::chars_of(syntax::cut(s, v));
        if resolves(w, name) {
            Seq::empty()
        } else {
            seq![
                finding(
                    Severity::Warning,
                    UNKNOWN_BASE@,
                    "unknown base `"@ + name
                        + "`: no workspace style or built-in widget class named `"@ + name + "`"@,
                    v.start as int,
                    v.end as int,
                ),
            ]
        }
    } else if st.kind == StmtKind::Container {
        let name = text::chars_of(syntax::cut(s, st.key));
        if resolves(w, name) {
            Seq::empty()
        } else {
            seq![
                finding(
                    Severity::Error,
                    UNKNOWN_ROOT_STYLE@,
                    "root widget style `"@ + name + "` does not resolve: the file fails to load"@,
                    st.key.start as int,
                    st.key.end as int,
                ),
            ]
        }
    } else {
        Seq::empty()
    }
}

/// The findings about the styles that the first `k` statements name at the top level.
pub open spec fn resolution_upto(s: Seq<u8>, stmts: Seq<Stmt>, w: Workspace, k: int) -> Seq<
    DiagnosticView,
>
    decreases k,
{
    if k <= 0 {
        Seq::empty()
    } else {
        resolution_upto(s, stmts, w, k - 1) + resolution_findings(s, stmts[k - 1], w)
    }
}

/// The findings that every kind of document shares: indentation, and lines that fit no kind.
pub open spec fn structural_findings(s: Seq<u8>) -> Seq<DiagnosticView> {
    indentation_findings(s) + errors_upto(syntax::stmts(s), syntax::stmts(s).len() as int)
}

/// The findings about a document, in the order in which the passes come upon them.
pub open spec fn raw_findings(s: Seq<u8>, w: Option<Workspace>) -> Seq<DiagnosticView> {
    let stmts = syntax::stmts(s);
    let n = stmts.len() as int;
    structural_findings(s) + semantic_upto(s, stmts, w, n) + match w {
        Some(ws) => resolution_upto(s, stmts, ws, n),
        None => Seq::empty(),
    }
}

/// The findings about a document, ordered by place.
pub open spec fn findings(s: Seq<u8>, w: Option<Workspace>) -> Seq<DiagnosticView> {
    order::stable_sort(raw_findings(s, w))
}

/// Whether a finding lies in the text `s` and its severity fits its code.
pub open spec fn sound(s: Seq<u8>, f: DiagnosticView) -> bool {
    &&& syntax::in_text(s, f.span)
    &&& match f.severity {
        Severity::Error => f.code == TAB_INDENTATION@ || f.code == ODD_INDENTATION@ || f.code
            == INVALID_INDENTATION_DEPTH@ || f.code == SYNTAX_ERROR@ || f.code
            == INVALID_ANCHOR_EDGE@ || f.code == ANCHOR_PARENT_NO_ANCHOR_LAYOUT@ || f.code
            == INVALID_PROPERTY_VALUE@ || f.code == UNKNOWN_ROOT_STYLE@,
        Severity::Warning => f.code == UNKNOWN_BASE@,
        Severity::Hint => f.code == UNKNOWN_STATE@ || f.code == PROPERTY_AFTER_CHILD@ || f.code
            == UNKNOWN_PROPERTY@,
    }
}

/// Whether each finding lies in the text `s` and its severity fits its code.
pub open spec fn all_sound(s: Seq<u8>, fs: Seq<DiagnosticView>) -> bool {
    forall|i: int| 0 <= i < fs.len() ==> sound(s, #[trigger] fs[i])
}

proof fn lemma_flaw_sound(s: Seq<u8>, k: int)
    requires
        valid_utf8(s),
        s.len() <= usize::MAX,
        0 <= k < indent::lines(s).len(),
        verdicts(s)[k].flaw == Flaw::Tab ==> indent::tabbed(indent::texts(s)[k]),
        verdicts(s)[k].flaw == Flaw::Jump ==> text::trim(indent::texts(s)[k]).len() > 0,
    ensures
        all_sound(
            s,
            flaw_findings(indent::lines(s)[k].0, indent::texts(s)[k], verdicts(s)[k].flaw),
        ),
{
    let (a, b) = indent::lines(s)[k];
    let t = indent::texts(s)[k];
    let sp = indent::spaces(t);
    indent::lemma_line_boundary(s, k);
    text::lemma_part(s, a, b);
    assert(t == s.subrange(a, b));
    indent::lemma_spaces(t, 0);
    text::lemma_ends_boundary(t);
    text::lemma_skip_ws_back(t, t.len() as int);
    if sp > 0 {
        text::lemma_ascii_boundary(t, sp - 1);
    }
    if indent::tabbed(t) {
        text::lemma_ascii_boundary(t, sp);
    }
    assert(text::boundary(t, sp));
    assert(text::boundary(s, a + sp));
    assert(text::boundary(s, a + text::trim_end(t).len()));
    if verdicts(s)[k].flaw == Flaw::Jump {
        indent::lemma_spaces_before_end(t);
    }
}

proof fn lemma_verdict_tab(lines: Seq<Seq<u8>>, i: int, depth: int, open: Option<int>, k: int)
    requires
        0 <= i <= k < lines.len(),
    ensures
        verdicts_from(lines, i, depth, open)[k - i].flaw == Flaw::Tab ==> indent::tabbed(lines[k]),
        verdicts_from(lines, i, depth, open)[k - i].flaw == Flaw::Jump ==> text::trim(lines[k]).len()
            > 0,
    decreases k - i,
{
    let j = judged(lines[i], depth, open);
    if i < k {
        lemma_verdict_tab(lines, i + 1, j.1, j.2, k);
        lemma_verdicts_len(lines, i + 1, j.1, j.2);
        assert(verdicts_from(lines, i, depth, open)[k - i] == verdicts_from(
            lines,
            i + 1,
            j.1,
            j.2,
        )[k - i - 1]);
    }
}

proof fn lemma_indentation_sound(s: Seq<u8>, k: int)
    requires
        valid_utf8(s),
        s.len() <= usize::MAX,
        0 <= k <= indent::lines(s).len(),
    ensures
        all_sound(s, indentation_upto(s, k)),
    decreases k,
{
    if k > 0 {
        lemma_indentation_sound(s, k - 1);
        lemma_verdict_tab(indent::texts(s), 0, 0, None, k - 1);
        lemma_flaw_sound(s, k - 1);
    }
}

proof fn lemma_errors_sound(s: Seq<u8>, k: int)
    requires
        valid_utf8(s),
        s.len() <= usize::MAX,
        0 <= k <= syntax::stmts(s).len(),
    ensures
        all_sound(s, errors_upto(syntax::stmts(s), k)),
    decreases k,
{
    if k > 0 {
        lemma_errors_sound(s, k - 1);
        syntax::lemma_stmts(s);
        assert(syntax::stmt_ok(s, syntax::stmts(s)[k - 1]));
    }
}

proof fn lemma_after_child_sound(s: Seq<u8>, i: int, j: int, seen: bool)
    requires
        valid_utf8(s),
        s.len() <= usize::MAX,
        0 <= j,
    ensures
        all_sound(s, after_child_from(syntax::stmts(s), i, j, seen)),
    decreases syntax::stmts(s).len() - j,
{
    if j < syntax::stmts(s).len() {
        lemma_after_child_sound(s, i, j + 1, seen);
        lemma_after_child_sound(s, i, j + 1, true);
        syntax::lemma_stmts(s);
        assert(syntax::stmt_ok(s, syntax::stmts(s)[j]));
    }
}

proof fn lemma_states_sound(s: Seq<u8>, i: int, k: int)
    requires
        valid_utf8(s),
        s.len() <= usize::MAX,
        0 <= i < syntax::stmts(s).len(),
        syntax::stmts(s)[i].kind == StmtKind::StateSelector,
        0 <= k <= syntax::states_from(syntax::cut(s, syntax::stmts(s)[i].span), 1).len(),
    ensures
        all_sound(
            s,
            states_upto(
                syntax::cut(s, syntax::stmts(s)[i].span),
                syntax::stmts(s)[i].span.start as int,
                k,
            ),
        ),
    decreases k,
{
    if k > 0 {
        lemma_states_sound(s, i, k - 1);
        syntax::lemma_selector(s, i);
        let st = syntax::stmts(s)[i];
        let h = syntax::cut(s, st.span);
        let p = syntax::states_from(h, 1)[k - 1];
        text::lemma_part(s, st.span.start as int, st.span.end as int);
        assert(text::boundary(s, st.span.start + p.0));
        assert(text::boundary(s, st.span.start + p.1));
    }
}

proof fn lemma_literal_value(s: Seq<u8>, i: int)
    requires
        valid_utf8(s),
        s.len() <= usize::MAX,
        0 <= i < syntax::stmts(s).len(),
    ensures
        literal_value(s, syntax::stmts(s)[i]) matches Some(p) ==> 0 <= p.0 < p.1 && text::boundary(
            s,
            p.0,
        ) && text::boundary(s, p.1),
{
    syntax::lemma_stmts(s);
    assert(syntax::stmt_ok(s, syntax::stmts(s)[i]));
    if let Some(v) = syntax::stmts(s)[i].value {
        text::lemma_trim_at(s, v.start as int, v.end as int);
    }
}

proof fn lemma_target_sound(s: Seq<u8>, i: int)
    requires
        valid_utf8(s),
        s.len() <= usize::MAX,
        0 <= i < syntax::stmts(s).len(),
    ensures
        all_sound(s, anchor_target_findings(s, syntax::stmts(s)[i])),
{
    syntax::lemma_stmts(s);
    let st = syntax::stmts(s)[i];
    assert(syntax::stmt_ok(s, st));
    if let Some(v) = st.value {
        let target = syntax::cut(s, v);
        if dots(target, 0) == 1 {
            lemma_dots(target, 0);
            text::lemma_find_byte(target, ascii::DOT, 0);
            text::lemma_part(s, v.start as int, v.end as int);
            let dot = text::find_byte(target, ascii::DOT, 0)->0;
            text::lemma_ascii_boundary(target, dot);
            assert(text::boundary(s, v.start + (dot + 1)));
        }
    }
}

proof fn lemma_anchor_sound(s: Seq<u8>, stmts: Seq<Stmt>, i: int)
    requires
        syntax::in_text(s, stmts[i].key),
    ensures
        all_sound(s, anchor_layout_findings(s, stmts, i)),
        all_sound(s, anchor_edge_findings(s, stmts[i])),
{
}

proof fn lemma_key_sound(s: Seq<u8>, stmts: Seq<Stmt>, w: Option<Workspace>, i: int)
    requires
        syntax::in_text(s, stmts[i].key),
    ensures
        all_sound(s, key_findings(s, stmts, w, i)),
{
}

proof fn lemma_layout_sound(s: Seq<u8>, i: int)
    requires
        valid_utf8(s),
        s.len() <= usize::MAX,
        0 <= i < syntax::stmts(s).len(),
    ensures
        all_sound(s, layout_value_findings(s, syntax::stmts(s), i)),
{
    let stmts = syntax::stmts(s);
    lemma_literal_value(s, i);
    style_index::lemma_find_property(s, stmts, i, "type".spec_bytes(), 0);
    if let Some(t) = style_index::find_property(s, stmts, i, "type".spec_bytes(), 0) {
        lemma_literal_value(s, t);
    }
}

proof fn lemma_value_sound(s: Seq<u8>, i: int)
    requires
        valid_utf8(s),
        s.len() <= usize::MAX,
        0 <= i < syntax::stmts(s).len(),
    ensures
        all_sound(s, value_findings(s, syntax::stmts(s), i)),
{
    lemma_layout_sound(s, i);
    lemma_literal_value(s, i);
}

proof fn lemma_both_sound(s: Seq<u8>, a: Seq<DiagnosticView>, b: Seq<DiagnosticView>)
    requires
        all_sound(s, a),
        all_sound(s, b),
    ensures
        all_sound(s, a + b),
{
}

proof fn lemma_key_in_text(s: Seq<u8>, i: int)
    requires
        valid_utf8(s),
        s.len() <= usize::MAX,
        0 <= i < syntax::stmts(s).len(),
    ensures
        syntax::in_text(s, syntax::stmts(s)[i].key),
{
    syntax::lemma_stmts(s);
    assert(syntax::stmt_ok(s, syntax::stmts(s)[i]));
}

proof fn lemma_selector_sound(s: Seq<u8>, i: int)
    requires
        valid_utf8(s),
        s.len() <= usize::MAX,
        0 <= i < syntax::stmts(s).len(),
        syntax::stmts(s)[i].kind == StmtKind::StateSelector,
    ensures
        all_sound(s, state_findings(s, syntax::stmts(s)[i])),
{
    let st = syntax::stmts(s)[i];
    lemma_states_sound(s, i, syntax::states_from(syntax::cut(s, st.span), 1).len() as int);
}

proof fn lemma_anchors_sound(s: Seq<u8>, i: int)
    requires
        valid_utf8(s),
        s.len() <= usize::MAX,
        0 <= i < syntax::stmts(s).len(),
    ensures
        all_sound(s, anchor_findings(s, syntax::stmts(s), i)),
{
    let stmts = syntax::stmts(s);
    let layout = anchor_layout_findings(s, stmts, i);
    let edge = anchor_edge_findings(s, stmts[i]);
    lemma_key_in_text(s, i);
    lemma_anchor_sound(s, stmts, i);
    lemma_target_sound(s, i);
    lemma_both_sound(s, layout, edge);
    lemma_both_sound(s, layout + edge, anchor_target_findings(s, stmts[i]));
}

proof fn lemma_property_sound(s: Seq<u8>, w: Option<Workspace>, i: int)
    requires
        valid_utf8(s),
        s.len() <= usize::MAX,
        0 <= i < syntax::stmts(s).len(),
    ensures
        all_sound(s, key_findings(s, syntax::stmts(s), w, i)),
        all_sound(
            s,
            key_findings(s, syntax::stmts(s), w, i) + value_findings(s, syntax::stmts(s), i),
        ),
{
    let stmts = syntax::stmts(s);
    lemma_key_in_text(s, i);
    lemma_key_sound(s, stmts, w, i);
    lemma_value_sound(s, i);
    lemma_both_sound(s, key_findings(s, stmts, w, i), value_findings(s, stmts, i));
}

proof fn lemma_own_sound(s: Seq<u8>, w: Option<Workspace>, i: int)
    requires
        valid_utf8(s),
        s.len() <= usize::MAX,
        0 <= i < syntax::stmts(s).len(),
    ensures
        all_sound(s, own_findings(s, syntax::stmts(s), w, i)),
{
    match syntax::stmts(s)[i].kind {
        StmtKind::StateSelector => {
            lemma_selector_sound(s, i);
        },
        StmtKind::AnchorProperty => {
            lemma_anchors_sound(s, i);
        },
        StmtKind::Property => {
            lemma_property_sound(s, w, i);
        },
        _ => {},
    }
}

proof fn lemma_semantic_sound(s: Seq<u8>, w: Option<Workspace>, k: int)
    requires
        valid_utf8(s),
        s.len() <= usize::MAX,
        0 <= k <= syntax::stmts(s).len(),
    ensures
        all_sound(s, semantic_upto(s, syntax::stmts(s), w, k)),
    decreases k,
{
    if k > 0 {
        lemma_semantic_sound(s, w, k - 1);
        lemma_after_child_sound(s, k - 1, 0, false);
        lemma_own_sound(s, w, k - 1);
    }
}

proof fn lemma_resolution_sound(s: Seq<u8>, w: Workspace, k: int)
    requires
        valid_utf8(s),
        s.len() <= usize::MAX,
        0 <= k <= syntax::stmts(s).len(),
    ensures
        all_sound(s, resolution_upto(s, syntax::stmts(s), w, k)),
    decreases k,
{
    if k > 0 {
        lemma_resolution_sound(s, w, k - 1);
        syntax::lemma_stmts(s);
        assert(syntax::stmt_ok(s, syntax::stmts(s)[k - 1]));
        syntax::lemma_header_base(s, k - 1);
    }
}

proof fn lemma_sorted_sound(s: Seq<u8>, raw: Seq<DiagnosticView>)
    requires
        all_sound(s, raw),
    ensures
        all_sound(s, order::stable_sort(raw)),
{
    let sorted = order::stable_sort(raw);
    order::law_stable_sort(raw);
    assert forall|i: int| 0 <= i < sorted.len() implies sound(s, #[trigger] sorted[i]) by {
        broadcast use vstd::seq_lib::group_to_multiset_ensures;

        assert(sorted.contains(sorted[i]));
        assert(raw.to_multiset().count(sorted[i]) > 0);
        assert(raw.contains(sorted[i]));
    }
}

/// The findings are ordered by place, each lies in the text, and each severity comes with codes of
/// its own: what keeps a file from loading is an error, a base that cannot be found a warning, and
/// what the engine ignores a hint.
pub proof fn law_findings(s: Seq<u8>, w: Option<Workspace>)
    requires
        valid_utf8(s),
        s.len() <= usize::MAX,
    ensures
        order::is_sorted(findings(s, w)),
        all_sound(s, findings(s, w)),
{
    let raw = raw_findings(s, w);
    let n = syntax::stmts(s).len() as int;
    lemma_indentation_sound(s, indent::lines(s).len() as int);
    lemma_errors_sound(s, n);
    lemma_semantic_sound(s, w, n);
    if let Some(ws) = w {
        lemma_resolution_sound(s, ws, n);
    }
    lemma_sorted_sound(s, raw);
    order::law_stable_sort(raw);
}

/// The findings that every kind of document shares lie in the text.
pub proof fn law_structural_findings(s: Seq<u8>)
    requires
        valid_utf8(s),
        s.len() <= usize::MAX,
    ensures
        all_sound(s, structural_findings(s)),
        all_sound(s, order::stable_sort(structural_findings(s))),
{
    lemma_indentation_sound(s, indent::lines(s).len() as int);
    lemma_errors_sound(s, syntax::stmts(s).len() as int);
    lemma_sorted_sound(s, structural_findings(s));
}

/// The workspace changes the findings about a statement in one way only: a property that the engine
/// does not know is accepted where the widget reads it in Lua.
pub proof fn law_workspace_accepts_lua_properties(
    s: Seq<u8>,
    stmts: Seq<Stmt>,
    w: Workspace,
    i: int,
)
    ensures
        own_findings(s, stmts, Some(w), i) == if stmts[i].kind == StmtKind::Property
            && !nodes::in_block(s, stmts, i, "layout".spec_bytes()) && lua_accepts(
            s,
            stmts,
            Some(w),
            i,
            nodes::key_of(s, stmts[i]),
        ) {
            value_findings(s, stmts, i)
        } else {
            own_findings(s, stmts, None, i)
        },
{
    assert(Seq::<DiagnosticView>::empty() + value_findings(s, stmts, i) =~= value_findings(
        s,
        stmts,
        i,
    ));
}

/// Whether the top level of a document names nothing but classes.
pub open spec fn names_classes_only(s: Seq<u8>) -> bool {
    forall|i: int|
        0 <= i < syntax::stmts(s).len() && style_index::widget(#[trigger] syntax::stmts(s)[i])
            && syntax::stmts(s)[i].parent is None ==> style_index::native(
            text::chars_of(widget_resolve::type_of(s, syntax::stmts(s)[i])),
        )
}

proof fn lemma_semantic_without_lua(s: Seq<u8>, w: Workspace, k: int)
    requires
        w.lua.len() == 0,
        0 <= k <= syntax::stmts(s).len(),
    ensures
        semantic_upto(s, syntax::stmts(s), Some(w), k) == semantic_upto(
            s,
            syntax::stmts(s),
            None,
            k,
        ),
    decreases k,
{
    if k > 0 {
        let stmts = syntax::stmts(s);
        lemma_semantic_without_lua(s, w, k - 1);
        law_workspace_accepts_lua_properties(s, stmts, w, k - 1);
        let key = nodes::key_of(s, stmts[k - 1]);
        if lua_accepts(s, stmts, Some(w), k - 1, key) {
            let name = scope_type(s, stmts, w, stmts[k - 1].parent->0 as int)->0;
            let chain = widget_resolve::ancestry(w.styles, w.lua, name);
            let j = choose|j: int|
                0 <= j < chain.len() && #[trigger] lua_widgets::declares_in(w.lua, chain[j], key);
            assert(lua_widgets::declares_in(w.lua, chain[j], key));
            assert(lua_widgets::all_defs(w.lua).len() == 0);
        }
    }
}

proof fn lemma_resolution_of_classes(s: Seq<u8>, w: Workspace, k: int)
    requires
        names_classes_only(s),
        0 <= k <= syntax::stmts(s).len(),
    ensures
        resolution_upto(s, syntax::stmts(s), w, k).len() == 0,
    decreases k,
{
    if k > 0 {
        lemma_resolution_of_classes(s, w, k - 1);
        assert(syntax::stmts(s)[k - 1] == syntax::stmts(s)[k - 1]);
    }
}

/// In an empty workspace a document has the findings that it has on its own, where its top level
/// names nothing but classes: any other name cannot be found in an empty workspace.
pub proof fn law_empty_workspace(s: Seq<u8>, w: Workspace)
    requires
        w.styles.len() == 0,
        w.lua.len() == 0,
        names_classes_only(s),
    ensures
        findings(s, Some(w)) == findings(s, None),
{
    let n = syntax::stmts(s).len() as int;
    lemma_semantic_without_lua(s, w, n);
    lemma_resolution_of_classes(s, w, n);
    assert(raw_findings(s, Some(w)) =~= raw_findings(s, None));
}

// ---------------------------------------------------------------------------------------------
// The passes
// ---------------------------------------------------------------------------------------------

/// Adds a finding.
fn report(
    out: &mut Vec<Diagnostic>,
    severity: Severity,
    code: &'static str,
    message: String,
    span: ByteSpan,
)
    ensures
        lang_api::views(final(out)@) == lang_api::views(old(out)@).push(
            (DiagnosticView { severity, code: code@, message: message@, span }),
        ),
{
    let d = Diagnostic { severity, code, message, span };
    proof {
        lang_api::lemma_views_push(out@, d);
    }
    out.push(d);
}

/// The model of the block scalar that is open.
spec fn open_of(open: Option<usize>) -> Option<int> {
    match open {
        Some(sp) => Some(sp as int),
        None => None,
    }
}

/// What is wrong with the white space in front of a line.
fn check_indent_chars(t: &str) -> (r: Flaw)
    ensures
        r == space_flaw(t.spec_bytes()),
{
    if has_tab_indent(t) {
        Flaw::Tab
    } else if leading_spaces(t) % 2 != 0 {
        Flaw::Odd
    } else {
        Flaw::Fine
    }
}

/// What the pass makes of a line.
fn judge(t: &str, depth: usize, open: Option<usize>) -> (r: (Verdict, usize, Option<usize>))
    requires
        depth <= usize::MAX / 2,
    ensures
        (r.0, r.1 as int, open_of(r.2)) == judged(t.spec_bytes(), depth as int, open_of(open)),
        r.1 <= usize::MAX / 2,
{
    let text = trimmed(t);
    let blank: bool = text.as_bytes().len() == 0;
    let sp: usize = leading_spaces(t);
    let content: bool = match open {
        Some(limit) => blank || sp > limit,
        None => false,
    };
    if content {
        return (Verdict { structural: false, flaw: Flaw::Fine }, depth, open);
    }
    if blank {
        return (Verdict { structural: false, flaw: Flaw::Fine }, depth, None);
    }
    let mut flaw = check_indent_chars(t);
    if is_comment(text) {
        return (Verdict { structural: false, flaw }, depth, None);
    }
    if flaw == Flaw::Fine && sp / 2 > depth + 1 {
        flaw = Flaw::Jump;
    }
    let next: Option<usize> = if is_block_scalar_marker(line_value(text)) {
        Some(sp)
    } else {
        None
    };
    (Verdict { structural: true, flaw }, sp / 2, next)
}

/// Adds the finding about a line.
fn report_flaw(out: &mut Vec<Diagnostic>, line: &Line, flaw: Flaw)
    requires
        line.start + line.text.spec_bytes().len() <= usize::MAX,
        flaw == Flaw::Tab ==> indent::tabbed(line.text.spec_bytes()),
    ensures
        lang_api::views(final(out)@) == lang_api::views(old(out)@) + flaw_findings(
            line.start as int,
            line.text.spec_bytes(),
            flaw,
        ),
{
    let sp: usize = leading_spaces(line.text);
    let end: usize = trimmed_end(line.text).as_bytes().len();
    proof {
        indent::lemma_spaces(line.text.spec_bytes(), 0);
        text::lemma_valid(line.text);
        text::lemma_ends_boundary(line.text.spec_bytes());
        text::lemma_skip_ws_back(line.text.spec_bytes(), line.text.spec_bytes().len() as int);
    }
    match flaw {
        Flaw::Fine => {},
        Flaw::Tab => {
            report(
                out,
                Severity::Error,
                TAB_INDENTATION,
                "indentation with tabs is not allowed".to_owned(),
                ByteSpan::new(line.start + sp, line.start + sp + 1),
            );
        },
        Flaw::Odd => {
            report(
                out,
                Severity::Error,
                ODD_INDENTATION,
                "indentation must be a multiple of 2 spaces".to_owned(),
                ByteSpan::new(line.start, line.start + sp),
            );
        },
        Flaw::Jump => {
            report(
                out,
                Severity::Error,
                INVALID_INDENTATION_DEPTH,
                "invalid indentation depth".to_owned(),
                ByteSpan::new(line.start + sp, line.start + end),
            );
        },
    }
}

/// The findings about the indentation of a document.
fn indentation_pass(source: &str) -> (out: Vec<Diagnostic>)
    ensures
        lang_api::views(out@) == indentation_findings(source.spec_bytes()),
{
    let ghost s = source.spec_bytes();
    let ghost all = indent::texts(s);
    let lines = split_lines(source);
    let n: usize = source.as_bytes().len();
    let mut out: Vec<Diagnostic> = Vec::new();
    let mut depth: usize = 0;
    let mut open: Option<usize> = None;
    let mut i: usize = 0;
    proof {
        lemma_verdicts_len(all, 0, 0, None);
        assert(verdicts(s).skip(0) =~= verdicts(s));
        assert(lang_api::views(out@) =~= Seq::empty());
    }
    while i < lines.len()
        invariant
            s == source.spec_bytes(),
            all == indent::texts(s),
            s.len() <= usize::MAX,
            i <= lines@.len(),
            indent::are_lines(lines@, s),
            lines@.len() == all.len(),
            verdicts(s).len() == all.len(),
            depth <= usize::MAX / 2,
            verdicts(s).skip(i as int) == verdicts_from(all, i as int, depth as int, open_of(open)),
            lang_api::views(out@) == indentation_upto(s, i as int),
        decreases lines@.len() - i,
    {
        let line = &lines[i];
        let ghost j = judged(all[i as int], depth as int, open_of(open));
        let ghost rest = verdicts_from(all, i + 1, j.1, j.2);
        let (verdict, next_depth, next_open) = judge(line.text, depth, open);
        proof {
            assert(verdicts(s).skip(i as int)[0] == j.0);
            assert(verdicts(s).skip(i + 1) =~= verdicts(s).skip(i as int).skip(1));
            assert((seq![j.0] + rest).skip(1) =~= rest);
        }
        report_flaw(&mut out, line, verdict.flaw);
        depth = next_depth;
        open = next_open;
        i += 1;
    }
    out
}

/// Whether `offset` lies on a line of structure whose indentation is in order.
pub fn line_indentation_is_valid(source: &str, offset: usize) -> (r: bool)
    ensures
        r == well_indented_at(source.spec_bytes(), offset as int),
{
    let ghost s = source.spec_bytes();
    let ghost all = indent::texts(s);
    let lines = split_lines(source);
    let n: usize = source.as_bytes().len();
    let mut depth: usize = 0;
    let mut open: Option<usize> = None;
    let mut i: usize = 0;
    proof {
        lemma_verdicts_len(all, 0, 0, None);
        assert(verdicts(s).skip(0) =~= verdicts(s));
    }
    while i < lines.len()
        invariant
            s == source.spec_bytes(),
            all == indent::texts(s),
            s.len() <= usize::MAX,
            i <= lines@.len(),
            indent::are_lines(lines@, s),
            lines@.len() == all.len(),
            verdicts(s).len() == all.len(),
            depth <= usize::MAX / 2,
            verdicts(s).skip(i as int) == verdicts_from(all, i as int, depth as int, open_of(open)),
            forall|k: int| 0 <= k < i ==> !#[trigger] on_line(s, k, offset as int),
        decreases lines@.len() - i,
    {
        let line = &lines[i];
        let ghost j = judged(all[i as int], depth as int, open_of(open));
        let ghost rest = verdicts_from(all, i + 1, j.1, j.2);
        let (verdict, next_depth, next_open) = judge(line.text, depth, open);
        proof {
            assert(verdicts(s).skip(i as int)[0] == j.0);
            assert(verdicts(s).skip(i + 1) =~= verdicts(s).skip(i as int).skip(1));
            assert((seq![j.0] + rest).skip(1) =~= rest);
        }
        if line.start <= offset && offset <= line.start + line.text.as_bytes().len() {
            assert(on_line(s, i as int, offset as int));
            proof {
                assert forall|k: int|
                    0 <= k < indent::lines(s).len() && #[trigger] on_line(
                        s,
                        k,
                        offset as int,
                    ) implies k == i by {
                    lemma_one_line(s, k, i as int, offset as int);
                }
            }
            return verdict.structural && verdict.flaw == Flaw::Fine;
        }
        depth = next_depth;
        open = next_open;
        i += 1;
    }
    false
}

/// Adds the findings about lines that fit no kind.
fn collect_structural_errors(stmts: &[Stmt], out: &mut Vec<Diagnostic>)
    ensures
        lang_api::views(final(out)@) == lang_api::views(old(out)@) + errors_upto(
            stmts@,
            stmts@.len() as int,
        ),
{
    let ghost before = lang_api::views(out@);
    let mut i: usize = 0;
    assert(before + errors_upto(stmts@, 0) =~= before);
    while i < stmts.len()
        invariant
            i <= stmts@.len(),
            lang_api::views(out@) == before + errors_upto(stmts@, i as int),
        decreases stmts@.len() - i,
    {
        if stmts[i].kind == StmtKind::Error {
            report(out, Severity::Error, SYNTAX_ERROR, "syntax error".to_owned(), stmts[i].span);
        }
        i += 1;
        assert(lang_api::views(out@) =~= before + errors_upto(stmts@, i as int));
    }
}

/// Adds the findings about properties below a child widget in the body of statement `i`.
fn check_property_after_child(stmts: &[Stmt], i: usize, out: &mut Vec<Diagnostic>)
    requires
        i < stmts@.len(),
    ensures
        lang_api::views(final(out)@) == lang_api::views(old(out)@) + after_child(stmts@, i as int),
{
    let ghost before = lang_api::views(out@);
    let ghost whole = before + after_child_from(stmts@, i as int, 0, false);
    if !is_widget(&stmts[i]) {
        assert(before + Seq::<DiagnosticView>::empty() =~= before);
        return;
    }
    let mut seen: bool = false;
    let mut j: usize = 0;
    while j < stmts.len()
        invariant
            j <= stmts@.len(),
            whole == lang_api::views(old(out)@) + after_child(stmts@, i as int),
            lang_api::views(out@) + after_child_from(stmts@, i as int, j as int, seen) == whole,
        decreases stmts@.len() - j,
    {
        let st = &stmts[j];
        if is_child(st, i) {
            if st.kind == StmtKind::Error {
                assert(lang_api::views(out@) =~= whole);
                return;
            }
            let ghost had = lang_api::views(out@);
            let ghost rest = after_child_from(stmts@, i as int, j + 1, seen);
            if is_widget(st) {
                seen = true;
            } else if st.kind == StmtKind::Property && seen {
                report(
                    out,
                    Severity::Hint,
                    PROPERTY_AFTER_CHILD,
                    "property declared after a child widget: the engine applies all of a widget's properties before creating any of its children, so this has no effect on behavior — purely a readability issue".to_owned(),
                    st.key,
                );
                proof {
                    let d = lang_api::views(out@).last();
                    assert(had.push(d) + rest =~= had + (seq![d] + rest));
                }
            }
        }
        j += 1;
    }
    assert(lang_api::views(out@) =~= whole);
}

/// Adds the findings about the states of a selector.
fn check_state_selector(source: &str, stmts: &[Stmt], i: usize, out: &mut Vec<Diagnostic>)
    requires
        stmts@ == syntax::stmts(source.spec_bytes()),
        i < stmts@.len(),
        stmts@[i as int].kind == StmtKind::StateSelector,
    ensures
        lang_api::views(final(out)@) == lang_api::views(old(out)@) + state_findings(
            source.spec_bytes(),
            stmts@[i as int],
        ),
{
    let ghost s = source.spec_bytes();
    let len: usize = source.as_bytes().len();
    proof {
        text::lemma_valid(source);
        syntax::lemma_selector(s, i as int);
    }
    let st = &stmts[i];
    let h = span_text(source, st.span);
    let n: usize = h.as_bytes().len();
    let names = state_names(h);
    let ghost model = syntax::states_from(h.spec_bytes(), 1);
    assert(model.len() == names@.len());
    let a: usize = st.span.start;
    let ghost before = lang_api::views(out@);
    let mut k: usize = 0;
    assert(before + states_upto(h.spec_bytes(), a as int, 0) =~= before);
    while k < names.len()
        invariant
            k <= names@.len(),
            n == h.spec_bytes().len(),
            a + n <= usize::MAX,
            model == syntax::states_from(h.spec_bytes(), 1),
            model == names@.map_values(|p: (usize, usize)| (p.0 as int, p.1 as int)),
            forall|j: int|
                0 <= j < model.len() ==> {
                    let p = #[trigger] model[j];
                    &&& p.0 <= p.1
                    &&& text::boundary(h.spec_bytes(), p.0)
                    &&& text::boundary(h.spec_bytes(), p.1)
                },
            lang_api::views(out@) == before + states_upto(h.spec_bytes(), a as int, k as int),
        decreases names@.len() - k,
    {
        let (from, to) = names[k];
        assert(model[k as int] == (from as int, to as int));
        let name = substr(h, from, to);
        if !is_known_state(name) {
            report(
                out,
                Severity::Hint,
                UNKNOWN_STATE,
                join3("unknown state `", name, "`: never matches at runtime"),
                ByteSpan::new(a + from, a + to),
            );
        }
        k += 1;
        assert(lang_api::views(out@) =~= before + states_upto(h.spec_bytes(), a as int, k as int));
    }
}

/// Where the value of statement `i` lies, when it is neither missing nor the name of a variable.
fn leaf_value(source: &str, stmts: &[Stmt], i: usize) -> (r: Option<(usize, usize)>)
    requires
        stmts@ == syntax::stmts(source.spec_bytes()),
        i < stmts@.len(),
    ensures
        match r {
            Some(p) => literal_value(source.spec_bytes(), stmts@[i as int]) == Some(
                (p.0 as int, p.1 as int),
            ) && p.0 < p.1 && text::boundary(source.spec_bytes(), p.0 as int) && text::boundary(
                source.spec_bytes(),
                p.1 as int,
            ),
            None => literal_value(source.spec_bytes(), stmts@[i as int]) is None,
        },
{
    let b = source.as_bytes();
    let len: usize = b.len();
    proof {
        nodes::lemma_document(source);
        assert(syntax::stmt_ok(source.spec_bytes(), stmts@[i as int]));
    }
    match stmts[i].value {
        Some(v) => {
            proof {
                text::lemma_trim_at(source.spec_bytes(), v.start as int, v.end as int);
            }
            let (from, to) = trim_range(source, v.start, v.end);
            if from < to && b[from] != ascii::DOLLAR {
                Some((from, to))
            } else {
                None
            }
        },
        None => None,
    }
}

/// The layout that the widget at statement `w` declares.
fn declared_layout_type(source: &str, stmts: &[Stmt], w: usize) -> (r: Option<(usize, usize)>)
    requires
        stmts@ == syntax::stmts(source.spec_bytes()),
        w < stmts@.len(),
    ensures
        match r {
            Some(p) => declared_layout(source.spec_bytes(), stmts@, w as int) == Some(
                (p.0 as int, p.1 as int),
            ) && p.0 < p.1 && text::boundary(source.spec_bytes(), p.0 as int) && text::boundary(
                source.spec_bytes(),
                p.1 as int,
            ),
            None => declared_layout(source.spec_bytes(), stmts@, w as int) is None,
        },
{
    match property_named(source, stmts, w, "layout") {
        Some(l) => {
            if stmts[l].value.is_some() {
                return leaf_value(source, stmts, l);
            }
            match property_named(source, stmts, l, "type") {
                Some(t) => leaf_value(source, stmts, t),
                None => None,
            }
        },
        None => None,
    }
}

/// Adds the finding about an anchor below a widget that does not place its children by anchors.
fn check_anchor_parent_layout(source: &str, stmts: &[Stmt], i: usize, out: &mut Vec<Diagnostic>)
    requires
        stmts@ == syntax::stmts(source.spec_bytes()),
        i < stmts@.len(),
    ensures
        lang_api::views(final(out)@) == lang_api::views(old(out)@) + anchor_layout_findings(
            source.spec_bytes(),
            stmts@,
            i as int,
        ),
{
    let ghost before = lang_api::views(out@);
    assert(before + Seq::<DiagnosticView>::empty() =~= before);
    if let Some(w) = enclosing_widget(stmts, i) {
        if let Some(parent) = enclosing_widget(stmts, w) {
            if let Some((from, to)) = declared_layout_type(source, stmts, parent) {
                let name = substr(source, from, to);
                if !same_str(name, "anchor") && is_layout_type(name) {
                    report(
                        out,
                        Severity::Error,
                        ANCHOR_PARENT_NO_ANCHOR_LAYOUT,
                        join3(
                            "cannot anchor: the parent widget uses `",
                            name,
                            "` layout, not an anchor layout",
                        ),
                        stmts[i].key,
                    );
                }
            }
        }
    }
}

/// The number of dots in `t`.
fn count_dots(t: &str) -> (n: usize)
    ensures
        n == dots(t.spec_bytes(), 0),
{
    let b = t.as_bytes();
    let mut n: usize = 0;
    let mut i: usize = 0;
    while i < b.len()
        invariant
            b@ == t.spec_bytes(),
            n <= i <= b@.len(),
            n + dots(b@, i as int) == dots(b@, 0),
        decreases b@.len() - i,
    {
        if b[i] == ascii::DOT {
            n += 1;
        }
        i += 1;
    }
    n
}

proof fn lemma_dots(t: Seq<u8>, i: int)
    requires
        0 <= i,
    ensures
        dots(t, i) >= 0,
        dots(t, i) > 0 ==> text::find_byte(t, ascii::DOT, i) is Some,
    decreases t.len() - i,
{
    if i < t.len() {
        lemma_dots(t, i + 1);
    }
}

/// Adds the finding about the edge of an anchor.
fn check_anchor_key(source: &str, stmts: &[Stmt], i: usize, out: &mut Vec<Diagnostic>)
    requires
        stmts@ == syntax::stmts(source.spec_bytes()),
        i < stmts@.len(),
    ensures
        lang_api::views(final(out)@) == lang_api::views(old(out)@) + anchor_edge_findings(
            source.spec_bytes(),
            stmts@[i as int],
        ),
{
    assert(lang_api::views(out@) + Seq::<DiagnosticView>::empty() =~= lang_api::views(out@));
    let edge = key_text(source, stmts, i);
    if !is_anchor_edge(edge) && !is_shorthand_anchor(edge) {
        report(
            out,
            Severity::Error,
            INVALID_ANCHOR_EDGE,
            join3("`", edge, "` is not a valid anchor edge"),
            stmts[i].key,
        );
    }
}

/// Adds the finding about the target of an anchor.
fn check_anchor_target(source: &str, stmts: &[Stmt], i: usize, out: &mut Vec<Diagnostic>)
    requires
        stmts@ == syntax::stmts(source.spec_bytes()),
        i < stmts@.len(),
    ensures
        lang_api::views(final(out)@) == lang_api::views(old(out)@) + anchor_target_findings(
            source.spec_bytes(),
            stmts@[i as int],
        ),
{
    assert(lang_api::views(out@) + Seq::<DiagnosticView>::empty() =~= lang_api::views(out@));
    let n: usize = source.as_bytes().len();
    proof {
        nodes::lemma_document(source);
        assert(syntax::stmt_ok(source.spec_bytes(), stmts@[i as int]));
    }
    if let Some(v) = stmts[i].value {
        let target = span_text(source, v);
        let len: usize = target.as_bytes().len();
        if same_str(target, "none") || is_shorthand_anchor(key_text(source, stmts, i)) {
            return;
        }
        if count_dots(target) != 1 {
            report(
                out,
                Severity::Error,
                INVALID_ANCHOR_EDGE,
                join3("`", target, "` is not a valid anchor target: expected `<id>.<edge>`"),
                v,
            );
            return;
        }
        proof {
            lemma_dots(target.spec_bytes(), 0);
            text::lemma_valid(target);
        }
        if let Some(dot) = find_byte_at(target.as_bytes(), ascii::DOT, 0) {
            proof {
                text::lemma_ascii_boundary(target.spec_bytes(), dot as int);
                text::lemma_ends_boundary(target.spec_bytes());
            }
            let edge = substr(target, dot + 1, len);
            if edge.as_bytes().len() > 0 && !is_anchor_edge(edge) {
                report(
                    out,
                    Severity::Error,
                    INVALID_ANCHOR_EDGE,
                    join3("`", edge, "` is not a valid anchor edge"),
                    ByteSpan::new(v.start + dot + 1, v.end),
                );
            }
        }
    }
}

/// Adds the findings about an anchor.
fn check_anchor_property(source: &str, stmts: &[Stmt], i: usize, out: &mut Vec<Diagnostic>)
    requires
        stmts@ == syntax::stmts(source.spec_bytes()),
        i < stmts@.len(),
    ensures
        lang_api::views(final(out)@) == lang_api::views(old(out)@) + anchor_findings(
            source.spec_bytes(),
            stmts@,
            i as int,
        ),
{
    let ghost before = lang_api::views(out@);
    check_anchor_parent_layout(source, stmts, i, out);
    check_anchor_key(source, stmts, i, out);
    check_anchor_target(source, stmts, i, out);
    assert(lang_api::views(out@) =~= before + anchor_findings(
        source.spec_bytes(),
        stmts@,
        i as int,
    ));
}

/// The type of the widget that the statements in the body of statement `p` belong to.
fn enclosing_type(source: &str, stmts: &[Stmt], ctx: &WidgetContext, p: usize) -> (r: Option<String>)
    requires
        stmts@ == syntax::stmts(source.spec_bytes()),
        p < stmts@.len(),
    ensures
        style_index::opt_chars(r) == scope_type(source.spec_bytes(), stmts@, ctx@, p as int),
{
    let n: usize = source.as_bytes().len();
    let mut at: usize = p;
    loop
        invariant
            at < stmts@.len(),
            stmts@ == syntax::stmts(source.spec_bytes()),
            source.spec_bytes().len() <= usize::MAX,
            scope_type(source.spec_bytes(), stmts@, ctx@, at as int) == scope_type(
                source.spec_bytes(),
                stmts@,
                ctx@,
                p as int,
            ),
        decreases at,
    {
        let st = &stmts[at];
        if st.kind == StmtKind::StyleHeader {
            let name = key_text(source, stmts, at);
            if ctx.styles.declares(name) {
                return Some(name.to_owned());
            }
            proof {
                syntax::lemma_header_base(source.spec_bytes(), at as int);
            }
            return match value_text(source, stmts, at) {
                Some(base) => Some(base.to_owned()),
                None => None,
            };
        }
        if st.kind == StmtKind::Container {
            return Some(key_text(source, stmts, at).to_owned());
        }
        match st.parent {
            Some(q) => {
                if q >= at {
                    return None;
                }
                at = q;
            },
            None => {
                return None;
            },
        }
    }
}

/// Whether the widget that statement `i` belongs to reads the property `key` in Lua.
fn is_lua_property(
    source: &str,
    stmts: &[Stmt],
    ctx: Option<&WidgetContext>,
    i: usize,
    key: &str,
) -> (r: bool)
    requires
        stmts@ == syntax::stmts(source.spec_bytes()),
        i < stmts@.len(),
    ensures
        r == lua_accepts(
            source.spec_bytes(),
            stmts@,
            workspace(ctx),
            i as int,
            key.spec_bytes(),
        ),
{
    let n: usize = source.as_bytes().len();
    proof {
        nodes::lemma_document(source);
        assert(syntax::stmts(source.spec_bytes())[i as int] == stmts@[i as int]);
    }
    match ctx {
        Some(c) => match stmts[i].parent {
            Some(p) => match enclosing_type(source, stmts, c, p) {
                Some(name) => resolve_ancestry(
                    name.as_str(),
                    c.styles,
                    c.lua,
                ).declares_custom_property(c.lua, key),
                None => false,
            },
            None => false,
        },
        None => false,
    }
}

/// Adds the finding about the key of a property.
fn check_property(
    source: &str,
    stmts: &[Stmt],
    ctx: Option<&WidgetContext>,
    i: usize,
    out: &mut Vec<Diagnostic>,
)
    requires
        stmts@ == syntax::stmts(source.spec_bytes()),
        i < stmts@.len(),
    ensures
        lang_api::views(final(out)@) == lang_api::views(old(out)@) + key_findings(
            source.spec_bytes(),
            stmts@,
            workspace(ctx),
            i as int,
        ),
{
    assert(lang_api::views(out@) + Seq::<DiagnosticView>::empty() =~= lang_api::views(out@));
    let key = key_text(source, stmts, i);
    if is_in_block(source, stmts, i, "layout") {
        if !is_layout_block_property(key) {
            report(
                out,
                Severity::Hint,
                UNKNOWN_PROPERTY,
                join3(
                    "unknown layout property `",
                    key,
                    "`: ignored by the engine, has no effect",
                ),
                stmts[i].key,
            );
        }
        return;
    }
    if has_children(stmts, i) || is_known_property(key) || is_lua_property(
        source,
        stmts,
        ctx,
        i,
        key,
    ) {
        return;
    }
    report(
        out,
        Severity::Hint,
        UNKNOWN_PROPERTY,
        join3("unknown property `", key, "`: ignored by the engine, has no effect"),
        stmts[i].key,
    );
}

/// Adds a finding about a value.
fn push_invalid_value(out: &mut Vec<Diagnostic>, message: String, from: usize, to: usize)
    ensures
        lang_api::views(final(out)@) == lang_api::views(old(out)@) + value_finding(
            message@,
            (from as int, to as int),
        ),
{
    report(out, Severity::Error, INVALID_PROPERTY_VALUE, message, ByteSpan::new(from, to));
}

/// Adds the finding about a layout that the engine does not know.
fn check_layout_type(source: &str, from: usize, to: usize, out: &mut Vec<Diagnostic>)
    requires
        from <= to,
        text::boundary(source.spec_bytes(), from as int),
        text::boundary(source.spec_bytes(), to as int),
    ensures
        lang_api::views(final(out)@) == lang_api::views(old(out)@) + layout_findings(
            source.spec_bytes(),
            (from as int, to as int),
        ),
{
    assert(lang_api::views(out@) + Seq::<DiagnosticView>::empty() =~= lang_api::views(out@));
    let value = substr(source, from, to);
    if !is_layout_type(value) {
        push_invalid_value(out, join3("`", value, "` is not a valid `layout` type"), from, to);
    }
}

/// Adds the finding about the value of a `layout:` property, or of the `type:` in its body.
fn check_layout_value(source: &str, stmts: &[Stmt], i: usize, out: &mut Vec<Diagnostic>)
    requires
        stmts@ == syntax::stmts(source.spec_bytes()),
        i < stmts@.len(),
    ensures
        lang_api::views(final(out)@) == lang_api::views(old(out)@) + layout_value_findings(
            source.spec_bytes(),
            stmts@,
            i as int,
        ),
{
    assert(lang_api::views(out@) + Seq::<DiagnosticView>::empty() =~= lang_api::views(out@));
    if let Some((from, to)) = leaf_value(source, stmts, i) {
        check_layout_type(source, from, to, out);
        return;
    }
    if let Some(t) = property_named(source, stmts, i, "type") {
        if let Some((from, to)) = leaf_value(source, stmts, t) {
            check_layout_type(source, from, to, out);
        }
    }
}

/// Adds the finding about the value of a property.
fn check_property_value(source: &str, stmts: &[Stmt], i: usize, out: &mut Vec<Diagnostic>)
    requires
        stmts@ == syntax::stmts(source.spec_bytes()),
        i < stmts@.len(),
    ensures
        lang_api::views(final(out)@) == lang_api::views(old(out)@) + value_findings(
            source.spec_bytes(),
            stmts@,
            i as int,
        ),
{
    assert(lang_api::views(out@) + Seq::<DiagnosticView>::empty() =~= lang_api::views(out@));
    let key = key_text(source, stmts, i);
    if same_str(key, "layout") {
        check_layout_value(source, stmts, i, out);
        return;
    }
    if let Some((from, to)) = leaf_value(source, stmts, i) {
        let value = substr(source, from, to);
        if same_str(key, "display") {
            if !is_display_value(value) {
                push_invalid_value(
                    out,
                    join3("`", value, "` is not a valid `display` value"),
                    from,
                    to,
                );
            }
        } else if same_str(key, "border") {
            if !is_valid_border(value) {
                push_invalid_value(
                    out,
                    join3(
                        "`",
                        value,
                        "` is not a valid `border` value: expected a width and a color",
                    ),
                    from,
                    to,
                );
            }
        } else if is_color_property(key) {
            if !is_border_color_value(value) {
                let message = if has_at(value.as_bytes(), 0, ascii::OPEN_BRACKET) {
                    join3("`", value, "`: a color property takes a single color, not a list")
                } else {
                    join3("`", value, "` is not a valid color")
                };
                push_invalid_value(out, message, from, to);
            }
        }
    }
}

/// Adds the findings about statement `i` itself.
fn check_statement(
    source: &str,
    stmts: &[Stmt],
    ctx: Option<&WidgetContext>,
    i: usize,
    out: &mut Vec<Diagnostic>,
)
    requires
        stmts@ == syntax::stmts(source.spec_bytes()),
        i < stmts@.len(),
    ensures
        lang_api::views(final(out)@) == lang_api::views(old(out)@) + own_findings(
            source.spec_bytes(),
            stmts@,
            workspace(ctx),
            i as int,
        ),
{
    let ghost before = lang_api::views(out@);
    assert(before + Seq::<DiagnosticView>::empty() =~= before);
    match stmts[i].kind {
        StmtKind::StateSelector => {
            check_state_selector(source, stmts, i, out);
        },
        StmtKind::AnchorProperty => {
            check_anchor_property(source, stmts, i, out);
        },
        StmtKind::Property => {
            check_property(source, stmts, ctx, i, out);
            if !is_in_block(source, stmts, i, "layout") {
                check_property_value(source, stmts, i, out);
                assert(lang_api::views(out@) =~= before + own_findings(
                    source.spec_bytes(),
                    stmts@,
                    workspace(ctx),
                    i as int,
                ));
            }
        },
        _ => {},
    }
}

/// Adds the findings about the statements.
fn collect_semantic_diagnostics(
    source: &str,
    stmts: &[Stmt],
    ctx: Option<&WidgetContext>,
    out: &mut Vec<Diagnostic>,
)
    requires
        stmts@ == syntax::stmts(source.spec_bytes()),
    ensures
        lang_api::views(final(out)@) == lang_api::views(old(out)@) + semantic_upto(
            source.spec_bytes(),
            stmts@,
            workspace(ctx),
            stmts@.len() as int,
        ),
{
    let ghost s = source.spec_bytes();
    let ghost w = workspace(ctx);
    let ghost before = lang_api::views(out@);
    let mut i: usize = 0;
    assert(before + semantic_upto(s, stmts@, w, 0) =~= before);
    while i < stmts.len()
        invariant
            s == source.spec_bytes(),
            w == workspace(ctx),
            stmts@ == syntax::stmts(s),
            i <= stmts@.len(),
            lang_api::views(out@) == before + semantic_upto(s, stmts@, w, i as int),
        decreases stmts@.len() - i,
    {
        let ghost had = semantic_upto(s, stmts@, w, i as int);
        check_property_after_child(stmts, i, out);
        check_statement(source, stmts, ctx, i, out);
        proof {
            let x = after_child(stmts@, i as int);
            let y = own_findings(s, stmts@, w, i as int);
            assert(before + had + x + y =~= before + (had + (x + y)));
        }
        i += 1;
    }
}

/// Whether `name` is a class, a style of the workspace or a Lua class.
fn resolves_style(name: &str, ctx: &WidgetContext) -> (r: bool)
    ensures
        r == resolves(ctx@, name@),
{
    is_native_base(name) || ctx.styles.declares(name) || ctx.lua.lookup(name).len() > 0
}

/// Adds the finding about the style that statement `i` names at the top level.
fn check_style_resolution(
    source: &str,
    stmts: &[Stmt],
    ctx: &WidgetContext,
    i: usize,
    out: &mut Vec<Diagnostic>,
)
    requires
        stmts@ == syntax::stmts(source.spec_bytes()),
        i < stmts@.len(),
    ensures
        lang_api::views(final(out)@) == lang_api::views(old(out)@) + resolution_findings(
            source.spec_bytes(),
            stmts@[i as int],
            ctx@,
        ),
{
    assert(lang_api::views(out@) + Seq::<DiagnosticView>::empty() =~= lang_api::views(out@));
    let n: usize = source.as_bytes().len();
    proof {
        nodes::lemma_document(source);
        assert(syntax::stmt_ok(source.spec_bytes(), stmts@[i as int]));
        syntax::lemma_header_base(source.spec_bytes(), i as int);
    }
    let st = &stmts[i];
    if st.parent.is_some() {
        return;
    }
    if st.kind == StmtKind::StyleHeader {
        if let Some(v) = st.value {
            let name = span_text(source, v);
            if !resolves_style(name, ctx) {
                let mut message = join3(
                    "unknown base `",
                    name,
                    "`: no workspace style or built-in widget class named `",
                );
                message.append(name);
                message.append("`");
                report(out, Severity::Warning, UNKNOWN_BASE, message, v);
            }
        }
    } else if st.kind == StmtKind::Container {
        let name = span_text(source, st.key);
        if !resolves_style(name, ctx) {
            report(
                out,
                Severity::Error,
                UNKNOWN_ROOT_STYLE,
                join3(
                    "root widget style `",
                    name,
                    "` does not resolve: the file fails to load",
                ),
                st.key,
            );
        }
    }
}

/// Adds the findings about the styles that the top level names.
fn check_top_level_style_resolution(
    source: &str,
    stmts: &[Stmt],
    ctx: &WidgetContext,
    out: &mut Vec<Diagnostic>,
)
    requires
        stmts@ == syntax::stmts(source.spec_bytes()),
    ensures
        lang_api::views(final(out)@) == lang_api::views(old(out)@) + resolution_upto(
            source.spec_bytes(),
            stmts@,
            ctx@,
            stmts@.len() as int,
        ),
{
    let ghost s = source.spec_bytes();
    let ghost before = lang_api::views(out@);
    let mut i: usize = 0;
    assert(before + resolution_upto(s, stmts@, ctx@, 0) =~= before);
    while i < stmts.len()
        invariant
            s == source.spec_bytes(),
            stmts@ == syntax::stmts(s),
            i <= stmts@.len(),
            lang_api::views(out@) == before + resolution_upto(s, stmts@, ctx@, i as int),
        decreases stmts@.len() - i,
    {
        let ghost had = resolution_upto(s, stmts@, ctx@, i as int);
        check_style_resolution(source, stmts, ctx, i, out);
        proof {
            let x = resolution_findings(s, stmts@[i as int], ctx@);
            assert(before + had + x =~= before + (had + x));
        }
        i += 1;
    }
}

/// The findings of a parsed document, in the order in which the passes come upon them.
fn collect(tree: &SyntaxTree, ctx: Option<&WidgetContext>) -> (out: Vec<Diagnostic>)
    ensures
        lang_api::views(out@) == raw_findings(tree.text(), workspace(ctx)),
{
    let source = tree.source();
    let stmts = tree.statements();
    let mut out = indentation_pass(source);
    collect_structural_errors(stmts, &mut out);
    collect_semantic_diagnostics(source, stmts, ctx, &mut out);
    assert(lang_api::views(out@) + Seq::<DiagnosticView>::empty() =~= lang_api::views(out@));
    if let Some(c) = ctx {
        check_top_level_style_resolution(source, stmts, c, &mut out);
    }
    out
}

/// The findings about a document on its own, ordered by place.
pub fn analyze(source: &str) -> (out: Vec<Diagnostic>)
    ensures
        lang_api::views(out@) == findings(source.spec_bytes(), None),
{
    match SyntaxTree::parse(source) {
        Some(tree) => sort_by_place(collect(&tree, None)),
        None => Vec::new(),
    }
}

/// The findings about a document in a workspace, ordered by place.
pub fn analyze_with_widgets(source: &str, ctx: &WidgetContext) -> (out: Vec<Diagnostic>)
    ensures
        lang_api::views(out@) == findings(source.spec_bytes(), Some(ctx@)),
{
    match SyntaxTree::parse(source) {
        Some(tree) => analyze_with_widgets_from_tree(&tree, ctx),
        None => Vec::new(),
    }
}

/// The findings about a parsed document in a workspace, ordered by place.
pub fn analyze_with_widgets_from_tree(tree: &SyntaxTree, ctx: &WidgetContext) -> (out: Vec<
    Diagnostic,
>)
    ensures
        lang_api::views(out@) == findings(tree.text(), Some(ctx@)),
{
    sort_by_place(collect(tree, Some(ctx)))
}

/// The findings that every kind of document shares, in the order in which the passes come upon them.
pub fn structural_diagnostics(tree: &SyntaxTree) -> (out: Vec<Diagnostic>)
    ensures
        lang_api::views(out@) == structural_findings(tree.text()),
{
    let mut out = indentation_pass(tree.source());
    collect_structural_errors(tree.statements(), &mut out);
    out
}

} // verus!
