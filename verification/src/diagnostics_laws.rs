//! When a document has which finding.

use crate::ascii;
use crate::catalog;
use crate::completion_laws;
use crate::diagnostics;
use crate::diagnostics::Workspace;
use crate::folding_laws;
use crate::indent;
use crate::lang_api::{ByteSpan, DiagnosticView, Severity};
use crate::nodes;
use crate::order;
use crate::outline_laws;
use crate::palette;
use crate::schema;
use crate::style_index;
use crate::syntax;
use crate::syntax::{Stmt, StmtKind};
use crate::text;
use crate::tree_laws;
use crate::widget_resolve;
use crate::workspace_laws;
use vstd::prelude::*;
use vstd::string::*;
use vstd::utf8::*;

verus! {

/// Whether there is a finding of the given severity and code at the given place.
pub open spec fn reported(
    fs: Seq<DiagnosticView>,
    severity: Severity,
    code: Seq<char>,
    sp: ByteSpan,
) -> bool {
    exists|i: int|
        0 <= i < fs.len() && (#[trigger] fs[i]).severity == severity && fs[i].code == code
            && fs[i].span == sp
}

// ---------------------------------------------------------------------------------------------
// Where findings come from
// ---------------------------------------------------------------------------------------------

/// The codes differ from each other.
proof fn lemma_codes()
    ensures
        diagnostics::TAB_INDENTATION@ == "tab-indentation"@,
        diagnostics::ODD_INDENTATION@ == "odd-indentation"@,
        diagnostics::INVALID_INDENTATION_DEPTH@ == "invalid-indentation-depth"@,
        diagnostics::SYNTAX_ERROR@ == "syntax-error"@,
        diagnostics::UNKNOWN_STATE@ == "unknown-state"@,
        diagnostics::INVALID_ANCHOR_EDGE@ == "invalid-anchor-edge"@,
        diagnostics::PROPERTY_AFTER_CHILD@ == "property-after-child"@,
        diagnostics::ANCHOR_PARENT_NO_ANCHOR_LAYOUT@ == "anchor-parent-no-anchor-layout"@,
        diagnostics::UNKNOWN_PROPERTY@ == "unknown-property"@,
        diagnostics::INVALID_PROPERTY_VALUE@ == "invalid-property-value"@,
        diagnostics::UNKNOWN_BASE@ == "unknown-base"@,
        diagnostics::UNKNOWN_ROOT_STYLE@ == "unknown-root-style"@,
        "tab-indentation"@.len() == 15 && "tab-indentation"@[0] == 't',
        "odd-indentation"@.len() == 15 && "odd-indentation"@[0] == 'o',
        "invalid-indentation-depth"@.len() == 25,
        "syntax-error"@.len() == 12 && "syntax-error"@[0] == 's',
        "unknown-state"@.len() == 13,
        "invalid-anchor-edge"@.len() == 19,
        "property-after-child"@.len() == 20,
        "anchor-parent-no-anchor-layout"@.len() == 30,
        "unknown-property"@.len() == 16,
        "invalid-property-value"@.len() == 22,
        "unknown-base"@.len() == 12 && "unknown-base"@[0] == 'u',
        "unknown-root-style"@.len() == 18,
{
    reveal_strlit("tab-indentation");
    reveal_strlit("odd-indentation");
    reveal_strlit("invalid-indentation-depth");
    reveal_strlit("syntax-error");
    reveal_strlit("unknown-state");
    reveal_strlit("invalid-anchor-edge");
    reveal_strlit("property-after-child");
    reveal_strlit("anchor-parent-no-anchor-layout");
    reveal_strlit("unknown-property");
    reveal_strlit("invalid-property-value");
    reveal_strlit("unknown-base");
    reveal_strlit("unknown-root-style");
}

proof fn lemma_in_either<A>(a: Seq<A>, b: Seq<A>, x: A)
    ensures
        (a + b).contains(x) <==> a.contains(x) || b.contains(x),
{
    let c = a + b;
    if a.contains(x) {
        assert(c[a.index_of(x)] == x);
    }
    if b.contains(x) {
        assert(c[a.len() + b.index_of(x)] == x);
    }
    if c.contains(x) {
        let i = c.index_of(x);
        if i < a.len() {
            assert(a[i] == x);
        } else {
            assert(b[i - a.len()] == x);
        }
    }
}

/// Whether the indentation of line `k` gives the finding `f`.
spec fn from_line(s: Seq<u8>, k: int, f: DiagnosticView) -> bool {
    diagnostics::flaw_findings(
        indent::lines(s)[k].0,
        indent::texts(s)[k],
        diagnostics::verdicts(s)[k].flaw,
    ).contains(f)
}

proof fn lemma_from_lines(s: Seq<u8>, k: int, f: DiagnosticView)
    requires
        0 <= k,
    ensures
        diagnostics::indentation_upto(s, k).contains(f) <==> exists|i: int|
            0 <= i < k && #[trigger] from_line(s, i, f),
    decreases k,
{
    if k > 0 {
        lemma_from_lines(s, k - 1, f);
        lemma_in_either(
            diagnostics::indentation_upto(s, k - 1),
            diagnostics::flaw_findings(
                indent::lines(s)[k - 1].0,
                indent::texts(s)[k - 1],
                diagnostics::verdicts(s)[k - 1].flaw,
            ),
            f,
        );
        if from_line(s, k - 1, f) {
            assert(from_line(s, k - 1, f));
        }
    }
}

/// Whether statement `k` fits no kind and gives the finding `f` for that.
spec fn from_error(stmts: Seq<Stmt>, k: int, f: DiagnosticView) -> bool {
    diagnostics::error_findings(stmts[k]).contains(f)
}

proof fn lemma_from_errors(stmts: Seq<Stmt>, k: int, f: DiagnosticView)
    requires
        0 <= k,
    ensures
        diagnostics::errors_upto(stmts, k).contains(f) <==> exists|i: int|
            0 <= i < k && #[trigger] from_error(stmts, i, f),
    decreases k,
{
    if k > 0 {
        lemma_from_errors(stmts, k - 1, f);
        lemma_in_either(
            diagnostics::errors_upto(stmts, k - 1),
            diagnostics::error_findings(stmts[k - 1]),
            f,
        );
        if from_error(stmts, k - 1, f) {
            assert(from_error(stmts, k - 1, f));
        }
    }
}

/// Whether the body of statement `k` gives the finding `f` for a property below a child.
spec fn from_body(stmts: Seq<Stmt>, k: int, f: DiagnosticView) -> bool {
    diagnostics::after_child(stmts, k).contains(f)
}

/// Whether statement `k` itself gives the finding `f`.
spec fn from_stmt(
    s: Seq<u8>,
    stmts: Seq<Stmt>,
    w: Option<Workspace>,
    k: int,
    f: DiagnosticView,
) -> bool {
    diagnostics::own_findings(s, stmts, w, k).contains(f)
}

proof fn lemma_from_stmts(
    s: Seq<u8>,
    stmts: Seq<Stmt>,
    w: Option<Workspace>,
    k: int,
    f: DiagnosticView,
)
    requires
        0 <= k,
    ensures
        diagnostics::semantic_upto(s, stmts, w, k).contains(f) <==> (exists|i: int|
            0 <= i < k && #[trigger] from_body(stmts, i, f)) || (exists|i: int|
            0 <= i < k && #[trigger] from_stmt(s, stmts, w, i, f)),
    decreases k,
{
    if k > 0 {
        let a = diagnostics::after_child(stmts, k - 1);
        let b = diagnostics::own_findings(s, stmts, w, k - 1);
        lemma_from_stmts(s, stmts, w, k - 1, f);
        lemma_in_either(a, b, f);
        lemma_in_either(diagnostics::semantic_upto(s, stmts, w, k - 1), a + b, f);
        if from_body(stmts, k - 1, f) {
            assert(from_body(stmts, k - 1, f));
        }
        if from_stmt(s, stmts, w, k - 1, f) {
            assert(from_stmt(s, stmts, w, k - 1, f));
        }
    }
}

/// Whether the style that statement `k` names gives the finding `f`.
spec fn from_style(s: Seq<u8>, stmts: Seq<Stmt>, w: Workspace, k: int, f: DiagnosticView) -> bool {
    diagnostics::resolution_findings(s, stmts[k], w).contains(f)
}

proof fn lemma_from_styles(s: Seq<u8>, stmts: Seq<Stmt>, w: Workspace, k: int, f: DiagnosticView)
    requires
        0 <= k,
    ensures
        diagnostics::resolution_upto(s, stmts, w, k).contains(f) <==> exists|i: int|
            0 <= i < k && #[trigger] from_style(s, stmts, w, i, f),
    decreases k,
{
    if k > 0 {
        lemma_from_styles(s, stmts, w, k - 1, f);
        lemma_in_either(
            diagnostics::resolution_upto(s, stmts, w, k - 1),
            diagnostics::resolution_findings(s, stmts[k - 1], w),
            f,
        );
        if from_style(s, stmts, w, k - 1, f) {
            assert(from_style(s, stmts, w, k - 1, f));
        }
    }
}

/// Whether some pass over the document gives the finding `f`.
spec fn given(s: Seq<u8>, w: Option<Workspace>, f: DiagnosticView) -> bool {
    let stmts = syntax::stmts(s);
    ||| exists|i: int| 0 <= i < indent::lines(s).len() && #[trigger] from_line(s, i, f)
    ||| exists|i: int| 0 <= i < stmts.len() && #[trigger] from_error(stmts, i, f)
    ||| exists|i: int| 0 <= i < stmts.len() && #[trigger] from_body(stmts, i, f)
    ||| exists|i: int| 0 <= i < stmts.len() && #[trigger] from_stmt(s, stmts, w, i, f)
    ||| (w matches Some(ws) && exists|i: int|
        0 <= i < stmts.len() && #[trigger] from_style(s, stmts, ws, i, f))
}

/// Ordering neither adds nor drops a finding.
proof fn lemma_given(s: Seq<u8>, w: Option<Workspace>, f: DiagnosticView)
    ensures
        diagnostics::findings(s, w).contains(f) <==> given(s, w, f),
{
    broadcast use vstd::seq_lib::group_to_multiset_ensures;

    let stmts = syntax::stmts(s);
    let n = stmts.len() as int;
    let raw = diagnostics::raw_findings(s, w);
    order::law_stable_sort(raw);
    assert(raw.contains(f) <==> raw.to_multiset().count(f) > 0);
    assert(order::stable_sort(raw).contains(f) <==> order::stable_sort(raw).to_multiset().count(f)
        > 0);
    let lines = diagnostics::indentation_findings(s);
    let errors = diagnostics::errors_upto(stmts, n);
    let semantic = diagnostics::semantic_upto(s, stmts, w, n);
    let styles = match w {
        Some(ws) => diagnostics::resolution_upto(s, stmts, ws, n),
        None => Seq::empty(),
    };
    lemma_from_lines(s, indent::lines(s).len() as int, f);
    lemma_from_errors(stmts, n, f);
    lemma_from_stmts(s, stmts, w, n, f);
    if let Some(ws) = w {
        lemma_from_styles(s, stmts, ws, n, f);
    }
    lemma_in_either(lines, errors, f);
    lemma_in_either(lines + errors, semantic, f);
    lemma_in_either(lines + errors + semantic, styles, f);
}

// ---------------------------------------------------------------------------------------------
// What each pass can say
// ---------------------------------------------------------------------------------------------

proof fn lemma_line_code(s: Seq<u8>, k: int, f: DiagnosticView)
    requires
        from_line(s, k, f),
    ensures
        f.code == "tab-indentation"@ || f.code == "odd-indentation"@ || f.code
            == "invalid-indentation-depth"@,
{
    lemma_codes();
}

proof fn lemma_error_code(stmts: Seq<Stmt>, k: int, f: DiagnosticView)
    requires
        from_error(stmts, k, f),
    ensures
        f.code == "syntax-error"@,
{
    lemma_codes();
}

proof fn lemma_body_code_from(stmts: Seq<Stmt>, i: int, j: int, seen: bool, f: DiagnosticView)
    requires
        diagnostics::after_child_from(stmts, i, j, seen).contains(f),
    ensures
        f.code == "property-after-child"@,
    decreases stmts.len() - j,
{
    lemma_codes();
    if 0 <= j < stmts.len() {
        let all = diagnostics::after_child_from(stmts, i, j, seen);
        let rest = diagnostics::after_child_from(stmts, i, j + 1, seen);
        if stmts[j].parent != Some(i as usize) {
            lemma_body_code_from(stmts, i, j + 1, seen, f);
        } else if style_index::widget(stmts[j]) {
            lemma_body_code_from(stmts, i, j + 1, true, f);
        } else if stmts[j].kind == StmtKind::Property && seen {
            lemma_in_either(all.take(1), rest, f);
            assert(all =~= all.take(1) + rest);
            if rest.contains(f) {
                lemma_body_code_from(stmts, i, j + 1, seen, f);
            } else {
                assert(all.take(1)[0] == f);
            }
        } else {
            lemma_body_code_from(stmts, i, j + 1, seen, f);
        }
    }
}

proof fn lemma_body_code(stmts: Seq<Stmt>, k: int, f: DiagnosticView)
    requires
        from_body(stmts, k, f),
    ensures
        f.code == "property-after-child"@,
{
    lemma_body_code_from(stmts, k, 0, false, f);
}

proof fn lemma_states_code(h: Seq<u8>, a: int, k: int, f: DiagnosticView)
    requires
        diagnostics::states_upto(h, a, k).contains(f),
    ensures
        f.code == "unknown-state"@,
    decreases k,
{
    lemma_codes();
    if k > 0 {
        let all = diagnostics::states_upto(h, a, k);
        let before = diagnostics::states_upto(h, a, k - 1);
        if before.contains(f) {
            lemma_states_code(h, a, k - 1, f);
        } else {
            let i = all.index_of(f);
            if i < before.len() {
                assert(before[i] == f);
            }
        }
    }
}

/// The codes of what a statement itself gives, by its kind.
proof fn lemma_stmt_code(
    s: Seq<u8>,
    stmts: Seq<Stmt>,
    w: Option<Workspace>,
    k: int,
    f: DiagnosticView,
)
    requires
        from_stmt(s, stmts, w, k, f),
    ensures
        match stmts[k].kind {
            StmtKind::StateSelector => f.code == "unknown-state"@,
            StmtKind::AnchorProperty => f.code == "invalid-anchor-edge"@ || f.code
                == "anchor-parent-no-anchor-layout"@,
            StmtKind::Property => f.code == "unknown-property"@ || f.code
                == "invalid-property-value"@,
            _ => false,
        },
{
    lemma_codes();
    let st = stmts[k];
    match st.kind {
        StmtKind::StateSelector => {
            let h = syntax::cut(s, st.span);
            lemma_states_code(
                h,
                st.span.start as int,
                syntax::states_from(h, 1).len() as int,
                f,
            );
        },
        StmtKind::AnchorProperty => {
            let a = diagnostics::anchor_layout_findings(s, stmts, k);
            let b = diagnostics::anchor_edge_findings(s, st);
            let c = diagnostics::anchor_target_findings(s, st);
            lemma_in_either(a, b, f);
            lemma_in_either(a + b, c, f);
        },
        StmtKind::Property => {
            lemma_in_either(
                diagnostics::key_findings(s, stmts, w, k),
                diagnostics::value_findings(s, stmts, k),
                f,
            );
        },
        _ => {},
    }
}

proof fn lemma_style_code(s: Seq<u8>, stmts: Seq<Stmt>, w: Workspace, k: int, f: DiagnosticView)
    requires
        from_style(s, stmts, w, k, f),
    ensures
        f.code == "unknown-base"@ || f.code == "unknown-root-style"@,
{
    lemma_codes();
}

// ---------------------------------------------------------------------------------------------
// Styles
// ---------------------------------------------------------------------------------------------

/// Whether the workspace knows a name: as a class of the engine, a style or a Lua class.
pub open spec fn knows(w: Workspace, name: Seq<char>) -> bool {
    ||| workspace_laws::starts_with_ui(name)
    ||| workspace_laws::has_style(w.styles, name)
    ||| workspace_laws::has_lua_class(w.lua, name)
}

/// Whether statement `k` stands at the top level and derives, at `sp`, from a name that the
/// workspace does not know.
pub open spec fn derives_unknown(s: Seq<u8>, w: Workspace, k: int, sp: ByteSpan) -> bool {
    let st = syntax::stmts(s)[k];
    &&& st.parent is None
    &&& st.kind == StmtKind::StyleHeader
    &&& st.value == Some(sp)
    &&& !knows(w, text::chars_of(s.subrange(sp.start as int, sp.end as int)))
}

/// Whether statement `k` stands at the top level and is, at `sp`, a widget by a name that the
/// workspace does not know.
pub open spec fn instantiates_unknown(s: Seq<u8>, w: Workspace, k: int, sp: ByteSpan) -> bool {
    let st = syntax::stmts(s)[k];
    &&& st.parent is None
    &&& st.kind == StmtKind::Container
    &&& st.key == sp
    &&& !knows(w, text::chars_of(s.subrange(sp.start as int, sp.end as int)))
}

proof fn lemma_knows(w: Workspace, name: Seq<char>)
    ensures
        diagnostics::resolves(w, name) == knows(w, name),
{
    workspace_laws::law_classes_start_with_ui(name);
    workspace_laws::law_definitions_are_declared(w.styles, name);
    workspace_laws::law_lua_classes_are_declared(w.lua, name);
}

/// Where a finding about a style comes from, and where it stands.
proof fn lemma_style_place(s: Seq<u8>, w: Workspace, k: int, f: DiagnosticView)
    requires
        valid_utf8(s),
        s.len() <= usize::MAX,
        0 <= k < syntax::stmts(s).len(),
    ensures
        from_style(s, syntax::stmts(s), w, k, f) && f.code == "unknown-base"@ ==> f.severity
            == Severity::Warning && derives_unknown(s, w, k, f.span),
        from_style(s, syntax::stmts(s), w, k, f) && f.code == "unknown-root-style"@ ==> f.severity
            == Severity::Error && instantiates_unknown(s, w, k, f.span),
{
    lemma_codes();
    let st = syntax::stmts(s)[k];
    syntax::lemma_stmts(s);
    assert(syntax::stmt_ok(s, st));
    if st.kind == StmtKind::StyleHeader {
        syntax::lemma_header_base(s, k);
        lemma_knows(w, text::chars_of(syntax::cut(s, st.value->0)));
    } else {
        lemma_knows(w, text::chars_of(syntax::cut(s, st.key)));
    }
}

/// The finding about a style that a statement gives.
proof fn lemma_style_given(s: Seq<u8>, w: Workspace, k: int, sp: ByteSpan)
    requires
        valid_utf8(s),
        s.len() <= usize::MAX,
        0 <= k < syntax::stmts(s).len(),
    ensures
        derives_unknown(s, w, k, sp) ==> reported(
            diagnostics::findings(s, Some(w)),
            Severity::Warning,
            "unknown-base"@,
            sp,
        ),
        instantiates_unknown(s, w, k, sp) ==> reported(
            diagnostics::findings(s, Some(w)),
            Severity::Error,
            "unknown-root-style"@,
            sp,
        ),
{
    lemma_codes();
    let stmts = syntax::stmts(s);
    let fs = diagnostics::findings(s, Some(w));
    lemma_knows(w, text::chars_of(syntax::cut(s, sp)));
    if derives_unknown(s, w, k, sp) || instantiates_unknown(s, w, k, sp) {
        let all = diagnostics::resolution_findings(s, stmts[k], w);
        let f = all[0];
        assert(all.contains(f));
        assert(from_style(s, stmts, w, k, f));
        lemma_given(s, Some(w), f);
        assert(fs[fs.index_of(f)] == f);
    }
}

/// At the top level, and wherever there, each header that derives from an unknown name has a warning
/// at that name, and each widget by an unknown name has an error at that name. There are no other
/// findings of these two codes. A name is known where it starts with `UI`, where some document of
/// the workspace declares a style by it, or some Lua document a class.
pub proof fn law_unknown_styles_are_reported(s: Seq<u8>, w: Workspace, sp: ByteSpan)
    requires
        valid_utf8(s),
        s.len() <= usize::MAX,
    ensures
        reported(
            diagnostics::findings(s, Some(w)),
            Severity::Warning,
            "unknown-base"@,
            sp,
        ) <==> exists|k: int|
            0 <= k < syntax::stmts(s).len() && #[trigger] derives_unknown(s, w, k, sp),
        reported(
            diagnostics::findings(s, Some(w)),
            Severity::Error,
            "unknown-root-style"@,
            sp,
        ) <==> exists|k: int|
            0 <= k < syntax::stmts(s).len() && #[trigger] instantiates_unknown(s, w, k, sp),
        forall|i: int|
            0 <= i < diagnostics::findings(s, Some(w)).len() ==> {
                let f = #[trigger] diagnostics::findings(s, Some(w))[i];
                &&& f.code == "unknown-base"@ ==> f.severity == Severity::Warning
                &&& f.code == "unknown-root-style"@ ==> f.severity == Severity::Error
            },
{
    let stmts = syntax::stmts(s);
    let fs = diagnostics::findings(s, Some(w));
    assert forall|i: int| 0 <= i < fs.len() implies {
        let f = #[trigger] fs[i];
        &&& f.code == "unknown-base"@ ==> f.severity == Severity::Warning && exists|k: int|
            0 <= k < stmts.len() && #[trigger] derives_unknown(s, w, k, f.span)
        &&& f.code == "unknown-root-style"@ ==> f.severity == Severity::Error && exists|k: int|
            0 <= k < stmts.len() && #[trigger] instantiates_unknown(s, w, k, f.span)
    } by {
        let f = fs[i];
        lemma_style_source(s, w, f);
        if f.code == "unknown-base"@ || f.code == "unknown-root-style"@ {
            let k = choose|k: int| 0 <= k < stmts.len() && #[trigger] from_style(s, stmts, w, k, f);
            lemma_style_place(s, w, k, f);
        }
    }
    assert forall|k: int| 0 <= k < stmts.len() && #[trigger] derives_unknown(s, w, k, sp) implies reported(
        fs,
        Severity::Warning,
        "unknown-base"@,
        sp,
    ) by {
        lemma_style_given(s, w, k, sp);
    }
    assert forall|k: int| 0 <= k < stmts.len() && #[trigger] instantiates_unknown(
        s,
        w,
        k,
        sp,
    ) implies reported(fs, Severity::Error, "unknown-root-style"@, sp) by {
        lemma_style_given(s, w, k, sp);
    }
}

/// A finding about a style comes from a statement that names one.
proof fn lemma_style_source(s: Seq<u8>, w: Workspace, f: DiagnosticView)
    requires
        diagnostics::findings(s, Some(w)).contains(f),
    ensures
        f.code == "unknown-base"@ || f.code == "unknown-root-style"@ ==> exists|k: int|
            0 <= k < syntax::stmts(s).len() && #[trigger] from_style(
                s,
                syntax::stmts(s),
                w,
                k,
                f,
            ),
{
    let stmts = syntax::stmts(s);
    lemma_codes();
    lemma_given(s, Some(w), f);
    lemma_kinds_of_code(s, Some(w), f);
}

/// What a code says of the pass that a finding comes from.
proof fn lemma_kinds_of_code(s: Seq<u8>, w: Option<Workspace>, f: DiagnosticView)
    ensures
        forall|i: int|
            #[trigger] from_line(s, i, f) ==> f.code == "tab-indentation"@ || f.code
                == "odd-indentation"@ || f.code == "invalid-indentation-depth"@,
        forall|i: int|
            #[trigger] from_error(syntax::stmts(s), i, f) ==> f.code == "syntax-error"@,
        forall|i: int|
            #[trigger] from_body(syntax::stmts(s), i, f) ==> f.code == "property-after-child"@,
        forall|i: int| #[trigger]
            from_stmt(s, syntax::stmts(s), w, i, f) ==> match syntax::stmts(s)[i].kind {
                StmtKind::StateSelector => f.code == "unknown-state"@,
                StmtKind::AnchorProperty => f.code == "invalid-anchor-edge"@ || f.code
                    == "anchor-parent-no-anchor-layout"@,
                StmtKind::Property => f.code == "unknown-property"@ || f.code
                    == "invalid-property-value"@,
                _ => false,
            },
        w matches Some(ws) ==> forall|i: int| #[trigger]
            from_style(s, syntax::stmts(s), ws, i, f) ==> f.code == "unknown-base"@ || f.code
                == "unknown-root-style"@,
{
    let stmts = syntax::stmts(s);
    assert forall|i: int| #[trigger] from_line(s, i, f) implies f.code == "tab-indentation"@
        || f.code == "odd-indentation"@ || f.code == "invalid-indentation-depth"@ by {
        lemma_line_code(s, i, f);
    }
    assert forall|i: int| #[trigger] from_error(stmts, i, f) implies f.code == "syntax-error"@ by {
        lemma_error_code(stmts, i, f);
    }
    assert forall|i: int| #[trigger] from_body(stmts, i, f) implies f.code
        == "property-after-child"@ by {
        lemma_body_code(stmts, i, f);
    }
    assert forall|i: int| #[trigger] from_stmt(s, stmts, w, i, f) implies match stmts[i].kind {
        StmtKind::StateSelector => f.code == "unknown-state"@,
        StmtKind::AnchorProperty => f.code == "invalid-anchor-edge"@ || f.code
            == "anchor-parent-no-anchor-layout"@,
        StmtKind::Property => f.code == "unknown-property"@ || f.code == "invalid-property-value"@,
        _ => false,
    } by {
        lemma_stmt_code(s, stmts, w, i, f);
    }
    if let Some(ws) = w {
        assert forall|i: int| #[trigger] from_style(s, stmts, ws, i, f) implies f.code
            == "unknown-base"@ || f.code == "unknown-root-style"@ by {
            lemma_style_code(s, stmts, ws, i, f);
        }
    }
}

// ---------------------------------------------------------------------------------------------
// Statements
// ---------------------------------------------------------------------------------------------

proof fn lemma_report(s: Seq<u8>, w: Option<Workspace>, f: DiagnosticView)
    requires
        given(s, w, f),
    ensures
        reported(diagnostics::findings(s, w), f.severity, f.code, f.span),
{
    let fs = diagnostics::findings(s, w);
    lemma_given(s, w, f);
    assert(fs[fs.index_of(f)] == f);
}

proof fn lemma_reported(
    s: Seq<u8>,
    w: Option<Workspace>,
    severity: Severity,
    code: Seq<char>,
    sp: ByteSpan,
) -> (f: DiagnosticView)
    requires
        reported(diagnostics::findings(s, w), severity, code, sp),
    ensures
        given(s, w, f),
        f.severity == severity && f.code == code && f.span == sp,
{
    let fs = diagnostics::findings(s, w);
    let i = choose|i: int|
        0 <= i < fs.len() && (#[trigger] fs[i]).severity == severity && fs[i].code == code
            && fs[i].span == sp;
    assert(fs.contains(fs[i]));
    lemma_given(s, w, fs[i]);
    fs[i]
}

/// Each line that fits no kind of statement is a syntax error, and nothing else is one.
pub proof fn law_syntax_errors_are_reported(s: Seq<u8>, w: Option<Workspace>, sp: ByteSpan)
    ensures
        reported(diagnostics::findings(s, w), Severity::Error, "syntax-error"@, sp) <==> exists|
            k: int,
        |
            0 <= k < syntax::stmts(s).len() && (#[trigger] syntax::stmts(s)[k]).kind
                == StmtKind::Error && syntax::stmts(s)[k].span == sp,
{
    let stmts = syntax::stmts(s);
    lemma_codes();
    if reported(diagnostics::findings(s, w), Severity::Error, "syntax-error"@, sp) {
        let f = lemma_reported(s, w, Severity::Error, "syntax-error"@, sp);
        lemma_kinds_of_code(s, w, f);
        let k = choose|k: int| 0 <= k < stmts.len() && #[trigger] from_error(stmts, k, f);
        assert(stmts[k].kind == StmtKind::Error && stmts[k].span == sp);
    }
    if exists|k: int|
        0 <= k < stmts.len() && (#[trigger] stmts[k]).kind == StmtKind::Error && stmts[k].span
            == sp {
        let k = choose|k: int|
            0 <= k < stmts.len() && (#[trigger] stmts[k]).kind == StmtKind::Error && stmts[k].span
                == sp;
        let f = diagnostics::error_findings(stmts[k])[0];
        assert(diagnostics::error_findings(stmts[k]).contains(f));
        assert(from_error(stmts, k, f));
        lemma_report(s, w, f);
    }
}

/// Whether state `i` of statement `k`, a selector, stands at `sp` and is one that the engine does not
/// know, in whatever case its letters are.
pub open spec fn names_unknown_state(s: Seq<u8>, k: int, i: int, sp: ByteSpan) -> bool {
    let st = syntax::stmts(s)[k];
    let h = syntax::cut(s, st.span);
    let p = syntax::states_from(h, 1)[i];
    &&& st.kind == StmtKind::StateSelector
    &&& 0 <= i < syntax::states_from(h, 1).len()
    &&& sp == syntax::span(st.span.start + p.0, st.span.start + p.1)
    &&& forall|j: int|
        0 <= j < schema::STATES@.len() ==> schema::lowered((#[trigger] schema::STATES@[j]).spec_bytes())
            != schema::lowered(h.subrange(p.0, p.1))
}

proof fn lemma_state_given(h: Seq<u8>, a: int, n: int, f: DiagnosticView)
    requires
        0 <= n,
    ensures
        diagnostics::states_upto(h, a, n).contains(f) <==> exists|i: int|
            0 <= i < n && #[trigger] state_gives(h, a, i, f),
    decreases n,
{
    if n > 0 {
        lemma_state_given(h, a, n - 1, f);
        let before = diagnostics::states_upto(h, a, n - 1);
        let all = diagnostics::states_upto(h, a, n);
        if before.contains(f) {
            assert(all[before.index_of(f)] == f);
        }
        if state_gives(h, a, n - 1, f) {
            assert(all[before.len() as int] == f);
        }
        if all.contains(f) {
            let x = all.index_of(f);
            if x < before.len() {
                assert(before[x] == f);
            } else {
                assert(state_gives(h, a, n - 1, f));
            }
        }
    }
}

/// Whether state `i` of a selector gives the finding `f`.
spec fn state_gives(h: Seq<u8>, a: int, i: int, f: DiagnosticView) -> bool {
    let p = syntax::states_from(h, 1)[i];
    let name = h.subrange(p.0, p.1);
    &&& !schema::member_any_case(schema::STATES@, name)
    &&& f == diagnostics::finding(
        Severity::Hint,
        diagnostics::UNKNOWN_STATE@,
        "unknown state `"@ + text::chars_of(name) + "`: never matches at runtime"@,
        a + p.0,
        a + p.1,
    )
}

/// Each state in a selector that the engine does not know has a hint, and no other has.
pub proof fn law_unknown_states_are_reported(s: Seq<u8>, w: Option<Workspace>, sp: ByteSpan)
    ensures
        reported(diagnostics::findings(s, w), Severity::Hint, "unknown-state"@, sp) <==> exists|
            k: int,
            i: int,
        | 0 <= k < syntax::stmts(s).len() && #[trigger] names_unknown_state(s, k, i, sp),
{
    let stmts = syntax::stmts(s);
    lemma_codes();
    if reported(diagnostics::findings(s, w), Severity::Hint, "unknown-state"@, sp) {
        let f = lemma_reported(s, w, Severity::Hint, "unknown-state"@, sp);
        lemma_kinds_of_code(s, w, f);
        let k = choose|k: int| 0 <= k < stmts.len() && #[trigger] from_stmt(s, stmts, w, k, f);
        let h = syntax::cut(s, stmts[k].span);
        let a = stmts[k].span.start as int;
        let n = syntax::states_from(h, 1).len() as int;
        lemma_state_given(h, a, n, f);
        let i = choose|i: int| 0 <= i < n && #[trigger] state_gives(h, a, i, f);
        assert(names_unknown_state(s, k, i, sp));
    }
    if exists|k: int, i: int| 0 <= k < stmts.len() && #[trigger] names_unknown_state(s, k, i, sp) {
        let (k, i) = choose|k: int, i: int|
            0 <= k < stmts.len() && #[trigger] names_unknown_state(s, k, i, sp);
        let h = syntax::cut(s, stmts[k].span);
        let a = stmts[k].span.start as int;
        let n = syntax::states_from(h, 1).len() as int;
        let p = syntax::states_from(h, 1)[i];
        let name = h.subrange(p.0, p.1);
        let f = diagnostics::finding(
            Severity::Hint,
            diagnostics::UNKNOWN_STATE@,
            "unknown state `"@ + text::chars_of(name) + "`: never matches at runtime"@,
            a + p.0,
            a + p.1,
        );
        assert(!schema::member_any_case(schema::STATES@, name));
        assert(state_gives(h, a, i, f));
        lemma_state_given(h, a, n, f);
        assert(from_stmt(s, stmts, w, k, f));
        lemma_report(s, w, f);
    }
}

/// Whether statement `k` is a property in the body of a widget, below a child widget of that widget
/// and below no line of that body that fits no kind.
pub open spec fn after_a_child(stmts: Seq<Stmt>, k: int) -> bool {
    &&& stmts[k].kind == StmtKind::Property
    &&& stmts[k].parent matches Some(p) && p < stmts.len() && (stmts[p as int].kind
        == StmtKind::Container || stmts[p as int].kind == StmtKind::StyleHeader)
    &&& exists|j: int| #[trigger] is_child_widget(stmts, j, k)
    &&& forall|j: int|
        0 <= j < k && (#[trigger] stmts[j]).parent == stmts[k].parent ==> stmts[j].kind
            != StmtKind::Error
}

/// Whether statement `j` is a widget that stands above statement `k` in the same body.
pub open spec fn is_child_widget(stmts: Seq<Stmt>, j: int, k: int) -> bool {
    0 <= j < k && stmts[j].parent == stmts[k].parent && (stmts[j].kind == StmtKind::Container
        || stmts[j].kind == StmtKind::StyleHeader)
}

/// Whether statement `k` is a property in the body of statement `i`, below a child widget at or after
/// statement `j` or one that was seen, with no line between that fits no kind.
spec fn after_from(stmts: Seq<Stmt>, i: int, j: int, seen: bool, k: int) -> bool {
    &&& j <= k < stmts.len()
    &&& stmts[k].kind == StmtKind::Property && stmts[k].parent == Some(i as usize)
    &&& seen || exists|m: int| j <= m && #[trigger] is_child_widget(stmts, m, k)
    &&& forall|m: int|
        j <= m < k && (#[trigger] stmts[m]).parent == Some(i as usize) ==> stmts[m].kind
            != StmtKind::Error
}

/// The finding about a property below a child.
spec fn after_finding(st: Stmt) -> DiagnosticView {
    diagnostics::finding(
        Severity::Hint,
        diagnostics::PROPERTY_AFTER_CHILD@,
        "property declared after a child widget: the engine applies all of a widget's properties before creating any of its children, so this has no effect on behavior — purely a readability issue"@,
        st.key.start as int,
        st.key.end as int,
    )
}

proof fn lemma_after_from(stmts: Seq<Stmt>, i: int, j: int, seen: bool, f: DiagnosticView)
    requires
        0 <= j,
    ensures
        diagnostics::after_child_from(stmts, i, j, seen).contains(f) <==> exists|k: int| #[trigger]
            after_from(stmts, i, j, seen, k) && f == after_finding(stmts[k]),
    decreases stmts.len() - j,
{
    if j < stmts.len() {
        let all = diagnostics::after_child_from(stmts, i, j, seen);
        let own = stmts[j].parent == Some(i as usize);
        let child = own && (stmts[j].kind == StmtKind::Container || stmts[j].kind
            == StmtKind::StyleHeader);
        let next = seen || child;
        let rest = diagnostics::after_child_from(stmts, i, j + 1, next);
        lemma_after_from(stmts, i, j + 1, next, f);
        if own && stmts[j].kind == StmtKind::Error {
            assert(all.len() == 0);
        } else {
            assert forall|k: int| k > j implies #[trigger] after_from(stmts, i, j, seen, k)
                == after_from(stmts, i, j + 1, next, k) by {
                lemma_after_step(stmts, i, j, seen, k);
            }
            let here = own && stmts[j].kind == StmtKind::Property && seen;
            assert(after_from(stmts, i, j, seen, j) == here);
            if here {
                assert(all == seq![after_finding(stmts[j])] + rest);
                lemma_in_either(seq![after_finding(stmts[j])], rest, f);
                if f == after_finding(stmts[j]) {
                    assert(seq![after_finding(stmts[j])][0] == f);
                }
            } else {
                assert(all == rest);
            }
            if exists|k: int| #[trigger] after_from(stmts, i, j, seen, k) && f == after_finding(
                stmts[k],
            ) {
                let k = choose|k: int| #[trigger] after_from(stmts, i, j, seen, k) && f
                    == after_finding(stmts[k]);
                if k > j {
                    assert(after_from(stmts, i, j + 1, next, k));
                }
            }
            if rest.contains(f) {
                let k = choose|k: int| #[trigger] after_from(stmts, i, j + 1, next, k) && f
                    == after_finding(stmts[k]);
                assert(after_from(stmts, i, j, seen, k));
            }
        }
    }
}

proof fn lemma_after_step(stmts: Seq<Stmt>, i: int, j: int, seen: bool, k: int)
    requires
        0 <= j < k,
        j < stmts.len(),
        !(stmts[j].parent == Some(i as usize) && stmts[j].kind == StmtKind::Error),
    ensures
        ({
            let child = stmts[j].parent == Some(i as usize) && (stmts[j].kind
                == StmtKind::Container || stmts[j].kind == StmtKind::StyleHeader);
            after_from(stmts, i, j, seen, k) == after_from(stmts, i, j + 1, seen || child, k)
        }),
{
    let child = stmts[j].parent == Some(i as usize) && (stmts[j].kind == StmtKind::Container
        || stmts[j].kind == StmtKind::StyleHeader);
    if after_from(stmts, i, j, seen, k) {
        if !seen && !child {
            let m = choose|m: int| j <= m && #[trigger] is_child_widget(stmts, m, k);
            assert(m != j);
        }
    }
    if after_from(stmts, i, j + 1, seen || child, k) {
        if !seen && child {
            assert(is_child_widget(stmts, j, k));
        }
        assert forall|m: int|
            j <= m < k && (#[trigger] stmts[m]).parent == Some(i as usize) implies stmts[m].kind
            != StmtKind::Error by {
            assert(m == j || j + 1 <= m);
        }
    }
}

/// Each property below a child widget has a hint at its key, and nothing else has one of that code.
pub proof fn law_properties_after_children_are_reported(
    s: Seq<u8>,
    w: Option<Workspace>,
    sp: ByteSpan,
)
    requires
        s.len() <= usize::MAX,
    ensures
        reported(diagnostics::findings(s, w), Severity::Hint, "property-after-child"@, sp)
            <==> exists|k: int|
            0 <= k < syntax::stmts(s).len() && #[trigger] after_a_child(syntax::stmts(s), k)
                && syntax::stmts(s)[k].key == sp,
{
    let stmts = syntax::stmts(s);
    lemma_codes();
    if reported(diagnostics::findings(s, w), Severity::Hint, "property-after-child"@, sp) {
        let f = lemma_reported(s, w, Severity::Hint, "property-after-child"@, sp);
        lemma_kinds_of_code(s, w, f);
        let i = choose|i: int| 0 <= i < stmts.len() && #[trigger] from_body(stmts, i, f);
        lemma_after_from(stmts, i, 0, false, f);
        let k = choose|k: int| #[trigger] after_from(stmts, i, 0, false, k) && f == after_finding(
            stmts[k],
        );
        tree_laws::lemma_count(s);
        assert(after_a_child(stmts, k));
    }
    if exists|k: int|
        0 <= k < stmts.len() && #[trigger] after_a_child(stmts, k) && stmts[k].key == sp {
        let k = choose|k: int|
            0 <= k < stmts.len() && #[trigger] after_a_child(stmts, k) && stmts[k].key == sp;
        let i = stmts[k].parent->0 as int;
        let f = after_finding(stmts[k]);
        let j = choose|j: int| #[trigger] is_child_widget(stmts, j, k);
        assert(is_child_widget(stmts, j, k));
        assert(after_from(stmts, i, 0, false, k));
        lemma_after_from(stmts, i, 0, false, f);
        assert(from_body(stmts, i, f));
        lemma_report(s, w, f);
    }
}

// ---------------------------------------------------------------------------------------------
// Anchors
// ---------------------------------------------------------------------------------------------

/// Whether the edge of an anchor is one: an edge in any case of its letters, or a shorthand.
pub open spec fn is_edge(edge: Seq<u8>) -> bool {
    schema::member_any_case(schema::ANCHOR_EDGES@, edge) || is_shorthand(edge)
}

/// Whether the edge of an anchor is a shorthand for several.
pub open spec fn is_shorthand(edge: Seq<u8>) -> bool {
    schema::member(schema::SHORTHAND_ANCHORS@, edge)
}

/// Whether there is a dot at offset `d` of `t`, and no other.
pub open spec fn only_dot(t: Seq<u8>, d: int) -> bool {
    &&& 0 <= d < t.len() && t[d] == 0x2e
    &&& forall|i: int| 0 <= i < t.len() && i != d ==> #[trigger] t[i] != 0x2e
}

/// Whether the engine rejects something at `sp` in statement `k`, an anchor: its edge, a target that
/// is not `none` and not an id, a dot and an edge, or the edge in that target. A shorthand takes any
/// target.
pub open spec fn rejected_anchor(s: Seq<u8>, k: int, sp: ByteSpan) -> bool {
    let st = syntax::stmts(s)[k];
    let edge = s.subrange(st.key.start as int, st.key.end as int);
    &&& st.kind == StmtKind::AnchorProperty
    &&& {
        ||| sp == st.key && !is_edge(edge)
        ||| (st.value matches Some(v) && {
            let t = s.subrange(v.start as int, v.end as int);
            &&& t != "none".spec_bytes()
            &&& !is_shorthand(edge)
            &&& {
                ||| sp == v && !(exists|d: int| #[trigger] only_dot(t, d))
                ||| exists|d: int| #[trigger]
                    only_dot(t, d) && d + 1 < t.len() && sp == syntax::span(
                        v.start + d + 1,
                        v.end as int,
                    ) && !schema::member_any_case(
                        schema::ANCHOR_EDGES@,
                        t.subrange(d + 1, t.len() as int),
                    )
            }
        })
    }
}

proof fn lemma_dots(t: Seq<u8>, i: int)
    requires
        0 <= i <= t.len(),
    ensures
        diagnostics::dots(t, i) >= 0,
        diagnostics::dots(t, i) == 0 <==> forall|j: int| i <= j < t.len() ==> #[trigger] t[j] != 0x2e,
        diagnostics::dots(t, i) == 1 <==> exists|d: int| #[trigger] only_dot_from(t, i, d),
    decreases t.len() - i,
{
    if i < t.len() {
        lemma_dots(t, i + 1);
        if t[i] == 0x2e {
            if diagnostics::dots(t, i + 1) == 0 {
                assert(only_dot_from(t, i, i));
            }
            if exists|d: int| #[trigger] only_dot_from(t, i, d) {
                let d = choose|d: int| #[trigger] only_dot_from(t, i, d);
                assert(d == i);
            }
        } else {
            if exists|d: int| #[trigger] only_dot_from(t, i + 1, d) {
                let d = choose|d: int| #[trigger] only_dot_from(t, i + 1, d);
                assert(only_dot_from(t, i, d));
            }
            if exists|d: int| #[trigger] only_dot_from(t, i, d) {
                let d = choose|d: int| #[trigger] only_dot_from(t, i, d);
                assert(only_dot_from(t, i + 1, d));
            }
        }
    }
}

/// Whether there is a dot at offset `d` of `t`, and no other at or after `i`.
spec fn only_dot_from(t: Seq<u8>, i: int, d: int) -> bool {
    &&& i <= d < t.len() && t[d] == 0x2e
    &&& forall|j: int| i <= j < t.len() && j != d ==> #[trigger] t[j] != 0x2e
}

proof fn lemma_one_dot(t: Seq<u8>)
    ensures
        diagnostics::dots(t, 0) == 1 <==> exists|d: int| #[trigger] only_dot(t, d),
        forall|d: int| #[trigger] only_dot(t, d) ==> text::find_byte(t, ascii::DOT, 0) == Some(d),
{
    lemma_dots(t, 0);
    text::lemma_find_byte(t, ascii::DOT, 0);
    if exists|d: int| #[trigger] only_dot(t, d) {
        let d = choose|d: int| #[trigger] only_dot(t, d);
        assert(only_dot_from(t, 0, d));
    }
    if exists|d: int| #[trigger] only_dot_from(t, 0, d) {
        let d = choose|d: int| #[trigger] only_dot_from(t, 0, d);
        assert(only_dot(t, d));
    }
}

/// What an anchor gives for its edge and its target.
proof fn lemma_anchor_given(s: Seq<u8>, k: int, sp: ByteSpan)
    requires
        valid_utf8(s),
        s.len() <= usize::MAX,
        0 <= k < syntax::stmts(s).len(),
        syntax::stmts(s)[k].kind == StmtKind::AnchorProperty,
    ensures
        ({
            let st = syntax::stmts(s)[k];
            let all = diagnostics::anchor_edge_findings(s, st)
                + diagnostics::anchor_target_findings(s, st);
            &&& forall|i: int|
                0 <= i < all.len() ==> (#[trigger] all[i]).code == "invalid-anchor-edge"@
                    && all[i].severity == Severity::Error
            &&& rejected_anchor(s, k, sp) <==> exists|i: int|
                0 <= i < all.len() && (#[trigger] all[i]).span == sp
        }),
{
    lemma_codes();
    let st = syntax::stmts(s)[k];
    let a = diagnostics::anchor_edge_findings(s, st);
    let b = diagnostics::anchor_target_findings(s, st);
    let all = a + b;
    syntax::lemma_stmts(s);
    assert(syntax::stmt_ok(s, st));
    let edge = syntax::cut(s, st.key);
    assert(forall|i: int| 0 <= i < a.len() ==> #[trigger] all[i] == a[i]);
    assert(forall|i: int| 0 <= i < b.len() ==> #[trigger] all[a.len() + i] == b[i]);
    assert(a.len() > 0 ==> all[0] == a[0]);
    assert(b.len() > 0 ==> all[a.len() as int] == b[0]);
    if let Some(v) = st.value {
        let t = syntax::cut(s, v);
        lemma_one_dot(t);
        if exists|d: int| #[trigger] only_dot(t, d) {
            let d = choose|d: int| #[trigger] only_dot(t, d);
            assert(only_dot(t, d));
            assert(text::from(t, d + 1) == t.subrange(d + 1, t.len() as int));
        }
    }
}

/// Each anchor that the engine rejects has an error where it does so, and no other has one of that
/// code.
pub proof fn law_rejected_anchors_are_reported(s: Seq<u8>, w: Option<Workspace>, sp: ByteSpan)
    requires
        valid_utf8(s),
        s.len() <= usize::MAX,
    ensures
        reported(diagnostics::findings(s, w), Severity::Error, "invalid-anchor-edge"@, sp)
            <==> exists|k: int|
            0 <= k < syntax::stmts(s).len() && #[trigger] rejected_anchor(s, k, sp),
{
    let stmts = syntax::stmts(s);
    lemma_codes();
    if reported(diagnostics::findings(s, w), Severity::Error, "invalid-anchor-edge"@, sp) {
        let f = lemma_reported(s, w, Severity::Error, "invalid-anchor-edge"@, sp);
        lemma_kinds_of_code(s, w, f);
        let k = choose|k: int| 0 <= k < stmts.len() && #[trigger] from_stmt(s, stmts, w, k, f);
        lemma_anchor_parts(s, w, k, f);
        lemma_anchor_given(s, k, sp);
        let all = diagnostics::anchor_edge_findings(s, stmts[k])
            + diagnostics::anchor_target_findings(s, stmts[k]);
        assert(all[all.index_of(f)].span == sp);
    }
    if exists|k: int| 0 <= k < stmts.len() && #[trigger] rejected_anchor(s, k, sp) {
        let k = choose|k: int| 0 <= k < stmts.len() && #[trigger] rejected_anchor(s, k, sp);
        lemma_anchor_given(s, k, sp);
        let all = diagnostics::anchor_edge_findings(s, stmts[k])
            + diagnostics::anchor_target_findings(s, stmts[k]);
        let i = choose|i: int| 0 <= i < all.len() && (#[trigger] all[i]).span == sp;
        assert(all.contains(all[i]));
        lemma_anchor_parts(s, w, k, all[i]);
        lemma_report(s, w, all[i]);
    }
}

/// The findings about an anchor are that about the layout of its parent and those about its edge and
/// its target.
proof fn lemma_anchor_parts(s: Seq<u8>, w: Option<Workspace>, k: int, f: DiagnosticView)
    requires
        syntax::stmts(s)[k].kind == StmtKind::AnchorProperty,
        f.code == "invalid-anchor-edge"@,
    ensures
        from_stmt(s, syntax::stmts(s), w, k, f) <==> (diagnostics::anchor_edge_findings(
            s,
            syntax::stmts(s)[k],
        ) + diagnostics::anchor_target_findings(s, syntax::stmts(s)[k])).contains(f),
{
    lemma_codes();
    let stmts = syntax::stmts(s);
    let a = diagnostics::anchor_layout_findings(s, stmts, k);
    let b = diagnostics::anchor_edge_findings(s, stmts[k]);
    let c = diagnostics::anchor_target_findings(s, stmts[k]);
    lemma_in_either(a, b, f);
    lemma_in_either(a + b, c, f);
    lemma_in_either(b, c, f);
}

// ---------------------------------------------------------------------------------------------
// Properties
// ---------------------------------------------------------------------------------------------

/// Whether statement `k` is a property in the body of `layout:`.
pub open spec fn in_layout(s: Seq<u8>, k: int) -> bool {
    let stmts = syntax::stmts(s);
    stmts[k].parent matches Some(p) && p < stmts.len() && stmts[p as int].kind
        == StmtKind::Property && syntax::cut(s, stmts[p as int].key) == "layout".spec_bytes()
}

/// Whether statement `k` has a body.
pub open spec fn has_body(stmts: Seq<Stmt>, k: int) -> bool {
    exists|j: int| 0 <= j < stmts.len() && (#[trigger] stmts[j]).parent == Some(k as usize)
}

/// Whether every widget, or the registry of styles, reads a key.
pub open spec fn always_read(key: Seq<u8>) -> bool {
    schema::member(catalog::PROPERTIES@, key) || schema::member(catalog::STYLE_META_KEYS@, key)
}

/// Whether a Lua class reads a property that the widget of the given body has in its ancestry.
pub open spec fn lua_reads(
    s: Seq<u8>,
    ws: Workspace,
    parent: Option<usize>,
    prop: Seq<char>,
) -> bool {
    parent matches Some(p) && diagnostics::scope_type(s, syntax::stmts(s), ws, p as int) matches Some(
        name,
    ) && completion_laws::read_in_lua(
        ws,
        widget_resolve::ancestry(ws.styles, ws.lua, name),
        prop,
    )
}

/// Whether the engine ignores statement `k`, a property: in the body of `layout:` it is none of the
/// keys of a layout; elsewhere it has no body, no widget reads it, and neither does a Lua class that
/// the widget has in its ancestry.
pub open spec fn ignored_property(s: Seq<u8>, w: Option<Workspace>, k: int) -> bool {
    let st = syntax::stmts(s)[k];
    let key = s.subrange(st.key.start as int, st.key.end as int);
    &&& st.kind == StmtKind::Property
    &&& if in_layout(s, k) {
        !schema::member(catalog::LAYOUT_PROPERTIES@, key)
    } else {
        &&& !has_body(syntax::stmts(s), k)
        &&& !always_read(key)
        &&& !(w matches Some(ws) && lua_reads(s, ws, st.parent, text::chars_of(key)))
    }
}

proof fn lemma_lua_accepts(s: Seq<u8>, ws: Workspace, k: int, prop: Seq<char>)
    ensures
        diagnostics::lua_accepts(s, syntax::stmts(s), Some(ws), k, text::bytes_of(prop))
            == lua_reads(s, ws, syntax::stmts(s)[k].parent, prop),
{
    if let Some(p) = syntax::stmts(s)[k].parent {
        if let Some(name) = diagnostics::scope_type(s, syntax::stmts(s), ws, p as int) {
            completion_laws::lemma_read_in_lua(
                ws,
                widget_resolve::ancestry(ws.styles, ws.lua, name),
                prop,
            );
        }
    }
}

proof fn lemma_key_text(s: Seq<u8>, k: int)
    requires
        valid_utf8(s),
        s.len() <= usize::MAX,
        0 <= k < syntax::stmts(s).len(),
    ensures
        text::bytes_of(text::chars_of(syntax::cut(s, syntax::stmts(s)[k].key))) == syntax::cut(
            s,
            syntax::stmts(s)[k].key,
        ),
{
    let st = syntax::stmts(s)[k];
    syntax::lemma_stmts(s);
    assert(syntax::stmt_ok(s, st));
    text::lemma_part(s, st.key.start as int, st.key.end as int);
    decode_utf8_encode_utf8(syntax::cut(s, st.key));
}

/// What a property gives for its key.
proof fn lemma_key_given(s: Seq<u8>, w: Option<Workspace>, k: int)
    requires
        valid_utf8(s),
        s.len() <= usize::MAX,
        0 <= k < syntax::stmts(s).len(),
        syntax::stmts(s)[k].kind == StmtKind::Property,
    ensures
        ({
            let all = diagnostics::key_findings(s, syntax::stmts(s), w, k);
            if ignored_property(s, w, k) {
                all.len() == 1 && all[0].code == "unknown-property"@ && all[0].severity
                    == Severity::Hint && all[0].span == syntax::stmts(s)[k].key
            } else {
                all.len() == 0
            }
        }),
{
    let stmts = syntax::stmts(s);
    let key = syntax::cut(s, stmts[k].key);
    lemma_key_text(s, k);
    if let Some(ws) = w {
        lemma_lua_accepts(s, ws, k, text::chars_of(key));
    }
    lemma_key_cases(
        s,
        stmts,
        w,
        k,
        w matches Some(ws) && lua_reads(s, ws, stmts[k].parent, text::chars_of(key)),
    );
    assert(nodes::in_block(s, stmts, k, "layout".spec_bytes()) == in_layout(s, k));
    assert(nodes::has_body(stmts, k) == has_body(stmts, k));
}

proof fn lemma_key_cases(
    s: Seq<u8>,
    stmts: Seq<Stmt>,
    w: Option<Workspace>,
    k: int,
    accepted: bool,
)
    requires
        diagnostics::lua_accepts(s, stmts, w, k, syntax::cut(s, stmts[k].key)) == accepted,
    ensures
        ({
            let all = diagnostics::key_findings(s, stmts, w, k);
            let key = syntax::cut(s, stmts[k].key);
            let bad = if nodes::in_block(s, stmts, k, "layout".spec_bytes()) {
                !schema::member(catalog::LAYOUT_PROPERTIES@, key)
            } else {
                !nodes::has_body(stmts, k) && !always_read(key) && !accepted
            };
            if bad {
                all.len() == 1 && all[0].code == "unknown-property"@ && all[0].severity
                    == Severity::Hint && all[0].span == stmts[k].key
            } else {
                all.len() == 0
            }
        }),
{
    lemma_codes();
    lemma_always_read(syntax::cut(s, stmts[k].key));
}

proof fn lemma_always_read(key: Seq<u8>)
    ensures
        schema::known_property(key) == always_read(key),
{
    reveal(schema::known_property);
}

proof fn lemma_property_parts(s: Seq<u8>, w: Option<Workspace>, k: int, f: DiagnosticView)
    requires
        valid_utf8(s),
        s.len() <= usize::MAX,
        0 <= k < syntax::stmts(s).len(),
        syntax::stmts(s)[k].kind == StmtKind::Property,
    ensures
        f.code == "unknown-property"@ ==> (from_stmt(s, syntax::stmts(s), w, k, f)
            <==> diagnostics::key_findings(s, syntax::stmts(s), w, k).contains(f)),
        f.code == "invalid-property-value"@ ==> (from_stmt(s, syntax::stmts(s), w, k, f)
            <==> !in_layout(s, k) && diagnostics::value_findings(
            s,
            syntax::stmts(s),
            k,
        ).contains(f)),
{
    lemma_codes();
    let a = diagnostics::key_findings(s, syntax::stmts(s), w, k);
    let b = diagnostics::value_findings(s, syntax::stmts(s), k);
    lemma_in_either(a, b, f);
    lemma_key_given(s, w, k);
    if b.contains(f) {
        lemma_value_code(s, k, f);
    }
}

proof fn lemma_value_code(s: Seq<u8>, k: int, f: DiagnosticView)
    requires
        diagnostics::value_findings(s, syntax::stmts(s), k).contains(f),
    ensures
        f.code == "invalid-property-value"@,
        f.severity == Severity::Error,
{
    lemma_codes();
}

/// Each property that the engine ignores has a hint at its key, and no other has one of that code.
pub proof fn law_ignored_properties_are_reported(s: Seq<u8>, w: Option<Workspace>, sp: ByteSpan)
    requires
        valid_utf8(s),
        s.len() <= usize::MAX,
    ensures
        reported(diagnostics::findings(s, w), Severity::Hint, "unknown-property"@, sp) <==> exists|
            k: int,
        |
            0 <= k < syntax::stmts(s).len() && #[trigger] ignored_property(s, w, k)
                && syntax::stmts(s)[k].key == sp,
{
    let stmts = syntax::stmts(s);
    lemma_codes();
    if reported(diagnostics::findings(s, w), Severity::Hint, "unknown-property"@, sp) {
        let f = lemma_reported(s, w, Severity::Hint, "unknown-property"@, sp);
        lemma_kinds_of_code(s, w, f);
        let k = choose|k: int| 0 <= k < stmts.len() && #[trigger] from_stmt(s, stmts, w, k, f);
        lemma_property_parts(s, w, k, f);
        lemma_key_given(s, w, k);
        assert(ignored_property(s, w, k));
    }
    if exists|k: int|
        0 <= k < stmts.len() && #[trigger] ignored_property(s, w, k) && stmts[k].key == sp {
        let k = choose|k: int|
            0 <= k < stmts.len() && #[trigger] ignored_property(s, w, k) && stmts[k].key == sp;
        lemma_key_given(s, w, k);
        let all = diagnostics::key_findings(s, stmts, w, k);
        assert(all.contains(all[0]));
        lemma_property_parts(s, w, k, all[0]);
        lemma_report(s, w, all[0]);
    }
}

// ---------------------------------------------------------------------------------------------
// Values
// ---------------------------------------------------------------------------------------------

/// Whether the value of statement `k` stands at `sp` without the white space around it, and is
/// neither empty nor a variable.
pub open spec fn literal_at(s: Seq<u8>, k: int, sp: ByteSpan) -> bool {
    syntax::stmts(s)[k].value matches Some(v) && {
        let p = text::trim_at(s, v.start as int, v.end as int);
        sp == syntax::span(p.0, p.1) && p.0 < p.1 && s[p.0] != 0x24
    }
}

/// Whether statement `t` is the first `type:` in the body of statement `k`.
pub open spec fn first_type(s: Seq<u8>, k: int, t: int) -> bool {
    let stmts = syntax::stmts(s);
    &&& 0 <= t < stmts.len()
    &&& is_type_of(s, k, t)
    &&& forall|j: int| 0 <= j < t ==> !#[trigger] is_type_of(s, k, j)
}

/// Whether statement `t` is a `type:` in the body of statement `k`.
pub open spec fn is_type_of(s: Seq<u8>, k: int, t: int) -> bool {
    let st = syntax::stmts(s)[t];
    st.kind == StmtKind::Property && st.parent == Some(k as usize) && syntax::cut(s, st.key)
        == "type".spec_bytes()
}

/// Whether the engine rejects the value at `sp` of statement `k`, a property: a `display` that is
/// none of its words in any case, a `border` that is no border, a color that is none, and a `layout`,
/// or else the `type` in its body, that is no layout.
pub open spec fn rejected_value(s: Seq<u8>, k: int, sp: ByteSpan) -> bool {
    let st = syntax::stmts(s)[k];
    let key = s.subrange(st.key.start as int, st.key.end as int);
    let value = s.subrange(sp.start as int, sp.end as int);
    &&& st.kind == StmtKind::Property
    &&& !in_layout(s, k)
    &&& if key == "layout".spec_bytes() {
        !schema::member(schema::LAYOUT_TYPES@, value) && if exists|x: ByteSpan| literal_at(s, k, x) {
            literal_at(s, k, sp)
        } else {
            exists|t: int| #[trigger] first_type(s, k, t) && literal_at(s, t, sp)
        }
    } else {
        &&& literal_at(s, k, sp)
        &&& if key == "display".spec_bytes() {
            !schema::member_any_case(schema::DISPLAY_VALUES@, value)
        } else if key == "border".spec_bytes() {
            !palette::border(value)
        } else {
            schema::member(catalog::COLOR_PROPERTIES@, key) && palette::color(value) is None
        }
    }
}

proof fn lemma_literal(s: Seq<u8>, k: int)
    requires
        valid_utf8(s),
        s.len() <= usize::MAX,
        0 <= k < syntax::stmts(s).len(),
    ensures
        match diagnostics::literal_value(s, syntax::stmts(s)[k]) {
            Some(p) => 0 <= p.0 < p.1 <= s.len() && forall|sp: ByteSpan| #[trigger]
                literal_at(s, k, sp) <==> sp == syntax::span(p.0, p.1),
            None => forall|sp: ByteSpan| !#[trigger] literal_at(s, k, sp),
        },
{
    let st = syntax::stmts(s)[k];
    syntax::lemma_stmts(s);
    assert(syntax::stmt_ok(s, st));
    if let Some(v) = st.value {
        text::lemma_trim_at(s, v.start as int, v.end as int);
    }
}

proof fn lemma_first_type(s: Seq<u8>, k: int, j: int)
    requires
        0 <= k,
        0 <= j,
        forall|i: int| 0 <= i < j ==> !#[trigger] is_type_of(s, k, i),
    ensures
        match style_index::find_property(s, syntax::stmts(s), k, "type".spec_bytes(), j) {
            Some(t) => forall|x: int| #[trigger] first_type(s, k, x) <==> x == t,
            None => forall|x: int| !#[trigger] first_type(s, k, x),
        },
    decreases syntax::stmts(s).len() - j,
{
    let stmts = syntax::stmts(s);
    if j < stmts.len() {
        assert(style_index::property_of(s, stmts, k, "type".spec_bytes(), j) == is_type_of(
            s,
            k,
            j,
        ));
        if !is_type_of(s, k, j) {
            lemma_first_type(s, k, j + 1);
        } else {
            assert(first_type(s, k, j));
            assert forall|x: int| #[trigger] first_type(s, k, x) implies x == j by {
                if x < j {
                    assert(!is_type_of(s, k, x));
                }
            }
        }
    } else {
        assert forall|x: int| !#[trigger] first_type(s, k, x) by {
            if first_type(s, k, x) {
                assert(!is_type_of(s, k, x));
            }
        }
    }
}

proof fn lemma_layout_given(s: Seq<u8>, k: int, sp: ByteSpan)
    requires
        valid_utf8(s),
        s.len() <= usize::MAX,
        0 <= k < syntax::stmts(s).len(),
        syntax::stmts(s)[k].kind == StmtKind::Property,
        !in_layout(s, k),
        syntax::cut(s, syntax::stmts(s)[k].key) == "layout".spec_bytes(),
    ensures
        rejected_value(s, k, sp) <==> exists|i: int|
            0 <= i < diagnostics::layout_value_findings(s, syntax::stmts(s), k).len() && (
            #[trigger] diagnostics::layout_value_findings(s, syntax::stmts(s), k)[i]).span == sp,
{
    let stmts = syntax::stmts(s);
    let all = diagnostics::layout_value_findings(s, stmts, k);
    lemma_literal(s, k);
    lemma_first_type(s, k, 0);
    style_index::lemma_find_property(s, stmts, k, "type".spec_bytes(), 0);
    match diagnostics::literal_value(s, stmts[k]) {
        Some(p) => {
            let x = syntax::span(p.0, p.1);
            assert(literal_at(s, k, x));
            assert(s.subrange(x.start as int, x.end as int) == s.subrange(p.0, p.1));
            if all.len() > 0 {
                assert(all[0].span == x);
            }
        },
        None => {
            match style_index::find_property(s, stmts, k, "type".spec_bytes(), 0) {
                Some(t) => {
                    lemma_literal(s, t);
                    assert(first_type(s, k, t));
                    if let Some(p) = diagnostics::literal_value(s, stmts[t]) {
                        let x = syntax::span(p.0, p.1);
                        assert(literal_at(s, t, x));
                        assert(s.subrange(x.start as int, x.end as int) == s.subrange(p.0, p.1));
                        if all.len() > 0 {
                            assert(all[0].span == x);
                        }
                    }
                },
                None => {},
            }
        },
    }
}

proof fn lemma_value_given(s: Seq<u8>, k: int, sp: ByteSpan)
    requires
        valid_utf8(s),
        s.len() <= usize::MAX,
        0 <= k < syntax::stmts(s).len(),
        syntax::stmts(s)[k].kind == StmtKind::Property,
        !in_layout(s, k),
    ensures
        rejected_value(s, k, sp) <==> exists|i: int|
            0 <= i < diagnostics::value_findings(s, syntax::stmts(s), k).len() && (
            #[trigger] diagnostics::value_findings(s, syntax::stmts(s), k)[i]).span == sp,
{
    let stmts = syntax::stmts(s);
    let all = diagnostics::value_findings(s, stmts, k);
    let key = syntax::cut(s, stmts[k].key);
    if key == "layout".spec_bytes() {
        lemma_layout_given(s, k, sp);
    } else {
        lemma_literal(s, k);
        if let Some(p) = diagnostics::literal_value(s, stmts[k]) {
            let x = syntax::span(p.0, p.1);
            assert(literal_at(s, k, x));
            assert(s.subrange(x.start as int, x.end as int) == s.subrange(p.0, p.1));
            if all.len() > 0 {
                assert(all[0].span == x);
            }
        }
    }
}

/// Each value that the engine rejects has an error, and no other has one of that code.
pub proof fn law_rejected_values_are_reported(s: Seq<u8>, w: Option<Workspace>, sp: ByteSpan)
    requires
        valid_utf8(s),
        s.len() <= usize::MAX,
    ensures
        reported(diagnostics::findings(s, w), Severity::Error, "invalid-property-value"@, sp)
            <==> exists|k: int|
            0 <= k < syntax::stmts(s).len() && #[trigger] rejected_value(s, k, sp),
{
    let stmts = syntax::stmts(s);
    lemma_codes();
    if reported(diagnostics::findings(s, w), Severity::Error, "invalid-property-value"@, sp) {
        let f = lemma_reported(s, w, Severity::Error, "invalid-property-value"@, sp);
        lemma_kinds_of_code(s, w, f);
        let k = choose|k: int| 0 <= k < stmts.len() && #[trigger] from_stmt(s, stmts, w, k, f);
        lemma_property_parts(s, w, k, f);
        lemma_value_given(s, k, sp);
        let all = diagnostics::value_findings(s, stmts, k);
        assert(all[all.index_of(f)].span == sp);
        assert(rejected_value(s, k, sp));
    }
    if exists|k: int| 0 <= k < stmts.len() && #[trigger] rejected_value(s, k, sp) {
        let k = choose|k: int| 0 <= k < stmts.len() && #[trigger] rejected_value(s, k, sp);
        lemma_value_given(s, k, sp);
        let all = diagnostics::value_findings(s, stmts, k);
        let i = choose|i: int| 0 <= i < all.len() && (#[trigger] all[i]).span == sp;
        assert(all.contains(all[i]));
        lemma_value_code(s, k, all[i]);
        lemma_property_parts(s, w, k, all[i]);
        lemma_report(s, w, all[i]);
    }
}

// ---------------------------------------------------------------------------------------------
// Indentation
// ---------------------------------------------------------------------------------------------

/// Whether exactly `n` spaces stand in front of a line.
pub open spec fn leads_with(t: Seq<u8>, n: int) -> bool {
    &&& 0 <= n <= t.len()
    &&& forall|i: int| 0 <= i < n ==> #[trigger] t[i] == 0x20
    &&& n < t.len() ==> t[n] != 0x20
}

/// Whether a line has more than white space.
pub open spec fn has_text(t: Seq<u8>) -> bool {
    text::trim(t).len() > 0
}

/// Whether a line has text that is no comment.
pub open spec fn is_structure(t: Seq<u8>) -> bool {
    has_text(t) && {
        let u = text::trim(t);
        u[0] != 0x23 && !(u[0] == 0x2f && u.len() > 1 && u[1] == 0x2f)
    }
}

/// Whether line `j` is the last line of structure above line `k`.
pub open spec fn structure_above(lines: Seq<Seq<u8>>, j: int, k: int) -> bool {
    &&& 0 <= j < k
    &&& is_structure(lines[j])
    &&& forall|i: int| j < i < k ==> !is_structure(#[trigger] lines[i])
}

/// The depth of the last line of structure above line `k`: half its spaces, or nothing where there is
/// none.
pub open spec fn depth_above(lines: Seq<Seq<u8>>, k: int, depth: int) -> bool {
    ||| exists|j: int, n: int|
        structure_above(lines, j, k) && #[trigger] leads_with(lines[j], n) && depth == n / 2
    ||| depth == 0 && forall|j: int| 0 <= j < k ==> !is_structure(#[trigger] lines[j])
}

/// Whether a tab at `sp` is in the indentation of line `k`.
pub open spec fn tab_at(s: Seq<u8>, k: int, sp: ByteSpan) -> bool {
    let t = indent::texts(s)[k];
    let start = indent::lines(s)[k].0;
    has_text(t) && exists|n: int| #[trigger]
        leads_with(t, n) && n < t.len() && t[n] == 0x09 && sp == syntax::span(
            start + n,
            start + n + 1,
        )
}

/// Whether an odd number of spaces, those at `sp`, are the indentation of line `k`.
pub open spec fn odd_at(s: Seq<u8>, k: int, sp: ByteSpan) -> bool {
    let t = indent::texts(s)[k];
    let start = indent::lines(s)[k].0;
    has_text(t) && exists|n: int| #[trigger]
        leads_with(t, n) && n % 2 == 1 && !(n < t.len() && t[n] == 0x09) && sp == syntax::span(
            start,
            start + n,
        )
}

/// Whether line `k`, whose text stands at `sp`, is indented by more than one level below the last
/// line of structure above it.
pub open spec fn jump_at(s: Seq<u8>, k: int, sp: ByteSpan) -> bool {
    let t = indent::texts(s)[k];
    let start = indent::lines(s)[k].0;
    is_structure(t) && exists|n: int, depth: int|
        #![trigger leads_with(t, n), depth_above(indent::texts(s), k, depth)]
        leads_with(t, n) && n % 2 == 0 && !(n < t.len() && t[n] == 0x09) && depth_above(
            indent::texts(s),
            k,
            depth,
        ) && n / 2 > depth + 1 && sp == syntax::span(start + n, start + text::trim_end(t).len())
}

proof fn lemma_leads(t: Seq<u8>, i: int)
    requires
        0 <= i <= t.len(),
    ensures
        0 <= indent::spaces_from(t, i) <= t.len() - i,
        forall|j: int| i <= j < i + indent::spaces_from(t, i) ==> #[trigger] t[j] == 0x20,
        i + indent::spaces_from(t, i) < t.len() ==> t[i + indent::spaces_from(t, i)] != 0x20,
    decreases t.len() - i,
{
    if i < t.len() && t[i] == 0x20 {
        lemma_leads(t, i + 1);
    }
}

proof fn lemma_leads_with(t: Seq<u8>, n: int)
    ensures
        leads_with(t, n) <==> n == indent::spaces(t),
{
    lemma_leads(t, 0);
    let m = indent::spaces(t);
    if leads_with(t, n) {
        if n < m {
            assert(t[n] == 0x20);
        } else if m < n {
            assert(t[m] == 0x20);
        }
    }
}

/// Where a document has no `|`, no line announces a block scalar.
proof fn lemma_no_marker(t: Seq<u8>)
    requires
        forall|i: int| 0 <= i < t.len() ==> #[trigger] t[i] != 0x7c,
    ensures
        indent::opened(t) is None,
{
    let u = text::trim(t);
    lemma_trim_bytes(t);
    let v = indent::value_of(u);
    text::lemma_find_byte(u, ascii::COLON, 0);
    assert forall|i: int| 0 <= i < v.len() implies #[trigger] v[i] != 0x7c by {
        if text::has(u, 0, ascii::DASH) {
            lemma_trim_bytes(text::from(u, 1));
        } else if let Some(k) = text::find_byte(u, ascii::COLON, 0) {
            lemma_trim_bytes(text::from(u, k + 1));
        }
    }
    reveal_strlit("|");
    reveal_strlit("|-");
    reveal_strlit("|+");
    is_ascii_chars_encode_utf8("|"@);
    is_ascii_chars_encode_utf8("|-"@);
    is_ascii_chars_encode_utf8("|+"@);
    assert("|".spec_bytes()[0] == 0x7c && "|".spec_bytes().len() == 1);
    assert("|-".spec_bytes()[0] == 0x7c && "|-".spec_bytes().len() == 2);
    assert("|+".spec_bytes()[0] == 0x7c && "|+".spec_bytes().len() == 2);
    if v.len() > 0 {
        assert(v[0] != 0x7c);
    }
}

/// Cutting white space off leaves bytes of the text.
proof fn lemma_trim_bytes(t: Seq<u8>)
    requires
        forall|i: int| 0 <= i < t.len() ==> #[trigger] t[i] != 0x7c,
    ensures
        forall|i: int| 0 <= i < text::trim(t).len() ==> #[trigger] text::trim(t)[i] != 0x7c,
{
    let a = text::skip_ws(t, 0);
    text::lemma_skip_ws_grows(t, 0);
    lemma_skip_within(t, 0);
    let u = text::trim_start(t);
    let b = text::skip_ws_back(u, u.len() as int);
    lemma_skip_back_within(u, u.len() as int);
    assert forall|i: int| 0 <= i < text::trim(t).len() implies #[trigger] text::trim(t)[i] != 0x7c by {
        assert(text::trim(t)[i] == u[i]);
        assert(u[i] == t[a + i]);
    }
}

proof fn lemma_skip_within(t: Seq<u8>, i: int)
    requires
        0 <= i <= t.len(),
    ensures
        text::skip_ws(t, i) <= t.len(),
    decreases t.len() - i,
{
    if text::ws_len(t, i) > 0 {
        lemma_skip_within(t, i + text::ws_len(t, i));
    }
}

proof fn lemma_skip_back_within(t: Seq<u8>, j: int)
    requires
        0 <= j,
    ensures
        0 <= text::skip_ws_back(t, j) <= j,
    decreases j,
{
    if j > 0 && text::ws_len_before(t, j) > 0 {
        lemma_skip_back_within(t, j - text::ws_len_before(t, j));
    }
}

/// What the pass makes of line `k`, in a document without block scalars.
proof fn lemma_verdict(lines: Seq<Seq<u8>>, i: int, depth: int, k: int)
    requires
        0 <= i <= k < lines.len(),
        depth_above(lines, i, depth),
        forall|j: int| 0 <= j < lines.len() ==> indent::opened(#[trigger] lines[j]) is None,
    ensures
        exists|d: int| #[trigger]
            depth_above(lines, k, d) && k - i < diagnostics::verdicts_from(
                lines,
                i,
                depth,
                None,
            ).len() && diagnostics::verdicts_from(lines, i, depth, None)[k - i].flaw
                == diagnostics::judged(lines[k], d, None).0.flaw,
    decreases k - i,
{
    let j = diagnostics::judged(lines[i], depth, None);
    let rest = diagnostics::verdicts_from(lines, i + 1, j.1, j.2);
    let all = diagnostics::verdicts_from(lines, i, depth, None);
    assert(all == seq![j.0] + rest);
    assert(indent::opened(lines[i]) is None);
    if i == k {
        assert(all[0] == j.0);
    } else {
        lemma_leads_with(lines[i], indent::spaces(lines[i]));
        lemma_structure(lines[i]);
        assert(depth_above(lines, i + 1, j.1)) by {
            if is_structure(lines[i]) {
                assert(structure_above(lines, i, i + 1));
                assert(leads_with(lines[i], indent::spaces(lines[i])));
            } else if exists|a: int, n: int|
                structure_above(lines, a, i) && #[trigger] leads_with(lines[a], n) && depth == n
                    / 2 {
                let (a, n) = choose|a: int, n: int|
                    structure_above(lines, a, i) && #[trigger] leads_with(lines[a], n) && depth
                        == n / 2;
                assert(structure_above(lines, a, i + 1));
                assert(leads_with(lines[a], n));
            }
        }
        lemma_verdict(lines, i + 1, j.1, k);
        let d = choose|d: int| #[trigger]
            depth_above(lines, k, d) && k - (i + 1) < rest.len() && rest[k - (i + 1)].flaw
                == diagnostics::judged(lines[k], d, None).0.flaw;
        assert(all[k - i] == rest[k - (i + 1)]);
        assert(depth_above(lines, k, d));
    }
}

/// A line is one of structure where it is neither blank nor a comment.
proof fn lemma_structure(t: Seq<u8>)
    ensures
        is_structure(t) <==> has_text(t) && !indent::comment(text::trim(t)),
{
}

proof fn lemma_depth_once(lines: Seq<Seq<u8>>, k: int, a: int, b: int)
    requires
        depth_above(lines, k, a),
        depth_above(lines, k, b),
    ensures
        a == b,
{
    if exists|j: int, n: int|
        structure_above(lines, j, k) && #[trigger] leads_with(lines[j], n) && a == n / 2 {
        let (j, n) = choose|j: int, n: int|
            structure_above(lines, j, k) && #[trigger] leads_with(lines[j], n) && a == n / 2;
        lemma_leads_with(lines[j], n);
        if exists|i: int, m: int|
            structure_above(lines, i, k) && #[trigger] leads_with(lines[i], m) && b == m / 2 {
            let (i, m) = choose|i: int, m: int|
                structure_above(lines, i, k) && #[trigger] leads_with(lines[i], m) && b == m / 2;
            lemma_leads_with(lines[i], m);
            assert(i == j) by {
                if i < j {
                    assert(!is_structure(lines[j]));
                } else if j < i {
                    assert(!is_structure(lines[i]));
                }
            }
        } else {
            assert(!is_structure(lines[j]));
        }
    } else if exists|i: int, m: int|
        structure_above(lines, i, k) && #[trigger] leads_with(lines[i], m) && b == m / 2 {
        let (i, m) = choose|i: int, m: int|
            structure_above(lines, i, k) && #[trigger] leads_with(lines[i], m) && b == m / 2;
        assert(!is_structure(lines[i]));
    }
}

/// What the indentation of line `k` gives.
proof fn lemma_line_given(s: Seq<u8>, k: int, f: DiagnosticView)
    requires
        s.len() <= usize::MAX,
        forall|i: int| 0 <= i < s.len() ==> #[trigger] s[i] != 0x7c,
        0 <= k < indent::lines(s).len(),
    ensures
        from_line(s, k, f) ==> f.severity == Severity::Error && {
            ||| f.code == "tab-indentation"@ && tab_at(s, k, f.span)
            ||| f.code == "odd-indentation"@ && odd_at(s, k, f.span)
            ||| f.code == "invalid-indentation-depth"@ && jump_at(s, k, f.span)
        },
        tab_at(s, k, f.span) ==> line_reports(s, k, "tab-indentation"@, f.span),
        odd_at(s, k, f.span) ==> line_reports(s, k, "odd-indentation"@, f.span),
        jump_at(s, k, f.span) ==> line_reports(s, k, "invalid-indentation-depth"@, f.span),
{
    lemma_codes();
    let lines = indent::texts(s);
    let t = lines[k];
    let start = indent::lines(s)[k].0;
    let n = indent::spaces(t);
    assert forall|j: int| 0 <= j < lines.len() implies indent::opened(#[trigger] lines[j]) is None by {
        lemma_line_in_text(s, j);
        assert forall|i: int| 0 <= i < lines[j].len() implies #[trigger] lines[j][i] != 0x7c by {
            assert(lines[j][i] == s[indent::lines(s)[j].0 + i]);
        }
        lemma_no_marker(lines[j]);
    }
    assert(depth_above(lines, 0, 0));
    lemma_verdict(lines, 0, 0, k);
    let d = choose|d: int| #[trigger]
        depth_above(lines, k, d) && k - 0 < diagnostics::verdicts_from(lines, 0, 0, None).len()
            && diagnostics::verdicts_from(lines, 0, 0, None)[k - 0].flaw == diagnostics::judged(
            t,
            d,
            None,
        ).0.flaw;
    let flaw = diagnostics::verdicts(s)[k].flaw;
    assert(flaw == diagnostics::judged(t, d, None).0.flaw);
    lemma_structure(t);
    lemma_leads_with(t, n);
    assert(leads_with(t, n));
    assert forall|m: int| #[trigger] leads_with(t, m) implies m == n by {
        lemma_leads_with(t, m);
    }
    assert forall|e: int| #[trigger] depth_above(lines, k, e) implies e == d by {
        lemma_depth_once(lines, k, e, d);
    }
    let all = diagnostics::flaw_findings(start, t, flaw);
    if all.len() > 0 {
        assert(all.contains(all[0]));
        assert(from_line(s, k, all[0]));
    }
}

/// Whether the indentation of line `k` gives a finding of the given code at the given place.
spec fn line_reports(s: Seq<u8>, k: int, code: Seq<char>, sp: ByteSpan) -> bool {
    exists|f: DiagnosticView| #[trigger]
        from_line(s, k, f) && f.severity == Severity::Error && f.code == code && f.span == sp
}

proof fn lemma_line_in_text(s: Seq<u8>, j: int)
    requires
        0 <= j < indent::lines(s).len(),
    ensures
        0 <= indent::lines(s)[j].0 <= indent::lines(s)[j].1 <= s.len(),
{
    indent::lemma_lines(s, 0);
}

/// In a document without block scalars, a tab in the indentation of a line is an error, an odd number
/// of spaces is one, and so is a line of structure that is more than one level deeper than the one
/// above it. There are no other findings of these codes.
pub proof fn law_indentation_is_reported(s: Seq<u8>, w: Option<Workspace>, sp: ByteSpan)
    requires
        s.len() <= usize::MAX,
        forall|i: int| 0 <= i < s.len() ==> #[trigger] s[i] != 0x7c,
    ensures
        reported(diagnostics::findings(s, w), Severity::Error, "tab-indentation"@, sp) <==> exists|
            k: int,
        | 0 <= k < indent::lines(s).len() && #[trigger] tab_at(s, k, sp),
        reported(diagnostics::findings(s, w), Severity::Error, "odd-indentation"@, sp) <==> exists|
            k: int,
        | 0 <= k < indent::lines(s).len() && #[trigger] odd_at(s, k, sp),
        reported(
            diagnostics::findings(s, w),
            Severity::Error,
            "invalid-indentation-depth"@,
            sp,
        ) <==> exists|k: int| 0 <= k < indent::lines(s).len() && #[trigger] jump_at(s, k, sp),
{
    lemma_codes();
    let n = indent::lines(s).len() as int;
    let fs = diagnostics::findings(s, w);
    assert forall|code: Seq<char>|
        (code == "tab-indentation"@ || code == "odd-indentation"@ || code
            == "invalid-indentation-depth"@) && #[trigger] reported(
            fs,
            Severity::Error,
            code,
            sp,
        ) implies exists|k: int| 0 <= k < n && #[trigger] line_reports(s, k, code, sp) by {
        let f = lemma_reported(s, w, Severity::Error, code, sp);
        lemma_kinds_of_code(s, w, f);
        let k = choose|k: int| 0 <= k < n && #[trigger] from_line(s, k, f);
        assert(from_line(s, k, f));
        assert(line_reports(s, k, code, sp));
    }
    assert forall|k: int, code: Seq<char>|
        0 <= k < n && #[trigger] line_reports(s, k, code, sp) implies reported(
        fs,
        Severity::Error,
        code,
        sp,
    ) && (code == "tab-indentation"@ ==> tab_at(s, k, sp)) && (code == "odd-indentation"@ ==> odd_at(
        s,
        k,
        sp,
    )) && (code == "invalid-indentation-depth"@ ==> jump_at(s, k, sp)) by {
        let f = choose|f: DiagnosticView| #[trigger]
            from_line(s, k, f) && f.severity == Severity::Error && f.code == code && f.span == sp;
        lemma_line_given(s, k, f);
        lemma_report(s, w, f);
    }
    let any = DiagnosticView {
        severity: Severity::Error,
        code: Seq::empty(),
        message: Seq::empty(),
        span: sp,
    };
    assert forall|k: int| 0 <= k < n && #[trigger] tab_at(s, k, sp) implies line_reports(
        s,
        k,
        "tab-indentation"@,
        sp,
    ) by {
        lemma_line_given(s, k, any);
    }
    assert forall|k: int| 0 <= k < n && #[trigger] odd_at(s, k, sp) implies line_reports(
        s,
        k,
        "odd-indentation"@,
        sp,
    ) by {
        lemma_line_given(s, k, any);
    }
    assert forall|k: int| 0 <= k < n && #[trigger] jump_at(s, k, sp) implies line_reports(
        s,
        k,
        "invalid-indentation-depth"@,
        sp,
    ) by {
        lemma_line_given(s, k, any);
    }
}

/// The findings that every kind of document shares have one of four codes.
pub proof fn law_structural_codes(s: Seq<u8>, f: DiagnosticView)
    requires
        diagnostics::structural_findings(s).contains(f),
    ensures
        f.code == "tab-indentation"@ || f.code == "odd-indentation"@ || f.code
            == "invalid-indentation-depth"@ || f.code == "syntax-error"@,
        f.severity == Severity::Error,
{
    lemma_codes();
    let stmts = syntax::stmts(s);
    let n = indent::lines(s).len() as int;
    lemma_in_either(
        diagnostics::indentation_findings(s),
        diagnostics::errors_upto(stmts, stmts.len() as int),
        f,
    );
    lemma_from_lines(s, n, f);
    lemma_from_errors(stmts, stmts.len() as int, f);
    if diagnostics::indentation_findings(s).contains(f) {
        let k = choose|k: int| 0 <= k < n && #[trigger] from_line(s, k, f);
        lemma_line_code(s, k, f);
    } else {
        let k = choose|k: int| 0 <= k < stmts.len() && #[trigger] from_error(stmts, k, f);
        lemma_error_code(stmts, k, f);
    }
}

// ---------------------------------------------------------------------------------------------
// Anchors and layouts
// ---------------------------------------------------------------------------------------------

/// Whether statement `l` is a `layout:` in the body of statement `q`.
pub open spec fn is_layout_of(s: Seq<u8>, q: int, l: int) -> bool {
    let st = syntax::stmts(s)[l];
    st.kind == StmtKind::Property && st.parent == Some(q as usize) && syntax::cut(s, st.key)
        == "layout".spec_bytes()
}

/// Whether statement `l` is the first `layout:` in the body of statement `q`.
pub open spec fn first_layout(s: Seq<u8>, q: int, l: int) -> bool {
    &&& 0 <= l < syntax::stmts(s).len()
    &&& is_layout_of(s, q, l)
    &&& forall|j: int| 0 <= j < l ==> !#[trigger] is_layout_of(s, q, j)
}

/// Whether widget `q` gives its layout at `sp`: as the value of its first `layout:`, or where that has
/// none, as the value of the first `type:` in its body.
pub open spec fn layout_at(s: Seq<u8>, q: int, sp: ByteSpan) -> bool {
    exists|l: int| #[trigger]
        first_layout(s, q, l) && if syntax::stmts(s)[l].value is Some {
            literal_at(s, l, sp)
        } else {
            exists|t: int| #[trigger] first_type(s, l, t) && literal_at(s, t, sp)
        }
}

/// Whether statement `k` is an anchor on a widget whose parent gives a layout that places its children
/// by something else.
pub open spec fn misplaced_anchor(s: Seq<u8>, k: int) -> bool {
    let stmts = syntax::stmts(s);
    &&& stmts[k].kind == StmtKind::AnchorProperty
    &&& exists|w: int, q: int, sp: ByteSpan|
        #![trigger outline_laws::nearest_widget(stmts, k, w), layout_at(s, q, sp)]
        outline_laws::nearest_widget(stmts, k, w) && outline_laws::nearest_widget(stmts, w, q)
            && layout_at(s, q, sp) && {
            let name = s.subrange(sp.start as int, sp.end as int);
            name != "anchor".spec_bytes() && schema::member(schema::LAYOUT_TYPES@, name)
        }
}

proof fn lemma_first_layout(s: Seq<u8>, q: int, j: int)
    requires
        0 <= q,
        0 <= j,
        forall|i: int| 0 <= i < j ==> !#[trigger] is_layout_of(s, q, i),
    ensures
        match style_index::find_property(s, syntax::stmts(s), q, "layout".spec_bytes(), j) {
            Some(t) => forall|x: int| #[trigger] first_layout(s, q, x) <==> x == t,
            None => forall|x: int| !#[trigger] first_layout(s, q, x),
        },
    decreases syntax::stmts(s).len() - j,
{
    let stmts = syntax::stmts(s);
    if j < stmts.len() {
        assert(style_index::property_of(s, stmts, q, "layout".spec_bytes(), j) == is_layout_of(
            s,
            q,
            j,
        ));
        if !is_layout_of(s, q, j) {
            lemma_first_layout(s, q, j + 1);
        } else {
            assert(first_layout(s, q, j));
            assert forall|x: int| #[trigger] first_layout(s, q, x) implies x == j by {
                if x < j {
                    assert(!is_layout_of(s, q, x));
                }
            }
        }
    } else {
        assert forall|x: int| !#[trigger] first_layout(s, q, x) by {
            if first_layout(s, q, x) {
                assert(!is_layout_of(s, q, x));
            }
        }
    }
}

proof fn lemma_layout_at(s: Seq<u8>, q: int)
    requires
        valid_utf8(s),
        s.len() <= usize::MAX,
        0 <= q < syntax::stmts(s).len(),
    ensures
        match diagnostics::declared_layout(s, syntax::stmts(s), q) {
            Some(p) => 0 <= p.0 < p.1 <= s.len() && forall|sp: ByteSpan| #[trigger]
                layout_at(s, q, sp) <==> sp == syntax::span(p.0, p.1),
            None => forall|sp: ByteSpan| !#[trigger] layout_at(s, q, sp),
        },
{
    let stmts = syntax::stmts(s);
    lemma_first_layout(s, q, 0);
    style_index::lemma_find_property(s, stmts, q, "layout".spec_bytes(), 0);
    if let Some(l) = style_index::find_property(s, stmts, q, "layout".spec_bytes(), 0) {
        assert(first_layout(s, q, l));
        lemma_literal(s, l);
        lemma_first_type(s, l, 0);
        style_index::lemma_find_property(s, stmts, l, "type".spec_bytes(), 0);
        if let Some(t) = style_index::find_property(s, stmts, l, "type".spec_bytes(), 0) {
            assert(first_type(s, l, t));
            lemma_literal(s, t);
        }
    }
}

/// The layout by which the parent of the widget of statement `k` places its children, where it is
/// another one than that of anchors.
spec fn other_layout(s: Seq<u8>, k: int) -> Option<(int, int)> {
    let stmts = syntax::stmts(s);
    match nodes::widget_above(stmts, k) {
        Some(w) => match nodes::widget_above(stmts, w) {
            Some(q) => match diagnostics::declared_layout(s, stmts, q) {
                Some(p) => if s.subrange(p.0, p.1) != "anchor".spec_bytes() && schema::member(
                    schema::LAYOUT_TYPES@,
                    s.subrange(p.0, p.1),
                ) {
                    Some(p)
                } else {
                    None
                },
                None => None,
            },
            None => None,
        },
        None => None,
    }
}

proof fn lemma_nearest(stmts: Seq<Stmt>, j: int, w: int)
    requires
        0 <= j < stmts.len(),
    ensures
        outline_laws::nearest_widget(stmts, j, w) <==> nodes::widget_above(stmts, j) == Some(w),
        nodes::widget_above(stmts, j) matches Some(x) ==> 0 <= x < j,
{
    outline_laws::law_nearest_widget(stmts, j);
    nodes::lemma_widget_above(stmts, j);
    if outline_laws::nearest_widget(stmts, j, w) && nodes::widget_above(stmts, j) is None {
        assert(folding_laws::is_widget(stmts[w]));
    }
}

proof fn lemma_other_layout(s: Seq<u8>, k: int)
    requires
        valid_utf8(s),
        s.len() <= usize::MAX,
        0 <= k < syntax::stmts(s).len(),
        syntax::stmts(s)[k].kind == StmtKind::AnchorProperty,
    ensures
        misplaced_anchor(s, k) <==> other_layout(s, k) is Some,
{
    let stmts = syntax::stmts(s);
    if misplaced_anchor(s, k) {
        let (w, q, sp) = choose|w: int, q: int, sp: ByteSpan|
            #![trigger outline_laws::nearest_widget(stmts, k, w), layout_at(s, q, sp)]
            outline_laws::nearest_widget(stmts, k, w) && outline_laws::nearest_widget(stmts, w, q)
                && layout_at(s, q, sp) && {
                let name = s.subrange(sp.start as int, sp.end as int);
                name != "anchor".spec_bytes() && schema::member(schema::LAYOUT_TYPES@, name)
            };
        lemma_nearest(stmts, k, w);
        lemma_nearest(stmts, w, q);
        lemma_layout_at(s, q);
    }
    if let Some(p) = other_layout(s, k) {
        let w = nodes::widget_above(stmts, k)->0;
        lemma_nearest(stmts, k, w);
        let q = nodes::widget_above(stmts, w)->0;
        lemma_nearest(stmts, w, q);
        lemma_layout_at(s, q);
        let sp = syntax::span(p.0, p.1);
        assert(layout_at(s, q, sp));
        assert(s.subrange(sp.start as int, sp.end as int) == s.subrange(p.0, p.1));
    }
}

proof fn lemma_misplaced(s: Seq<u8>, k: int)
    requires
        valid_utf8(s),
        s.len() <= usize::MAX,
        0 <= k < syntax::stmts(s).len(),
        syntax::stmts(s)[k].kind == StmtKind::AnchorProperty,
    ensures
        ({
            let all = diagnostics::anchor_layout_findings(s, syntax::stmts(s), k);
            if misplaced_anchor(s, k) {
                all.len() == 1 && all[0].severity == Severity::Error && all[0].code
                    == "anchor-parent-no-anchor-layout"@ && all[0].span == syntax::stmts(s)[k].key
            } else {
                all.len() == 0
            }
        }),
{
    lemma_codes();
    lemma_other_layout(s, k);
}

/// Each anchor on a widget whose parent places its children by another layout has an error at its
/// edge, and no other has one of that code.
pub proof fn law_misplaced_anchors_are_reported(s: Seq<u8>, w: Option<Workspace>, sp: ByteSpan)
    requires
        valid_utf8(s),
        s.len() <= usize::MAX,
    ensures
        reported(
            diagnostics::findings(s, w),
            Severity::Error,
            "anchor-parent-no-anchor-layout"@,
            sp,
        ) <==> exists|k: int|
            0 <= k < syntax::stmts(s).len() && #[trigger] misplaced_anchor(s, k) && syntax::stmts(
                s,
            )[k].key == sp,
{
    let stmts = syntax::stmts(s);
    let code = "anchor-parent-no-anchor-layout"@;
    lemma_codes();
    if reported(diagnostics::findings(s, w), Severity::Error, code, sp) {
        let f = lemma_reported(s, w, Severity::Error, code, sp);
        lemma_kinds_of_code(s, w, f);
        let k = choose|k: int| 0 <= k < stmts.len() && #[trigger] from_stmt(s, stmts, w, k, f);
        lemma_layout_part(s, w, k, f);
        lemma_misplaced(s, k);
        assert(misplaced_anchor(s, k));
    }
    if exists|k: int|
        0 <= k < stmts.len() && #[trigger] misplaced_anchor(s, k) && stmts[k].key == sp {
        let k = choose|k: int|
            0 <= k < stmts.len() && #[trigger] misplaced_anchor(s, k) && stmts[k].key == sp;
        lemma_misplaced(s, k);
        let all = diagnostics::anchor_layout_findings(s, stmts, k);
        assert(all.contains(all[0]));
        lemma_layout_part(s, w, k, all[0]);
        lemma_report(s, w, all[0]);
    }
}

proof fn lemma_layout_part(s: Seq<u8>, w: Option<Workspace>, k: int, f: DiagnosticView)
    requires
        valid_utf8(s),
        s.len() <= usize::MAX,
        0 <= k < syntax::stmts(s).len(),
        syntax::stmts(s)[k].kind == StmtKind::AnchorProperty,
        f.code == "anchor-parent-no-anchor-layout"@,
    ensures
        from_stmt(s, syntax::stmts(s), w, k, f) <==> diagnostics::anchor_layout_findings(
            s,
            syntax::stmts(s),
            k,
        ).contains(f),
{
    lemma_codes();
    let stmts = syntax::stmts(s);
    let a = diagnostics::anchor_layout_findings(s, stmts, k);
    let b = diagnostics::anchor_edge_findings(s, stmts[k]);
    let c = diagnostics::anchor_target_findings(s, stmts[k]);
    lemma_in_either(a, b, f);
    lemma_in_either(a + b, c, f);
    lemma_in_either(b, c, f);
    lemma_anchor_given(s, k, f.span);
    if (b + c).contains(f) {
        let i = (b + c).index_of(f);
        assert((b + c)[i].code == "invalid-anchor-edge"@);
    }
}

/// The type of widget `w` in a workspace: its tag, or what a header declares where the workspace has
/// a style of that name, and else its base.
pub open spec fn type_in(s: Seq<u8>, ws: Workspace, w: int) -> Seq<char> {
    let st = syntax::stmts(s)[w];
    let name = text::chars_of(syntax::cut(s, st.key));
    if st.kind == StmtKind::StyleHeader && !workspace_laws::has_style(ws.styles, name) {
        text::chars_of(syntax::cut(s, st.value->0))
    } else {
        name
    }
}

/// The widget that a property belongs to is the nearest widget above it, by its type in the
/// workspace.
pub proof fn law_scope_type(s: Seq<u8>, ws: Workspace, p: int)
    requires
        0 <= p < syntax::stmts(s).len(),
    ensures
        ({
            let stmts = syntax::stmts(s);
            let scope = diagnostics::scope_type(s, stmts, ws, p);
            if folding_laws::is_widget(stmts[p]) {
                scope == Some(type_in(s, ws, p))
            } else {
                match scope {
                    Some(name) => exists|w: int| #[trigger]
                        outline_laws::nearest_widget(stmts, p, w) && name == type_in(s, ws, w),
                    None => outline_laws::no_widget_above(stmts, p),
                }
            }
        }),
{
    let stmts = syntax::stmts(s);
    lemma_scope(s, ws, p);
    outline_laws::law_nearest_widget(stmts, p);
    if !folding_laws::is_widget(stmts[p]) {
        if let Some(w) = nodes::widget_above(stmts, p) {
            assert(outline_laws::nearest_widget(stmts, p, w));
        }
    }
}

proof fn lemma_scope(s: Seq<u8>, ws: Workspace, p: int)
    requires
        0 <= p < syntax::stmts(s).len(),
    ensures
        ({
            let stmts = syntax::stmts(s);
            let scope = diagnostics::scope_type(s, stmts, ws, p);
            if folding_laws::is_widget(stmts[p]) {
                scope == Some(type_in(s, ws, p))
            } else {
                match nodes::widget_above(stmts, p) {
                    Some(w) => scope == Some(type_in(s, ws, w)),
                    None => scope is None,
                }
            }
        }),
    decreases p,
{
    let stmts = syntax::stmts(s);
    workspace_laws::law_definitions_are_declared(
        ws.styles,
        text::chars_of(syntax::cut(s, stmts[p].key)),
    );
    if !folding_laws::is_widget(stmts[p]) {
        if let Some(q) = stmts[p].parent {
            if q < p {
                lemma_scope(s, ws, q as int);
            }
        }
    }
}

} // verus!
