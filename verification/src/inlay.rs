//! Hints at the end of a style header that name the class which the style comes down to.

use crate::lua_widgets::LuaWidgetIndex;
use crate::navigation;
use crate::nodes;
use crate::nodes::span_text;
use crate::style_index;
use crate::style_index::StyleIndex;
use crate::syntax;
use crate::syntax::{Stmt, StmtKind, SyntaxTree};
use crate::text::same_str;
use crate::widget_resolve;
use crate::widget_resolve::resolve_ancestry;
use vstd::prelude::*;
use vstd::string::*;

verus! {

/// A hint behind the base in a style header.
#[derive(Debug, Clone, PartialEq, Eq)]
pub struct AncestorHint {
    /// Where the hint goes.
    pub anchor: usize,
    /// The class that the style comes down to.
    pub native: String,
}

/// The hint on statement `k`: where it goes, and the class. A base that is that class already needs
/// none.
pub open spec fn hint_on(s: Seq<u8>, stmts: Seq<Stmt>, styles: style_index::StyleDocs, k: int) -> Option<
    (int, Seq<char>),
> {
    if style_index::declares_style(stmts, k) {
        let v = stmts[k].value->0;
        let base = navigation::token(s, v);
        match widget_resolve::native_of(styles, base) {
            Some(native) => if native == base {
                None
            } else {
                Some((v.end as int, native))
            },
            None => None,
        }
    } else {
        None
    }
}

/// The hints on the first `k` statements.
pub open spec fn hints_upto(
    s: Seq<u8>,
    stmts: Seq<Stmt>,
    styles: style_index::StyleDocs,
    k: int,
) -> Seq<(int, Seq<char>)>
    decreases k,
{
    if k <= 0 {
        Seq::empty()
    } else {
        match hint_on(s, stmts, styles, k - 1) {
            Some(hint) => hints_upto(s, stmts, styles, k - 1).push(hint),
            None => hints_upto(s, stmts, styles, k - 1),
        }
    }
}

/// The model of a list of hints.
pub open spec fn hint_views(hints: Seq<AncestorHint>) -> Seq<(int, Seq<char>)> {
    hints.map_values(|h: AncestorHint| (h.anchor as int, h.native@))
}

/// The hint on statement `k`.
fn hint_of(
    source: &str,
    stmts: &[Stmt],
    k: usize,
    styles: &StyleIndex,
    lua: &LuaWidgetIndex,
) -> (r: Option<AncestorHint>)
    requires
        stmts@ == syntax::stmts(source.spec_bytes()),
        k < stmts@.len(),
    ensures
        match r {
            Some(hint) => hint_on(source.spec_bytes(), stmts@, styles@, k as int) == Some(
                (hint.anchor as int, hint.native@),
            ),
            None => hint_on(source.spec_bytes(), stmts@, styles@, k as int) is None,
        },
{
    let n: usize = source.as_bytes().len();
    proof {
        nodes::lemma_document(source);
        assert(syntax::stmt_ok(source.spec_bytes(), stmts@[k as int]));
        syntax::lemma_header_base(source.spec_bytes(), k as int);
    }
    let st = &stmts[k];
    if st.kind == StmtKind::StyleHeader && st.parent.is_none() {
        if let Some(v) = st.value {
            let base = span_text(source, v);
            if let Some(native) = resolve_ancestry(base, styles, lua).native {
                if !same_str(native.as_str(), base) {
                    return Some(AncestorHint { anchor: v.end, native });
                }
            }
        }
    }
    None
}

/// The hints on the style headers of a document.
pub fn ancestor_hints(source: &str, styles: &StyleIndex, lua: &LuaWidgetIndex) -> (out: Vec<
    AncestorHint,
>)
    ensures
        hint_views(out@) == hints_upto(
            source.spec_bytes(),
            syntax::stmts(source.spec_bytes()),
            styles@,
            syntax::stmts(source.spec_bytes()).len() as int,
        ),
{
    let mut out: Vec<AncestorHint> = Vec::new();
    let tree = match SyntaxTree::parse(source) {
        Some(tree) => tree,
        None => {
            return out;
        },
    };
    let stmts = tree.statements();
    let mut k: usize = 0;
    assert(hint_views(out@) =~= Seq::empty());
    while k < stmts.len()
        invariant
            stmts@ == syntax::stmts(source.spec_bytes()),
            k <= stmts@.len(),
            hint_views(out@) == hints_upto(source.spec_bytes(), stmts@, styles@, k as int),
        decreases stmts@.len() - k,
    {
        if let Some(hint) = hint_of(source, stmts, k, styles, lua) {
            assert(hint_views(out@.push(hint)) =~= hint_views(out@).push(
                (hint.anchor as int, hint.native@),
            ));
            out.push(hint);
        }
        k += 1;
    }
    out
}

} // verus!
