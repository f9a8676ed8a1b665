//! Which style the cursor points at: the tag of a widget, or the name or base in a style header.

use crate::lang_api::ByteSpan;
use crate::navigation;
use crate::nodes;
use crate::nodes::span_text;
use crate::style_index;
use crate::syntax;
use crate::syntax::{Stmt, StmtKind, SyntaxTree};
use vstd::prelude::*;
use vstd::string::*;

verus! {

/// The name of a style.
#[derive(Debug, Clone, PartialEq, Eq)]
pub struct StyleRef {
    /// The name.
    pub name: String,
    /// Where it stands.
    pub span: ByteSpan,
}

/// The first name or base in a style header of the top level at or after statement `k` that `offset`
/// points at.
pub open spec fn header_token(stmts: Seq<Stmt>, offset: int, k: int) -> Option<ByteSpan>
    decreases stmts.len() - k,
{
    if !(0 <= k < stmts.len()) {
        None
    } else if style_index::declares_style(stmts, k) && stmts[k].key.holds(offset) {
        Some(stmts[k].key)
    } else if style_index::declares_style(stmts, k) && navigation::opt_holds(
        stmts[k].value,
        offset,
    ) {
        stmts[k].value
    } else {
        header_token(stmts, offset, k + 1)
    }
}

/// The first tag of a widget at or after statement `k` that `offset` points at.
pub open spec fn tag_token(stmts: Seq<Stmt>, offset: int, k: int) -> Option<ByteSpan>
    decreases stmts.len() - k,
{
    if !(0 <= k < stmts.len()) {
        None
    } else if stmts[k].kind == StmtKind::Container && stmts[k].key.holds(offset) {
        Some(stmts[k].key)
    } else {
        tag_token(stmts, offset, k + 1)
    }
}

/// Where the name of a style stands that `offset` points at.
pub open spec fn style_token(stmts: Seq<Stmt>, offset: int) -> Option<ByteSpan> {
    match header_token(stmts, offset, 0) {
        Some(span) => Some(span),
        None => tag_token(stmts, offset, 0),
    }
}

/// The name or base in a style header that `offset` points at.
fn header_token_at(source: &str, stmts: &[Stmt], offset: usize) -> (r: Option<ByteSpan>)
    requires
        stmts@ == syntax::stmts(source.spec_bytes()),
    ensures
        r == header_token(stmts@, offset as int, 0),
        r matches Some(span) ==> syntax::in_text(source.spec_bytes(), span),
{
    let n: usize = source.as_bytes().len();
    proof {
        nodes::lemma_document(source);
    }
    let mut k: usize = 0;
    while k < stmts.len()
        invariant
            stmts@ == syntax::stmts(source.spec_bytes()),
            forall|j: int|
                0 <= j < stmts@.len() ==> syntax::stmt_ok(
                    source.spec_bytes(),
                    #[trigger] stmts@[j],
                ),
            k <= stmts@.len(),
            header_token(stmts@, offset as int, k as int) == header_token(
                stmts@,
                offset as int,
                0,
            ),
        decreases stmts@.len() - k,
    {
        let st = &stmts[k];
        assert(syntax::stmt_ok(source.spec_bytes(), stmts@[k as int]));
        if st.kind == StmtKind::StyleHeader && st.parent.is_none() {
            if st.key.contains(offset) {
                return Some(st.key);
            }
            if let Some(v) = st.value {
                if v.contains(offset) {
                    return Some(v);
                }
            }
        }
        k += 1;
    }
    None
}

/// The tag of a widget that `offset` points at.
fn container_tag_at(source: &str, stmts: &[Stmt], offset: usize) -> (r: Option<ByteSpan>)
    requires
        stmts@ == syntax::stmts(source.spec_bytes()),
    ensures
        r == tag_token(stmts@, offset as int, 0),
        r matches Some(span) ==> syntax::in_text(source.spec_bytes(), span),
{
    let n: usize = source.as_bytes().len();
    proof {
        nodes::lemma_document(source);
    }
    let mut k: usize = 0;
    while k < stmts.len()
        invariant
            stmts@ == syntax::stmts(source.spec_bytes()),
            forall|j: int|
                0 <= j < stmts@.len() ==> syntax::stmt_ok(
                    source.spec_bytes(),
                    #[trigger] stmts@[j],
                ),
            k <= stmts@.len(),
            tag_token(stmts@, offset as int, k as int) == tag_token(stmts@, offset as int, 0),
        decreases stmts@.len() - k,
    {
        let st = &stmts[k];
        assert(syntax::stmt_ok(source.spec_bytes(), stmts@[k as int]));
        if st.kind == StmtKind::Container && st.key.contains(offset) {
            return Some(st.key);
        }
        k += 1;
    }
    None
}

/// The name of a style that `offset` points at.
pub fn style_type_at(source: &str, offset: usize) -> (r: Option<StyleRef>)
    ensures
        match style_token(syntax::stmts(source.spec_bytes()), offset as int) {
            Some(span) => r matches Some(style) && style.span == span && style.name@
                == navigation::token(source.spec_bytes(), span),
            None => r is None,
        },
{
    let tree = match SyntaxTree::parse(source) {
        Some(tree) => tree,
        None => {
            return None;
        },
    };
    let stmts = tree.statements();
    let found = match header_token_at(source, stmts, offset) {
        Some(span) => Some(span),
        None => container_tag_at(source, stmts, offset),
    };
    match found {
        Some(span) => Some(StyleRef { name: span_text(source, span).to_owned(), span }),
        None => None,
    }
}

} // verus!
