//! What there is to say about the key of an `&name:` statement.
//!
//! Such a statement always does two things. It gives a variable a value, which `$name` stands for: in
//! the whole document where the statement is at the top level, and in its own subtree elsewhere. And
//! it sets a field of the widget, to the value of a Lua expression, or to the text itself where it
//! starts with `#`.

use crate::ascii;
use crate::lang_api::ByteSpan;
use crate::navigation;
use crate::nodes;
use crate::nodes::span_text;
use crate::syntax;
use crate::syntax::{Stmt, StmtKind, SyntaxTree};
use crate::text;
use crate::text::{has_at, trimmed_start};
use crate::wording::join3;
use vstd::prelude::*;
use vstd::string::*;

verus! {

/// The key of an `&name:` statement.
#[derive(Debug, Clone, PartialEq, Eq)]
pub struct AliasHover {
    /// Where the name stands, without the `&`.
    pub span: ByteSpan,
    /// The name.
    pub name: String,
    /// Whether the value starts with `#`, so that it is taken as text.
    pub is_hash_literal: bool,
}

/// Whether the value of a statement starts with `#`: the body of a block scalar, or else the value on
/// its line.
pub open spec fn hash_literal(s: Seq<u8>, st: Stmt) -> bool {
    match st.body {
        Some(b) => text::has(text::trim_start(syntax::cut(s, b)), 0, ascii::HASH),
        None => match st.value {
            Some(v) => text::has(syntax::cut(s, v), 0, ascii::HASH),
            None => false,
        },
    }
}

/// The first `&name:` statement at or after statement `k` at whose name `offset` points.
pub open spec fn alias_at(stmts: Seq<Stmt>, offset: int, k: int) -> Option<int>
    decreases stmts.len() - k,
{
    if !(0 <= k < stmts.len()) {
        None
    } else if stmts[k].kind == StmtKind::AliasProperty && stmts[k].key.holds(offset) {
        Some(k)
    } else {
        alias_at(stmts, offset, k + 1)
    }
}

/// What there is to say about the variable `name`.
pub open spec fn variable_paragraph(name: Seq<char>) -> Seq<char> {
    "**OTML variable** — referenced elsewhere as `$"@ + name
        + "`. A root-level `&` is a document-global variable; a nested `&` is local to its own subtree. Resolution is file-local — no cross-file variable sharing."@
}

/// What there is to say about the field.
pub open spec fn field_paragraph(is_hash_literal: bool) -> Seq<char> {
    if is_hash_literal {
        "**Lua widget field** — the value starts with `#`, so it is pushed as a plain string, not evaluated (the hex-literal carve-out — e.g. `#33AAFF` survives as a color instead of parsing as a Lua comment)."@
    } else {
        "**Lua widget field** — the value is evaluated as a Lua expression (`__exp = (…)`) and set as a field on the widget instance."@
    }
}

/// Whether the value of a statement starts with `#`.
fn is_hash(source: &str, st: &Stmt) -> (r: bool)
    requires
        syntax::stmt_ok(source.spec_bytes(), *st),
    ensures
        r == hash_literal(source.spec_bytes(), *st),
{
    match st.body {
        Some(b) => has_at(trimmed_start(span_text(source, b)).as_bytes(), 0, ascii::HASH),
        None => match st.value {
            Some(v) => has_at(span_text(source, v).as_bytes(), 0, ascii::HASH),
            None => false,
        },
    }
}

/// The `&name:` statement at whose name `offset` points.
pub fn alias_hover_at(source: &str, offset: usize) -> (r: Option<AliasHover>)
    ensures
        ({
            let s = source.spec_bytes();
            let stmts = syntax::stmts(s);
            match alias_at(stmts, offset as int, 0) {
                Some(k) => r matches Some(hover) && hover.span == stmts[k].key && hover.name@
                    == navigation::token(s, stmts[k].key) && hover.is_hash_literal == hash_literal(
                    s,
                    stmts[k],
                ),
                None => r is None,
            }
        }),
{
    let tree = match SyntaxTree::parse(source) {
        Some(tree) => tree,
        None => {
            return None;
        },
    };
    let stmts = tree.statements();
    let n: usize = source.as_bytes().len();
    proof {
        nodes::lemma_document(source);
    }
    let mut k: usize = 0;
    while k < stmts.len()
        invariant
            stmts@ == syntax::stmts(source.spec_bytes()),
            forall|j: int|
                0 <= j < stmts@.len() ==> syntax::stmt_ok(
                    source.spec_bytes(),
                    #[trigger] stmts@[j],
                ),
            k <= stmts@.len(),
            alias_at(stmts@, offset as int, k as int) == alias_at(stmts@, offset as int, 0),
        decreases stmts@.len() - k,
    {
        let st = &stmts[k];
        assert(syntax::stmt_ok(source.spec_bytes(), stmts@[k as int]));
        if st.kind == StmtKind::AliasProperty && st.key.contains(offset) {
            return Some(
                AliasHover {
                    span: st.key,
                    name: span_text(source, st.key).to_owned(),
                    is_hash_literal: is_hash(source, st),
                },
            );
        }
        k += 1;
    }
    None
}

/// What there is to say about an `&name:` statement: both of the things that it does.
pub fn alias_hover_body(name: &str, is_hash_literal: bool) -> (r: String)
    ensures
        r@ == variable_paragraph(name@) + "\n\n"@ + field_paragraph(is_hash_literal),
{
    let mut r = join3(
        "**OTML variable** — referenced elsewhere as `$",
        name,
        "`. A root-level `&` is a document-global variable; a nested `&` is local to its own subtree. Resolution is file-local — no cross-file variable sharing.",
    );
    r.append("\n\n");
    if is_hash_literal {
        r.append(
            "**Lua widget field** — the value starts with `#`, so it is pushed as a plain string, not evaluated (the hex-literal carve-out — e.g. `#33AAFF` survives as a color instead of parsing as a Lua comment).",
        );
    } else {
        r.append(
            "**Lua widget field** — the value is evaluated as a Lua expression (`__exp = (…)`) and set as a field on the widget instance.",
        );
    }
    r
}

} // verus!
