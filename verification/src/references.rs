//! Where a style or an id is used in a document.

use crate::lang_api::ByteSpan;
use crate::navigation;
use crate::navigation::{id_in_statement, IdRefKind};
use crate::nodes;
use crate::nodes::span_text;
use crate::style_index;
use crate::syntax;
use crate::syntax::{Stmt, StmtKind, SyntaxTree};
use crate::text::same_str;
use vstd::prelude::*;
use vstd::string::*;
use vstd::utf8::*;

verus! {

/// Where a style is used in a document.
#[derive(Debug, Clone, PartialEq, Eq)]
pub struct StyleNameOccurrences {
    /// Where it is declared.
    pub declarations: Vec<ByteSpan>,
    /// Where another style derives from it.
    pub base_refs: Vec<ByteSpan>,
}

/// Where an id is used in a document.
#[derive(Debug, Clone, PartialEq, Eq)]
pub struct IdOccurrences {
    /// Where it is first given to a widget.
    pub declaration: Option<ByteSpan>,
    /// Where an anchor refers to it.
    pub anchor_refs: Vec<ByteSpan>,
    /// Whether it is given more than once.
    pub has_duplicate_declaration: bool,
}

/// Where the first `k` statements declare the style `name`.
pub open spec fn declared_upto(s: Seq<u8>, stmts: Seq<Stmt>, name: Seq<u8>, k: int) -> Seq<ByteSpan>
    decreases k,
{
    if k <= 0 {
        Seq::empty()
    } else if style_index::declares_style(stmts, k - 1) && nodes::key_of(s, stmts[k - 1]) == name {
        declared_upto(s, stmts, name, k - 1).push(stmts[k - 1].key)
    } else {
        declared_upto(s, stmts, name, k - 1)
    }
}

/// Where the first `k` statements derive a style from the style `name`.
pub open spec fn derived_upto(s: Seq<u8>, stmts: Seq<Stmt>, name: Seq<u8>, k: int) -> Seq<ByteSpan>
    decreases k,
{
    if k <= 0 {
        Seq::empty()
    } else if style_index::declares_style(stmts, k - 1) && syntax::cut(s, stmts[k - 1].value->0)
        == name {
        derived_upto(s, stmts, name, k - 1).push(stmts[k - 1].value->0)
    } else {
        derived_upto(s, stmts, name, k - 1)
    }
}

/// Whether statement `st` uses the id `id` in the given way.
pub open spec fn uses_id(s: Seq<u8>, st: Stmt, id: Seq<u8>, kind: IdRefKind) -> bool {
    navigation::id_in(s, st) matches Some(p) && p.1 == kind && syntax::cut(s, p.0) == id
}

/// Where the first `k` statements use the id `id` in the given way.
pub open spec fn uses_upto(
    s: Seq<u8>,
    stmts: Seq<Stmt>,
    id: Seq<u8>,
    kind: IdRefKind,
    k: int,
) -> Seq<ByteSpan>
    decreases k,
{
    if k <= 0 {
        Seq::empty()
    } else if uses_id(s, stmts[k - 1], id, kind) {
        uses_upto(s, stmts, id, kind, k - 1).push((navigation::id_in(s, stmts[k - 1])->0).0)
    } else {
        uses_upto(s, stmts, id, kind, k - 1)
    }
}

proof fn lemma_uses(s: Seq<u8>, stmts: Seq<Stmt>, id: Seq<u8>, kind: IdRefKind, i: int, k: int) -> (j:
    int)
    requires
        0 <= k,
        0 <= i < uses_upto(s, stmts, id, kind, k).len(),
    ensures
        0 <= j < k,
        navigation::id_in(s, stmts[j]) == Some((uses_upto(s, stmts, id, kind, k)[i], kind)),
    decreases k,
{
    if i < uses_upto(s, stmts, id, kind, k - 1).len() {
        lemma_uses(s, stmts, id, kind, i, k - 1)
    } else {
        k - 1
    }
}

proof fn lemma_uses_contain(
    s: Seq<u8>,
    stmts: Seq<Stmt>,
    id: Seq<u8>,
    kind: IdRefKind,
    j: int,
    k: int,
)
    requires
        0 <= j < k,
        uses_id(s, stmts[j], id, kind),
    ensures
        uses_upto(s, stmts, id, kind, k).contains((navigation::id_in(s, stmts[j])->0).0),
    decreases k,
{
    let p = (navigation::id_in(s, stmts[j])->0).0;
    let before = uses_upto(s, stmts, id, kind, k - 1);
    let all = uses_upto(s, stmts, id, kind, k);
    if j == k - 1 {
        assert(all[all.len() - 1] == p);
    } else {
        lemma_uses_contain(s, stmts, id, kind, j, k - 1);
        let i = before.index_of(p);
        assert(all[i] == p);
    }
}

/// Pointing at a use of an id finds that id, and an id that is found by pointing at it is among the
/// uses of its name.
pub proof fn law_uses_agree(s: Seq<u8>, id: Seq<u8>, kind: IdRefKind, offset: int)
    requires
        valid_utf8(s),
        s.len() <= usize::MAX,
    ensures
        ({
            let stmts = syntax::stmts(s);
            let uses = uses_upto(s, stmts, id, kind, stmts.len() as int);
            &&& forall|i: int|
                0 <= i < uses.len() && (#[trigger] uses[i]).holds(offset) ==> navigation::id_under(
                    s,
                    stmts,
                    offset,
                    0,
                ) == Some((uses[i], kind))
            &&& navigation::id_under(s, stmts, offset, 0) matches Some(p) ==> {
                &&& p.0.holds(offset)
                &&& p.1 == kind && syntax::cut(s, p.0) == id ==> uses.contains(p.0)
            }
        }),
{
    let stmts = syntax::stmts(s);
    let n = stmts.len() as int;
    let uses = uses_upto(s, stmts, id, kind, n);
    assert forall|i: int|
        0 <= i < uses.len() && (#[trigger] uses[i]).holds(offset) implies navigation::id_under(
        s,
        stmts,
        offset,
        0,
    ) == Some((uses[i], kind)) by {
        let j = lemma_uses(s, stmts, id, kind, i, n);
        navigation::lemma_id_under(s, offset, 0, j);
    }
    let j = navigation::lemma_id_found(s, stmts, offset, 0);
    if let Some(p) = navigation::id_under(s, stmts, offset, 0) {
        if p.1 == kind && syntax::cut(s, p.0) == id {
            lemma_uses_contain(s, stmts, id, kind, j, n);
        }
    }
}

/// Where the style `name` is used in a document.
pub fn style_name_occurrences(source: &str, name: &str) -> (r: StyleNameOccurrences)
    ensures
        ({
            let s = source.spec_bytes();
            let stmts = syntax::stmts(s);
            let n = stmts.len() as int;
            &&& r.declarations@ == declared_upto(s, stmts, name.spec_bytes(), n)
            &&& r.base_refs@ == derived_upto(s, stmts, name.spec_bytes(), n)
        }),
{
    let mut declarations: Vec<ByteSpan> = Vec::new();
    let mut base_refs: Vec<ByteSpan> = Vec::new();
    let tree = match SyntaxTree::parse(source) {
        Some(tree) => tree,
        None => {
            return StyleNameOccurrences { declarations, base_refs };
        },
    };
    let stmts = tree.statements();
    let ghost s = source.spec_bytes();
    let n: usize = source.as_bytes().len();
    proof {
        nodes::lemma_document(source);
    }
    let mut k: usize = 0;
    while k < stmts.len()
        invariant
            s == source.spec_bytes(),
            s.len() <= usize::MAX,
            stmts@ == syntax::stmts(s),
            forall|j: int| 0 <= j < stmts@.len() ==> syntax::stmt_ok(s, #[trigger] stmts@[j]),
            k <= stmts@.len(),
            declarations@ == declared_upto(s, stmts@, name.spec_bytes(), k as int),
            base_refs@ == derived_upto(s, stmts@, name.spec_bytes(), k as int),
        decreases stmts@.len() - k,
    {
        let st = &stmts[k];
        assert(syntax::stmt_ok(s, stmts@[k as int]));
        if st.kind == StmtKind::StyleHeader && st.parent.is_none() {
            proof {
                syntax::lemma_header_base(s, k as int);
            }
            if same_str(span_text(source, st.key), name) {
                declarations.push(st.key);
            }
            if let Some(v) = st.value {
                if same_str(span_text(source, v), name) {
                    base_refs.push(v);
                }
            }
        }
        k += 1;
    }
    StyleNameOccurrences { declarations, base_refs }
}

/// Where the id `id` is used in a document.
pub fn id_occurrences(source: &str, id: &str) -> (r: IdOccurrences)
    ensures
        ({
            let s = source.spec_bytes();
            let stmts = syntax::stmts(s);
            let n = stmts.len() as int;
            let given = uses_upto(s, stmts, id.spec_bytes(), IdRefKind::Declaration, n);
            &&& r.declaration == if given.len() > 0 {
                Some(given[0])
            } else {
                None
            }
            &&& r.has_duplicate_declaration == (given.len() > 1)
            &&& r.anchor_refs@ == uses_upto(
                s,
                stmts,
                id.spec_bytes(),
                IdRefKind::AnchorTarget,
                n,
            )
        }),
{
    let mut given: Vec<ByteSpan> = Vec::new();
    let mut anchor_refs: Vec<ByteSpan> = Vec::new();
    let tree = match SyntaxTree::parse(source) {
        Some(tree) => tree,
        None => {
            return IdOccurrences {
                declaration: None,
                anchor_refs,
                has_duplicate_declaration: false,
            };
        },
    };
    let stmts = tree.statements();
    let ghost s = source.spec_bytes();
    let n: usize = source.as_bytes().len();
    proof {
        nodes::lemma_document(source);
    }
    let mut k: usize = 0;
    while k < stmts.len()
        invariant
            s == source.spec_bytes(),
            stmts@ == syntax::stmts(s),
            forall|j: int| 0 <= j < stmts@.len() ==> syntax::stmt_ok(s, #[trigger] stmts@[j]),
            k <= stmts@.len(),
            given@ == uses_upto(
                s,
                stmts@,
                id.spec_bytes(),
                IdRefKind::Declaration,
                k as int,
            ),
            anchor_refs@ == uses_upto(
                s,
                stmts@,
                id.spec_bytes(),
                IdRefKind::AnchorTarget,
                k as int,
            ),
        decreases stmts@.len() - k,
    {
        assert(syntax::stmt_ok(s, stmts@[k as int]));
        if let Some((span, kind)) = id_in_statement(source, &stmts[k]) {
            if same_str(span_text(source, span), id) {
                match kind {
                    IdRefKind::Declaration => {
                        given.push(span);
                    },
                    IdRefKind::AnchorTarget => {
                        anchor_refs.push(span);
                    },
                }
            }
        }
        k += 1;
    }
    let declaration = if given.len() > 0 {
        Some(given[0])
    } else {
        None
    };
    IdOccurrences { declaration, anchor_refs, has_duplicate_declaration: given.len() > 1 }
}

} // verus!
