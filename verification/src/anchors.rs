//! What an anchor can refer to.
//!
//! The engine looks the target of an anchor up among the direct children of the parent widget. So the
//! siblings of the widget that owns the anchor are in scope, and nothing else: no ancestor, no widget
//! further down. The styles at the top level of a document are not siblings of each other, since they
//! belong to no widget.

use crate::indent;
use crate::indent::Line;
use crate::lang_api::ByteSpan;
use crate::nodes;
use crate::nodes::{find_stmt_under, is_child};
use crate::style_index;
use crate::style_index::is_widget;
use crate::syntax;
use crate::syntax::{Stmt, StmtKind};
use crate::widget_resolve;
use crate::widget_resolve::find_widget_at;
use vstd::prelude::*;
use vstd::string::*;
use vstd::utf8::*;

verus! {

/// The widget that owns the line of `offset`.
pub open spec fn owner_at(s: Seq<u8>, stmts: Seq<Stmt>, offset: int) -> Option<int> {
    match nodes::stmt_under(s, stmts, offset, stmts.len() as int) {
        Some(i) => widget_resolve::widget_at(stmts, i, usize::MAX as int),
        None => None,
    }
}

/// Whether widget `j` has the parent that widget `owner` has.
pub open spec fn sibling(stmts: Seq<Stmt>, owner: int, j: int) -> bool {
    stmts[owner].parent is Some && stmts[j].parent == stmts[owner].parent && style_index::widget(
        stmts[j],
    ) && j != owner
}

/// The siblings of widget `owner` among the first `k` statements.
pub open spec fn siblings_upto(stmts: Seq<Stmt>, owner: int, k: int) -> Seq<int>
    decreases k,
{
    if k <= 0 {
        Seq::empty()
    } else if sibling(stmts, owner, k - 1) {
        siblings_upto(stmts, owner, k - 1).push(k - 1)
    } else {
        siblings_upto(stmts, owner, k - 1)
    }
}

/// The siblings of widget `owner`.
pub open spec fn siblings(stmts: Seq<Stmt>, owner: int) -> Seq<int> {
    siblings_upto(stmts, owner, stmts.len() as int)
}

/// The first `id:` of widget `w` at or after statement `j`.
pub open spec fn find_id(stmts: Seq<Stmt>, w: int, j: int) -> Option<ByteSpan>
    decreases stmts.len() - j,
{
    if !(0 <= j < stmts.len()) {
        None
    } else if stmts[j].kind == StmtKind::IdProperty && stmts[j].parent == Some(w as usize) {
        stmts[j].value
    } else {
        find_id(stmts, w, j + 1)
    }
}

/// Where the id of widget `w` stands.
pub open spec fn id_of(stmts: Seq<Stmt>, w: int) -> Option<ByteSpan> {
    find_id(stmts, w, 0)
}

/// The id of a widget lies in the text.
pub proof fn lemma_id_in_text(s: Seq<u8>, w: int, j: int)
    requires
        valid_utf8(s),
        s.len() <= usize::MAX,
        0 <= j,
    ensures
        find_id(syntax::stmts(s), w, j) matches Some(v) ==> syntax::in_text(s, v) && v.start < v.end,
    decreases syntax::stmts(s).len() - j,
{
    if j < syntax::stmts(s).len() {
        syntax::lemma_stmts(s);
        assert(syntax::stmt_ok(s, syntax::stmts(s)[j]));
        lemma_id_in_text(s, w, j + 1);
    }
}

proof fn lemma_siblings(stmts: Seq<Stmt>, owner: int, k: int)
    ensures
        forall|i: int|
            0 <= i < siblings_upto(stmts, owner, k).len() ==> {
                let j = #[trigger] siblings_upto(stmts, owner, k)[i];
                0 <= j < k && sibling(stmts, owner, j)
            },
        forall|j: int|
            0 <= j < k && sibling(stmts, owner, j) ==> siblings_upto(stmts, owner, k).contains(j),
    decreases k,
{
    if k > 0 {
        let before = siblings_upto(stmts, owner, k - 1);
        let all = siblings_upto(stmts, owner, k);
        lemma_siblings(stmts, owner, k - 1);
        if sibling(stmts, owner, k - 1) {
            assert(all == before.push(k - 1));
            assert forall|j: int| 0 <= j < k && sibling(stmts, owner, j) implies all.contains(
                j,
            ) by {
                if j < k - 1 {
                    let i = before.index_of(j);
                    assert(all[i] == j);
                } else {
                    assert(all[all.len() - 1] == j);
                }
            }
        } else {
            assert(all == before);
        }
    }
}

/// The siblings of a widget are the other widgets with the same parent, and a widget at the top level
/// has none.
pub proof fn law_siblings(stmts: Seq<Stmt>, owner: int, j: int)
    requires
        0 <= j < stmts.len(),
    ensures
        siblings(stmts, owner).contains(j) <==> sibling(stmts, owner, j),
        stmts[owner].parent is None ==> siblings(stmts, owner).len() == 0,
{
    let n = stmts.len() as int;
    lemma_siblings(stmts, owner, n);
    if siblings(stmts, owner).len() > 0 {
        let first = siblings(stmts, owner)[0];
        assert(sibling(stmts, owner, first));
    }
}

/// The widget that owns the line of `offset`.
pub fn anchor_owner_widget(source: &str, lines: &[Line], stmts: &[Stmt], offset: usize) -> (r: Option<
    usize,
>)
    requires
        indent::are_lines(lines@, source.spec_bytes()),
        stmts@ == syntax::stmts(source.spec_bytes()),
    ensures
        match r {
            Some(w) => owner_at(source.spec_bytes(), stmts@, offset as int) == Some(w as int) && w
                < stmts@.len() && style_index::widget(stmts@[w as int]),
            None => owner_at(source.spec_bytes(), stmts@, offset as int) is None,
        },
{
    match find_stmt_under(source, lines, stmts, offset) {
        Some(i) => find_widget_at(stmts, i, usize::MAX),
        None => None,
    }
}

/// The siblings of widget `owner`.
pub fn direct_sibling_widgets(stmts: &[Stmt], owner: usize) -> (r: Vec<usize>)
    requires
        owner < stmts@.len(),
    ensures
        r@.map_values(|j: usize| j as int) == siblings(stmts@, owner as int),
        forall|i: int|
            0 <= i < r@.len() ==> #[trigger] r@[i] < stmts@.len() && style_index::widget(
                stmts@[r@[i] as int],
            ),
{
    let ghost as_int = |j: usize| j as int;
    let mut r: Vec<usize> = Vec::new();
    let mut k: usize = 0;
    assert(r@.map_values(as_int) =~= siblings_upto(stmts@, owner as int, 0));
    while k < stmts.len()
        invariant
            as_int == (|j: usize| j as int),
            owner < stmts@.len(),
            k <= stmts@.len(),
            r@.map_values(as_int) == siblings_upto(stmts@, owner as int, k as int),
            forall|i: int|
                0 <= i < r@.len() ==> #[trigger] r@[i] < stmts@.len() && style_index::widget(
                    stmts@[r@[i] as int],
                ),
        decreases stmts@.len() - k,
    {
        let same_parent: bool = match stmts[owner].parent {
            Some(p) => is_child(&stmts[k], p),
            None => false,
        };
        if same_parent && is_widget(&stmts[k]) && k != owner {
            assert(r@.push(k).map_values(as_int) =~= r@.map_values(as_int).push(k as int));
            r.push(k);
        }
        k += 1;
    }
    r
}

/// Where the id of widget `w` stands.
pub fn widget_id_span(stmts: &[Stmt], w: usize) -> (r: Option<ByteSpan>)
    ensures
        r == id_of(stmts@, w as int),
{
    let mut j: usize = 0;
    while j < stmts.len()
        invariant
            j <= stmts@.len(),
            find_id(stmts@, w as int, j as int) == find_id(stmts@, w as int, 0),
        decreases stmts@.len() - j,
    {
        if stmts[j].kind == StmtKind::IdProperty && is_child(&stmts[j], w) {
            return stmts[j].value;
        }
        j += 1;
    }
    None
}

} // verus!
