//! How the statements of a document hang together, told by their indentation.

use crate::indent;
use crate::nodes;
use crate::syntax;
use crate::syntax::{Stmt, StmtKind};
use vstd::prelude::*;

verus! {

/// Whether statement `j` lies below statement `k`: its parent is that statement, or lies below it.
pub open spec fn lies_below(stmts: Seq<Stmt>, j: int, k: int) -> bool
    decreases j,
{
    match stmts[j].parent {
        Some(p) => p < j && (p == k || lies_below(stmts, p as int, k)),
        None => false,
    }
}

/// Whether statement `j` is statement `k` or lies below it.
pub open spec fn within(stmts: Seq<Stmt>, j: int, k: int) -> bool {
    j == k || lies_below(stmts, j, k)
}

/// Being below in the sense of the other modules is being below here.
pub proof fn lemma_descends(stmts: Seq<Stmt>, j: int, k: int)
    ensures
        nodes::descends(stmts, j, k) == lies_below(stmts, j, k),
    decreases j,
{
    if let Some(p) = stmts[j].parent {
        if p < j {
            lemma_descends(stmts, p as int, k);
        }
    }
}

/// The parent of a statement is the nearest statement above it, apart from comments, that is indented
/// less, and a statement has no parent only where there is none. A comment belongs where the next
/// statement belongs.
pub proof fn law_parent_is_indented_less(s: Seq<u8>, k: int)
    requires
        s.len() <= usize::MAX,
        0 <= k < syntax::stmts(s).len(),
    ensures
        ({
            let stmts = syntax::stmts(s);
            if stmts[k].kind == StmtKind::Comment {
                stmts[k].parent == if k + 1 < stmts.len() {
                    stmts[k + 1].parent
                } else {
                    None
                }
            } else {
                match stmts[k].parent {
                    Some(p) => p < k && stmts[p as int].kind != StmtKind::Comment
                        && stmts[p as int].width < stmts[k].width && forall|j: int|
                        p < j < k ==> (#[trigger] stmts[j]).kind == StmtKind::Comment
                            || stmts[j].width >= stmts[k].width,
                    None => forall|j: int|
                        0 <= j < k ==> (#[trigger] stmts[j]).kind == StmtKind::Comment
                            || stmts[j].width >= stmts[k].width,
                }
            }
        }),
{
    let raw = syntax::stmts_from(s, 0);
    let stmts = syntax::stmts(s);
    lemma_raw_len(s);
    syntax::lemma_enclosing(raw, syntax::placed_width(raw, k), k);
    if stmts[k].kind == StmtKind::Comment {
        if k + 1 == stmts.len() {
            assert(syntax::placed_width(raw, k + 1) == 0);
            assert(stmts[k].parent is None);
        }
    } else {
        assert forall|j: int| 0 <= j < k implies (#[trigger] stmts[j]).kind == raw[j].kind
            && stmts[j].width == raw[j].width by {}
        match stmts[k].parent {
            Some(p) => {
                assert forall|j: int| p < j < k implies (#[trigger] stmts[j]).kind
                    == StmtKind::Comment || stmts[j].width >= stmts[k].width by {
                    assert(raw[j].kind == StmtKind::Comment || raw[j].width >= raw[k].width);
                }
            },
            None => {
                assert forall|j: int| 0 <= j < k implies (#[trigger] stmts[j]).kind
                    == StmtKind::Comment || stmts[j].width >= stmts[k].width by {
                    assert(raw[j].kind == StmtKind::Comment || raw[j].width >= raw[k].width);
                }
            },
        }
    }
}

/// A document has no more statements than fit a `usize`.
pub proof fn lemma_count(s: Seq<u8>)
    requires
        s.len() <= usize::MAX,
    ensures
        syntax::stmts(s).len() <= usize::MAX,
{
    lemma_raw_len(s);
}

proof fn lemma_raw_len(s: Seq<u8>)
    requires
        s.len() <= usize::MAX,
    ensures
        syntax::stmts_from(s, 0).len() <= usize::MAX,
{
    syntax::lemma_lines_count(s, 0);
    lemma_stmts_count(s, 0);
}

proof fn lemma_stmts_count(s: Seq<u8>, i: int)
    requires
        s.len() <= usize::MAX,
        0 <= i,
    ensures
        i <= indent::lines(s).len() ==> syntax::stmts_from(s, i).len() <= indent::lines(s).len() - i,
        i > indent::lines(s).len() ==> syntax::stmts_from(s, i).len() == 0,
    decreases indent::lines(s).len() - i,
{
    if i < indent::lines(s).len() {
        syntax::lemma_lines_count(s, 0);
        if syntax::blank_at(s, i) {
            lemma_stmts_count(s, i + 1);
        } else {
            let st = syntax::stmt_at(s, i);
            syntax::lemma_last_line(s, i);
            lemma_stmts_count(s, st.last_line + 1);
        }
    }
}

// ---------------------------------------------------------------------------------------------
// What lies below a statement
// ---------------------------------------------------------------------------------------------

/// Whether statement `j` is placed deeper than `w`.
spec fn deeper(raw: Seq<Stmt>, j: int, w: int) -> bool {
    syntax::placed_width(raw, j) > w
}

/// From a comment on, the place is that of the next statement.
proof fn lemma_placed(raw: Seq<Stmt>, i: int, j: int)
    requires
        0 <= i <= j < raw.len(),
        forall|m: int| i <= m < j ==> (#[trigger] raw[m]).kind == StmtKind::Comment,
    ensures
        syntax::placed_width(raw, i) == syntax::placed_width(raw, j),
    decreases j - i,
{
    if i < j {
        assert(raw[i].kind == StmtKind::Comment);
        lemma_placed(raw, i + 1, j);
    }
}

/// Between the parent of a statement and the statement, nothing is placed less deep than it.
proof fn lemma_between(raw: Seq<Stmt>, p: int, j: int, i: int)
    requires
        0 <= p < i <= j < raw.len(),
        forall|m: int|
            p < m < j ==> (#[trigger] raw[m]).kind == StmtKind::Comment || raw[m].width
                >= syntax::placed_width(raw, j),
    ensures
        syntax::placed_width(raw, i) >= syntax::placed_width(raw, j),
    decreases j - i,
{
    if i < j {
        assert(raw[i].kind == StmtKind::Comment || raw[i].width >= syntax::placed_width(raw, j));
        lemma_between(raw, p, j, i + 1);
    }
}

proof fn lemma_below_deeper(s: Seq<u8>, j: int, k: int)
    requires
        s.len() <= usize::MAX,
        0 <= k,
        0 <= j < syntax::stmts(s).len(),
        lies_below(syntax::stmts(s), j, k),
    ensures
        k < j,
        syntax::stmts_from(s, 0)[k].kind != StmtKind::Comment,
        forall|m: int|
            k < m <= j ==> #[trigger] deeper(
                syntax::stmts_from(s, 0),
                m,
                syntax::stmts_from(s, 0)[k].width as int,
            ),
    decreases j,
{
    let raw = syntax::stmts_from(s, 0);
    let w = raw[k].width as int;
    lemma_raw_len(s);
    let pw = syntax::placed_width(raw, j);
    syntax::lemma_enclosing(raw, pw, j);
    let p = syntax::stmts(s)[j].parent->0 as int;
    if p != k {
        lemma_below_deeper(s, p, k);
        assert(deeper(raw, p, w));
    }
    assert forall|m: int| k < m <= j implies #[trigger] deeper(raw, m, w) by {
        if m > p {
            lemma_between(raw, p, j, m);
        }
    }
}

proof fn lemma_deeper_below(s: Seq<u8>, j: int, k: int)
    requires
        s.len() <= usize::MAX,
        0 <= k < j < syntax::stmts(s).len(),
        syntax::stmts_from(s, 0)[k].kind != StmtKind::Comment,
        forall|m: int|
            k < m <= j ==> #[trigger] deeper(
                syntax::stmts_from(s, 0),
                m,
                syntax::stmts_from(s, 0)[k].width as int,
            ),
    ensures
        lies_below(syntax::stmts(s), j, k),
    decreases j,
{
    let raw = syntax::stmts_from(s, 0);
    lemma_raw_len(s);
    let pw = syntax::placed_width(raw, j);
    assert(deeper(raw, j, raw[k].width as int));
    syntax::lemma_enclosing(raw, pw, j);
    assert(syntax::stmts(s)[j].parent == syntax::enclosing(raw, pw, j));
    if syntax::enclosing(raw, pw, j) is None {
        assert(raw[k].kind == StmtKind::Comment || raw[k].width >= pw);
    }
    let p = syntax::enclosing(raw, pw, j)->0 as int;
    if p < k {
        assert(raw[k].kind == StmtKind::Comment || raw[k].width >= pw);
    }
    if p > k {
        lemma_deeper_below(s, p, k);
    }
}

/// What stands between a statement and one that lies below it lies below it too.
pub proof fn law_below_is_contiguous(s: Seq<u8>, i: int, j: int, k: int)
    requires
        s.len() <= usize::MAX,
        0 <= k < i <= j < syntax::stmts(s).len(),
        lies_below(syntax::stmts(s), j, k),
    ensures
        lies_below(syntax::stmts(s), i, k),
{
    lemma_below_deeper(s, j, k);
    lemma_deeper_below(s, i, k);
}

/// What lies below a statement that lies below another lies below that one too.
pub proof fn law_below_is_transitive(stmts: Seq<Stmt>, i: int, j: int, k: int)
    requires
        lies_below(stmts, i, j),
        lies_below(stmts, j, k),
    ensures
        lies_below(stmts, i, k),
    decreases i,
{
    if let Some(p) = stmts[i].parent {
        if p != j {
            law_below_is_transitive(stmts, p as int, j, k);
        }
    }
}

} // verus!
