//! Reading the statements of a document: their texts and how they hang together.

use crate::indent;
use crate::indent::Line;
use crate::lang_api::ByteSpan;
use crate::style_index;
use crate::style_index::is_widget;
use crate::syntax;
use crate::syntax::{Stmt, StmtKind};
use crate::text;
use crate::text::{same_str, substr};
use vstd::prelude::*;
use vstd::string::*;
use vstd::utf8::*;

verus! {

/// The key of a statement.
pub open spec fn key_of(s: Seq<u8>, st: Stmt) -> Seq<u8> {
    syntax::cut(s, st.key)
}

/// Whether some statement belongs to statement `i`.
pub open spec fn has_body(stmts: Seq<Stmt>, i: int) -> bool {
    exists|j: int| 0 <= j < stmts.len() && (#[trigger] stmts[j]).parent == Some(i as usize)
}

/// The nearest widget above statement `i`.
pub open spec fn widget_above(stmts: Seq<Stmt>, i: int) -> Option<int>
    decreases i,
{
    match stmts[i].parent {
        Some(p) => if p < i {
            if style_index::widget(stmts[p as int]) {
                Some(p as int)
            } else {
                widget_above(stmts, p as int)
            }
        } else {
            None
        },
        None => None,
    }
}

/// Whether statement `i` is a property in the body of the property `key`.
pub open spec fn in_block(s: Seq<u8>, stmts: Seq<Stmt>, i: int, key: Seq<u8>) -> bool {
    match stmts[i].parent {
        Some(p) => p < stmts.len() && stmts[p as int].kind == StmtKind::Property && key_of(
            s,
            stmts[p as int],
        ) == key,
        None => false,
    }
}

/// Whether statement `j` lies below statement `k`, at any depth.
pub open spec fn descends(stmts: Seq<Stmt>, j: int, k: int) -> bool
    decreases j,
{
    match stmts[j].parent {
        Some(p) => p < j && (p == k || descends(stmts, p as int, k)),
        None => false,
    }
}

/// The last of the first `n` statements that lies below statement `k`, or else that statement itself.
pub open spec fn last_below(stmts: Seq<Stmt>, k: int, n: int) -> int
    decreases n,
{
    if n <= 0 || n <= k + 1 {
        k
    } else if descends(stmts, n - 1, k) {
        n - 1
    } else {
        last_below(stmts, k, n - 1)
    }
}

/// Where statement `k` lies with everything below it.
pub open spec fn whole_span(stmts: Seq<Stmt>, k: int) -> ByteSpan {
    ByteSpan {
        start: stmts[k].span.start,
        end: stmts[last_below(stmts, k, stmts.len() as int)].end,
    }
}

/// What `last_below` reports is a statement, and nothing below statement `k` comes after it.
pub proof fn lemma_last_below(stmts: Seq<Stmt>, k: int, n: int)
    requires
        0 <= k < stmts.len(),
        n <= stmts.len(),
    ensures
        k <= last_below(stmts, k, n) < stmts.len(),
        last_below(stmts, k, n) == k || descends(stmts, last_below(stmts, k, n), k),
        forall|j: int|
            k < j < n && #[trigger] descends(stmts, j, k) ==> j <= last_below(stmts, k, n),
    decreases n,
{
    if n > k + 1 {
        lemma_last_below(stmts, k, n - 1);
    }
}

/// What lies below a statement that lies below another lies below that one too.
pub proof fn lemma_descends(stmts: Seq<Stmt>, i: int, j: int, k: int)
    requires
        descends(stmts, i, j),
        descends(stmts, j, k),
    ensures
        descends(stmts, i, k),
    decreases i,
{
    if let Some(p) = stmts[i].parent {
        if p != j {
            lemma_descends(stmts, p as int, j, k);
        }
    }
}

/// The last of the first `n` statements whose line starts at or before `offset`.
pub open spec fn stmt_under(s: Seq<u8>, stmts: Seq<Stmt>, offset: int, n: int) -> Option<int>
    decreases n,
{
    if !(0 < n <= stmts.len()) {
        None
    } else if indent::lines(s)[stmts[n - 1].line as int].0 <= offset {
        Some(n - 1)
    } else {
        stmt_under(s, stmts, offset, n - 1)
    }
}

/// The nearest widget above a statement is a widget that comes before it, and the statement lies
/// below it.
pub proof fn lemma_widget_above(stmts: Seq<Stmt>, i: int)
    ensures
        widget_above(stmts, i) matches Some(w) ==> 0 <= w < i && style_index::widget(stmts[w])
            && descends(stmts, i, w),
    decreases i,
{
    if let Some(p) = stmts[i].parent {
        if p < i && !style_index::widget(stmts[p as int]) {
            lemma_widget_above(stmts, p as int);
            assert(widget_above(stmts, i) == widget_above(stmts, p as int));
        }
    }
}

/// What holds of every statement of a document.
pub proof fn lemma_document(source: &str)
    requires
        source.spec_bytes().len() <= usize::MAX,
    ensures
        valid_utf8(source.spec_bytes()),
        syntax::stmts(source.spec_bytes()).len() <= source.spec_bytes().len(),
        forall|k: int|
            0 <= k < syntax::stmts(source.spec_bytes()).len() ==> syntax::stmt_ok(
                source.spec_bytes(),
                #[trigger] syntax::stmts(source.spec_bytes())[k],
            ),
        forall|k: int|
            0 <= k < syntax::stmts(source.spec_bytes()).len() ==> ((#[trigger] syntax::stmts(
                source.spec_bytes(),
            )[k]).parent matches Some(p) ==> p < k),
{
    text::lemma_valid(source);
    syntax::lemma_stmts(source.spec_bytes());
}

/// The text of a span.
pub fn span_text<'a>(source: &'a str, span: ByteSpan) -> (r: &'a str)
    requires
        syntax::in_text(source.spec_bytes(), span),
    ensures
        r.spec_bytes() == syntax::cut(source.spec_bytes(), span),
        r@ == text::chars_of(syntax::cut(source.spec_bytes(), span)),
{
    substr(source, span.start, span.end)
}

/// The key of statement `i`.
pub fn key_text<'a>(source: &'a str, stmts: &[Stmt], i: usize) -> (r: &'a str)
    requires
        stmts@ == syntax::stmts(source.spec_bytes()),
        i < stmts@.len(),
    ensures
        r.spec_bytes() == key_of(source.spec_bytes(), stmts@[i as int]),
        r@ == text::chars_of(key_of(source.spec_bytes(), stmts@[i as int])),
{
    let n: usize = source.as_bytes().len();
    proof {
        lemma_document(source);
        assert(syntax::stmt_ok(source.spec_bytes(), stmts@[i as int]));
    }
    span_text(source, stmts[i].key)
}

/// The value of statement `i`.
pub fn value_text<'a>(source: &'a str, stmts: &[Stmt], i: usize) -> (r: Option<&'a str>)
    requires
        stmts@ == syntax::stmts(source.spec_bytes()),
        i < stmts@.len(),
    ensures
        match r {
            Some(t) => stmts@[i as int].value is Some && t.spec_bytes() == syntax::cut(
                source.spec_bytes(),
                stmts@[i as int].value->0,
            ) && t@ == text::chars_of(
                syntax::cut(source.spec_bytes(), stmts@[i as int].value->0),
            ),
            None => stmts@[i as int].value is None,
        },
{
    let n: usize = source.as_bytes().len();
    proof {
        lemma_document(source);
        assert(syntax::stmt_ok(source.spec_bytes(), stmts@[i as int]));
    }
    match stmts[i].value {
        Some(v) => Some(span_text(source, v)),
        None => None,
    }
}

/// Whether statement `i` is what a statement belongs to.
pub fn is_child(st: &Stmt, i: usize) -> (r: bool)
    ensures
        r == (st.parent == Some(i)),
{
    match st.parent {
        Some(p) => p == i,
        None => false,
    }
}

/// Whether some statement belongs to statement `i`.
pub fn has_children(stmts: &[Stmt], i: usize) -> (r: bool)
    ensures
        r == has_body(stmts@, i as int),
{
    let mut j: usize = 0;
    while j < stmts.len()
        invariant
            j <= stmts@.len(),
            forall|k: int| 0 <= k < j ==> (#[trigger] stmts@[k]).parent != Some(i),
        decreases stmts@.len() - j,
    {
        if is_child(&stmts[j], i) {
            assert(stmts@[j as int].parent == Some(i));
            return true;
        }
        j += 1;
    }
    false
}

/// The nearest widget above statement `i`.
pub fn enclosing_widget(stmts: &[Stmt], i: usize) -> (r: Option<usize>)
    requires
        i < stmts@.len(),
    ensures
        match r {
            Some(w) => widget_above(stmts@, i as int) == Some(w as int) && w < i,
            None => widget_above(stmts@, i as int) is None,
        },
{
    let mut at: usize = i;
    loop
        invariant
            at <= i < stmts@.len(),
            widget_above(stmts@, at as int) == widget_above(stmts@, i as int),
        decreases at,
    {
        match stmts[at].parent {
            Some(p) => {
                if p >= at {
                    return None;
                }
                if is_widget(&stmts[p]) {
                    return Some(p);
                }
                at = p;
            },
            None => {
                return None;
            },
        }
    }
}

/// Whether statement `i` is a property in the body of the property `key`.
pub fn is_in_block(source: &str, stmts: &[Stmt], i: usize, key: &str) -> (r: bool)
    requires
        stmts@ == syntax::stmts(source.spec_bytes()),
        i < stmts@.len(),
    ensures
        r == in_block(source.spec_bytes(), stmts@, i as int, key.spec_bytes()),
{
    match stmts[i].parent {
        Some(p) => {
            p < stmts.len() && stmts[p].kind == StmtKind::Property && same_str(
                key_text(source, stmts, p),
                key,
            )
        },
        None => false,
    }
}

/// The last statement whose line starts at or before `offset`.
pub fn find_stmt_under(source: &str, lines: &[Line], stmts: &[Stmt], offset: usize) -> (r: Option<
    usize,
>)
    requires
        indent::are_lines(lines@, source.spec_bytes()),
        stmts@ == syntax::stmts(source.spec_bytes()),
    ensures
        match r {
            Some(i) => stmt_under(
                source.spec_bytes(),
                stmts@,
                offset as int,
                stmts@.len() as int,
            ) == Some(i as int) && i < stmts@.len(),
            None => stmt_under(
                source.spec_bytes(),
                stmts@,
                offset as int,
                stmts@.len() as int,
            ) is None,
        },
{
    let ghost s = source.spec_bytes();
    let len: usize = source.as_bytes().len();
    proof {
        lemma_document(source);
    }
    let mut n: usize = stmts.len();
    while n > 0
        invariant
            s == source.spec_bytes(),
            indent::are_lines(lines@, s),
            stmts@ == syntax::stmts(s),
            forall|k: int| 0 <= k < stmts@.len() ==> syntax::stmt_ok(s, #[trigger] stmts@[k]),
            n <= stmts@.len(),
            stmt_under(s, stmts@, offset as int, n as int) == stmt_under(
                s,
                stmts@,
                offset as int,
                stmts@.len() as int,
            ),
        decreases n,
    {
        assert(syntax::stmt_ok(s, stmts@[n - 1]));
        let line: usize = stmts[n - 1].line;
        assert(lines@[line as int].start == indent::lines(s)[line as int].0);
        if lines[line].start <= offset {
            return Some(n - 1);
        }
        n -= 1;
    }
    None
}

/// Whether statement `j` lies below statement `k`, at any depth.
pub fn is_below(stmts: &[Stmt], j: usize, k: usize) -> (r: bool)
    requires
        j < stmts@.len(),
    ensures
        r == descends(stmts@, j as int, k as int),
{
    let mut at: usize = j;
    loop
        invariant
            at < stmts@.len(),
            descends(stmts@, at as int, k as int) == descends(stmts@, j as int, k as int),
        decreases at,
    {
        match stmts[at].parent {
            Some(p) => {
                if p >= at {
                    return false;
                }
                if p == k {
                    return true;
                }
                at = p;
            },
            None => {
                return false;
            },
        }
    }
}

/// The last statement that lies below statement `k`, or else that statement itself.
pub fn last_statement_below(stmts: &[Stmt], k: usize) -> (r: usize)
    requires
        k < stmts@.len(),
    ensures
        r == last_below(stmts@, k as int, stmts@.len() as int),
        k <= r < stmts@.len(),
{
    let mut n: usize = stmts.len();
    while n > k + 1
        invariant
            k < n <= stmts@.len(),
            last_below(stmts@, k as int, n as int) == last_below(
                stmts@,
                k as int,
                stmts@.len() as int,
            ),
        decreases n,
    {
        if is_below(stmts, n - 1, k) {
            return n - 1;
        }
        n -= 1;
    }
    k
}

} // verus!
