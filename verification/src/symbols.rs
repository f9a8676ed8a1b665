//! The outline of a document: its widgets, each with the widgets below it.

use crate::anchors;
use crate::anchors::widget_id_span;
use crate::lang_api::{ByteSpan, DocumentSymbol, SymbolKind};
use crate::navigation;
use crate::nodes;
use crate::nodes::{enclosing_widget, last_statement_below, span_text};
use crate::style_index;
use crate::style_index::is_widget;
use crate::syntax;
use crate::syntax::{Stmt, StmtKind, SyntaxTree};
use crate::text;
use crate::widget_resolve;
use crate::widget_resolve::widget_type;
use vstd::prelude::*;
use vstd::string::*;
use vstd::utf8::*;

verus! {

/// The widgets among the first `k` statements whose nearest widget above is `parent`.
pub open spec fn widgets_below(stmts: Seq<Stmt>, parent: Option<int>, k: int) -> Seq<int>
    decreases k,
{
    if k <= 0 {
        Seq::empty()
    } else if style_index::widget(stmts[k - 1]) && nodes::widget_above(stmts, k - 1) == parent {
        widgets_below(stmts, parent, k - 1).push(k - 1)
    } else {
        widgets_below(stmts, parent, k - 1)
    }
}

/// The token that names widget `w`: its id, or else its name or tag.
pub open spec fn name_span(stmts: Seq<Stmt>, w: int) -> ByteSpan {
    match anchors::id_of(stmts, w) {
        Some(v) => v,
        None => stmts[w].key,
    }
}

/// Whether `sym` is the entry of widget `w`, up to the entries under it.
pub open spec fn is_entry(s: Seq<u8>, stmts: Seq<Stmt>, w: int, sym: DocumentSymbol) -> bool {
    &&& sym.name@ == navigation::token(s, name_span(stmts, w))
    &&& sym.detail matches Some(d) && d@ == text::chars_of(
        widget_resolve::type_of(s, stmts[w]),
    )
    &&& sym.kind == if anchors::id_of(stmts, w) is Some {
        SymbolKind::Field
    } else {
        SymbolKind::Object
    }
    &&& sym.span == nodes::whole_span(stmts, w)
    &&& sym.selection_span == name_span(stmts, w)
}

/// Whether `sym` is the entry of widget `w`, with the entries of the widgets below it.
pub open spec fn is_symbol(s: Seq<u8>, stmts: Seq<Stmt>, w: int, sym: DocumentSymbol) -> bool
    decreases stmts.len() - w,
{
    let below = widgets_below(stmts, Some(w), stmts.len() as int);
    &&& is_entry(s, stmts, w, sym)
    &&& sym.children@.len() == below.len()
    &&& forall|i: int|
        0 <= i < below.len() && w < below[i] < stmts.len() ==> is_symbol(
            s,
            stmts,
            below[i],
            #[trigger] sym.children@[i],
        )
}

/// Whether `syms` are the entries of the given widgets.
pub open spec fn are_symbols(
    s: Seq<u8>,
    stmts: Seq<Stmt>,
    widgets: Seq<int>,
    syms: Seq<DocumentSymbol>,
) -> bool {
    &&& syms.len() == widgets.len()
    &&& forall|i: int|
        0 <= i < syms.len() ==> is_symbol(s, stmts, widgets[i], #[trigger] syms[i])
}

/// The widgets below a widget are widgets that come after it, in the order in which they stand.
pub proof fn law_widgets_below(stmts: Seq<Stmt>, parent: Option<int>, k: int)
    requires
        0 <= k <= stmts.len(),
    ensures
        forall|i: int|
            0 <= i < widgets_below(stmts, parent, k).len() ==> {
                let j = #[trigger] widgets_below(stmts, parent, k)[i];
                &&& 0 <= j < k
                &&& style_index::widget(stmts[j])
                &&& nodes::widget_above(stmts, j) == parent
                &&& parent matches Some(w) ==> w < j
            },
        forall|i: int, j: int|
            0 <= i < j < widgets_below(stmts, parent, k).len() ==> #[trigger] widgets_below(
                stmts,
                parent,
                k,
            )[i] < #[trigger] widgets_below(stmts, parent, k)[j],
    decreases k,
{
    if k > 0 {
        law_widgets_below(stmts, parent, k - 1);
        let before = widgets_below(stmts, parent, k - 1);
        nodes::lemma_widget_above(stmts, k - 1);
        if style_index::widget(stmts[k - 1]) && nodes::widget_above(stmts, k - 1) == parent {
            assert(widgets_below(stmts, parent, k) == before.push(k - 1));
        } else {
            assert(widgets_below(stmts, parent, k) == before);
        }
    }
}

proof fn lemma_end_below(s: Seq<u8>, w: int, j: int)
    requires
        valid_utf8(s),
        s.len() <= usize::MAX,
        0 <= w < j < syntax::stmts(s).len(),
        nodes::descends(syntax::stmts(s), j, w),
    ensures
        syntax::stmts(s)[w].span.start <= syntax::stmts(s)[j].span.start,
        syntax::stmts(s)[j].end <= nodes::whole_span(syntax::stmts(s), w).end,
{
    let stmts = syntax::stmts(s);
    let last = nodes::last_below(stmts, w, stmts.len() as int);
    syntax::lemma_stmts(s);
    nodes::lemma_last_below(stmts, w, stmts.len() as int);
    assert(j <= last);
    assert(syntax::stmt_ok(s, stmts[w]));
    assert(syntax::stmt_ok(s, stmts[last]));
    syntax::lemma_stmts_ordered(s, w, j);
    if j < last {
        syntax::lemma_stmts_ordered(s, j, last);
    }
}

proof fn lemma_id_below(s: Seq<u8>, w: int, j: int)
    requires
        valid_utf8(s),
        s.len() <= usize::MAX,
        0 <= w < syntax::stmts(s).len(),
        0 <= j,
    ensures
        anchors::find_id(syntax::stmts(s), w, j) matches Some(v) ==> {
            &&& nodes::whole_span(syntax::stmts(s), w).start <= v.start
            &&& v.end <= nodes::whole_span(syntax::stmts(s), w).end
        },
    decreases syntax::stmts(s).len() - j,
{
    let stmts = syntax::stmts(s);
    if j < stmts.len() {
        syntax::lemma_stmts(s);
        assert(syntax::stmt_ok(s, stmts[j]));
        if stmts[j].kind == StmtKind::IdProperty && stmts[j].parent == Some(w as usize) {
            assert(nodes::descends(stmts, j, w));
            lemma_end_below(s, w, j);
        } else {
            lemma_id_below(s, w, j + 1);
        }
    }
}

/// The widgets below a widget lie in it.
pub proof fn law_symbols_nest(s: Seq<u8>, w: int, sym: DocumentSymbol, i: int)
    requires
        valid_utf8(s),
        s.len() <= usize::MAX,
        0 <= w < syntax::stmts(s).len(),
        is_symbol(s, syntax::stmts(s), w, sym),
        0 <= i < sym.children@.len(),
    ensures
        sym.span.start <= sym.children@[i].span.start,
        sym.children@[i].span.end <= sym.span.end,
{
    let stmts = syntax::stmts(s);
    let n = stmts.len() as int;
    let below = widgets_below(stmts, Some(w), n);
    law_widgets_below(stmts, Some(w), n);
    let c = below[i];
    assert(is_symbol(s, stmts, c, sym.children@[i]));
    nodes::lemma_widget_above(stmts, c);
    lemma_end_below(s, w, c);
    nodes::lemma_last_below(stmts, c, n);
    let last = nodes::last_below(stmts, c, n);
    if last != c {
        nodes::lemma_descends(stmts, last, c, w);
        lemma_end_below(s, w, last);
    }
}

/// The token that names a widget lies in the widget, and the widget lies in the text.
pub proof fn law_selection_within(s: Seq<u8>, w: int, sym: DocumentSymbol)
    requires
        valid_utf8(s),
        s.len() <= usize::MAX,
        0 <= w < syntax::stmts(s).len(),
        is_symbol(s, syntax::stmts(s), w, sym),
    ensures
        sym.span.start <= sym.selection_span.start <= sym.selection_span.end <= sym.span.end,
        sym.span.end <= s.len(),
{
    let stmts = syntax::stmts(s);
    let n = stmts.len() as int;
    let last = nodes::last_below(stmts, w, n);
    syntax::lemma_stmts(s);
    nodes::lemma_last_below(stmts, w, n);
    assert(syntax::stmt_ok(s, stmts[w]));
    assert(syntax::stmt_ok(s, stmts[last]));
    if w < last {
        syntax::lemma_stmts_ordered(s, w, last);
    }
    lemma_id_below(s, w, 0);
    anchors::lemma_id_in_text(s, w, 0);
}

/// The entry of widget `w`.
fn symbol(source: &str, stmts: &[Stmt], w: usize) -> (sym: DocumentSymbol)
    requires
        stmts@ == syntax::stmts(source.spec_bytes()),
        w < stmts@.len(),
        style_index::widget(stmts@[w as int]),
    ensures
        is_symbol(source.spec_bytes(), stmts@, w as int, sym),
    decreases stmts@.len() - w, 0int,
{
    let ghost s = source.spec_bytes();
    let n: usize = source.as_bytes().len();
    proof {
        nodes::lemma_document(source);
        assert(syntax::stmt_ok(s, stmts@[w as int]));
        anchors::lemma_id_in_text(s, w as int, 0);
    }
    let last: usize = last_statement_below(stmts, w);
    let span = ByteSpan::new(stmts[w].span.start, stmts[last].end);
    let detail = Some(widget_type(source, stmts, w));
    let id = widget_id_span(stmts, w);
    let selection_span = match id {
        Some(v) => v,
        None => stmts[w].key,
    };
    let kind = match id {
        Some(_) => SymbolKind::Field,
        None => SymbolKind::Object,
    };
    let mut children: Vec<DocumentSymbol> = Vec::new();
    let ghost below = widgets_below(stmts@, Some(w as int), stmts@.len() as int);
    let mut j: usize = w + 1;
    proof {
        lemma_none_before(stmts@, w as int, w + 1);
    }
    while j < stmts.len()
        invariant
            s == source.spec_bytes(),
            stmts@ == syntax::stmts(s),
            w < j <= stmts@.len(),
            are_symbols(
                s,
                stmts@,
                widgets_below(stmts@, Some(w as int), j as int),
                children@,
            ),
        decreases stmts@.len() - j,
    {
        let ghost before = widgets_below(stmts@, Some(w as int), j as int);
        let inside: bool = match enclosing_widget(stmts, j) {
            Some(p) => p == w,
            None => false,
        };
        if is_widget(&stmts[j]) && inside {
            let child = symbol(source, stmts, j);
            let ghost had = children@;
            children.push(child);
            proof {
                let now = widgets_below(stmts@, Some(w as int), j + 1);
                assert(now == before.push(j as int));
                assert forall|i: int| 0 <= i < children@.len() implies is_symbol(
                    s,
                    stmts@,
                    now[i],
                    #[trigger] children@[i],
                ) by {
                    if i < had.len() {
                        assert(children@[i] == had[i]);
                        assert(now[i] == before[i]);
                    }
                }
            }
        } else {
            assert(widgets_below(stmts@, Some(w as int), j + 1) == before);
        }
        j += 1;
    }
    let name = span_text(source, selection_span).to_owned();
    DocumentSymbol { name, detail, kind, span, selection_span, children }
}

proof fn lemma_none_before(stmts: Seq<Stmt>, w: int, k: int)
    requires
        0 <= k <= w + 1,
        w < stmts.len(),
    ensures
        widgets_below(stmts, Some(w), k).len() == 0,
    decreases k,
{
    if k > 0 {
        nodes::lemma_widget_above(stmts, k - 1);
        lemma_none_before(stmts, w, k - 1);
    }
}

/// The outline of a document.
pub fn document_symbols(source: &str) -> (out: Vec<DocumentSymbol>)
    ensures
        are_symbols(
            source.spec_bytes(),
            syntax::stmts(source.spec_bytes()),
            widgets_below(
                syntax::stmts(source.spec_bytes()),
                None,
                syntax::stmts(source.spec_bytes()).len() as int,
            ),
            out@,
        ),
{
    let mut out: Vec<DocumentSymbol> = Vec::new();
    let tree = match SyntaxTree::parse(source) {
        Some(tree) => tree,
        None => {
            return out;
        },
    };
    let stmts = tree.statements();
    let ghost s = source.spec_bytes();
    let mut j: usize = 0;
    while j < stmts.len()
        invariant
            s == source.spec_bytes(),
            stmts@ == syntax::stmts(s),
            j <= stmts@.len(),
            are_symbols(s, stmts@, widgets_below(stmts@, None, j as int), out@),
        decreases stmts@.len() - j,
    {
        let ghost before = widgets_below(stmts@, None, j as int);
        if is_widget(&stmts[j]) && enclosing_widget(stmts, j).is_none() {
            let entry = symbol(source, stmts, j);
            let ghost had = out@;
            out.push(entry);
            proof {
                let now = widgets_below(stmts@, None, j + 1);
                assert(now == before.push(j as int));
                assert forall|i: int| 0 <= i < out@.len() implies is_symbol(
                    s,
                    stmts@,
                    now[i],
                    #[trigger] out@[i],
                ) by {
                    if i < had.len() {
                        assert(out@[i] == had[i]);
                        assert(now[i] == before[i]);
                    }
                }
            }
        } else {
            assert(widgets_below(stmts@, None, j + 1) == before);
        }
        j += 1;
    }
    out
}

} // verus!
