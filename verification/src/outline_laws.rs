//! What the outline of a document says of its widgets.

use crate::anchors;
use crate::folding_laws;
use crate::lang_api::{DocumentSymbol, SymbolKind};
use crate::nodes;
use crate::style_index;
use crate::symbols;
use crate::syntax;
use crate::syntax::{Stmt, StmtKind};
use crate::text;
use crate::tree_laws;
use vstd::prelude::*;
use vstd::string::*;
use vstd::utf8::*;

verus! {

/// Whether widget `w` is the nearest widget above statement `j`: the statement lies below it, and no
/// other widget lies between.
pub open spec fn nearest_widget(stmts: Seq<Stmt>, j: int, w: int) -> bool {
    &&& 0 <= w < stmts.len()
    &&& folding_laws::is_widget(stmts[w])
    &&& tree_laws::lies_below(stmts, j, w)
    &&& forall|x: int|
        0 <= x < stmts.len() && folding_laws::is_widget(#[trigger] stmts[x])
            && tree_laws::lies_below(stmts, j, x) && tree_laws::lies_below(stmts, x, w) ==> false
}

/// Whether no widget is above statement `j`.
pub open spec fn no_widget_above(stmts: Seq<Stmt>, j: int) -> bool {
    forall|x: int|
        0 <= x < stmts.len() && folding_laws::is_widget(#[trigger] stmts[x])
            ==> !tree_laws::lies_below(stmts, j, x)
}

/// The chain of parents leads to the nearest widget.
pub proof fn law_nearest_widget(stmts: Seq<Stmt>, j: int)
    requires
        0 <= j < stmts.len(),
    ensures
        match nodes::widget_above(stmts, j) {
            Some(w) => nearest_widget(stmts, j, w) && forall|x: int| #[trigger]
                nearest_widget(stmts, j, x) ==> x == w,
            None => no_widget_above(stmts, j),
        },
    decreases j,
{
    nodes::lemma_widget_above(stmts, j);
    if let Some(p) = stmts[j].parent {
        if p < j {
            let q = p as int;
            assert forall|x: int| #[trigger] tree_laws::lies_below(stmts, j, x) implies x == q
                || tree_laws::lies_below(stmts, q, x) by {}
            if style_index::widget(stmts[q]) {
                assert(tree_laws::lies_below(stmts, j, q));
                assert forall|x: int|
                    0 <= x < stmts.len() && folding_laws::is_widget(#[trigger] stmts[x])
                        && tree_laws::lies_below(stmts, j, x) && tree_laws::lies_below(
                        stmts,
                        x,
                        q,
                    ) implies false by {
                    folding_laws::lemma_below_after(stmts, x, q);
                    if x != q {
                        folding_laws::lemma_below_after(stmts, q, x);
                    }
                }
                assert(nearest_widget(stmts, j, q));
                assert forall|x: int| #[trigger] nearest_widget(stmts, j, x) implies x == q by {
                    if x != q {
                        assert(tree_laws::lies_below(stmts, q, x));
                        assert(folding_laws::is_widget(stmts[q]));
                    }
                }
            } else {
                law_nearest_widget(stmts, q);
                match nodes::widget_above(stmts, q) {
                    Some(w) => {
                        assert(tree_laws::lies_below(stmts, j, w));
                        assert forall|x: int|
                            0 <= x < stmts.len() && folding_laws::is_widget(#[trigger] stmts[x])
                                && tree_laws::lies_below(stmts, j, x) && tree_laws::lies_below(
                                stmts,
                                x,
                                w,
                            ) implies false by {
                            assert(x != q);
                            assert(tree_laws::lies_below(stmts, q, x));
                        }
                        assert(nearest_widget(stmts, j, w));
                        assert forall|x: int| #[trigger] nearest_widget(stmts, j, x) implies x
                            == w by {
                            assert(x != q);
                            assert(tree_laws::lies_below(stmts, q, x));
                            assert(nearest_widget(stmts, q, x)) by {
                                assert forall|y: int|
                                    0 <= y < stmts.len() && folding_laws::is_widget(
                                        #[trigger] stmts[y],
                                    ) && tree_laws::lies_below(stmts, q, y)
                                        && tree_laws::lies_below(stmts, y, x) implies false by {
                                    assert(tree_laws::lies_below(stmts, j, y));
                                }
                            }
                        }
                    },
                    None => {
                        assert forall|x: int|
                            0 <= x < stmts.len() && folding_laws::is_widget(#[trigger] stmts[x]) implies
                            !tree_laws::lies_below(stmts, j, x) by {
                            assert(!tree_laws::lies_below(stmts, q, x));
                        }
                    },
                }
            }
        }
    }
}

/// Whether widget `c` goes directly under `parent` in the outline.
pub open spec fn goes_under(stmts: Seq<Stmt>, c: int, parent: Option<int>) -> bool {
    &&& 0 <= c < stmts.len()
    &&& folding_laws::is_widget(stmts[c])
    &&& match parent {
        Some(w) => nearest_widget(stmts, c, w),
        None => no_widget_above(stmts, c),
    }
}

proof fn lemma_listed(stmts: Seq<Stmt>, parent: Option<int>, k: int, c: int)
    requires
        0 <= k <= stmts.len(),
    ensures
        symbols::widgets_below(stmts, parent, k).contains(c) <==> 0 <= c < k
            && style_index::widget(stmts[c]) && nodes::widget_above(stmts, c) == parent,
    decreases k,
{
    if k > 0 {
        lemma_listed(stmts, parent, k - 1, c);
        let before = symbols::widgets_below(stmts, parent, k - 1);
        let all = symbols::widgets_below(stmts, parent, k);
        if style_index::widget(stmts[k - 1]) && nodes::widget_above(stmts, k - 1) == parent {
            assert(all == before.push(k - 1));
            if before.contains(c) {
                assert(all[before.index_of(c)] == c);
            }
            if c == k - 1 {
                assert(all[before.len() as int] == c);
            }
            if all.contains(c) && c != k - 1 {
                assert(before[all.index_of(c)] == c);
            }
        } else {
            assert(all == before);
        }
    }
}

/// The entries under a widget, and those of the top, are those of the widgets whose nearest widget
/// above is that one, or which have none; each has its entry, once and in order.
pub proof fn law_outline_lists_widgets(stmts: Seq<Stmt>, parent: Option<int>)
    ensures
        ({
            let all = symbols::widgets_below(stmts, parent, stmts.len() as int);
            &&& forall|c: int| #[trigger] all.contains(c) <==> goes_under(stmts, c, parent)
            &&& forall|i: int, j: int|
                0 <= i < j < all.len() ==> #[trigger] all[i] < #[trigger] all[j]
        }),
{
    let all = symbols::widgets_below(stmts, parent, stmts.len() as int);
    symbols::law_widgets_below(stmts, parent, stmts.len() as int);
    assert forall|c: int| #[trigger] all.contains(c) <==> goes_under(stmts, c, parent) by {
        lemma_listed(stmts, parent, stmts.len() as int, c);
        if 0 <= c < stmts.len() {
            law_nearest_widget(stmts, c);
            if goes_under(stmts, c, parent) {
                if let Some(w) = parent {
                    if nodes::widget_above(stmts, c) is None {
                        assert(folding_laws::is_widget(stmts[w]));
                    }
                } else if let Some(w) = nodes::widget_above(stmts, c) {
                    assert(folding_laws::is_widget(stmts[w]));
                }
            }
        }
    }
}

/// Whether statement `j` is the first `id:` in the body of widget `w`.
pub open spec fn first_id(stmts: Seq<Stmt>, w: int, j: int) -> bool {
    &&& is_id_of(stmts, w, j)
    &&& forall|i: int| 0 <= i < j ==> !#[trigger] is_id_of(stmts, w, i)
}

/// Whether statement `j` is an `id:` in the body of widget `w`.
pub open spec fn is_id_of(stmts: Seq<Stmt>, w: int, j: int) -> bool {
    0 <= j < stmts.len() && stmts[j].kind == StmtKind::IdProperty && stmts[j].parent == Some(
        w as usize,
    )
}

/// The id of a widget is the value of the first `id:` in its body.
pub proof fn law_id_of_widget(stmts: Seq<Stmt>, w: int)
    ensures
        match anchors::id_of(stmts, w) {
            Some(v) => exists|j: int| #[trigger] first_id(stmts, w, j) && stmts[j].value == Some(v),
            None => forall|j: int| #[trigger] first_id(stmts, w, j) ==> stmts[j].value is None,
        },
{
    lemma_find_id(stmts, w, 0);
}

proof fn lemma_find_id(stmts: Seq<Stmt>, w: int, j: int)
    requires
        0 <= j,
        forall|i: int| 0 <= i < j ==> !#[trigger] is_id_of(stmts, w, i),
    ensures
        match anchors::find_id(stmts, w, j) {
            Some(v) => exists|x: int| #[trigger] first_id(stmts, w, x) && stmts[x].value == Some(v),
            None => forall|x: int| #[trigger] first_id(stmts, w, x) ==> stmts[x].value is None,
        },
    decreases stmts.len() - j,
{
    if j < stmts.len() {
        if is_id_of(stmts, w, j) {
            assert(first_id(stmts, w, j));
            assert forall|x: int| #[trigger] first_id(stmts, w, x) implies x == j by {
                if x < j {
                    assert(!is_id_of(stmts, w, x));
                } else if j < x {
                    assert(!is_id_of(stmts, w, j));
                }
            }
        } else {
            lemma_find_id(stmts, w, j + 1);
        }
    }
}

/// The entry of a widget is named by the id in its body, or else by its own name; it says what the
/// widget derives from or is; it covers the widget and all that lies below it, and nothing else; and
/// a widget with an id is a field.
pub proof fn law_entry_of_widget(s: Seq<u8>, w: int, sym: DocumentSymbol)
    requires
        valid_utf8(s),
        s.len() <= usize::MAX,
        0 <= w < syntax::stmts(s).len(),
        folding_laws::is_widget(syntax::stmts(s)[w]),
        symbols::is_entry(s, syntax::stmts(s), w, sym),
    ensures
        ({
            let stmts = syntax::stmts(s);
            &&& sym.span.start == stmts[w].span.start
            &&& forall|j: int|
                0 <= j < stmts.len() && #[trigger] tree_laws::within(stmts, j, w) ==> stmts[j].end
                    <= sym.span.end
            &&& exists|j: int|
                0 <= j < stmts.len() && #[trigger] tree_laws::within(stmts, j, w) && stmts[j].end
                    == sym.span.end
            &&& sym.name@ == text::chars_of(
                s.subrange(sym.selection_span.start as int, sym.selection_span.end as int),
            )
            &&& (exists|j: int| #[trigger]
                first_id(stmts, w, j) && stmts[j].value == Some(sym.selection_span))
                || sym.selection_span == stmts[w].key
            &&& sym.kind == SymbolKind::Field <==> exists|j: int| #[trigger]
                first_id(stmts, w, j) && stmts[j].value is Some
            &&& sym.kind == SymbolKind::Field ==> exists|j: int| #[trigger]
                first_id(stmts, w, j) && stmts[j].value == Some(sym.selection_span)
            &&& sym.detail matches Some(d) && d@ == text::chars_of(
                if stmts[w].kind == StmtKind::StyleHeader {
                    syntax::cut(s, stmts[w].value->0)
                } else {
                    syntax::cut(s, stmts[w].key)
                },
            )
        }),
{
    let stmts = syntax::stmts(s);
    let n = stmts.len() as int;
    let last = nodes::last_below(stmts, w, n);
    nodes::lemma_last_below(stmts, w, n);
    tree_laws::lemma_descends(stmts, last, w);
    assert(tree_laws::within(stmts, last, w));
    syntax::lemma_stmts(s);
    assert forall|j: int| 0 <= j < n && #[trigger] tree_laws::within(stmts, j, w) implies stmts[j].end
        <= sym.span.end by {
        tree_laws::lemma_descends(stmts, j, w);
        if j != w {
            folding_laws::lemma_below_after(stmts, j, w);
            assert(nodes::descends(stmts, j, w));
        }
        if j < last {
            syntax::lemma_stmts_ordered(s, j, last);
            assert(syntax::stmt_ok(s, stmts[last]));
        }
    }
    law_id_of_widget(stmts, w);
    assert forall|i: int, j: int| first_id(stmts, w, i) && first_id(stmts, w, j) implies i == j by {
        if i < j {
            assert(!is_id_of(stmts, w, i));
        } else if j < i {
            assert(!is_id_of(stmts, w, j));
        }
    }
}

} // verus!
