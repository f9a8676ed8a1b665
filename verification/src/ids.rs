//! The ids that can be used in a document: those that it gives itself, and those that its widgets have
//! from their styles.
//!
//! A widget brings along every id that a body of its style gives, or a body of a style further down
//! the chain that it derives from. Where several documents declare such a style, each of them counts:
//! which one the engine takes depends on the order in which it loads them. An id that the document
//! gives itself hides those of the same name.
//!
//! The engine creates no widgets below a line with a `:`, so nothing counts that lies there.

use crate::doc_index;
use crate::doc_index::DocId;
use crate::lang_api;
use crate::lang_api::ByteSpan;
use crate::lua_widgets::LuaWidgetIndex;
use crate::nodes;
use crate::nodes::span_text;
use crate::style_index;
use crate::style_index::{is_widget, StyleBodyId, StyleDef, StyleIndex};
use crate::syntax;
use crate::syntax::{Stmt, StmtKind, SyntaxTree};
use crate::text;
use crate::text::same_str;
use crate::widget_resolve;
use crate::widget_resolve::{contains_text, resolve_ancestry, widget_type};
use vstd::prelude::*;
use vstd::string::*;

verus! {

/// Where an id comes from.
#[derive(Debug, Clone, PartialEq, Eq)]
pub enum IdOrigin {
    /// The document gives it.
    Document,
    /// The body of a style gives it.
    InheritedStyle {
        /// The name of the style.
        style: String,
        /// The document that declares the style.
        doc: DocId,
    },
}

/// An id that can be used in a document.
#[derive(Debug, Clone, PartialEq, Eq)]
pub struct VisibleId {
    /// The id.
    pub id: String,
    /// Where it is given, in the document that gives it.
    pub span: ByteSpan,
    /// Where it comes from.
    pub origin: IdOrigin,
}

/// The model of a [`VisibleId`].
pub struct VisibleView {
    /// The id.
    pub id: Seq<char>,
    /// Where it is given.
    pub span: ByteSpan,
    /// The style and the document that it comes from, where it is not the document itself.
    pub origin: Option<(Seq<char>, Seq<char>)>,
}

impl View for VisibleId {
    type V = VisibleView;

    open spec fn view(&self) -> VisibleView {
        VisibleView {
            id: self.id@,
            span: self.span,
            origin: match self.origin {
                IdOrigin::Document => None,
                IdOrigin::InheritedStyle { style, doc } => Some((style@, doc@)),
            },
        }
    }
}

/// Whether everything above statement `k` is a widget.
pub open spec fn created(stmts: Seq<Stmt>, k: int) -> bool
    decreases k,
{
    match stmts[k].parent {
        Some(p) => p < k && style_index::widget(stmts[p as int]) && created(stmts, p as int),
        None => true,
    }
}

/// The ids that the first `k` statements give.
pub open spec fn local_upto(s: Seq<u8>, stmts: Seq<Stmt>, k: int) -> Seq<VisibleView>
    decreases k,
{
    if k <= 0 {
        Seq::empty()
    } else {
        let before = local_upto(s, stmts, k - 1);
        let st = stmts[k - 1];
        if st.kind == StmtKind::IdProperty && st.value is Some && created(stmts, k - 1) {
            before.push(
                VisibleView {
                    id: text::chars_of(syntax::cut(s, st.value->0)),
                    span: st.value->0,
                    origin: None,
                },
            )
        } else {
            before
        }
    }
}

/// The types of the widgets among the first `k` statements, each once.
pub open spec fn types_upto(s: Seq<u8>, stmts: Seq<Stmt>, k: int) -> Seq<Seq<char>>
    decreases k,
{
    if k <= 0 {
        Seq::empty()
    } else {
        let before = types_upto(s, stmts, k - 1);
        let name = text::chars_of(widget_resolve::type_of(s, stmts[k - 1]));
        if style_index::widget(stmts[k - 1]) && created(stmts, k - 1) && !before.contains(name) {
            before.push(name)
        } else {
            before
        }
    }
}

/// The first `k` of the ids that the body of a style gives.
pub open spec fn body_ids_upto(
    doc: Seq<char>,
    style: Seq<char>,
    ids: Seq<StyleBodyId>,
    k: int,
) -> Seq<VisibleView>
    decreases k,
{
    if k <= 0 {
        Seq::empty()
    } else {
        body_ids_upto(doc, style, ids, k - 1).push(
            VisibleView { id: ids[k - 1].id@, span: ids[k - 1].span, origin: Some((style, doc)) },
        )
    }
}

/// The ids that the first `k` declarations of a style give.
pub open spec fn hits_upto(hits: Seq<(Seq<char>, StyleDef)>, style: Seq<char>, k: int) -> Seq<
    VisibleView,
>
    decreases k,
{
    if k <= 0 {
        Seq::empty()
    } else {
        let ids = hits[k - 1].1.body_ids@;
        hits_upto(hits, style, k - 1) + body_ids_upto(
            hits[k - 1].0,
            style,
            ids,
            ids.len() as int,
        )
    }
}

/// The ids that the first `k` styles of a chain give.
pub open spec fn chain_upto(styles: style_index::StyleDocs, chain: Seq<Seq<char>>, k: int) -> Seq<
    VisibleView,
>
    decreases k,
{
    if k <= 0 {
        Seq::empty()
    } else {
        let hits = style_index::named(doc_index::pairs(styles), chain[k - 1]);
        chain_upto(styles, chain, k - 1) + hits_upto(hits, chain[k - 1], hits.len() as int)
    }
}

/// The chain of styles that a type derives from.
pub open spec fn chain_of(styles: style_index::StyleDocs, name: Seq<char>) -> Seq<Seq<char>> {
    widget_resolve::ancestry(styles, Seq::empty(), name)
}

/// The ids that the first `k` types bring along.
pub open spec fn inherited_upto(
    styles: style_index::StyleDocs,
    types: Seq<Seq<char>>,
    k: int,
) -> Seq<VisibleView>
    decreases k,
{
    if k <= 0 {
        Seq::empty()
    } else {
        let chain = chain_of(styles, types[k - 1]);
        inherited_upto(styles, types, k - 1) + chain_upto(styles, chain, chain.len() as int)
    }
}

/// Whether some id of the list has the name `id`.
pub open spec fn has_id(ids: Seq<VisibleView>, id: Seq<char>) -> bool {
    exists|i: int| 0 <= i < ids.len() && (#[trigger] ids[i]).id == id
}

/// Whether two ids are given at the same place.
pub open spec fn same_site(a: VisibleView, b: VisibleView) -> bool {
    a.id == b.id && a.span == b.span && match (a.origin, b.origin) {
        (Some(x), Some(y)) => x.1 == y.1,
        (None, None) => true,
        _ => false,
    }
}

/// Whether some id of the list is given where `x` is.
pub open spec fn has_site(ids: Seq<VisibleView>, x: VisibleView) -> bool {
    exists|i: int| 0 <= i < ids.len() && same_site(#[trigger] ids[i], x)
}

/// Those of the first `k` ids that no local id hides, each place once.
pub open spec fn kept_upto(local: Seq<VisibleView>, all: Seq<VisibleView>, k: int) -> Seq<VisibleView>
    decreases k,
{
    if k <= 0 {
        Seq::empty()
    } else {
        let before = kept_upto(local, all, k - 1);
        if has_id(local, all[k - 1].id) || has_site(before, all[k - 1]) {
            before
        } else {
            before.push(all[k - 1])
        }
    }
}

/// The ids that can be used in a document.
pub open spec fn visible(s: Seq<u8>, styles: style_index::StyleDocs) -> Seq<VisibleView> {
    let stmts = syntax::stmts(s);
    let local = local_upto(s, stmts, stmts.len() as int);
    let types = types_upto(s, stmts, stmts.len() as int);
    let all = inherited_upto(styles, types, types.len() as int);
    local + kept_upto(local, all, all.len() as int)
}

proof fn lemma_kept(local: Seq<VisibleView>, all: Seq<VisibleView>, k: int)
    requires
        0 <= k <= all.len(),
    ensures
        forall|i: int|
            0 <= i < kept_upto(local, all, k).len() ==> !has_id(
                local,
                (#[trigger] kept_upto(local, all, k)[i]).id,
            ),
        forall|i: int, j: int|
            #![trigger kept_upto(local, all, k)[i], kept_upto(local, all, k)[j]]
            0 <= i < j < kept_upto(local, all, k).len() ==> !same_site(
                kept_upto(local, all, k)[i],
                kept_upto(local, all, k)[j],
            ),
        forall|i: int|
            0 <= i < k ==> has_id(local, (#[trigger] all[i]).id) || has_site(
                kept_upto(local, all, k),
                all[i],
            ),
    decreases k,
{
    if k > 0 {
        lemma_kept(local, all, k - 1);
        let before = kept_upto(local, all, k - 1);
        let now = kept_upto(local, all, k);
        let x = all[k - 1];
        if has_id(local, x.id) || has_site(before, x) {
            assert(now == before);
        } else {
            assert(now == before.push(x));
            assert forall|i: int| 0 <= i < k implies has_id(local, (#[trigger] all[i]).id)
                || has_site(now, all[i]) by {
                if i < k - 1 {
                    if has_site(before, all[i]) {
                        let j = choose|j: int|
                            0 <= j < before.len() && same_site(#[trigger] before[j], all[i]);
                        assert(same_site(now[j], all[i]));
                    }
                } else {
                    assert(same_site(now[now.len() - 1], all[i]));
                }
            }
            assert forall|i: int, j: int| #![trigger now[i], now[j]] 0 <= i < j
                < now.len() implies !same_site(now[i], now[j]) by {
                if j == now.len() - 1 {
                    assert(!same_site(before[i], x));
                } else {
                    assert(!same_site(before[i], before[j]));
                }
            }
            assert forall|i: int| 0 <= i < now.len() implies !has_id(
                local,
                (#[trigger] now[i]).id,
            ) by {
                if i < before.len() {
                    assert(now[i] == before[i]);
                }
            }
        }
    }
}

/// An id that the document gives hides those of the same name that styles give, no place counts twice,
/// and every other id that a style gives can be used.
pub proof fn law_visible_ids(s: Seq<u8>, styles: style_index::StyleDocs)
    ensures
        ({
            let stmts = syntax::stmts(s);
            let local = local_upto(s, stmts, stmts.len() as int);
            let types = types_upto(s, stmts, stmts.len() as int);
            let all = inherited_upto(styles, types, types.len() as int);
            let kept = kept_upto(local, all, all.len() as int);
            &&& visible(s, styles) == local + kept
            &&& forall|i: int| 0 <= i < kept.len() ==> !has_id(local, (#[trigger] kept[i]).id)
            &&& forall|i: int, j: int|
                #![trigger kept[i], kept[j]]
                0 <= i < j < kept.len() ==> !same_site(kept[i], kept[j])
            &&& forall|i: int|
                0 <= i < all.len() ==> has_id(local, (#[trigger] all[i]).id) || has_site(
                    kept,
                    all[i],
                )
        }),
{
    let stmts = syntax::stmts(s);
    let local = local_upto(s, stmts, stmts.len() as int);
    let types = types_upto(s, stmts, stmts.len() as int);
    let all = inherited_upto(styles, types, types.len() as int);
    lemma_kept(local, all, all.len() as int);
}

/// Whether everything above statement `k` is a widget.
fn is_created(stmts: &[Stmt], k: usize) -> (r: bool)
    requires
        k < stmts@.len(),
    ensures
        r == created(stmts@, k as int),
{
    let mut at: usize = k;
    loop
        invariant
            at < stmts@.len(),
            created(stmts@, at as int) == created(stmts@, k as int),
        decreases at,
    {
        match stmts[at].parent {
            Some(p) => {
                if p >= at || !is_widget(&stmts[p]) {
                    return false;
                }
                at = p;
            },
            None => {
                return true;
            },
        }
    }
}

/// Adds an id.
fn add_id(out: &mut Vec<VisibleId>, x: VisibleId)
    ensures
        lang_api::views(final(out)@) == lang_api::views(old(out)@).push(x@),
{
    proof {
        lang_api::lemma_views_push(out@, x);
    }
    out.push(x);
}

/// The ids that a document gives.
fn collect_local_ids(source: &str, stmts: &[Stmt]) -> (out: Vec<VisibleId>)
    requires
        stmts@ == syntax::stmts(source.spec_bytes()),
    ensures
        lang_api::views(out@) == local_upto(source.spec_bytes(), stmts@, stmts@.len() as int),
{
    let n: usize = source.as_bytes().len();
    proof {
        nodes::lemma_document(source);
    }
    let mut out: Vec<VisibleId> = Vec::new();
    let mut k: usize = 0;
    assert(lang_api::views(out@) =~= Seq::empty());
    while k < stmts.len()
        invariant
            stmts@ == syntax::stmts(source.spec_bytes()),
            forall|j: int|
                0 <= j < stmts@.len() ==> syntax::stmt_ok(
                    source.spec_bytes(),
                    #[trigger] stmts@[j],
                ),
            k <= stmts@.len(),
            lang_api::views(out@) == local_upto(source.spec_bytes(), stmts@, k as int),
        decreases stmts@.len() - k,
    {
        let st = &stmts[k];
        assert(syntax::stmt_ok(source.spec_bytes(), stmts@[k as int]));
        if st.kind == StmtKind::IdProperty && is_created(stmts, k) {
            if let Some(v) = st.value {
                add_id(
                    &mut out,
                    VisibleId {
                        id: span_text(source, v).to_owned(),
                        span: v,
                        origin: IdOrigin::Document,
                    },
                );
            }
        }
        k += 1;
    }
    out
}

/// The types of the widgets of a document, each once.
fn collect_types(source: &str, stmts: &[Stmt]) -> (out: Vec<String>)
    requires
        stmts@ == syntax::stmts(source.spec_bytes()),
    ensures
        widget_resolve::texts(out@) == types_upto(
            source.spec_bytes(),
            stmts@,
            stmts@.len() as int,
        ),
{
    let mut out: Vec<String> = Vec::new();
    let mut k: usize = 0;
    assert(widget_resolve::texts(out@) =~= Seq::empty());
    while k < stmts.len()
        invariant
            stmts@ == syntax::stmts(source.spec_bytes()),
            k <= stmts@.len(),
            widget_resolve::texts(out@) == types_upto(source.spec_bytes(), stmts@, k as int),
        decreases stmts@.len() - k,
    {
        if is_widget(&stmts[k]) && is_created(stmts, k) {
            let name = widget_type(source, stmts, k);
            if !contains_text(out.as_slice(), name.as_str()) {
                assert(widget_resolve::texts(out@.push(name)) =~= widget_resolve::texts(out@).push(
                    name@,
                ));
                out.push(name);
            }
        }
        k += 1;
    }
    out
}

/// Adds the ids that the body of a style gives.
fn add_body_ids(doc: &DocId, style: &str, ids: &[StyleBodyId], out: &mut Vec<VisibleId>)
    ensures
        lang_api::views(final(out)@) == lang_api::views(old(out)@) + body_ids_upto(
            doc@,
            style@,
            ids@,
            ids@.len() as int,
        ),
{
    let ghost before = lang_api::views(out@);
    let mut k: usize = 0;
    assert(before + body_ids_upto(doc@, style@, ids@, 0) =~= before);
    while k < ids.len()
        invariant
            k <= ids@.len(),
            lang_api::views(out@) == before + body_ids_upto(doc@, style@, ids@, k as int),
        decreases ids@.len() - k,
    {
        add_id(
            out,
            VisibleId {
                id: ids[k].id.clone(),
                span: ids[k].span,
                origin: IdOrigin::InheritedStyle { style: style.to_owned(), doc: doc.duplicate() },
            },
        );
        k += 1;
        assert(lang_api::views(out@) =~= before + body_ids_upto(doc@, style@, ids@, k as int));
    }
}

/// Adds the ids that the declarations of a style give.
fn add_style_ids(styles: &StyleIndex, style: &str, out: &mut Vec<VisibleId>)
    ensures
        ({
            let hits = style_index::named(doc_index::pairs(styles@), style@);
            lang_api::views(final(out)@) == lang_api::views(old(out)@) + hits_upto(
                hits,
                style@,
                hits.len() as int,
            )
        }),
{
    let hits = styles.lookup(style);
    let ghost model = style_index::named(doc_index::pairs(styles@), style@);
    let ghost before = lang_api::views(out@);
    let mut k: usize = 0;
    assert(before + hits_upto(model, style@, 0) =~= before);
    while k < hits.len()
        invariant
            style_index::lists(hits@, model),
            k <= hits@.len(),
            lang_api::views(out@) == before + hits_upto(model, style@, k as int),
        decreases hits@.len() - k,
    {
        assert(hits@[k as int].0@ == model[k as int].0 && *hits@[k as int].1 == model[k as int].1);
        let ghost had = hits_upto(model, style@, k as int);
        let (doc, def) = hits[k];
        add_body_ids(doc, style, def.body_ids.as_slice(), out);
        proof {
            let ids = model[k as int].1.body_ids@;
            let x = body_ids_upto(model[k as int].0, style@, ids, ids.len() as int);
            assert(before + had + x =~= before + (had + x));
        }
        k += 1;
    }
}

/// Adds the ids that the styles of a chain give.
fn add_chain_ids(styles: &StyleIndex, chain: &[String], out: &mut Vec<VisibleId>)
    ensures
        lang_api::views(final(out)@) == lang_api::views(old(out)@) + chain_upto(
            styles@,
            widget_resolve::texts(chain@),
            chain@.len() as int,
        ),
{
    let ghost all = widget_resolve::texts(chain@);
    let ghost before = lang_api::views(out@);
    let mut k: usize = 0;
    assert(before + chain_upto(styles@, all, 0) =~= before);
    while k < chain.len()
        invariant
            all == widget_resolve::texts(chain@),
            k <= chain@.len(),
            lang_api::views(out@) == before + chain_upto(styles@, all, k as int),
        decreases chain@.len() - k,
    {
        assert(all[k as int] == chain@[k as int]@);
        let ghost had = chain_upto(styles@, all, k as int);
        add_style_ids(styles, chain[k].as_str(), out);
        proof {
            let hits = style_index::named(doc_index::pairs(styles@), all[k as int]);
            let x = hits_upto(hits, all[k as int], hits.len() as int);
            assert(before + had + x =~= before + (had + x));
        }
        k += 1;
    }
}

/// The ids that the given types bring along.
fn collect_instantiated_ids(styles: &StyleIndex, types: &[String]) -> (out: Vec<VisibleId>)
    ensures
        lang_api::views(out@) == inherited_upto(
            styles@,
            widget_resolve::texts(types@),
            types@.len() as int,
        ),
{
    let lua = LuaWidgetIndex::new();
    let ghost all = widget_resolve::texts(types@);
    let mut out: Vec<VisibleId> = Vec::new();
    let mut k: usize = 0;
    assert(lang_api::views(out@) =~= Seq::empty());
    while k < types.len()
        invariant
            all == widget_resolve::texts(types@),
            lua@ == Seq::<(Seq<char>, Seq<crate::lua_widgets::LuaWidgetDef>)>::empty(),
            k <= types@.len(),
            lang_api::views(out@) == inherited_upto(styles@, all, k as int),
        decreases types@.len() - k,
    {
        assert(all[k as int] == types@[k as int]@);
        let ancestry = resolve_ancestry(types[k].as_str(), styles, &lua);
        add_chain_ids(styles, ancestry.chain.as_slice(), &mut out);
        k += 1;
    }
    out
}

/// Whether some id of the list has the name `id`.
fn holds_id(ids: &[VisibleId], id: &str) -> (r: bool)
    ensures
        r == has_id(lang_api::views(ids@), id@),
{
    let ghost model = lang_api::views(ids@);
    let mut i: usize = 0;
    while i < ids.len()
        invariant
            model == lang_api::views(ids@),
            i <= ids@.len(),
            forall|k: int| 0 <= k < i ==> (#[trigger] model[k]).id != id@,
        decreases ids@.len() - i,
    {
        if same_str(ids[i].id.as_str(), id) {
            assert(model[i as int].id == id@);
            return true;
        }
        i += 1;
    }
    false
}

/// Whether two ids are given at the same place.
fn is_same_site(a: &VisibleId, b: &VisibleId) -> (r: bool)
    ensures
        r == same_site(a@, b@),
{
    if !same_str(a.id.as_str(), b.id.as_str()) || a.span != b.span {
        return false;
    }
    match (&a.origin, &b.origin) {
        (
            IdOrigin::InheritedStyle { style: _, doc: x },
            IdOrigin::InheritedStyle { style: _, doc: y },
        ) => same_str(x.as_str(), y.as_str()),
        (IdOrigin::Document, IdOrigin::Document) => true,
        _ => false,
    }
}

/// Whether some id of the list is given where `x` is.
fn holds_site(ids: &[VisibleId], x: &VisibleId) -> (r: bool)
    ensures
        r == has_site(lang_api::views(ids@), x@),
{
    let ghost model = lang_api::views(ids@);
    let mut i: usize = 0;
    while i < ids.len()
        invariant
            model == lang_api::views(ids@),
            i <= ids@.len(),
            forall|k: int| 0 <= k < i ==> !same_site(#[trigger] model[k], x@),
        decreases ids@.len() - i,
    {
        if is_same_site(&ids[i], x) {
            assert(same_site(model[i as int], x@));
            return true;
        }
        i += 1;
    }
    false
}

/// The ids that can be used in a document.
pub fn visible_ids(source: &str, styles: &StyleIndex) -> (out: Vec<VisibleId>)
    ensures
        lang_api::views(out@) == visible(source.spec_bytes(), styles@),
{
    let tree = match SyntaxTree::parse(source) {
        Some(tree) => tree,
        None => {
            return Vec::new();
        },
    };
    let stmts = tree.statements();
    let mut local = collect_local_ids(source, stmts);
    let types = collect_types(source, stmts);
    let inherited = collect_instantiated_ids(styles, types.as_slice());
    let ghost whole = inherited@;
    let ghost model = lang_api::views(local@);
    let ghost all = lang_api::views(inherited@);
    let mut kept: Vec<VisibleId> = Vec::new();
    assert(lang_api::views(kept@) =~= Seq::empty());
    for x in it: inherited
        invariant
            it.seq() == whole,
            all == lang_api::views(whole),
            model == lang_api::views(local@),
            lang_api::views(kept@) == kept_upto(model, all, it.index() as int),
    {
        assert(all[it.index() as int] == x@);
        if !holds_id(local.as_slice(), x.id.as_str()) && !holds_site(kept.as_slice(), &x) {
            add_id(&mut kept, x);
        }
    }
    let ghost a = local@;
    let ghost b = kept@;
    local.append(&mut kept);
    assert(lang_api::views(local@) =~= lang_api::views(a) + lang_api::views(b));
    local
}

} // verus!
