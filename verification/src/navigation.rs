//! What the cursor points at: the base or the name in a style header, an id, the target of an anchor.
//!
//! A name is looked up in the workspace by the host. The target of an anchor is looked up here: it is
//! one of the siblings of the widget that owns the anchor (see [`crate::anchors`]).
//!
//! Spans do not hold their end, so a cursor right behind a token does not point at it.

use crate::ascii;
use crate::anchors;
use crate::anchors::{anchor_owner_widget, direct_sibling_widgets, widget_id_span};
use crate::indent::split_lines;
use crate::lang_api::ByteSpan;
use crate::nodes;
use crate::nodes::span_text;
use crate::schema;
use crate::schema::is_magic_anchor_target;
use crate::style_index;
use crate::syntax;
use crate::syntax::{Stmt, StmtKind, SyntaxTree};
use crate::text;
use crate::text::{find_byte_at, same_str};
use crate::widget_resolve;
use crate::widget_resolve::widget_type;
use vstd::prelude::*;
use vstd::string::*;
use vstd::utf8::*;

verus! {

/// The base in a style header.
#[derive(Debug, Clone, PartialEq, Eq)]
pub struct BaseRef {
    /// The name of the base.
    pub name: String,
    /// Where it stands.
    pub span: ByteSpan,
}

/// A style header at the top level, or a widget at the top level.
#[derive(Debug, Clone, PartialEq, Eq)]
pub struct StyleHeaderRef {
    /// The name of the style, or the tag of the widget.
    pub name: String,
    /// The base of the style.
    pub base: Option<String>,
    /// Where the name stands.
    pub name_span: ByteSpan,
    /// Where the base stands.
    pub base_span: Option<ByteSpan>,
}

/// What an id is used for.
#[derive(Debug, Clone, Copy, PartialEq, Eq, Structural)]
pub enum IdRefKind {
    /// It is given to a widget.
    Declaration,
    /// It is the target of an anchor.
    AnchorTarget,
}

/// An id.
#[derive(Debug, Clone, PartialEq, Eq)]
pub struct IdRef {
    /// The id.
    pub id: String,
    /// Where it stands.
    pub span: ByteSpan,
    /// What it is used for.
    pub kind: IdRefKind,
}

/// What the target of an anchor refers to.
#[derive(Debug, Clone, PartialEq, Eq)]
pub enum AnchorTargetResolution {
    /// A sibling of the widget that owns the anchor. Where several have the id, it is the last one.
    Sibling {
        /// The id.
        id: String,
        /// The type of the sibling.
        kind: String,
        /// Where the sibling is given its id.
        id_decl_span: ByteSpan,
        /// Where the target stands.
        target_span: ByteSpan,
    },
    /// The parent, or the next or previous sibling.
    Magic {
        /// The word for it.
        keyword: String,
        /// Where the target stands.
        target_span: ByteSpan,
    },
    /// Nothing that is in scope.
    Unresolved {
        /// The id.
        id: String,
        /// Where the target stands.
        target_span: ByteSpan,
    },
}

/// The text of a span.
pub open spec fn token(s: Seq<u8>, span: ByteSpan) -> Seq<char> {
    text::chars_of(syntax::cut(s, span))
}

/// Whether an optional span holds `offset`.
pub open spec fn opt_holds(span: Option<ByteSpan>, offset: int) -> bool {
    span matches Some(v) && v.holds(offset)
}

/// Whether `offset` points at the base of statement `k`, which declares a style.
pub open spec fn base_holds(stmts: Seq<Stmt>, k: int, offset: int) -> bool {
    style_index::declares_style(stmts, k) && opt_holds(stmts[k].value, offset)
}

/// The first statement at or after statement `k` at whose base `offset` points.
pub open spec fn base_at(stmts: Seq<Stmt>, offset: int, k: int) -> Option<int>
    decreases stmts.len() - k,
{
    if !(0 <= k < stmts.len()) {
        None
    } else if base_holds(stmts, k, offset) {
        Some(k)
    } else {
        base_at(stmts, offset, k + 1)
    }
}

/// Whether `offset` points at the name or the base of statement `k`, which is a widget or a style at
/// the top level.
pub open spec fn header_holds(stmts: Seq<Stmt>, k: int, offset: int) -> bool {
    stmts[k].parent is None && style_index::widget(stmts[k]) && (stmts[k].key.holds(offset) || (
    stmts[k].kind == StmtKind::StyleHeader && opt_holds(stmts[k].value, offset)))
}

/// The first statement at or after statement `k` at whose name or base `offset` points.
pub open spec fn header_at(stmts: Seq<Stmt>, offset: int, k: int) -> Option<int>
    decreases stmts.len() - k,
{
    if !(0 <= k < stmts.len()) {
        None
    } else if header_holds(stmts, k, offset) {
        Some(k)
    } else {
        header_at(stmts, offset, k + 1)
    }
}

/// Whether `r` is the header of statement `k`.
pub open spec fn is_header(s: Seq<u8>, st: Stmt, r: StyleHeaderRef) -> bool {
    &&& r.name@ == token(s, st.key)
    &&& r.name_span == st.key
    &&& if st.kind == StmtKind::StyleHeader {
        r.base_span == st.value && style_index::opt_chars(r.base) == Some(token(s, st.value->0))
    } else {
        r.base_span is None && r.base is None
    }
}

/// Where the id in the target of an anchor stands: the part in front of the first dot.
pub open spec fn target_id(s: Seq<u8>, st: Stmt) -> Option<ByteSpan> {
    match st.value {
        Some(v) => match text::find_byte(syntax::cut(s, v), ascii::DOT, 0) {
            Some(dot) => Some(syntax::span(v.start as int, v.start + dot)),
            None => None,
        },
        None => None,
    }
}

/// Where the id or keyword in the target of an anchor stands: the part in front of the first dot, or
/// all of it.
pub open spec fn target_word(s: Seq<u8>, st: Stmt) -> Option<ByteSpan> {
    match target_id(s, st) {
        Some(span) => Some(span),
        None => st.value,
    }
}

/// The id that statement `st` holds, and what for.
pub open spec fn id_in(s: Seq<u8>, st: Stmt) -> Option<(ByteSpan, IdRefKind)> {
    if st.kind == StmtKind::IdProperty {
        match st.value {
            Some(v) => Some((v, IdRefKind::Declaration)),
            None => None,
        }
    } else if st.kind == StmtKind::AnchorProperty {
        match target_id(s, st) {
            Some(span) => if schema::member(
                schema::MAGIC_ANCHOR_TARGETS@,
                syntax::cut(s, span),
            ) {
                None
            } else {
                Some((span, IdRefKind::AnchorTarget))
            },
            None => None,
        }
    } else {
        None
    }
}

/// The first id at or after statement `k` that `offset` points at.
pub open spec fn id_under(s: Seq<u8>, stmts: Seq<Stmt>, offset: int, k: int) -> Option<
    (ByteSpan, IdRefKind),
>
    decreases stmts.len() - k,
{
    if !(0 <= k < stmts.len()) {
        None
    } else {
        match id_in(s, stmts[k]) {
            Some(p) => if p.0.holds(offset) {
                Some(p)
            } else {
                id_under(s, stmts, offset, k + 1)
            },
            None => id_under(s, stmts, offset, k + 1),
        }
    }
}

proof fn lemma_header_at(s: Seq<u8>, offset: int, k: int, j: int)
    requires
        valid_utf8(s),
        s.len() <= usize::MAX,
        0 <= k <= j < syntax::stmts(s).len(),
        header_holds(syntax::stmts(s), j, offset),
    ensures
        header_at(syntax::stmts(s), offset, k) == Some(j),
    decreases j - k,
{
    if k < j {
        syntax::lemma_stmts(s);
        assert(syntax::stmt_ok(s, syntax::stmts(s)[k]));
        assert(syntax::stmt_ok(s, syntax::stmts(s)[j]));
        syntax::lemma_stmts_ordered(s, k, j);
        lemma_header_at(s, offset, k + 1, j);
    }
}

proof fn lemma_base_at(stmts: Seq<Stmt>, offset: int, k: int)
    requires
        0 <= k,
    ensures
        base_at(stmts, offset, k) matches Some(j) ==> k <= j < stmts.len() && base_holds(
            stmts,
            j,
            offset,
        ),
    decreases stmts.len() - k,
{
    if k < stmts.len() {
        lemma_base_at(stmts, offset, k + 1);
    }
}

/// A base under an offset belongs to the style header under that offset.
pub proof fn law_base_in_header(s: Seq<u8>, offset: int)
    requires
        valid_utf8(s),
        s.len() <= usize::MAX,
    ensures
        base_at(syntax::stmts(s), offset, 0) matches Some(k) ==> header_at(
            syntax::stmts(s),
            offset,
            0,
        ) == Some(k),
{
    lemma_base_at(syntax::stmts(s), offset, 0);
    if let Some(k) = base_at(syntax::stmts(s), offset, 0) {
        lemma_header_at(s, offset, 0, k);
    }
}

/// The id that a statement holds lies in the statement.
pub proof fn lemma_id_in(s: Seq<u8>, k: int)
    requires
        valid_utf8(s),
        s.len() <= usize::MAX,
        0 <= k < syntax::stmts(s).len(),
    ensures
        id_in(s, syntax::stmts(s)[k]) matches Some(p) ==> {
            &&& syntax::stmts(s)[k].span.start <= p.0.start <= p.0.end <= syntax::stmts(s)[k].end
        },
{
    let st = syntax::stmts(s)[k];
    syntax::lemma_stmts(s);
    assert(syntax::stmt_ok(s, st));
    if let Some(v) = st.value {
        text::lemma_find_byte(syntax::cut(s, v), ascii::DOT, 0);
    }
}

/// The id under an offset is the one that holds the offset.
pub proof fn lemma_id_under(s: Seq<u8>, offset: int, k: int, j: int)
    requires
        valid_utf8(s),
        s.len() <= usize::MAX,
        0 <= k <= j < syntax::stmts(s).len(),
        id_in(s, syntax::stmts(s)[j]) matches Some(p) && p.0.holds(offset),
    ensures
        id_under(s, syntax::stmts(s), offset, k) == id_in(s, syntax::stmts(s)[j]),
    decreases j - k,
{
    if k < j {
        lemma_id_in(s, k);
        lemma_id_in(s, j);
        syntax::lemma_stmts_ordered(s, k, j);
        lemma_id_under(s, offset, k + 1, j);
    }
}

/// The id under an offset is held by a statement.
pub proof fn lemma_id_found(s: Seq<u8>, stmts: Seq<Stmt>, offset: int, k: int) -> (j: int)
    requires
        0 <= k,
    ensures
        id_under(s, stmts, offset, k) matches Some(p) ==> k <= j < stmts.len() && id_in(s, stmts[j])
            == Some(p) && p.0.holds(offset),
    decreases stmts.len() - k,
{
    if k < stmts.len() {
        if id_in(s, stmts[k]) matches Some(p) && p.0.holds(offset) {
            k
        } else {
            lemma_id_found(s, stmts, offset, k + 1)
        }
    } else {
        k
    }
}

/// The first target of an anchor at or after statement `k` that `offset` points at.
pub open spec fn target_under(s: Seq<u8>, stmts: Seq<Stmt>, offset: int, k: int) -> Option<ByteSpan>
    decreases stmts.len() - k,
{
    if !(0 <= k < stmts.len()) {
        None
    } else if stmts[k].kind == StmtKind::AnchorProperty && opt_holds(
        target_word(s, stmts[k]),
        offset,
    ) {
        target_word(s, stmts[k])
    } else {
        target_under(s, stmts, offset, k + 1)
    }
}

/// The last of the first `k` widgets that has the id `id`.
pub open spec fn last_with_id(
    s: Seq<u8>,
    stmts: Seq<Stmt>,
    widgets: Seq<int>,
    id: Seq<u8>,
    k: int,
) -> Option<int>
    decreases k,
{
    if k <= 0 {
        None
    } else {
        match anchors::id_of(stmts, widgets[k - 1]) {
            Some(v) => if syntax::cut(s, v) == id {
                Some(widgets[k - 1])
            } else {
                last_with_id(s, stmts, widgets, id, k - 1)
            },
            None => last_with_id(s, stmts, widgets, id, k - 1),
        }
    }
}

/// The widget that the id `id` refers to on the line of `offset`.
pub open spec fn target_widget(s: Seq<u8>, stmts: Seq<Stmt>, offset: int, id: Seq<u8>) -> Option<
    int,
> {
    match anchors::owner_at(s, stmts, offset) {
        Some(w) => {
            let widgets = anchors::siblings(stmts, w);
            last_with_id(s, stmts, widgets, id, widgets.len() as int)
        },
        None => None,
    }
}

/// Whether `r` is what the target at `span` refers to.
pub open spec fn is_resolution(
    s: Seq<u8>,
    stmts: Seq<Stmt>,
    offset: int,
    span: ByteSpan,
    r: AnchorTargetResolution,
) -> bool {
    let word = syntax::cut(s, span);
    if schema::member(schema::MAGIC_ANCHOR_TARGETS@, word) {
        r matches AnchorTargetResolution::Magic { keyword, target_span } && keyword@
            == text::chars_of(word) && target_span == span
    } else {
        match target_widget(s, stmts, offset, word) {
            Some(w) => r matches AnchorTargetResolution::Sibling {
                id,
                kind,
                id_decl_span,
                target_span,
            } && id@ == text::chars_of(word) && kind@ == text::chars_of(
                widget_resolve::type_of(s, stmts[w]),
            ) && Some(id_decl_span) == anchors::id_of(stmts, w) && target_span == span,
            None => r matches AnchorTargetResolution::Unresolved { id, target_span } && id@
                == text::chars_of(word) && target_span == span,
        }
    }
}

/// The base of a style that `offset` points at.
pub fn base_reference_at(source: &str, offset: usize) -> (r: Option<BaseRef>)
    ensures
        ({
            let s = source.spec_bytes();
            match base_at(syntax::stmts(s), offset as int, 0) {
                Some(k) => r matches Some(base) && Some(base.span) == syntax::stmts(s)[k].value
                    && base.name@ == token(s, base.span),
                None => r is None,
            }
        }),
{
    let tree = match SyntaxTree::parse(source) {
        Some(tree) => tree,
        None => {
            return None;
        },
    };
    let stmts = tree.statements();
    let n: usize = source.as_bytes().len();
    proof {
        nodes::lemma_document(source);
    }
    let mut k: usize = 0;
    while k < stmts.len()
        invariant
            stmts@ == syntax::stmts(source.spec_bytes()),
            forall|j: int|
                0 <= j < stmts@.len() ==> syntax::stmt_ok(
                    source.spec_bytes(),
                    #[trigger] stmts@[j],
                ),
            k <= stmts@.len(),
            base_at(stmts@, offset as int, k as int) == base_at(stmts@, offset as int, 0),
        decreases stmts@.len() - k,
    {
        let st = &stmts[k];
        assert(syntax::stmt_ok(source.spec_bytes(), stmts@[k as int]));
        if st.kind == StmtKind::StyleHeader && st.parent.is_none() {
            if let Some(v) = st.value {
                if v.contains(offset) {
                    return Some(BaseRef { name: span_text(source, v).to_owned(), span: v });
                }
            }
        }
        k += 1;
    }
    None
}

/// The header of statement `k`.
fn header_ref(source: &str, stmts: &[Stmt], k: usize) -> (r: StyleHeaderRef)
    requires
        stmts@ == syntax::stmts(source.spec_bytes()),
        k < stmts@.len(),
    ensures
        is_header(source.spec_bytes(), stmts@[k as int], r),
{
    let n: usize = source.as_bytes().len();
    proof {
        nodes::lemma_document(source);
        assert(syntax::stmt_ok(source.spec_bytes(), stmts@[k as int]));
        syntax::lemma_header_base(source.spec_bytes(), k as int);
    }
    let st = &stmts[k];
    let name = span_text(source, st.key).to_owned();
    let name_span = st.key;
    if st.kind == StmtKind::StyleHeader {
        if let Some(v) = st.value {
            return StyleHeaderRef {
                name,
                base: Some(span_text(source, v).to_owned()),
                name_span,
                base_span: Some(v),
            };
        }
    }
    StyleHeaderRef { name, base: None, name_span, base_span: None }
}

/// The header at the top level at whose name or base `offset` points.
pub fn style_header_at(source: &str, offset: usize) -> (r: Option<StyleHeaderRef>)
    ensures
        ({
            let s = source.spec_bytes();
            match header_at(syntax::stmts(s), offset as int, 0) {
                Some(k) => r matches Some(header) && is_header(s, syntax::stmts(s)[k], header),
                None => r is None,
            }
        }),
{
    let tree = match SyntaxTree::parse(source) {
        Some(tree) => tree,
        None => {
            return None;
        },
    };
    let stmts = tree.statements();
    let mut k: usize = 0;
    while k < stmts.len()
        invariant
            stmts@ == syntax::stmts(source.spec_bytes()),
            k <= stmts@.len(),
            header_at(stmts@, offset as int, k as int) == header_at(stmts@, offset as int, 0),
        decreases stmts@.len() - k,
    {
        let st = &stmts[k];
        if st.parent.is_none() && style_index::is_widget(st) {
            let in_base: bool = match st.value {
                Some(v) => st.kind == StmtKind::StyleHeader && v.contains(offset),
                None => false,
            };
            if st.key.contains(offset) || in_base {
                return Some(header_ref(source, stmts, k));
            }
        }
        k += 1;
    }
    None
}

/// Where the id in the target of an anchor stands.
fn anchor_id_span(source: &str, st: &Stmt) -> (r: Option<ByteSpan>)
    requires
        syntax::stmt_ok(source.spec_bytes(), *st),
    ensures
        r == target_id(source.spec_bytes(), *st),
        r matches Some(span) ==> syntax::in_text(source.spec_bytes(), span),
{
    let n: usize = source.as_bytes().len();
    match st.value {
        Some(v) => {
            let target = span_text(source, v);
            let b = target.as_bytes();
            match find_byte_at(b, ascii::DOT, 0) {
                Some(dot) => {
                    proof {
                        text::lemma_valid(source);
                        text::lemma_ascii_boundary(source.spec_bytes(), v.start + dot);
                    }
                    Some(ByteSpan::new(v.start, v.start + dot))
                },
                None => None,
            }
        },
        None => None,
    }
}

/// The id that a statement holds, and what for.
pub fn id_in_statement(source: &str, st: &Stmt) -> (r: Option<(ByteSpan, IdRefKind)>)
    requires
        syntax::stmt_ok(source.spec_bytes(), *st),
    ensures
        r == id_in(source.spec_bytes(), *st),
        r matches Some(p) ==> syntax::in_text(source.spec_bytes(), p.0),
{
    if st.kind == StmtKind::IdProperty {
        match st.value {
            Some(v) => Some((v, IdRefKind::Declaration)),
            None => None,
        }
    } else if st.kind == StmtKind::AnchorProperty {
        match anchor_id_span(source, st) {
            Some(span) => {
                if is_magic_anchor_target(span_text(source, span)) {
                    None
                } else {
                    Some((span, IdRefKind::AnchorTarget))
                }
            },
            None => None,
        }
    } else {
        None
    }
}

/// The id that `offset` points at.
pub fn id_at(source: &str, offset: usize) -> (r: Option<IdRef>)
    ensures
        ({
            let s = source.spec_bytes();
            match id_under(s, syntax::stmts(s), offset as int, 0) {
                Some(p) => r matches Some(id) && id.span == p.0 && id.kind == p.1 && id.id@
                    == token(s, p.0),
                None => r is None,
            }
        }),
{
    let tree = match SyntaxTree::parse(source) {
        Some(tree) => tree,
        None => {
            return None;
        },
    };
    let stmts = tree.statements();
    let ghost s = source.spec_bytes();
    let n: usize = source.as_bytes().len();
    proof {
        nodes::lemma_document(source);
    }
    let mut k: usize = 0;
    while k < stmts.len()
        invariant
            s == source.spec_bytes(),
            stmts@ == syntax::stmts(s),
            forall|j: int| 0 <= j < stmts@.len() ==> syntax::stmt_ok(s, #[trigger] stmts@[j]),
            k <= stmts@.len(),
            id_under(s, stmts@, offset as int, k as int) == id_under(s, stmts@, offset as int, 0),
        decreases stmts@.len() - k,
    {
        assert(syntax::stmt_ok(s, stmts@[k as int]));
        if let Some((span, kind)) = id_in_statement(source, &stmts[k]) {
            if span.contains(offset) {
                return Some(IdRef { id: span_text(source, span).to_owned(), span, kind });
            }
        }
        k += 1;
    }
    None
}

/// The target of an anchor that `offset` points at.
fn find_anchor_target_prefix_at(source: &str, stmts: &[Stmt], offset: usize) -> (r: Option<ByteSpan>)
    requires
        stmts@ == syntax::stmts(source.spec_bytes()),
    ensures
        r == target_under(source.spec_bytes(), stmts@, offset as int, 0),
        r matches Some(span) ==> syntax::in_text(source.spec_bytes(), span),
{
    let ghost s = source.spec_bytes();
    let n: usize = source.as_bytes().len();
    proof {
        nodes::lemma_document(source);
    }
    let mut k: usize = 0;
    while k < stmts.len()
        invariant
            s == source.spec_bytes(),
            stmts@ == syntax::stmts(s),
            forall|j: int| 0 <= j < stmts@.len() ==> syntax::stmt_ok(s, #[trigger] stmts@[j]),
            k <= stmts@.len(),
            target_under(s, stmts@, offset as int, k as int) == target_under(
                s,
                stmts@,
                offset as int,
                0,
            ),
        decreases stmts@.len() - k,
    {
        let st = &stmts[k];
        assert(syntax::stmt_ok(s, stmts@[k as int]));
        if st.kind == StmtKind::AnchorProperty {
            let word = match anchor_id_span(source, st) {
                Some(span) => Some(span),
                None => st.value,
            };
            if let Some(span) = word {
                if span.contains(offset) {
                    return Some(span);
                }
            }
        }
        k += 1;
    }
    None
}

/// The last of the given widgets that has the id `id`, with where it is given it.
fn find_sibling(source: &str, stmts: &[Stmt], widgets: &[usize], id: &str) -> (r: Option<
    (usize, ByteSpan),
>)
    requires
        stmts@ == syntax::stmts(source.spec_bytes()),
        forall|i: int| 0 <= i < widgets@.len() ==> #[trigger] widgets@[i] < stmts@.len(),
    ensures
        ({
            let all = widgets@.map_values(|j: usize| j as int);
            match r {
                Some(p) => last_with_id(
                    source.spec_bytes(),
                    stmts@,
                    all,
                    id.spec_bytes(),
                    all.len() as int,
                ) == Some(p.0 as int) && anchors::id_of(stmts@, p.0 as int) == Some(p.1)
                    && widgets@.contains(p.0),
                None => last_with_id(
                    source.spec_bytes(),
                    stmts@,
                    all,
                    id.spec_bytes(),
                    all.len() as int,
                ) is None,
            }
        }),
{
    let ghost s = source.spec_bytes();
    let ghost all = widgets@.map_values(|j: usize| j as int);
    let n: usize = source.as_bytes().len();
    proof {
        text::lemma_valid(source);
    }
    let mut k: usize = widgets.len();
    while k > 0
        invariant
            s == source.spec_bytes(),
            valid_utf8(s),
            s.len() <= usize::MAX,
            stmts@ == syntax::stmts(s),
            all == widgets@.map_values(|j: usize| j as int),
            k <= widgets@.len(),
            last_with_id(s, stmts@, all, id.spec_bytes(), k as int) == last_with_id(
                s,
                stmts@,
                all,
                id.spec_bytes(),
                all.len() as int,
            ),
        decreases k,
    {
        let w: usize = widgets[k - 1];
        assert(all[k - 1] == w);
        if let Some(v) = widget_id_span(stmts, w) {
            proof {
                anchors::lemma_id_in_text(s, w as int, 0);
            }
            if same_str(span_text(source, v), id) {
                assert(widgets@[k - 1] == w);
                return Some((w, v));
            }
        }
        k -= 1;
    }
    None
}

/// What the target of an anchor that `offset` points at refers to.
pub fn resolve_anchor_target(source: &str, offset: usize) -> (r: Option<AnchorTargetResolution>)
    ensures
        ({
            let s = source.spec_bytes();
            let stmts = syntax::stmts(s);
            match target_under(s, stmts, offset as int, 0) {
                Some(span) => r matches Some(found) && is_resolution(
                    s,
                    stmts,
                    offset as int,
                    span,
                    found,
                ),
                None => r is None,
            }
        }),
{
    let tree = match SyntaxTree::parse(source) {
        Some(tree) => tree,
        None => {
            return None;
        },
    };
    let stmts = tree.statements();
    let target_span = match find_anchor_target_prefix_at(source, stmts, offset) {
        Some(span) => span,
        None => {
            return None;
        },
    };
    let word = span_text(source, target_span);
    if is_magic_anchor_target(word) {
        return Some(AnchorTargetResolution::Magic { keyword: word.to_owned(), target_span });
    }
    let lines = split_lines(source);
    if let Some(owner) = anchor_owner_widget(source, lines.as_slice(), stmts, offset) {
        let widgets = direct_sibling_widgets(stmts, owner);
        if let Some((w, id_decl_span)) = find_sibling(source, stmts, widgets.as_slice(), word) {
            return Some(
                AnchorTargetResolution::Sibling {
                    id: word.to_owned(),
                    kind: widget_type(source, stmts, w),
                    id_decl_span,
                    target_span,
                },
            );
        }
    }
    Some(AnchorTargetResolution::Unresolved { id: word.to_owned(), target_span })
}

} // verus!
