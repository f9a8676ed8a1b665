//! What there is to say about the name or the base in a style header.

use crate::doc_index;
use crate::doc_index::DocId;
use crate::lang_api::ByteSpan;
use crate::names;
use crate::names::comes_before;
use crate::navigation;
use crate::navigation::style_header_at;
use crate::style_index;
use crate::style_index::{is_native_base, StyleDef, StyleIndex};
use crate::syntax;
use crate::syntax::{Stmt, StmtKind};
use crate::text;
use vstd::prelude::*;
use vstd::string::*;

verus! {

/// What a style derives from.
#[derive(Debug, Clone, PartialEq, Eq)]
pub struct Inheritance {
    /// The name of the base.
    pub base: String,
    /// Whether the base is a class of the engine.
    pub native: bool,
}

/// What there is to say about a name in a style header.
#[derive(Debug, Clone, PartialEq, Eq)]
pub struct StyleHover {
    /// Where the name stands.
    pub span: ByteSpan,
    /// What it stands for.
    pub kind: StyleHoverKind,
}

/// What a name in a style header stands for.
#[derive(Debug, Clone, PartialEq, Eq)]
pub enum StyleHoverKind {
    /// A class of the engine.
    NativeBase {
        /// Its name.
        name: String,
    },
    /// A base that some document declares.
    UserBase {
        /// Its name.
        name: String,
        /// How many declarations it has.
        def_count: usize,
        /// What it derives from in turn.
        inherits: Option<Inheritance>,
    },
    /// A base that no document declares.
    DanglingBase {
        /// Its name.
        name: String,
    },
    /// The style that the header declares.
    StyleName {
        /// Its name.
        name: String,
        /// What it derives from.
        inherits: Option<Inheritance>,
    },
}

/// Whether declaration `a` comes before declaration `b`: its document does, or it stands before `b`
/// in the same document.
pub open spec fn comes_first(a: (Seq<char>, StyleDef), b: (Seq<char>, StyleDef)) -> bool {
    names::before(text::bytes_of(a.0), text::bytes_of(b.0)) || (a.0 == b.0
        && a.1.name_span.start < b.1.name_span.start)
}

/// The first of the first `k` declarations that derives from something, by document and place.
pub open spec fn first_deriving(hits: Seq<(Seq<char>, StyleDef)>, k: int) -> Option<int>
    decreases k,
{
    if k <= 0 {
        None
    } else if hits[k - 1].1.base is None {
        first_deriving(hits, k - 1)
    } else {
        match first_deriving(hits, k - 1) {
            Some(j) => if comes_first(hits[k - 1], hits[j]) {
                Some(k - 1)
            } else {
                Some(j)
            },
            None => Some(k - 1),
        }
    }
}

/// What `first_deriving` reports derives from something, and no such declaration comes before it.
pub proof fn law_first_deriving(hits: Seq<(Seq<char>, StyleDef)>, k: int)
    requires
        0 <= k <= hits.len(),
    ensures
        match first_deriving(hits, k) {
            Some(j) => 0 <= j < k && hits[j].1.base is Some && forall|i: int|
                0 <= i < k && (#[trigger] hits[i]).1.base is Some ==> !comes_first(
                    hits[i],
                    hits[j],
                ),
            None => forall|i: int| 0 <= i < k ==> (#[trigger] hits[i]).1.base is None,
        },
    decreases k,
{
    if k > 0 {
        law_first_deriving(hits, k - 1);
        let x = text::bytes_of(hits[k - 1].0);
        names::law_before_total(x, x);
        if let Some(j) = first_deriving(hits, k - 1) {
            if hits[k - 1].1.base is Some && comes_first(hits[k - 1], hits[j]) {
                assert forall|i: int| 0 <= i < k && (#[trigger] hits[i]).1.base is Some implies
                    !comes_first(hits[i], hits[k - 1]) by {
                    lemma_first_transitive(hits, i, k - 1, j);
                }
            }
        }
    }
}

proof fn lemma_first_transitive(hits: Seq<(Seq<char>, StyleDef)>, i: int, m: int, j: int)
    requires
        comes_first(hits[m], hits[j]),
    ensures
        comes_first(hits[i], hits[m]) ==> comes_first(hits[i], hits[j]),
{
    let a = text::bytes_of(hits[i].0);
    let b = text::bytes_of(hits[m].0);
    let c = text::bytes_of(hits[j].0);
    if names::before(a, b) && names::before(b, c) {
        names::law_before_transitive(a, b, c);
    }
}

/// Whether `r` says what the base `base` is.
pub open spec fn is_inheritance(base: Option<Seq<char>>, r: Option<Inheritance>) -> bool {
    match base {
        Some(b) => r matches Some(i) && i.base@ == b && i.native == style_index::native(b),
        None => r is None,
    }
}

/// The base of declaration `j`, where there is one.
pub open spec fn base_of_hit(hits: Seq<(Seq<char>, StyleDef)>, j: Option<int>) -> Option<Seq<char>> {
    match j {
        Some(i) => style_index::opt_chars(hits[i].1.base),
        None => None,
    }
}

/// Whether `kind` says what the base `base` is in a workspace.
pub open spec fn is_base_kind(
    styles: style_index::StyleDocs,
    base: Seq<char>,
    kind: StyleHoverKind,
) -> bool {
    let hits = style_index::named(doc_index::pairs(styles), base);
    if style_index::native(base) {
        kind matches StyleHoverKind::NativeBase { name } && name@ == base
    } else if hits.len() == 0 {
        kind matches StyleHoverKind::DanglingBase { name } && name@ == base
    } else {
        kind matches StyleHoverKind::UserBase { name, def_count, inherits } && name@ == base
            && def_count == hits.len() && is_inheritance(
            base_of_hit(hits, first_deriving(hits, hits.len() as int)),
            inherits,
        )
    }
}

/// Whether `hover` says what the name in the header of statement `st` is that `offset` points at.
pub open spec fn is_style_hover(
    s: Seq<u8>,
    st: Stmt,
    styles: style_index::StyleDocs,
    offset: int,
    hover: StyleHover,
) -> bool {
    if st.kind == StmtKind::StyleHeader && navigation::opt_holds(st.value, offset) {
        hover.span == st.value->0 && is_base_kind(
            styles,
            navigation::token(s, st.value->0),
            hover.kind,
        )
    } else {
        hover.span == st.key && (hover.kind matches StyleHoverKind::StyleName { name, inherits }
            && name@ == navigation::token(s, st.key) && is_inheritance(
            if st.kind == StmtKind::StyleHeader {
                Some(navigation::token(s, st.value->0))
            } else {
                None
            },
            inherits,
        ))
    }
}

/// What the base `base` is.
fn inheritance_of(base: &str) -> (r: Inheritance)
    ensures
        r.base@ == base@,
        r.native == style_index::native(base@),
{
    Inheritance { base: base.to_owned(), native: is_native_base(base) }
}

/// Whether one declaration comes before another.
fn is_first(a: (&DocId, &StyleDef), b: (&DocId, &StyleDef)) -> (r: bool)
    ensures
        r == comes_first((a.0@, *a.1), (b.0@, *b.1)),
{
    let x = a.0.as_str();
    let y = b.0.as_str();
    comes_before(x, y) || (text::same_str(x, y) && a.1.name_span.start < b.1.name_span.start)
}

/// What the base `base` is in a workspace.
fn classify_base(base: &str, index: &StyleIndex) -> (kind: StyleHoverKind)
    ensures
        is_base_kind(index@, base@, kind),
{
    if is_native_base(base) {
        return StyleHoverKind::NativeBase { name: base.to_owned() };
    }
    let hits = index.lookup(base);
    if hits.len() == 0 {
        return StyleHoverKind::DanglingBase { name: base.to_owned() };
    }
    let ghost model = style_index::named(doc_index::pairs(index@), base@);
    let mut best: Option<usize> = None;
    let mut k: usize = 0;
    while k < hits.len()
        invariant
            k <= hits@.len(),
            style_index::lists(hits@, model),
            match best {
                Some(j) => first_deriving(model, k as int) == Some(j as int) && j < k,
                None => first_deriving(model, k as int) is None,
            },
        decreases hits@.len() - k,
    {
        assert(hits@[k as int].0@ == model[k as int].0 && *hits@[k as int].1 == model[k as int].1);
        if hits[k].1.base.is_some() {
            let better: bool = match best {
                Some(j) => {
                    assert(hits@[j as int].0@ == model[j as int].0 && *hits@[j as int].1
                        == model[j as int].1);
                    is_first(hits[k], hits[j])
                },
                None => true,
            };
            if better {
                best = Some(k);
            }
        }
        k += 1;
    }
    let mut inherits: Option<Inheritance> = None;
    if let Some(j) = best {
        assert(*hits@[j as int].1 == model[j as int].1);
        if let Some(b) = &hits[j].1.base {
            inherits = Some(inheritance_of(b.as_str()));
        }
    }
    StyleHoverKind::UserBase { name: base.to_owned(), def_count: hits.len(), inherits }
}

/// What there is to say about the name or the base in a style header that `offset` points at.
pub fn style_hover_at(source: &str, offset: usize, index: &StyleIndex) -> (r: Option<StyleHover>)
    ensures
        ({
            let s = source.spec_bytes();
            let stmts = syntax::stmts(s);
            match navigation::header_at(stmts, offset as int, 0) {
                Some(k) => r matches Some(hover) && is_style_hover(
                    s,
                    stmts[k],
                    index@,
                    offset as int,
                    hover,
                ),
                None => r is None,
            }
        }),
{
    let header = match style_header_at(source, offset) {
        Some(header) => header,
        None => {
            return None;
        },
    };
    if let Some(span) = header.base_span {
        if let Some(base) = &header.base {
            if span.contains(offset) {
                return Some(StyleHover { span, kind: classify_base(base.as_str(), index) });
            }
        }
    }
    let inherits = match &header.base {
        Some(base) => Some(inheritance_of(base.as_str())),
        None => None,
    };
    Some(
        StyleHover {
            span: header.name_span,
            kind: StyleHoverKind::StyleName { name: header.name, inherits },
        },
    )
}

} // verus!
