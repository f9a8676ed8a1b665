//! How many styles derive from each style that a document declares.

use crate::doc_index;
use crate::lang_api::ByteSpan;
use crate::style_index;
use crate::style_index::{extract_style_defs, StyleIndex};
use crate::syntax;
use crate::syntax::{Stmt, SyntaxTree};
use crate::text;
use vstd::prelude::*;
use vstd::string::*;

verus! {

/// The number of styles that derive from a style.
#[derive(Debug, Clone, PartialEq, Eq)]
pub struct StyleLens {
    /// Where the name of the style stands.
    pub name_span: ByteSpan,
    /// How many styles derive from it directly, in all documents.
    pub derived_count: usize,
}

/// The number of styles that derive from the style that statement `k` declares.
pub open spec fn derived(s: Seq<u8>, stmts: Seq<Stmt>, styles: style_index::StyleDocs, k: int) -> int {
    style_index::deriving(
        doc_index::pairs(styles),
        text::chars_of(syntax::cut(s, stmts[k].key)),
    ).len() as int
}

/// The lenses on the first `k` of the given declarations: those from which some style derives.
pub open spec fn lenses_upto(
    s: Seq<u8>,
    stmts: Seq<Stmt>,
    styles: style_index::StyleDocs,
    at: Seq<int>,
    k: int,
) -> Seq<(ByteSpan, int)>
    decreases k,
{
    if k <= 0 {
        Seq::empty()
    } else if derived(s, stmts, styles, at[k - 1]) > 0 {
        lenses_upto(s, stmts, styles, at, k - 1).push(
            (stmts[at[k - 1]].key, derived(s, stmts, styles, at[k - 1])),
        )
    } else {
        lenses_upto(s, stmts, styles, at, k - 1)
    }
}

/// The lenses on the styles that a document declares.
pub open spec fn lenses(s: Seq<u8>, styles: style_index::StyleDocs) -> Seq<(ByteSpan, int)> {
    let stmts = syntax::stmts(s);
    let at = style_index::declarations_upto(stmts, stmts.len() as int);
    lenses_upto(s, stmts, styles, at, at.len() as int)
}

/// The model of a list of lenses.
pub open spec fn lens_views(all: Seq<StyleLens>) -> Seq<(ByteSpan, int)> {
    all.map_values(|l: StyleLens| (l.name_span, l.derived_count as int))
}

/// A lens never stands on a style from which none derives.
pub proof fn law_lenses_count_styles(
    s: Seq<u8>,
    stmts: Seq<Stmt>,
    styles: style_index::StyleDocs,
    at: Seq<int>,
    k: int,
)
    ensures
        forall|i: int|
            0 <= i < lenses_upto(s, stmts, styles, at, k).len() ==> (#[trigger] lenses_upto(
                s,
                stmts,
                styles,
                at,
                k,
            )[i]).1 > 0,
    decreases k,
{
    if k > 0 {
        law_lenses_count_styles(s, stmts, styles, at, k - 1);
        let before = lenses_upto(s, stmts, styles, at, k - 1);
        if derived(s, stmts, styles, at[k - 1]) > 0 {
            assert(lenses_upto(s, stmts, styles, at, k) == before.push(
                (stmts[at[k - 1]].key, derived(s, stmts, styles, at[k - 1])),
            ));
        } else {
            assert(lenses_upto(s, stmts, styles, at, k) == before);
        }
    }
}

/// The lenses on the styles that a document declares.
pub fn style_lenses(source: &str, index: &StyleIndex) -> (out: Vec<StyleLens>)
    ensures
        lens_views(out@) == lenses(source.spec_bytes(), index@),
{
    let mut out: Vec<StyleLens> = Vec::new();
    let tree = match SyntaxTree::parse(source) {
        Some(tree) => tree,
        None => {
            return out;
        },
    };
    let ghost s = source.spec_bytes();
    let ghost stmts = syntax::stmts(s);
    let ghost at = style_index::declarations_upto(stmts, stmts.len() as int);
    let defs = extract_style_defs(&tree);
    let mut i: usize = 0;
    assert(lens_views(out@) =~= Seq::empty());
    while i < defs.len()
        invariant
            i <= defs@.len(),
            stmts == syntax::stmts(s),
            at == style_index::declarations_upto(stmts, stmts.len() as int),
            style_index::are_defs(s, defs@),
            lens_views(out@) == lenses_upto(s, stmts, index@, at, i as int),
        decreases defs@.len() - i,
    {
        let def = &defs[i];
        assert(style_index::is_def(s, stmts, at[i as int], defs@[i as int]));
        let derived_count: usize = index.subtypes(def.name.as_str()).len();
        if derived_count >= 1 {
            let lens = StyleLens { name_span: def.name_span, derived_count };
            assert(lens_views(out@.push(lens)) =~= lens_views(out@).push(
                (lens.name_span, derived_count as int),
            ));
            out.push(lens);
        }
        i += 1;
    }
    out
}

} // verus!
