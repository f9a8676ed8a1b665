//! The colors in a document.
//!
//! What is written as a color and nothing else, such as `#ff0000` or `rgb(255, 0, 0)`, is one wherever
//! a value can stand: behind a key, in a list, in an array. A named color is a word like any other, so
//! it counts only as the value of a property that takes a color.

use crate::ascii;
use crate::catalog;
use crate::lang_api::ByteSpan;
use crate::nodes;
use crate::nodes::key_text;
use crate::palette;
use crate::palette::{color_value, is_color_literal, Rgba};
use crate::schema;
use crate::schema::is_color_property;
use crate::syntax;
use crate::syntax::{Stmt, StmtKind, SyntaxTree};
use crate::text;
use crate::text::{has_at, substr, trim_range};
use vstd::prelude::*;
use vstd::string::*;
use vstd::utf8::*;

verus! {

/// The color between two offsets, where `named` tells whether a name counts.
pub open spec fn color_between(s: Seq<u8>, a: int, b: int, named: bool) -> Seq<(ByteSpan, Rgba)> {
    let word = s.subrange(a, b);
    match palette::color(word) {
        Some(c) => if named || palette::literal(word) {
            seq![(syntax::span(a, b), c)]
        } else {
            Seq::empty()
        },
        None => Seq::empty(),
    }
}

/// The first comma at or after offset `i` and before `e` that is not in parentheses, or `e`, where
/// `depth` parentheses are open at `i`.
pub open spec fn item_end(s: Seq<u8>, i: int, e: int, depth: int) -> int
    decreases e - i,
{
    if !(0 <= i < e <= s.len()) {
        e
    } else if s[i] == ascii::COMMA && depth <= 0 {
        i
    } else if s[i] == ascii::OPEN_PAREN {
        item_end(s, i + 1, e, depth + 1)
    } else if s[i] == ascii::CLOSE_PAREN {
        item_end(s, i + 1, e, depth - 1)
    } else {
        item_end(s, i + 1, e, depth)
    }
}

/// An item of an array ends at a comma or at the end.
pub proof fn lemma_item_end(s: Seq<u8>, i: int, e: int, depth: int)
    requires
        0 <= i <= e <= s.len(),
    ensures
        i <= item_end(s, i, e, depth) <= e,
        item_end(s, i, e, depth) < e ==> s[item_end(s, i, e, depth)] == ascii::COMMA,
    decreases e - i,
{
    if i < e {
        lemma_item_end(s, i + 1, e, depth);
        lemma_item_end(s, i + 1, e, depth + 1);
        lemma_item_end(s, i + 1, e, depth - 1);
    }
}

/// The colors among the items of an array, from the one at offset `i` on, up to `e`.
pub open spec fn array_colors(s: Seq<u8>, i: int, e: int) -> Seq<(ByteSpan, Rgba)>
    decreases e + 1 - i,
    via array_colors_decreases
{
    if !(0 <= i < e <= s.len()) {
        Seq::empty()
    } else {
        let k = item_end(s, i, e, 0);
        let p = text::trim_at(s, i, k);
        color_between(s, p.0, p.1, false) + array_colors(s, k + 1, e)
    }
}

#[via_fn]
proof fn array_colors_decreases(s: Seq<u8>, i: int, e: int) {
    if 0 <= i < e <= s.len() {
        lemma_item_end(s, i, e, 0);
    }
}

/// The colors in statement `st`.
pub open spec fn colors_in(s: Seq<u8>, st: Stmt) -> Seq<(ByteSpan, Rgba)> {
    match st.value {
        Some(v) => if st.body is Some {
            Seq::empty()
        } else if st.kind == StmtKind::Property && s[v.start as int] == ascii::OPEN_BRACKET {
            array_colors(s, v.start + 1, v.end - 1)
        } else if st.kind == StmtKind::Property {
            color_between(
                s,
                v.start as int,
                v.end as int,
                schema::member(catalog::COLOR_PROPERTIES@, nodes::key_of(s, st)),
            )
        } else if st.kind == StmtKind::ListItem {
            color_between(s, v.start as int, v.end as int, false)
        } else {
            Seq::empty()
        },
        None => Seq::empty(),
    }
}

/// The colors in the first `k` statements.
pub open spec fn colors_upto(s: Seq<u8>, stmts: Seq<Stmt>, k: int) -> Seq<(ByteSpan, Rgba)>
    decreases k,
{
    if k <= 0 {
        Seq::empty()
    } else {
        colors_upto(s, stmts, k - 1) + colors_in(s, stmts[k - 1])
    }
}

/// Adds the color between two offsets.
fn push_color(source: &str, a: usize, b: usize, named: bool, out: &mut Vec<(ByteSpan, Rgba)>)
    requires
        a <= b,
        text::boundary(source.spec_bytes(), a as int),
        text::boundary(source.spec_bytes(), b as int),
    ensures
        final(out)@ == old(out)@ + color_between(source.spec_bytes(), a as int, b as int, named),
{
    assert(out@ + Seq::<(ByteSpan, Rgba)>::empty() =~= out@);
    let word = substr(source, a, b);
    if let Some(c) = color_value(word) {
        if named || is_color_literal(word) {
            out.push((ByteSpan::new(a, b), c));
        }
    }
}

/// Where the item of an array that starts at offset `i` ends: at a comma outside brackets, or at
/// `e`.
pub fn array_item_end(b: &[u8], i: usize, e: usize) -> (r: usize)
    requires
        i <= e <= b@.len(),
    ensures
        r == item_end(b@, i as int, e as int, 0),
        i <= r <= e,
        r < e ==> b@[r as int] == ascii::COMMA,
{
    let mut k: usize = i;
    let mut depth: i128 = 0;
    while k < e && !(b[k] == ascii::COMMA && depth <= 0)
        invariant
            i <= k <= e <= b@.len(),
            -(k - i) <= depth <= k - i,
            item_end(b@, k as int, e as int, depth as int) == item_end(
                b@,
                i as int,
                e as int,
                0,
            ),
        decreases e - k,
    {
        if b[k] == ascii::OPEN_PAREN {
            depth += 1;
        } else if b[k] == ascii::CLOSE_PAREN {
            depth -= 1;
        }
        k += 1;
    }
    k
}

/// Adds the colors among the items of an array.
fn push_array(source: &str, start: usize, e: usize, out: &mut Vec<(ByteSpan, Rgba)>)
    requires
        start <= e,
        text::boundary(source.spec_bytes(), start as int),
        text::boundary(source.spec_bytes(), e as int),
    ensures
        final(out)@ == old(out)@ + array_colors(source.spec_bytes(), start as int, e as int),
{
    let b = source.as_bytes();
    let n: usize = b.len();
    let ghost s = b@;
    let ghost whole = out@ + array_colors(s, start as int, e as int);
    proof {
        text::lemma_valid(source);
    }
    let mut i: usize = start;
    while i < e
        invariant
            b@ == source.spec_bytes(),
            s == b@,
            n == s.len(),
            valid_utf8(s),
            e <= n,
            text::boundary(s, e as int),
            i <= e ==> text::boundary(s, i as int),
            whole == old(out)@ + array_colors(s, start as int, e as int),
            out@ + array_colors(s, i as int, e as int) == whole,
        decreases e + 1 - i,
    {
        let k: usize = array_item_end(b, i, e);
        proof {
            lemma_item_end(s, i as int, e as int, 0);
            if k < e {
                text::lemma_ascii_boundary(s, k as int);
            }
            text::lemma_trim_at(s, i as int, k as int);
        }
        let (from, to) = trim_range(source, i, k);
        let ghost had = out@;
        push_color(source, from, to, false, out);
        proof {
            let x = color_between(s, from as int, to as int, false);
            let rest = array_colors(s, k + 1, e as int);
            assert(had + x + rest =~= had + (x + rest));
        }
        if k >= e {
            assert(array_colors(s, k + 1, e as int) =~= Seq::empty());
            assert(out@ =~= whole);
            return;
        }
        i = k + 1;
    }
    assert(out@ =~= whole);
}

/// Adds the colors in statement `k`.
fn push_statement(source: &str, stmts: &[Stmt], k: usize, out: &mut Vec<(ByteSpan, Rgba)>)
    requires
        stmts@ == syntax::stmts(source.spec_bytes()),
        k < stmts@.len(),
    ensures
        final(out)@ == old(out)@ + colors_in(source.spec_bytes(), stmts@[k as int]),
{
    assert(out@ + Seq::<(ByteSpan, Rgba)>::empty() =~= out@);
    let b = source.as_bytes();
    let n: usize = b.len();
    proof {
        nodes::lemma_document(source);
        assert(syntax::stmt_ok(source.spec_bytes(), stmts@[k as int]));
    }
    let st = &stmts[k];
    if let Some(v) = st.value {
        if st.body.is_some() {
            return;
        }
        if st.kind == StmtKind::Property {
            if has_at(b, v.start, ascii::OPEN_BRACKET) {
                proof {
                    syntax::lemma_array_value(source.spec_bytes(), k as int);
                    text::lemma_ascii_boundary(source.spec_bytes(), v.start as int);
                    text::lemma_ascii_boundary(source.spec_bytes(), v.end - 1);
                }
                push_array(source, v.start + 1, v.end - 1, out);
            } else {
                let named: bool = is_color_property(key_text(source, stmts, k));
                push_color(source, v.start, v.end, named, out);
            }
        } else if st.kind == StmtKind::ListItem {
            push_color(source, v.start, v.end, false, out);
        }
    }
}

/// The colors in a document, with where they stand.
pub fn document_colors(source: &str) -> (out: Vec<(ByteSpan, Rgba)>)
    ensures
        out@ == colors_upto(
            source.spec_bytes(),
            syntax::stmts(source.spec_bytes()),
            syntax::stmts(source.spec_bytes()).len() as int,
        ),
{
    let mut out: Vec<(ByteSpan, Rgba)> = Vec::new();
    let tree = match SyntaxTree::parse(source) {
        Some(tree) => tree,
        None => {
            return out;
        },
    };
    let stmts = tree.statements();
    let mut k: usize = 0;
    while k < stmts.len()
        invariant
            stmts@ == syntax::stmts(source.spec_bytes()),
            k <= stmts@.len(),
            out@ == colors_upto(source.spec_bytes(), stmts@, k as int),
        decreases stmts@.len() - k,
    {
        push_statement(source, stmts, k, &mut out);
        k += 1;
    }
    out
}

} // verus!
