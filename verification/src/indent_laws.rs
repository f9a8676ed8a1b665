//! What the indentation that is offered for a line has to do with the lines above it, and with
//! formatting.

use crate::ascii;
use crate::format::{depth_of, formatted, margin};
use crate::format_laws;
use crate::format_laws::{blank, raw, said};
use crate::indent;
use crate::indent::LineKind;
use crate::syntax;
use crate::syntax::{Stmt, StmtKind};
use crate::text;
use vstd::prelude::*;

verus! {

/// What each line of a document is.
pub open spec fn kinds(s: Seq<u8>) -> Seq<LineKind> {
    indent::kinds_from(indent::texts(s), 0, None)
}

/// The indentation of a line that follows the line `t` of structure.
pub open spec fn below(t: Seq<u8>) -> int {
    indent::spaces(t) + if indent::opens(text::trim(t)) {
        2int
    } else {
        0
    }
}

/// Whether line `j` is the nearest line of structure above line `line`, and no tab is in front of it.
pub open spec fn leads(s: Seq<u8>, j: int, line: int) -> bool {
    &&& 0 <= j < line && j < kinds(s).len()
    &&& kinds(s)[j] matches LineKind::Node { has_tab, .. } && !has_tab
    &&& forall|x: int|
        j < x < line && x < kinds(s).len() ==> (#[trigger] kinds(s)[x] is Blank || kinds(s)[x]
            is Comment)
}

proof fn lemma_kind_is_plain(lines: Seq<Seq<u8>>, i: int, open: Option<int>, k: int)
    requires
        0 <= i <= k < lines.len(),
    ensures
        k - i < indent::kinds_from(lines, i, open).len(),
        indent::kinds_from(lines, i, open)[k - i] is BlockContent || indent::kinds_from(
            lines,
            i,
            open,
        )[k - i] == indent::plain_kind(lines[k]),
    decreases k - i,
{
    indent::lemma_kinds_len(lines, i, open);
    if k > i {
        let all = indent::kinds_from(lines, i, open);
        if indent::continues(lines[i], open) {
            lemma_kind_is_plain(lines, i + 1, open, k);
            assert(all[k - i] == indent::kinds_from(lines, i + 1, open)[k - i - 1]);
        } else {
            let next = indent::opened(lines[i]);
            lemma_kind_is_plain(lines, i + 1, next, k);
            assert(all[k - i] == indent::kinds_from(lines, i + 1, next)[k - i - 1]);
        }
    }
}

proof fn lemma_wanted(s: Seq<u8>, k: int, line: int)
    requires
        s.len() <= usize::MAX,
        0 <= k <= line,
        k <= kinds(s).len(),
        forall|x: int|
            k <= x < line && x < kinds(s).len() ==> (#[trigger] kinds(s)[x] is Blank || kinds(s)[x]
                is Comment),
    ensures
        indent::wanted(kinds(s), k) matches Some(n) ==> n == 0 || (exists|j: int| #[trigger]
            leads(s, j, line) && n == below(indent::texts(s)[j])),
    decreases k,
{
    let all = kinds(s);
    let texts = indent::texts(s);
    indent::lemma_kinds_len(texts, 0, None);
    if k > 0 {
        lemma_kind_is_plain(texts, 0, None, k - 1);
        assert(all[k - 1] is BlockContent || all[k - 1] == indent::plain_kind(texts[k - 1]));
        match all[k - 1] {
            LineKind::Blank => {
                lemma_wanted(s, k - 1, line);
            },
            LineKind::Comment => {
                lemma_wanted(s, k - 1, line);
            },
            LineKind::BlockContent => {},
            LineKind::Node { sp, opens_block, has_tab } => {
                if !has_tab {
                    assert(leads(s, k - 1, line));
                    indent::lemma_lines(s, 0);
                    let p = indent::lines(s)[k - 1];
                    assert(texts[k - 1].len() <= usize::MAX);
                    indent::lemma_spaces(texts[k - 1], 0);
                }
            },
        }
    }
}

/// What is offered for a line is the indentation of the nearest line of structure above it, or one
/// level more where that line opens a block. A line with no such line above it starts at the margin.
pub proof fn law_indent_follows_line_above(s: Seq<u8>, line: int)
    requires
        s.len() <= usize::MAX,
        0 <= line,
    ensures
        indent::line_indent(s, line) matches Some(n) ==> n == 0 || (exists|j: int| #[trigger]
            leads(s, j, line) && n == below(indent::texts(s)[j])),
        line == 0 ==> indent::line_indent(s, line) == Some(0int),
{
    indent::lemma_kinds_len(indent::texts(s), 0, None);
    let k: int = if line < kinds(s).len() {
        line
    } else {
        kinds(s).len() as int
    };
    lemma_wanted(s, k, line);
}

proof fn lemma_spaces_in_margin(d: int)
    requires
        0 <= d,
    ensures
        margin(d).len() == 2 * d,
        forall|j: int| 0 <= j < 2 * d ==> #[trigger] margin(d)[j] == ascii::SPACE,
    decreases d,
{
    if d > 0 {
        lemma_spaces_in_margin(d - 1);
        reveal_strlit("  ");
        vstd::utf8::is_ascii_chars_encode_utf8("  "@);
    }
}

proof fn lemma_canonical_line(s: Seq<u8>, k: int)
    requires
        format_laws::formattable(s),
        formatted(s) == s,
        0 <= k < syntax::stmts(s).len(),
    ensures
        ({
            let i = syntax::stmts(s)[k].line as int;
            let d = depth_of(syntax::stmts(s), k);
            &&& 0 <= i < indent::texts(s).len()
            &&& 0 <= d
            &&& indent::spaces(indent::texts(s)[i]) == 2 * d
            &&& !indent::tabbed(indent::texts(s)[i])
            &&& !blank(indent::texts(s)[i])
            &&& syntax::stmts(s)[k].kind == StmtKind::Comment <==> indent::comment(
                text::trim(indent::texts(s)[i]),
            )
        }),
{
    let u = indent::texts(s);
    syntax::lemma_stmts(s);
    format_laws::lemma_formatted(s);
    format_laws::lemma_running_start(s);
    format_laws::lemma_running_at(s, 0, 0, k);
    assert(syntax::stmts(s)[k].line == raw(s)[k].line);
    let i = raw(s)[k].line as int;
    format_laws::lemma_new_header(s, u, i, k);
    let h = text::trim(u[i]);
    let d = depth_of(syntax::stmts(s), k);
    let g = said(h);
    lemma_spaces_in_margin(d);
    assert(u[i] == margin(d) + g);
    assert(g.len() > 0);
    assert(text::ws_len(g, 0) == 0);
    assert(u[i][2 * d] == g[0]);
    indent::lemma_spaces(u[i], 0);
    let sp = indent::spaces(u[i]);
    if sp < 2 * d {
        assert(u[i][sp] == margin(d)[sp]);
    }
}

/// What is offered for line `i`, where the line above is a line of structure.
proof fn lemma_offered(s: Seq<u8>, i: int)
    requires
        s.len() <= usize::MAX,
        0 < i < indent::texts(s).len(),
        kinds(s)[i - 1] is Node,
        !(kinds(s)[i] is BlockContent),
        !indent::tabbed(indent::texts(s)[i - 1]),
        !indent::tabbed(indent::texts(s)[i]),
    ensures
        indent::line_indent(s, i) == Some(below(indent::texts(s)[i - 1])),
{
    let texts = indent::texts(s);
    lemma_kind_is_plain(texts, 0, None, i - 1);
    lemma_kind_is_plain(texts, 0, None, i);
    indent::lemma_kinds_len(texts, 0, None);
    indent::lemma_lines(s, 0);
    let p = indent::lines(s)[i - 1];
    assert(texts[i - 1].len() <= usize::MAX);
    indent::lemma_spaces(texts[i - 1], 0);
    assert(indent::wanted(kinds(s), i) == Some(below(texts[i - 1])));
}

proof fn lemma_next_depth(stmts: Seq<Stmt>, k: int, opens: bool)
    requires
        0 < k < stmts.len() <= usize::MAX,
        (opens && stmts[k].parent == Some((k - 1) as usize)) || (!opens && stmts[k].parent
            == stmts[k - 1].parent),
        stmts[k - 1].parent matches Some(p) ==> p < k - 1,
    ensures
        depth_of(stmts, k) == depth_of(stmts, k - 1) + if opens {
            1int
        } else {
            0
        },
{
}

/// In a document that formatting leaves as it is, what is offered for a line is the indentation that
/// formatting gives it, where the line above starts the statement before it and either opens the
/// block to which the line belongs, or opens none and lies beside it.
pub proof fn law_indent_agrees_with_format(s: Seq<u8>, k: int)
    requires
        format_laws::formattable(s),
        formatted(s) == s,
        0 < k < syntax::stmts(s).len(),
        syntax::stmts(s)[k].line == syntax::stmts(s)[k - 1].line + 1,
        kinds(s)[syntax::stmts(s)[k - 1].line as int] is Node,
        !(kinds(s)[syntax::stmts(s)[k].line as int] is BlockContent),
        ({
            let above = text::trim(indent::texts(s)[syntax::stmts(s)[k - 1].line as int]);
            let parent = syntax::stmts(s)[k].parent;
            ||| indent::opens(above) && parent == Some((k - 1) as usize)
            ||| !indent::opens(above) && parent == syntax::stmts(s)[k - 1].parent
        }),
    ensures
        indent::line_indent(s, syntax::stmts(s)[k].line as int) == Some(
            2 * depth_of(syntax::stmts(s), k),
        ),
{
    let stmts = syntax::stmts(s);
    let i = stmts[k].line as int;
    syntax::lemma_stmts(s);
    lemma_canonical_line(s, k - 1);
    lemma_canonical_line(s, k);
    lemma_offered(s, i);
    lemma_next_depth(stmts, k, indent::opens(text::trim(indent::texts(s)[i - 1])));
}

} // verus!
