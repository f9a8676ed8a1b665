//! Formatting.
//!
//! Indentation is structure, and a value runs to the end of its line, so formatting touches nothing
//! but white space:
//!
//! * a line that starts a statement is indented by two spaces for each statement above it in the
//!   tree, whatever its indentation was, and a comment by as much as the statement below it;
//! * a key is followed by its `:`, one space and its value, or by its `:` alone;
//! * white space at the end of such lines goes away, and so does white space on a blank line;
//! * the document ends with one line feed.
//!
//! The body of a block scalar stays as it is, byte for byte, and so do the further lines of an array.
//! Where a block scalar ends the document, the blank lines behind it are kept, since they may be part
//! of it.
//!
//! A document with a line that fits no kind of statement is not formatted at all. Nor is one in which
//! a block scalar would lose a line, because the line is not indented deeper than the marker line is
//! to be, or would take in a statement that lies below it.

use crate::indent;
use crate::indent::{is_block_scalar_marker, is_comment, split_lines, Line};
use crate::lang_api::ByteSpan;
use crate::nodes;
use crate::nodes::span_text;
use crate::syntax;
use crate::syntax::{line_width, parse_head, Stmt, StmtKind, SyntaxTree};
use crate::text;
use crate::text::{put, same_str, str_from, substr, trimmed};
use vstd::prelude::*;
use vstd::string::*;

verus! {

/// The number of statements above statement `k` in the tree.
pub open spec fn depth_of(stmts: Seq<Stmt>, k: int) -> int
    decreases k,
{
    match stmts[k].parent {
        Some(p) => if p < k {
            depth_of(stmts, p as int) + 1
        } else {
            0
        },
        None => 0,
    }
}

/// The indentation of a line at the given depth.
pub open spec fn margin(depth: int) -> Seq<u8>
    decreases depth,
{
    if depth <= 0 {
        Seq::empty()
    } else {
        margin(depth - 1) + "  ".spec_bytes()
    }
}

/// What a line says that reads `h` and whose key and `:` end at `colon`: one space separates them
/// from the value.
pub open spec fn tidy(h: Seq<u8>, colon: Option<int>) -> Seq<u8> {
    match colon {
        Some(c) => {
            let value = text::trim(text::from(h, c));
            if value.len() == 0 {
                text::upto(h, c)
            } else {
                text::upto(h, c) + " ".spec_bytes() + value
            }
        },
        None => h,
    }
}

/// Where the key and the `:` of a statement end, within its text.
pub open spec fn colon_in(st: Stmt) -> Option<int> {
    match st.colon {
        Some(c) => Some(c - st.span.start),
        None => None,
    }
}

/// The line on which statement `k` starts, as it is to be.
pub open spec fn header(s: Seq<u8>, stmts: Seq<Stmt>, k: int) -> Seq<u8> {
    margin(depth_of(stmts, k)) + tidy(syntax::cut(s, stmts[k].span), colon_in(stmts[k]))
}

/// A line that neither starts a statement nor belongs to a block scalar, as it is to be.
pub open spec fn other_line(t: Seq<u8>) -> Seq<u8> {
    if text::trim(t).len() == 0 {
        Seq::empty()
    } else {
        t
    }
}

/// The lines from line `i` on, as they are to be, where the first `k` statements start above.
pub open spec fn rendered_from(s: Seq<u8>, stmts: Seq<Stmt>, i: int, k: int) -> Seq<Seq<u8>>
    decreases indent::lines(s).len() - i,
{
    if !(0 <= i < indent::lines(s).len()) {
        Seq::empty()
    } else if 0 < k <= stmts.len() && stmts[k - 1].body is Some && i <= stmts[k - 1].last_line {
        seq![indent::texts(s)[i]] + rendered_from(s, stmts, i + 1, k)
    } else if 0 <= k < stmts.len() && stmts[k].line == i {
        seq![header(s, stmts, k)] + rendered_from(s, stmts, i + 1, k + 1)
    } else {
        seq![other_line(indent::texts(s)[i])] + rendered_from(s, stmts, i + 1, k)
    }
}

/// The lines of a document, as they are to be.
pub open spec fn rendered(s: Seq<u8>) -> Seq<Seq<u8>> {
    rendered_from(s, syntax::stmts(s), 0, 0)
}

/// The number of lines among the first `k` up to the last one that is not blank.
pub open spec fn content_end(texts: Seq<Seq<u8>>, k: int) -> int
    decreases k,
{
    if k <= 0 {
        0
    } else if text::trim(texts[k - 1]).len() > 0 {
        k
    } else {
        content_end(texts, k - 1)
    }
}

/// Whether line `i` lies in the body of a block scalar.
pub open spec fn in_body(stmts: Seq<Stmt>, i: int) -> bool {
    exists|k: int|
        0 <= k < stmts.len() && (#[trigger] stmts[k]).body is Some && stmts[k].line < i
            <= stmts[k].last_line
}

/// What follows the first `n` lines and is kept: the blank lines behind a block scalar.
pub open spec fn tail(s: Seq<u8>, n: int) -> Seq<u8> {
    if 0 < n < indent::lines(s).len() && in_body(syntax::stmts(s), n - 1) {
        text::from(s, indent::lines(s)[n].0)
    } else {
        Seq::empty()
    }
}

/// The first `n` lines, each with a line feed.
pub open spec fn stacked(lines: Seq<Seq<u8>>, n: int) -> Seq<u8>
    decreases n,
{
    if n <= 0 {
        Seq::empty()
    } else {
        stacked(lines, n - 1) + lines[n - 1] + "\n".spec_bytes()
    }
}

/// A document as it is to be.
pub open spec fn formatted(s: Seq<u8>) -> Seq<u8> {
    let n = content_end(indent::texts(s), indent::texts(s).len() as int);
    stacked(rendered(s), n) + tail(s, n)
}

/// Whether a line that reads `h` announces a block scalar.
#[verifier::opaque]
pub open spec fn announces(h: Seq<u8>) -> bool {
    !indent::comment(h) && syntax::head(h).kind != StmtKind::StyleHeader && (syntax::head(
        h,
    ).value matches Some(v) && indent::marker(syntax::cut(h, v)))
}

/// Whether each line of a block scalar is indented deeper than its marker line is to be.
#[verifier::opaque]
pub open spec fn deep_bodies(s: Seq<u8>) -> bool {
    forall|k: int, j: int|
        #![trigger syntax::stmts(s)[k], indent::texts(s)[j]]
        0 <= k < syntax::stmts(s).len() && syntax::stmts(s)[k].body is Some && syntax::stmts(
            s,
        )[k].line < j <= syntax::stmts(s)[k].last_line ==> text::trim(indent::texts(s)[j]).len()
            == 0 || syntax::width(indent::texts(s)[j]) > 2 * depth_of(syntax::stmts(s), k)
}

/// Whether no statement lies below one that announces a block scalar.
#[verifier::opaque]
pub open spec fn scalars_are_leaves(s: Seq<u8>) -> bool {
    forall|k: int, p: int|
        #![trigger syntax::stmts(s)[k], syntax::stmts(s)[p]]
        0 <= p < k < syntax::stmts(s).len() && syntax::stmts(s)[k].parent == Some(p as usize)
            ==> !announces(syntax::cut(s, syntax::stmts(s)[p].span))
}

/// Whether a document is formatted: each line fits some kind, and each block scalar keeps its lines.
/// It would lose those that are not indented deeper than its marker line is to be, and would take in
/// a statement below it.
pub open spec fn can_format(s: Seq<u8>) -> bool {
    &&& !syntax::broken(syntax::stmts(s))
    &&& deep_bodies(s)
    &&& scalars_are_leaves(s)
}

/// A correction of one line.
#[derive(Debug, Clone, PartialEq, Eq)]
pub struct LineEdit {
    /// The text of the line, without its line feed.
    pub span: ByteSpan,
    /// What to put there.
    pub text: String,
}

/// The lines between `from` and `to`, not counting `to`, that formatting changes, each with its new
/// text.
pub open spec fn edits_between(s: Seq<u8>, from: int, to: int) -> Seq<(ByteSpan, Seq<u8>)>
    decreases to - from,
{
    if from >= to {
        Seq::empty()
    } else {
        let before = edits_between(s, from, to - 1);
        let line = indent::lines(s)[to - 1];
        if rendered(s)[to - 1] == indent::texts(s)[to - 1] {
            before
        } else {
            before.push((syntax::span(line.0, line.1), rendered(s)[to - 1]))
        }
    }
}

/// Whether formatting changes line `j`.
pub open spec fn changed(s: Seq<u8>, j: int) -> bool {
    rendered(s)[j] != indent::texts(s)[j]
}

/// The correction of line `j`.
pub open spec fn line_edit(s: Seq<u8>, j: int) -> (ByteSpan, Seq<u8>) {
    (syntax::span(indent::lines(s)[j].0, indent::lines(s)[j].1), rendered(s)[j])
}

/// Whether `edit` is the correction of a line between `from` and `to` that formatting changes.
pub open spec fn is_line_edit(s: Seq<u8>, from: int, to: int, edit: (ByteSpan, Seq<u8>)) -> bool {
    exists|j: int| from <= j < to && #[trigger] changed(s, j) && edit == line_edit(s, j)
}

/// Each correction replaces one line of the range that formatting changes, and each such line has
/// one.
pub proof fn law_edits_change_lines(s: Seq<u8>, from: int, to: int)
    ensures
        forall|i: int|
            0 <= i < edits_between(s, from, to).len() ==> is_line_edit(
                s,
                from,
                to,
                #[trigger] edits_between(s, from, to)[i],
            ),
        forall|j: int|
            from <= j < to && #[trigger] changed(s, j) ==> edits_between(s, from, to).contains(
                line_edit(s, j),
            ),
    decreases to - from,
{
    let all = edits_between(s, from, to);
    if from < to {
        law_edits_change_lines(s, from, to - 1);
        let before = edits_between(s, from, to - 1);
        let last = line_edit(s, to - 1);
        assert(all == if changed(s, to - 1) {
            before.push(last)
        } else {
            before
        });
        assert forall|i: int| 0 <= i < all.len() implies is_line_edit(
            s,
            from,
            to,
            #[trigger] all[i],
        ) by {
            if i < before.len() {
                assert(all[i] == before[i]);
                assert(is_line_edit(s, from, to - 1, before[i]));
            }
        }
        assert forall|j: int| from <= j < to && #[trigger] changed(s, j) implies all.contains(
            line_edit(s, j),
        ) by {
            if j < to - 1 {
                let i = before.index_of(line_edit(s, j));
                assert(all[i] == line_edit(s, j));
            } else {
                assert(all[all.len() - 1] == last);
            }
        }
    }
}

/// Whether `edits` are the given corrections.
pub open spec fn are_edits(edits: Seq<LineEdit>, model: Seq<(ByteSpan, Seq<u8>)>) -> bool {
    &&& edits.len() == model.len()
    &&& forall|k: int|
        0 <= k < edits.len() ==> (#[trigger] edits[k]).span == model[k].0 && text::bytes_of(
            edits[k].text@,
        ) == model[k].1
}

/// Whether `lines` have the given texts.
spec fn have_texts(lines: Seq<String>, model: Seq<Seq<u8>>) -> bool {
    &&& lines.len() == model.len()
    &&& forall|k: int| 0 <= k < lines.len() ==> text::bytes_of((#[trigger] lines[k])@) == model[k]
}

/// Each line is rendered to one line.
pub proof fn lemma_rendered_len(s: Seq<u8>, stmts: Seq<Stmt>, i: int, k: int)
    requires
        0 <= i <= indent::lines(s).len(),
    ensures
        rendered_from(s, stmts, i, k).len() == indent::lines(s).len() - i,
    decreases indent::lines(s).len() - i,
{
    if i < indent::lines(s).len() {
        lemma_rendered_len(s, stmts, i + 1, k);
        lemma_rendered_len(s, stmts, i + 1, k + 1);
    }
}

/// The lines behind the last one that is not blank are blank.
pub proof fn lemma_content_end(texts: Seq<Seq<u8>>, k: int)
    requires
        0 <= k <= texts.len(),
    ensures
        0 <= content_end(texts, k) <= k,
        content_end(texts, k) > 0 ==> text::trim(texts[content_end(texts, k) - 1]).len() > 0,
        forall|j: int| content_end(texts, k) <= j < k ==> text::trim(#[trigger] texts[j]).len() == 0,
    decreases k,
{
    if k > 0 && text::trim(texts[k - 1]).len() == 0 {
        lemma_content_end(texts, k - 1);
    }
}

/// The number of statements above each statement.
fn depths(source: &str, stmts: &[Stmt]) -> (r: Vec<usize>)
    requires
        stmts@ == syntax::stmts(source.spec_bytes()),
    ensures
        r@.len() == stmts@.len(),
        forall|k: int| 0 <= k < r@.len() ==> #[trigger] r@[k] == depth_of(stmts@, k),
{
    let n: usize = source.as_bytes().len();
    proof {
        nodes::lemma_document(source);
    }
    let mut r: Vec<usize> = Vec::new();
    let mut k: usize = 0;
    while k < stmts.len()
        invariant
            k <= stmts@.len(),
            r@.len() == k,
            forall|j: int|
                0 <= j < k ==> #[trigger] r@[j] == depth_of(stmts@, j) && depth_of(stmts@, j) <= j,
        decreases stmts@.len() - k,
    {
        let mut d: usize = 0;
        if let Some(p) = stmts[k].parent {
            if p < k {
                assert(r@[p as int] == depth_of(stmts@, p as int));
                d = r[p] + 1;
            }
        }
        r.push(d);
        k += 1;
    }
    r
}

/// The line on which a statement starts, as it is to be.
fn format_header_line(source: &str, st: &Stmt, depth: usize) -> (r: String)
    requires
        syntax::stmt_ok(source.spec_bytes(), *st),
    ensures
        text::bytes_of(r@) == margin(depth as int) + tidy(
            syntax::cut(source.spec_bytes(), st.span),
            colon_in(*st),
        ),
{
    let ghost s = source.spec_bytes();
    let mut r = String::new();
    let mut i: usize = 0;
    assert(text::bytes_of(r@) =~= margin(0));
    while i < depth
        invariant
            i <= depth,
            text::bytes_of(r@) == margin(i as int),
        decreases depth - i,
    {
        put(&mut r, "  ");
        i += 1;
    }
    let ghost front = margin(depth as int);
    match st.colon {
        Some(c) => {
            let ghost h = syntax::cut(s, st.span);
            let key = substr(source, st.span.start, c);
            let rest = substr(source, c, st.span.end);
            let value = trimmed(rest);
            assert(key.spec_bytes() =~= text::upto(h, c - st.span.start));
            assert(rest.spec_bytes() =~= text::from(h, c - st.span.start));
            put(&mut r, key);
            if value.as_bytes().len() > 0 {
                put(&mut r, " ");
                put(&mut r, value);
            }
            assert(text::bytes_of(r@) =~= front + tidy(h, colon_in(*st)));
        },
        None => {
            put(&mut r, span_text(source, st.span));
        },
    }
    r
}

/// The lines of a document, as they are to be.
fn render(source: &str, lines: &[Line], stmts: &[Stmt]) -> (out: Vec<String>)
    requires
        indent::are_lines(lines@, source.spec_bytes()),
        stmts@ == syntax::stmts(source.spec_bytes()),
    ensures
        have_texts(out@, rendered(source.spec_bytes())),
{
    let ghost s = source.spec_bytes();
    let n: usize = source.as_bytes().len();
    let depth = depths(source, stmts);
    let ghost whole = rendered(s);
    let mut out: Vec<String> = Vec::new();
    let mut i: usize = 0;
    let mut k: usize = 0;
    proof {
        nodes::lemma_document(source);
        lemma_rendered_len(s, stmts@, 0, 0);
        assert(whole.skip(0) =~= whole);
    }
    while i < lines.len()
        invariant
            s == source.spec_bytes(),
            whole == rendered(s),
            whole.len() == lines@.len(),
            indent::are_lines(lines@, s),
            stmts@ == syntax::stmts(s),
            forall|j: int| 0 <= j < stmts@.len() ==> syntax::stmt_ok(s, #[trigger] stmts@[j]),
            depth@.len() == stmts@.len(),
            forall|j: int| 0 <= j < depth@.len() ==> #[trigger] depth@[j] == depth_of(stmts@, j),
            i <= lines@.len(),
            k <= stmts@.len(),
            out@.len() == i,
            forall|j: int| 0 <= j < i ==> text::bytes_of((#[trigger] out@[j])@) == whole[j],
            whole.skip(i as int) == rendered_from(s, stmts@, i as int, k as int),
        decreases lines@.len() - i,
    {
        let line = &lines[i];
        let ghost k0 = k;
        assert(whole[i as int] == whole.skip(i as int)[0]);
        let raw: bool = k > 0 && stmts[k - 1].body.is_some() && i <= stmts[k - 1].last_line;
        if raw {
            out.push(line.text.to_owned());
        } else if k < stmts.len() && stmts[k].line == i {
            assert(syntax::stmt_ok(s, stmts@[k as int]));
            assert(depth@[k as int] == depth_of(stmts@, k as int));
            out.push(format_header_line(source, &stmts[k], depth[k]));
            k += 1;
        } else if trimmed(line.text).as_bytes().len() == 0 {
            out.push(String::new());
            assert(text::bytes_of(out@[i as int]@) =~= Seq::empty());
        } else {
            out.push(line.text.to_owned());
        }
        proof {
            let rest = rendered_from(s, stmts@, i + 1, k as int);
            assert(whole.skip(i as int) =~= seq![whole[i as int]] + rest);
            assert(whole.skip(i + 1) =~= whole.skip(i as int).skip(1));
            assert((seq![whole[i as int]] + rest).skip(1) =~= rest);
        }
        i += 1;
    }
    out
}

/// Whether line `i` lies in the body of a block scalar.
fn is_in_body(stmts: &[Stmt], i: usize) -> (r: bool)
    ensures
        r == in_body(stmts@, i as int),
{
    let mut k: usize = 0;
    while k < stmts.len()
        invariant
            k <= stmts@.len(),
            forall|j: int|
                0 <= j < k ==> !((#[trigger] stmts@[j]).body is Some && stmts@[j].line < i
                    <= stmts@[j].last_line),
        decreases stmts@.len() - k,
    {
        let st = &stmts[k];
        if st.body.is_some() && st.line < i && i <= st.last_line {
            assert(stmts@[k as int].body is Some);
            return true;
        }
        k += 1;
    }
    false
}

/// Whether the line of a statement announces a block scalar.
fn is_announcing(source: &str, st: &Stmt) -> (r: bool)
    requires
        syntax::stmt_ok(source.spec_bytes(), *st),
    ensures
        r == announces(syntax::cut(source.spec_bytes(), st.span)),
{
    reveal(announces);
    let h = span_text(source, st.span);
    let n: usize = h.as_bytes().len();
    if is_comment(h) {
        return false;
    }
    proof {
        text::lemma_valid(h);
        syntax::lemma_head(h.spec_bytes());
    }
    let hd = parse_head(h);
    match hd.value {
        Some(v) => hd.kind != StmtKind::StyleHeader && is_block_scalar_marker(span_text(h, v)),
        None => false,
    }
}

/// Whether each line of the body of statement `k`, which is at the given depth, stays in that body.
fn is_deep_body(source: &str, lines: &[Line], stmts: &[Stmt], k: usize, depth: usize) -> (r: bool)
    requires
        indent::are_lines(lines@, source.spec_bytes()),
        stmts@ == syntax::stmts(source.spec_bytes()),
        k < stmts@.len(),
        syntax::stmt_ok(source.spec_bytes(), stmts@[k as int]),
    ensures
        r == forall|j: int|
            stmts@[k as int].line < j <= stmts@[k as int].last_line ==> text::trim(
                #[trigger] indent::texts(source.spec_bytes())[j],
            ).len() == 0 || syntax::width(indent::texts(source.spec_bytes())[j]) > 2 * depth,
{
    let ghost s = source.spec_bytes();
    let last: usize = stmts[k].last_line;
    let mut j: usize = stmts[k].line;
    while j < last
        invariant
            s == source.spec_bytes(),
            indent::are_lines(lines@, s),
            stmts@ == syntax::stmts(s),
            k < stmts@.len(),
            last == stmts@[k as int].last_line,
            last < lines@.len(),
            stmts@[k as int].line <= j <= last,
            forall|x: int|
                stmts@[k as int].line < x <= j ==> text::trim(#[trigger] indent::texts(s)[x]).len()
                    == 0 || syntax::width(indent::texts(s)[x]) > 2 * depth,
        decreases last - j,
    {
        j += 1;
        let t = lines[j].text;
        assert(t.spec_bytes() == indent::texts(s)[j as int]);
        let w: usize = line_width(t);
        if trimmed(t).as_bytes().len() > 0 && w - w / 2 <= depth {
            assert(syntax::width(indent::texts(s)[j as int]) <= 2 * depth);
            return false;
        }
    }
    true
}

/// Whether formatting a document leaves each block scalar with its lines.
fn keeps_scalars(source: &str, lines: &[Line], stmts: &[Stmt]) -> (r: bool)
    requires
        indent::are_lines(lines@, source.spec_bytes()),
        stmts@ == syntax::stmts(source.spec_bytes()),
    ensures
        r == (deep_bodies(source.spec_bytes()) && scalars_are_leaves(source.spec_bytes())),
{
    reveal(deep_bodies);
    reveal(scalars_are_leaves);
    let ghost s = source.spec_bytes();
    let n: usize = source.as_bytes().len();
    let depth = depths(source, stmts);
    proof {
        nodes::lemma_document(source);
    }
    let mut k: usize = 0;
    while k < stmts.len()
        invariant
            s == source.spec_bytes(),
            indent::are_lines(lines@, s),
            stmts@ == syntax::stmts(s),
            forall|i: int| 0 <= i < stmts@.len() ==> syntax::stmt_ok(s, #[trigger] stmts@[i]),
            depth@.len() == stmts@.len(),
            forall|i: int| 0 <= i < depth@.len() ==> #[trigger] depth@[i] == depth_of(stmts@, i),
            k <= stmts@.len(),
            forall|i: int, j: int|
                #![trigger stmts@[i], indent::texts(s)[j]]
                0 <= i < k && stmts@[i].body is Some && stmts@[i].line < j <= stmts@[i].last_line
                    ==> text::trim(indent::texts(s)[j]).len() == 0 || syntax::width(
                    indent::texts(s)[j],
                ) > 2 * depth_of(stmts@, i),
            forall|i: int, p: int|
                #![trigger stmts@[i], stmts@[p]]
                0 <= p < i < k && stmts@[i].parent == Some(p as usize) ==> !announces(
                    syntax::cut(s, stmts@[p].span),
                ),
        decreases stmts@.len() - k,
    {
        let st = &stmts[k];
        assert(depth@[k as int] == depth_of(stmts@, k as int));
        if st.body.is_some() && !is_deep_body(source, lines, stmts, k, depth[k]) {
            proof {
                reveal(deep_bodies);
                let j = choose|j: int|
                    st.line < j <= st.last_line && !(text::trim(
                        #[trigger] indent::texts(s)[j],
                    ).len() == 0 || syntax::width(indent::texts(s)[j]) > 2 * depth@[k as int]);
                assert(stmts@[k as int].body is Some);
            }
            return false;
        }
        if let Some(p) = st.parent {
            if p < k && is_announcing(source, &stmts[p]) {
                proof {
                    reveal(scalars_are_leaves);
                    assert(stmts@[k as int].parent == Some(p));
                }
                return false;
            }
        }
        k += 1;
    }
    true
}

/// The formatted document, or `None` where it is not formatted at all.
pub fn format(source: &str) -> (r: Option<String>)
    ensures
        match r {
            Some(t) => can_format(source.spec_bytes()) && text::bytes_of(t@) == formatted(
                source.spec_bytes(),
            ),
            None => !can_format(source.spec_bytes()),
        },
{
    let ghost s = source.spec_bytes();
    let tree = match SyntaxTree::parse(source) {
        Some(tree) => tree,
        None => {
            return None;
        },
    };
    if tree.has_error() {
        return None;
    }
    let stmts = tree.statements();
    let lines = split_lines(source);
    if !keeps_scalars(source, lines.as_slice(), stmts) {
        return None;
    }
    let out = render(source, lines.as_slice(), stmts);
    proof {
        lemma_rendered_len(s, stmts@, 0, 0);
        lemma_content_end(indent::texts(s), indent::texts(s).len() as int);
    }
    let mut n: usize = lines.len();
    while n > 0 && trimmed(lines[n - 1].text).as_bytes().len() == 0
        invariant
            s == source.spec_bytes(),
            indent::are_lines(lines@, s),
            n <= lines@.len(),
            content_end(indent::texts(s), n as int) == content_end(
                indent::texts(s),
                indent::texts(s).len() as int,
            ),
        decreases n,
    {
        n -= 1;
    }
    let mut r = String::new();
    let mut i: usize = 0;
    assert(text::bytes_of(r@) =~= stacked(rendered(s), 0));
    while i < n
        invariant
            i <= n <= out@.len(),
            have_texts(out@, rendered(s)),
            text::bytes_of(r@) == stacked(rendered(s), i as int),
        decreases n - i,
    {
        put(&mut r, out[i].as_str());
        put(&mut r, "\n");
        i += 1;
    }
    assert(stacked(rendered(s), n as int) + Seq::<u8>::empty() =~= stacked(rendered(s), n as int));
    if n > 0 && n < lines.len() && is_in_body(stmts, n - 1) {
        proof {
            text::lemma_valid(source);
            indent::lemma_line_boundary(s, n as int);
            assert(lines@[n as int].start == indent::lines(s)[n as int].0);
        }
        put(&mut r, str_from(source, lines[n].start));
    }
    Some(r)
}

/// The lines from line `start_line` to line `end_line` that formatting changes, or `None` where the
/// document is not formatted at all.
pub fn format_line_edits(source: &str, start_line: u32, end_line: u32) -> (r: Option<Vec<LineEdit>>)
    ensures
        match r {
            Some(edits) => can_format(source.spec_bytes()) && are_edits(
                edits@,
                edits_between(
                    source.spec_bytes(),
                    start_line as int,
                    if end_line < indent::lines(source.spec_bytes()).len() {
                        end_line + 1
                    } else {
                        indent::lines(source.spec_bytes()).len() as int
                    },
                ),
            ),
            None => !can_format(source.spec_bytes()),
        },
{
    let ghost s = source.spec_bytes();
    let tree = match SyntaxTree::parse(source) {
        Some(tree) => tree,
        None => {
            return None;
        },
    };
    if tree.has_error() {
        return None;
    }
    let n: usize = source.as_bytes().len();
    let lines = split_lines(source);
    if !keeps_scalars(source, lines.as_slice(), tree.statements()) {
        return None;
    }
    let out = render(source, lines.as_slice(), tree.statements());
    proof {
        lemma_rendered_len(s, syntax::stmts(s), 0, 0);
    }
    let last: usize = end_line as usize;
    let end: usize = if last < lines.len() {
        last + 1
    } else {
        lines.len()
    };
    let from: usize = start_line as usize;
    let mut edits: Vec<LineEdit> = Vec::new();
    let mut i: usize = from;
    while i < end
        invariant
            from <= i,
            end <= lines@.len(),
            i <= end || i == from,
            s.len() <= usize::MAX,
            indent::are_lines(lines@, s),
            have_texts(out@, rendered(s)),
            out@.len() == lines@.len(),
            are_edits(edits@, edits_between(s, from as int, i as int)),
        decreases end - i,
    {
        let line = &lines[i];
        assert(lines@[i as int].text.spec_bytes() == indent::texts(s)[i as int]);
        assert(text::bytes_of(out@[i as int]@) == rendered(s)[i as int]);
        if !same_str(out[i].as_str(), line.text) {
            edits.push(
                LineEdit {
                    span: ByteSpan::new(line.start, line.start + line.text.as_bytes().len()),
                    text: out[i].clone(),
                },
            );
        }
        i += 1;
    }
    Some(edits)
}

} // verus!
