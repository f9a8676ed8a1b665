//! Formatting a formatted document changes nothing.
//!
//! The proof looks at a document as a list of lines. What kind of statement each line starts, how far
//! it reaches and how deep it lies follows from the lines alone (the first part). A formatted line
//! starts a statement of the same kind that reaches as far and lies as deep (the second part), so
//! that formatting it once more yields the same line (the third part).

use crate::ascii;
use crate::format::{announces, can_format, deep_bodies, scalars_are_leaves};
use crate::indent;
use crate::syntax;
use crate::syntax::{Head, Stmt, StmtKind};
use crate::text;
use vstd::prelude::*;
use vstd::string::*;
use vstd::utf8::*;

verus! {

// ---------------------------------------------------------------------------------------------
// Statements from lines
// ---------------------------------------------------------------------------------------------

/// What the lines of a statement have to do with its tokens left out.
pub struct Shape {
    /// What kind of statement it is.
    pub kind: StmtKind,
    /// The line on which it starts.
    pub line: int,
    /// The number of spaces and tabs in front.
    pub width: int,
    /// The line on which it ends.
    pub last_line: int,
    /// Whether it has the body of a block scalar.
    pub body: bool,
}

/// The shape of a statement.
pub open spec fn shape_of(st: Stmt) -> Shape {
    Shape {
        kind: st.kind,
        line: st.line as int,
        width: st.width as int,
        last_line: st.last_line as int,
        body: st.body is Some,
    }
}

/// Whether a line is blank.
pub open spec fn blank(t: Seq<u8>) -> bool {
    text::trim(t).len() == 0
}

/// The last line of the body of a block scalar whose marker line is indented by `w`, from line `j`
/// on, where `last` is the last one found so far.
pub open spec fn reach(lines: Seq<Seq<u8>>, w: int, j: int, last: int) -> int
    decreases lines.len() - j,
{
    if !(0 <= j < lines.len()) {
        last
    } else if blank(lines[j]) {
        reach(lines, w, j + 1, last)
    } else if syntax::width(lines[j]) > w {
        reach(lines, w, j + 1, j)
    } else {
        last
    }
}

/// The first bracket of a line at or after column `c`.
pub open spec fn bracket(t: Seq<u8>, c: int) -> Option<int>
    decreases t.len() - c,
{
    if !(0 <= c < t.len()) {
        None
    } else if t[c] == ascii::OPEN_BRACKET || t[c] == ascii::CLOSE_BRACKET {
        Some(c)
    } else {
        bracket(t, c + 1)
    }
}

/// The line and column of the first bracket at or after column `c` of line `j`, when it is a `]`.
pub open spec fn scan(lines: Seq<Seq<u8>>, j: int, c: int) -> Option<(int, int)>
    decreases lines.len() - j,
{
    if !(0 <= j < lines.len()) {
        None
    } else {
        match bracket(lines[j], c) {
            Some(e) => if lines[j][e] == ascii::CLOSE_BRACKET {
                Some((j, e))
            } else {
                None
            },
            None => scan(lines, j + 1, 0),
        }
    }
}

/// The line on which the array ends whose items start at column `c` of line `j`.
pub open spec fn array_end(lines: Seq<Seq<u8>>, j: int, c: int) -> Option<int> {
    match scan(lines, j, c) {
        Some(p) => if blank(text::from(lines[p.0], p.1 + 1)) {
            Some(p.0)
        } else {
            None
        },
        None => None,
    }
}

/// The shape of a statement on line `i` that takes that line alone.
pub open spec fn plain_shape(lines: Seq<Seq<u8>>, i: int, kind: StmtKind) -> Shape {
    Shape { kind, line: i, width: syntax::width(lines[i]), last_line: i, body: false }
}

/// The shape of the statement that starts on line `i`, which says `hd`.
pub open spec fn shape_with(lines: Seq<Seq<u8>>, i: int, h: Seq<u8>, hd: Head) -> Shape {
    let plain = plain_shape(lines, i, hd.kind);
    match hd.value {
        Some(v) => if hd.kind != StmtKind::StyleHeader && indent::marker(syntax::cut(h, v)) {
            let last = reach(lines, syntax::width(lines[i]), i + 1, i);
            Shape { last_line: last, body: last > i, ..plain }
        } else if hd.kind == StmtKind::Property && h[v.start as int] == ascii::OPEN_BRACKET {
            match array_end(lines, i, text::skip_ws(lines[i], 0) + v.start + 1) {
                Some(last) => Shape { last_line: last, ..plain },
                None => plain_shape(lines, i, StmtKind::Error),
            }
        } else {
            plain
        },
        None => plain,
    }
}

/// The shape of the statement that starts on line `i`.
pub open spec fn shape_at(lines: Seq<Seq<u8>>, i: int) -> Shape {
    let h = text::trim(lines[i]);
    if indent::comment(h) {
        plain_shape(lines, i, StmtKind::Comment)
    } else {
        shape_with(lines, i, h, syntax::head(h))
    }
}

/// The shapes of the statements from line `i` on.
pub open spec fn shapes_from(lines: Seq<Seq<u8>>, i: int) -> Seq<Shape>
    decreases lines.len() - i,
{
    if !(0 <= i < lines.len()) {
        Seq::empty()
    } else if blank(lines[i]) {
        shapes_from(lines, i + 1)
    } else {
        let shape = shape_at(lines, i);
        if !(i <= shape.last_line < lines.len()) {
            seq![shape]
        } else {
            seq![shape] + shapes_from(lines, shape.last_line + 1)
        }
    }
}

/// What a line holds without the white space around it.
proof fn lemma_text_at(s: Seq<u8>, i: int)
    requires
        valid_utf8(s),
        0 <= i < indent::lines(s).len(),
    ensures
        0 <= syntax::text_at(s, i).0 <= syntax::text_at(s, i).1 <= s.len(),
        syntax::text_at(s, i).0 == indent::lines(s)[i].0 + text::skip_ws(indent::texts(s)[i], 0),
        syntax::text_at(s, i).1 <= indent::lines(s)[i].1,
        s.subrange(syntax::text_at(s, i).0, syntax::text_at(s, i).1) == text::trim(
            indent::texts(s)[i],
        ),
        valid_utf8(indent::texts(s)[i]),
        valid_utf8(text::trim(indent::texts(s)[i])),
        0 <= text::skip_ws(indent::texts(s)[i], 0),
        text::skip_ws(indent::texts(s)[i], 0) + text::trim(indent::texts(s)[i]).len()
            <= indent::texts(s)[i].len(),
{
    let line = indent::lines(s)[i];
    text::lemma_skip_ws_grows(indent::texts(s)[i], 0);
    indent::lemma_line_boundary(s, i);
    text::lemma_trim_at(s, line.0, line.1);
    text::lemma_part(s, line.0, line.1);
    text::lemma_part(s, syntax::text_at(s, i).0, syntax::text_at(s, i).1);
}

proof fn lemma_blank_at(s: Seq<u8>, i: int)
    requires
        valid_utf8(s),
        0 <= i < indent::lines(s).len(),
    ensures
        syntax::blank_at(s, i) == blank(indent::texts(s)[i]),
{
    lemma_text_at(s, i);
}

proof fn lemma_reach(s: Seq<u8>, w: int, j: int, last: int)
    requires
        valid_utf8(s),
        0 <= j,
    ensures
        syntax::body_last(s, w, j, last) == reach(indent::texts(s), w, j, last),
    decreases indent::lines(s).len() - j,
{
    if j < indent::lines(s).len() {
        lemma_blank_at(s, j);
        lemma_reach(s, w, j + 1, last);
        lemma_reach(s, w, j + 1, j);
    }
}

/// A line ends at a line feed behind which the next one starts, or the text ends with it.
proof fn lemma_line(s: Seq<u8>, j: int)
    requires
        0 <= j < indent::lines(s).len(),
    ensures
        0 <= indent::lines(s)[j].0 <= indent::lines(s)[j].1 <= s.len(),
        indent::lines(s)[j].0 < s.len(),
        indent::texts(s).len() == indent::lines(s).len(),
        indent::texts(s)[j] == s.subrange(indent::lines(s)[j].0, indent::lines(s)[j].1),
        j + 1 < indent::lines(s).len() ==> indent::lines(s)[j + 1].0 == indent::lines(s)[j].1 + 1
            && indent::lines(s)[j].1 < s.len() && s[indent::lines(s)[j].1] == ascii::NEWLINE,
        j + 1 == indent::lines(s).len() ==> indent::lines(s)[j].1 + 1 >= s.len(),
        indent::lines(s)[j].1 < s.len() ==> s[indent::lines(s)[j].1] == ascii::NEWLINE,
        forall|x: int|
            indent::lines(s)[j].0 <= x < indent::lines(s)[j].1 ==> #[trigger] s[x]
                != ascii::NEWLINE,
{
    let line = indent::lines(s)[j];
    indent::lemma_lines(s, 0);
    assert(0 <= line.0 <= line.1 <= s.len());
    if j + 1 < indent::lines(s).len() {
        let next = indent::lines(s)[j + 1];
        assert(next.0 == line.1 + 1);
        assert(next.0 < s.len());
    } else {
        assert(s.len() > 0);
        syntax::lemma_last_line_ends(s, 0);
    }
}

/// Looking for the end of an array in the text or in the lines comes to the same.
proof fn lemma_scan(s: Seq<u8>, j: int, c: int)
    requires
        0 <= j < indent::lines(s).len(),
        0 <= c <= indent::texts(s)[j].len(),
    ensures
        match scan(indent::texts(s), j, c) {
            Some(p) => syntax::closing(s, indent::lines(s)[j].0 + c) == Some(
                indent::lines(s)[p.0].0 + p.1,
            ) && j <= p.0 < indent::lines(s).len() && 0 <= p.1 < indent::texts(s)[p.0].len(),
            None => syntax::closing(s, indent::lines(s)[j].0 + c) is None,
        },
    decreases s.len() - indent::lines(s)[j].0 - c,
{
    let texts = indent::texts(s);
    let line = indent::lines(s)[j];
    lemma_line(s, j);
    if c < texts[j].len() {
        assert(texts[j][c] == s[line.0 + c]);
        if texts[j][c] != ascii::OPEN_BRACKET && texts[j][c] != ascii::CLOSE_BRACKET {
            lemma_scan(s, j, c + 1);
            assert(bracket(texts[j], c) == bracket(texts[j], c + 1));
        }
    } else {
        assert(bracket(texts[j], c) is None);
        if j + 1 < indent::lines(s).len() {
            lemma_line(s, j + 1);
            lemma_scan(s, j + 1, 0);
            assert(syntax::closing(s, line.1) == syntax::closing(s, line.1 + 1));
        } else if line.1 < s.len() {
            assert(syntax::closing(s, line.1) == syntax::closing(s, line.1 + 1));
            assert(syntax::closing(s, line.1 + 1) is None);
        }
    }
}

/// The line of an offset that lies on it.
proof fn lemma_line_at(s: Seq<u8>, offset: int, l: int, k: int)
    requires
        0 <= l < k <= indent::lines(s).len(),
        indent::lines(s)[l].0 <= offset <= indent::lines(s)[l].1,
    ensures
        syntax::line_of(indent::lines(s), offset, k) == l,
    decreases k,
{
    if k - 1 > l {
        syntax::lemma_lines_ordered(s, l, k - 1);
        lemma_line_at(s, offset, l, k - 1);
    }
}

proof fn lemma_find_newline(s: Seq<u8>, i: int, e: int)
    requires
        0 <= i <= e <= s.len(),
        e < s.len() ==> s[e] == ascii::NEWLINE,
        forall|j: int| i <= j < e ==> #[trigger] s[j] != ascii::NEWLINE,
    ensures
        text::line_end(s, i) == e,
    decreases e - i,
{
    if i < e {
        lemma_find_newline(s, i + 1, e);
    }
}

/// An array ends on the same line in the text and in the lines.
proof fn lemma_array(s: Seq<u8>, i: int, c: int)
    requires
        0 <= i < indent::lines(s).len(),
        1 <= c <= indent::texts(s)[i].len(),
    ensures
        match array_end(indent::texts(s), i, c) {
            Some(l) => syntax::array_close(s, indent::lines(s)[i].0 + c - 1) matches Some(e)
                && syntax::line_of(indent::lines(s), e, indent::lines(s).len() as int) == l,
            None => syntax::array_close(s, indent::lines(s)[i].0 + c - 1) is None,
        },
{
    let texts = indent::texts(s);
    let lines = indent::lines(s);
    lemma_scan(s, i, c);
    if let Some(p) = scan(texts, i, c) {
        let l = p.0;
        let e = lines[l].0 + p.1;
        lemma_line(s, l);
        lemma_find_newline(s, e + 1, lines[l].1);
        assert(s.subrange(e + 1, lines[l].1) =~= text::from(texts[l], p.1 + 1));
        lemma_line_at(s, e, l, lines.len() as int);
    }
}

/// The value of a line lies in it.
proof fn lemma_value_in(h: Seq<u8>)
    requires
        valid_utf8(h),
        0 < h.len() <= usize::MAX,
    ensures
        syntax::head(h).value matches Some(v) ==> v.start < v.end <= h.len(),
{
    syntax::lemma_head(h);
}

proof fn lemma_shape_at(s: Seq<u8>, i: int)
    requires
        valid_utf8(s),
        s.len() <= usize::MAX,
        0 <= i < indent::lines(s).len(),
        !syntax::blank_at(s, i),
    ensures
        shape_of(syntax::stmt_at(s, i)) == shape_at(indent::texts(s), i),
{
    let texts = indent::texts(s);
    let h = text::trim(texts[i]);
    lemma_text_at(s, i);
    lemma_line(s, i);
    syntax::lemma_stmt_at(s, i);
    syntax::lemma_last_line(s, i);
    syntax::lemma_lines_count(s, 0);
    if !indent::comment(h) {
        let hd = syntax::head(h);
        lemma_value_in(h);
        lemma_shape_with(s, i, h, hd);
    }
}

proof fn lemma_shape_with(s: Seq<u8>, i: int, h: Seq<u8>, hd: Head)
    requires
        valid_utf8(s),
        s.len() <= usize::MAX,
        0 <= i < indent::lines(s).len() <= usize::MAX,
        h == text::trim(indent::texts(s)[i]),
        hd.value matches Some(v) ==> v.start < v.end <= h.len(),
        syntax::width_at(s, i) <= usize::MAX,
        0 <= syntax::width_at(s, i),
        syntax::stmt_with(s, i, h, hd).last_line < indent::lines(s).len(),
    ensures
        shape_of(syntax::stmt_with(s, i, h, hd)) == shape_with(indent::texts(s), i, h, hd),
{
    let texts = indent::texts(s);
    lemma_text_at(s, i);
    lemma_line(s, i);
    if let Some(v) = hd.value {
        if hd.kind != StmtKind::StyleHeader && indent::marker(syntax::cut(h, v)) {
            lemma_reach(s, syntax::width_at(s, i), i + 1, i);
            syntax::lemma_body_last(s, syntax::width_at(s, i), i + 1, i);
        } else if hd.kind == StmtKind::Property && h[v.start as int] == ascii::OPEN_BRACKET {
            let c = text::skip_ws(texts[i], 0) + v.start + 1;
            lemma_array(s, i, c);
            let p = v.start + syntax::text_at(s, i).0;
            assert(p == indent::lines(s)[i].0 + c - 1);
            if let Some(e) = syntax::array_close(s, p) {
                syntax::lemma_closing(s, p + 1);
                syntax::lemma_line_of(s, e, i, indent::lines(s).len() as int);
            }
        }
    }
}

/// What the statements of a document look like follows from its lines.
proof fn lemma_shapes(s: Seq<u8>, i: int)
    requires
        valid_utf8(s),
        s.len() <= usize::MAX,
        0 <= i,
    ensures
        syntax::stmts_from(s, i).map_values(|st: Stmt| shape_of(st)) == shapes_from(
            indent::texts(s),
            i,
        ),
    decreases indent::lines(s).len() - i,
{
    let f = |st: Stmt| shape_of(st);
    let texts = indent::texts(s);
    assert(texts.len() == indent::lines(s).len());
    if i < indent::lines(s).len() {
        lemma_blank_at(s, i);
        if syntax::blank_at(s, i) {
            lemma_shapes(s, i + 1);
        } else {
            let st = syntax::stmt_at(s, i);
            syntax::lemma_last_line(s, i);
            lemma_shape_at(s, i);
            lemma_shapes(s, st.last_line + 1);
            let rest = syntax::stmts_from(s, st.last_line + 1);
            assert((seq![st] + rest).map_values(f) =~= seq![shape_of(st)] + rest.map_values(f));
        }
    } else {
        assert(syntax::stmts_from(s, i).map_values(f) =~= shapes_from(texts, i));
    }
}

// ---------------------------------------------------------------------------------------------
// The lines of a formatted document
// ---------------------------------------------------------------------------------------------

/// The texts of the lines of `s` from offset `i` on.
pub open spec fn texts_from(s: Seq<u8>, i: int) -> Seq<Seq<u8>> {
    indent::lines_from(s, i).map_values(|p: (int, int)| s.subrange(p.0, p.1))
}

/// The bytes of the pieces of white space that formatting puts in.
proof fn lemma_white_space()
    ensures
        "\n".spec_bytes() == seq![ascii::NEWLINE],
        " ".spec_bytes() == seq![ascii::SPACE],
        "  ".spec_bytes() == seq![ascii::SPACE, ascii::SPACE],
{
    reveal_strlit("\n");
    reveal_strlit(" ");
    reveal_strlit("  ");
    is_ascii_chars_encode_utf8("\n"@);
    is_ascii_chars_encode_utf8(" "@);
    is_ascii_chars_encode_utf8("  "@);
    assert("\n".spec_bytes() =~= seq![ascii::NEWLINE]);
    assert(" ".spec_bytes() =~= seq![ascii::SPACE]);
    assert("  ".spec_bytes() =~= seq![ascii::SPACE, ascii::SPACE]);
}

/// Whether no line holds a line feed.
pub open spec fn unbroken(lines: Seq<Seq<u8>>) -> bool {
    forall|j: int, x: int|
        0 <= j < lines.len() && 0 <= x < lines[j].len() ==> #[trigger] lines[j][x] != ascii::NEWLINE
}

proof fn lemma_stacked_len(r: Seq<Seq<u8>>, n: int, j: int)
    requires
        0 <= j <= n,
    ensures
        crate::format::stacked(r, j).len() <= crate::format::stacked(r, n).len(),
        j < n ==> crate::format::stacked(r, j).len() + r[j].len() + 1 <= crate::format::stacked(
            r,
            n,
        ).len(),
        j < n ==> crate::format::stacked(r, j + 1).len() == crate::format::stacked(r, j).len()
            + r[j].len() + 1,
    decreases n,
{
    lemma_white_space();
    if j < n - 1 {
        lemma_stacked_len(r, n - 1, j);
    }
}

/// Where line `j` lies in the stack.
proof fn lemma_stacked_at(r: Seq<Seq<u8>>, n: int, j: int)
    requires
        0 <= j < n <= r.len(),
    ensures
        ({
            let t = crate::format::stacked(r, n);
            let a = crate::format::stacked(r, j).len() as int;
            let b = a + r[j].len();
            b < t.len() && t.subrange(a, b) == r[j] && t[b] == ascii::NEWLINE
        }),
    decreases n,
{
    lemma_white_space();
    lemma_stacked_len(r, n, j);
    let t = crate::format::stacked(r, n);
    let front = crate::format::stacked(r, n - 1);
    let a = crate::format::stacked(r, j).len() as int;
    let b = a + r[j].len();
    assert(t == front + r[n - 1] + "\n".spec_bytes());
    if j < n - 1 {
        lemma_stacked_at(r, n - 1, j);
        assert(t.subrange(a, b) =~= front.subrange(a, b));
        assert(t[b] == front[b]);
    } else {
        assert(t.subrange(a, b) =~= r[j]);
    }
}

proof fn lemma_texts_stacked(r: Seq<Seq<u8>>, n: int, q: Seq<u8>, j: int)
    requires
        0 <= j <= n <= r.len(),
        unbroken(r),
    ensures
        ({
            let t = crate::format::stacked(r, n) + q;
            let a = crate::format::stacked(r, j).len() as int;
            let z = crate::format::stacked(r, n).len() as int;
            &&& texts_from(t, a) == r.subrange(j, n) + texts_from(t, z)
            &&& indent::lines_from(t, a).len() == n - j + indent::lines_from(t, z).len()
            &&& indent::lines_from(t, a).skip(n - j) == indent::lines_from(t, z)
        }),
    decreases n - j,
{
    let t = crate::format::stacked(r, n) + q;
    let a = crate::format::stacked(r, j).len() as int;
    let z = crate::format::stacked(r, n).len() as int;
    if j == n {
        assert(r.subrange(j, n) + texts_from(t, z) =~= texts_from(t, z));
        assert(indent::lines_from(t, a).skip(0) =~= indent::lines_from(t, z));
    } else {
        let b = a + r[j].len();
        lemma_stacked_at(r, n, j);
        lemma_stacked_len(r, n, j);
        assert forall|x: int| a <= x < b implies #[trigger] t[x] != ascii::NEWLINE by {
            assert(r[j][x - a] == crate::format::stacked(r, n).subrange(a, b)[x - a]);
        }
        lemma_find_newline(t, a, b);
        text::lemma_find_byte(t, ascii::NEWLINE, a);
        assert(t[b] == ascii::NEWLINE);
        assert(text::find_byte(t, ascii::NEWLINE, a) == Some(b));
        lemma_texts_stacked(r, n, q, j + 1);
        let rest = indent::lines_from(t, b + 1);
        let all = indent::lines_from(t, a);
        assert(all == seq![(a, b)] + rest);
        assert(t.subrange(a, b) =~= r[j]);
        let f = |p: (int, int)| t.subrange(p.0, p.1);
        assert((seq![(a, b)] + rest).map_values(f) =~= seq![t.subrange(a, b)] + rest.map_values(f));
        assert(seq![r[j]] + (r.subrange(j + 1, n) + texts_from(t, z)) =~= r.subrange(j, n)
            + texts_from(t, z));
        assert(all.skip(n - j) =~= rest.skip(n - j - 1));
    }
}

proof fn lemma_find_shifted(a: Seq<u8>, q: Seq<u8>, c: u8, i: int)
    requires
        0 <= i,
    ensures
        text::find_byte(a + q, c, a.len() + i) == match text::find_byte(q, c, i) {
            Some(k) => Some(a.len() + k),
            None => None,
        },
    decreases q.len() - i,
{
    if i < q.len() {
        assert((a + q)[a.len() + i] == q[i]);
        lemma_find_shifted(a, q, c, i + 1);
    }
}

/// The lines of what stands behind something else.
proof fn lemma_texts_shifted(a: Seq<u8>, q: Seq<u8>, i: int)
    requires
        0 <= i <= q.len(),
    ensures
        texts_from(a + q, a.len() + i) == texts_from(q, i),
        indent::lines_from(a + q, a.len() + i).len() == indent::lines_from(q, i).len(),
    decreases q.len() - i,
{
    let t = a + q;
    let f = |p: (int, int)| t.subrange(p.0, p.1);
    let g = |p: (int, int)| q.subrange(p.0, p.1);
    lemma_find_shifted(a, q, ascii::NEWLINE, i);
    text::lemma_find_byte(q, ascii::NEWLINE, i);
    if i < q.len() {
        match text::find_byte(q, ascii::NEWLINE, i) {
            Some(k) => {
                lemma_texts_shifted(a, q, k + 1);
                let rest = indent::lines_from(t, a.len() + k + 1);
                let own = indent::lines_from(q, k + 1);
                assert(t.subrange(a.len() + i, a.len() + k) =~= q.subrange(i, k));
                assert((seq![(a.len() + i, a.len() + k)] + rest).map_values(f) =~= seq![
                    t.subrange(a.len() + i, a.len() + k),
                ] + rest.map_values(f));
                assert((seq![(i, k)] + own).map_values(g) =~= seq![q.subrange(i, k)]
                    + own.map_values(g));
            },
            None => {
                assert(t.subrange(a.len() + i, t.len() as int) =~= q.subrange(i, q.len() as int));
                assert(texts_from(t, a.len() + i) =~= texts_from(q, i));
            },
        }
    } else {
        assert(texts_from(t, a.len() + i) =~= texts_from(q, i));
    }
}

/// The lines of the end of a document that starts with a line.
proof fn lemma_texts_behind(s: Seq<u8>, n: int)
    requires
        0 <= n < indent::lines(s).len(),
    ensures
        indent::texts(text::from(s, indent::lines(s)[n].0)) == indent::texts(s).skip(n),
        text::from(s, indent::lines(s)[n].0).len() > 0,
{
    let a = indent::lines(s)[n].0;
    lemma_line(s, n);
    lemma_lines_behind(s, n);
    let front = text::upto(s, a);
    let q = text::from(s, a);
    assert(front + q =~= s);
    lemma_texts_shifted(front, q, 0);
    assert(texts_from(q, 0) =~= indent::texts(q));
    assert(texts_from(s, a) =~= indent::texts(s).skip(n));
}

proof fn lemma_lines_behind(s: Seq<u8>, n: int)
    requires
        0 <= n < indent::lines(s).len(),
    ensures
        indent::lines_from(s, indent::lines(s)[n].0) == indent::lines(s).skip(n),
    decreases n,
{
    if n == 0 {
        indent::lemma_lines(s, 0);
        assert(indent::lines(s).skip(0) =~= indent::lines(s));
    } else {
        lemma_lines_behind(s, n - 1);
        let line = indent::lines(s)[n - 1];
        lemma_line(s, n - 1);
        let here = indent::lines_from(s, line.0);
        assert(here == indent::lines(s).skip(n - 1));
        assert(here[0] == line);
        text::lemma_find_byte(s, ascii::NEWLINE, line.0);
        assert(here == seq![line] + indent::lines_from(s, line.1 + 1));
        assert(indent::lines_from(s, line.1 + 1) =~= here.skip(1));
        assert(here.skip(1) =~= indent::lines(s).skip(n));
    }
}

// ---------------------------------------------------------------------------------------------
// Tidy lines
// ---------------------------------------------------------------------------------------------

/// Whether there is something and no white space around it.
pub open spec fn clean(h: Seq<u8>) -> bool {
    h.len() > 0 && text::ws_len(h, 0) == 0 && text::ws_len_before(h, h.len() as int) == 0
}

proof fn lemma_ws_shifted(a: Seq<u8>, x: Seq<u8>, i: int)
    requires
        0 <= i,
    ensures
        text::ws_len(a + x, a.len() + i) == text::ws_len(x, i),
{
    let t = a + x;
    assert(forall|j: int, c: u8|
        i <= j ==> text::has(t, a.len() + j, c) == #[trigger] text::has(x, j, c)) by {
        assert forall|j: int, c: u8| i <= j implies text::has(t, a.len() + j, c) == #[trigger] text::has(x, j, c) by {
            if j < x.len() {
                assert(t[a.len() + j] == x[j]);
            }
        }
    }
    if i < x.len() {
        assert(t[a.len() + i] == x[i]);
        if i + 2 < x.len() {
            assert(t[a.len() + i + 2] == x[i + 2]);
        }
        assert(text::has(t, a.len() + (i + 1), 0x85) == text::has(x, i + 1, 0x85));
        assert(text::has(t, a.len() + (i + 1), 0xa0) == text::has(x, i + 1, 0xa0));
        assert(text::has(t, a.len() + (i + 1), 0x9a) == text::has(x, i + 1, 0x9a));
        assert(text::has(t, a.len() + (i + 1), 0x80) == text::has(x, i + 1, 0x80));
        assert(text::has(t, a.len() + (i + 1), 0x81) == text::has(x, i + 1, 0x81));
        assert(text::has(t, a.len() + (i + 2), 0x80) == text::has(x, i + 2, 0x80));
        assert(text::has(t, a.len() + (i + 2), 0x9f) == text::has(x, i + 2, 0x9f));
    }
}

proof fn lemma_skip_ws_back_fixed(s: Seq<u8>, j: int)
    requires
        0 <= j <= s.len(),
    ensures
        0 <= text::skip_ws_back(s, j) <= j,
        text::skip_ws_back(s, j) > 0 ==> text::ws_len_before(s, text::skip_ws_back(s, j)) == 0,
    decreases j,
{
    if j > 0 && text::ws_len_before(s, j) > 0 {
        lemma_skip_ws_back_fixed(s, j - text::ws_len_before(s, j));
    }
}

/// What is left when white space is cut off has none around it.
proof fn lemma_trim_clean(t: Seq<u8>)
    requires
        valid_utf8(t),
        text::trim(t).len() > 0,
    ensures
        clean(text::trim(t)),
        valid_utf8(text::trim(t)),
{
    let a = text::skip_ws(t, 0);
    let x = text::trim_start(t);
    let e = text::skip_ws_back(x, x.len() as int);
    let h = text::trim(t);
    text::lemma_ends_boundary(t);
    text::lemma_skip_ws(t, 0);
    text::lemma_boundary(t, a);
    lemma_skip_ws_back_fixed(x, x.len() as int);
    assert(text::upto(t, a) + x =~= t);
    lemma_ws_shifted(text::upto(t, a), x, 0);
    assert(text::ws_len(x, 0) == 0);
    assert(h == x.subrange(0, e));
    text::lemma_ends_boundary(x);
    text::lemma_skip_ws_back(x, x.len() as int);
    text::lemma_boundary(x, e);
}

proof fn lemma_skip_spaces(pre: Seq<u8>, x: Seq<u8>, i: int)
    requires
        0 <= i <= pre.len(),
        forall|j: int| 0 <= j < pre.len() ==> #[trigger] pre[j] == ascii::SPACE,
        text::ws_len(x, 0) == 0,
    ensures
        text::skip_ws(pre + x, i) == pre.len(),
    decreases pre.len() - i,
{
    if i < pre.len() {
        assert((pre + x)[i] == ascii::SPACE);
        lemma_skip_spaces(pre, x, i + 1);
    } else {
        lemma_ws_shifted(pre, x, 0);
    }
}

/// Cutting off white space takes away the spaces in front and nothing else.
proof fn lemma_trim_padded(pre: Seq<u8>, x: Seq<u8>)
    requires
        forall|j: int| 0 <= j < pre.len() ==> #[trigger] pre[j] == ascii::SPACE,
        clean(x),
    ensures
        text::trim(pre + x) == x,
        text::skip_ws(pre + x, 0) == pre.len(),
{
    lemma_skip_spaces(pre, x, 0);
    assert(text::from(pre + x, pre.len() as int) =~= x);
    assert(text::upto(x, x.len() as int) =~= x);
}

proof fn lemma_find_prefix(h: Seq<u8>, g: Seq<u8>, c: u8, n: int, i: int)
    requires
        0 <= i,
        n <= h.len(),
        n <= g.len(),
        forall|j: int| 0 <= j < n ==> #[trigger] g[j] == h[j],
        text::find_byte(h, c, i) matches Some(k) && k < n,
    ensures
        text::find_byte(g, c, i) == text::find_byte(h, c, i),
    decreases n - i,
{
    text::lemma_find_byte(h, c, i);
    assert(g[i] == h[i]);
    if h[i] != c {
        lemma_find_prefix(h, g, c, n, i + 1);
    }
}

/// A tidied line with a key keeps what stands up to the `:` and the value.
proof fn lemma_tidy_key(h: Seq<u8>, k: int)
    requires
        valid_utf8(h),
        clean(h),
        text::find_byte(h, ascii::COLON, 0) == Some(k),
        k >= 1,
    ensures
        ({
            let g = crate::format::tidy(h, Some(k + 1));
            let v = text::trim(text::from(h, k + 1));
            &&& k + 1 <= g.len()
            &&& forall|j: int| 0 <= j <= k ==> #[trigger] g[j] == h[j]
            &&& text::find_byte(g, ascii::COLON, 0) == Some(k)
            &&& text::trim(text::from(g, k + 1)) == v
            &&& clean(g)
            &&& valid_utf8(g)
            &&& crate::format::tidy(g, Some(k + 1)) == g
            &&& v.len() > 0 ==> text::skip_ws(text::from(g, k + 1), 0) == 1 && g.len() == k + 2
                + v.len()
        }),
{
    let c = k + 1;
    let g = crate::format::tidy(h, Some(c));
    let p = text::upto(h, c);
    let v = text::trim(text::from(h, c));
    let sp = " ".spec_bytes();
    text::lemma_find_byte(h, ascii::COLON, 0);
    text::lemma_ascii_boundary(h, k);
    text::lemma_boundary(h, c);
    lemma_white_space();
    assert(valid_utf8(sp)) by {
        encode_utf8_valid_utf8(" "@);
    }
    if v.len() == 0 {
        assert(g == p);
        assert(text::from(g, c).len() == 0);
        lemma_find_prefix(h, g, ascii::COLON, c, 0);
        assert(text::trim(text::from(g, c)).len() == 0) by {
            let e = text::from(g, c);
            assert(text::skip_ws(e, 0) == 0);
        }
        assert(text::trim(text::from(g, c)) =~= v);
        assert(text::upto(g, c) =~= g);
    } else {
        lemma_trim_clean(text::from(h, c));
        assert(g == p + sp + v);
        assert(text::from(g, c) =~= sp + v);
        lemma_trim_padded(sp, v);
        lemma_find_prefix(h, g, ascii::COLON, c, 0);
        assert(text::upto(g, c) =~= p);
        valid_utf8_concat(p, sp);
        valid_utf8_concat(p + sp, v);
        lemma_clean_joined(p, v);
    }
}

proof fn lemma_clean_joined(p: Seq<u8>, v: Seq<u8>)
    requires
        p.len() >= 2,
        p.last() == ascii::COLON,
        text::ws_len(p, 0) == 0,
        clean(v),
    ensures
        clean(p + " ".spec_bytes() + v),
{
    let sp = " ".spec_bytes();
    lemma_white_space();
    let g = p + sp + v;
    let n = g.len() as int;
    assert(forall|j: int| 0 <= j < p.len() ==> g[j] == p[j]);
    assert(g[p.len() as int] == ascii::SPACE);
    assert(forall|j: int| 0 <= j < v.len() ==> #[trigger] v[j] == g[p.len() + 1 + j]);
    assert(v[v.len() - 1] == g[n - 1]);
    if v.len() >= 2 {
        assert(v[v.len() - 2] == g[n - 2]);
    }
    if v.len() >= 3 {
        assert(v[v.len() - 3] == g[n - 3]);
    }
    assert(text::ws_len(g, 0) == 0);
    assert(text::ws_len(g, n - 1) == text::ws_len(v, v.len() - 1));
    assert(text::ws_len(g, n - 2) != 2);
    assert(text::ws_len(g, n - 3) != 3);
}

/// The same key makes the same kind of statement.
proof fn lemma_same_key(h: Seq<u8>, g: Seq<u8>, k: int)
    requires
        valid_utf8(h),
        valid_utf8(g),
        h.len() <= usize::MAX,
        g.len() <= usize::MAX,
        1 <= k < h.len(),
        k < g.len(),
        h[k] == ascii::COLON,
        forall|j: int| 0 <= j <= k ==> #[trigger] g[j] == h[j],
        text::trim(text::from(g, k + 1)) == text::trim(text::from(h, k + 1)),
    ensures
        syntax::colon_head(g, k).kind == syntax::colon_head(h, k).kind,
        syntax::colon_head(g, k).colon == syntax::colon_head(h, k).colon,
        syntax::colon_head(g, k).value is Some == syntax::colon_head(h, k).value is Some,
        syntax::colon_head(h, k).kind != StmtKind::Error ==> {
            &&& syntax::colon_head(g, k).key == syntax::colon_head(h, k).key
            &&& syntax::colon_head(h, k).key.start <= syntax::colon_head(h, k).key.end <= k
        },
{
    let lead: int = if h[0] == ascii::AT_SIGN || h[0] == ascii::AMPERSAND || h[0] == ascii::BANG {
        1
    } else {
        0
    };
    assert(g[0] == h[0]);
    assert(g[k] == h[k]);
    text::lemma_ends_boundary(h);
    text::lemma_ends_boundary(g);
    if lead == 1 {
        text::lemma_ascii_boundary(h, 0);
        text::lemma_ascii_boundary(g, 0);
    }
    text::lemma_ascii_boundary(h, k);
    text::lemma_ascii_boundary(g, k);
    text::lemma_trim_at(h, lead, k);
    text::lemma_trim_at(g, lead, k);
    text::lemma_trim_at(h, k + 1, h.len() as int);
    text::lemma_trim_at(g, k + 1, g.len() as int);
    assert(g.subrange(lead, k) =~= h.subrange(lead, k));
    let key = text::trim_at(h, lead, k);
    assert(text::trim_at(g, lead, k) == key);
    assert(g.subrange(key.0, key.1) =~= h.subrange(key.0, key.1));
    assert(text::from(h, k + 1) == h.subrange(k + 1, h.len() as int));
    assert(text::from(g, k + 1) == g.subrange(k + 1, g.len() as int));
    let vh = text::trim_at(h, k + 1, h.len() as int);
    let vg = text::trim_at(g, k + 1, g.len() as int);
    assert(vh.1 - vh.0 == vg.1 - vg.0);
}

/// The value of a line with a key reaches to its end.
proof fn lemma_value_of_key(h: Seq<u8>, k: int)
    requires
        valid_utf8(h),
        clean(h),
        h.len() <= usize::MAX,
        0 <= k < h.len(),
        h[k] == ascii::COLON,
        syntax::colon_head(h, k).kind != StmtKind::Error,
    ensures
        syntax::colon_head(h, k).value is None ==> text::trim(text::from(h, k + 1)).len() == 0,
        syntax::colon_head(h, k).value matches Some(v) ==> {
            &&& v.end == h.len()
            &&& v.start == k + 1 + text::skip_ws(text::from(h, k + 1), 0)
            &&& v.start < v.end
            &&& syntax::cut(h, v) == text::trim(text::from(h, k + 1))
            &&& syntax::cut(h, v) == text::from(h, v.start as int)
        },
        syntax::colon_head(h, k).colon == Some((k + 1) as usize),
        k >= 1,
{
    let n = h.len() as int;
    let part = text::from(h, k + 1);
    text::lemma_ends_boundary(h);
    text::lemma_ascii_boundary(h, k);
    text::lemma_trim_at(h, k + 1, n);
    text::lemma_boundary(h, k + 1);
    text::lemma_ends_boundary(part);
    text::lemma_skip_ws(part, 0);
    let a = text::skip_ws(part, 0);
    let x = text::trim_start(part);
    assert(x =~= text::from(h, k + 1 + a));
    if x.len() > 0 {
        let front = text::upto(h, k + 1 + a);
        assert(front + x =~= h);
        lemma_clean_end(front, x);
        assert(text::trim(part) =~= x);
    }
    let lead: int = if h[0] == ascii::AT_SIGN || h[0] == ascii::AMPERSAND || h[0] == ascii::BANG {
        1
    } else {
        0
    };
    if k == 0 {
        assert(h[0] == ascii::COLON);
        assert(h.subrange(lead, k).len() == 0);
        assert(text::trim_at(h, lead, k) == (0int, 0int)) by {
            assert(text::skip_ws(h.subrange(lead, k), 0) == 0);
        }
    }
}

proof fn lemma_clean_end(front: Seq<u8>, x: Seq<u8>)
    requires
        x.len() > 0,
        text::ws_len_before(front + x, (front + x).len() as int) == 0,
    ensures
        text::ws_len_before(x, x.len() as int) == 0,
{
    let n = x.len() as int;
    lemma_ws_shifted(front, x, n - 1);
    if n >= 2 {
        lemma_ws_shifted(front, x, n - 2);
    }
    if n >= 3 {
        lemma_ws_shifted(front, x, n - 3);
    }
}

/// What a statement says once it is tidy.
pub open spec fn tidied(h: Seq<u8>) -> Seq<u8> {
    crate::format::tidy(
        h,
        match syntax::head(h).colon {
            Some(c) => Some(c as int),
            None => None,
        },
    )
}

/// A tidied line says the same and is tidy.
proof fn lemma_tidied(h: Seq<u8>)
    requires
        valid_utf8(h),
        clean(h),
        h.len() <= usize::MAX,
        !indent::comment(h),
        syntax::head(h).kind != StmtKind::Error,
        tidied(h).len() <= usize::MAX,
    ensures
        clean(tidied(h)),
        valid_utf8(tidied(h)),
        !indent::comment(tidied(h)),
        syntax::head(tidied(h)).kind == syntax::head(h).kind,
        syntax::head(tidied(h)).colon == syntax::head(h).colon,
        syntax::head(tidied(h)).key == syntax::head(h).key,
        syntax::cut(tidied(h), syntax::head(h).key) == syntax::cut(h, syntax::head(h).key),
        syntax::head(tidied(h)).value is Some == syntax::head(h).value is Some,
        syntax::head(h).value matches Some(v) ==> syntax::cut(h, v) == syntax::cut(
            tidied(h),
            syntax::head(tidied(h)).value->0,
        ) && v.start < v.end <= h.len() && syntax::head(tidied(h)).value->0.start < syntax::head(
            tidied(h),
        ).value->0.end <= tidied(h).len(),
        syntax::head(h).kind == StmtKind::Property ==> (syntax::head(h).value matches Some(v)
            ==> v.end == h.len() && syntax::head(tidied(h)).value->0.end == tidied(h).len()),
        tidied(tidied(h)) == tidied(h),
{
    let g = tidied(h);
    syntax::lemma_head(h);
    if h[0] != ascii::DASH && h[0] != ascii::DOLLAR {
        if let Some(k) = text::find_byte(h, ascii::COLON, 0) {
            text::lemma_find_byte(h, ascii::COLON, 0);
            lemma_value_of_key(h, k);
            lemma_tidy_key(h, k);
            assert(g == crate::format::tidy(h, Some(k + 1)));
            lemma_same_key(h, g, k);
            let key = syntax::head(h).key;
            assert(syntax::cut(g, key) =~= syntax::cut(h, key));
            assert(g[0] == h[0]);
            assert(g[1] == h[1]);
            lemma_value_of_key(g, k);
        } else {
            lemma_bare_colon(h);
        }
    }
}

proof fn lemma_bare_colon(h: Seq<u8>)
    ensures
        syntax::bare_head(h).colon is None,
        syntax::bare_head(h).kind != StmtKind::Property,
{
}

// ---------------------------------------------------------------------------------------------
// Depths
// ---------------------------------------------------------------------------------------------

/// A statement lies below each statement above it that all lines between are deeper than.
proof fn lemma_deeper(raw: Seq<Stmt>, p: int, j: int)
    requires
        raw.len() <= usize::MAX,
        0 <= p < j < raw.len(),
        raw[p].kind != StmtKind::Comment,
        raw[j].kind != StmtKind::Comment,
        forall|x: int|
            p < x <= j ==> (#[trigger] raw[x]).kind == StmtKind::Comment || raw[x].width
                > raw[p].width,
    ensures
        crate::format::depth_of(syntax::with_parents(raw), j) >= crate::format::depth_of(
            syntax::with_parents(raw),
            p,
        ) + 1,
    decreases j,
{
    let stmts = syntax::with_parents(raw);
    let w = raw[j].width as int;
    syntax::lemma_enclosing(raw, w, j);
    assert(raw[p].width < w);
    match syntax::enclosing(raw, w, j) {
        Some(q) => {
            assert(q >= p);
            if q > p {
                lemma_deeper(raw, p, q as int);
            }
        },
        None => {},
    }
}

proof fn lemma_depth_bounds(stmts: Seq<Stmt>, k: int)
    requires
        0 <= k,
    ensures
        0 <= crate::format::depth_of(stmts, k) <= k,
    decreases k,
{
    if let Some(p) = stmts[k].parent {
        if p < k {
            lemma_depth_bounds(stmts, p as int);
        }
    }
}

/// The statement behind another is no deeper, unless it lies below it.
proof fn lemma_next_depth(raw: Seq<Stmt>, k: int)
    requires
        raw.len() <= usize::MAX,
        0 <= k,
        k + 1 < raw.len(),
        raw[k].kind != StmtKind::Comment,
        syntax::with_parents(raw)[k + 1].parent != Some(k as usize),
    ensures
        crate::format::depth_of(syntax::with_parents(raw), k + 1) <= crate::format::depth_of(
            syntax::with_parents(raw),
            k,
        ),
{
    let stmts = syntax::with_parents(raw);
    let w = syntax::placed_width(raw, k + 1);
    syntax::lemma_enclosing(raw, w, k + 1);
    lemma_depth_bounds(stmts, k);
    if let Some(p) = syntax::enclosing(raw, w, k + 1) {
        assert(p < k);
        assert(raw[k].width >= w);
        lemma_deeper(raw, p as int, k);
    }
}

proof fn lemma_enclosing_is(raw: Seq<Stmt>, w: int, k: int, p: int)
    requires
        0 <= p < k <= raw.len(),
        raw[p].kind != StmtKind::Comment,
        raw[p].width < w,
        forall|j: int|
            p < j < k ==> (#[trigger] raw[j]).kind == StmtKind::Comment || raw[j].width >= w,
    ensures
        syntax::enclosing(raw, w, k) == Some(p as usize),
    decreases k,
{
    if k - 1 > p {
        lemma_enclosing_is(raw, w, k - 1, p);
    }
}

proof fn lemma_enclosing_none(raw: Seq<Stmt>, w: int, k: int)
    requires
        0 <= k <= raw.len(),
        w <= 0,
    ensures
        syntax::enclosing(raw, w, k) is None,
    decreases k,
{
    if k > 0 {
        lemma_enclosing_none(raw, w, k - 1);
    }
}

/// The first statement at or after statement `k` that is no comment.
pub open spec fn anchor(raw: Seq<Stmt>, k: int) -> int
    decreases raw.len() - k,
{
    if 0 <= k < raw.len() && raw[k].kind == StmtKind::Comment {
        anchor(raw, k + 1)
    } else {
        k
    }
}

proof fn lemma_anchor(raw: Seq<Stmt>, k: int)
    requires
        0 <= k <= raw.len() <= usize::MAX,
    ensures
        k <= anchor(raw, k) <= raw.len(),
        forall|j: int| k <= j < anchor(raw, k) ==> (#[trigger] raw[j]).kind == StmtKind::Comment,
        anchor(raw, k) < raw.len() ==> raw[anchor(raw, k)].kind != StmtKind::Comment
            && syntax::placed_width(raw, k) == raw[anchor(raw, k)].width,
        anchor(raw, k) == raw.len() ==> syntax::placed_width(raw, k) == 0,
    decreases raw.len() - k,
{
    if k < raw.len() && raw[k].kind == StmtKind::Comment {
        lemma_anchor(raw, k + 1);
    }
}

/// Statements that are indented by two for each level have the parents that they had before.
proof fn lemma_same_parent(raw: Seq<Stmt>, new: Seq<Stmt>, k: int)
    requires
        raw.len() <= usize::MAX,
        new.len() == raw.len(),
        0 <= k < raw.len(),
        forall|j: int| 0 <= j < raw.len() ==> (#[trigger] new[j]).kind == raw[j].kind,
        forall|j: int|
            0 <= j < raw.len() ==> (#[trigger] new[j]).width == 2 * crate::format::depth_of(
                syntax::with_parents(raw),
                j,
            ),
    ensures
        syntax::with_parents(new)[k].parent == syntax::with_parents(raw)[k].parent,
{
    let stmts = syntax::with_parents(raw);
    let m = anchor(raw, k);
    let w = syntax::placed_width(raw, k);
    let v = syntax::placed_width(new, k);
    lemma_anchor(raw, k);
    lemma_anchor(new, k);
    lemma_same_anchor(raw, new, k);
    syntax::lemma_enclosing(raw, w, k);
    if m == raw.len() {
        lemma_enclosing_none(raw, w, k);
        lemma_enclosing_none(new, v, k);
    } else {
        lemma_parent_of_anchor(raw, w, k, m);
        assert(stmts[m].parent == syntax::enclosing(raw, w, k));
        assert(new[m].width == 2 * crate::format::depth_of(stmts, m));
        match syntax::enclosing(raw, w, k) {
            None => {
                assert(crate::format::depth_of(stmts, m) == 0);
                lemma_enclosing_none(new, v, k);
            },
            Some(p) => {
                let d = crate::format::depth_of(stmts, p as int);
                assert(crate::format::depth_of(stmts, m) == d + 1);
                assert(new[p as int].width == 2 * d);
                assert forall|j: int| p < j < k implies (#[trigger] new[j]).kind
                    == StmtKind::Comment || new[j].width >= v by {
                    if raw[j].kind != StmtKind::Comment {
                        assert forall|x: int| p < x <= j implies (#[trigger] raw[x]).kind
                            == StmtKind::Comment || raw[x].width > raw[p as int].width by {}
                        lemma_deeper(raw, p as int, j);
                    }
                }
                assert(new[p as int].kind == raw[p as int].kind);
                lemma_enclosing_is(new, v, k, p as int);
            },
        }
    }
}

proof fn lemma_same_anchor(raw: Seq<Stmt>, new: Seq<Stmt>, k: int)
    requires
        0 <= k <= raw.len(),
        new.len() == raw.len(),
        forall|j: int| 0 <= j < raw.len() ==> (#[trigger] new[j]).kind == raw[j].kind,
    ensures
        anchor(new, k) == anchor(raw, k),
    decreases raw.len() - k,
{
    if k < raw.len() {
        assert(new[k].kind == raw[k].kind);
        if raw[k].kind == StmtKind::Comment {
            lemma_same_anchor(raw, new, k + 1);
        }
    }
}

/// Comments do not come between a statement and its parent.
proof fn lemma_parent_of_anchor(raw: Seq<Stmt>, w: int, k: int, m: int)
    requires
        0 <= k <= m <= raw.len(),
        forall|j: int| k <= j < m ==> (#[trigger] raw[j]).kind == StmtKind::Comment,
    ensures
        syntax::enclosing(raw, w, m) == syntax::enclosing(raw, w, k),
    decreases m - k,
{
    if k < m {
        lemma_parent_of_anchor(raw, w, k, m - 1);
        assert(raw[m - 1].kind == StmtKind::Comment);
    }
}

proof fn lemma_same_depth(raw: Seq<Stmt>, new: Seq<Stmt>, k: int)
    requires
        raw.len() <= usize::MAX,
        new.len() == raw.len(),
        0 <= k < raw.len(),
        forall|j: int| 0 <= j < raw.len() ==> (#[trigger] new[j]).kind == raw[j].kind,
        forall|j: int|
            0 <= j < raw.len() ==> (#[trigger] new[j]).width == 2 * crate::format::depth_of(
                syntax::with_parents(raw),
                j,
            ),
    ensures
        crate::format::depth_of(syntax::with_parents(new), k) == crate::format::depth_of(
            syntax::with_parents(raw),
            k,
        ),
    decreases k,
{
    lemma_same_parent(raw, new, k);
    if let Some(p) = syntax::with_parents(raw)[k].parent {
        if p < k {
            lemma_same_depth(raw, new, p as int);
        }
    }
}

// ---------------------------------------------------------------------------------------------
// What becomes of each line
// ---------------------------------------------------------------------------------------------

/// The statements of a document, with their parents left open.
pub open spec fn raw(s: Seq<u8>) -> Seq<Stmt> {
    syntax::stmts_from(s, 0)
}

/// Whether line `i` is where statement `k` is next, both for parsing and for formatting.
pub open spec fn running(s: Seq<u8>, i: int, k: int) -> bool {
    &&& 0 <= i <= indent::lines(s).len()
    &&& 0 <= k <= raw(s).len()
    &&& raw(s).skip(k) == syntax::stmts_from(s, i)
    &&& k > 0 ==> raw(s)[k - 1].last_line < i
    &&& crate::format::rendered(s).len() == indent::lines(s).len()
    &&& crate::format::rendered(s).skip(i) == crate::format::rendered_from(
        s,
        syntax::stmts(s),
        i,
        k,
    )
}

/// The first line is where the first statement is next.
pub proof fn lemma_running_start(s: Seq<u8>)
    ensures
        running(s, 0, 0),
{
    crate::format::lemma_rendered_len(s, syntax::stmts(s), 0, 0);
    assert(raw(s).skip(0) =~= raw(s));
    assert(crate::format::rendered(s).skip(0) =~= crate::format::rendered(s));
}

proof fn lemma_skip_one(all: Seq<Seq<u8>>, i: int, x: Seq<u8>, rest: Seq<Seq<u8>>)
    requires
        0 <= i < all.len(),
        all.skip(i) == seq![x] + rest,
    ensures
        all[i] == x,
        all.skip(i + 1) == rest,
{
    assert(all[i] == all.skip(i)[0]);
    assert(all.skip(i + 1) =~= all.skip(i).skip(1));
    assert((seq![x] + rest).skip(1) =~= rest);
}

/// The next statement does not start before the line on which it is looked for.
proof fn lemma_next_line(s: Seq<u8>, i: int, k: int)
    requires
        s.len() <= usize::MAX,
        running(s, i, k),
        k < raw(s).len(),
    ensures
        raw(s)[k].line >= i,
        raw(s)[k].line < indent::lines(s).len(),
        !syntax::blank_at(s, raw(s)[k].line as int),
        raw(s)[k] == syntax::stmt_at(s, raw(s)[k].line as int),
        syntax::stmts(s)[k].line == raw(s)[k].line,
        syntax::stmts(s)[k].last_line == raw(s)[k].last_line,
        syntax::stmts(s)[k].body == raw(s)[k].body,
{
    assert(raw(s)[k] == raw(s).skip(k)[0]);
    syntax::lemma_stmt_line(s, i, 0);
}

/// A blank line between statements stays blank.
proof fn lemma_blank_line(s: Seq<u8>, i: int, k: int)
    requires
        valid_utf8(s),
        s.len() <= usize::MAX,
        running(s, i, k),
        i < indent::lines(s).len(),
        blank(indent::texts(s)[i]),
    ensures
        crate::format::rendered(s)[i] == Seq::<u8>::empty(),
        running(s, i + 1, k),
{
    lemma_blank_at(s, i);
    if k < raw(s).len() {
        lemma_next_line(s, i, k);
    }
    let stmts = syntax::stmts(s);
    if k > 0 {
        assert(stmts[k - 1].last_line == raw(s)[k - 1].last_line);
    }
    lemma_skip_one(
        crate::format::rendered(s),
        i,
        Seq::empty(),
        crate::format::rendered_from(s, stmts, i + 1, k),
    );
}

/// A line that is not blank starts the next statement.
proof fn lemma_header_line(s: Seq<u8>, i: int, k: int)
    requires
        valid_utf8(s),
        s.len() <= usize::MAX,
        running(s, i, k),
        i < indent::lines(s).len(),
        !blank(indent::texts(s)[i]),
    ensures
        k < raw(s).len(),
        raw(s)[k] == syntax::stmt_at(s, i),
        raw(s)[k].line == i,
        i <= raw(s)[k].last_line < indent::lines(s).len(),
        raw(s).skip(k + 1) == syntax::stmts_from(s, raw(s)[k].last_line + 1),
        crate::format::rendered(s)[i] == crate::format::header(s, syntax::stmts(s), k),
        crate::format::rendered(s).skip(i + 1) == crate::format::rendered_from(
            s,
            syntax::stmts(s),
            i + 1,
            k + 1,
        ),
{
    let stmts = syntax::stmts(s);
    lemma_blank_at(s, i);
    let st = syntax::stmt_at(s, i);
    syntax::lemma_last_line(s, i);
    syntax::lemma_stmt_at(s, i);
    let rest = syntax::stmts_from(s, st.last_line + 1);
    assert(raw(s).skip(k) == seq![st] + rest);
    assert(raw(s)[k] == raw(s).skip(k)[0]);
    assert(raw(s).skip(k + 1) =~= raw(s).skip(k).skip(1));
    assert((seq![st] + rest).skip(1) =~= rest);
    if k > 0 {
        assert(stmts[k - 1].last_line == raw(s)[k - 1].last_line);
    }
    assert(stmts[k].line == i);
    lemma_skip_one(
        crate::format::rendered(s),
        i,
        crate::format::header(s, stmts, k),
        crate::format::rendered_from(s, stmts, i + 1, k + 1),
    );
}

/// The further lines of a statement: those of a block scalar stay as they are, and so do those of an
/// array that are not blank.
pub open spec fn further_line(s: Seq<u8>, k: int, j: int) -> Seq<u8> {
    if raw(s)[k].body is Some {
        indent::texts(s)[j]
    } else {
        crate::format::other_line(indent::texts(s)[j])
    }
}

proof fn lemma_further_lines(s: Seq<u8>, k: int, j: int)
    requires
        valid_utf8(s),
        s.len() <= usize::MAX,
        0 <= k < raw(s).len(),
        raw(s)[k].line < j <= raw(s)[k].last_line + 1 <= indent::lines(s).len(),
        raw(s).skip(k + 1) == syntax::stmts_from(s, raw(s)[k].last_line + 1),
        crate::format::rendered(s).len() == indent::lines(s).len(),
        crate::format::rendered(s).skip(j) == crate::format::rendered_from(
            s,
            syntax::stmts(s),
            j,
            k + 1,
        ),
    ensures
        forall|x: int|
            j <= x <= raw(s)[k].last_line ==> #[trigger] crate::format::rendered(s)[x]
                == further_line(s, k, x),
        running(s, raw(s)[k].last_line + 1, k + 1),
    decreases raw(s)[k].last_line + 1 - j,
{
    let stmts = syntax::stmts(s);
    let last = raw(s)[k].last_line as int;
    if j <= last {
        assert(stmts[k].body == raw(s)[k].body);
        assert(stmts[k].last_line == last);
        if k + 1 < raw(s).len() {
            assert(raw(s)[k + 1] == raw(s).skip(k + 1)[0]);
            syntax::lemma_stmt_line(s, last + 1, 0);
            assert(stmts[k + 1].line == raw(s)[k + 1].line);
        }
        lemma_skip_one(
            crate::format::rendered(s),
            j,
            further_line(s, k, j),
            crate::format::rendered_from(s, stmts, j + 1, k + 1),
        );
        lemma_further_lines(s, k, j + 1);
    }
}

/// The first line at or after line `j` that is not blank.
pub open spec fn next_content(lines: Seq<Seq<u8>>, j: int) -> int
    decreases lines.len() - j,
{
    if 0 <= j < lines.len() && blank(lines[j]) {
        next_content(lines, j + 1)
    } else {
        j
    }
}

proof fn lemma_next_content(lines: Seq<Seq<u8>>, j: int)
    requires
        0 <= j <= lines.len(),
    ensures
        j <= next_content(lines, j) <= lines.len(),
        next_content(lines, j) < lines.len() ==> !blank(lines[next_content(lines, j)]),
        forall|x: int| j <= x < next_content(lines, j) ==> blank(#[trigger] lines[x]),
    decreases lines.len() - j,
{
    if j < lines.len() && blank(lines[j]) {
        lemma_next_content(lines, j + 1);
    }
}

/// Blank lines lead on to the line on which the next statement starts.
#[verifier::rlimit(40)]
proof fn lemma_to_next(s: Seq<u8>, i: int, k: int)
    requires
        valid_utf8(s),
        s.len() <= usize::MAX,
        running(s, i, k),
    ensures
        running(s, next_content(indent::texts(s), i), k),
        forall|x: int|
            i <= x < next_content(indent::texts(s), i) ==> #[trigger] crate::format::rendered(s)[x]
                == Seq::<u8>::empty(),
    decreases indent::lines(s).len() - i,
{
    if i < indent::lines(s).len() && blank(indent::texts(s)[i]) {
        lemma_blank_line(s, i, k);
        lemma_to_next(s, i + 1, k);
    }
}

// ---------------------------------------------------------------------------------------------
// Reading a formatted line
// ---------------------------------------------------------------------------------------------

proof fn lemma_margin(d: int)
    requires
        0 <= d,
    ensures
        crate::format::margin(d).len() == 2 * d,
        forall|j: int| 0 <= j < 2 * d ==> #[trigger] crate::format::margin(d)[j] == ascii::SPACE,
    decreases d,
{
    lemma_white_space();
    if d > 0 {
        lemma_margin(d - 1);
    }
}

proof fn lemma_width_padded(pre: Seq<u8>, g: Seq<u8>, i: int)
    requires
        forall|j: int| 0 <= j < pre.len() ==> #[trigger] pre[j] == ascii::SPACE,
        clean(g),
        0 <= i <= pre.len(),
    ensures
        syntax::width_from(pre + g, i) == pre.len() - i,
    decreases pre.len() - i,
{
    if i < pre.len() {
        assert((pre + g)[i] == ascii::SPACE);
        lemma_width_padded(pre, g, i + 1);
    } else {
        assert((pre + g)[i] == g[0]);
    }
}

/// What a formatted line is made of.
proof fn lemma_formatted_line(d: int, g: Seq<u8>)
    requires
        0 <= d,
        clean(g),
    ensures
        text::trim(crate::format::margin(d) + g) == g,
        text::skip_ws(crate::format::margin(d) + g, 0) == 2 * d,
        syntax::width(crate::format::margin(d) + g) == 2 * d,
        !blank(crate::format::margin(d) + g),
{
    lemma_margin(d);
    lemma_trim_padded(crate::format::margin(d), g);
    lemma_width_padded(crate::format::margin(d), g, 0);
}

/// What a line says once it is formatted.
pub open spec fn said(h: Seq<u8>) -> Seq<u8> {
    if indent::comment(h) {
        h
    } else {
        tidied(h)
    }
}

/// The line on which a statement starts becomes its margin and what it says.
proof fn lemma_header_text(s: Seq<u8>, i: int, k: int)
    requires
        valid_utf8(s),
        s.len() <= usize::MAX,
        0 <= i < indent::lines(s).len(),
        0 <= k < raw(s).len(),
        raw(s)[k] == syntax::stmt_at(s, i),
        !blank(indent::texts(s)[i]),
        raw(s)[k].kind != StmtKind::Error,
    ensures
        crate::format::header(s, syntax::stmts(s), k) == crate::format::margin(
            crate::format::depth_of(syntax::stmts(s), k),
        ) + said(text::trim(indent::texts(s)[i])),
        clean(text::trim(indent::texts(s)[i])),
        valid_utf8(text::trim(indent::texts(s)[i])),
        text::trim(indent::texts(s)[i]).len() <= usize::MAX,
        !indent::comment(text::trim(indent::texts(s)[i])) ==> syntax::head(
            text::trim(indent::texts(s)[i]),
        ).kind == raw(s)[k].kind,
        raw(s)[k].kind == StmtKind::Comment <==> indent::comment(text::trim(indent::texts(s)[i])),
{
    let h = text::trim(indent::texts(s)[i]);
    lemma_text_at(s, i);
    lemma_line(s, i);
    lemma_trim_clean(indent::texts(s)[i]);
    let st = syntax::stmts(s)[k];
    let (a, b) = syntax::text_at(s, i);
    assert(st.span == syntax::span(a, b));
    assert(syntax::cut(s, st.span) == h);
    if !indent::comment(h) {
        syntax::lemma_head(h);
        syntax::lemma_head_kind(h);
    }
}

/// What a line says stays clean and says the same.
proof fn lemma_said(h: Seq<u8>)
    requires
        valid_utf8(h),
        clean(h),
        h.len() <= usize::MAX,
        !indent::comment(h) ==> syntax::head(h).kind != StmtKind::Error,
        said(h).len() <= usize::MAX,
    ensures
        clean(said(h)),
        indent::comment(said(h)) == indent::comment(h),
        said(said(h)) == said(h),
        valid_utf8(said(h)),
{
    if !indent::comment(h) {
        lemma_tidied(h);
    }
}

// ---------------------------------------------------------------------------------------------
// Block scalars and arrays
// ---------------------------------------------------------------------------------------------

proof fn lemma_reach_last(lines: Seq<Seq<u8>>, w: int, j: int, last: int)
    requires
        0 <= last < j,
    ensures
        reach(lines, w, j, last) >= last,
        reach(lines, w, j, last) != last ==> j <= reach(lines, w, j, last) < lines.len() && !blank(
            lines[reach(lines, w, j, last)],
        ),
    decreases lines.len() - j,
{
    if j < lines.len() {
        if blank(lines[j]) {
            lemma_reach_last(lines, w, j + 1, last);
        } else if syntax::width(lines[j]) > w {
            lemma_reach_last(lines, w, j + 1, j);
        }
    }
}

/// What makes a block scalar end on line `last`.
proof fn lemma_reach_value(lines: Seq<Seq<u8>>, w: int, j: int, seen: int, last: int, e: int)
    requires
        0 <= seen < j <= e <= lines.len(),
        last == seen || j <= last < e,
        forall|x: int|
            j <= x <= last ==> blank(#[trigger] lines[x]) || syntax::width(lines[x]) > w,
        last != seen ==> !blank(lines[last]),
        forall|x: int| j <= x < e && last < x ==> blank(#[trigger] lines[x]),
        e < lines.len() ==> !blank(lines[e]) && syntax::width(lines[e]) <= w,
    ensures
        reach(lines, w, j, seen) == last,
    decreases lines.len() - j,
{
    if j < lines.len() && j < e {
        if blank(lines[j]) {
            lemma_reach_value(lines, w, j + 1, seen, last, e);
        } else {
            assert(j <= last);
            lemma_reach_value(lines, w, j + 1, j, last, e);
        }
    }
}

/// A blank line is white space through and through.
proof fn lemma_blank_is_ws(t: Seq<u8>)
    requires
        valid_utf8(t),
    ensures
        blank(t) <==> text::skip_ws(t, 0) == t.len(),
{
    let a = text::skip_ws(t, 0);
    let x = text::trim_start(t);
    text::lemma_ends_boundary(t);
    text::lemma_skip_ws(t, 0);
    if a < t.len() {
        assert(text::upto(t, a) + x =~= t);
        lemma_ws_shifted(text::upto(t, a), x, 0);
        text::lemma_boundary(t, a);
        text::lemma_ends_boundary(x);
        text::lemma_skip_ws_back_stays(x, 0, x.len() as int);
    } else {
        assert(x.len() == 0);
    }
}

proof fn lemma_ws_no_bracket(t: Seq<u8>, i: int)
    requires
        0 <= i <= t.len(),
        text::skip_ws(t, i) == t.len(),
    ensures
        bracket(t, i) is None,
    decreases t.len() - i,
{
    if i < t.len() {
        let w = text::ws_len(t, i);
        assert(w > 0);
        lemma_ws_no_bracket(t, i + w);
        if w == 2 {
            assert(bracket(t, i + 1) == bracket(t, i + 2));
        } else if w == 3 {
            assert(bracket(t, i + 2) == bracket(t, i + 3));
            assert(bracket(t, i + 1) == bracket(t, i + 2));
        }
    }
}

/// A blank line holds no bracket.
proof fn lemma_blank_no_bracket(t: Seq<u8>)
    requires
        valid_utf8(t),
        blank(t),
    ensures
        bracket(t, 0) is None,
{
    lemma_blank_is_ws(t);
    lemma_ws_no_bracket(t, 0);
}

/// White space at the end holds no bracket.
proof fn lemma_tail_no_bracket(x: Seq<u8>, j: int)
    requires
        0 <= j <= x.len(),
    ensures
        forall|b: int|
            text::skip_ws_back(x, j) <= b < j ==> #[trigger] x[b] != ascii::OPEN_BRACKET && x[b] != ascii::CLOSE_BRACKET,
    decreases j,
{
    if j > 0 && text::ws_len_before(x, j) > 0 {
        lemma_tail_no_bracket(x, j - text::ws_len_before(x, j));
    }
}

proof fn lemma_bracket_append(x: Seq<u8>, post: Seq<u8>, c: int)
    requires
        0 <= c,
        forall|b: int| 0 <= b < post.len() ==> #[trigger] post[b] != ascii::OPEN_BRACKET && post[b] != ascii::CLOSE_BRACKET,
    ensures
        bracket(x + post, c) == bracket(x, c),
    decreases x.len() + post.len() - c,
{
    if c < x.len() {
        assert((x + post)[c] == x[c]);
        lemma_bracket_append(x, post, c + 1);
    } else if c < x.len() + post.len() {
        assert((x + post)[c] == post[c - x.len()]);
        lemma_bracket_append(x, post, c + 1);
    }
}

proof fn lemma_bracket_shifted(a: Seq<u8>, x: Seq<u8>, c: int)
    requires
        0 <= c,
    ensures
        bracket(a + x, a.len() + c) == match bracket(x, c) {
            Some(e) => Some(a.len() + e),
            None => None,
        },
        bracket(x, c) matches Some(e) ==> c <= e < x.len() && (a + x)[a.len() + e] == x[e] && (x[e]
            == ascii::OPEN_BRACKET || x[e] == ascii::CLOSE_BRACKET),
    decreases x.len() - c,
{
    if c < x.len() {
        assert((a + x)[a.len() + c] == x[c]);
        lemma_bracket_shifted(a, x, c + 1);
    }
}

/// What stands in front of white space in a blank text is blank too.
proof fn lemma_blank_prefix(z: Seq<u8>, m: int, i: int)
    requires
        valid_utf8(z),
        text::boundary(z, m),
        text::boundary(z, i),
        i <= m,
        text::skip_ws(z, i) == z.len(),
    ensures
        text::skip_ws(text::upto(z, m), i) == m,
    decreases m - i,
{
    let x = text::upto(z, m);
    if i < m {
        let w = text::ws_len(z, i);
        assert(w > 0);
        text::lemma_ws_boundary(z, i);
        assert(i + w <= m);
        assert(text::ws_len(x, i) == w);
        lemma_blank_prefix(z, m, i + w);
    }
}

proof fn lemma_scan_same(lines: Seq<Seq<u8>>, u: Seq<Seq<u8>>, j: int, p: (int, int))
    requires
        0 <= j,
        scan(lines, j, 0) == Some(p),
        p.0 < u.len(),
        forall|x: int| j <= x <= p.0 ==> valid_utf8(#[trigger] lines[x]),
        forall|x: int| j <= x <= p.0 ==> #[trigger] u[x] == crate::format::other_line(lines[x]),
    ensures
        scan(u, j, 0) == Some(p),
        j <= p.0 < lines.len(),
        u[p.0] == lines[p.0],
    decreases lines.len() - j,
{
    lemma_scan_from(lines, j, 0);
    assert(valid_utf8(lines[j]));
    assert(u[j] == crate::format::other_line(lines[j]));
    if blank(lines[j]) {
        lemma_blank_no_bracket(lines[j]);
        assert(bracket(u[j], 0) is None);
    }
    if bracket(lines[j], 0) is None {
        lemma_scan_from(lines, j + 1, 0);
        lemma_scan_same(lines, u, j + 1, p);
    }
}

proof fn lemma_scan_from(lines: Seq<Seq<u8>>, j: int, c: int)
    requires
        0 <= j,
    ensures
        scan(lines, j, c) matches Some(p) ==> j <= p.0 < lines.len(),
    decreases lines.len() - j,
{
    if j < lines.len() {
        lemma_scan_from(lines, j + 1, 0);
    }
}

// ---------------------------------------------------------------------------------------------
// The statements of a formatted document
// ---------------------------------------------------------------------------------------------

/// The number of lines of a document up to the last one that is not blank.
pub open spec fn content(s: Seq<u8>) -> int {
    crate::format::content_end(indent::texts(s), indent::texts(s).len() as int)
}

/// Whether `u` are the lines of the formatted document.
pub open spec fn renders(s: Seq<u8>, u: Seq<Seq<u8>>) -> bool {
    &&& content(s) <= u.len()
    &&& forall|j: int|
        0 <= j < content(s) ==> #[trigger] u[j] == crate::format::rendered(s)[j]
    &&& forall|j: int| content(s) <= j < u.len() ==> blank(#[trigger] u[j])
    &&& forall|j: int| 0 <= j < u.len() ==> (#[trigger] u[j]).len() <= usize::MAX
}

/// Whether `s` is the text of a document that is formatted.
pub open spec fn formattable(s: Seq<u8>) -> bool {
    &&& valid_utf8(s)
    &&& s.len() <= usize::MAX
    &&& can_format(s)
}

/// Whether a shape is that of a statement at the given depth.
pub open spec fn same_shape(shape: Shape, st: Stmt, depth: int) -> bool {
    shape == (Shape { width: 2 * depth, ..shape_of(st) })
}

proof fn lemma_in_content(s: Seq<u8>, j: int)
    requires
        0 <= j < indent::texts(s).len(),
        !blank(indent::texts(s)[j]),
    ensures
        j < content(s) <= indent::texts(s).len(),
{
    crate::format::lemma_content_end(indent::texts(s), indent::texts(s).len() as int);
}

/// A line on which a statement starts, in the formatted document.
pub proof fn lemma_new_header(s: Seq<u8>, u: Seq<Seq<u8>>, i: int, k: int)
    requires
        formattable(s),
        renders(s, u),
        running(s, i, k),
        i < indent::lines(s).len(),
        !blank(indent::texts(s)[i]),
    ensures
        k < raw(s).len(),
        raw(s)[k] == syntax::stmt_at(s, i),
        raw(s)[k].kind != StmtKind::Error,
        i < u.len(),
        ({
            let h = text::trim(indent::texts(s)[i]);
            let d = crate::format::depth_of(syntax::stmts(s), k);
            &&& 0 <= d
            &&& u[i] == crate::format::margin(d) + said(h)
            &&& text::trim(u[i]) == said(h)
            &&& text::skip_ws(u[i], 0) == 2 * d
            &&& syntax::width(u[i]) == 2 * d
            &&& !blank(u[i])
            &&& clean(h)
            &&& valid_utf8(h)
            &&& h.len() <= usize::MAX
            &&& said(h).len() <= usize::MAX
            &&& clean(said(h))
            &&& raw(s)[k].kind == StmtKind::Comment <==> indent::comment(h)
            &&& !indent::comment(h) ==> syntax::head(h).kind == raw(s)[k].kind
            &&& said(said(h)) == said(h)
            &&& indent::comment(said(h)) == indent::comment(h)
        }),
{
    let h = text::trim(indent::texts(s)[i]);
    let d = crate::format::depth_of(syntax::stmts(s), k);
    lemma_header_line(s, i, k);
    assert(syntax::stmts(s)[k].kind == raw(s)[k].kind);
    lemma_header_text(s, i, k);
    lemma_in_content(s, i);
    lemma_depth_bounds(syntax::stmts(s), k);
    lemma_margin(d);
    assert(u[i] == crate::format::rendered(s)[i]);
    assert(u[i].len() == 2 * d + said(h).len());
    lemma_said(h);
    lemma_formatted_line(d, said(h));
}

proof fn lemma_deep_body(s: Seq<u8>, k: int, j: int)
    requires
        deep_bodies(s),
        0 <= k < raw(s).len(),
        raw(s)[k].body is Some,
        raw(s)[k].line < j <= raw(s)[k].last_line,
    ensures
        blank(indent::texts(s)[j]) || syntax::width(indent::texts(s)[j]) > 2
            * crate::format::depth_of(syntax::stmts(s), k),
{
    reveal(deep_bodies);
    let st = syntax::stmts(s)[k];
    assert(st.body is Some && st.line < j <= st.last_line);
    assert(indent::texts(s)[j] == indent::texts(s)[j]);
}

proof fn lemma_announcing_shape(lines: Seq<Seq<u8>>, i: int)
    requires
        announces(text::trim(lines[i])),
    ensures
        shape_at(lines, i) == (Shape {
            last_line: reach(lines, syntax::width(lines[i]), i + 1, i),
            body: reach(lines, syntax::width(lines[i]), i + 1, i) > i,
            ..plain_shape(lines, i, syntax::head(text::trim(lines[i])).kind)
        }),
        !indent::comment(text::trim(lines[i])),
{
    reveal(announces);
}

/// The lines of a block scalar stay deeper than its marker line.
proof fn lemma_new_body_lines(s: Seq<u8>, u: Seq<Seq<u8>>, k: int, x: int)
    requires
        formattable(s),
        renders(s, u),
        0 <= k < raw(s).len(),
        raw(s)[k].body is Some,
        raw(s)[k].line < x <= raw(s)[k].last_line < content(s),
        crate::format::rendered(s)[x] == further_line(s, k, x),
    ensures
        u[x] == indent::texts(s)[x],
        blank(u[x]) || syntax::width(u[x]) > 2 * crate::format::depth_of(syntax::stmts(s), k),
{
    lemma_deep_body(s, k, x);
    assert(u[x] == crate::format::rendered(s)[x]);
}

/// A block scalar reaches as far in the formatted document.
proof fn lemma_new_body(s: Seq<u8>, u: Seq<Seq<u8>>, i: int, k: int)
    requires
        formattable(s),
        renders(s, u),
        running(s, i, k),
        i < indent::lines(s).len(),
        !blank(indent::texts(s)[i]),
        announces(text::trim(indent::texts(s)[i])),
    ensures
        reach(u, 2 * crate::format::depth_of(syntax::stmts(s), k), i + 1, i)
            == raw(s)[k].last_line,
        raw(s)[k].body is Some == (raw(s)[k].last_line > i),
{
    let texts = indent::texts(s);
    lemma_new_header(s, u, i, k);
    lemma_header_line(s, i, k);
    lemma_blank_at(s, i);
    lemma_shape_at(s, i);
    lemma_announcing_shape(texts, i);
    let d = crate::format::depth_of(syntax::stmts(s), k);
    let last = raw(s)[k].last_line as int;
    let w = syntax::width(texts[i]);
    lemma_reach_last(texts, w, i + 1, i);
    lemma_further_lines(s, k, i + 1);
    if last > i {
        lemma_in_content(s, last);
        assert forall|x: int| i + 1 <= x <= last implies blank(#[trigger] u[x]) || syntax::width(
            u[x],
        ) > 2 * d by {
            assert(crate::format::rendered(s)[x] == further_line(s, k, x));
            lemma_new_body_lines(s, u, k, x);
        }
        assert(crate::format::rendered(s)[last] == further_line(s, k, last));
        lemma_new_body_lines(s, u, k, last);
    }
    lemma_stmt_text(s, i, k);
    lemma_new_end(s, u, last + 1, k + 1, d);
    let e = new_end(s, u, last + 1);
    lemma_reach_value(u, 2 * d, i + 1, i, last, e);
}

/// The text of a statement is what its line says.
proof fn lemma_stmt_text(s: Seq<u8>, i: int, k: int)
    requires
        valid_utf8(s),
        s.len() <= usize::MAX,
        0 <= i < indent::lines(s).len(),
        0 <= k < raw(s).len(),
        raw(s)[k] == syntax::stmt_at(s, i),
    ensures
        syntax::cut(s, syntax::stmts(s)[k].span) == text::trim(indent::texts(s)[i]),
{
    lemma_text_at(s, i);
}

/// Where the blank lines from line `i` on end in the formatted document.
spec fn new_end(s: Seq<u8>, u: Seq<Seq<u8>>, i: int) -> int {
    let e = next_content(indent::texts(s), i);
    if e < indent::texts(s).len() {
        e
    } else {
        u.len() as int
    }
}

/// Blank lines between statements are blank in the formatted document.
proof fn lemma_new_blanks(s: Seq<u8>, u: Seq<Seq<u8>>, i: int, k: int)
    requires
        formattable(s),
        renders(s, u),
        running(s, i, k),
        i <= u.len(),
    ensures
        i <= new_end(s, u, i) <= u.len(),
        forall|x: int| i <= x < new_end(s, u, i) ==> blank(#[trigger] u[x]),
        running(s, next_content(indent::texts(s), i), k),
        new_end(s, u, i) < u.len() ==> new_end(s, u, i) == next_content(indent::texts(s), i)
            && new_end(s, u, i) < indent::texts(s).len() && !blank(
            indent::texts(s)[new_end(s, u, i)],
        ),
{
    let texts = indent::texts(s);
    let e = next_content(texts, i);
    lemma_next_content(texts, i);
    lemma_to_next(s, i, k);
    lemma_empty_blank();
    crate::format::lemma_content_end(texts, texts.len() as int);
    if e < texts.len() {
        lemma_in_content(s, e);
    }
    assert forall|x: int| i <= x < new_end(s, u, i) implies blank(#[trigger] u[x]) by {
        if x < content(s) {
            assert(x < e);
            assert(u[x] == crate::format::rendered(s)[x]);
        }
    }
}

proof fn lemma_leaf(s: Seq<u8>, k: int)
    requires
        scalars_are_leaves(s),
        0 < k < raw(s).len() <= usize::MAX,
        announces(syntax::cut(s, syntax::stmts(s)[k - 1].span)),
    ensures
        syntax::with_parents(raw(s))[k].parent != Some((k - 1) as usize),
{
    reveal(scalars_are_leaves);
    let stmts = syntax::stmts(s);
    assert(stmts == syntax::with_parents(raw(s)));
    if stmts[k].parent == Some((k - 1) as usize) {
        assert(!announces(syntax::cut(s, stmts[k - 1].span)));
    }
}

/// What follows a block scalar in the formatted document: blank lines, and then a line that is
/// indented no deeper than the marker line.
proof fn lemma_new_end(s: Seq<u8>, u: Seq<Seq<u8>>, i: int, k: int, d: int)
    requires
        formattable(s),
        renders(s, u),
        running(s, i, k),
        k > 0,
        d == crate::format::depth_of(syntax::stmts(s), k - 1),
        raw(s)[k - 1].kind != StmtKind::Comment,
        announces(syntax::cut(s, syntax::stmts(s)[k - 1].span)),
        i <= u.len(),
    ensures
        i <= new_end(s, u, i) <= u.len(),
        forall|x: int| i <= x < new_end(s, u, i) ==> blank(#[trigger] u[x]),
        new_end(s, u, i) < u.len() ==> !blank(u[new_end(s, u, i)]) && syntax::width(
            u[new_end(s, u, i)],
        ) <= 2 * d,
{
    lemma_new_blanks(s, u, i, k);
    let e = new_end(s, u, i);
    if e < u.len() {
        lemma_new_header(s, u, e, k);
        lemma_raw_len(s);
        lemma_leaf(s, k);
        lemma_next_depth(raw(s), k - 1);
    }
}

proof fn lemma_raw_len(s: Seq<u8>)
    requires
        valid_utf8(s),
        s.len() <= usize::MAX,
    ensures
        raw(s).len() <= s.len(),
        syntax::stmts(s) == syntax::with_parents(raw(s)),
{
    syntax::lemma_stmts(s);
}

proof fn lemma_empty_blank()
    ensures
        blank(Seq::<u8>::empty()),
{
    let t = Seq::<u8>::empty();
    assert(text::skip_ws(t, 0) == 0);
    assert(text::trim_start(t).len() == 0);
    assert(text::skip_ws_back(text::trim_start(t), 0) == 0);
}

/// The first line of an array, in a document and in the formatted one.
proof fn lemma_array_line(t: Seq<u8>, g: Seq<u8>, d: int, a: int, b: int)
    requires
        valid_utf8(t),
        0 <= d,
        0 <= a < text::trim(t).len(),
        0 <= b < g.len(),
        text::from(text::trim(t), a) == text::from(g, b),
    ensures
        ({
            let c = text::skip_ws(t, 0) + a + 1;
            let line = crate::format::margin(d) + g;
            match bracket(t, c) {
                Some(e) => {
                    let f = 2 * d + b + 1 + (e - c);
                    &&& bracket(line, 2 * d + b + 1) == Some(f)
                    &&& line[f] == t[e]
                    &&& t[e] == ascii::CLOSE_BRACKET && blank(text::from(t, e + 1)) ==> blank(
                        text::from(line, f + 1),
                    )
                },
                None => bracket(line, 2 * d + b + 1) is None,
            }
        }),
{
    let lead = text::skip_ws(t, 0);
    let x = text::trim_start(t);
    let h = text::trim(t);
    let val = text::from(h, a);
    let post = text::from(x, h.len() as int);
    let line = crate::format::margin(d) + g;
    let front = text::upto(t, lead) + text::upto(h, a);
    let margin = crate::format::margin(d) + text::upto(g, b);
    text::lemma_ends_boundary(t);
    text::lemma_skip_ws(t, 0);
    text::lemma_boundary(t, lead);
    text::lemma_ends_boundary(x);
    text::lemma_skip_ws_back(x, x.len() as int);
    lemma_margin(d);
    assert(h == text::upto(x, text::skip_ws_back(x, x.len() as int)));
    assert(t =~= front + (val + post));
    assert(line =~= margin + val);
    assert(front.len() == lead + a);
    assert(margin.len() == 2 * d + b);
    lemma_tail_no_bracket(x, x.len() as int);
    assert forall|j: int| 0 <= j < post.len() implies #[trigger] post[j] != ascii::OPEN_BRACKET && post[j]
        != ascii::CLOSE_BRACKET by {
        assert(post[j] == x[h.len() + j]);
    }
    lemma_bracket_append(val, post, 1);
    lemma_bracket_shifted(front, val + post, 1);
    lemma_bracket_shifted(margin, val, 1);
    if let Some(y) = bracket(val, 1) {
        let e = front.len() + y;
        assert((val + post)[y] == val[y]);
        let z = text::from(t, e + 1);
        let m = val.len() - y - 1;
        assert(text::from(line, margin.len() + y + 1) =~= text::upto(z, m));
        if t[e] == ascii::CLOSE_BRACKET && blank(z) {
            text::lemma_ascii_boundary(t, e);
            text::lemma_boundary(t, e + 1);
            lemma_blank_is_ws(z);
            text::lemma_ends_boundary(z);
            if m < z.len() {
                assert(z[m] == x[h.len() as int]);
            }
            assert(text::boundary(z, m));
            lemma_blank_prefix(z, m, 0);
            lemma_all_ws_blank(text::upto(z, m));
        }
    }
}

proof fn lemma_all_ws_blank(t: Seq<u8>)
    requires
        text::skip_ws(t, 0) == t.len(),
    ensures
        blank(t),
{
    assert(text::trim_start(t) =~= Seq::empty());
    lemma_empty_blank();
    assert(text::skip_ws_back(Seq::<u8>::empty(), 0) == 0);
}

/// Whether a line that reads `h` opens an array.
#[verifier::opaque]
pub open spec fn opens_array(h: Seq<u8>) -> bool {
    !indent::comment(h) && syntax::head(h).kind == StmtKind::Property && (syntax::head(
        h,
    ).value matches Some(v) && !indent::marker(syntax::cut(h, v)) && h[v.start as int] == ascii::OPEN_BRACKET)
}

/// Where the array starts that a line opens.
pub open spec fn array_start(h: Seq<u8>) -> int {
    syntax::head(h).value->0.start as int
}

proof fn lemma_array_shape(lines: Seq<Seq<u8>>, i: int)
    requires
        opens_array(text::trim(lines[i])),
    ensures
        shape_at(lines, i) == match array_end(
            lines,
            i,
            text::skip_ws(lines[i], 0) + array_start(text::trim(lines[i])) + 1,
        ) {
            Some(last) => Shape {
                last_line: last,
                ..plain_shape(lines, i, StmtKind::Property)
            },
            None => plain_shape(lines, i, StmtKind::Error),
        },
        !announces(text::trim(lines[i])),
        !indent::comment(text::trim(lines[i])),
{
    reveal(opens_array);
    reveal(announces);
}

proof fn lemma_plain_shape(lines: Seq<Seq<u8>>, i: int)
    requires
        !opens_array(text::trim(lines[i])),
        !announces(text::trim(lines[i])),
    ensures
        shape_at(lines, i) == plain_shape(
            lines,
            i,
            if indent::comment(text::trim(lines[i])) {
                StmtKind::Comment
            } else {
                syntax::head(text::trim(lines[i])).kind
            },
        ),
{
    reveal(opens_array);
    reveal(announces);
}

/// A formatted line announces a block scalar or opens an array where the line did before.
proof fn lemma_said_opens(h: Seq<u8>)
    requires
        valid_utf8(h),
        clean(h),
        h.len() <= usize::MAX,
        !indent::comment(h) ==> syntax::head(h).kind != StmtKind::Error,
        said(h).len() <= usize::MAX,
    ensures
        announces(said(h)) == announces(h),
        opens_array(said(h)) == opens_array(h),
        opens_array(h) ==> {
            &&& 0 <= array_start(h) < h.len()
            &&& 0 <= array_start(said(h)) < said(h).len()
            &&& text::from(h, array_start(h)) == text::from(said(h), array_start(said(h)))
        },
        !indent::comment(h) ==> syntax::head(said(h)).kind == syntax::head(h).kind,
        indent::comment(said(h)) == indent::comment(h),
{
    reveal(opens_array);
    reveal(announces);
    if !indent::comment(h) {
        lemma_tidied(h);
        let g = tidied(h);
        if let Some(v) = syntax::head(h).value {
            let w = syntax::head(g).value->0;
            assert(syntax::cut(h, v)[0] == h[v.start as int]);
            assert(syntax::cut(g, w)[0] == g[w.start as int]);
        }
    }
}

/// An array ends on the same line in the formatted document.
proof fn lemma_new_array(s: Seq<u8>, u: Seq<Seq<u8>>, i: int, k: int)
    requires
        formattable(s),
        renders(s, u),
        running(s, i, k),
        i < indent::lines(s).len(),
        !blank(indent::texts(s)[i]),
        opens_array(text::trim(indent::texts(s)[i])),
    ensures
        array_end(u, i, text::skip_ws(u[i], 0) + array_start(text::trim(u[i])) + 1) == Some(
            raw(s)[k].last_line as int,
        ),
        raw(s)[k].body is None,
        raw(s)[k].kind == StmtKind::Property,
{
    let texts = indent::texts(s);
    let h = text::trim(texts[i]);
    let g = said(h);
    let d = crate::format::depth_of(syntax::stmts(s), k);
    lemma_new_header(s, u, i, k);
    lemma_header_line(s, i, k);
    lemma_blank_at(s, i);
    lemma_text_at(s, i);
    lemma_shape_at(s, i);
    lemma_array_shape(texts, i);
    lemma_said_opens(h);
    let last = raw(s)[k].last_line as int;
    let a = array_start(h);
    let b = array_start(g);
    let c = text::skip_ws(texts[i], 0) + a + 1;
    assert(array_end(texts, i, c) == Some(last));
    lemma_array_line(texts[i], g, d, a, b);
    let p = scan(texts, i, c)->0;
    if bracket(texts[i], c) is None {
        assert(scan(texts, i, c) == scan(texts, i + 1, 0));
        lemma_scan_from(texts, i + 1, 0);
        lemma_new_array_lines(s, u, i, k, p);
    }
}

proof fn lemma_new_array_lines(s: Seq<u8>, u: Seq<Seq<u8>>, i: int, k: int, p: (int, int))
    requires
        formattable(s),
        renders(s, u),
        running(s, i, k),
        i < indent::lines(s).len(),
        !blank(indent::texts(s)[i]),
        scan(indent::texts(s), i + 1, 0) == Some(p),
        p.0 == raw(s)[k].last_line,
        i < p.0 < indent::lines(s).len(),
        raw(s)[k].body is None,
    ensures
        scan(u, i + 1, 0) == Some(p),
        p.0 < u.len(),
        u[p.0] == indent::texts(s)[p.0],
{
    let texts = indent::texts(s);
    lemma_header_line(s, i, k);
    lemma_further_lines(s, k, i + 1);
    lemma_scan_hit(texts, i + 1, 0);
    lemma_text_at(s, p.0);
    if blank(texts[p.0]) {
        lemma_blank_no_bracket(texts[p.0]);
    }
    lemma_in_content(s, p.0);
    assert forall|x: int| i + 1 <= x <= p.0 implies valid_utf8(#[trigger] texts[x]) by {
        lemma_text_at(s, x);
    }
    assert forall|x: int| i + 1 <= x <= p.0 implies #[trigger] u[x] == crate::format::other_line(
        texts[x],
    ) by {
        assert(u[x] == crate::format::rendered(s)[x]);
        assert(crate::format::rendered(s)[x] == further_line(s, k, x));
    }
    lemma_scan_same(texts, u, i + 1, p);
}

proof fn lemma_scan_hit(lines: Seq<Seq<u8>>, j: int, c: int)
    requires
        0 <= j,
    ensures
        scan(lines, j, c) matches Some(p) ==> (p.0 == j && bracket(lines[j], c) is Some) || (p.0 > j
            && bracket(lines[p.0], 0) is Some),
    decreases lines.len() - j,
{
    if j < lines.len() {
        lemma_scan_hit(lines, j + 1, 0);
    }
}

/// A formatted line starts a statement of the same shape, at the depth that it had.
proof fn lemma_new_shape(s: Seq<u8>, u: Seq<Seq<u8>>, i: int, k: int)
    requires
        formattable(s),
        renders(s, u),
        running(s, i, k),
        i < indent::lines(s).len(),
        !blank(indent::texts(s)[i]),
    ensures
        same_shape(shape_at(u, i), raw(s)[k], crate::format::depth_of(syntax::stmts(s), k)),
        raw(s)[k].line == i,
        i <= raw(s)[k].last_line < content(s) <= u.len(),
        !blank(u[i]),
        running(s, raw(s)[k].last_line + 1, k + 1),
{
    let texts = indent::texts(s);
    let h = text::trim(texts[i]);
    lemma_new_header(s, u, i, k);
    lemma_header_line(s, i, k);
    lemma_further_lines(s, k, i + 1);
    lemma_blank_at(s, i);
    lemma_shape_at(s, i);
    lemma_said_opens(h);
    lemma_in_content(s, i);
    if announces(h) {
        lemma_announcing_shape(texts, i);
        lemma_announcing_shape(u, i);
        lemma_new_body(s, u, i, k);
        lemma_reach_last(texts, syntax::width(texts[i]), i + 1, i);
        if raw(s)[k].last_line > i {
            lemma_in_content(s, raw(s)[k].last_line as int);
        }
    } else if opens_array(h) {
        lemma_array_shape(texts, i);
        lemma_array_shape(u, i);
        lemma_new_array(s, u, i, k);
        lemma_array_in_content(s, i, k);
    } else {
        lemma_plain_shape(texts, i);
        lemma_plain_shape(u, i);
    }
}

/// The line on which an array ends is not blank.
proof fn lemma_array_in_content(s: Seq<u8>, i: int, k: int)
    requires
        formattable(s),
        running(s, i, k),
        i < indent::lines(s).len(),
        !blank(indent::texts(s)[i]),
        opens_array(text::trim(indent::texts(s)[i])),
        k < raw(s).len(),
        raw(s)[k] == syntax::stmt_at(s, i),
        raw(s)[k].kind == StmtKind::Property,
    ensures
        raw(s)[k].last_line < content(s),
{
    let texts = indent::texts(s);
    let last = raw(s)[k].last_line as int;
    lemma_blank_at(s, i);
    lemma_shape_at(s, i);
    lemma_array_shape(texts, i);
    let c = text::skip_ws(texts[i], 0) + array_start(text::trim(texts[i])) + 1;
    lemma_scan_hit(texts, i, c);
    lemma_scan_from(texts, i, c);
    if last > i {
        lemma_text_at(s, last);
        if blank(texts[last]) {
            lemma_blank_no_bracket(texts[last]);
        }
    }
    lemma_in_content(s, last);
}

proof fn lemma_blank_rest(u: Seq<Seq<u8>>, i: int)
    requires
        0 <= i,
        forall|x: int| i <= x < u.len() ==> blank(#[trigger] u[x]),
    ensures
        shapes_from(u, i) == Seq::<Shape>::empty(),
    decreases u.len() - i,
{
    if i < u.len() {
        assert(blank(u[i]));
        lemma_blank_rest(u, i + 1);
    }
}

/// The statements of the formatted document have the shapes that they had, at the depths that they
/// had.
#[verifier::rlimit(40)]
proof fn lemma_new_shapes(s: Seq<u8>, u: Seq<Seq<u8>>, i: int, k: int)
    requires
        formattable(s),
        renders(s, u),
        running(s, i, k),
    ensures
        shapes_from(u, i).len() == raw(s).len() - k,
        forall|m: int|
            k <= m < raw(s).len() ==> same_shape(
                #[trigger] shapes_from(u, i)[m - k],
                raw(s)[m],
                crate::format::depth_of(syntax::stmts(s), m),
            ),
    decreases indent::lines(s).len() - i,
{
    let texts = indent::texts(s);
    crate::format::lemma_content_end(texts, texts.len() as int);
    if i == indent::lines(s).len() {
        assert(raw(s).skip(k).len() == 0);
        lemma_blank_rest(u, i);
    } else if blank(texts[i]) {
        lemma_blank_line(s, i, k);
        lemma_empty_blank();
        lemma_new_shapes(s, u, i + 1, k);
        if i < u.len() {
            if i < content(s) {
                assert(u[i] == crate::format::rendered(s)[i]);
            }
            assert(blank(u[i]));
        }
        assert(shapes_from(u, i) =~= shapes_from(u, i + 1));
    } else {
        lemma_new_shape(s, u, i, k);
        lemma_header_line(s, i, k);
        let shape = shape_at(u, i);
        let last = raw(s)[k].last_line as int;
        lemma_new_shapes(s, u, last + 1, k + 1);
        let rest = shapes_from(u, last + 1);
        assert(shapes_from(u, i) == seq![shape] + rest);
        assert forall|m: int| k <= m < raw(s).len() implies same_shape(
            #[trigger] shapes_from(u, i)[m - k],
            raw(s)[m],
            crate::format::depth_of(syntax::stmts(s), m),
        ) by {
            if m > k {
                assert(shapes_from(u, i)[m - k] == rest[m - (k + 1)]);
            }
        }
    }
}

// ---------------------------------------------------------------------------------------------
// The formatted document as a text
// ---------------------------------------------------------------------------------------------

/// Whether a line is text without a line feed.
pub open spec fn is_line(t: Seq<u8>) -> bool {
    valid_utf8(t) && forall|x: int| 0 <= x < t.len() ==> #[trigger] t[x] != ascii::NEWLINE
}

proof fn lemma_trim_part(t: Seq<u8>)
    requires
        valid_utf8(t),
    ensures
        forall|x: int|
            0 <= x < text::trim(t).len() ==> #[trigger] text::trim(t)[x] == t[text::skip_ws(t, 0)
                + x],
        0 <= text::skip_ws(t, 0),
        text::skip_ws(t, 0) + text::trim(t).len() <= t.len(),
{
    text::lemma_ends_boundary(t);
    text::lemma_trim_at(t, 0, t.len() as int);
    text::lemma_skip_ws(t, 0);
    let x = text::trim_start(t);
    lemma_skip_ws_back_fixed(x, x.len() as int);
}

proof fn lemma_said_line(h: Seq<u8>)
    requires
        is_line(h),
        clean(h),
        h.len() <= usize::MAX,
        !indent::comment(h) ==> syntax::head(h).kind != StmtKind::Error,
        said(h).len() <= usize::MAX,
    ensures
        is_line(said(h)),
{
    lemma_said(h);
    lemma_white_space();
    if !indent::comment(h) {
        syntax::lemma_head(h);
        if let Some(c) = syntax::head(h).colon {
            let rest = text::from(h, c as int);
            text::lemma_boundary(h, c as int);
            lemma_trim_part(rest);
            let g = tidied(h);
            let v = text::trim(rest);
            assert forall|x: int| 0 <= x < g.len() implies #[trigger] g[x] != ascii::NEWLINE by {
                if x < c {
                    assert(g[x] == h[x]);
                } else if x > c {
                    assert(g[x] == v[x - c - 1]);
                    assert(v[x - c - 1] == rest[text::skip_ws(rest, 0) + (x - c - 1)]);
                }
            }
        }
    }
}

proof fn lemma_margin_line(d: int, g: Seq<u8>)
    requires
        0 <= d,
        is_line(g),
    ensures
        is_line(crate::format::margin(d) + g),
    decreases d,
{
    lemma_margin(d);
    lemma_margin_valid(d);
    valid_utf8_concat(crate::format::margin(d), g);
    let t = crate::format::margin(d) + g;
    assert forall|x: int| 0 <= x < t.len() implies #[trigger] t[x] != ascii::NEWLINE by {
        if x < 2 * d {
            assert(t[x] == crate::format::margin(d)[x]);
        } else {
            assert(t[x] == g[x - 2 * d]);
        }
    }
}

proof fn lemma_margin_valid(d: int)
    ensures
        valid_utf8(crate::format::margin(d)),
    decreases d,
{
    if d > 0 {
        lemma_margin_valid(d - 1);
        encode_utf8_valid_utf8("  "@);
        valid_utf8_concat(crate::format::margin(d - 1), "  ".spec_bytes());
    } else {
        lemma_empty_valid();
    }
}

proof fn lemma_empty_valid()
    ensures
        valid_utf8(Seq::<u8>::empty()),
{
    encode_utf8_valid_utf8(Seq::<char>::empty());
    assert(encode_utf8(Seq::<char>::empty()) =~= Seq::<u8>::empty());
}

proof fn lemma_own_line(s: Seq<u8>, i: int)
    requires
        valid_utf8(s),
        0 <= i < indent::lines(s).len(),
    ensures
        is_line(indent::texts(s)[i]),
{
    lemma_text_at(s, i);
    lemma_line(s, i);
    let t = indent::texts(s)[i];
    assert forall|x: int| 0 <= x < t.len() implies #[trigger] t[x] != ascii::NEWLINE by {
        assert(t[x] == s[indent::lines(s)[i].0 + x]);
    }
}

proof fn lemma_header_is_line(s: Seq<u8>, i: int, k: int)
    requires
        formattable(s),
        running(s, i, k),
        i < indent::lines(s).len(),
        !blank(indent::texts(s)[i]),
        crate::format::rendered(s)[i].len() <= usize::MAX,
    ensures
        is_line(crate::format::rendered(s)[i]),
{
    let h = text::trim(indent::texts(s)[i]);
    let d = crate::format::depth_of(syntax::stmts(s), k);
    lemma_header_line(s, i, k);
    assert(syntax::stmts(s)[k].kind == raw(s)[k].kind);
    lemma_header_text(s, i, k);
    lemma_depth_bounds(syntax::stmts(s), k);
    lemma_margin(d);
    lemma_own_line(s, i);
    lemma_trim_part(indent::texts(s)[i]);
    assert(is_line(h));
    lemma_said_line(h);
    lemma_margin_line(d, said(h));
}

/// Every line of the formatted document is a line.
#[verifier::rlimit(40)]
proof fn lemma_rendered_lines(s: Seq<u8>, i: int, k: int)
    requires
        formattable(s),
        running(s, i, k),
        forall|j: int|
            0 <= j < content(s) ==> (#[trigger] crate::format::rendered(s)[j]).len() <= usize::MAX,
    ensures
        forall|j: int|
            i <= j < indent::lines(s).len() ==> is_line(#[trigger] crate::format::rendered(s)[j]),
    decreases indent::lines(s).len() - i,
{
    let texts = indent::texts(s);
    lemma_empty_valid();
    if i < indent::lines(s).len() {
        if blank(texts[i]) {
            lemma_blank_line(s, i, k);
            lemma_rendered_lines(s, i + 1, k);
        } else {
            lemma_in_content(s, i);
            lemma_header_line(s, i, k);
            lemma_header_is_line(s, i, k);
            lemma_further_lines(s, k, i + 1);
            let last = raw(s)[k].last_line as int;
            lemma_rendered_lines(s, last + 1, k + 1);
            assert forall|j: int| i <= j < indent::lines(s).len() implies is_line(
                #[trigger] crate::format::rendered(s)[j],
            ) by {
                if i < j <= last {
                    assert(crate::format::rendered(s)[j] == further_line(s, k, j));
                    lemma_own_line(s, j);
                }
            }
        }
    }
}

proof fn lemma_stacked_valid(r: Seq<Seq<u8>>, n: int)
    requires
        0 <= n <= r.len(),
        forall|j: int| 0 <= j < n ==> is_line(#[trigger] r[j]),
    ensures
        valid_utf8(crate::format::stacked(r, n)),
    decreases n,
{
    if n > 0 {
        lemma_stacked_valid(r, n - 1);
        encode_utf8_valid_utf8("\n"@);
        assert(is_line(r[n - 1]));
        valid_utf8_concat(crate::format::stacked(r, n - 1), r[n - 1]);
        valid_utf8_concat(crate::format::stacked(r, n - 1) + r[n - 1], "\n".spec_bytes());
    } else {
        lemma_empty_valid();
    }
}

proof fn lemma_tail(s: Seq<u8>)
    requires
        valid_utf8(s),
    ensures
        valid_utf8(crate::format::tail(s, content(s))),
        crate::format::tail(s, content(s)).len() > 0 ==> 0 < content(s) < indent::lines(s).len()
            && indent::texts(crate::format::tail(s, content(s))) == indent::texts(s).skip(
            content(s),
        ),
        forall|j: int|
            0 <= j < indent::texts(crate::format::tail(s, content(s))).len() ==> blank(
                #[trigger] indent::texts(crate::format::tail(s, content(s)))[j],
            ),
{
    let n = content(s);
    let texts = indent::texts(s);
    let q = crate::format::tail(s, n);
    crate::format::lemma_content_end(texts, texts.len() as int);
    if q.len() > 0 {
        lemma_texts_behind(s, n);
        indent::lemma_line_boundary(s, n);
        text::lemma_boundary(s, indent::lines(s)[n].0);
        assert forall|j: int| 0 <= j < indent::texts(q).len() implies blank(
            #[trigger] indent::texts(q)[j],
        ) by {
            assert(indent::texts(q)[j] == texts[n + j]);
        }
    } else {
        lemma_empty_valid();
        assert(q =~= Seq::<u8>::empty());
        assert(indent::lines(q).len() == 0);
    }
}

/// The lines of the formatted document.
pub proof fn lemma_formatted(s: Seq<u8>)
    requires
        formattable(s),
        crate::format::formatted(s).len() <= usize::MAX,
    ensures
        valid_utf8(crate::format::formatted(s)),
        renders(s, indent::texts(crate::format::formatted(s))),
        ({
            let t = crate::format::formatted(s);
            let n = content(s);
            let q = crate::format::tail(s, n);
            &&& indent::lines(t).len() == n + indent::texts(q).len()
            &&& n < indent::lines(t).len() ==> text::from(t, indent::lines(t)[n].0) == q
        }),
{
    let t = crate::format::formatted(s);
    let n = content(s);
    let r = crate::format::rendered(s);
    let q = crate::format::tail(s, n);
    let z = crate::format::stacked(r, n).len() as int;
    let u = indent::texts(t);
    lemma_running_start(s);
    crate::format::lemma_content_end(indent::texts(s), indent::texts(s).len() as int);
    assert forall|j: int| 0 <= j < n implies (#[trigger] r[j]).len() <= usize::MAX by {
        lemma_stacked_len(r, n, j);
    }
    lemma_rendered_lines(s, 0, 0);
    assert forall|j: int, x: int|
        0 <= j < r.len() && 0 <= x < r[j].len() implies #[trigger] r[j][x] != ascii::NEWLINE by {
        assert(is_line(r[j]));
    }
    lemma_stacked_valid(r, n);
    lemma_tail(s);
    valid_utf8_concat(crate::format::stacked(r, n), q);
    lemma_texts_stacked(r, n, q, 0);
    lemma_texts_shifted(crate::format::stacked(r, n), q, 0);
    assert(texts_from(t, 0) =~= u);
    assert(texts_from(q, 0) =~= indent::texts(q));
    assert(u =~= r.subrange(0, n) + indent::texts(q));
    assert forall|j: int| 0 <= j < u.len() implies (#[trigger] u[j]).len() <= usize::MAX by {
        lemma_line(t, j);
    }
    assert forall|j: int| n <= j < u.len() implies blank(#[trigger] u[j]) by {
        assert(u[j] == indent::texts(q)[j - n]);
    }
    if n < indent::lines(t).len() {
        indent::lemma_lines(t, z);
        assert(indent::lines(t)[n] == indent::lines(t).skip(n)[0]);
        assert(text::from(t, z) =~= q);
    }
}

// ---------------------------------------------------------------------------------------------
// Formatting twice
// ---------------------------------------------------------------------------------------------

/// Whether the statements of `t` have the shapes and depths of those of `s`.
pub open spec fn same_structure(s: Seq<u8>, t: Seq<u8>) -> bool {
    &&& raw(t).len() == raw(s).len()
    &&& forall|m: int|
        0 <= m < raw(s).len() ==> same_shape(
            shape_of(#[trigger] raw(t)[m]),
            raw(s)[m],
            crate::format::depth_of(syntax::stmts(s), m),
        )
    &&& forall|m: int|
        0 <= m < raw(s).len() ==> #[trigger] crate::format::depth_of(syntax::stmts(t), m)
            == crate::format::depth_of(syntax::stmts(s), m)
}

proof fn lemma_same_structure(s: Seq<u8>, t: Seq<u8>)
    requires
        formattable(s),
        valid_utf8(t),
        t.len() <= usize::MAX,
        renders(s, indent::texts(t)),
    ensures
        same_structure(s, t),
        !syntax::broken(syntax::stmts(t)),
{
    let u = indent::texts(t);
    let old = raw(s);
    let new = raw(t);
    lemma_running_start(s);
    lemma_new_shapes(s, u, 0, 0);
    lemma_shapes(t, 0);
    let shapes = shapes_from(u, 0);
    assert(new.map_values(|st: Stmt| shape_of(st)) == shapes);
    assert(new.len() == shapes.len());
    assert forall|m: int| 0 <= m < old.len() implies same_shape(
        shape_of(#[trigger] new[m]),
        old[m],
        crate::format::depth_of(syntax::stmts(s), m),
    ) by {
        assert(shapes[m - 0] == shape_of(new[m]));
        assert(same_shape(shapes[m - 0], old[m], crate::format::depth_of(syntax::stmts(s), m)));
    }
    lemma_raw_len(s);
    lemma_raw_len(t);
    assert forall|j: int| 0 <= j < old.len() implies (#[trigger] new[j]).kind == old[j].kind by {
        assert(same_shape(shape_of(new[j]), old[j], crate::format::depth_of(syntax::stmts(s), j)));
    }
    assert forall|j: int| 0 <= j < old.len() implies (#[trigger] new[j]).width == 2
        * crate::format::depth_of(syntax::with_parents(old), j) by {
        assert(same_shape(shape_of(new[j]), old[j], crate::format::depth_of(syntax::stmts(s), j)));
    }
    assert forall|m: int| 0 <= m < old.len() implies #[trigger] crate::format::depth_of(
        syntax::stmts(t),
        m,
    ) == crate::format::depth_of(syntax::stmts(s), m) by {
        lemma_same_depth(old, new, m);
    }
    if syntax::broken(syntax::stmts(t)) {
        let m = choose|m: int|
            0 <= m < syntax::stmts(t).len() && (#[trigger] syntax::stmts(t)[m]).kind
                == StmtKind::Error;
        assert(new[m].kind == StmtKind::Error);
        assert(syntax::stmts(s)[m].kind == old[m].kind);
    }
}

/// A line of the formatted document is formatted to itself.
proof fn lemma_same_header(s: Seq<u8>, t: Seq<u8>, i: int, k: int)
    requires
        formattable(s),
        valid_utf8(t),
        t.len() <= usize::MAX,
        renders(s, indent::texts(t)),
        same_structure(s, t),
        !syntax::broken(syntax::stmts(t)),
        running(s, i, k),
        running(t, i, k),
        i < indent::lines(s).len(),
        !blank(indent::texts(s)[i]),
    ensures
        i < indent::lines(t).len(),
        !blank(indent::texts(t)[i]),
        crate::format::rendered(t)[i] == indent::texts(t)[i],
        raw(t)[k].last_line == raw(s)[k].last_line,
        raw(t)[k].body is Some == raw(s)[k].body is Some,
        raw(t).skip(k + 1) == syntax::stmts_from(t, raw(t)[k].last_line + 1),
        crate::format::rendered(t).skip(i + 1) == crate::format::rendered_from(
            t,
            syntax::stmts(t),
            i + 1,
            k + 1,
        ),
        raw(t)[k].line == i,
        k < raw(t).len(),
        raw(t)[k].last_line < indent::lines(t).len(),
{
    let u = indent::texts(t);
    let h = text::trim(indent::texts(s)[i]);
    lemma_new_header(s, u, i, k);
    lemma_header_line(t, i, k);
    assert(syntax::stmts(t)[k].kind == raw(t)[k].kind);
    lemma_header_text(t, i, k);
    assert(same_shape(
        shape_of(raw(t)[k]),
        raw(s)[k],
        crate::format::depth_of(syntax::stmts(s), k),
    ));
    assert(crate::format::depth_of(syntax::stmts(t), k) == crate::format::depth_of(
        syntax::stmts(s),
        k,
    ));
}

proof fn lemma_other_line_stays(t: Seq<u8>)
    ensures
        crate::format::other_line(crate::format::other_line(t)) == crate::format::other_line(t),
        blank(crate::format::other_line(t)) == blank(t),
{
    lemma_empty_blank();
}

/// Whether line `j` of the formatted document is formatted to itself, and blank where it was before.
pub open spec fn stays(s: Seq<u8>, t: Seq<u8>, j: int) -> bool {
    crate::format::rendered(t)[j] == indent::texts(t)[j] && blank(indent::texts(t)[j]) == blank(
        indent::texts(s)[j],
    )
}

/// What the two documents have to do with each other.
pub open spec fn paired(s: Seq<u8>, t: Seq<u8>) -> bool {
    &&& formattable(s)
    &&& valid_utf8(t)
    &&& t.len() <= usize::MAX
    &&& renders(s, indent::texts(t))
    &&& same_structure(s, t)
    &&& !syntax::broken(syntax::stmts(t))
}

proof fn lemma_further_stays(s: Seq<u8>, t: Seq<u8>, k: int, j: int)
    requires
        renders(s, indent::texts(t)),
        0 <= j < content(s),
        raw(t)[k].body is Some == raw(s)[k].body is Some,
        crate::format::rendered(s)[j] == further_line(s, k, j),
        crate::format::rendered(t)[j] == further_line(t, k, j),
    ensures
        stays(s, t, j),
{
    assert(indent::texts(t)[j] == crate::format::rendered(s)[j]);
    lemma_other_line_stays(indent::texts(s)[j]);
}

/// The lines of a statement of the formatted document are formatted to themselves.
#[verifier::rlimit(40)]
proof fn lemma_statement_stays(s: Seq<u8>, t: Seq<u8>, i: int, k: int)
    requires
        paired(s, t),
        running(s, i, k),
        running(t, i, k),
        i < indent::lines(s).len(),
        !blank(indent::texts(s)[i]),
    ensures
        i <= raw(s)[k].last_line < content(s),
        forall|j: int| i <= j <= raw(s)[k].last_line ==> #[trigger] stays(s, t, j),
        running(s, raw(s)[k].last_line + 1, k + 1),
        running(t, raw(s)[k].last_line + 1, k + 1),
{
    let u = indent::texts(t);
    lemma_new_shape(s, u, i, k);
    lemma_header_line(s, i, k);
    lemma_further_lines(s, k, i + 1);
    lemma_same_header(s, t, i, k);
    lemma_further_lines(t, k, i + 1);
    let last = raw(s)[k].last_line as int;
    assert forall|j: int| i <= j <= last implies #[trigger] stays(s, t, j) by {
        if i < j {
            assert(crate::format::rendered(s)[j] == further_line(s, k, j));
            assert(crate::format::rendered(t)[j] == further_line(t, k, j));
            lemma_further_stays(s, t, k, j);
        }
    }
}

proof fn lemma_blank_stays(s: Seq<u8>, t: Seq<u8>, i: int, k: int)
    requires
        paired(s, t),
        running(s, i, k),
        running(t, i, k),
        i < content(s) <= indent::lines(s).len(),
        blank(indent::texts(s)[i]),
    ensures
        stays(s, t, i),
        running(s, i + 1, k),
        running(t, i + 1, k),
{
    lemma_empty_blank();
    lemma_blank_line(s, i, k);
    assert(indent::texts(t)[i] == crate::format::rendered(s)[i]);
    lemma_blank_line(t, i, k);
}

/// The lines of the formatted document are formatted to themselves.
#[verifier::rlimit(40)]
proof fn lemma_lockstep(s: Seq<u8>, t: Seq<u8>, i: int, k: int)
    requires
        paired(s, t),
        running(s, i, k),
        running(t, i, k),
        content(s) <= indent::lines(s).len(),
        i <= content(s),
    ensures
        forall|j: int| i <= j < content(s) ==> #[trigger] stays(s, t, j),
    decreases indent::lines(s).len() - i,
{
    if i < content(s) {
        if blank(indent::texts(s)[i]) {
            lemma_blank_stays(s, t, i, k);
            lemma_lockstep(s, t, i + 1, k);
        } else {
            lemma_statement_stays(s, t, i, k);
            lemma_lockstep(s, t, raw(s)[k].last_line + 1, k + 1);
        }
    }
}

proof fn lemma_content_is(lines: Seq<Seq<u8>>, n: int, k: int)
    requires
        0 <= n <= k <= lines.len(),
        n > 0 ==> !blank(lines[n - 1]),
        forall|j: int| n <= j < k ==> blank(#[trigger] lines[j]),
    ensures
        crate::format::content_end(lines, k) == n,
    decreases k,
{
    if k > n {
        assert(blank(lines[k - 1]));
        lemma_content_is(lines, n, k - 1);
    }
}

proof fn lemma_stacked_same(r: Seq<Seq<u8>>, q: Seq<Seq<u8>>, n: int)
    requires
        forall|j: int| 0 <= j < n ==> #[trigger] q[j] == r[j],
    ensures
        crate::format::stacked(q, n) == crate::format::stacked(r, n),
    decreases n,
{
    if n > 0 {
        lemma_stacked_same(r, q, n - 1);
        assert(q[n - 1] == r[n - 1]);
    }
}

proof fn lemma_same_bodies(s: Seq<u8>, t: Seq<u8>, i: int)
    requires
        same_structure(s, t),
        crate::format::in_body(syntax::stmts(s), i),
    ensures
        crate::format::in_body(syntax::stmts(t), i),
{
    let old = syntax::stmts(s);
    let k = choose|k: int|
        0 <= k < old.len() && (#[trigger] old[k]).body is Some && old[k].line < i
            <= old[k].last_line;
    assert(same_shape(
        shape_of(raw(t)[k]),
        raw(s)[k],
        crate::format::depth_of(old, k),
    ));
    let st = syntax::stmts(t)[k];
    assert(st.body is Some && st.line < i <= st.last_line);
}

/// Formatting renders the lines of a formatted document as they are.
proof fn lemma_rendered_twice(s: Seq<u8>)
    requires
        formattable(s),
        crate::format::formatted(s).len() <= usize::MAX,
    ensures
        !syntax::broken(syntax::stmts(crate::format::formatted(s))),
        crate::format::formatted(crate::format::formatted(s)) == crate::format::formatted(s),
{
    let t = crate::format::formatted(s);
    let n = content(s);
    let u = indent::texts(t);
    let q = crate::format::tail(s, n);
    lemma_formatted(s);
    lemma_same_structure(s, t);
    lemma_running_start(s);
    lemma_running_start(t);
    crate::format::lemma_content_end(indent::texts(s), indent::texts(s).len() as int);
    lemma_lockstep(s, t, 0, 0);
    if n > 0 {
        assert(stays(s, t, n - 1));
    }
    lemma_content_is(u, n, u.len() as int);
    assert(content(t) == n);
    assert forall|j: int| 0 <= j < n implies #[trigger] crate::format::rendered(t)[j]
        == crate::format::rendered(s)[j] by {
        assert(stays(s, t, j));
        assert(u[j] == crate::format::rendered(s)[j]);
    }
    lemma_stacked_same(crate::format::rendered(s), crate::format::rendered(t), n);
    lemma_tail(s);
    if q.len() > 0 {
        lemma_texts_behind(s, n);
        assert(indent::texts(q).len() == indent::lines(s).len() - n);
        lemma_same_bodies(s, t, n - 1);
        assert(crate::format::tail(t, n) == q);
    } else {
        assert(q =~= Seq::<u8>::empty());
        assert(indent::lines(q).len() == 0);
        assert(indent::texts(q).len() == 0);
        assert(crate::format::tail(t, n) =~= q);
    }
}

/// Formatting keeps the statements: their number, their kinds, what each lies below, and which of
/// them have the body of a block scalar.
pub proof fn law_formatting_keeps_statements(s: Seq<u8>)
    requires
        formattable(s),
        crate::format::formatted(s).len() <= usize::MAX,
    ensures
        syntax::stmts(crate::format::formatted(s)).len() == syntax::stmts(s).len(),
        forall|m: int|
            0 <= m < syntax::stmts(s).len() ==> {
                let new = #[trigger] syntax::stmts(crate::format::formatted(s))[m];
                let old = syntax::stmts(s)[m];
                &&& new.kind == old.kind
                &&& new.parent == old.parent
                &&& new.line == old.line
                &&& new.last_line == old.last_line
                &&& new.body is Some == old.body is Some
            },
{
    let t = crate::format::formatted(s);
    lemma_formatted(s);
    lemma_same_structure(s, t);
    lemma_raw_len(s);
    let old = raw(s);
    let new = raw(t);
    assert forall|j: int| 0 <= j < old.len() implies (#[trigger] new[j]).kind == old[j].kind by {
        assert(same_shape(shape_of(new[j]), old[j], crate::format::depth_of(syntax::stmts(s), j)));
    }
    assert forall|j: int| 0 <= j < old.len() implies (#[trigger] new[j]).width == 2
        * crate::format::depth_of(syntax::with_parents(old), j) by {
        assert(same_shape(shape_of(new[j]), old[j], crate::format::depth_of(syntax::stmts(s), j)));
    }
    assert forall|m: int| 0 <= m < syntax::stmts(s).len() implies {
        let new = #[trigger] syntax::stmts(t)[m];
        let old = syntax::stmts(s)[m];
        &&& new.kind == old.kind
        &&& new.parent == old.parent
        &&& new.line == old.line
        &&& new.last_line == old.last_line
        &&& new.body is Some == old.body is Some
    } by {
        lemma_same_parent(old, new, m);
        assert(same_shape(shape_of(new[m]), old[m], crate::format::depth_of(syntax::stmts(s), m)));
    }
}

/// Each statement is where both parsing and formatting come upon it.
pub proof fn lemma_running_at(s: Seq<u8>, i: int, k: int, m: int)
    requires
        valid_utf8(s),
        s.len() <= usize::MAX,
        running(s, i, k),
        k <= m < raw(s).len(),
    ensures
        running(s, raw(s)[m].line as int, m),
        raw(s)[m].line < indent::lines(s).len(),
        !blank(indent::texts(s)[raw(s)[m].line as int]),
    decreases m - k,
{
    let next = next_content(indent::texts(s), i);
    lemma_to_next(s, i, k);
    lemma_next_content(indent::texts(s), i);
    if next == indent::lines(s).len() {
        assert(syntax::stmts_from(s, next).len() == 0);
        assert(raw(s).skip(k).len() == raw(s).len() - k);
    }
    lemma_header_line(s, next, k);
    if k < m {
        lemma_further_lines(s, k, next + 1);
        lemma_running_at(s, raw(s)[k].last_line + 1, k + 1, m);
    }
}

/// Whether a statement has the key that a line says which reads `h`, and its value where it is
/// neither an array nor a block scalar.
#[verifier::opaque]
pub open spec fn reads(s: Seq<u8>, st: Stmt, h: Seq<u8>) -> bool {
    let hd = syntax::head(h);
    if indent::comment(h) {
        syntax::cut(s, st.key) == h && st.value is None
    } else {
        &&& syntax::cut(s, st.key) == syntax::cut(h, hd.key)
        &&& st.kind == hd.kind
        &&& st.value is Some == hd.value is Some
        &&& st.value matches Some(v) ==> {
            &&& s[v.start as int] == h[(hd.value->0).start as int]
            &&& st.body is Some || (st.kind == StmtKind::Property && s[v.start as int]
                == ascii::OPEN_BRACKET) || syntax::cut(s, v) == syntax::cut(h, hd.value->0)
        }
    }
}

proof fn lemma_reads(s: Seq<u8>, i: int)
    requires
        valid_utf8(s),
        s.len() <= usize::MAX,
        0 <= i < indent::lines(s).len(),
        !blank(indent::texts(s)[i]),
        syntax::stmt_at(s, i).kind != StmtKind::Error,
    ensures
        reads(s, syntax::stmt_at(s, i), text::trim(indent::texts(s)[i])),
{
    reveal(reads);
    let h = text::trim(indent::texts(s)[i]);
    let (a, b) = syntax::text_at(s, i);
    lemma_text_at(s, i);
    assert(s.subrange(a, b) == h);
    let hd = syntax::head(h);
    if !indent::comment(h) {
        syntax::lemma_head(h);
        let st = syntax::stmt_at(s, i);
        assert(st.key == syntax::moved(hd.key, a));
        assert(syntax::cut(s, st.key) =~= syntax::cut(h, hd.key));
        if let Some(v) = hd.value {
            assert(h[v.start as int] == s[v.start + a]);
            assert(syntax::cut(s, syntax::moved(v, a)) =~= syntax::cut(h, v));
        }
    }
}

/// Two statements that say `h` and its tidy form have the same key, and the same value where it is
/// neither an array nor a block scalar.
proof fn lemma_same_texts(s: Seq<u8>, old: Stmt, t: Seq<u8>, new: Stmt, h: Seq<u8>)
    requires
        reads(s, old, h),
        reads(t, new, said(h)),
        valid_utf8(h),
        clean(h),
        h.len() <= usize::MAX,
        said(h).len() <= usize::MAX,
        indent::comment(said(h)) == indent::comment(h),
        !indent::comment(h) ==> syntax::head(h).kind != StmtKind::Error,
        new.body is Some == old.body is Some,
    ensures
        syntax::cut(t, new.key) == syntax::cut(s, old.key),
        new.value is Some == old.value is Some,
        old.value matches Some(v) ==> old.body is Some || (old.kind == StmtKind::Property
            && s[v.start as int] == ascii::OPEN_BRACKET) || syntax::cut(t, new.value->0)
            == syntax::cut(s, v),
{
    reveal(reads);
    if !indent::comment(h) {
        lemma_tidied(h);
        if let Some(v) = syntax::head(h).value {
            let w = syntax::head(said(h)).value->0;
            assert(syntax::cut(h, v)[0] == h[v.start as int]);
            assert(syntax::cut(said(h), w)[0] == said(h)[w.start as int]);
        }
    }
}

/// Formatting keeps the key of each statement, and its value where it is neither an array nor a
/// block scalar.
pub proof fn law_formatting_keeps_texts(s: Seq<u8>, m: int)
    requires
        formattable(s),
        crate::format::formatted(s).len() <= usize::MAX,
        0 <= m < syntax::stmts(s).len(),
    ensures
        ({
            let t = crate::format::formatted(s);
            let new = syntax::stmts(t)[m];
            let old = syntax::stmts(s)[m];
            &&& syntax::cut(t, new.key) == syntax::cut(s, old.key)
            &&& new.value is Some == old.value is Some
            &&& old.value matches Some(v) ==> old.body is Some || (old.kind == StmtKind::Property
                && s[v.start as int] == ascii::OPEN_BRACKET) || syntax::cut(t, new.value->0)
                == syntax::cut(s, v)
        }),
{
    let t = crate::format::formatted(s);
    let u = indent::texts(t);
    lemma_formatted(s);
    lemma_same_structure(s, t);
    lemma_raw_len(s);
    lemma_raw_len(t);
    lemma_running_start(s);
    lemma_running_at(s, 0, 0, m);
    let i = raw(s)[m].line as int;
    let h = text::trim(indent::texts(s)[i]);
    assert(same_shape(
        shape_of(raw(t)[m]),
        raw(s)[m],
        crate::format::depth_of(syntax::stmts(s), m),
    ));
    lemma_new_header(s, u, i, m);
    syntax::lemma_stmt_line(t, 0, m);
    assert(raw(t)[m] == syntax::stmt_at(t, i));
    lemma_reads(s, i);
    lemma_reads(t, i);
    lemma_same_texts(s, raw(s)[m], t, raw(t)[m], h);
}

proof fn lemma_body_lines(s: Seq<u8>, w: int, j: int, last: int, x: int)
    requires
        0 <= last < j <= indent::lines(s).len(),
        j <= x <= syntax::body_last(s, w, j, last),
    ensures
        syntax::blank_at(s, x) || syntax::width_at(s, x) > w,
    decreases indent::lines(s).len() - j,
{
    syntax::lemma_body_last(s, w, j, last);
    if j < indent::lines(s).len() {
        if syntax::blank_at(s, j) {
            if x > j {
                lemma_body_lines(s, w, j + 1, last, x);
            }
        } else if syntax::width_at(s, j) > w {
            if x > j {
                lemma_body_lines(s, w, j + 1, j, x);
            }
        }
    }
}

proof fn lemma_body_deeper(s: Seq<u8>, k: int, x: int)
    requires
        valid_utf8(s),
        s.len() <= usize::MAX,
        0 <= k < syntax::stmts(s).len(),
        syntax::stmts(s)[k].body is Some,
        syntax::stmts(s)[k].line < x <= syntax::stmts(s)[k].last_line,
    ensures
        blank(indent::texts(s)[x]) || syntax::width(indent::texts(s)[x])
            > syntax::stmts(s)[k].width,
        announces(syntax::cut(s, syntax::stmts(s)[k].span)),
{
    reveal(announces);
    syntax::lemma_stmts(s);
    syntax::lemma_stmt_line(s, 0, k);
    syntax::lemma_lines_count(s, 0);
    assert(syntax::stmt_ok(s, syntax::stmts(s)[k]));
    let st = raw(s)[k];
    let i = st.line as int;
    syntax::lemma_stmt_at(s, i);
    syntax::lemma_body_last(s, syntax::width_at(s, i), i + 1, i);
    lemma_body_lines(s, syntax::width_at(s, i), i + 1, i, x);
    lemma_blank_at(s, x);
    lemma_text_at(s, i);
}

/// A document is formatted in which each line fits some kind, no marker line is indented less than it
/// will be and nothing but the bodies lies below the markers.
pub proof fn law_well_indented_is_formattable(s: Seq<u8>)
    requires
        valid_utf8(s),
        s.len() <= usize::MAX,
        !syntax::broken(syntax::stmts(s)),
        forall|k: int|
            0 <= k < syntax::stmts(s).len() && announces(
                syntax::cut(s, (#[trigger] syntax::stmts(s)[k]).span),
            ) ==> syntax::stmts(s)[k].width >= 2 * crate::format::depth_of(syntax::stmts(s), k),
        scalars_are_leaves(s),
    ensures
        formattable(s),
{
    reveal(deep_bodies);
    let stmts = syntax::stmts(s);
    assert forall|k: int, j: int|
        #![trigger stmts[k], indent::texts(s)[j]]
        0 <= k < stmts.len() && stmts[k].body is Some && stmts[k].line < j
            <= stmts[k].last_line implies blank(indent::texts(s)[j]) || syntax::width(
        indent::texts(s)[j],
    ) > 2 * crate::format::depth_of(stmts, k) by {
        lemma_body_deeper(s, k, j);
    }
}


proof fn lemma_still_deep(s: Seq<u8>, t: Seq<u8>)
    requires
        formattable(s),
        valid_utf8(t),
        t.len() <= usize::MAX,
        renders(s, indent::texts(t)),
        same_structure(s, t),
    ensures
        deep_bodies(t),
{
    reveal(deep_bodies);
    let u = indent::texts(t);
    let stmts = syntax::stmts(t);
    lemma_raw_len(s);
    lemma_raw_len(t);
    assert forall|k: int, j: int|
        #![trigger stmts[k], u[j]]
        0 <= k < stmts.len() && stmts[k].body is Some && stmts[k].line < j
            <= stmts[k].last_line implies text::trim(u[j]).len() == 0 || syntax::width(u[j]) > 2
        * crate::format::depth_of(stmts, k) by {
        assert(same_shape(
            shape_of(raw(t)[k]),
            raw(s)[k],
            crate::format::depth_of(syntax::stmts(s), k),
        ));
        syntax::lemma_stmts(t);
        assert(syntax::stmt_ok(t, stmts[k]));
        lemma_body_line_stays(s, t, k, j);
    }
}

/// A line of a block scalar is as deep below its marker line in the formatted document.
proof fn lemma_body_line_stays(s: Seq<u8>, t: Seq<u8>, k: int, j: int)
    requires
        formattable(s),
        valid_utf8(t),
        t.len() <= usize::MAX,
        renders(s, indent::texts(t)),
        same_structure(s, t),
        0 <= k < raw(s).len(),
        raw(s)[k].body is Some,
        raw(s)[k].line < j <= raw(s)[k].last_line < indent::texts(t).len(),
    ensures
        blank(indent::texts(t)[j]) || syntax::width(indent::texts(t)[j]) > 2
            * crate::format::depth_of(syntax::stmts(t), k),
{
    let u = indent::texts(t);
    assert(crate::format::depth_of(syntax::stmts(t), k) == crate::format::depth_of(
        syntax::stmts(s),
        k,
    ));
    if j < content(s) {
        let i = raw(s)[k].line as int;
        lemma_running_start(s);
        lemma_running_at(s, 0, 0, k);
        lemma_header_line(s, i, k);
        lemma_further_lines(s, k, i + 1);
        lemma_deep_body(s, k, j);
        assert(u[j] == crate::format::rendered(s)[j]);
    } else {
        assert(blank(u[j]));
    }
}

/// A statement of the formatted document says what it said, tidied.
proof fn lemma_said_text(s: Seq<u8>, t: Seq<u8>, m: int)
    requires
        formattable(s),
        valid_utf8(t),
        t.len() <= usize::MAX,
        renders(s, indent::texts(t)),
        same_structure(s, t),
        0 <= m < raw(s).len(),
    ensures
        announces(syntax::cut(t, syntax::stmts(t)[m].span)) == announces(
            syntax::cut(s, syntax::stmts(s)[m].span),
        ),
{
    let u = indent::texts(t);
    lemma_running_start(s);
    lemma_running_at(s, 0, 0, m);
    let i = raw(s)[m].line as int;
    let h = text::trim(indent::texts(s)[i]);
    assert(same_shape(
        shape_of(raw(t)[m]),
        raw(s)[m],
        crate::format::depth_of(syntax::stmts(s), m),
    ));
    lemma_new_header(s, u, i, m);
    syntax::lemma_stmt_line(t, 0, m);
    assert(raw(t)[m] == syntax::stmt_at(t, i));
    lemma_stmt_text(s, i, m);
    lemma_stmt_text(t, i, m);
    lemma_said_opens(h);
}

proof fn lemma_still_leaves(s: Seq<u8>)
    requires
        formattable(s),
        crate::format::formatted(s).len() <= usize::MAX,
    ensures
        scalars_are_leaves(crate::format::formatted(s)),
{
    reveal(scalars_are_leaves);
    let t = crate::format::formatted(s);
    let stmts = syntax::stmts(t);
    lemma_formatted(s);
    lemma_same_structure(s, t);
    lemma_raw_len(s);
    law_formatting_keeps_statements(s);
    assert forall|k: int, p: int|
        #![trigger stmts[k], stmts[p]]
        0 <= p < k < stmts.len() && stmts[k].parent == Some(p as usize) implies !announces(
        syntax::cut(t, stmts[p].span),
    ) by {
        assert(syntax::stmts(s)[k].parent == Some(p as usize));
        lemma_said_text(s, t, p);
        assert(!announces(syntax::cut(s, syntax::stmts(s)[p].span)));
    }
}

/// Formatting a formatted document gives it back: it is formatted again, and nothing changes.
pub proof fn law_formatting_twice(s: Seq<u8>)
    requires
        formattable(s),
        crate::format::formatted(s).len() <= usize::MAX,
    ensures
        formattable(crate::format::formatted(s)),
        crate::format::formatted(crate::format::formatted(s)) == crate::format::formatted(s),
{
    let t = crate::format::formatted(s);
    lemma_formatted(s);
    lemma_same_structure(s, t);
    lemma_rendered_twice(s);
    lemma_still_deep(s, t);
    lemma_still_leaves(s);
}

proof fn lemma_body_ends(s: Seq<u8>, w: int, j: int, last: int)
    requires
        0 <= last < j <= indent::lines(s).len(),
    ensures
        syntax::body_last(s, w, j, last) == last || !syntax::blank_at(
            s,
            syntax::body_last(s, w, j, last),
        ),
    decreases indent::lines(s).len() - j,
{
    if j < indent::lines(s).len() {
        if syntax::blank_at(s, j) {
            lemma_body_ends(s, w, j + 1, last);
        } else if syntax::width_at(s, j) > w {
            lemma_body_ends(s, w, j + 1, j);
        }
    }
}

/// Formatting keeps each line of a block scalar as it is.
pub proof fn law_formatting_keeps_bodies(s: Seq<u8>, k: int, j: int)
    requires
        formattable(s),
        crate::format::formatted(s).len() <= usize::MAX,
        0 <= k < syntax::stmts(s).len(),
        syntax::stmts(s)[k].body is Some,
        syntax::stmts(s)[k].line < j <= syntax::stmts(s)[k].last_line,
    ensures
        j < indent::texts(crate::format::formatted(s)).len(),
        indent::texts(crate::format::formatted(s))[j] == indent::texts(s)[j],
{
    let t = crate::format::formatted(s);
    let u = indent::texts(t);
    lemma_formatted(s);
    lemma_raw_len(s);
    lemma_running_start(s);
    lemma_running_at(s, 0, 0, k);
    let i = raw(s)[k].line as int;
    let last = raw(s)[k].last_line as int;
    lemma_header_line(s, i, k);
    lemma_further_lines(s, k, i + 1);
    syntax::lemma_lines_count(s, 0);
    lemma_body_ends(s, syntax::width_at(s, i), i + 1, i);
    syntax::lemma_body_last(s, syntax::width_at(s, i), i + 1, i);
    assert(!syntax::blank_at(s, last));
    lemma_blank_at(s, last);
    lemma_in_content(s, last);
    assert(u[j] == crate::format::rendered(s)[j]);
    assert(crate::format::rendered(s)[j] == further_line(s, k, j));
}


} // verus!
