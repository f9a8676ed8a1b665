//! The structure of an OTUI document.
//!
//! A document is a list of lines. Every line that is not blank starts a statement, except where it
//! goes on with the one above: in the body of a block scalar and inside an array that is not closed
//! yet. What kind of statement it is follows from its text; where it belongs follows from its
//! indentation alone: its parent is the nearest statement above that is indented less. A tab counts
//! as much as a space. A comment belongs where the next statement belongs.
//!
//! A line whose text fits no kind is an [`Error`](StmtKind::Error) statement of its own, so that one
//! bad line does not take the rest of the document with it.

use crate::ascii;
use crate::indent;
use crate::indent::{is_block_scalar_marker, is_comment, split_lines, Line};
use crate::lang_api::ByteSpan;
use crate::text;
use crate::text::{find_byte_at, occurs_at, same_str, substr, trim_range, trimmed};
use vstd::prelude::*;
use vstd::string::*;
use vstd::utf8::*;

verus! {

/// What a statement is.
#[derive(Debug, Clone, Copy, PartialEq, Eq, Structural)]
pub enum StmtKind {
    /// `Name < Base`: a style, or a widget with its base.
    StyleHeader,
    /// `Name`: a widget.
    Container,
    /// `key: value`.
    Property,
    /// `id: value`.
    IdProperty,
    /// `anchors.edge: target`.
    AnchorProperty,
    /// `@event: code`.
    EventProperty,
    /// `&name: value`.
    AliasProperty,
    /// `!key: code`.
    ExprProperty,
    /// `$state !state:`.
    StateSelector,
    /// `- value`.
    ListItem,
    /// `// text` or `# text`.
    Comment,
    /// Anything else.
    Error,
}

/// What the text of one line says.
pub struct Head {
    /// The kind of the statement.
    pub kind: StmtKind,
    /// The token that names it: a name, a tag, a key or an edge.
    pub key: ByteSpan,
    /// The value, where there is one; the base of a style header.
    pub value: Option<ByteSpan>,
    /// The offset behind the `:` that separates key and value.
    pub colon: Option<usize>,
}

/// One statement. The offsets count from the start of the document.
#[derive(Debug, Clone, Copy, PartialEq, Eq)]
pub struct Stmt {
    /// The kind of the statement.
    pub kind: StmtKind,
    /// The line on which it starts.
    pub line: usize,
    /// The number of spaces and tabs in front.
    pub width: usize,
    /// The text of its first line.
    pub span: ByteSpan,
    /// The token that names it.
    pub key: ByteSpan,
    /// The value, over all of its lines.
    pub value: Option<ByteSpan>,
    /// The offset behind the `:` that separates key and value.
    pub colon: Option<usize>,
    /// The body of the block scalar that is its value.
    pub body: Option<ByteSpan>,
    /// The last line that belongs to it, apart from the statements below it.
    pub last_line: usize,
    /// Where the text of that line ends.
    pub end: usize,
    /// The statement that it belongs to.
    pub parent: Option<usize>,
}

/// The span between two offsets.
pub open spec fn span(a: int, b: int) -> ByteSpan {
    ByteSpan { start: a as usize, end: b as usize }
}

/// The span between two offsets, where it is not empty.
pub open spec fn span_of(p: (int, int)) -> Option<ByteSpan> {
    if p.0 < p.1 {
        Some(span(p.0, p.1))
    } else {
        None
    }
}

/// The bytes that a span covers.
pub open spec fn cut(s: Seq<u8>, sp: ByteSpan) -> Seq<u8> {
    s.subrange(sp.start as int, sp.end as int)
}

// ---------------------------------------------------------------------------------------------
// The text of a line
// ---------------------------------------------------------------------------------------------

/// The number of spaces and tabs in front of a line, from offset `i` on.
pub open spec fn width_from(t: Seq<u8>, i: int) -> int
    decreases t.len() - i,
{
    if text::has(t, i, ascii::SPACE) || text::has(t, i, ascii::TAB) {
        1 + width_from(t, i + 1)
    } else {
        0
    }
}

/// The number of spaces and tabs in front of a line.
pub open spec fn width(t: Seq<u8>) -> int {
    width_from(t, 0)
}

/// A line that fits no kind.
pub open spec fn malformed(h: Seq<u8>) -> Head {
    Head { kind: StmtKind::Error, key: span(0, h.len() as int), value: None, colon: None }
}

/// The first offset at or after `i` that holds a space, or the offset of the last byte.
pub open spec fn state_end(h: Seq<u8>, i: int) -> int
    decreases h.len() - i,
{
    if !(0 <= i < h.len() - 1) || h[i] == ascii::SPACE {
        i
    } else {
        state_end(h, i + 1)
    }
}

/// The state names of a selector from offset `i` on, without the `!` that negates one. The last byte
/// of the selector is its `:`.
pub open spec fn states_from(h: Seq<u8>, i: int) -> Seq<(int, int)>
    decreases h.len() - i,
    via states_from_decreases
{
    if !(0 <= i < h.len() - 1) {
        Seq::empty()
    } else if h[i] == ascii::SPACE {
        states_from(h, i + 1)
    } else {
        let e = state_end(h, i);
        seq![(if h[i] == ascii::BANG { i + 1 } else { i }, e)] + states_from(h, e)
    }
}

#[via_fn]
proof fn states_from_decreases(h: Seq<u8>, i: int) {
    lemma_state_end(h, i);
}

/// A state name ends behind its start, before the `:` of the selector.
pub proof fn lemma_state_end(h: Seq<u8>, i: int)
    ensures
        i <= state_end(h, i),
        0 <= i < h.len() ==> state_end(h, i) <= h.len() - 1,
        0 <= i < h.len() - 1 && h[i] != ascii::SPACE ==> i < state_end(h, i),
    decreases h.len() - i,
{
    if 0 <= i < h.len() - 1 && h[i] != ascii::SPACE {
        lemma_state_end(h, i + 1);
    }
}

/// Whether each of the spans covers something.
pub open spec fn all_named(names: Seq<(int, int)>) -> bool {
    forall|k: int| 0 <= k < names.len() ==> (#[trigger] names[k]).0 < names[k].1
}

/// What a line says that starts with `$`: a selector is one or more state names up to its only `:`.
pub open spec fn selector_head(h: Seq<u8>) -> Head {
    let names = states_from(h, 1);
    if text::find_byte(h, ascii::COLON, 0) == Some(h.len() - 1) && names.len() > 0 && all_named(names) {
        Head {
            kind: StmtKind::StateSelector,
            key: span(0, h.len() as int),
            value: None,
            colon: None,
        }
    } else {
        malformed(h)
    }
}

/// What a line says whose first `:` stands at `k`.
pub open spec fn colon_head(h: Seq<u8>, k: int) -> Head {
    let value = span_of(text::trim_at(h, k + 1, h.len() as int));
    let colon = Some((k + 1) as usize);
    let lead: int = if h[0] == ascii::AT_SIGN || h[0] == ascii::AMPERSAND || h[0] == ascii::BANG {
        1
    } else {
        0
    };
    let key = text::trim_at(h, lead, k);
    let name = h.subrange(key.0, key.1);
    let named = |kind: StmtKind| Head { kind, key: span(key.0, key.1), value, colon };
    if name.len() == 0 {
        malformed(h)
    } else if h[0] == ascii::AT_SIGN {
        named(StmtKind::EventProperty)
    } else if h[0] == ascii::AMPERSAND {
        named(StmtKind::AliasProperty)
    } else if h[0] == ascii::BANG {
        named(StmtKind::ExprProperty)
    } else if text::find_byte(name, ascii::TAB, 0) is Some {
        malformed(h)
    } else if name == "id".spec_bytes() {
        named(StmtKind::IdProperty)
    } else if text::occurs(name, 0, "anchors.".spec_bytes()) {
        if name.len() > 8 {
            Head {
                kind: StmtKind::AnchorProperty,
                key: span(key.0 + 8, key.1),
                value,
                colon,
            }
        } else {
            malformed(h)
        }
    } else if name == "anchors".spec_bytes() && value is Some {
        malformed(h)
    } else {
        named(StmtKind::Property)
    }
}

/// What a line says that has no `:`.
pub open spec fn bare_head(h: Seq<u8>) -> Head {
    match text::find_byte(h, ascii::LESS, 0) {
        Some(k) => {
            let name = text::trim_at(h, 0, k);
            let base = text::trim_at(h, k + 1, h.len() as int);
            if name.0 < name.1 && base.0 < base.1 {
                Head {
                    kind: StmtKind::StyleHeader,
                    key: span(name.0, name.1),
                    value: Some(span(base.0, base.1)),
                    colon: None,
                }
            } else {
                malformed(h)
            }
        },
        None => if h[0] == ascii::AT_SIGN || h[0] == ascii::AMPERSAND || h[0] == ascii::BANG {
            malformed(h)
        } else {
            Head {
                kind: StmtKind::Container,
                key: span(0, h.len() as int),
                value: None,
                colon: None,
            }
        },
    }
}

/// What a line says that is neither blank nor a comment.
pub open spec fn head(h: Seq<u8>) -> Head {
    if h[0] == ascii::DASH {
        Head {
            kind: StmtKind::ListItem,
            key: span(0, 1),
            value: span_of(text::trim_at(h, 1, h.len() as int)),
            colon: None,
        }
    } else if h[0] == ascii::DOLLAR {
        selector_head(h)
    } else {
        match text::find_byte(h, ascii::COLON, 0) {
            Some(k) => colon_head(h, k),
            None => bare_head(h),
        }
    }
}

// ---------------------------------------------------------------------------------------------
// Statements
// ---------------------------------------------------------------------------------------------

/// Where the text of line `i` lies without the white space around it.
pub open spec fn text_at(s: Seq<u8>, i: int) -> (int, int) {
    let line = indent::lines(s)[i];
    text::trim_at(s, line.0, line.1)
}

/// Whether line `i` is blank.
pub open spec fn blank_at(s: Seq<u8>, i: int) -> bool {
    text_at(s, i).0 >= text_at(s, i).1
}

/// The number of spaces and tabs in front of line `i`.
pub open spec fn width_at(s: Seq<u8>, i: int) -> int {
    width(indent::texts(s)[i])
}

/// The last line of the body of a block scalar whose marker line is indented by `w`, where `last` is
/// the last one found so far: the lines up to `j` are blank or indented deeper, and so on. Blank
/// lines at its end do not belong to the body.
pub open spec fn body_last(s: Seq<u8>, w: int, j: int, last: int) -> int
    decreases indent::lines(s).len() - j,
{
    if !(0 <= j < indent::lines(s).len()) {
        last
    } else if blank_at(s, j) {
        body_last(s, w, j + 1, last)
    } else if width_at(s, j) > w {
        body_last(s, w, j + 1, j)
    } else {
        last
    }
}

/// The first `]` at or after `i`, when no `[` comes before it.
pub open spec fn closing(s: Seq<u8>, i: int) -> Option<int>
    decreases s.len() - i,
{
    if !(0 <= i < s.len()) || s[i] == ascii::OPEN_BRACKET {
        None
    } else if s[i] == ascii::CLOSE_BRACKET {
        Some(i)
    } else {
        closing(s, i + 1)
    }
}

/// The `]` that closes the array that opens at `p`; nothing else may follow on its line.
pub open spec fn array_close(s: Seq<u8>, p: int) -> Option<int> {
    match closing(s, p + 1) {
        Some(e) => if text::trim(s.subrange(e + 1, text::line_end(s, e + 1))).len() == 0 {
            Some(e)
        } else {
            None
        },
        None => None,
    }
}

/// The last of the first `k` lines that starts at or before `offset`.
pub open spec fn line_of(lines: Seq<(int, int)>, offset: int, k: int) -> int
    decreases k,
{
    if k <= 1 || lines[k - 1].0 <= offset {
        k - 1
    } else {
        line_of(lines, offset, k - 1)
    }
}

/// A span moved by `a`.
pub open spec fn moved(sp: ByteSpan, a: int) -> ByteSpan {
    span(sp.start + a, sp.end + a)
}

/// A comment on line `i`, or what any statement there has in common with it.
pub open spec fn comment_at(s: Seq<u8>, i: int) -> Stmt {
    let (a, b) = text_at(s, i);
    Stmt {
        kind: StmtKind::Comment,
        line: i as usize,
        width: width_at(s, i) as usize,
        span: span(a, b),
        key: span(a, b),
        value: None,
        colon: None,
        body: None,
        last_line: i as usize,
        end: b as usize,
        parent: None,
    }
}

/// The statement on line `i` whose text says `hd`, as far as that line goes.
pub open spec fn one_line(s: Seq<u8>, i: int, hd: Head) -> Stmt {
    let a = text_at(s, i).0;
    Stmt {
        kind: hd.kind,
        key: moved(hd.key, a),
        value: match hd.value {
            Some(v) => Some(moved(v, a)),
            None => None,
        },
        colon: match hd.colon {
            Some(c) => Some((c + a) as usize),
            None => None,
        },
        ..comment_at(s, i)
    }
}

/// The statement on line `i` whose text says `hd` and whose value `v` announces a block scalar.
pub open spec fn with_body(s: Seq<u8>, i: int, hd: Head, v: ByteSpan) -> Stmt {
    let lines = indent::lines(s);
    let last = body_last(s, width_at(s, i), i + 1, i);
    if last > i {
        Stmt {
            value: Some(span(v.start + text_at(s, i).0, lines[last].1)),
            body: Some(span(lines[i + 1].0, lines[last].1)),
            last_line: last as usize,
            end: lines[last].1 as usize,
            ..one_line(s, i, hd)
        }
    } else {
        one_line(s, i, hd)
    }
}

/// The statement on line `i` whose text says `hd` and whose value `v` opens an array.
pub open spec fn with_array(s: Seq<u8>, i: int, hd: Head, v: ByteSpan) -> Stmt {
    let lines = indent::lines(s);
    let p = v.start + text_at(s, i).0;
    match array_close(s, p) {
        Some(e) => Stmt {
            value: Some(span(p, e + 1)),
            last_line: line_of(lines, e, lines.len() as int) as usize,
            end: (e + 1) as usize,
            ..one_line(s, i, hd)
        },
        None => Stmt { kind: StmtKind::Error, ..comment_at(s, i) },
    }
}

/// The statement on line `i` whose text `h` says `hd`.
pub open spec fn stmt_with(s: Seq<u8>, i: int, h: Seq<u8>, hd: Head) -> Stmt {
    match hd.value {
        Some(v) => if hd.kind != StmtKind::StyleHeader && indent::marker(cut(h, v)) {
            with_body(s, i, hd, v)
        } else if hd.kind == StmtKind::Property && h[v.start as int] == ascii::OPEN_BRACKET {
            with_array(s, i, hd, v)
        } else {
            one_line(s, i, hd)
        },
        None => one_line(s, i, hd),
    }
}

/// The statement that starts on line `i`, which is not blank. Its parent is left open.
pub open spec fn stmt_at(s: Seq<u8>, i: int) -> Stmt {
    let (a, b) = text_at(s, i);
    let h = s.subrange(a, b);
    if indent::comment(h) {
        comment_at(s, i)
    } else {
        stmt_with(s, i, h, head(h))
    }
}

/// The statements from line `i` on, with their parents left open.
pub open spec fn stmts_from(s: Seq<u8>, i: int) -> Seq<Stmt>
    decreases indent::lines(s).len() - i,
    via stmts_from_decreases
{
    if !(0 <= i < indent::lines(s).len()) || s.len() > usize::MAX {
        Seq::empty()
    } else if blank_at(s, i) {
        stmts_from(s, i + 1)
    } else {
        let st = stmt_at(s, i);
        seq![st] + stmts_from(s, st.last_line + 1)
    }
}

#[via_fn]
proof fn stmts_from_decreases(s: Seq<u8>, i: int) {
    if 0 <= i < indent::lines(s).len() && !blank_at(s, i) && s.len() <= usize::MAX {
        lemma_last_line(s, i);
    }
}

/// The indentation by which statement `k` is placed: its own, or for a comment that of the next
/// statement.
pub open spec fn placed_width(stmts: Seq<Stmt>, k: int) -> int
    decreases stmts.len() - k,
{
    if !(0 <= k < stmts.len()) {
        0
    } else if stmts[k].kind == StmtKind::Comment {
        placed_width(stmts, k + 1)
    } else {
        stmts[k].width as int
    }
}

/// The last of the first `k` statements that is no comment and is indented by less than `w`.
pub open spec fn enclosing(stmts: Seq<Stmt>, w: int, k: int) -> Option<usize>
    decreases k,
{
    if !(0 < k <= stmts.len()) {
        None
    } else if stmts[k - 1].kind != StmtKind::Comment && stmts[k - 1].width < w {
        Some((k - 1) as usize)
    } else {
        enclosing(stmts, w, k - 1)
    }
}

/// The statements with their parents.
pub open spec fn with_parents(stmts: Seq<Stmt>) -> Seq<Stmt> {
    Seq::new(
        stmts.len(),
        |k: int| Stmt { parent: enclosing(stmts, placed_width(stmts, k), k), ..stmts[k] },
    )
}

/// The statements of a document.
pub open spec fn stmts(s: Seq<u8>) -> Seq<Stmt> {
    with_parents(stmts_from(s, 0))
}

/// Whether some line of the document fits no kind.
pub open spec fn broken(stmts: Seq<Stmt>) -> bool {
    exists|k: int| 0 <= k < stmts.len() && (#[trigger] stmts[k]).kind == StmtKind::Error
}

// ---------------------------------------------------------------------------------------------
// Facts
// ---------------------------------------------------------------------------------------------

/// Whether a span lies in the text and its ends are boundaries.
pub open spec fn in_text(s: Seq<u8>, sp: ByteSpan) -> bool {
    sp.start <= sp.end && text::boundary(s, sp.start as int) && text::boundary(s, sp.end as int)
}

/// Whether the tokens that a line names lie in it.
pub open spec fn head_ok(h: Seq<u8>, hd: Head) -> bool {
    &&& in_text(h, hd.key)
    &&& hd.value matches Some(v) ==> in_text(h, v) && v.start < v.end && hd.key.end <= v.start
    &&& hd.colon matches Some(c) ==> text::boundary(h, c as int) && 0 < c && h[c - 1] == ascii::COLON
}

/// Whether the tokens of a statement lie in the text.
pub open spec fn stmt_ok(s: Seq<u8>, st: Stmt) -> bool {
    &&& in_text(s, st.span)
    &&& st.span.start < st.span.end && st.end <= s.len()
    &&& in_text(s, st.key)
    &&& st.span.start <= st.key.start && st.key.end <= st.span.end
    &&& st.value matches Some(v) ==> in_text(s, v) && st.key.end <= v.start < v.end <= st.end
    &&& st.key.end <= st.end <= indent::lines(s)[st.last_line as int].1
    &&& st.colon matches Some(c) ==> text::boundary(s, c as int) && st.span.start < c
        <= st.span.end
    &&& st.body matches Some(b) ==> in_text(s, b)
    &&& st.line <= st.last_line < indent::lines(s).len()
    &&& indent::lines(s)[st.line as int].0 <= st.span.start
    &&& st.span.end <= indent::lines(s)[st.line as int].1
}

proof fn lemma_key_literals()
    ensures
        "id".spec_bytes().len() == 2,
        "anchors.".spec_bytes().len() == 8,
        "anchors.".spec_bytes()[7] < 0x80,
{
    reveal_strlit("id");
    reveal_strlit("anchors.");
    is_ascii_chars_encode_utf8("id"@);
    is_ascii_chars_encode_utf8("anchors."@);
}

proof fn lemma_colon_head(h: Seq<u8>, k: int)
    requires
        valid_utf8(h),
        0 <= k < h.len() <= usize::MAX,
        h[k] == ascii::COLON,
        forall|j: int| 0 <= j < k ==> h[j] != ascii::COLON,
    ensures
        head_ok(h, colon_head(h, k)),
{
    text::lemma_ends_boundary(h);
    text::lemma_ascii_boundary(h, k);
    text::lemma_trim_at(h, k + 1, h.len() as int);
    let lead: int = if h[0] == ascii::AT_SIGN || h[0] == ascii::AMPERSAND || h[0] == ascii::BANG {
        1
    } else {
        0
    };
    if lead == 1 {
        text::lemma_ascii_boundary(h, 0);
    }
    text::lemma_trim_at(h, lead, k);
    let key = text::trim_at(h, lead, k);
    let name = h.subrange(key.0, key.1);
    lemma_key_literals();
    if text::occurs(name, 0, "anchors.".spec_bytes()) {
        assert(name.subrange(0, 8)[7] == h[key.0 + 7]);
        text::lemma_ascii_boundary(h, key.0 + 7);
    }
}

proof fn lemma_bare_head(h: Seq<u8>)
    requires
        valid_utf8(h),
        0 < h.len() <= usize::MAX,
    ensures
        head_ok(h, bare_head(h)),
{
    text::lemma_ends_boundary(h);
    text::lemma_find_byte(h, ascii::LESS, 0);
    if let Some(k) = text::find_byte(h, ascii::LESS, 0) {
        text::lemma_ascii_boundary(h, k);
        text::lemma_trim_at(h, 0, k);
        text::lemma_trim_at(h, k + 1, h.len() as int);
    }
}

/// The tokens that a line names lie in it.
pub proof fn lemma_head(h: Seq<u8>)
    requires
        valid_utf8(h),
        0 < h.len() <= usize::MAX,
    ensures
        head_ok(h, head(h)),
{
    text::lemma_find_byte(h, ascii::COLON, 0);
    if h[0] == ascii::DASH {
        text::lemma_ends_boundary(h);
        text::lemma_ascii_boundary(h, 0);
        text::lemma_trim_at(h, 1, h.len() as int);
    } else if h[0] == ascii::DOLLAR {
        text::lemma_ends_boundary(h);
    } else {
        match text::find_byte(h, ascii::COLON, 0) {
            Some(k) => lemma_colon_head(h, k),
            None => lemma_bare_head(h),
        }
    }
}

/// What `closing` reports is a `]` in the text.
pub proof fn lemma_closing(s: Seq<u8>, i: int)
    requires
        0 <= i,
    ensures
        closing(s, i) matches Some(e) ==> i <= e < s.len() && s[e] == ascii::CLOSE_BRACKET,
    decreases s.len() - i,
{
    if i < s.len() && s[i] != ascii::OPEN_BRACKET && s[i] != ascii::CLOSE_BRACKET {
        lemma_closing(s, i + 1);
    }
}

/// The body of a block scalar ends on a line of the text.
pub proof fn lemma_body_last(s: Seq<u8>, w: int, j: int, last: int)
    requires
        0 <= last < j <= indent::lines(s).len(),
    ensures
        last <= body_last(s, w, j, last) < indent::lines(s).len(),
    decreases indent::lines(s).len() - j,
{
    if j < indent::lines(s).len() {
        if blank_at(s, j) {
            lemma_body_last(s, w, j + 1, last);
        } else if width_at(s, j) > w {
            lemma_body_last(s, w, j + 1, j);
        }
    }
}

/// The line of an offset at or behind the start of line `i` is line `i` or a later one.
pub proof fn lemma_line_of(s: Seq<u8>, offset: int, i: int, k: int)
    requires
        0 <= i < k <= indent::lines(s).len(),
        indent::lines(s)[i].0 <= offset,
    ensures
        i <= line_of(indent::lines(s), offset, k) < k,
    decreases k,
{
    if k - 1 > i && indent::lines(s)[k - 1].0 > offset {
        lemma_line_of(s, offset, i, k - 1);
    }
}

/// The spaces and tabs in front of a line lie in it.
pub proof fn lemma_width(t: Seq<u8>, i: int)
    requires
        0 <= i <= t.len(),
    ensures
        0 <= width_from(t, i) <= t.len() - i,
    decreases t.len() - i,
{
    if text::has(t, i, ascii::SPACE) || text::has(t, i, ascii::TAB) {
        lemma_width(t, i + 1);
    }
}

/// A statement does not end before the line on which it starts.
pub proof fn lemma_last_line(s: Seq<u8>, i: int)
    requires
        0 <= i < indent::lines(s).len(),
        s.len() <= usize::MAX,
    ensures
        i <= stmt_at(s, i).last_line < indent::lines(s).len(),
{
    let (a, b) = text_at(s, i);
    let h = s.subrange(a, b);
    lemma_lines_count(s, 0);
    if !indent::comment(h) {
        lemma_last_line_with(s, i, h, head(h));
    }
}

proof fn lemma_last_line_with(s: Seq<u8>, i: int, h: Seq<u8>, hd: Head)
    requires
        0 <= i < indent::lines(s).len(),
        s.len() <= usize::MAX,
    ensures
        i <= stmt_with(s, i, h, hd).last_line < indent::lines(s).len(),
{
    let lines = indent::lines(s);
    lemma_lines_count(s, 0);
    indent::lemma_lines(s, 0);
    lemma_body_last(s, width_at(s, i), i + 1, i);
    if let Some(v) = hd.value {
        let p = v.start + text_at(s, i).0;
        lemma_skip_ws_nonneg(s.subrange(lines[i].0, lines[i].1), 0);
        lemma_closing(s, p + 1);
        if let Some(e) = array_close(s, p) {
            lemma_line_of(s, e, i, lines.len() as int);
        }
    }
}

proof fn lemma_skip_ws_nonneg(t: Seq<u8>, i: int)
    ensures
        i <= text::skip_ws(t, i),
    decreases t.len() - i,
{
    if text::ws_len(t, i) > 0 {
        lemma_skip_ws_nonneg(t, i + text::ws_len(t, i));
    }
}

/// There are no more lines than bytes.
pub proof fn lemma_lines_count(s: Seq<u8>, i: int)
    requires
        0 <= i <= s.len(),
    ensures
        indent::lines_from(s, i).len() <= s.len() - i,
    decreases s.len() - i,
{
    if i < s.len() {
        text::lemma_find_byte(s, ascii::NEWLINE, i);
        if let Some(k) = text::find_byte(s, ascii::NEWLINE, i) {
            lemma_lines_count(s, k + 1);
        }
    }
}

/// The tokens of a statement lie in the text.
pub proof fn lemma_stmt_at(s: Seq<u8>, i: int)
    requires
        valid_utf8(s),
        s.len() <= usize::MAX,
        0 <= i < indent::lines(s).len(),
        !blank_at(s, i),
    ensures
        stmt_ok(s, stmt_at(s, i)),
        stmt_at(s, i).line == i,
        stmt_at(s, i).width == width_at(s, i),
        stmt_at(s, i).parent is None,
{
    let line = indent::lines(s)[i];
    indent::lemma_line_boundary(s, i);
    lemma_lines_count(s, 0);
    text::lemma_trim_at(s, line.0, line.1);
    let (a, b) = text_at(s, i);
    let h = s.subrange(a, b);
    text::lemma_part(s, a, b);
    lemma_width(s.subrange(line.0, line.1), 0);
    if !indent::comment(h) {
        lemma_head(h);
        lemma_stmt_with(s, i, h, head(h));
    }
}

proof fn lemma_one_line(s: Seq<u8>, i: int, hd: Head)
    requires
        valid_utf8(s),
        s.len() <= usize::MAX,
        0 <= i < indent::lines(s).len(),
        !blank_at(s, i),
        head_ok(s.subrange(text_at(s, i).0, text_at(s, i).1), hd),
    ensures
        stmt_ok(s, comment_at(s, i)),
        stmt_ok(s, one_line(s, i, hd)),
        one_line(s, i, hd).line == i,
        one_line(s, i, hd).width == width_at(s, i),
        0 <= text_at(s, i).0 <= text_at(s, i).1 <= indent::lines(s)[i].1,
        hd.value matches Some(v) ==> text::boundary(s, v.start + text_at(s, i).0),
{
    let line = indent::lines(s)[i];
    indent::lemma_line_boundary(s, i);
    lemma_lines_count(s, 0);
    text::lemma_trim_at(s, line.0, line.1);
    lemma_width(s.subrange(line.0, line.1), 0);
    let (a, b) = text_at(s, i);
    text::lemma_part(s, a, b);
    assert(text::boundary(s, a + hd.key.start));
    assert(text::boundary(s, a + hd.key.end));
    if let Some(c) = hd.colon {
        assert(text::boundary(s, a + c));
    }
    if let Some(v) = hd.value {
        assert(text::boundary(s, a + v.start));
        assert(text::boundary(s, a + v.end));
    }
}

proof fn lemma_with_body(s: Seq<u8>, i: int, hd: Head, v: ByteSpan)
    requires
        valid_utf8(s),
        s.len() <= usize::MAX,
        0 <= i < indent::lines(s).len(),
        !blank_at(s, i),
        head_ok(s.subrange(text_at(s, i).0, text_at(s, i).1), hd),
        hd.value == Some(v),
    ensures
        stmt_ok(s, with_body(s, i, hd, v)),
{
    lemma_one_line(s, i, hd);
    lemma_lines_count(s, 0);
    let last = body_last(s, width_at(s, i), i + 1, i);
    lemma_body_last(s, width_at(s, i), i + 1, i);
    if last > i {
        indent::lemma_line_boundary(s, last);
        indent::lemma_line_boundary(s, i + 1);
        lemma_lines_ordered(s, i, last);
        lemma_lines_ordered(s, i + 1, last);
    }
}

proof fn lemma_with_array(s: Seq<u8>, i: int, hd: Head, v: ByteSpan)
    requires
        valid_utf8(s),
        s.len() <= usize::MAX,
        0 <= i < indent::lines(s).len(),
        !blank_at(s, i),
        head_ok(s.subrange(text_at(s, i).0, text_at(s, i).1), hd),
        hd.value == Some(v),
    ensures
        stmt_ok(s, with_array(s, i, hd, v)),
{
    let lines = indent::lines(s);
    lemma_one_line(s, i, hd);
    lemma_lines_count(s, 0);
    let p = v.start + text_at(s, i).0;
    lemma_closing(s, p + 1);
    if let Some(e) = array_close(s, p) {
        text::lemma_ascii_boundary(s, e);
        indent::lemma_lines(s, 0);
        lemma_line_of(s, e, i, lines.len() as int);
        lemma_line_end(s, e, lines.len() as int);
    }
}

proof fn lemma_stmt_with(s: Seq<u8>, i: int, h: Seq<u8>, hd: Head)
    requires
        valid_utf8(s),
        s.len() <= usize::MAX,
        0 <= i < indent::lines(s).len(),
        !blank_at(s, i),
        h == s.subrange(text_at(s, i).0, text_at(s, i).1),
        head_ok(h, hd),
    ensures
        stmt_ok(s, stmt_with(s, i, h, hd)),
        stmt_with(s, i, h, hd).line == i,
        stmt_with(s, i, h, hd).width == width_at(s, i),
        stmt_with(s, i, h, hd).parent is None,
{
    lemma_one_line(s, i, hd);
    if let Some(v) = hd.value {
        lemma_with_body(s, i, hd, v);
        lemma_with_array(s, i, hd, v);
    }
}

/// A line ends behind each of its bytes.
proof fn lemma_line_end(s: Seq<u8>, offset: int, k: int)
    requires
        0 < k <= indent::lines(s).len(),
        0 <= offset < s.len(),
        s[offset] != ascii::NEWLINE,
        k < indent::lines(s).len() ==> offset < indent::lines(s)[k].0,
    ensures
        offset < indent::lines(s)[line_of(indent::lines(s), offset, k)].1,
    decreases k,
{
    let lines = indent::lines(s);
    indent::lemma_lines(s, 0);
    if k > 1 && lines[k - 1].0 > offset {
        lemma_line_end(s, offset, k - 1);
    } else {
        assert(line_of(lines, offset, k) == k - 1);
        if k < lines.len() {
            assert(lines[k].0 == lines[k - 1].1 + 1);
            assert(lines[k - 1].1 < s.len());
        } else {
            lemma_last_line_ends(s, 0);
        }
        assert(lines[k - 1].1 == s.len() || s[lines[k - 1].1] == ascii::NEWLINE);
    }
}

/// Nothing but a line feed follows the last line.
pub proof fn lemma_last_line_ends(s: Seq<u8>, i: int)
    requires
        0 <= i < s.len(),
    ensures
        indent::lines_from(s, i).len() > 0,
        indent::lines_from(s, i).last().1 + 1 >= s.len(),
    decreases s.len() - i,
{
    text::lemma_find_byte(s, ascii::NEWLINE, i);
    if let Some(k) = text::find_byte(s, ascii::NEWLINE, i) {
        if k + 1 < s.len() {
            lemma_last_line_ends(s, k + 1);
            assert(indent::lines_from(s, i).last() == indent::lines_from(s, k + 1).last());
        } else {
            assert(indent::lines_from(s, k + 1).len() == 0);
        }
    }
}

/// The lines follow each other.
pub proof fn lemma_lines_ordered(s: Seq<u8>, i: int, j: int)
    requires
        0 <= i <= j < indent::lines(s).len(),
    ensures
        indent::lines(s)[i].0 <= indent::lines(s)[j].0,
        indent::lines(s)[i].1 <= indent::lines(s)[j].1,
        i < j ==> indent::lines(s)[i].1 < indent::lines(s)[j].0,
    decreases j - i,
{
    indent::lemma_lines(s, 0);
    if i < j {
        lemma_lines_ordered(s, i, j - 1);
    }
}

/// Every statement is in order.
proof fn lemma_stmts_from(s: Seq<u8>, i: int, k: int)
    requires
        valid_utf8(s),
        s.len() <= usize::MAX,
        0 <= i,
        0 <= k < stmts_from(s, i).len(),
    ensures
        stmt_ok(s, stmts_from(s, i)[k]),
        stmts_from(s, i).len() <= indent::lines(s).len() - i,
    decreases indent::lines(s).len() - i,
{
    if i < indent::lines(s).len() {
        if blank_at(s, i) {
            lemma_stmts_from(s, i + 1, k);
        } else {
            let st = stmt_at(s, i);
            lemma_stmt_at(s, i);
            lemma_last_line(s, i);
            let rest = stmts_from(s, st.last_line + 1);
            if rest.len() > 0 {
                lemma_stmts_from(s, st.last_line + 1, 0);
            }
            if k > 0 {
                lemma_stmts_from(s, st.last_line + 1, k - 1);
                assert(stmts_from(s, i)[k] == rest[k - 1]);
            }
        }
    }
}

/// What `enclosing` reports is the last statement of its kind.
pub proof fn lemma_enclosing(stmts: Seq<Stmt>, w: int, k: int)
    requires
        0 <= k <= stmts.len() <= usize::MAX,
    ensures
        enclosing(stmts, w, k) matches Some(p) ==> p < k && stmts[p as int].kind
            != StmtKind::Comment && stmts[p as int].width < w && (forall|j: int|
            p < j < k ==> (#[trigger] stmts[j]).kind == StmtKind::Comment || stmts[j].width >= w),
        enclosing(stmts, w, k) is None ==> forall|j: int|
            0 <= j < k ==> (#[trigger] stmts[j]).kind == StmtKind::Comment || stmts[j].width >= w,
    decreases k,
{
    if k > 0 && !(stmts[k - 1].kind != StmtKind::Comment && stmts[k - 1].width < w) {
        lemma_enclosing(stmts, w, k - 1);
    }
}

/// The tokens of every statement lie in the text, and its parent comes before it.
pub proof fn lemma_stmts(s: Seq<u8>)
    requires
        valid_utf8(s),
        s.len() <= usize::MAX,
    ensures
        stmts(s).len() <= s.len(),
        forall|k: int|
            0 <= k < stmts(s).len() ==> stmt_ok(s, #[trigger] stmts(s)[k]) && (stmts(
                s,
            )[k].parent matches Some(p) ==> p < k && stmts(s)[p as int].kind
                != StmtKind::Comment),
{
    let raw = stmts_from(s, 0);
    lemma_lines_count(s, 0);
    if raw.len() > 0 {
        lemma_stmts_from(s, 0, 0);
    }
    assert forall|k: int| 0 <= k < stmts(s).len() implies stmt_ok(s, #[trigger] stmts(s)[k]) && (
    stmts(s)[k].parent matches Some(p) ==> p < k && stmts(s)[p as int].kind
        != StmtKind::Comment) by {
        lemma_stmts_from(s, 0, k);
        lemma_enclosing(raw, placed_width(raw, k), k);
    }
}

/// Statement `k` of the lines from line `i` on is what its line says.
pub proof fn lemma_stmt_line(s: Seq<u8>, i: int, k: int)
    requires
        s.len() <= usize::MAX,
        0 <= i,
        0 <= k < stmts_from(s, i).len(),
    ensures
        i <= stmts_from(s, i)[k].line < indent::lines(s).len(),
        !blank_at(s, stmts_from(s, i)[k].line as int),
        stmts_from(s, i)[k] == stmt_at(s, stmts_from(s, i)[k].line as int),
    decreases indent::lines(s).len() - i,
{
    lemma_lines_count(s, 0);
    if i < indent::lines(s).len() {
        if blank_at(s, i) {
            lemma_stmt_line(s, i + 1, k);
        } else {
            let st = stmt_at(s, i);
            lemma_last_line(s, i);
            let rest = stmts_from(s, st.last_line + 1);
            if k > 0 {
                lemma_stmt_line(s, st.last_line + 1, k - 1);
                assert(stmts_from(s, i)[k] == rest[k - 1]);
            }
        }
    }
}

/// A statement starts on a line behind those of the statements before it.
proof fn lemma_stmt_lines(s: Seq<u8>, i: int, j: int, k: int)
    requires
        s.len() <= usize::MAX,
        0 <= i,
        0 <= j < k < stmts_from(s, i).len(),
    ensures
        stmts_from(s, i)[j].last_line < stmts_from(s, i)[k].line,
    decreases indent::lines(s).len() - i,
{
    lemma_lines_count(s, 0);
    if i < indent::lines(s).len() {
        if blank_at(s, i) {
            lemma_stmt_lines(s, i + 1, j, k);
        } else {
            let st = stmt_at(s, i);
            lemma_last_line(s, i);
            let rest = stmts_from(s, st.last_line + 1);
            assert(stmts_from(s, i)[k] == rest[k - 1]);
            if j > 0 {
                assert(stmts_from(s, i)[j] == rest[j - 1]);
                lemma_stmt_lines(s, st.last_line + 1, j - 1, k - 1);
            } else {
                lemma_stmt_line(s, st.last_line + 1, k - 1);
            }
        }
    }
}

/// The statements of a document follow each other.
pub proof fn lemma_stmts_ordered(s: Seq<u8>, j: int, k: int)
    requires
        valid_utf8(s),
        s.len() <= usize::MAX,
        0 <= j < k < stmts(s).len(),
    ensures
        stmts(s)[j].last_line < stmts(s)[k].line,
        stmts(s)[j].end < stmts(s)[k].span.start,
{
    lemma_stmts(s);
    lemma_stmt_lines(s, 0, j, k);
    assert(stmt_ok(s, stmts(s)[j]));
    assert(stmt_ok(s, stmts(s)[k]));
    lemma_lines_ordered(s, stmts(s)[j].last_line as int, stmts(s)[k].line as int);
}

/// What a line with a `:` is not.
pub proof fn lemma_colon_kind(h: Seq<u8>, k: int)
    ensures
        colon_head(h, k).kind != StmtKind::StyleHeader,
        colon_head(h, k).kind != StmtKind::StateSelector,
        colon_head(h, k).kind != StmtKind::Comment,
{
}

/// What a line without a `:` is not.
pub proof fn lemma_bare_kind(h: Seq<u8>)
    ensures
        bare_head(h).kind == StmtKind::StyleHeader ==> bare_head(h).value is Some,
        bare_head(h).kind != StmtKind::StateSelector,
        bare_head(h).kind != StmtKind::Comment,
{
}

/// A style header has a base.
pub proof fn lemma_header_base(s: Seq<u8>, k: int)
    requires
        s.len() <= usize::MAX,
        0 <= k < stmts(s).len(),
    ensures
        stmts(s)[k].kind == StmtKind::StyleHeader ==> stmts(s)[k].value is Some,
{
    lemma_stmt_line(s, 0, k);
    let i = stmts_from(s, 0)[k].line as int;
    let (a, b) = text_at(s, i);
    let h = s.subrange(a, b);
    if !indent::comment(h) && h[0] != ascii::DASH && h[0] != ascii::DOLLAR {
        lemma_bare_kind(h);
        if let Some(c) = text::find_byte(h, ascii::COLON, 0) {
            lemma_colon_kind(h, c);
        }
    }
}

/// A state name ends at a space or at the `:` of the selector.
pub proof fn lemma_state_stop(h: Seq<u8>, i: int)
    requires
        0 <= i < h.len(),
    ensures
        state_end(h, i) == h.len() - 1 || h[state_end(h, i)] == ascii::SPACE,
    decreases h.len() - i,
{
    if i < h.len() - 1 && h[i] != ascii::SPACE {
        lemma_state_stop(h, i + 1);
    }
}

/// The state names of a selector are parts of its text.
proof fn lemma_states(h: Seq<u8>, i: int)
    requires
        valid_utf8(h),
        0 < h.len(),
        h.last() < 0x80,
        text::boundary(h, i),
    ensures
        forall|k: int|
            0 <= k < states_from(h, i).len() ==> {
                let p = #[trigger] states_from(h, i)[k];
                &&& p.0 <= p.1
                &&& text::boundary(h, p.0)
                &&& text::boundary(h, p.1)
            },
    decreases h.len() - i,
{
    if 0 <= i < h.len() - 1 {
        if h[i] == ascii::SPACE {
            text::lemma_ascii_boundary(h, i);
            lemma_states(h, i + 1);
            assert(states_from(h, i) == states_from(h, i + 1));
        } else {
            let e = state_end(h, i);
            lemma_state_end(h, i);
            lemma_state_stop(h, i);
            text::lemma_ascii_boundary(h, e);
            if h[i] == ascii::BANG {
                text::lemma_ascii_boundary(h, i);
            }
            lemma_states(h, e);
            let p = (if h[i] == ascii::BANG { i + 1 } else { i }, e);
            assert forall|k: int| 0 <= k < states_from(h, i).len() implies {
                let p = #[trigger] states_from(h, i)[k];
                &&& p.0 <= p.1
                &&& text::boundary(h, p.0)
                &&& text::boundary(h, p.1)
            } by {
                if k > 0 {
                    assert(states_from(h, i)[k] == states_from(h, e)[k - 1]);
                } else {
                    assert(states_from(h, i)[k] == p);
                }
            }
        }
    }
}

/// The text of a selector: `$`, what stands between, and `:`.
pub proof fn lemma_selector_text(s: Seq<u8>, k: int)
    requires
        valid_utf8(s),
        s.len() <= usize::MAX,
        0 <= k < stmts(s).len(),
        stmts(s)[k].kind == StmtKind::StateSelector,
    ensures
        stmt_ok(s, stmts(s)[k]),
        valid_utf8(cut(s, stmts(s)[k].span)),
        cut(s, stmts(s)[k].span).len() > 0,
        cut(s, stmts(s)[k].span)[0] == ascii::DOLLAR,
        cut(s, stmts(s)[k].span).last() == ascii::COLON,
        stmts(s)[k].end == stmts(s)[k].span.end,
{
    lemma_stmts(s);
    lemma_stmt_line(s, 0, k);
    let st = stmts(s)[k];
    assert(stmt_ok(s, st));
    let i = st.line as int;
    let (a, b) = text_at(s, i);
    let h = s.subrange(a, b);
    if !indent::comment(h) && h[0] != ascii::DASH && h[0] != ascii::DOLLAR {
        lemma_bare_kind(h);
        if let Some(c) = text::find_byte(h, ascii::COLON, 0) {
            lemma_colon_kind(h, c);
        }
    }
    let line = indent::lines(s)[i];
    indent::lemma_line_boundary(s, i);
    text::lemma_trim_at(s, line.0, line.1);
    assert(cut(s, st.span) == h);
    text::lemma_part(s, a, b);
    text::lemma_find_byte(h, ascii::COLON, 0);
}

/// A comment ends with its text.
pub proof fn lemma_comment_end(s: Seq<u8>, k: int)
    requires
        s.len() <= usize::MAX,
        0 <= k < stmts(s).len(),
        stmts(s)[k].kind == StmtKind::Comment,
    ensures
        stmts(s)[k].end == stmts(s)[k].span.end,
{
    lemma_stmt_line(s, 0, k);
    let i = stmts_from(s, 0)[k].line as int;
    let (a, b) = text_at(s, i);
    let h = s.subrange(a, b);
    if !indent::comment(h) {
        lemma_head_kind(h);
    }
}

/// What a line says that is no comment is no comment.
pub proof fn lemma_head_kind(h: Seq<u8>)
    ensures
        head(h).kind != StmtKind::Comment,
{
    if h[0] != ascii::DASH && h[0] != ascii::DOLLAR {
        lemma_bare_kind(h);
        if let Some(c) = text::find_byte(h, ascii::COLON, 0) {
            lemma_colon_kind(h, c);
        }
    }
}

/// The state names of a selector are parts of the document.
pub proof fn lemma_selector(s: Seq<u8>, k: int)
    requires
        valid_utf8(s),
        s.len() <= usize::MAX,
        0 <= k < stmts(s).len(),
        stmts(s)[k].kind == StmtKind::StateSelector,
    ensures
        stmt_ok(s, stmts(s)[k]),
        forall|j: int|
            0 <= j < states_from(cut(s, stmts(s)[k].span), 1).len() ==> {
                let p = #[trigger] states_from(cut(s, stmts(s)[k].span), 1)[j];
                let h = cut(s, stmts(s)[k].span);
                &&& p.0 <= p.1
                &&& text::boundary(h, p.0)
                &&& text::boundary(h, p.1)
            },
{
    lemma_selector_text(s, k);
    let h = cut(s, stmts(s)[k].span);
    text::lemma_ascii_boundary(h, 0);
    lemma_states(h, 1);
}

/// An array ends with its `]`.
pub proof fn lemma_array_value(s: Seq<u8>, k: int)
    requires
        valid_utf8(s),
        s.len() <= usize::MAX,
        0 <= k < stmts(s).len(),
        stmts(s)[k].kind == StmtKind::Property,
        stmts(s)[k].body is None,
        stmts(s)[k].value matches Some(v) && s[v.start as int] == ascii::OPEN_BRACKET,
    ensures
        stmts(s)[k].value matches Some(v) && v.start + 2 <= v.end <= s.len() && s[v.end - 1]
            == ascii::CLOSE_BRACKET,
{
    lemma_stmt_line(s, 0, k);
    let i = stmts_from(s, 0)[k].line as int;
    let line = indent::lines(s)[i];
    indent::lemma_line_boundary(s, i);
    text::lemma_trim_at(s, line.0, line.1);
    let (a, b) = text_at(s, i);
    let h = s.subrange(a, b);
    text::lemma_part(s, a, b);
    if !indent::comment(h) {
        lemma_head(h);
        lemma_array_with(s, i, h, head(h));
    }
}

proof fn lemma_array_with(s: Seq<u8>, i: int, h: Seq<u8>, hd: Head)
    requires
        valid_utf8(s),
        s.len() <= usize::MAX,
        0 <= i < indent::lines(s).len(),
        0 <= text_at(s, i).0 <= text_at(s, i).1 <= s.len(),
        h == s.subrange(text_at(s, i).0, text_at(s, i).1),
        head_ok(h, hd),
        stmt_with(s, i, h, hd).kind == StmtKind::Property,
        stmt_with(s, i, h, hd).body is None,
        stmt_with(s, i, h, hd).value matches Some(v) && s[v.start as int] == ascii::OPEN_BRACKET,
    ensures
        stmt_with(s, i, h, hd).value matches Some(v) && v.start + 2 <= v.end <= s.len() && s[v.end
            - 1] == ascii::CLOSE_BRACKET,
{
    let v = hd.value->0;
    let p = v.start + text_at(s, i).0;
    assert(h[v.start as int] == s[p]);
    if indent::marker(cut(h, v)) {
        lemma_marker_start(cut(h, v));
        assert(cut(h, v)[0] == h[v.start as int]);
    } else {
        lemma_closing(s, p + 1);
    }
}

proof fn lemma_marker_start(t: Seq<u8>)
    requires
        indent::marker(t),
    ensures
        t.len() > 0,
        t[0] == ascii::PIPE,
{
    reveal_strlit("|");
    reveal_strlit("|-");
    reveal_strlit("|+");
    is_ascii_chars_encode_utf8("|"@);
    is_ascii_chars_encode_utf8("|-"@);
    is_ascii_chars_encode_utf8("|+"@);
}

// ---------------------------------------------------------------------------------------------
// Parsing
// ---------------------------------------------------------------------------------------------

/// The number of spaces and tabs in front of a line.
pub fn line_width(t: &str) -> (n: usize)
    ensures
        n == width(t.spec_bytes()),
{
    let b = t.as_bytes();
    let mut i: usize = 0;
    while i < b.len() && (b[i] == ascii::SPACE || b[i] == ascii::TAB)
        invariant
            b@ == t.spec_bytes(),
            i <= b@.len(),
            i + width_from(b@, i as int) == width(b@),
        decreases b@.len() - i,
    {
        i += 1;
    }
    i
}

/// The state names of a selector, without the `!` that negates one, as offsets into its text.
pub fn state_names(h: &str) -> (names: Vec<(usize, usize)>)
    requires
        h.spec_bytes().len() > 0,
    ensures
        names@.map_values(|p: (usize, usize)| (p.0 as int, p.1 as int)) == states_from(
            h.spec_bytes(),
            1,
        ),
{
    let b = h.as_bytes();
    let n: usize = b.len();
    let ghost as_ints = |p: (usize, usize)| (p.0 as int, p.1 as int);
    let mut names: Vec<(usize, usize)> = Vec::new();
    let mut i: usize = 1;
    assert(names@.map_values(as_ints) + states_from(b@, 1) =~= states_from(b@, 1));
    while i < n && i < n - 1
        invariant
            b@ == h.spec_bytes(),
            n == b@.len(),
            n > 0,
            1 <= i,
            as_ints == (|p: (usize, usize)| (p.0 as int, p.1 as int)),
            names@.map_values(as_ints) + states_from(b@, i as int) == states_from(b@, 1),
        decreases n - i,
    {
        if b[i] == ascii::SPACE {
            i += 1;
            continue;
        }
        let mut e: usize = i;
        while e < n - 1 && b[e] != ascii::SPACE
            invariant
                n == b@.len(),
                n > 0,
                i <= e <= n - 1,
                state_end(b@, e as int) == state_end(b@, i as int),
            decreases n - e,
        {
            e += 1;
        }
        let start: usize = if b[i] == ascii::BANG {
            i + 1
        } else {
            i
        };
        proof {
            lemma_state_end(b@, i as int);
            let p = (start as int, e as int);
            let before = names@.map_values(as_ints);
            assert(names@.push((start, e)).map_values(as_ints) =~= before.push(p));
            assert(before.push(p) + states_from(b@, e as int) =~= before + (seq![p] + states_from(
                b@,
                e as int,
            )));
        }
        names.push((start, e));
        i = e;
    }
    assert(names@.map_values(as_ints) =~= states_from(b@, 1));
    names
}

/// Whether a line that starts with `$` is a selector.
fn is_selector(h: &str) -> (r: bool)
    requires
        h.spec_bytes().len() > 0,
    ensures
        r == (selector_head(h.spec_bytes()).kind == StmtKind::StateSelector),
{
    let b = h.as_bytes();
    let n: usize = b.len();
    let ghost model = states_from(b@, 1);
    proof {
        text::lemma_find_byte(b@, ascii::COLON, 0);
    }
    let closed: bool = match find_byte_at(b, ascii::COLON, 0) {
        Some(k) => k == n - 1,
        None => false,
    };
    if !closed {
        return false;
    }
    let names = state_names(h);
    if names.len() == 0 {
        return false;
    }
    let mut i: usize = 0;
    while i < names.len()
        invariant
            i <= names@.len(),
            names@.map_values(|p: (usize, usize)| (p.0 as int, p.1 as int)) == model,
            model == states_from(h.spec_bytes(), 1),
            forall|k: int| 0 <= k < i ==> (#[trigger] model[k]).0 < model[k].1,
        decreases names@.len() - i,
    {
        assert(model[i as int] == (names@[i as int].0 as int, names@[i as int].1 as int));
        if names[i].0 >= names[i].1 {
            assert(!all_named(model));
            return false;
        }
        i += 1;
    }
    true
}

/// The offsets as a span, where they enclose something.
fn filled(p: (usize, usize)) -> (r: Option<ByteSpan>)
    ensures
        r == span_of((p.0 as int, p.1 as int)),
{
    if p.0 < p.1 {
        Some(ByteSpan::new(p.0, p.1))
    } else {
        None
    }
}

fn error_head(n: usize) -> (r: Head)
    ensures
        r.kind == StmtKind::Error,
        r.key == span(0, n as int),
        r.value is None,
        r.colon is None,
{
    Head { kind: StmtKind::Error, key: ByteSpan::new(0, n), value: None, colon: None }
}

/// What a line says whose first `:` stands at `k`.
fn parse_colon_head(h: &str, k: usize) -> (r: Head)
    requires
        k < h.spec_bytes().len(),
        text::find_byte(h.spec_bytes(), ascii::COLON, 0) == Some(k as int),
        h.spec_bytes()[k as int] == ascii::COLON,
    ensures
        r == colon_head(h.spec_bytes(), k as int),
{
    let b = h.as_bytes();
    let n: usize = b.len();
    proof {
        text::lemma_valid(h);
        text::lemma_ends_boundary(b@);
        text::lemma_ascii_boundary(b@, k as int);
        text::lemma_find_byte(b@, ascii::COLON, 0);
        lemma_key_literals();
    }
    let value = filled(trim_range(h, k + 1, n));
    let colon: Option<usize> = Some(k + 1);
    let first: u8 = b[0];
    let marked: bool = first == ascii::AT_SIGN || first == ascii::AMPERSAND || first == ascii::BANG;
    let lead: usize = if marked {
        1
    } else {
        0
    };
    proof {
        if marked {
            text::lemma_ascii_boundary(b@, 0);
        }
    }
    let range: (usize, usize) = trim_range(h, lead, k);
    let name = substr(h, range.0, range.1);
    let key = ByteSpan::new(range.0, range.1);
    if range.0 >= range.1 {
        return error_head(n);
    }
    if first == ascii::AT_SIGN {
        return Head { kind: StmtKind::EventProperty, key, value, colon };
    }
    if first == ascii::AMPERSAND {
        return Head { kind: StmtKind::AliasProperty, key, value, colon };
    }
    if first == ascii::BANG {
        return Head { kind: StmtKind::ExprProperty, key, value, colon };
    }
    if find_byte_at(name.as_bytes(), ascii::TAB, 0).is_some() {
        return error_head(n);
    }
    if same_str(name, "id") {
        return Head { kind: StmtKind::IdProperty, key, value, colon };
    }
    if occurs_at(name.as_bytes(), 0, "anchors.".as_bytes()) {
        if range.1 - range.0 > 8 {
            return Head {
                kind: StmtKind::AnchorProperty,
                key: ByteSpan::new(range.0 + 8, range.1),
                value,
                colon,
            };
        }
        return error_head(n);
    }
    if same_str(name, "anchors") && value.is_some() {
        return error_head(n);
    }
    Head { kind: StmtKind::Property, key, value, colon }
}

/// What a line says that has no `:`.
fn parse_bare_head(h: &str) -> (r: Head)
    requires
        h.spec_bytes().len() > 0,
    ensures
        r == bare_head(h.spec_bytes()),
{
    let b = h.as_bytes();
    let n: usize = b.len();
    match find_byte_at(b, ascii::LESS, 0) {
        Some(k) => {
            proof {
                text::lemma_valid(h);
                text::lemma_ends_boundary(b@);
                text::lemma_ascii_boundary(b@, k as int);
            }
            let name: (usize, usize) = trim_range(h, 0, k);
            let base: (usize, usize) = trim_range(h, k + 1, n);
            if name.0 < name.1 && base.0 < base.1 {
                Head {
                    kind: StmtKind::StyleHeader,
                    key: ByteSpan::new(name.0, name.1),
                    value: Some(ByteSpan::new(base.0, base.1)),
                    colon: None,
                }
            } else {
                error_head(n)
            }
        },
        None => if b[0] == ascii::AT_SIGN || b[0] == ascii::AMPERSAND || b[0] == ascii::BANG {
            error_head(n)
        } else {
            Head {
                kind: StmtKind::Container,
                key: ByteSpan::new(0, n),
                value: None,
                colon: None,
            }
        },
    }
}

/// What a line says that is neither blank nor a comment.
pub fn parse_head(h: &str) -> (r: Head)
    requires
        h.spec_bytes().len() > 0,
    ensures
        r == head(h.spec_bytes()),
{
    let b = h.as_bytes();
    let n: usize = b.len();
    if b[0] == ascii::DASH {
        proof {
            text::lemma_valid(h);
            text::lemma_ends_boundary(b@);
            text::lemma_ascii_boundary(b@, 0);
        }
        return Head {
            kind: StmtKind::ListItem,
            key: ByteSpan::new(0, 1),
            value: filled(trim_range(h, 1, n)),
            colon: None,
        };
    }
    if b[0] == ascii::DOLLAR {
        return if is_selector(h) {
            Head {
                kind: StmtKind::StateSelector,
                key: ByteSpan::new(0, n),
                value: None,
                colon: None,
            }
        } else {
            error_head(n)
        };
    }
    match find_byte_at(b, ascii::COLON, 0) {
        Some(k) => parse_colon_head(h, k),
        None => parse_bare_head(h),
    }
}

/// The `]` that closes the array that opens at `p`.
fn find_array_close(source: &str, p: usize) -> (r: Option<usize>)
    requires
        p < source.spec_bytes().len(),
    ensures
        match r {
            Some(e) => array_close(source.spec_bytes(), p as int) == Some(e as int) && p < e
                < source.spec_bytes().len(),
            None => array_close(source.spec_bytes(), p as int) is None,
        },
{
    let b = source.as_bytes();
    let n: usize = b.len();
    let mut e: usize = p + 1;
    while e < n && b[e] != ascii::OPEN_BRACKET && b[e] != ascii::CLOSE_BRACKET
        invariant
            n == b@.len(),
            p < e <= n,
            closing(b@, e as int) == closing(b@, p + 1),
        decreases n - e,
    {
        e += 1;
    }
    if e >= n || b[e] == ascii::OPEN_BRACKET {
        return None;
    }
    proof {
        text::lemma_valid(source);
        text::lemma_ends_boundary(b@);
        text::lemma_ascii_boundary(b@, e as int);
        text::lemma_find_byte(b@, ascii::NEWLINE, e + 1);
    }
    let end: usize = match find_byte_at(b, ascii::NEWLINE, e + 1) {
        Some(k) => {
            proof {
                text::lemma_ascii_boundary(b@, k as int);
            }
            k
        },
        None => n,
    };
    if trimmed(substr(source, e + 1, end)).as_bytes().len() == 0 {
        Some(e)
    } else {
        None
    }
}

/// Where the text of line `i` lies, without the white space around it.
fn line_text_range(source: &str, lines: &[Line], i: usize) -> (r: (usize, usize))
    requires
        indent::are_lines(lines@, source.spec_bytes()),
        i < lines@.len(),
    ensures
        (r.0 as int, r.1 as int) == text_at(source.spec_bytes(), i as int),
        r.0 <= r.1 <= source.spec_bytes().len(),
        text::boundary(source.spec_bytes(), r.0 as int),
        text::boundary(source.spec_bytes(), r.1 as int),
{
    let line = &lines[i];
    let n: usize = source.as_bytes().len();
    proof {
        text::lemma_valid(source);
        indent::lemma_line_boundary(source.spec_bytes(), i as int);
    }
    trim_range(source, line.start, line.start + line.text.as_bytes().len())
}

/// The last of the lines that starts at or before `offset`.
fn find_line(lines: &[Line], offset: usize, Ghost(s): Ghost<Seq<u8>>) -> (r: usize)
    requires
        indent::are_lines(lines@, s),
        lines@.len() > 0,
    ensures
        r == line_of(indent::lines(s), offset as int, lines@.len() as int),
        r < lines@.len(),
{
    let mut k: usize = lines.len();
    while k > 1 && lines[k - 1].start > offset
        invariant
            1 <= k <= lines@.len(),
            indent::are_lines(lines@, s),
            line_of(indent::lines(s), offset as int, k as int) == line_of(
                indent::lines(s),
                offset as int,
                lines@.len() as int,
            ),
        decreases k,
    {
        k -= 1;
    }
    k - 1
}

/// The statement that starts on line `i`, which is not blank.
fn parse_stmt(source: &str, lines: &[Line], i: usize) -> (st: Stmt)
    requires
        indent::are_lines(lines@, source.spec_bytes()),
        i < lines@.len(),
        !blank_at(source.spec_bytes(), i as int),
    ensures
        st == stmt_at(source.spec_bytes(), i as int),
        i <= st.last_line < lines@.len(),
{
    let ghost s = source.spec_bytes();
    let len: usize = source.as_bytes().len();
    proof {
        text::lemma_valid(source);
        lemma_last_line(s, i as int);
        lemma_lines_count(s, 0);
    }
    let (a, b) = line_text_range(source, lines, i);
    let h = substr(source, a, b);
    let w: usize = line_width(lines[i].text);
    let plain = Stmt {
        kind: StmtKind::Comment,
        line: i,
        width: w,
        span: ByteSpan::new(a, b),
        key: ByteSpan::new(a, b),
        value: None,
        colon: None,
        body: None,
        last_line: i,
        end: b,
        parent: None,
    };
    assert(plain == comment_at(s, i as int));
    if is_comment(h) {
        return plain;
    }
    let hd = parse_head(h);
    proof {
        text::lemma_valid(h);
        lemma_head(h.spec_bytes());
    }
    let ghost hdg = hd;
    let mut st = plain;
    st.kind = hd.kind;
    st.key = ByteSpan::new(hd.key.start + a, hd.key.end + a);
    st.value = match hd.value {
        Some(v) => Some(ByteSpan::new(v.start + a, v.end + a)),
        None => None,
    };
    st.colon = match hd.colon {
        Some(c) => Some(c + a),
        None => None,
    };
    assert(st == one_line(s, i as int, hdg));
    if let Some(v) = hd.value {
        let is_header: bool = match hd.kind {
            StmtKind::StyleHeader => true,
            _ => false,
        };
        let is_property: bool = match hd.kind {
            StmtKind::Property => true,
            _ => false,
        };
        if !is_header && is_block_scalar_marker(substr(h, v.start, v.end)) {
            let mut last: usize = i;
            let mut j: usize = i + 1;
            while j < lines.len()
                invariant_except_break
                    body_last(s, w as int, j as int, last as int) == body_last(
                        s,
                        w as int,
                        i + 1,
                        i as int,
                    ),
                invariant
                    s == source.spec_bytes(),
                    indent::are_lines(lines@, s),
                    i <= last < j <= lines@.len(),
                ensures
                    last == body_last(s, w as int, i + 1, i as int),
                    i <= last < lines@.len(),
                decreases lines@.len() - j,
            {
                let blank: bool = trimmed(lines[j].text).as_bytes().len() == 0;
                if !blank {
                    if line_width(lines[j].text) <= w {
                        break;
                    }
                    last = j;
                }
                j += 1;
            }
            if last > i {
                let end: usize = lines[last].start + lines[last].text.as_bytes().len();
                st.value = Some(ByteSpan::new(v.start + a, end));
                st.body = Some(ByteSpan::new(lines[i + 1].start, end));
                st.last_line = last;
                st.end = end;
            }
            assert(st == with_body(s, i as int, hdg, v));
        } else if is_property && h.as_bytes()[v.start] == ascii::OPEN_BRACKET {
            match find_array_close(source, v.start + a) {
                Some(e) => {
                    st.value = Some(ByteSpan::new(v.start + a, e + 1));
                    st.last_line = find_line(lines, e, Ghost(s));
                    st.end = e + 1;
                },
                None => {
                    st = plain;
                    st.kind = StmtKind::Error;
                },
            }
            assert(st == with_array(s, i as int, hdg, v));
        }
    }
    st
}

/// The indentation by which each statement is placed.
fn placed_widths(stmts: &[Stmt]) -> (r: Vec<usize>)
    ensures
        r@.len() == stmts@.len(),
        forall|k: int| 0 <= k < r@.len() ==> #[trigger] r@[k] == placed_width(stmts@, k),
{
    let n: usize = stmts.len();
    let mut r: Vec<usize> = Vec::new();
    let mut i: usize = 0;
    while i < n
        invariant
            n == stmts@.len(),
            i <= n,
            r@.len() == i,
            forall|k: int| 0 <= k < i ==> #[trigger] r@[k] == placed_width(stmts@, k),
        decreases n - i,
    {
        let mut j: usize = i;
        while j < n && stmts[j].kind == StmtKind::Comment
            invariant
                n == stmts@.len(),
                i <= j <= n,
                placed_width(stmts@, j as int) == placed_width(stmts@, i as int),
            decreases n - j,
        {
            j += 1;
        }
        r.push(
            if j < n {
                stmts[j].width
            } else {
                0
            },
        );
        i += 1;
    }
    r
}

/// The last of the first `k` statements that is no comment and is indented by less than `w`.
fn find_enclosing(stmts: &[Stmt], w: usize, k: usize) -> (r: Option<usize>)
    requires
        k <= stmts@.len(),
    ensures
        r == enclosing(stmts@, w as int, k as int),
{
    let mut j: usize = k;
    while j > 0
        invariant
            j <= k <= stmts@.len(),
            enclosing(stmts@, w as int, j as int) == enclosing(stmts@, w as int, k as int),
        decreases j,
    {
        let st = &stmts[j - 1];
        if st.kind != StmtKind::Comment && st.width < w {
            return Some(j - 1);
        }
        j -= 1;
    }
    None
}

/// A document with its statements.
#[derive(Debug)]
pub struct SyntaxTree {
    source: String,
    stmts: Vec<Stmt>,
}

impl SyntaxTree {
    /// The bytes of the document.
    pub closed spec fn text(&self) -> Seq<u8> {
        text::bytes_of(self.source@)
    }

    /// The statements.
    pub closed spec fn stmts(&self) -> Seq<Stmt> {
        self.stmts@
    }

    /// The statements are those of the document.
    #[verifier::type_invariant]
    pub closed spec fn inv(self) -> bool {
        self.stmts@ == stmts(text::bytes_of(self.source@)) && text::bytes_of(self.source@).len()
            <= usize::MAX
    }

    /// Reads a document. Every document has a tree; the lines that fit no kind are statements of
    /// their own in it.
    pub fn parse(source: &str) -> (r: Option<SyntaxTree>)
        ensures
            r matches Some(tree) && tree.text() == source.spec_bytes() && tree.stmts() == stmts(
                source.spec_bytes(),
            ),
    {
        let ghost s = source.spec_bytes();
        let len: usize = source.as_bytes().len();
        let lines = split_lines(source);
        let mut raw: Vec<Stmt> = Vec::new();
        let mut i: usize = 0;
        assert(raw@ + stmts_from(s, 0) =~= stmts_from(s, 0));
        while i < lines.len()
            invariant
                s == source.spec_bytes(),
                s.len() == len,
                indent::are_lines(lines@, s),
                i <= lines@.len(),
                raw@ + stmts_from(s, i as int) == stmts_from(s, 0),
            decreases lines@.len() - i,
        {
            if trimmed(lines[i].text).as_bytes().len() == 0 {
                i += 1;
                continue;
            }
            let st = parse_stmt(source, lines.as_slice(), i);
            proof {
                let rest = stmts_from(s, st.last_line + 1);
                assert(raw@.push(st) + rest =~= raw@ + (seq![st] + rest));
            }
            raw.push(st);
            i = st.last_line + 1;
        }
        assert(raw@ =~= stmts_from(s, 0));
        let widths = placed_widths(raw.as_slice());
        let mut placed: Vec<Stmt> = Vec::new();
        let mut k: usize = 0;
        while k < raw.len()
            invariant
                k <= raw@.len(),
                raw@.len() == widths@.len(),
                forall|j: int|
                    0 <= j < raw@.len() ==> #[trigger] widths@[j] == placed_width(raw@, j),
                placed@.len() == k,
                forall|j: int| 0 <= j < k ==> #[trigger] placed@[j] == with_parents(raw@)[j],
            decreases raw@.len() - k,
        {
            let mut st = raw[k];
            st.parent = find_enclosing(raw.as_slice(), widths[k], k);
            placed.push(st);
            k += 1;
        }
        assert(placed@ =~= stmts(s));
        Some(SyntaxTree { source: source.to_owned(), stmts: placed })
    }

    /// The statements.
    pub fn statements(&self) -> (r: &[Stmt])
        ensures
            r@ == self.stmts(),
            self.stmts() == stmts(self.text()),
            self.text().len() <= usize::MAX,
    {
        proof {
            use_type_invariant(self);
        }
        self.stmts.as_slice()
    }

    /// The document.
    pub fn source(&self) -> (r: &str)
        ensures
            r.spec_bytes() == self.text(),
    {
        self.source.as_str()
    }

    /// Whether some line of the document fits no kind.
    pub fn has_error(&self) -> (r: bool)
        ensures
            r == broken(self.stmts()),
    {
        let mut i: usize = 0;
        while i < self.stmts.len()
            invariant
                i <= self.stmts@.len(),
                forall|k: int|
                    0 <= k < i ==> (#[trigger] self.stmts@[k]).kind != StmtKind::Error,
            decreases self.stmts@.len() - i,
        {
            if self.stmts[i].kind == StmtKind::Error {
                assert(self.stmts()[i as int].kind == StmtKind::Error);
                return true;
            }
            i += 1;
        }
        false
    }
}

} // verus!
