//! What kind of statement a line is, told by its text.

use crate::indent;
use crate::lang_api::ByteSpan;
use crate::syntax;
use crate::syntax::{Stmt, StmtKind};
use crate::text;
use vstd::prelude::*;
use vstd::string::*;
use vstd::utf8::*;

verus! {

/// Whether a byte occurs in a text.
pub open spec fn occurs(h: Seq<u8>, c: u8) -> bool {
    exists|i: int| 0 <= i < h.len() && #[trigger] h[i] == c
}

/// Whether `k` is the first place of a byte in a text.
pub open spec fn first_at(h: Seq<u8>, c: u8, k: int) -> bool {
    0 <= k < h.len() && h[k] == c && forall|i: int| 0 <= i < k ==> #[trigger] h[i] != c
}

/// Whether a text is a comment: it starts with two slashes or with `#`.
pub open spec fn comment_text(h: Seq<u8>) -> bool {
    h.len() > 0 && (h[0] == 0x23 || (h.len() > 1 && h[0] == 0x2f && h[1] == 0x2f))
}

/// Whether a text starts with a byte that marks a kind of statement of its own.
pub open spec fn marked(h: Seq<u8>) -> bool {
    h.len() > 0 && (h[0] == 0x2d || h[0] == 0x24 || h[0] == 0x40 || h[0] == 0x26 || h[0] == 0x21)
}

/// The text of the first line of statement `k`.
pub open spec fn head_text(s: Seq<u8>, k: int) -> Seq<u8> {
    let sp = syntax::stmts(s)[k].span;
    s.subrange(sp.start as int, sp.end as int)
}

/// Whether two statements have the same kind and the same tokens.
spec fn same_tokens(a: Stmt, b: Stmt) -> bool {
    a.kind == b.kind && a.key == b.key && a.value == b.value && a.body == b.body && a.last_line
        == b.last_line
}

proof fn lemma_line(s: Seq<u8>, k: int)
    requires
        valid_utf8(s),
        s.len() <= usize::MAX,
        0 <= k < syntax::stmts(s).len(),
    ensures
        ({
            let st = syntax::stmts(s)[k];
            let h = head_text(s, k);
            &&& 0 < h.len() <= usize::MAX
            &&& st.span.start + h.len() == st.span.end <= s.len()
            &&& valid_utf8(h)
            &&& text::trim(indent::texts(s)[st.line as int]) == h
            &&& indent::comment(h) ==> st.kind == StmtKind::Comment
            &&& !indent::comment(h) ==> same_tokens(
                st,
                syntax::stmt_with(s, st.line as int, h, syntax::head(h)),
            )
            &&& st.span.start == syntax::text_at(s, st.line as int).0
        }),
{
    let raw = syntax::stmts_from(s, 0);
    let st = syntax::stmts(s)[k];
    syntax::lemma_stmts(s);
    assert(syntax::stmt_ok(s, st));
    syntax::lemma_stmt_line(s, 0, k);
    let i = raw[k].line as int;
    let line = indent::lines(s)[i];
    indent::lemma_line_boundary(s, i);
    text::lemma_trim_at(s, line.0, line.1);
    let (a, b) = syntax::text_at(s, i);
    let h = s.subrange(a, b);
    assert(raw[k] == syntax::stmt_at(s, i));
    assert(raw[k].span == syntax::span(a, b));
    assert(head_text(s, k) == h);
    text::lemma_part(s, a, b);
}

/// What a statement makes of what its line says.
spec fn says(s: Seq<u8>, k: int, hd: syntax::Head) -> bool {
    let st = syntax::stmts(s)[k];
    let h = head_text(s, k);
    let a = st.span.start as int;
    &&& st.kind != StmtKind::Error ==> st.kind == hd.kind && st.key == syntax::moved(hd.key, a)
    &&& hd.value is None ==> st.value is None
    &&& hd.kind == StmtKind::Error ==> st.kind == StmtKind::Error
    &&& st.kind == StmtKind::Error && hd.kind != StmtKind::Error ==> hd.kind == StmtKind::Property
        && (hd.value matches Some(v) && h[v.start as int] == 0x5b)
    &&& hd.value matches Some(v) ==> {
        &&& st.kind != StmtKind::Error ==> st.value is Some
        &&& (h[v.start as int] != 0x5b && !indent::marker(syntax::cut(h, v))) || hd.kind
            == StmtKind::StyleHeader ==> st.value == Some(syntax::moved(v, a))
    }
}

proof fn lemma_head(s: Seq<u8>, k: int)
    requires
        valid_utf8(s),
        s.len() <= usize::MAX,
        0 <= k < syntax::stmts(s).len(),
    ensures
        ({
            let st = syntax::stmts(s)[k];
            let h = head_text(s, k);
            &&& 0 < h.len() <= usize::MAX
            &&& st.span.start + h.len() == st.span.end <= s.len()
            &&& valid_utf8(h)
            &&& indent::comment(h) ==> st.kind == StmtKind::Comment
            &&& !indent::comment(h) ==> says(s, k, syntax::head(h))
        }),
{
    lemma_line(s, k);
    let st = syntax::stmts(s)[k];
    let h = head_text(s, k);
    if !indent::comment(h) {
        let hd = syntax::head(h);
        lemma_with_kind(s, st.line as int, h, hd);
        if let Some(v) = hd.value {
            lemma_with_value(s, st.line as int, h, hd, v);
        }
    }
}

/// Kinds of statement that have no `:`: a comment starts with two slashes or `#`, a list item with
/// `-`, and of the rest a header has a `<` and a widget has none.
pub proof fn law_kinds_without_colon(s: Seq<u8>, k: int)
    requires
        valid_utf8(s),
        s.len() <= usize::MAX,
        0 <= k < syntax::stmts(s).len(),
    ensures
        ({
            let st = syntax::stmts(s)[k];
            let h = head_text(s, k);
            &&& st.kind == StmtKind::Comment <==> comment_text(h)
            &&& st.kind == StmtKind::ListItem <==> !comment_text(h) && h[0] == 0x2d
            &&& st.kind == StmtKind::Container <==> !comment_text(h) && !marked(h) && !occurs(
                h,
                0x3a,
            ) && !occurs(h, 0x3c)
            &&& st.kind == StmtKind::Container ==> st.key == st.span
            &&& st.kind == StmtKind::StyleHeader ==> !comment_text(h) && !occurs(h, 0x3a)
                && occurs(h, 0x3c)
            &&& !comment_text(h) && !marked(h) && !occurs(h, 0x3a) && occurs(h, 0x3c) ==> st.kind
                == StmtKind::StyleHeader || st.kind == StmtKind::Error
        }),
{
    lemma_head(s, k);
    let st = syntax::stmts(s)[k];
    let h = head_text(s, k);
    text::lemma_find_byte(h, 0x3a, 0);
    text::lemma_find_byte(h, 0x3c, 0);
    lemma_occurs(h, 0x3a);
    lemma_occurs(h, 0x3c);
    syntax::lemma_stmts(s);
    assert(syntax::stmt_ok(s, st));
    if !indent::comment(h) && h[0] != 0x2d && h[0] != 0x24 {
        syntax::lemma_bare_kind(h);
        if let Some(c) = text::find_byte(h, 0x3a, 0) {
            syntax::lemma_colon_kind(h, c);
        }
    }
}

proof fn lemma_occurs(h: Seq<u8>, c: u8)
    ensures
        text::find_byte(h, c, 0) is Some <==> occurs(h, c),
        forall|k: int| #[trigger] first_at(h, c, k) <==> text::find_byte(h, c, 0) == Some(k),
{
    text::lemma_find_byte(h, c, 0);
    if let Some(k) = text::find_byte(h, c, 0) {
        assert(h[k] == c);
        assert forall|j: int| #[trigger] first_at(h, c, j) implies j == k by {
            if j < k {
                assert(h[j] != c);
            } else if k < j {
                assert(h[k] != c);
            }
        }
    }
}

/// In a header, the name is what stands in front of the first `<` and the base what stands behind,
/// both without the white space around them.
pub proof fn law_header_tokens(s: Seq<u8>, k: int, c: int)
    requires
        valid_utf8(s),
        s.len() <= usize::MAX,
        0 <= k < syntax::stmts(s).len(),
        syntax::stmts(s)[k].kind == StmtKind::StyleHeader,
        first_at(head_text(s, k), 0x3c, c),
    ensures
        ({
            let st = syntax::stmts(s)[k];
            let h = head_text(s, k);
            &&& syntax::cut(s, st.key) == text::trim(h.subrange(0, c))
            &&& st.value matches Some(v) && syntax::cut(s, v) == text::trim(
                h.subrange(c + 1, h.len() as int),
            )
        }),
{
    law_kinds_without_colon(s, k);
    lemma_head(s, k);
    let st = syntax::stmts(s)[k];
    let h = head_text(s, k);
    let a = st.span.start as int;
    lemma_occurs(h, 0x3c);
    lemma_occurs(h, 0x3a);
    let hd = syntax::head(h);
    assert(hd == syntax::bare_head(h)) by {
        assert(h[0] != 0x2d && h[0] != 0x24);
    }
    text::lemma_ends_boundary(h);
    text::lemma_ascii_boundary(h, c);
    text::lemma_trim_at(h, 0, c);
    text::lemma_trim_at(h, c + 1, h.len() as int);
    lemma_moved(s, a, h, hd.key);
    lemma_moved(s, a, h, hd.value->0);
}

/// A span of a part is the span moved in the whole.
proof fn lemma_moved(s: Seq<u8>, a: int, h: Seq<u8>, sp: ByteSpan)
    requires
        0 <= a,
        a + h.len() <= s.len() <= usize::MAX,
        h == s.subrange(a, a + h.len()),
        sp.start <= sp.end <= h.len(),
    ensures
        syntax::cut(s, syntax::moved(sp, a)) == syntax::cut(h, sp),
{
    assert(syntax::cut(s, syntax::moved(sp, a)) =~= syntax::cut(h, sp));
}

/// Whether a statement with a `:` in its text gives its key and its value as they stand there: the
/// key without the white space around it, and the value likewise, unless it goes on below.
pub open spec fn splits_at(s: Seq<u8>, k: int, name: Seq<u8>, c: int) -> bool {
    let st = syntax::stmts(s)[k];
    let h = head_text(s, k);
    let rest = text::trim(h.subrange(c + 1, h.len() as int));
    &&& syntax::cut(s, st.key) == name
    &&& rest.len() == 0 ==> st.value is None
    &&& rest.len() > 0 ==> st.value is Some
    &&& rest.len() > 0 && st.last_line == st.line && rest[0] != 0x5b && !indent::marker(rest) ==> (
    st.value matches Some(v) && syntax::cut(s, v) == rest)
}

/// A line with a `:` that is no comment, no list item and no selector is told by what stands in front
/// of the first `:`. Behind `@` it is an event, behind `&` an alias and behind `!` an expression;
/// `id` gives an id, `anchors.` and an edge is an anchor, and any other name is a property. Without a
/// name it is an error, and so is a property whose array is not closed.
pub proof fn law_kinds_with_colon(s: Seq<u8>, k: int, c: int)
    requires
        valid_utf8(s),
        s.len() <= usize::MAX,
        0 <= k < syntax::stmts(s).len(),
        !comment_text(head_text(s, k)),
        head_text(s, k)[0] != 0x2d,
        head_text(s, k)[0] != 0x24,
        first_at(head_text(s, k), 0x3a, c),
    ensures
        ({
            let st = syntax::stmts(s)[k];
            let h = head_text(s, k);
            let lead: int = if h[0] == 0x40 || h[0] == 0x26 || h[0] == 0x21 {
                1
            } else {
                0
            };
            let name = text::trim(h.subrange(lead, c));
            if name.len() == 0 {
                st.kind == StmtKind::Error
            } else if h[0] == 0x40 {
                st.kind == StmtKind::EventProperty && splits_at(s, k, name, c)
            } else if h[0] == 0x26 {
                st.kind == StmtKind::AliasProperty && splits_at(s, k, name, c)
            } else if h[0] == 0x21 {
                st.kind == StmtKind::ExprProperty && splits_at(s, k, name, c)
            } else if occurs(name, 0x09) {
                st.kind == StmtKind::Error
            } else if name == "id".spec_bytes() {
                st.kind == StmtKind::IdProperty && splits_at(s, k, name, c)
            } else if name.len() >= 8 && name.subrange(0, 8) == "anchors.".spec_bytes() {
                if name.len() > 8 {
                    st.kind == StmtKind::AnchorProperty && splits_at(
                        s,
                        k,
                        name.subrange(8, name.len() as int),
                        c,
                    )
                } else {
                    st.kind == StmtKind::Error
                }
            } else if name == "anchors".spec_bytes() && text::trim(
                h.subrange(c + 1, h.len() as int),
            ).len() > 0 {
                st.kind == StmtKind::Error
            } else {
                ||| st.kind == StmtKind::Property && splits_at(s, k, name, c)
                ||| st.kind == StmtKind::Error && text::has(
                    text::trim(h.subrange(c + 1, h.len() as int)),
                    0,
                    0x5b,
                )
            }
        }),
{
    lemma_head(s, k);
    let st = syntax::stmts(s)[k];
    let h = head_text(s, k);
    lemma_occurs(h, 0x3a);
    let lead: int = if h[0] == 0x40 || h[0] == 0x26 || h[0] == 0x21 {
        1
    } else {
        0
    };
    text::lemma_ends_boundary(h);
    text::lemma_ascii_boundary(h, c);
    if lead == 1 {
        text::lemma_ascii_boundary(h, 0);
    }
    text::lemma_trim_at(h, lead, c);
    text::lemma_trim_at(h, c + 1, h.len() as int);
    let name = text::trim(h.subrange(lead, c));
    lemma_occurs(name, 0x09);
    lemma_anchor_word();
    assert(syntax::head(h) == syntax::colon_head(h, c));
    if st.kind != StmtKind::Error {
        lemma_split(s, k, c);
    } else {
        lemma_unclosed(s, k, c);
    }
    let key = text::trim_at(h, lead, c);
    assert(h.subrange(key.0, key.1) == name);
    if name.len() >= 8 {
        assert(h.subrange(key.0 + 8, key.1) =~= name.subrange(8, name.len() as int));
    }
}

proof fn lemma_anchor_word()
    ensures
        "anchors.".spec_bytes().len() == 8,
{
    reveal_strlit("anchors.");
    is_ascii_chars_encode_utf8("anchors."@);
}

/// Where the key and the value of a statement with a `:` stand.
proof fn lemma_split(s: Seq<u8>, k: int, c: int)
    requires
        valid_utf8(s),
        s.len() <= usize::MAX,
        0 <= k < syntax::stmts(s).len(),
        !indent::comment(head_text(s, k)),
        first_at(head_text(s, k), 0x3a, c),
        syntax::head(head_text(s, k)) == syntax::colon_head(head_text(s, k), c),
        syntax::stmts(s)[k].kind != StmtKind::Error,
    ensures
        splits_at(
            s,
            k,
            head_text(s, k).subrange(
                syntax::head(head_text(s, k)).key.start as int,
                syntax::head(head_text(s, k)).key.end as int,
            ),
            c,
        ),
        syntax::stmts(s)[k].kind == syntax::head(head_text(s, k)).kind,
{
    lemma_head(s, k);
    let st = syntax::stmts(s)[k];
    let h = head_text(s, k);
    let hd = syntax::head(h);
    let a = st.span.start as int;
    syntax::lemma_head(h);
    text::lemma_ends_boundary(h);
    text::lemma_ascii_boundary(h, c);
    text::lemma_trim_at(h, c + 1, h.len() as int);
    let rest = text::trim(h.subrange(c + 1, h.len() as int));
    let p = text::trim_at(h, c + 1, h.len() as int);
    lemma_colon_value(h, c);
    assert(hd.value == syntax::span_of(p));
    lemma_moved(s, a, h, hd.key);
    if rest.len() > 0 {
        let v = hd.value->0;
        assert(syntax::cut(h, v) == rest);
        assert(h[v.start as int] == rest[0]);
        lemma_moved(s, a, h, v);
    }
}

/// What a statement makes of the value on its line.
proof fn lemma_with_value(s: Seq<u8>, i: int, h: Seq<u8>, hd: syntax::Head, v: ByteSpan)
    requires
        hd.value == Some(v),
    ensures
        ({
            let st = syntax::stmt_with(s, i, h, hd);
            &&& st.kind != StmtKind::Error ==> st.value is Some
            &&& (h[v.start as int] != 0x5b && !indent::marker(syntax::cut(h, v))) || hd.kind
                == StmtKind::StyleHeader ==> st.value == Some(
                syntax::moved(v, syntax::text_at(s, i).0),
            )
        }),
{
}

/// A statement has the kind and the key that its line says, unless it is an error.
proof fn lemma_with_kind(s: Seq<u8>, i: int, h: Seq<u8>, hd: syntax::Head)
    ensures
        ({
            let st = syntax::stmt_with(s, i, h, hd);
            &&& st.kind != StmtKind::Error ==> st.kind == hd.kind && st.key == syntax::moved(
                hd.key,
                syntax::text_at(s, i).0,
            )
            &&& hd.value is None ==> st.value is None
            &&& hd.kind == StmtKind::Error ==> st.kind == StmtKind::Error
            &&& st.kind == StmtKind::Error && hd.kind != StmtKind::Error ==> hd.kind
                == StmtKind::Property && (hd.value matches Some(v) && h[v.start as int] == 0x5b)
        }),
{
}

proof fn lemma_colon_value(h: Seq<u8>, c: int)
    ensures
        syntax::colon_head(h, c).kind != StmtKind::Error ==> syntax::colon_head(h, c).value
            == syntax::span_of(text::trim_at(h, c + 1, h.len() as int)),
{
}

/// A line whose text fits a kind is an error only where its value opens an array.
proof fn lemma_unclosed(s: Seq<u8>, k: int, c: int)
    requires
        valid_utf8(s),
        s.len() <= usize::MAX,
        0 <= k < syntax::stmts(s).len(),
        !indent::comment(head_text(s, k)),
        first_at(head_text(s, k), 0x3a, c),
        syntax::head(head_text(s, k)) == syntax::colon_head(head_text(s, k), c),
        syntax::stmts(s)[k].kind == StmtKind::Error,
    ensures
        syntax::head(head_text(s, k)).kind != StmtKind::Error ==> syntax::head(
            head_text(s, k),
        ).kind == StmtKind::Property && text::has(
            text::trim(head_text(s, k).subrange(c + 1, head_text(s, k).len() as int)),
            0,
            0x5b,
        ),
{
    lemma_head(s, k);
    let h = head_text(s, k);
    let hd = syntax::head(h);
    text::lemma_ends_boundary(h);
    text::lemma_ascii_boundary(h, c);
    text::lemma_trim_at(h, c + 1, h.len() as int);
    lemma_colon_value(h, c);
    if hd.kind != StmtKind::Error {
        let p = text::trim_at(h, c + 1, h.len() as int);
        assert(hd.value == syntax::span_of(p));
        let v = hd.value->0;
        assert(hd.value is Some);
        assert(syntax::cut(h, v)[0] == h[v.start as int]);
    }
}

proof fn lemma_covered(s: Seq<u8>, j: int, i: int)
    requires
        s.len() <= usize::MAX,
        0 <= j <= i < indent::lines(s).len(),
        !syntax::blank_at(s, i),
    ensures
        exists|k: int|
            0 <= k < syntax::stmts_from(s, j).len() && (#[trigger] syntax::stmts_from(s, j)[k]).line
                <= i <= syntax::stmts_from(s, j)[k].last_line,
    decreases indent::lines(s).len() - j,
{
    let all = syntax::stmts_from(s, j);
    syntax::lemma_lines_count(s, 0);
    if syntax::blank_at(s, j) {
        lemma_covered(s, j + 1, i);
    } else {
        let st = syntax::stmt_at(s, j);
        syntax::lemma_last_line(s, j);
        let rest = syntax::stmts_from(s, st.last_line + 1);
        assert(all == seq![st] + rest);
        if i <= st.last_line {
            lemma_line_of_stmt(s, j);
            assert(all[0] == st);
        } else {
            lemma_covered(s, st.last_line + 1, i);
            let k = choose|k: int|
                0 <= k < rest.len() && (#[trigger] rest[k]).line <= i <= rest[k].last_line;
            assert(all[k + 1] == rest[k]);
        }
    }
}

proof fn lemma_line_of_stmt(s: Seq<u8>, j: int)
    requires
        0 <= j < usize::MAX,
    ensures
        syntax::stmt_at(s, j).line == j,
{
}

/// Every line with more than white space belongs to a statement, and to one only; and the statements
/// come in the order of their lines.
pub proof fn law_lines_belong_to_statements(s: Seq<u8>, i: int)
    requires
        valid_utf8(s),
        s.len() <= usize::MAX,
        0 <= i < indent::lines(s).len(),
        text::trim(indent::texts(s)[i]).len() > 0,
    ensures
        exists|k: int|
            0 <= k < syntax::stmts(s).len() && (#[trigger] syntax::stmts(s)[k]).line <= i
                <= syntax::stmts(s)[k].last_line,
        forall|j: int, k: int|
            0 <= j < k < syntax::stmts(s).len() ==> (#[trigger] syntax::stmts(s)[j]).last_line < (
            #[trigger] syntax::stmts(s)[k]).line,
{
    let line = indent::lines(s)[i];
    indent::lemma_line_boundary(s, i);
    text::lemma_trim_at(s, line.0, line.1);
    lemma_covered(s, 0, i);
    let raw = syntax::stmts_from(s, 0);
    let k = choose|k: int| 0 <= k < raw.len() && (#[trigger] raw[k]).line <= i <= raw[k].last_line;
    assert(syntax::stmts(s)[k].line == raw[k].line);
    assert forall|j: int, k: int| 0 <= j < k < syntax::stmts(s).len() implies (
    #[trigger] syntax::stmts(s)[j]).last_line < (#[trigger] syntax::stmts(s)[k]).line by {
        syntax::lemma_stmts_ordered(s, j, k);
    }
}

/// A selector starts with `$` and ends with its only `:`, and a line that starts with `$` is nothing
/// else.
pub proof fn law_selectors(s: Seq<u8>, k: int)
    requires
        valid_utf8(s),
        s.len() <= usize::MAX,
        0 <= k < syntax::stmts(s).len(),
    ensures
        ({
            let st = syntax::stmts(s)[k];
            let h = head_text(s, k);
            &&& st.kind == StmtKind::StateSelector ==> h[0] == 0x24 && first_at(
                h,
                0x3a,
                h.len() - 1,
            )
            &&& h[0] == 0x24 ==> st.kind == StmtKind::StateSelector || st.kind == StmtKind::Error
        }),
{
    lemma_head(s, k);
    let h = head_text(s, k);
    lemma_occurs(h, 0x3a);
    if !indent::comment(h) && h[0] != 0x2d && h[0] != 0x24 {
        syntax::lemma_bare_kind(h);
        if let Some(c) = text::find_byte(h, 0x3a, 0) {
            syntax::lemma_colon_kind(h, c);
        }
    }
}

/// Whether the bytes from `i` to `e` are a whole word of a selector: spaces, the `$` in front or the
/// `:` at the end enclose it, and it holds no space.
pub open spec fn selector_word(h: Seq<u8>, i: int, e: int) -> bool {
    &&& 1 <= i < e <= h.len() - 1
    &&& i == 1 || h[i - 1] == 0x20
    &&& e == h.len() - 1 || h[e] == 0x20
    &&& forall|j: int| i <= j < e ==> #[trigger] h[j] != 0x20
}

/// Whether the word of a selector at `a` names the state at `p`.
pub open spec fn names_state(h: Seq<u8>, a: int, p: (int, int)) -> bool {
    selector_word(h, a, p.1) && p.0 == if h[a] == 0x21 {
        a + 1
    } else {
        a
    }
}

proof fn lemma_states_from(h: Seq<u8>, i: int, p: (int, int))
    requires
        1 <= i <= h.len(),
        i == 1 || h[i - 1] == 0x20 || (i < h.len() && h[i] == 0x20) || i >= h.len() - 1,
    ensures
        syntax::states_from(h, i).contains(p) <==> exists|a: int| #[trigger]
            names_state(h, a, p) && a >= i,
    decreases h.len() - i,
{
    let all = syntax::states_from(h, i);
    if i < h.len() - 1 {
        if h[i] == 0x20 {
            lemma_states_from(h, i + 1, p);
            assert forall|a: int| #[trigger] names_state(h, a, p) && a >= i implies a >= i + 1 by {
                assert(a != i);
            }
            if all.contains(p) {
                let a = choose|a: int| #[trigger] names_state(h, a, p) && a >= i + 1;
                assert(names_state(h, a, p) && a >= i);
            }
        } else {
            syntax::lemma_state_end(h, i);
            syntax::lemma_state_stop(h, i);
            lemma_no_space(h, i);
            let e = syntax::state_end(h, i);
            let first = (if h[i] == 0x21 {
                i + 1
            } else {
                i
            }, e);
            let rest = syntax::states_from(h, e);
            assert(all == seq![first] + rest);
            lemma_states_from(h, e, p);
            if all.contains(p) {
                let x = all.index_of(p);
                if x == 0 {
                    assert(names_state(h, i, p));
                } else {
                    assert(rest[x - 1] == p);
                    let a = choose|a: int| #[trigger] names_state(h, a, p) && a >= e;
                    assert(names_state(h, a, p) && a >= i);
                }
            }
            if exists|a: int| #[trigger] names_state(h, a, p) && a >= i {
                let a = choose|a: int| #[trigger] names_state(h, a, p) && a >= i;
                if a == i {
                    let b = p.1;
                    if b < e {
                        assert(h[b] != 0x20);
                    } else if e < b {
                        assert(h[e] != 0x20);
                    }
                    assert(all[0] == p);
                } else {
                    if a < e {
                        assert(h[a - 1] != 0x20);
                    }
                    assert(rest.contains(p));
                    assert(all[1 + rest.index_of(p)] == p);
                }
            }
        }
    }
}

proof fn lemma_no_space(h: Seq<u8>, i: int)
    requires
        0 <= i,
    ensures
        forall|j: int| i <= j < syntax::state_end(h, i) ==> #[trigger] h[j] != 0x20,
    decreases h.len() - i,
{
    if i < h.len() - 1 && h[i] != 0x20 {
        lemma_no_space(h, i + 1);
    }
}

/// The states that a selector names are its words, each without the `!` that negates it, all of them
/// and no others.
pub proof fn law_states_are_words(h: Seq<u8>, p: (int, int))
    requires
        h.len() > 0,
    ensures
        syntax::states_from(h, 1).contains(p) <==> exists|a: int| #[trigger] names_state(h, a, p),
{
    lemma_states_from(h, 1, p);
}

} // verus!
