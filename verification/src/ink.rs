//! What a text says apart from its white space, and that formatting does not change it.

use crate::ascii;
use crate::format::{
    colon_in, content_end, depth_of, formatted, header, margin, other_line, rendered,
    rendered_from, stacked, tail, tidy,
};
use crate::indent;
use crate::syntax;
use crate::text;
use vstd::prelude::*;
use vstd::string::*;
use vstd::utf8::*;

verus! {

/// The bytes of `t` from offset `i` on, without the white space among them.
pub open spec fn ink_from(t: Seq<u8>, i: int) -> Seq<u8>
    decreases t.len() - i,
{
    if !(0 <= i < t.len()) {
        Seq::empty()
    } else if text::ws_len(t, i) > 0 {
        ink_from(t, i + text::ws_len(t, i))
    } else {
        seq![t[i]] + ink_from(t, i + 1)
    }
}

/// The bytes of `t` without the white space among them.
pub open spec fn ink(t: Seq<u8>) -> Seq<u8> {
    ink_from(t, 0)
}

/// Whether no character reaches from `a` into `b`.
spec fn apart(a: Seq<u8>, b: Seq<u8>) -> bool {
    a.len() == 0 || b.len() == 0 || a.last() < 0x80 || !is_continuation_byte(b[0])
}

proof fn lemma_white_apart(a: Seq<u8>, b: Seq<u8>, i: int)
    requires
        apart(a, b),
        0 <= i < a.len(),
    ensures
        text::ws_len(a + b, i) == text::ws_len(a, i),
        i + text::ws_len(a, i) <= a.len(),
{
    let t = a + b;
    assert(forall|j: int| 0 <= j < a.len() ==> #[trigger] t[j] == a[j]);
    assert(forall|j: int| a.len() <= j < t.len() ==> #[trigger] t[j] == b[j - a.len()]);
    if b.len() > 0 {
        assert(t[a.len() as int] == b[0]);
    }
}

proof fn lemma_ink_behind(a: Seq<u8>, b: Seq<u8>, i: int)
    requires
        0 <= i,
    ensures
        ink_from(a + b, a.len() + i) == ink_from(b, i),
    decreases b.len() - i,
{
    let t = a + b;
    let n = a.len() as int;
    if i < b.len() {
        assert(forall|j: int| 0 <= j < b.len() ==> #[trigger] b[j] == t[n + j]);
        assert(text::ws_len(t, n + i) == text::ws_len(b, i));
        if text::ws_len(b, i) > 0 {
            lemma_ink_behind(a, b, i + text::ws_len(b, i));
        } else {
            lemma_ink_behind(a, b, i + 1);
        }
    }
}

proof fn lemma_ink_concat_from(a: Seq<u8>, b: Seq<u8>, i: int)
    requires
        apart(a, b),
        0 <= i <= a.len(),
    ensures
        ink_from(a + b, i) == ink_from(a, i) + ink(b),
    decreases a.len() - i,
{
    if i < a.len() {
        lemma_white_apart(a, b, i);
        let w = text::ws_len(a, i);
        if w > 0 {
            lemma_ink_concat_from(a, b, i + w);
        } else {
            lemma_ink_concat_from(a, b, i + 1);
            assert(seq![a[i]] + (ink_from(a, i + 1) + ink(b)) =~= (seq![a[i]] + ink_from(
                a,
                i + 1,
            )) + ink(b));
        }
    } else {
        lemma_ink_behind(a, b, 0);
        assert(ink_from(a, i) + ink(b) =~= ink(b));
    }
}

/// What two texts say that follow each other.
proof fn lemma_ink_concat(a: Seq<u8>, b: Seq<u8>)
    requires
        apart(a, b),
    ensures
        ink(a + b) == ink(a) + ink(b),
{
    lemma_ink_concat_from(a, b, 0);
}

proof fn lemma_ink_skip(t: Seq<u8>, i: int)
    requires
        0 <= i,
    ensures
        ink_from(t, text::skip_ws(t, i)) == ink_from(t, i),
    decreases t.len() - i,
{
    if text::ws_len(t, i) > 0 {
        lemma_ink_skip(t, i + text::ws_len(t, i));
    }
}

proof fn lemma_white_says_nothing(t: Seq<u8>, i: int)
    requires
        text::ws_len(t, i) > 0,
    ensures
        0 <= i,
        i + text::ws_len(t, i) <= t.len(),
        ink(t.subrange(i, i + text::ws_len(t, i))) == Seq::<u8>::empty(),
        !is_continuation_byte(t[i]),
{
    let w = text::ws_len(t, i);
    let part = t.subrange(i, i + w);
    assert(forall|j: int| 0 <= j < w ==> #[trigger] part[j] == t[i + j]);
    assert(text::ws_len(part, 0) == w);
    assert(ink_from(part, w) == Seq::<u8>::empty());
}

proof fn lemma_ink_back(t: Seq<u8>, j: int)
    requires
        0 <= j <= t.len(),
    ensures
        0 <= text::skip_ws_back(t, j) <= j,
        ink(t.subrange(0, text::skip_ws_back(t, j))) == ink(t.subrange(0, j)),
    decreases j,
{
    let w = text::ws_len_before(t, j);
    if j > 0 && w > 0 {
        lemma_white_says_nothing(t, j - w);
        lemma_ink_back(t, j - w);
        let a = t.subrange(0, j - w);
        let b = t.subrange(j - w, j);
        assert(t.subrange(0, j) =~= a + b);
        assert(b[0] == t[j - w]);
        lemma_ink_concat(a, b);
        assert(ink(a) + Seq::<u8>::empty() =~= ink(a));
    }
}

/// Trimming a text does not change what it says.
proof fn lemma_ink_trim(t: Seq<u8>)
    requires
        valid_utf8(t),
    ensures
        ink(text::trim(t)) == ink(t),
{
    text::lemma_ends_boundary(t);
    text::lemma_skip_ws(t, 0);
    let k = text::skip_ws(t, 0);
    let rest = text::trim_start(t);
    lemma_ink_skip(t, 0);
    assert(t =~= t.subrange(0, k) + rest);
    lemma_ink_behind(t.subrange(0, k), rest, 0);
    lemma_ink_back(rest, rest.len() as int);
    assert(rest.subrange(0, rest.len() as int) =~= rest);
}

proof fn lemma_ink_spaces()
    ensures
        " ".spec_bytes().len() == 1,
        " ".spec_bytes()[0] == ascii::SPACE,
        "  ".spec_bytes().len() == 2,
        "  ".spec_bytes()[0] == ascii::SPACE,
        "  ".spec_bytes()[1] == ascii::SPACE,
        "\n".spec_bytes().len() == 1,
        "\n".spec_bytes()[0] == ascii::NEWLINE,
        ink(" ".spec_bytes()) == Seq::<u8>::empty(),
        ink("  ".spec_bytes()) == Seq::<u8>::empty(),
        ink("\n".spec_bytes()) == Seq::<u8>::empty(),
{
    reveal_strlit(" ");
    reveal_strlit("  ");
    reveal_strlit("\n");
    is_ascii_chars_encode_utf8(" "@);
    is_ascii_chars_encode_utf8("  "@);
    is_ascii_chars_encode_utf8("\n"@);
    reveal_with_fuel(ink_from, 3);
}

proof fn lemma_ink_margin(depth: int)
    ensures
        ink(margin(depth)) == Seq::<u8>::empty(),
        margin(depth).len() > 0 ==> margin(depth).last() == ascii::SPACE,
    decreases depth,
{
    if depth > 0 {
        lemma_ink_margin(depth - 1);
        lemma_ink_spaces();
        lemma_ink_concat(margin(depth - 1), "  ".spec_bytes());
    }
}

proof fn lemma_ink_tidy(h: Seq<u8>, c: int)
    requires
        valid_utf8(h),
        text::boundary(h, c),
    ensures
        ink(tidy(h, Some(c))) == ink(h),
{
    let front = text::upto(h, c);
    let behind = text::from(h, c);
    let value = text::trim(behind);
    text::lemma_boundary(h, c);
    assert(h =~= front + behind);
    if behind.len() > 0 {
        assert(behind[0] == h[c]);
    }
    lemma_ink_concat(front, behind);
    lemma_ink_trim(behind);
    lemma_ink_spaces();
    if value.len() == 0 {
        assert(ink(value) =~= Seq::<u8>::empty());
        assert(ink(front) + ink(behind) =~= ink(front));
    } else {
        lemma_ink_concat(front, " ".spec_bytes());
        lemma_ink_concat(front + " ".spec_bytes(), value);
        assert(ink(front) + Seq::<u8>::empty() =~= ink(front));
    }
}

/// The line on which a statement starts says what it said.
proof fn lemma_ink_header(s: Seq<u8>, k: int)
    requires
        valid_utf8(s),
        s.len() <= usize::MAX,
        0 <= k < syntax::stmts(s).len(),
    ensures
        ink(header(s, syntax::stmts(s), k)) == ink(
            indent::texts(s)[syntax::stmts(s)[k].line as int],
        ),
{
    let stmts = syntax::stmts(s);
    let st = stmts[k];
    let i = st.line as int;
    syntax::lemma_stmts(s);
    syntax::lemma_stmt_line(s, 0, k);
    assert(syntax::stmt_ok(s, st));
    let line = indent::lines(s)[i];
    indent::lemma_line_boundary(s, i);
    text::lemma_trim_at(s, line.0, line.1);
    text::lemma_part(s, line.0, line.1);
    text::lemma_part(s, st.span.start as int, st.span.end as int);
    let h = syntax::cut(s, st.span);
    assert(h == text::trim(indent::texts(s)[i]));
    lemma_ink_trim(indent::texts(s)[i]);
    lemma_ink_margin(depth_of(stmts, k));
    if let Some(c) = colon_in(st) {
        assert(text::boundary(h, c));
        lemma_ink_tidy(h, c);
    }
    lemma_ink_concat(margin(depth_of(stmts, k)), tidy(h, colon_in(st)));
    assert(Seq::<u8>::empty() + ink(h) =~= ink(h));
}

proof fn lemma_ink_other(t: Seq<u8>)
    requires
        valid_utf8(t),
    ensures
        ink(other_line(t)) == ink(t),
{
    lemma_ink_trim(t);
    if text::trim(t).len() == 0 {
        assert(text::trim(t) =~= other_line(t));
    }
}

proof fn lemma_ink_rendered(s: Seq<u8>, i: int, k: int, j: int)
    requires
        valid_utf8(s),
        s.len() <= usize::MAX,
        0 <= i <= j < indent::lines(s).len(),
        0 <= k,
    ensures
        j - i < rendered_from(s, syntax::stmts(s), i, k).len(),
        ink(rendered_from(s, syntax::stmts(s), i, k)[j - i]) == ink(indent::texts(s)[j]),
    decreases j - i,
{
    let stmts = syntax::stmts(s);
    let line = indent::lines(s)[i];
    crate::format::lemma_rendered_len(s, stmts, i, k);
    indent::lemma_line_boundary(s, i);
    text::lemma_part(s, line.0, line.1);
    if 0 < k <= stmts.len() && stmts[k - 1].body is Some && i <= stmts[k - 1].last_line {
        if i < j {
            lemma_ink_rendered(s, i + 1, k, j);
        }
    } else if 0 <= k < stmts.len() && stmts[k].line == i {
        lemma_ink_header(s, k);
        if i < j {
            lemma_ink_rendered(s, i + 1, k + 1, j);
        }
    } else {
        lemma_ink_other(indent::texts(s)[i]);
        if i < j {
            lemma_ink_rendered(s, i + 1, k, j);
        }
    }
}

/// Where line `i` starts, or the end of the text where there is no such line.
spec fn start_of(s: Seq<u8>, i: int) -> int {
    if i < indent::lines(s).len() {
        indent::lines(s)[i].0
    } else {
        s.len() as int
    }
}

/// What the text up to line `n` says is what the lines up to it say.
proof fn lemma_ink_upto(s: Seq<u8>, lines: Seq<Seq<u8>>, n: int)
    requires
        valid_utf8(s),
        0 <= n <= indent::lines(s).len(),
        lines.len() >= n,
        forall|i: int| 0 <= i < n ==> ink(#[trigger] lines[i]) == ink(indent::texts(s)[i]),
    ensures
        0 <= start_of(s, n) <= s.len(),
        ink(stacked(lines, n)) == ink(s.subrange(0, start_of(s, n))),
        stacked(lines, n).len() > 0 ==> stacked(lines, n).last() == ascii::NEWLINE,
    decreases n,
{
    indent::lemma_lines(s, 0);
    lemma_ink_spaces();
    if n > 0 {
        lemma_ink_upto(s, lines, n - 1);
        let all = indent::lines(s);
        let (a, b) = all[n - 1];
        let feed = "\n".spec_bytes();
        let t = indent::texts(s)[n - 1];
        let e = start_of(s, n);
        if n == all.len() {
            syntax::lemma_last_line_ends(s, 0);
        }
        lemma_ink_concat(stacked(lines, n - 1), lines[n - 1]);
        lemma_ink_concat(stacked(lines, n - 1) + lines[n - 1], feed);
        let front = s.subrange(0, a);
        indent::lemma_line_boundary(s, n - 1);
        assert(s.subrange(0, b) =~= front + t);
        if t.len() > 0 {
            assert(t[0] == s[a]);
        }
        lemma_ink_concat(front, t);
        if e > b {
            assert(e == b + 1);
            assert(s.subrange(0, e) =~= s.subrange(0, b) + feed);
            lemma_ink_concat(s.subrange(0, b), feed);
            assert(ink(s.subrange(0, e)) =~= ink(s.subrange(0, b)));
        } else {
            assert(s.subrange(0, e) =~= s.subrange(0, b));
        }
        assert(ink(stacked(lines, n)) =~= ink(s.subrange(0, e)));
    } else {
        assert(start_of(s, 0) == 0);
        assert(stacked(lines, 0) =~= s.subrange(0, 0));
    }
}

/// Blank lines say nothing.
proof fn lemma_ink_blank(s: Seq<u8>, n: int, m: int)
    requires
        valid_utf8(s),
        0 <= n <= m <= indent::lines(s).len(),
        forall|j: int|
            n <= j < m ==> text::trim(#[trigger] indent::texts(s)[j]).len() == 0,
    ensures
        ink(stacked(indent::texts(s), m)) == ink(stacked(indent::texts(s), n)),
    decreases m - n,
{
    if n < m {
        lemma_ink_blank(s, n, m - 1);
        lemma_ink_spaces();
        let texts = indent::texts(s);
        let line = indent::lines(s)[m - 1];
        let t = texts[m - 1];
        let before = stacked(texts, m - 1);
        indent::lemma_line_boundary(s, m - 1);
        text::lemma_part(s, line.0, line.1);
        lemma_ink_trim(t);
        assert(text::trim(t) =~= Seq::<u8>::empty());
        lemma_ink_upto(s, texts, m - 1);
        lemma_ink_concat(before, t);
        lemma_ink_concat(before + t, "\n".spec_bytes());
        assert(ink(before) + Seq::<u8>::empty() =~= ink(before));
    }
}

/// Formatting changes nothing but white space.
pub proof fn law_formatting_keeps_ink(s: Seq<u8>)
    requires
        valid_utf8(s),
        s.len() <= usize::MAX,
    ensures
        ink(formatted(s)) == ink(s),
{
    let texts = indent::texts(s);
    let n = content_end(texts, texts.len() as int);
    crate::format::lemma_content_end(texts, texts.len() as int);
    crate::format::lemma_rendered_len(s, syntax::stmts(s), 0, 0);
    let lines = rendered(s);
    assert forall|i: int| 0 <= i < n implies ink(#[trigger] lines[i]) == ink(texts[i]) by {
        lemma_ink_rendered(s, 0, 0, i);
    }
    lemma_ink_upto(s, lines, n);
    lemma_ink_upto(s, texts, n);
    lemma_ink_upto(s, texts, texts.len() as int);
    lemma_ink_blank(s, n, texts.len() as int);
    assert(s.subrange(0, s.len() as int) =~= s);
    if tail(s, n).len() > 0 {
        let e = start_of(s, n);
        let front = s.subrange(0, e);
        let rest = text::from(s, e);
        assert(s =~= front + rest);
        indent::lemma_line_boundary(s, n);
        assert(rest[0] == s[e]);
        lemma_ink_concat(front, rest);
        lemma_ink_concat(stacked(lines, n), rest);
    } else {
        assert(formatted(s) =~= stacked(lines, n));
    }
}

} // verus!
