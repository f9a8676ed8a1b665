//! That a long comment in front of a Lua source moves what the source refers to and changes nothing
//! else, whatever the comment holds.

use crate::ascii;
use crate::lua_refs::{
    call_literal, call_literals, chain, covered, dot_ui_ids, equals_run_end, id_refs, ident_byte,
    ident_run_end, ident_start, lemma_ident_run_end, lemma_opaque_end, long_bracket, long_close,
    opaque_end, opaque_from, opaque_ranges, refs_at, short_string_end, sole_literal, word_ends,
    word_starts, LuaIdRefKind, LuaIdRefView,
};
use crate::order;
use crate::order::Placed;
use crate::text;
use vstd::prelude::*;
use vstd::string::*;
use vstd::utf8::*;

verus! {

/// How a long comment of the given level opens: `--[`, so many `=`, `[`.
pub open spec fn long_open(level: int) -> Seq<u8> {
    seq![ascii::DASH, ascii::DASH, ascii::OPEN_BRACKET] + Seq::new(
        level as nat,
        |k: int| ascii::EQUALS,
    ) + seq![ascii::OPEN_BRACKET]
}

/// The long comment of the given level that holds `body`.
pub open spec fn long_comment(level: int, body: Seq<u8>) -> Seq<u8> {
    long_open(level) + body + long_close(level)
}

/// The spans moved by `n`.
pub open spec fn moved(spans: Seq<(int, int)>, n: int) -> Seq<(int, int)> {
    spans.map_values(|p: (int, int)| (p.0 + n, p.1 + n))
}

/// The references moved by `n`.
pub open spec fn moved_refs(refs: Seq<LuaIdRefView>, n: int) -> Seq<LuaIdRefView> {
    refs.map_values(
        |r: LuaIdRefView| LuaIdRefView { start: r.start + n, end: r.end + n, ..r },
    )
}

/// The span moved by `n`, where there is one.
pub open spec fn moved_span(span: Option<(int, int)>, n: int) -> Option<(int, int)> {
    match span {
        Some(p) => Some((p.0 + n, p.1 + n)),
        None => None,
    }
}

/// The offset moved by `n`, where there is one.
pub open spec fn moved_offset(offset: Option<int>, n: int) -> Option<int> {
    match offset {
        Some(k) => Some(k + n),
        None => None,
    }
}

// ---------------------------------------------------------------------------------------------
// Reading behind another text
// ---------------------------------------------------------------------------------------------

proof fn lemma_has_behind(p: Seq<u8>, s: Seq<u8>, i: int, c: u8)
    requires
        0 <= i,
    ensures
        text::has(p + s, p.len() + i, c) == text::has(s, i, c),
        i < s.len() ==> (p + s)[p.len() + i] == s[i],
{
}

proof fn lemma_occurs_behind(p: Seq<u8>, s: Seq<u8>, i: int, pat: Seq<u8>)
    requires
        0 <= i,
    ensures
        text::occurs(p + s, p.len() + i, pat) == text::occurs(s, i, pat),
{
    let n = p.len() as int;
    if i + pat.len() <= s.len() {
        assert((p + s).subrange(n + i, n + i + pat.len()) =~= s.subrange(i, i + pat.len()));
    }
}

proof fn lemma_find_behind(p: Seq<u8>, s: Seq<u8>, pat: Seq<u8>, i: int)
    requires
        0 <= i,
    ensures
        text::find(p + s, pat, p.len() + i) == moved_offset(
            text::find(s, pat, i),
            p.len() as int,
        ),
    decreases s.len() + 1 - i,
{
    lemma_occurs_behind(p, s, i, pat);
    if i <= s.len() {
        lemma_find_behind(p, s, pat, i + 1);
    }
}

proof fn lemma_find_byte_behind(p: Seq<u8>, s: Seq<u8>, c: u8, i: int)
    requires
        0 <= i,
    ensures
        text::find_byte(p + s, c, p.len() + i) == moved_offset(
            text::find_byte(s, c, i),
            p.len() as int,
        ),
    decreases s.len() - i,
{
    if i < s.len() {
        lemma_has_behind(p, s, i, c);
        lemma_find_byte_behind(p, s, c, i + 1);
    }
}

proof fn lemma_ws_behind(p: Seq<u8>, s: Seq<u8>, i: int)
    requires
        0 <= i,
    ensures
        text::ws_len(p + s, p.len() + i) == text::ws_len(s, i),
{
    let t = p + s;
    let n = p.len() as int;
    assert(forall|j: int| 0 <= j < s.len() ==> t[n + j] == #[trigger] s[j]);
}

proof fn lemma_skip_behind(p: Seq<u8>, s: Seq<u8>, i: int)
    requires
        0 <= i,
    ensures
        text::skip_ws(p + s, p.len() + i) == p.len() + text::skip_ws(s, i),
        i <= text::skip_ws(s, i),
    decreases s.len() - i,
{
    lemma_ws_behind(p, s, i);
    if text::ws_len(s, i) > 0 {
        lemma_skip_behind(p, s, i + text::ws_len(s, i));
    }
}

proof fn lemma_equals_behind(p: Seq<u8>, s: Seq<u8>, i: int)
    requires
        0 <= i,
    ensures
        equals_run_end(p + s, p.len() + i) == p.len() + equals_run_end(s, i),
        i <= equals_run_end(s, i),
    decreases s.len() - i,
{
    lemma_has_behind(p, s, i, ascii::EQUALS);
    if text::has(s, i, ascii::EQUALS) {
        lemma_equals_behind(p, s, i + 1);
    }
}

proof fn lemma_string_behind(p: Seq<u8>, s: Seq<u8>, quote: u8, j: int)
    requires
        0 <= j,
    ensures
        short_string_end(p + s, quote, p.len() + j) == p.len() + short_string_end(s, quote, j),
    decreases s.len() + 1 - j,
{
    if j < s.len() {
        lemma_has_behind(p, s, j, quote);
        if s[j] == ascii::BACKSLASH {
            lemma_string_behind(p, s, quote, j + 2);
        } else if s[j] != ascii::NEWLINE && s[j] != quote {
            lemma_string_behind(p, s, quote, j + 1);
        }
    }
}

proof fn lemma_bracket_behind(p: Seq<u8>, s: Seq<u8>, at: int)
    requires
        0 <= at,
    ensures
        long_bracket(p + s, p.len() + at) == moved_offset(long_bracket(s, at), p.len() as int),
{
    let k = equals_run_end(s, at + 1);
    lemma_equals_behind(p, s, at + 1);
    lemma_has_behind(p, s, at, ascii::OPEN_BRACKET);
    lemma_has_behind(p, s, k, ascii::OPEN_BRACKET);
    lemma_find_behind(p, s, long_close(k - (at + 1)), k + 1);
}

proof fn lemma_opaque_end_behind(p: Seq<u8>, s: Seq<u8>, i: int)
    requires
        0 <= i < s.len(),
    ensures
        opaque_end(p + s, p.len() + i) == moved_offset(opaque_end(s, i), p.len() as int),
{
    lemma_has_behind(p, s, i, ascii::DASH);
    lemma_has_behind(p, s, i + 1, ascii::DASH);
    lemma_string_behind(p, s, s[i], i + 1);
    lemma_bracket_behind(p, s, i + 2);
    lemma_bracket_behind(p, s, i);
    lemma_find_byte_behind(p, s, ascii::NEWLINE, i);
}

/// The comments and strings behind another text are moved.
proof fn lemma_opaque_behind(p: Seq<u8>, s: Seq<u8>, i: int)
    requires
        0 <= i,
    ensures
        opaque_from(p + s, p.len() + i) == moved(opaque_from(s, i), p.len() as int),
    decreases s.len() - i,
{
    let n = p.len() as int;
    if i < s.len() {
        lemma_opaque_end_behind(p, s, i);
        match opaque_end(s, i) {
            Some(e) => {
                lemma_opaque_end(s, i);
                lemma_opaque_behind(p, s, e);
                assert(moved(seq![(i, e)] + opaque_from(s, e), n) =~= seq![(i + n, e + n)] + moved(
                    opaque_from(s, e),
                    n,
                ));
            },
            None => {
                lemma_opaque_behind(p, s, i + 1);
            },
        }
    } else {
        assert(moved(opaque_from(s, i), n) =~= Seq::empty());
    }
}

proof fn lemma_ident_run_behind(p: Seq<u8>, s: Seq<u8>, i: int)
    requires
        0 <= i,
    ensures
        ident_run_end(p + s, p.len() + i) == p.len() + ident_run_end(s, i),
        i <= ident_run_end(s, i),
    decreases s.len() - i,
{
    if i < s.len() && ident_byte(s[i]) {
        lemma_has_behind(p, s, i, s[i]);
        lemma_ident_run_behind(p, s, i + 1);
    } else if i < s.len() {
        lemma_has_behind(p, s, i, s[i]);
    }
}

proof fn lemma_chain_behind(p: Seq<u8>, s: Seq<u8>, i: int)
    requires
        0 <= i,
    ensures
        chain(p + s, p.len() + i) == moved(chain(s, i), p.len() as int),
    decreases s.len() - i,
{
    let n = p.len() as int;
    let e = ident_run_end(s, i);
    lemma_ident_run_behind(p, s, i);
    lemma_has_behind(p, s, e, ascii::DOT);
    lemma_has_behind(p, s, e + 1, ascii::DOT);
    if e <= i {
        assert(moved(chain(s, i), n) =~= Seq::empty());
    } else if text::has(s, e, ascii::DOT) && ident_start(s, e + 1) {
        lemma_chain_behind(p, s, e + 1);
        assert(moved(seq![(i, e)] + chain(s, e + 1), n) =~= seq![(i + n, e + n)] + moved(
            chain(s, e + 1),
            n,
        ));
    } else {
        assert(moved(seq![(i, e)], n) =~= seq![(i + n, e + n)]);
    }
}

// ---------------------------------------------------------------------------------------------
// Behind a long comment
// ---------------------------------------------------------------------------------------------

/// Whether the byte closes a long bracket, or can stand in its close.
spec fn closing_byte(c: u8) -> bool {
    c == ascii::EQUALS || c == ascii::CLOSE_BRACKET
}

/// Whether the first `e` bytes of `p` are a comment whatever follows, and nothing but bytes that can
/// stand in the close of a long bracket comes behind them.
spec fn sealed(p: Seq<u8>, e: int) -> bool {
    &&& 0 < e <= p.len()
    &&& p.last() == ascii::CLOSE_BRACKET
    &&& forall|i: int| e <= i < p.len() ==> closing_byte(#[trigger] p[i])
    &&& forall|s: Seq<u8>| opaque_end(#[trigger] (p + s), 0) == Some(e)
}

proof fn lemma_long_open(level: int)
    requires
        0 <= level,
    ensures
        long_open(level).len() == level + 4,
        long_open(level)[0] == ascii::DASH,
        long_open(level)[1] == ascii::DASH,
        long_open(level)[2] == ascii::OPEN_BRACKET,
        forall|j: int| 3 <= j < level + 3 ==> #[trigger] long_open(level)[j] == ascii::EQUALS,
        long_open(level)[level + 3] == ascii::OPEN_BRACKET,
        long_close(level).len() == level + 2,
        long_close(level)[0] == ascii::CLOSE_BRACKET,
        forall|j: int| 0 < j < level + 1 ==> #[trigger] long_close(level)[j] == ascii::EQUALS,
        long_close(level)[level + 1] == ascii::CLOSE_BRACKET,
{
}

proof fn lemma_equals_run(t: Seq<u8>, i: int, e: int)
    requires
        0 <= i <= e < t.len(),
        forall|j: int| i <= j < e ==> #[trigger] t[j] == ascii::EQUALS,
        t[e] != ascii::EQUALS,
    ensures
        equals_run_end(t, i) == e,
    decreases e - i,
{
    if i < e {
        lemma_equals_run(t, i + 1, e);
    }
}

/// Where the close of a long comment is found, whatever follows the comment.
spec fn closed_at(level: int, body: Seq<u8>) -> int {
    text::find(long_comment(level, body), long_close(level), level + 4)->0
}

proof fn lemma_closed(level: int, body: Seq<u8>, s: Seq<u8>)
    requires
        0 <= level,
        text::find(body, long_close(level), 0) is None,
    ensures
        ({
            let p = long_comment(level, body);
            let q = closed_at(level, body);
            &&& level + 4 <= q <= level + 4 + body.len()
            &&& q + level + 2 > level + 4 + body.len()
            &&& opaque_end(p + s, 0) == Some(q + level + 2)
        }),
{
    let p = long_comment(level, body);
    let close = long_close(level);
    let t = p + s;
    let a = level + 4;
    let b = a + body.len();
    lemma_long_open(level);
    assert(p.len() == b + close.len());
    assert(p.subrange(b, b + close.len()) =~= close);
    assert(text::occurs(p, b, close));
    text::lemma_find(p, close, a);
    let q = closed_at(level, body);
    if q + close.len() <= b {
        assert(p.subrange(q, q + close.len()) =~= body.subrange(q - a, q - a + close.len()));
        assert(text::occurs(body, q - a, close));
        text::lemma_find(body, close, 0);
    }
    lemma_find_within(p, s, close, a, q);
    assert(forall|j: int| 0 <= j < a ==> #[trigger] t[j] == long_open(level)[j]);
    lemma_equals_run(t, 3, level + 3);
}

/// A text that follows does not change where something is found that was found in front of it.
proof fn lemma_find_within(p: Seq<u8>, s: Seq<u8>, pat: Seq<u8>, i: int, q: int)
    requires
        0 <= i,
        text::find(p, pat, i) == Some(q),
    ensures
        text::find(p + s, pat, i) == Some(q),
    decreases p.len() + 1 - i,
{
    let t = p + s;
    if text::occurs(p, i, pat) {
        assert(t.subrange(i, i + pat.len()) =~= p.subrange(i, i + pat.len()));
    } else {
        text::lemma_find(p, pat, i + 1);
        if text::occurs(t, i, pat) {
            assert(p.subrange(i, i + pat.len()) =~= t.subrange(i, i + pat.len()));
        }
        lemma_find_within(p, s, pat, i + 1, q);
    }
}

proof fn lemma_sealed(level: int, body: Seq<u8>)
    requires
        0 <= level,
        text::find(body, long_close(level), 0) is None,
    ensures
        sealed(long_comment(level, body), closed_at(level, body) + level + 2),
{
    let p = long_comment(level, body);
    let e = closed_at(level, body) + level + 2;
    let b = level + 4 + body.len();
    lemma_long_open(level);
    lemma_closed(level, body, Seq::empty());
    assert forall|s: Seq<u8>| opaque_end(#[trigger] (p + s), 0) == Some(e) by {
        lemma_closed(level, body, s);
    }
    assert forall|i: int| e <= i < p.len() implies closing_byte(#[trigger] p[i]) by {
        assert(p[i] == long_close(level)[i - b]);
    }
    assert(p.last() == long_close(level)[level + 1]);
}

proof fn lemma_opaque_sealed(p: Seq<u8>, e: int, s: Seq<u8>, i: int)
    requires
        sealed(p, e),
        e <= i <= p.len(),
    ensures
        opaque_from(p + s, i) == opaque_from(p + s, p.len() as int),
    decreases p.len() - i,
{
    if i < p.len() {
        assert((p + s)[i] == p[i]);
        assert(closing_byte(p[i]));
        lemma_opaque_sealed(p, e, s, i + 1);
    }
}

/// The comments and strings of a source behind a long comment.
proof fn lemma_ranges(p: Seq<u8>, e: int, s: Seq<u8>)
    requires
        sealed(p, e),
    ensures
        opaque_ranges(p + s) == seq![(0, e)] + moved(opaque_ranges(s), p.len() as int),
{
    assert(opaque_end(p + s, 0) == Some(e));
    lemma_opaque_sealed(p, e, s, e);
    lemma_opaque_behind(p, s, 0);
}

proof fn lemma_covered(p: Seq<u8>, e: int, s: Seq<u8>, i: int)
    requires
        sealed(p, e),
    ensures
        0 <= i ==> covered(opaque_ranges(p + s), p.len() + i) == covered(opaque_ranges(s), i),
        0 <= i < e ==> covered(opaque_ranges(p + s), i),
{
    let n = p.len() as int;
    let old = opaque_ranges(s);
    let new = opaque_ranges(p + s);
    lemma_ranges(p, e, s);
    assert(new[0] == (0int, e));
    if covered(old, i) {
        let k = choose|k: int| 0 <= k < old.len() && (#[trigger] old[k]).0 <= i < old[k].1;
        assert(new[k + 1] == (old[k].0 + n, old[k].1 + n));
    }
    if 0 <= i && covered(new, n + i) {
        let k = choose|k: int| 0 <= k < new.len() && (#[trigger] new[k]).0 <= n + i < new[k].1;
        assert(k > 0);
        assert(new[k] == (old[k - 1].0 + n, old[k - 1].1 + n));
    }
}

proof fn lemma_literal_behind(p: Seq<u8>, s: Seq<u8>, a: int)
    requires
        0 <= a,
    ensures
        sole_literal(p + s, p.len() + a) == moved_span(sole_literal(s, a), p.len() as int),
{
    let q = text::skip_ws(s, a);
    lemma_skip_behind(p, s, a);
    lemma_has_behind(p, s, q, ascii::QUOTE);
    lemma_has_behind(p, s, q, ascii::DOUBLE_QUOTE);
    if q < s.len() {
        lemma_find_byte_behind(p, s, s[q], q + 1);
        text::lemma_find_byte(s, s[q], q + 1);
        if let Some(c) = text::find_byte(s, s[q], q + 1) {
            lemma_skip_behind(p, s, c + 1);
            lemma_has_behind(p, s, text::skip_ws(s, c + 1), ascii::CLOSE_PAREN);
        }
    }
}

proof fn lemma_word_behind(p: Seq<u8>, s: Seq<u8>, i: int)
    requires
        0 <= i,
        p.len() > 0,
        !ident_byte(p.last()),
    ensures
        word_starts(p + s, p.len() + i) == word_starts(s, i),
        word_ends(p + s, p.len() + i) == word_ends(s, i),
{
    let t = p + s;
    let n = p.len() as int;
    assert(t[n - 1] == p.last());
    if 0 < i <= s.len() {
        assert(t[n + i - 1] == s[i - 1]);
    }
    if i < s.len() {
        assert(t[n + i] == s[i]);
    }
}

proof fn lemma_call_behind(p: Seq<u8>, e: int, s: Seq<u8>, name: Seq<u8>, i: int)
    requires
        sealed(p, e),
        0 <= i,
    ensures
        call_literal(p + s, opaque_ranges(p + s), name, p.len() + i) == moved_span(
            call_literal(s, opaque_ranges(s), name, i),
            p.len() as int,
        ),
{
    let q = text::skip_ws(s, i + name.len());
    lemma_occurs_behind(p, s, i, name);
    lemma_word_behind(p, s, i);
    lemma_word_behind(p, s, i + name.len());
    lemma_covered(p, e, s, i);
    lemma_skip_behind(p, s, i + name.len());
    lemma_has_behind(p, s, q, ascii::OPEN_PAREN);
    lemma_literal_behind(p, s, q + 1);
}

proof fn lemma_calls_behind(p: Seq<u8>, e: int, s: Seq<u8>, name: Seq<u8>, i: int)
    requires
        sealed(p, e),
        0 <= i,
    ensures
        call_literals(p + s, opaque_ranges(p + s), name, p.len() + i) == moved(
            call_literals(s, opaque_ranges(s), name, i),
            p.len() as int,
        ),
    decreases s.len() - i,
{
    let n = p.len() as int;
    let ranges = opaque_ranges(s);
    if i < s.len() {
        let next = if text::occurs(s, i, name) && name.len() > 0 {
            i + name.len()
        } else {
            i + 1
        };
        lemma_occurs_behind(p, s, i, name);
        lemma_call_behind(p, e, s, name, i);
        lemma_calls_behind(p, e, s, name, next);
        let rest = call_literals(s, ranges, name, next);
        if let Some(span) = call_literal(s, ranges, name, i) {
            assert(moved(seq![span] + rest, n) =~= seq![(span.0 + n, span.1 + n)] + moved(rest, n));
        }
    } else {
        assert(moved(call_literals(s, ranges, name, i), n) =~= Seq::empty());
    }
}

/// Whether `name` is an identifier's worth of bytes.
spec fn all_ident(name: Seq<u8>) -> bool {
    name.len() > 0 && forall|j: int| 0 <= j < name.len() ==> ident_byte(#[trigger] name[j])
}

/// No call is found in front of the source.
proof fn lemma_calls_in_front(p: Seq<u8>, e: int, s: Seq<u8>, name: Seq<u8>, i: int)
    requires
        sealed(p, e),
        all_ident(name),
        0 <= i <= p.len(),
    ensures
        call_literals(p + s, opaque_ranges(p + s), name, i) == call_literals(
            p + s,
            opaque_ranges(p + s),
            name,
            p.len() as int,
        ),
    decreases p.len() - i,
{
    let t = p + s;
    let n = p.len() as int;
    if i < n {
        if text::occurs(t, i, name) {
            let part = t.subrange(i, i + name.len());
            assert(part[0] == t[i]);
            assert(ident_byte(name[0]));
            if i + name.len() >= n {
                assert(part[n - 1 - i] == t[n - 1]);
                assert(t[n - 1] == p.last());
                assert(ident_byte(name[n - 1 - i]));
            }
            assert(t[i] == p[i]);
            if e <= i {
                assert(closing_byte(p[i]));
            }
            lemma_covered(p, e, s, i);
            lemma_calls_in_front(p, e, s, name, i + name.len());
        } else {
            lemma_calls_in_front(p, e, s, name, i + 1);
        }
    }
}

proof fn lemma_dots_behind(p: Seq<u8>, e: int, s: Seq<u8>, i: int)
    requires
        sealed(p, e),
        0 <= i,
    ensures
        dot_ui_ids(p + s, opaque_ranges(p + s), p.len() + i) == moved(
            dot_ui_ids(s, opaque_ranges(s), i),
            p.len() as int,
        ),
    decreases s.len() - i,
{
    let n = p.len() as int;
    let ranges = opaque_ranges(s);
    let dot = ".ui.".spec_bytes();
    if i < s.len() {
        lemma_occurs_behind(p, s, i, dot);
        lemma_word_behind(p, s, i);
        lemma_covered(p, e, s, i);
        lemma_dots_behind(p, e, s, i + 1);
        lemma_chain_behind(p, s, i + dot.len());
        let own = chain(s, i + dot.len());
        let rest = dot_ui_ids(s, ranges, i + 1);
        assert(moved(own + rest, n) =~= moved(own, n) + moved(rest, n));
    } else {
        assert(moved(dot_ui_ids(s, ranges, i), n) =~= Seq::empty());
    }
}

proof fn lemma_dots_in_front(p: Seq<u8>, e: int, s: Seq<u8>, i: int)
    requires
        sealed(p, e),
        0 <= i <= p.len(),
    ensures
        dot_ui_ids(p + s, opaque_ranges(p + s), i) == dot_ui_ids(
            p + s,
            opaque_ranges(p + s),
            p.len() as int,
        ),
    decreases p.len() - i,
{
    let t = p + s;
    if i < p.len() {
        lemma_covered(p, e, s, i);
        reveal_strlit(".ui.");
        is_ascii_chars_encode_utf8(".ui."@);
        if text::occurs(t, i, ".ui.".spec_bytes()) {
            assert(t.subrange(i, i + ".ui.".spec_bytes().len())[0] == t[i]);
            assert(t[i] == p[i]);
            if e <= i {
                assert(closing_byte(p[i]));
            }
        }
        lemma_dots_in_front(p, e, s, i + 1);
    }
}

// ---------------------------------------------------------------------------------------------
// Lists
// ---------------------------------------------------------------------------------------------

proof fn lemma_refs_moved(p: Seq<u8>, s: Seq<u8>, spans: Seq<(int, int)>, kind: LuaIdRefKind)
    requires
        forall|k: int| 0 <= k < spans.len() ==> 0 <= (#[trigger] spans[k]).0 <= spans[k].1
            <= s.len(),
    ensures
        refs_at(p + s, moved(spans, p.len() as int), kind) == moved_refs(
            refs_at(s, spans, kind),
            p.len() as int,
        ),
{
    let n = p.len() as int;
    let a = refs_at(p + s, moved(spans, n), kind);
    let b = moved_refs(refs_at(s, spans, kind), n);
    assert forall|k: int| 0 <= k < a.len() implies a[k] == b[k] by {
        let x = spans[k];
        assert((p + s).subrange(x.0 + n, x.1 + n) =~= s.subrange(x.0, x.1));
    }
    assert(a =~= b);
}

proof fn lemma_insert_moved(items: Seq<LuaIdRefView>, x: LuaIdRefView, n: int)
    ensures
        order::insert_sorted(moved_refs(items, n), moved_refs(seq![x], n)[0]) == moved_refs(
            order::insert_sorted(items, x),
            n,
        ),
    decreases items.len(),
{
    let all = moved_refs(items, n);
    let y = moved_refs(seq![x], n)[0];
    if items.len() == 0 || order::place_le(items.last().place(), x.place()) {
        assert(moved_refs(items.push(x), n) =~= all.push(y));
    } else {
        lemma_insert_moved(items.drop_last(), x, n);
        assert(all.drop_last() =~= moved_refs(items.drop_last(), n));
        let front = order::insert_sorted(items.drop_last(), x);
        assert(moved_refs(front.push(items.last()), n) =~= moved_refs(front, n).push(all.last()));
    }
}

proof fn lemma_sort_moved(items: Seq<LuaIdRefView>, n: int)
    ensures
        order::stable_sort(moved_refs(items, n)) == moved_refs(order::stable_sort(items), n),
    decreases items.len(),
{
    let all = moved_refs(items, n);
    if items.len() > 0 {
        lemma_sort_moved(items.drop_last(), n);
        assert(all.drop_last() =~= moved_refs(items.drop_last(), n));
        lemma_insert_moved(order::stable_sort(items.drop_last()), items.last(), n);
        assert(all.last() == moved_refs(seq![items.last()], n)[0]);
    }
}

/// A long comment in front of a source moves its references by the length of the comment and changes
/// nothing else, whatever quotes or calls the comment holds.
pub proof fn law_long_comment_in_front(level: int, body: Seq<u8>, s: Seq<u8>)
    requires
        0 <= level,
        text::find(body, long_close(level), 0) is None,
    ensures
        id_refs(long_comment(level, body) + s) == moved_refs(
            id_refs(s),
            long_comment(level, body).len() as int,
        ),
{
    let p = long_comment(level, body);
    let n = p.len() as int;
    let e = closed_at(level, body) + level + 2;
    lemma_sealed(level, body);
    let direct = "getChildById".spec_bytes();
    let deep = "recursiveGetChildById".spec_bytes();
    reveal_strlit("getChildById");
    reveal_strlit("recursiveGetChildById");
    is_ascii_chars_encode_utf8("getChildById"@);
    is_ascii_chars_encode_utf8("recursiveGetChildById"@);
    assert(all_ident(direct));
    assert(all_ident(deep));
    lemma_calls_in_front(p, e, s, direct, 0);
    lemma_calls_in_front(p, e, s, deep, 0);
    lemma_dots_in_front(p, e, s, 0);
    lemma_calls_behind(p, e, s, direct, 0);
    lemma_calls_behind(p, e, s, deep, 0);
    lemma_dots_behind(p, e, s, 0);
    let ranges = opaque_ranges(s);
    let x = call_literals(s, ranges, direct, 0);
    let y = call_literals(s, ranges, deep, 0);
    let z = dot_ui_ids(s, ranges, 0);
    lemma_calls_in_text(s, ranges, direct, 0);
    lemma_calls_in_text(s, ranges, deep, 0);
    lemma_dots_in_text(s, ranges, 0);
    lemma_refs_moved(p, s, x, LuaIdRefKind::GetChildById);
    lemma_refs_moved(p, s, y, LuaIdRefKind::RecursiveGetChildById);
    lemma_refs_moved(p, s, z, LuaIdRefKind::DotUi);
    let a = refs_at(s, x, LuaIdRefKind::GetChildById);
    let b = refs_at(s, y, LuaIdRefKind::RecursiveGetChildById);
    let c = refs_at(s, z, LuaIdRefKind::DotUi);
    assert(moved_refs(a + b + c, n) =~= moved_refs(a, n) + moved_refs(b, n) + moved_refs(c, n));
    lemma_sort_moved(a + b + c, n);
}

proof fn lemma_calls_in_text(s: Seq<u8>, ranges: Seq<(int, int)>, name: Seq<u8>, i: int)
    requires
        0 <= i,
    ensures
        forall|k: int|
            0 <= k < call_literals(s, ranges, name, i).len() ==> 0 <= (#[trigger] call_literals(
                s,
                ranges,
                name,
                i,
            )[k]).0 <= call_literals(s, ranges, name, i)[k].1 <= s.len(),
    decreases s.len() - i,
{
    if i < s.len() {
        let next = if text::occurs(s, i, name) && name.len() > 0 {
            i + name.len()
        } else {
            i + 1
        };
        lemma_calls_in_text(s, ranges, name, next);
        let all = call_literals(s, ranges, name, i);
        let rest = call_literals(s, ranges, name, next);
        match call_literal(s, ranges, name, i) {
            Some(span) => {
                let q = text::skip_ws(s, i + name.len());
                text::lemma_skip_ws_grows(s, i + name.len());
                text::lemma_skip_ws_grows(s, q + 1);
                let at = text::skip_ws(s, q + 1);
                text::lemma_find_byte(s, s[at], at + 1);
                assert(all == seq![span] + rest);
                assert forall|k: int| 0 <= k < all.len() implies 0 <= (#[trigger] all[k]).0
                    <= all[k].1 <= s.len() by {
                    if k > 0 {
                        assert(all[k] == rest[k - 1]);
                    }
                }
            },
            None => {
                assert(all == rest);
            },
        }
    }
}

proof fn lemma_chain_in_text(s: Seq<u8>, i: int)
    requires
        0 <= i,
    ensures
        forall|k: int|
            0 <= k < chain(s, i).len() ==> 0 <= (#[trigger] chain(s, i)[k]).0 <= chain(s, i)[k].1
                <= s.len(),
    decreases s.len() - i,
{
    let e = ident_run_end(s, i);
    lemma_ident_run_end(s, i);
    let all = chain(s, i);
    if e > i && text::has(s, e, ascii::DOT) && ident_start(s, e + 1) {
        lemma_chain_in_text(s, e + 1);
        let rest = chain(s, e + 1);
        assert(all == seq![(i, e)] + rest);
        assert forall|k: int| 0 <= k < all.len() implies 0 <= (#[trigger] all[k]).0 <= all[k].1
            <= s.len() by {
            if k > 0 {
                assert(all[k] == rest[k - 1]);
            }
        }
    }
}

proof fn lemma_dots_in_text(s: Seq<u8>, ranges: Seq<(int, int)>, i: int)
    requires
        0 <= i,
    ensures
        forall|k: int|
            0 <= k < dot_ui_ids(s, ranges, i).len() ==> 0 <= (#[trigger] dot_ui_ids(
                s,
                ranges,
                i,
            )[k]).0 <= dot_ui_ids(s, ranges, i)[k].1 <= s.len(),
    decreases s.len() - i,
{
    if i < s.len() {
        lemma_dots_in_text(s, ranges, i + 1);
        let dot = ".ui.".spec_bytes();
        lemma_chain_in_text(s, i + dot.len());
        let all = dot_ui_ids(s, ranges, i);
        let own = chain(s, i + dot.len());
        let rest = dot_ui_ids(s, ranges, i + 1);
        if text::occurs(s, i, dot) && !word_starts(s, i) && !covered(ranges, i) {
            assert(all == own + rest);
            assert forall|k: int| 0 <= k < all.len() implies 0 <= (#[trigger] all[k]).0 <= all[k].1
                <= s.len() by {
                if k < own.len() {
                    assert(all[k] == own[k]);
                } else {
                    assert(all[k] == rest[k - own.len()]);
                }
            }
        } else {
            assert(all == rest);
        }
    }
}

} // verus!
