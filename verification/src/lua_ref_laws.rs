//! Which ids a Lua source refers to, told by its text.

use crate::color_laws;
use crate::completion_laws;
use crate::lua_refs;
use crate::lua_refs::{LuaIdDefView, LuaIdRefKind, LuaIdRefView};
use crate::order;
use crate::text;
use vstd::prelude::*;
use vstd::string::*;
use vstd::utf8::*;

verus! {

/// Whether offset `i` starts a call of `name` outside comments and strings, whose sole argument is
/// the string literal with the content from `a` to `b`. The parenthesis opens at `p` and closes at
/// `r`; spaces may stand in between.
pub open spec fn calls_at(
    s: Seq<u8>,
    i: int,
    name: Seq<u8>,
    p: int,
    a: int,
    b: int,
    r: int,
) -> bool {
    &&& 0 <= i && i + name.len() <= p < a - 1 && a < b < r < s.len()
    &&& s.subrange(i, i + name.len()) == name
    &&& i == 0 || !lua_refs::ident_byte(s[i - 1])
    &&& !lua_refs::covered(lua_refs::opaque_ranges(s), i)
    &&& completion_laws::spaces_between(s, i + name.len(), p)
    &&& s[p] == 0x28
    &&& completion_laws::spaces_between(s, p + 1, a - 1)
    &&& s[a - 1] == 0x27 || s[a - 1] == 0x22
    &&& forall|j: int| a <= j < b ==> #[trigger] s[j] != s[a - 1]
    &&& s[b] == s[a - 1]
    &&& completion_laws::spaces_between(s, b + 1, r)
    &&& s[r] == 0x29
}

proof fn lemma_call_literal(s: Seq<u8>, i: int, name: Seq<u8>, p: int, a: int, b: int, r: int)
    requires
        calls_at(s, i, name, p, a, b, r),
    ensures
        lua_refs::call_literal(s, lua_refs::opaque_ranges(s), name, i) == Some((a, b)),
{
    let e = i + name.len();
    color_laws::lemma_skip_spaces(s, e, p);
    color_laws::lemma_skip_spaces(s, p + 1, a - 1);
    color_laws::lemma_find_at(s, s[a - 1], a, b);
    color_laws::lemma_skip_spaces(s, b + 1, r);
    assert(lua_refs::word_ends(s, e)) by {
        if e < p {
            assert(s[e] == 0x20);
        }
    }
}

proof fn lemma_call_found(
    s: Seq<u8>,
    ranges: Seq<(int, int)>,
    name: Seq<u8>,
    j: int,
    i: int,
    span: (int, int),
)
    requires
        0 <= j <= i < s.len(),
        name.len() > 0,
        forall|k: int| 0 <= k < name.len() ==> lua_refs::ident_byte(#[trigger] name[k]),
        lua_refs::call_literal(s, ranges, name, i) == Some(span),
    ensures
        lua_refs::call_literals(s, ranges, name, j).contains(span),
    decreases s.len() - j,
{
    let next = if text::occurs(s, j, name) {
        j + name.len()
    } else {
        j + 1
    };
    let all = lua_refs::call_literals(s, ranges, name, j);
    let rest = lua_refs::call_literals(s, ranges, name, next);
    if j == i {
        assert(all[0] == span);
    } else {
        if next > i {
            assert(s.subrange(j, j + name.len())[i - 1 - j] == s[i - 1]);
            assert(lua_refs::ident_byte(name[i - 1 - j]));
        }
        lemma_call_found(s, ranges, name, next, i, span);
        let k = rest.index_of(span);
        if lua_refs::call_literal(s, ranges, name, j) is Some {
            assert(all[k + 1] == span);
        } else {
            assert(all == rest);
        }
    }
}

proof fn lemma_names()
    ensures
        "getChildById".spec_bytes().len() == 12,
        "recursiveGetChildById".spec_bytes().len() == 21,
        "setId".spec_bytes().len() == 5,
        forall|k: int|
            0 <= k < 12 ==> lua_refs::ident_byte(#[trigger] "getChildById".spec_bytes()[k]),
        forall|k: int|
            0 <= k < 21 ==> lua_refs::ident_byte(#[trigger] "recursiveGetChildById".spec_bytes()[k]),
        forall|k: int| 0 <= k < 5 ==> lua_refs::ident_byte(#[trigger] "setId".spec_bytes()[k]),
        ".ui.".spec_bytes() == seq![0x2eu8, 0x75u8, 0x69u8, 0x2eu8],
{
    reveal_strlit("getChildById");
    reveal_strlit("recursiveGetChildById");
    reveal_strlit("setId");
    reveal_strlit(".ui.");
    is_ascii_chars_encode_utf8("getChildById"@);
    is_ascii_chars_encode_utf8("recursiveGetChildById"@);
    is_ascii_chars_encode_utf8("setId"@);
    is_ascii_chars_encode_utf8(".ui."@);
    assert(".ui.".spec_bytes() =~= seq![0x2eu8, 0x75u8, 0x69u8, 0x2eu8]);
}

/// Whether the source has the reference.
pub open spec fn has_ref(s: Seq<u8>, a: int, b: int, kind: LuaIdRefKind) -> bool {
    lua_refs::id_refs(s).contains(
        LuaIdRefView { id: s.subrange(a, b), start: a, end: b, kind },
    )
}

proof fn lemma_refs(s: Seq<u8>, a: int, b: int, kind: LuaIdRefKind)
    requires
        ({
            let ranges = lua_refs::opaque_ranges(s);
            match kind {
                LuaIdRefKind::GetChildById => lua_refs::call_literals(
                    s,
                    ranges,
                    "getChildById".spec_bytes(),
                    0,
                ).contains((a, b)),
                LuaIdRefKind::RecursiveGetChildById => lua_refs::call_literals(
                    s,
                    ranges,
                    "recursiveGetChildById".spec_bytes(),
                    0,
                ).contains((a, b)),
                LuaIdRefKind::DotUi => lua_refs::dot_ui_ids(s, ranges, 0).contains((a, b)),
            }
        }),
    ensures
        has_ref(s, a, b, kind),
{
    broadcast use vstd::seq_lib::group_to_multiset_ensures;

    let ranges = lua_refs::opaque_ranges(s);
    let direct = lua_refs::call_literals(s, ranges, "getChildById".spec_bytes(), 0);
    let recursive = lua_refs::call_literals(s, ranges, "recursiveGetChildById".spec_bytes(), 0);
    let dotted = lua_refs::dot_ui_ids(s, ranges, 0);
    let x = lua_refs::refs_at(s, direct, LuaIdRefKind::GetChildById);
    let y = lua_refs::refs_at(s, recursive, LuaIdRefKind::RecursiveGetChildById);
    let z = lua_refs::refs_at(s, dotted, LuaIdRefKind::DotUi);
    let all = x + y + z;
    let want = LuaIdRefView { id: s.subrange(a, b), start: a, end: b, kind };
    match kind {
        LuaIdRefKind::GetChildById => {
            let k = direct.index_of((a, b));
            assert(x[k] == want);
            assert(all[k] == want);
        },
        LuaIdRefKind::RecursiveGetChildById => {
            let k = recursive.index_of((a, b));
            assert(y[k] == want);
            assert(all[x.len() + k] == want);
        },
        LuaIdRefKind::DotUi => {
            let k = dotted.index_of((a, b));
            assert(z[k] == want);
            assert(all[x.len() + y.len() + k] == want);
        },
    }
    order::law_stable_sort(all);
    assert(all.to_multiset().count(want) > 0);
    assert(order::stable_sort(all).to_multiset().count(want) > 0);
}

/// Every call of `getChildById` or `recursiveGetChildById` with a string literal is a reference to
/// the id in it, and every such call of `setId` is a definition, wherever in the code it stands.
pub proof fn law_calls_are_found(s: Seq<u8>, i: int, p: int, a: int, b: int, r: int)
    ensures
        calls_at(s, i, "getChildById".spec_bytes(), p, a, b, r) ==> has_ref(
            s,
            a,
            b,
            LuaIdRefKind::GetChildById,
        ),
        calls_at(s, i, "recursiveGetChildById".spec_bytes(), p, a, b, r) ==> has_ref(
            s,
            a,
            b,
            LuaIdRefKind::RecursiveGetChildById,
        ),
        calls_at(s, i, "setId".spec_bytes(), p, a, b, r) ==> lua_refs::id_defs(s).contains(
            LuaIdDefView { id: s.subrange(a, b), start: a, end: b },
        ),
{
    let ranges = lua_refs::opaque_ranges(s);
    lemma_names();
    if calls_at(s, i, "getChildById".spec_bytes(), p, a, b, r) {
        lemma_call_literal(s, i, "getChildById".spec_bytes(), p, a, b, r);
        lemma_call_found(s, ranges, "getChildById".spec_bytes(), 0, i, (a, b));
        lemma_refs(s, a, b, LuaIdRefKind::GetChildById);
    }
    if calls_at(s, i, "recursiveGetChildById".spec_bytes(), p, a, b, r) {
        lemma_call_literal(s, i, "recursiveGetChildById".spec_bytes(), p, a, b, r);
        lemma_call_found(s, ranges, "recursiveGetChildById".spec_bytes(), 0, i, (a, b));
        lemma_refs(s, a, b, LuaIdRefKind::RecursiveGetChildById);
    }
    if calls_at(s, i, "setId".spec_bytes(), p, a, b, r) {
        broadcast use vstd::seq_lib::group_to_multiset_ensures;

        lemma_call_literal(s, i, "setId".spec_bytes(), p, a, b, r);
        lemma_call_found(s, ranges, "setId".spec_bytes(), 0, i, (a, b));
        let spans = lua_refs::call_literals(s, ranges, "setId".spec_bytes(), 0);
        let all = lua_refs::defs_at(s, spans);
        let want = LuaIdDefView { id: s.subrange(a, b), start: a, end: b };
        assert(all[spans.index_of((a, b))] == want);
        order::law_stable_sort(all);
        assert(all.to_multiset().count(want) > 0);
        assert(order::stable_sort(all).to_multiset().count(want) > 0);
    }
}

/// Whether `.ui.` stands at offset `i` of the code, behind a name, with a name from `a` to `b` right
/// behind it.
pub open spec fn dotted_at(s: Seq<u8>, i: int, a: int, b: int) -> bool {
    &&& 0 < i && a == i + 4 && a < b <= s.len()
    &&& s[i] == 0x2e && s[i + 1] == 0x75 && s[i + 2] == 0x69 && s[i + 3] == 0x2e
    &&& lua_refs::ident_byte(s[i - 1])
    &&& !lua_refs::covered(lua_refs::opaque_ranges(s), i)
    &&& forall|j: int| a <= j < b ==> lua_refs::ident_byte(#[trigger] s[j])
    &&& b == s.len() || !lua_refs::ident_byte(s[b])
}

proof fn lemma_run(s: Seq<u8>, i: int, e: int)
    requires
        0 <= i <= e <= s.len(),
        forall|j: int| i <= j < e ==> lua_refs::ident_byte(#[trigger] s[j]),
        e == s.len() || !lua_refs::ident_byte(s[e]),
    ensures
        lua_refs::ident_run_end(s, i) == e,
    decreases e - i,
{
    if i < e {
        lemma_run(s, i + 1, e);
    }
}

proof fn lemma_dotted_found(s: Seq<u8>, j: int, i: int, span: (int, int))
    requires
        0 <= j <= i < s.len(),
        text::occurs(s, i, ".ui.".spec_bytes()),
        !lua_refs::word_starts(s, i),
        !lua_refs::covered(lua_refs::opaque_ranges(s), i),
        lua_refs::chain(s, i + 4).contains(span),
    ensures
        lua_refs::dot_ui_ids(s, lua_refs::opaque_ranges(s), j).contains(span),
    decreases i - j,
{
    lemma_names();
    let ranges = lua_refs::opaque_ranges(s);
    let all = lua_refs::dot_ui_ids(s, ranges, j);
    let rest = lua_refs::dot_ui_ids(s, ranges, j + 1);
    let own = lua_refs::chain(s, j + 4);
    if j == i {
        assert(all == own + rest);
        assert(all[own.index_of(span)] == span);
    } else {
        lemma_dotted_found(s, j + 1, i, span);
        let k = rest.index_of(span);
        if text::occurs(s, j, ".ui.".spec_bytes()) && !lua_refs::word_starts(s, j)
            && !lua_refs::covered(ranges, j) {
            assert(all == own + rest);
            assert(all[own.len() + k] == span);
        } else {
            assert(all == rest);
        }
    }
}

/// Every name right behind a `.ui.` that is a member access is a reference to the id of that name.
pub proof fn law_dotted_ids_are_found(s: Seq<u8>, i: int, a: int, b: int)
    requires
        dotted_at(s, i, a, b),
    ensures
        has_ref(s, a, b, LuaIdRefKind::DotUi),
{
    lemma_names();
    lemma_run(s, a, b);
    assert(s.subrange(i, i + 4) =~= seq![0x2eu8, 0x75u8, 0x69u8, 0x2eu8]);
    let own = lua_refs::chain(s, a);
    assert(own[0] == (a, b));
    assert(own.contains((a, b)));
    lemma_dotted_found(s, 0, i, (a, b));
    lemma_refs(s, a, b, LuaIdRefKind::DotUi);
}

// ---------------------------------------------------------------------------------------------
// Comments and strings
// ---------------------------------------------------------------------------------------------

/// Whether offset `i` is not inside a comment or a string, behind the byte that opens it.
pub open spec fn not_inside(ranges: Seq<(int, int)>, i: int) -> bool {
    forall|k: int| 0 <= k < ranges.len() ==> !((#[trigger] ranges[k]).0 < i < ranges[k].1)
}

proof fn lemma_opens(s: Seq<u8>, j: int, i: int, e: int)
    requires
        0 <= j <= i < s.len(),
        not_inside(lua_refs::opaque_from(s, j), i),
        lua_refs::opaque_end(s, i) == Some(e),
    ensures
        lua_refs::opaque_from(s, j).contains((i, e)),
    decreases s.len() - j,
{
    let all = lua_refs::opaque_from(s, j);
    if j == i {
        assert(all[0] == (i, e));
    } else {
        lua_refs::lemma_opaque_end(s, j);
        match lua_refs::opaque_end(s, j) {
            Some(x) => {
                let rest = lua_refs::opaque_from(s, x);
                assert(all == seq![(j, x)] + rest);
                assert(all[0] == (j, x));
                assert forall|k: int| 0 <= k < rest.len() implies !((#[trigger] rest[k]).0 < i
                    < rest[k].1) by {
                    assert(all[k + 1] == rest[k]);
                }
                lemma_opens(s, x, i, e);
                assert(all[1 + rest.index_of((i, e))] == (i, e));
            },
            None => {
                lemma_opens(s, j + 1, i, e);
            },
        }
    }
}

proof fn lemma_string_end(s: Seq<u8>, quote: u8, j: int, c: int)
    requires
        0 <= j <= c < s.len(),
        s[c] == quote,
        quote != 0x5c && quote != 0x0a,
        forall|x: int|
            j <= x < c ==> #[trigger] s[x] != quote && s[x] != 0x5c && s[x] != 0x0a,
    ensures
        lua_refs::short_string_end(s, quote, j) == c + 1,
    decreases c - j,
{
    if j < c {
        lemma_string_end(s, quote, j + 1, c);
    }
}

/// What is code at offset `i` is read on from there: two dashes open a comment up to the end of the
/// line, and a quote opens a string up to the next such quote. Nothing in between is code.
pub proof fn law_comments_and_strings(s: Seq<u8>, i: int, e: int)
    requires
        0 <= i < e <= s.len(),
        not_inside(lua_refs::opaque_ranges(s), i),
    ensures
        s[i] == 0x2d && i + 1 < e && s[i + 1] == 0x2d && (i + 2 >= s.len() || s[i + 2] != 0x5b) && (
        e == s.len() || s[e] == 0x0a) && (forall|x: int| i <= x < e ==> #[trigger] s[x] != 0x0a)
            ==> forall|x: int|
            i <= x < e ==> #[trigger] lua_refs::covered(lua_refs::opaque_ranges(s), x),
        (s[i] == 0x27 || s[i] == 0x22) && i < e - 1 && s[e - 1] == s[i] && (forall|x: int|
            i < x < e - 1 ==> #[trigger] s[x] != s[i] && s[x] != 0x5c && s[x] != 0x0a)
            ==> forall|x: int|
            i <= x < e ==> #[trigger] lua_refs::covered(lua_refs::opaque_ranges(s), x),
{
    let ranges = lua_refs::opaque_ranges(s);
    if s[i] == 0x2d && i + 1 < e && s[i + 1] == 0x2d && (i + 2 >= s.len() || s[i + 2] != 0x5b) && (e
        == s.len() || s[e] == 0x0a) && (forall|x: int| i <= x < e ==> #[trigger] s[x] != 0x0a) {
        assert(lua_refs::long_bracket(s, i + 2) is None);
        assert(text::line_end(s, i) == e) by {
            if e < s.len() {
                color_laws::lemma_find_at(s, 0x0a, i, e);
            } else {
                text::lemma_find_byte(s, 0x0a, i);
            }
        }
        lemma_opens(s, 0, i, e);
        lemma_covers(ranges, i, e);
    }
    if (s[i] == 0x27 || s[i] == 0x22) && i < e - 1 && s[e - 1] == s[i] && (forall|x: int|
        i < x < e - 1 ==> #[trigger] s[x] != s[i] && s[x] != 0x5c && s[x] != 0x0a) {
        lemma_string_end(s, s[i], i + 1, e - 1);
        lemma_opens(s, 0, i, e);
        lemma_covers(ranges, i, e);
    }
}

proof fn lemma_covers(ranges: Seq<(int, int)>, i: int, e: int)
    requires
        ranges.contains((i, e)),
    ensures
        forall|x: int| i <= x < e ==> #[trigger] lua_refs::covered(ranges, x),
{
    let k = ranges.index_of((i, e));
    assert(ranges[k] == (i, e));
}

} // verus!
