//! Which files a Lua source loads, told by its text.

use crate::color_laws;
use crate::completion_laws;
use crate::lua_refs;
use crate::lua_ui_loads;
use crate::lua_ui_loads::{UiLoadKind, UiLoadRefView};
use crate::order;
use crate::text;
use vstd::prelude::*;
use vstd::string::*;
use vstd::utf8::*;

verus! {

/// Whether offset `i` starts a call of `name` outside comments and strings, whose first argument is
/// the string literal with the content from `a` to `b`. The parenthesis opens at `p`, and at `r` it
/// closes or the next argument follows; spaces may stand in between. A method is called behind `:`.
pub open spec fn loads_at(
    s: Seq<u8>,
    i: int,
    name: Seq<u8>,
    method: bool,
    p: int,
    a: int,
    b: int,
    r: int,
) -> bool {
    &&& 0 <= i && i + name.len() <= p < a - 1 && a < b < r < s.len()
    &&& s.subrange(i, i + name.len()) == name
    &&& i == 0 || !lua_refs::ident_byte(s[i - 1])
    &&& method ==> i > 0 && s[i - 1] == 0x3a
    &&& !lua_refs::covered(lua_refs::opaque_ranges(s), i)
    &&& completion_laws::spaces_between(s, i + name.len(), p)
    &&& s[p] == 0x28
    &&& completion_laws::spaces_between(s, p + 1, a - 1)
    &&& s[a - 1] == 0x27 || s[a - 1] == 0x22
    &&& forall|j: int| a <= j < b ==> #[trigger] s[j] != s[a - 1]
    &&& s[b] == s[a - 1]
    &&& completion_laws::spaces_between(s, b + 1, r)
    &&& s[r] == 0x29 || s[r] == 0x2c
}

proof fn lemma_load_literal(
    s: Seq<u8>,
    i: int,
    name: Seq<u8>,
    method: bool,
    p: int,
    a: int,
    b: int,
    r: int,
)
    requires
        loads_at(s, i, name, method, p, a, b, r),
    ensures
        lua_ui_loads::load_literal(s, lua_refs::opaque_ranges(s), name, method, i) == Some((a, b)),
{
    let e = i + name.len();
    color_laws::lemma_skip_spaces(s, e, p);
    color_laws::lemma_skip_spaces(s, p + 1, a - 1);
    color_laws::lemma_find_at(s, s[a - 1], a, b);
    color_laws::lemma_skip_spaces(s, b + 1, r);
    assert(lua_refs::word_ends(s, e)) by {
        if e < p {
            assert(s[e] == 0x20);
        }
    }
}

/// Whether the name of a call cannot start anew inside itself: behind a byte of it that is no part of
/// a word, it does not go on as it starts.
spec fn starts_once(name: Seq<u8>) -> bool {
    name.len() > 0 && forall|k: int|
        0 <= k < name.len() - 1 && !lua_refs::ident_byte(#[trigger] name[k]) ==> name[k + 1]
            != name[0]
}

proof fn lemma_load_found(
    s: Seq<u8>,
    ranges: Seq<(int, int)>,
    name: Seq<u8>,
    method: bool,
    j: int,
    i: int,
    span: (int, int),
)
    requires
        0 <= j <= i < s.len(),
        starts_once(name),
        lua_ui_loads::load_literal(s, ranges, name, method, i) == Some(span),
    ensures
        lua_ui_loads::load_literals(s, ranges, name, method, j).contains(span),
    decreases s.len() - j,
{
    let next = if text::occurs(s, j, name) {
        j + name.len()
    } else {
        j + 1
    };
    let all = lua_ui_loads::load_literals(s, ranges, name, method, j);
    let rest = lua_ui_loads::load_literals(s, ranges, name, method, next);
    if j == i {
        assert(all[0] == span);
    } else {
        if next > i {
            let here = s.subrange(j, j + name.len());
            let there = s.subrange(i, i + name.len());
            assert(here[i - 1 - j] == s[i - 1]);
            assert(here[i - j] == s[i]);
            assert(there[0] == s[i]);
            assert(!lua_refs::ident_byte(name[i - 1 - j]));
        }
        lemma_load_found(s, ranges, name, method, next, i, span);
        let k = rest.index_of(span);
        if lua_ui_loads::load_literal(s, ranges, name, method, j) is Some {
            assert(all[k + 1] == span);
        } else {
            assert(all == rest);
        }
    }
}

/// The name of the call of each kind of load.
pub open spec fn call_name(kind: UiLoadKind) -> Seq<u8> {
    match kind {
        UiLoadKind::LoadUi => "g_ui.loadUI".spec_bytes(),
        UiLoadKind::DisplayUi => "g_ui.displayUI".spec_bytes(),
        UiLoadKind::ImportStyle => "g_ui.importStyle".spec_bytes(),
        UiLoadKind::SetUi => "setUI".spec_bytes(),
    }
}

proof fn lemma_names(kind: UiLoadKind)
    ensures
        starts_once(call_name(kind)),
{
    reveal_strlit("g_ui.loadUI");
    reveal_strlit("g_ui.displayUI");
    reveal_strlit("g_ui.importStyle");
    reveal_strlit("setUI");
    is_ascii_chars_encode_utf8("g_ui.loadUI"@);
    is_ascii_chars_encode_utf8("g_ui.displayUI"@);
    is_ascii_chars_encode_utf8("g_ui.importStyle"@);
    is_ascii_chars_encode_utf8("setUI"@);
}

/// Every call of `g_ui.loadUI`, `g_ui.displayUI` or `g_ui.importStyle`, and of the method `setUI`,
/// whose first argument is a string literal, is a load of the file that it names.
pub proof fn law_loads_are_found(
    s: Seq<u8>,
    i: int,
    kind: UiLoadKind,
    p: int,
    a: int,
    b: int,
    r: int,
)
    requires
        loads_at(s, i, call_name(kind), kind == UiLoadKind::SetUi, p, a, b, r),
    ensures
        lua_ui_loads::ui_loads(s).contains(
            UiLoadRefView { path: s.subrange(a, b), start: a, end: b, kind },
        ),
{
    broadcast use vstd::seq_lib::group_to_multiset_ensures;

    let ranges = lua_refs::opaque_ranges(s);
    let name = call_name(kind);
    let method = kind == UiLoadKind::SetUi;
    lemma_names(kind);
    lemma_load_literal(s, i, name, method, p, a, b, r);
    lemma_load_found(s, ranges, name, method, 0, i, (a, b));
    let spans = lua_ui_loads::load_literals(s, ranges, name, method, 0);
    let own = lua_ui_loads::loads_by(s, name, method, kind);
    let want = UiLoadRefView { path: s.subrange(a, b), start: a, end: b, kind };
    let k = spans.index_of((a, b));
    assert(own[k] == want);
    let w = lua_ui_loads::loads_by(s, call_name(UiLoadKind::LoadUi), false, UiLoadKind::LoadUi);
    let x = lua_ui_loads::loads_by(
        s,
        call_name(UiLoadKind::DisplayUi),
        false,
        UiLoadKind::DisplayUi,
    );
    let y = lua_ui_loads::loads_by(
        s,
        call_name(UiLoadKind::ImportStyle),
        false,
        UiLoadKind::ImportStyle,
    );
    let z = lua_ui_loads::loads_by(s, call_name(UiLoadKind::SetUi), true, UiLoadKind::SetUi);
    let all = w + x + y + z;
    match kind {
        UiLoadKind::LoadUi => {
            assert(all[k] == want);
        },
        UiLoadKind::DisplayUi => {
            assert(all[w.len() + k] == want);
        },
        UiLoadKind::ImportStyle => {
            assert(all[w.len() + x.len() + k] == want);
        },
        UiLoadKind::SetUi => {
            assert(all[w.len() + x.len() + y.len() + k] == want);
        },
    }
    order::law_stable_sort(all);
    assert(all.contains(want));
    assert(all.to_multiset().count(want) > 0);
    assert(order::stable_sort(all).to_multiset().count(want) > 0);
}

} // verus!
