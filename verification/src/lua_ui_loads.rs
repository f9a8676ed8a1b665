//! Where OTClient Lua code loads an `.otui` file.
//!
//! A controller names the file in the first argument of `g_ui.loadUI`, `g_ui.displayUI` or
//! `g_ui.importStyle`, or of the method call `controller:setUI`. Only a complete string literal
//! counts; a second argument may follow, since a parent widget is routinely passed along. The path is
//! handed back as it is written: joining it to a directory and completing its extension need what is
//! on disk. The comments and strings of the source are left out in the same way as in
//! [`lua_refs`](crate::lua_refs).

use crate::ascii;
use crate::lang_api;
use crate::lang_api::ByteSpan;
use crate::lua_refs;
use crate::lua_refs::{
    excluded_ranges, in_excluded, is_ident_boundary_after, is_ident_boundary_before,
};
use crate::order;
use crate::order::{sort_by_place, HasPlace, Placed};
use crate::text;
use crate::text::{find_byte_at, has_at, occurs_at, skip_ws_at, substr};
use vstd::prelude::*;
use vstd::string::*;
use vstd::utf8::*;

verus! {

/// The call that loads the file.
#[derive(Debug, Clone, Copy, PartialEq, Eq, Structural)]
pub enum UiLoadKind {
    /// `g_ui.loadUI('name')`: load the file, perhaps under a parent.
    LoadUi,
    /// `g_ui.displayUI('name')`: load the file and show it.
    DisplayUi,
    /// `g_ui.importStyle('name')`: take over the style declarations only.
    ImportStyle,
    /// `controller:setUI('name')`: name the file for a later load. The name is relative to the root
    /// of the module, where the others are relative to the calling script.
    SetUi,
}

/// One place that loads a file; `span` covers the path alone.
#[derive(Debug, Clone, PartialEq, Eq)]
pub struct UiLoadRef {
    /// The path as it is written.
    pub path: String,
    /// Where it stands.
    pub span: ByteSpan,
    /// The call that loads it.
    pub kind: UiLoadKind,
}

/// The model of a [`UiLoadRef`].
pub struct UiLoadRefView {
    /// The bytes of the path.
    pub path: Seq<u8>,
    /// Where they start.
    pub start: int,
    /// Where they end.
    pub end: int,
    /// The call.
    pub kind: UiLoadKind,
}

impl View for UiLoadRef {
    type V = UiLoadRefView;

    open spec fn view(&self) -> UiLoadRefView {
        UiLoadRefView {
            path: text::bytes_of(self.path@),
            start: self.span.start as int,
            end: self.span.end as int,
            kind: self.kind,
        }
    }
}

impl Placed for UiLoadRefView {
    open spec fn place(&self) -> (int, int) {
        (self.start, 0)
    }
}

impl HasPlace for UiLoadRef {
    fn place_of(&self) -> (r: (usize, usize)) {
        (self.span.start, 0)
    }
}

/// The content of the string literal that is the first argument of a call whose arguments start at
/// `a`: white space, the literal, white space, then `)` or `,`.
pub open spec fn first_literal(s: Seq<u8>, a: int) -> Option<(int, int)> {
    let q = text::skip_ws(s, a);
    if text::has(s, q, ascii::QUOTE) || text::has(s, q, ascii::DOUBLE_QUOTE) {
        match text::find_byte(s, s[q], q + 1) {
            Some(c) => {
                let after = text::skip_ws(s, c + 1);
                if text::has(s, after, ascii::CLOSE_PAREN) || text::has(s, after, ascii::COMMA) {
                    Some((q + 1, c))
                } else {
                    None
                }
            },
            None => None,
        }
    } else {
        None
    }
}

/// The content of the literal where offset `i` starts a call of `name` with a non-empty string
/// literal for its first argument. The name is a whole word outside the ranges; a method is called
/// behind a `:`.
pub open spec fn load_literal(
    s: Seq<u8>,
    ranges: Seq<(int, int)>,
    name: Seq<u8>,
    method: bool,
    i: int,
) -> Option<(int, int)> {
    let p = text::skip_ws(s, i + name.len());
    if text::occurs(s, i, name) && lua_refs::word_starts(s, i) && lua_refs::word_ends(
        s,
        i + name.len(),
    ) && (method ==> text::has(s, i - 1, ascii::COLON)) && !lua_refs::covered(ranges, i) && text::has(
        s,
        p,
        ascii::OPEN_PAREN,
    ) {
        match first_literal(s, p + 1) {
            Some(span) => if span.0 < span.1 {
                Some(span)
            } else {
                None
            },
            None => None,
        }
    } else {
        None
    }
}

/// The contents of the literals of all such calls from offset `i` on, in order.
pub open spec fn load_literals(
    s: Seq<u8>,
    ranges: Seq<(int, int)>,
    name: Seq<u8>,
    method: bool,
    i: int,
) -> Seq<(int, int)>
    decreases s.len() - i,
{
    if !(0 <= i < s.len()) {
        Seq::empty()
    } else {
        let next = if text::occurs(s, i, name) && name.len() > 0 {
            i + name.len()
        } else {
            i + 1
        };
        match load_literal(s, ranges, name, method, i) {
            Some(span) => seq![span] + load_literals(s, ranges, name, method, next),
            None => load_literals(s, ranges, name, method, next),
        }
    }
}

/// The loads at the given spans.
pub open spec fn loads_at(s: Seq<u8>, spans: Seq<(int, int)>, kind: UiLoadKind) -> Seq<
    UiLoadRefView,
> {
    spans.map_values(
        |p: (int, int)|
            UiLoadRefView { path: s.subrange(p.0, p.1), start: p.0, end: p.1, kind },
    )
}

/// The loads of a Lua source through the call `name`.
pub open spec fn loads_by(s: Seq<u8>, name: Seq<u8>, method: bool, kind: UiLoadKind) -> Seq<
    UiLoadRefView,
> {
    loads_at(s, load_literals(s, lua_refs::opaque_ranges(s), name, method, 0), kind)
}

/// The loads of a Lua source, ordered by where their paths start.
pub open spec fn ui_loads(s: Seq<u8>) -> Seq<UiLoadRefView> {
    order::stable_sort(
        loads_by(s, "g_ui.loadUI".spec_bytes(), false, UiLoadKind::LoadUi) + loads_by(
            s,
            "g_ui.displayUI".spec_bytes(),
            false,
            UiLoadKind::DisplayUi,
        ) + loads_by(s, "g_ui.importStyle".spec_bytes(), false, UiLoadKind::ImportStyle) + loads_by(
            s,
            "setUI".spec_bytes(),
            true,
            UiLoadKind::SetUi,
        ),
    )
}

proof fn lemma_first_literal(s: Seq<u8>, a: int)
    requires
        valid_utf8(s),
        text::boundary(s, a),
    ensures
        first_literal(s, a) matches Some(span) ==> a <= span.0 <= span.1 < s.len()
            && text::boundary(s, span.0) && text::boundary(s, span.1),
{
    text::lemma_skip_ws(s, a);
    let q = text::skip_ws(s, a);
    if text::has(s, q, ascii::QUOTE) || text::has(s, q, ascii::DOUBLE_QUOTE) {
        text::lemma_ascii_boundary(s, q);
        text::lemma_find_byte(s, s[q], q + 1);
        if let Some(c) = text::find_byte(s, s[q], q + 1) {
            text::lemma_ascii_boundary(s, c);
        }
    }
}

proof fn lemma_load_literals_cuttable(
    s: Seq<u8>,
    ranges: Seq<(int, int)>,
    name: Seq<u8>,
    method: bool,
    i: int,
)
    requires
        valid_utf8(s),
        name.len() > 0,
        name.last() < 0x80,
    ensures
        lua_refs::cuttable(s, load_literals(s, ranges, name, method, i)),
    decreases s.len() - i,
{
    if 0 <= i < s.len() {
        let next = if text::occurs(s, i, name) {
            i + name.len()
        } else {
            i + 1
        };
        lemma_load_literals_cuttable(s, ranges, name, method, next);
        if text::occurs(s, i, name) {
            assert(s.subrange(i, i + name.len()).last() == s[i + name.len() - 1]);
            text::lemma_ascii_boundary(s, i + name.len() - 1);
            text::lemma_skip_ws(s, i + name.len());
            let p = text::skip_ws(s, i + name.len());
            if text::has(s, p, ascii::OPEN_PAREN) {
                text::lemma_ascii_boundary(s, p);
                lemma_first_literal(s, p + 1);
            }
        }
    }
}

/// The content of the string literal that is the first argument of a call whose arguments start at
/// `args`.
pub fn first_string_literal_arg(source: &str, args: usize) -> (r: Option<(usize, usize)>)
    requires
        args <= source.spec_bytes().len(),
    ensures
        match r {
            Some(p) => first_literal(source.spec_bytes(), args as int) == Some(
                (p.0 as int, p.1 as int),
            ),
            None => first_literal(source.spec_bytes(), args as int) is None,
        },
{
    let s = source.as_bytes();
    let q: usize = skip_ws_at(s, args);
    if !(has_at(s, q, ascii::QUOTE) || has_at(s, q, ascii::DOUBLE_QUOTE)) {
        return None;
    }
    match find_byte_at(s, s[q], q + 1) {
        Some(c) => {
            let after: usize = skip_ws_at(s, c + 1);
            if has_at(s, after, ascii::CLOSE_PAREN) || has_at(s, after, ascii::COMMA) {
                Some((q + 1, c))
            } else {
                None
            }
        },
        None => None,
    }
}

/// Appends the loads through the call `name`. A method counts only behind a `:`.
pub fn call_first_string_literal(
    source: &str,
    excluded: &[(usize, usize)],
    name: &str,
    require_colon_prefix: bool,
    kind: UiLoadKind,
    out: &mut Vec<UiLoadRef>,
)
    requires
        lua_refs::offsets(excluded@) == lua_refs::opaque_ranges(source.spec_bytes()),
        lua_refs::ordered(lua_refs::offsets(excluded@), 0, usize::MAX as int),
        name.spec_bytes().len() > 0,
        name.spec_bytes().last() < 0x80,
    ensures
        lang_api::views(final(out)@) == lang_api::views(old(out)@) + loads_by(
            source.spec_bytes(),
            name.spec_bytes(),
            require_colon_prefix,
            kind,
        ),
{
    let s = source.as_bytes();
    let pat = name.as_bytes();
    let n: usize = s.len();
    let ghost ranges = lua_refs::opaque_ranges(s@);
    let ghost before = lang_api::views(out@);
    let ghost whole = load_literals(s@, ranges, pat@, require_colon_prefix, 0);
    let ghost mut done = Seq::<(int, int)>::empty();
    let mut i: usize = 0;
    proof {
        text::lemma_valid(source);
        lemma_load_literals_cuttable(s@, ranges, pat@, require_colon_prefix, 0);
        assert(done + whole =~= whole);
        assert(before + loads_at(s@, done, kind) =~= before);
    }
    while i < n
        invariant
            s@ == source.spec_bytes(),
            pat@ == name.spec_bytes(),
            pat@.len() > 0,
            n == s@.len(),
            ranges == lua_refs::opaque_ranges(s@),
            ranges == lua_refs::offsets(excluded@),
            lua_refs::ordered(ranges, 0, usize::MAX as int),
            lua_refs::cuttable(s@, whole),
            done + load_literals(s@, ranges, pat@, require_colon_prefix, i as int) == whole,
            lang_api::views(out@) == before + loads_at(s@, done, kind),
        decreases n - i,
    {
        if !occurs_at(s, i, pat) {
            i += 1;
            continue;
        }
        let end: usize = i + pat.len();
        let mut found: Option<(usize, usize)> = None;
        if is_ident_boundary_before(source, i) && is_ident_boundary_after(source, end) && (
        !require_colon_prefix || (i > 0 && has_at(s, i - 1, ascii::COLON))) && !in_excluded(excluded, i) {
            let paren: usize = skip_ws_at(s, end);
            if has_at(s, paren, ascii::OPEN_PAREN) {
                if let Some(span) = first_string_literal_arg(source, paren + 1) {
                    if span.0 < span.1 {
                        found = Some(span);
                    }
                }
            }
        }
        if let Some(span) = found {
            let ghost p = (span.0 as int, span.1 as int);
            let ghost rest = load_literals(s@, ranges, pat@, require_colon_prefix, end as int);
            proof {
                assert(done.push(p) + rest =~= done + (seq![p] + rest));
                assert(whole[done.len() as int] == p);
            }
            let r = UiLoadRef {
                path: substr(source, span.0, span.1).to_owned(),
                span: ByteSpan::new(span.0, span.1),
                kind,
            };
            proof {
                lang_api::lemma_views_push(out@, r);
                assert(loads_at(s@, done.push(p), kind) =~= loads_at(s@, done, kind).push(r@));
                assert(before + loads_at(s@, done.push(p), kind) =~= (before + loads_at(
                    s@,
                    done,
                    kind,
                )).push(r@));
                done = done.push(p);
            }
            out.push(r);
        }
        i = end;
    }
    assert(done =~= whole);
}

proof fn lemma_name_bytes()
    ensures
        "g_ui.loadUI".spec_bytes().len() > 0,
        "g_ui.loadUI".spec_bytes().last() < 0x80,
        "g_ui.displayUI".spec_bytes().len() > 0,
        "g_ui.displayUI".spec_bytes().last() < 0x80,
        "g_ui.importStyle".spec_bytes().len() > 0,
        "g_ui.importStyle".spec_bytes().last() < 0x80,
        "setUI".spec_bytes().len() > 0,
        "setUI".spec_bytes().last() < 0x80,
{
    reveal_strlit("g_ui.loadUI");
    reveal_strlit("g_ui.displayUI");
    reveal_strlit("g_ui.importStyle");
    reveal_strlit("setUI");
    is_ascii_chars_encode_utf8("g_ui.loadUI"@);
    is_ascii_chars_encode_utf8("g_ui.displayUI"@);
    is_ascii_chars_encode_utf8("g_ui.importStyle"@);
    is_ascii_chars_encode_utf8("setUI"@);
}

/// Every place in a Lua source that loads an `.otui` file, ordered by where the path starts.
pub fn scan_ui_loads(source: &str) -> (r: Vec<UiLoadRef>)
    ensures
        lang_api::views(r@) == ui_loads(source.spec_bytes()),
{
    let len: usize = source.as_bytes().len();
    let excluded = excluded_ranges(source);
    let ranges = excluded.as_slice();
    proof {
        lemma_name_bytes();
    }
    let mut out: Vec<UiLoadRef> = Vec::new();
    assert(lang_api::views(out@) =~= Seq::<UiLoadRefView>::empty());
    call_first_string_literal(source, ranges, "g_ui.loadUI", false, UiLoadKind::LoadUi, &mut out);
    assert(lang_api::views(out@) =~= loads_by(
        source.spec_bytes(),
        "g_ui.loadUI".spec_bytes(),
        false,
        UiLoadKind::LoadUi,
    ));
    call_first_string_literal(
        source,
        ranges,
        "g_ui.displayUI",
        false,
        UiLoadKind::DisplayUi,
        &mut out,
    );
    call_first_string_literal(
        source,
        ranges,
        "g_ui.importStyle",
        false,
        UiLoadKind::ImportStyle,
        &mut out,
    );
    call_first_string_literal(source, ranges, "setUI", true, UiLoadKind::SetUi, &mut out);
    sort_by_place(out)
}

/// Scanning orders the loads by where their paths start.
pub proof fn law_ui_loads_ordered(s: Seq<u8>)
    ensures
        order::is_sorted(ui_loads(s)),
{
    order::law_stable_sort(
        loads_by(s, "g_ui.loadUI".spec_bytes(), false, UiLoadKind::LoadUi) + loads_by(
            s,
            "g_ui.displayUI".spec_bytes(),
            false,
            UiLoadKind::DisplayUi,
        ) + loads_by(s, "g_ui.importStyle".spec_bytes(), false, UiLoadKind::ImportStyle) + loads_by(
            s,
            "setUI".spec_bytes(),
            true,
            UiLoadKind::SetUi,
        ),
    );
}

/// The function that a kind of load calls.
pub open spec fn call_of(kind: UiLoadKind) -> Seq<u8> {
    match kind {
        UiLoadKind::LoadUi => "g_ui.loadUI".spec_bytes(),
        UiLoadKind::DisplayUi => "g_ui.displayUI".spec_bytes(),
        UiLoadKind::ImportStyle => "g_ui.importStyle".spec_bytes(),
        UiLoadKind::SetUi => "setUI".spec_bytes(),
    }
}

/// Whether some call of `name`, outside comments and strings, has the literal at `span` for its first
/// argument.
pub open spec fn loaded_by(s: Seq<u8>, name: Seq<u8>, method: bool, span: (int, int)) -> bool {
    exists|i: int| #[trigger]
        load_literal(s, lua_refs::opaque_ranges(s), name, method, i) == Some(span)
}

proof fn lemma_loaded_by(s: Seq<u8>, name: Seq<u8>, method: bool, i: int)
    ensures
        forall|k: int|
            0 <= k < load_literals(s, lua_refs::opaque_ranges(s), name, method, i).len()
                ==> loaded_by(
                s,
                name,
                method,
                #[trigger] load_literals(s, lua_refs::opaque_ranges(s), name, method, i)[k],
            ),
    decreases s.len() - i,
{
    let ranges = lua_refs::opaque_ranges(s);
    if 0 <= i < s.len() {
        let next = if text::occurs(s, i, name) && name.len() > 0 {
            i + name.len()
        } else {
            i + 1
        };
        lemma_loaded_by(s, name, method, next);
        let all = load_literals(s, ranges, name, method, i);
        let rest = load_literals(s, ranges, name, method, next);
        assert forall|k: int| 0 <= k < all.len() implies loaded_by(
            s,
            name,
            method,
            #[trigger] all[k],
        ) by {
            match load_literal(s, ranges, name, method, i) {
                Some(span) => {
                    assert(all == seq![span] + rest);
                    if k > 0 {
                        assert(all[k] == rest[k - 1]);
                    }
                },
                None => {
                    assert(all == rest);
                },
            }
        }
    }
}

/// Whether a load is one that the code makes.
pub open spec fn is_code(s: Seq<u8>, load: UiLoadRefView) -> bool {
    loaded_by(s, call_of(load.kind), load.kind == UiLoadKind::SetUi, (load.start, load.end))
}

proof fn lemma_loads_are_code(s: Seq<u8>, kind: UiLoadKind)
    ensures
        ({
            let loads = loads_by(s, call_of(kind), kind == UiLoadKind::SetUi, kind);
            forall|k: int| 0 <= k < loads.len() ==> is_code(s, #[trigger] loads[k])
        }),
{
    let method = kind == UiLoadKind::SetUi;
    let loads = loads_by(s, call_of(kind), method, kind);
    let spans = load_literals(s, lua_refs::opaque_ranges(s), call_of(kind), method, 0);
    lemma_loaded_by(s, call_of(kind), method, 0);
    assert forall|k: int| 0 <= k < loads.len() implies is_code(s, #[trigger] loads[k]) by {
        assert(loaded_by(s, call_of(kind), method, spans[k]));
    }
}

/// A load never comes out of a comment or a string: its call is code.
pub proof fn law_ui_loads_are_code(s: Seq<u8>, k: int)
    requires
        0 <= k < ui_loads(s).len(),
    ensures
        is_code(s, ui_loads(s)[k]),
{
    let a = loads_by(s, call_of(UiLoadKind::LoadUi), false, UiLoadKind::LoadUi);
    let b = loads_by(s, call_of(UiLoadKind::DisplayUi), false, UiLoadKind::DisplayUi);
    let c = loads_by(s, call_of(UiLoadKind::ImportStyle), false, UiLoadKind::ImportStyle);
    let d = loads_by(s, call_of(UiLoadKind::SetUi), true, UiLoadKind::SetUi);
    let all = a + b + c + d;
    let sorted = order::stable_sort(all);
    order::law_stable_sort(all);
    lemma_loads_are_code(s, UiLoadKind::LoadUi);
    lemma_loads_are_code(s, UiLoadKind::DisplayUi);
    lemma_loads_are_code(s, UiLoadKind::ImportStyle);
    lemma_loads_are_code(s, UiLoadKind::SetUi);
    let r = sorted[k];
    assert(all.contains(r)) by {
        broadcast use vstd::seq_lib::group_to_multiset_ensures;

        assert(sorted.contains(r));
        assert(sorted.to_multiset().count(r) > 0);
    }
    let i = choose|i: int| 0 <= i < all.len() && all[i] == r;
    if i < a.len() {
        assert(r == a[i]);
    } else if i < a.len() + b.len() {
        assert(r == b[i - a.len()]);
    } else if i < a.len() + b.len() + c.len() {
        assert(r == c[i - a.len() - b.len()]);
    } else {
        assert(r == d[i - a.len() - b.len() - c.len()]);
    }
}


} // verus!
