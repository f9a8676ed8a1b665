//! What a name in a document refers to, and where it is used.

use crate::alias_hover;
use crate::anchors;
use crate::ascii;
use crate::doc_index;
use crate::folding_laws;
use crate::hierarchy;
use crate::hover;
use crate::inlay;
use crate::lang_api::ByteSpan;
use crate::lenses;
use crate::navigation;
use crate::navigation::IdRefKind;
use crate::property_hover;
use crate::references;
use crate::schema;
use crate::style_index;
use crate::style_index::StyleDef;
use crate::syntax;
use crate::syntax::{Stmt, StmtKind};
use crate::text;
use crate::widget_resolve;
use crate::workspace_laws;
use vstd::prelude::*;
use vstd::string::*;
use vstd::utf8::*;

verus! {

/// Whether statement `k` declares a style: a header at the top level.
pub open spec fn is_declaration(stmts: Seq<Stmt>, k: int) -> bool {
    0 <= k < stmts.len() && stmts[k].kind == StmtKind::StyleHeader && stmts[k].parent is None
}

/// Whether the bytes at `sp` are those of `name`.
pub open spec fn reads(s: Seq<u8>, sp: ByteSpan, name: Seq<u8>) -> bool {
    s.subrange(sp.start as int, sp.end as int) == name
}

/// Whether a byte offset is inside a span.
pub open spec fn inside(sp: ByteSpan, offset: int) -> bool {
    sp.start <= offset && offset < sp.end
}

// ---------------------------------------------------------------------------------------------
// Uses
// ---------------------------------------------------------------------------------------------

proof fn lemma_push_contains<A>(before: Seq<A>, x: A, y: A)
    ensures
        before.push(x).contains(y) <==> before.contains(y) || y == x,
{
    let all = before.push(x);
    if before.contains(y) {
        assert(all[before.index_of(y)] == y);
    }
    assert(all[before.len() as int] == x);
    if all.contains(y) && y != x {
        assert(before[all.index_of(y)] == y);
    }
}

/// Whether statement `k` declares the style `name` at `sp`.
pub open spec fn declares_at(s: Seq<u8>, name: Seq<u8>, k: int, sp: ByteSpan) -> bool {
    let stmts = syntax::stmts(s);
    is_declaration(stmts, k) && stmts[k].key == sp && reads(s, sp, name)
}

/// Whether statement `k` derives a style from the style `name` at `sp`.
pub open spec fn derives_at(s: Seq<u8>, name: Seq<u8>, k: int, sp: ByteSpan) -> bool {
    let stmts = syntax::stmts(s);
    is_declaration(stmts, k) && stmts[k].value == Some(sp) && reads(s, sp, name)
}

proof fn lemma_declared(s: Seq<u8>, name: Seq<u8>, n: int, sp: ByteSpan)
    requires
        0 <= n <= syntax::stmts(s).len(),
    ensures
        references::declared_upto(s, syntax::stmts(s), name, n).contains(sp) <==> exists|k: int|
            k < n && #[trigger] declares_at(s, name, k, sp),
    decreases n,
{
    if n > 0 {
        let stmts = syntax::stmts(s);
        lemma_declared(s, name, n - 1, sp);
        lemma_push_contains(
            references::declared_upto(s, stmts, name, n - 1),
            stmts[n - 1].key,
            sp,
        );
        if declares_at(s, name, n - 1, sp) {
            assert(declares_at(s, name, n - 1, sp));
        }
    }
}

proof fn lemma_derived(s: Seq<u8>, name: Seq<u8>, n: int, sp: ByteSpan)
    requires
        s.len() <= usize::MAX,
        0 <= n <= syntax::stmts(s).len(),
    ensures
        references::derived_upto(s, syntax::stmts(s), name, n).contains(sp) <==> exists|k: int|
            k < n && #[trigger] derives_at(s, name, k, sp),
    decreases n,
{
    if n > 0 {
        let stmts = syntax::stmts(s);
        lemma_derived(s, name, n - 1, sp);
        syntax::lemma_header_base(s, n - 1);
        lemma_push_contains(
            references::derived_upto(s, stmts, name, n - 1),
            stmts[n - 1].value->0,
            sp,
        );
        if derives_at(s, name, n - 1, sp) {
            assert(derives_at(s, name, n - 1, sp));
        }
    }
}

/// The occurrences of a style are the headers of the top level that declare it and those that derive
/// from it, all of them and no others.
pub proof fn law_style_occurrences(s: Seq<u8>, name: Seq<u8>, sp: ByteSpan)
    requires
        s.len() <= usize::MAX,
    ensures
        ({
            let stmts = syntax::stmts(s);
            let n = stmts.len() as int;
            &&& references::declared_upto(s, stmts, name, n).contains(sp) <==> exists|k: int|
                #[trigger] declares_at(s, name, k, sp)
            &&& references::derived_upto(s, stmts, name, n).contains(sp) <==> exists|k: int|
                #[trigger] derives_at(s, name, k, sp)
        }),
{
    let n = syntax::stmts(s).len() as int;
    lemma_declared(s, name, n, sp);
    lemma_derived(s, name, n, sp);
}

/// Whether statement `k` gives the id `id` to a widget, at `sp`.
pub open spec fn gives_id_at(s: Seq<u8>, id: Seq<u8>, k: int, sp: ByteSpan) -> bool {
    let stmts = syntax::stmts(s);
    0 <= k < stmts.len() && stmts[k].kind == StmtKind::IdProperty && stmts[k].value == Some(sp)
        && reads(s, sp, id)
}

/// Whether statement `k` is an anchor whose target names the id `id` at `sp`: in front of its first
/// dot, and not as one of the words that stand for a relative.
pub open spec fn anchors_to_at(s: Seq<u8>, id: Seq<u8>, k: int, sp: ByteSpan) -> bool {
    let stmts = syntax::stmts(s);
    &&& 0 <= k < stmts.len()
    &&& stmts[k].kind == StmtKind::AnchorProperty
    &&& stmts[k].value matches Some(v) && v.start == sp.start && sp.start <= sp.end < v.end
        && s[sp.end as int] == 0x2e
    &&& forall|i: int| sp.start <= i < sp.end ==> #[trigger] s[i] != 0x2e
    &&& !schema::member(schema::MAGIC_ANCHOR_TARGETS@, id)
    &&& reads(s, sp, id)
}

#[verifier::rlimit(60)]
#[verifier::spinoff_prover]
proof fn lemma_use_at(s: Seq<u8>, id: Seq<u8>, k: int, sp: ByteSpan)
    requires
        valid_utf8(s),
        s.len() <= usize::MAX,
        0 <= k < syntax::stmts(s).len(),
    ensures
        ({
            let st = syntax::stmts(s)[k];
            &&& gives_id_at(s, id, k, sp) <==> navigation::id_in(s, st) == Some(
                (sp, IdRefKind::Declaration),
            ) && syntax::cut(s, sp) == id
            &&& anchors_to_at(s, id, k, sp) <==> navigation::id_in(s, st) == Some(
                (sp, IdRefKind::AnchorTarget),
            ) && syntax::cut(s, sp) == id
        }),
{
    let st = syntax::stmts(s)[k];
    syntax::lemma_stmts(s);
    assert(syntax::stmt_ok(s, st));
    if st.kind == StmtKind::AnchorProperty {
        if let Some(v) = st.value {
            let t = syntax::cut(s, v);
            text::lemma_find_byte(t, ascii::DOT, 0);
            match text::find_byte(t, ascii::DOT, 0) {
                Some(dot) => {
                    let at = syntax::span(v.start as int, v.start + dot);
                    assert(t[dot] == s[v.start + dot]);
                    assert forall|i: int| at.start <= i < at.end implies #[trigger] s[i] != 0x2e by {
                        assert(t[i - v.start] == s[i]);
                    }
                    if anchors_to_at(s, id, k, sp) {
                        let d = sp.end - v.start;
                        assert(t[d] == 0x2e);
                        if d < dot {
                            assert(t[d] != 0x2e);
                        } else if dot < d {
                            assert(s[v.start + dot] != 0x2e);
                        }
                        assert(sp == at);
                    }
                },
                None => {
                    if anchors_to_at(s, id, k, sp) {
                        assert(t[sp.end - v.start] == 0x2e);
                    }
                },
            }
        }
    }
}

proof fn lemma_uses(s: Seq<u8>, id: Seq<u8>, kind: IdRefKind, n: int, sp: ByteSpan)
    requires
        0 <= n <= syntax::stmts(s).len(),
    ensures
        references::uses_upto(s, syntax::stmts(s), id, kind, n).contains(sp) <==> exists|k: int|
            0 <= k < n && navigation::id_in(s, #[trigger] syntax::stmts(s)[k]) == Some((sp, kind))
                && syntax::cut(s, sp) == id,
    decreases n,
{
    if n > 0 {
        let stmts = syntax::stmts(s);
        lemma_uses(s, id, kind, n - 1, sp);
        if references::uses_id(s, stmts[n - 1], id, kind) {
            lemma_push_contains(
                references::uses_upto(s, stmts, id, kind, n - 1),
                (navigation::id_in(s, stmts[n - 1])->0).0,
                sp,
            );
        }
    }
}

/// The occurrences of an id are the `id:` that give it and the anchors that aim at it, all of them
/// and no others.
pub proof fn law_id_occurrences(s: Seq<u8>, id: Seq<u8>, sp: ByteSpan)
    requires
        valid_utf8(s),
        s.len() <= usize::MAX,
    ensures
        ({
            let stmts = syntax::stmts(s);
            let n = stmts.len() as int;
            &&& references::uses_upto(s, stmts, id, IdRefKind::Declaration, n).contains(sp)
                <==> exists|k: int| #[trigger] gives_id_at(s, id, k, sp)
            &&& references::uses_upto(s, stmts, id, IdRefKind::AnchorTarget, n).contains(sp)
                <==> exists|k: int| #[trigger] anchors_to_at(s, id, k, sp)
        }),
{
    let stmts = syntax::stmts(s);
    let n = stmts.len() as int;
    lemma_uses(s, id, IdRefKind::Declaration, n, sp);
    lemma_uses(s, id, IdRefKind::AnchorTarget, n, sp);
    assert forall|k: int| 0 <= k < n implies (gives_id_at(s, id, k, sp) <==> navigation::id_in(
        s,
        #[trigger] stmts[k],
    ) == Some((sp, IdRefKind::Declaration)) && syntax::cut(s, sp) == id) && (anchors_to_at(
        s,
        id,
        k,
        sp,
    ) <==> navigation::id_in(s, stmts[k]) == Some((sp, IdRefKind::AnchorTarget)) && syntax::cut(
        s,
        sp,
    ) == id) by {
        lemma_use_at(s, id, k, sp);
    }
    assert forall|k: int| #[trigger] gives_id_at(s, id, k, sp) implies navigation::id_in(
        s,
        stmts[k],
    ) == Some((sp, IdRefKind::Declaration)) by {
        lemma_use_at(s, id, k, sp);
    }
    assert forall|k: int| #[trigger] anchors_to_at(s, id, k, sp) implies navigation::id_in(
        s,
        stmts[k],
    ) == Some((sp, IdRefKind::AnchorTarget)) by {
        lemma_use_at(s, id, k, sp);
    }
}

// ---------------------------------------------------------------------------------------------
// Pointing
// ---------------------------------------------------------------------------------------------

/// Two statements have no place in common.
proof fn lemma_one_place(s: Seq<u8>, j: int, k: int, offset: int)
    requires
        valid_utf8(s),
        s.len() <= usize::MAX,
        0 <= j < syntax::stmts(s).len(),
        0 <= k < syntax::stmts(s).len(),
        syntax::stmts(s)[j].span.start <= offset < syntax::stmts(s)[j].end,
        syntax::stmts(s)[k].span.start <= offset < syntax::stmts(s)[k].end,
    ensures
        j == k,
{
    if j < k {
        syntax::lemma_stmts_ordered(s, j, k);
    } else if k < j {
        syntax::lemma_stmts_ordered(s, k, j);
    }
}

proof fn lemma_token_place(s: Seq<u8>, k: int, offset: int)
    requires
        valid_utf8(s),
        s.len() <= usize::MAX,
        0 <= k < syntax::stmts(s).len(),
    ensures
        ({
            let st = syntax::stmts(s)[k];
            &&& inside(st.key, offset) ==> st.span.start <= offset < st.end
            &&& (st.value matches Some(v) && inside(v, offset)) ==> st.span.start <= offset < st.end
        }),
{
    syntax::lemma_stmts(s);
    assert(syntax::stmt_ok(s, syntax::stmts(s)[k]));
}

/// Pointing at the base of a header of the top level finds that header, and pointing elsewhere finds
/// none.
pub proof fn law_pointing_at_a_base(s: Seq<u8>, offset: int)
    requires
        valid_utf8(s),
        s.len() <= usize::MAX,
    ensures
        forall|k: int|
            navigation::base_at(syntax::stmts(s), offset, 0) == Some(k) <==> #[trigger] is_declaration(
                syntax::stmts(s),
                k,
            ) && (syntax::stmts(s)[k].value matches Some(v) && inside(v, offset)),
{
    let stmts = syntax::stmts(s);
    lemma_base_at(s, offset, 0);
    assert forall|k: int|
        navigation::base_at(stmts, offset, 0) == Some(k) <==> #[trigger] is_declaration(stmts, k)
            && (stmts[k].value matches Some(v) && inside(v, offset)) by {
        if is_declaration(stmts, k) && (stmts[k].value matches Some(v) && inside(v, offset)) {
            assert(navigation::base_holds(stmts, k, offset));
            let j = navigation::base_at(stmts, offset, 0)->0;
            lemma_token_place(s, j, offset);
            lemma_token_place(s, k, offset);
            lemma_one_place(s, j, k, offset);
        }
    }
}

proof fn lemma_base_at(s: Seq<u8>, offset: int, i: int)
    requires
        0 <= i,
    ensures
        match navigation::base_at(syntax::stmts(s), offset, i) {
            Some(k) => i <= k < syntax::stmts(s).len() && navigation::base_holds(
                syntax::stmts(s),
                k,
                offset,
            ),
            None => forall|k: int|
                i <= k < syntax::stmts(s).len() ==> !#[trigger] navigation::base_holds(
                    syntax::stmts(s),
                    k,
                    offset,
                ),
        },
    decreases syntax::stmts(s).len() - i,
{
    if i < syntax::stmts(s).len() && !navigation::base_holds(syntax::stmts(s), i, offset) {
        lemma_base_at(s, offset, i + 1);
    }
}

/// Whether statement `k` is a widget or a style at the top level at whose name or base an offset
/// points.
pub open spec fn header_under(stmts: Seq<Stmt>, k: int, offset: int) -> bool {
    &&& 0 <= k < stmts.len()
    &&& stmts[k].parent is None
    &&& folding_laws::is_widget(stmts[k])
    &&& inside(stmts[k].key, offset) || (stmts[k].kind == StmtKind::StyleHeader && (
    stmts[k].value matches Some(v) && inside(v, offset)))
}

proof fn lemma_header_at(stmts: Seq<Stmt>, offset: int, i: int)
    requires
        0 <= i,
    ensures
        match navigation::header_at(stmts, offset, i) {
            Some(k) => i <= k && header_under(stmts, k, offset),
            None => forall|k: int| i <= k ==> !#[trigger] header_under(stmts, k, offset),
        },
    decreases stmts.len() - i,
{
    if i < stmts.len() {
        assert(navigation::header_holds(stmts, i, offset) == header_under(stmts, i, offset));
        if !header_under(stmts, i, offset) {
            lemma_header_at(stmts, offset, i + 1);
        }
    }
}

/// Pointing at the name or the base of what stands at the top level finds it, and pointing elsewhere
/// finds nothing.
pub proof fn law_pointing_at_a_header(s: Seq<u8>, offset: int)
    requires
        valid_utf8(s),
        s.len() <= usize::MAX,
    ensures
        forall|k: int|
            navigation::header_at(syntax::stmts(s), offset, 0) == Some(k) <==> #[trigger] header_under(
                syntax::stmts(s),
                k,
                offset,
            ),
{
    let stmts = syntax::stmts(s);
    lemma_header_at(stmts, offset, 0);
    assert forall|k: int|
        navigation::header_at(stmts, offset, 0) == Some(k) <==> #[trigger] header_under(
            stmts,
            k,
            offset,
        ) by {
        if header_under(stmts, k, offset) {
            let j = navigation::header_at(stmts, offset, 0)->0;
            assert(header_under(stmts, j, offset));
            lemma_token_place(s, j, offset);
            lemma_token_place(s, k, offset);
            lemma_one_place(s, j, k, offset);
        }
    }
}

/// Whether an offset points at the key of statement `k`, which has the given kind.
pub open spec fn key_under(stmts: Seq<Stmt>, k: int, kind: StmtKind, offset: int) -> bool {
    0 <= k < stmts.len() && stmts[k].kind == kind && inside(stmts[k].key, offset)
}

proof fn lemma_key_scans(stmts: Seq<Stmt>, offset: int, i: int)
    requires
        0 <= i,
    ensures
        match property_hover::property_at(stmts, offset, i) {
            Some(k) => i <= k && key_under(stmts, k, StmtKind::Property, offset),
            None => forall|k: int|
                i <= k ==> !#[trigger] key_under(stmts, k, StmtKind::Property, offset),
        },
        match alias_hover::alias_at(stmts, offset, i) {
            Some(k) => i <= k && key_under(stmts, k, StmtKind::AliasProperty, offset),
            None => forall|k: int|
                i <= k ==> !#[trigger] key_under(stmts, k, StmtKind::AliasProperty, offset),
        },
    decreases stmts.len() - i,
{
    if i < stmts.len() {
        lemma_key_scans(stmts, offset, i + 1);
        assert(property_hover::key_holds(stmts, i, offset) == key_under(
            stmts,
            i,
            StmtKind::Property,
            offset,
        ));
        assert((stmts[i].kind == StmtKind::AliasProperty && stmts[i].key.holds(offset))
            == key_under(stmts, i, StmtKind::AliasProperty, offset));
    }
}

/// Pointing at the key of a property or of an alias finds it, and pointing elsewhere finds none.
pub proof fn law_pointing_at_a_key(s: Seq<u8>, offset: int)
    requires
        valid_utf8(s),
        s.len() <= usize::MAX,
    ensures
        forall|k: int|
            property_hover::property_at(syntax::stmts(s), offset, 0) == Some(k)
                <==> #[trigger] key_under(syntax::stmts(s), k, StmtKind::Property, offset),
        forall|k: int|
            alias_hover::alias_at(syntax::stmts(s), offset, 0) == Some(k) <==> #[trigger] key_under(
                syntax::stmts(s),
                k,
                StmtKind::AliasProperty,
                offset,
            ),
{
    let stmts = syntax::stmts(s);
    lemma_key_scans(stmts, offset, 0);
    assert forall|k: int|
        property_hover::property_at(stmts, offset, 0) == Some(k) <==> #[trigger] key_under(
            stmts,
            k,
            StmtKind::Property,
            offset,
        ) by {
        if key_under(stmts, k, StmtKind::Property, offset) {
            let j = property_hover::property_at(stmts, offset, 0)->0;
            lemma_token_place(s, j, offset);
            lemma_token_place(s, k, offset);
            lemma_one_place(s, j, k, offset);
        }
    }
    assert forall|k: int|
        alias_hover::alias_at(stmts, offset, 0) == Some(k) <==> #[trigger] key_under(
            stmts,
            k,
            StmtKind::AliasProperty,
            offset,
        ) by {
        if key_under(stmts, k, StmtKind::AliasProperty, offset) {
            let j = alias_hover::alias_at(stmts, offset, 0)->0;
            lemma_token_place(s, j, offset);
            lemma_token_place(s, k, offset);
            lemma_one_place(s, j, k, offset);
        }
    }
}

/// Whether the name of a style stands at `sp` in statement `k`: the name or the base of a header of
/// the top level, or the tag of a widget.
pub open spec fn style_name_at(stmts: Seq<Stmt>, k: int, sp: ByteSpan) -> bool {
    ||| is_declaration(stmts, k) && (stmts[k].key == sp || stmts[k].value == Some(sp))
    ||| 0 <= k < stmts.len() && stmts[k].kind == StmtKind::Container && stmts[k].key == sp
}

proof fn lemma_style_tokens(stmts: Seq<Stmt>, offset: int, i: int)
    requires
        0 <= i,
    ensures
        match hierarchy::header_token(stmts, offset, i) {
            Some(sp) => inside(sp, offset) && exists|k: int|
                i <= k && #[trigger] is_declaration(stmts, k) && (stmts[k].key == sp
                    || stmts[k].value == Some(sp)),
            None => forall|k: int, sp: ByteSpan|
                i <= k && #[trigger] is_declaration(stmts, k) && (stmts[k].key == sp
                    || stmts[k].value == Some(sp)) ==> !#[trigger] inside(sp, offset),
        },
        match hierarchy::tag_token(stmts, offset, i) {
            Some(sp) => inside(sp, offset) && exists|k: int|
                i <= k < stmts.len() && (#[trigger] stmts[k]).kind == StmtKind::Container
                    && stmts[k].key == sp,
            None => forall|k: int|
                i <= k < stmts.len() && (#[trigger] stmts[k]).kind == StmtKind::Container
                    ==> !inside(stmts[k].key, offset),
        },
    decreases stmts.len() - i,
{
    if i < stmts.len() {
        lemma_style_tokens(stmts, offset, i + 1);
        assert(style_index::declares_style(stmts, i) == is_declaration(stmts, i));
    }
}

/// Pointing at the name of a style finds where it stands, and pointing elsewhere finds none.
pub proof fn law_pointing_at_a_style(s: Seq<u8>, offset: int)
    requires
        valid_utf8(s),
        s.len() <= usize::MAX,
    ensures
        match hierarchy::style_token(syntax::stmts(s), offset) {
            Some(sp) => inside(sp, offset) && exists|k: int| #[trigger]
                style_name_at(syntax::stmts(s), k, sp),
            None => forall|k: int, sp: ByteSpan| #[trigger]
                style_name_at(syntax::stmts(s), k, sp) ==> !inside(sp, offset),
        },
{
    let stmts = syntax::stmts(s);
    lemma_style_tokens(stmts, offset, 0);
    match hierarchy::style_token(stmts, offset) {
        Some(sp) => {
            if hierarchy::header_token(stmts, offset, 0) is Some {
                let k = choose|k: int|
                    0 <= k && #[trigger] is_declaration(stmts, k) && (stmts[k].key == sp
                        || stmts[k].value == Some(sp));
                assert(style_name_at(stmts, k, sp));
            } else {
                let k = choose|k: int|
                    0 <= k < stmts.len() && (#[trigger] stmts[k]).kind == StmtKind::Container
                        && stmts[k].key == sp;
                assert(style_name_at(stmts, k, sp));
            }
        },
        None => {
            assert forall|k: int, sp: ByteSpan| #[trigger]
                style_name_at(stmts, k, sp) implies !inside(sp, offset) by {
                if is_declaration(stmts, k) && (stmts[k].key == sp || stmts[k].value == Some(sp)) {
                    assert(!inside(sp, offset));
                }
            }
        },
    }
}

// ---------------------------------------------------------------------------------------------
// Targets of anchors
// ---------------------------------------------------------------------------------------------

/// Whether widget `w` is a sibling of widget `owner` and has the id `id`.
pub open spec fn sibling_with_id(s: Seq<u8>, owner: int, w: int, id: Seq<u8>) -> bool {
    let stmts = syntax::stmts(s);
    &&& 0 <= w < stmts.len() && w != owner
    &&& folding_laws::is_widget(stmts[w])
    &&& stmts[owner].parent is Some && stmts[w].parent == stmts[owner].parent
    &&& anchors::id_of(stmts, w) matches Some(v) && reads(s, v, id)
}

proof fn lemma_last_with_id(s: Seq<u8>, owner: int, n: int, id: Seq<u8>)
    requires
        0 <= n <= syntax::stmts(s).len(),
    ensures
        ({
            let stmts = syntax::stmts(s);
            let all = anchors::siblings_upto(stmts, owner, n);
            match navigation::last_with_id(s, stmts, all, id, all.len() as int) {
                Some(w) => w < n && sibling_with_id(s, owner, w, id) && forall|x: int|
                    w < x < n ==> !#[trigger] sibling_with_id(s, owner, x, id),
                None => forall|x: int| x < n ==> !#[trigger] sibling_with_id(s, owner, x, id),
            }
        }),
    decreases n,
{
    let stmts = syntax::stmts(s);
    if n > 0 {
        lemma_last_with_id(s, owner, n - 1, id);
        let before = anchors::siblings_upto(stmts, owner, n - 1);
        let all = anchors::siblings_upto(stmts, owner, n);
        if anchors::sibling(stmts, owner, n - 1) {
            assert(all == before.push(n - 1));
            lemma_last_prefix(s, before, all, id, before.len() as int);
        } else {
            assert(all == before);
            assert(!sibling_with_id(s, owner, n - 1, id));
        }
    }
}

proof fn lemma_last_prefix(s: Seq<u8>, a: Seq<int>, b: Seq<int>, id: Seq<u8>, k: int)
    requires
        0 <= k <= a.len() <= b.len(),
        forall|i: int| 0 <= i < a.len() ==> #[trigger] a[i] == b[i],
    ensures
        navigation::last_with_id(s, syntax::stmts(s), a, id, k) == navigation::last_with_id(
            s,
            syntax::stmts(s),
            b,
            id,
            k,
        ),
    decreases k,
{
    if k > 0 {
        assert(a[k - 1] == b[k - 1]);
        lemma_last_prefix(s, a, b, id, k - 1);
    }
}

/// An id in the target of an anchor refers to the last sibling of the widget with the anchor that has
/// that id, and to nothing where none has it.
pub proof fn law_anchor_targets(s: Seq<u8>, offset: int, owner: int, id: Seq<u8>)
    requires
        anchors::owner_at(s, syntax::stmts(s), offset) == Some(owner),
    ensures
        match navigation::target_widget(s, syntax::stmts(s), offset, id) {
            Some(w) => sibling_with_id(s, owner, w, id) && forall|x: int|
                w < x ==> !#[trigger] sibling_with_id(s, owner, x, id),
            None => forall|x: int| !#[trigger] sibling_with_id(s, owner, x, id),
        },
{
    lemma_last_with_id(s, owner, syntax::stmts(s).len() as int, id);
}

// ---------------------------------------------------------------------------------------------
// Styles that derive
// ---------------------------------------------------------------------------------------------

/// The number of the given styles that derive from `name`.
pub open spec fn count_deriving(defs: Seq<StyleDef>, name: Seq<char>) -> nat
    decreases defs.len(),
{
    if defs.len() == 0 {
        0
    } else {
        count_deriving(defs.drop_last(), name) + if defs.last().base matches Some(b) && b@ == name {
            1nat
        } else {
            0nat
        }
    }
}

/// The number of styles of all documents that derive from `name`.
pub open spec fn count_in(docs: style_index::StyleDocs, name: Seq<char>) -> nat
    decreases docs.len(),
{
    if docs.len() == 0 {
        0
    } else {
        count_in(docs.drop_last(), name) + count_deriving(docs.last().1, name)
    }
}

proof fn lemma_deriving_adds(
    a: Seq<(Seq<char>, StyleDef)>,
    b: Seq<(Seq<char>, StyleDef)>,
    name: Seq<char>,
)
    ensures
        style_index::deriving(a + b, name).len() == style_index::deriving(a, name).len()
            + style_index::deriving(b, name).len(),
    decreases b.len(),
{
    reveal(Seq::filter);
    if b.len() == 0 {
        assert(a + b =~= a);
    } else {
        lemma_deriving_adds(a, b.drop_last(), name);
        assert((a + b).drop_last() =~= a + b.drop_last());
        assert((a + b).last() == b.last());
    }
}

proof fn lemma_count_document(doc: Seq<char>, defs: Seq<StyleDef>, name: Seq<char>)
    ensures
        style_index::deriving(defs.map_values(|x: StyleDef| (doc, x)), name).len()
            == count_deriving(defs, name),
    decreases defs.len(),
{
    reveal(Seq::filter);
    let all = defs.map_values(|x: StyleDef| (doc, x));
    if defs.len() > 0 {
        let front = defs.drop_last();
        lemma_count_document(doc, front, name);
        assert(all.drop_last() =~= front.map_values(|x: StyleDef| (doc, x)));
        assert(all.last() == (doc, defs.last()));
    }
}

/// The list of the styles that derive from a name has as many as all documents have.
pub proof fn law_deriving_styles_are_counted(docs: style_index::StyleDocs, name: Seq<char>)
    ensures
        style_index::deriving(doc_index::pairs(docs), name).len() == count_in(docs, name),
    decreases docs.len(),
{
    reveal(Seq::filter);
    if docs.len() > 0 {
        let front = docs.drop_last();
        let last = docs.last();
        law_deriving_styles_are_counted(front, name);
        lemma_count_document(last.0, last.1, name);
        lemma_deriving_adds(
            doc_index::pairs(front),
            last.1.map_values(|x: StyleDef| (last.0, x)),
            name,
        );
    }
}

proof fn lemma_lenses(
    s: Seq<u8>,
    styles: style_index::StyleDocs,
    at: Seq<int>,
    n: int,
    lens: (ByteSpan, int),
)
    requires
        0 <= n <= at.len(),
    ensures
        lenses::lenses_upto(s, syntax::stmts(s), styles, at, n).contains(lens) <==> exists|i: int|
            0 <= i < n && lens.0 == syntax::stmts(s)[#[trigger] at[i]].key && lens.1 == count_in(
                styles,
                text::chars_of(syntax::cut(s, syntax::stmts(s)[at[i]].key)),
            ) && lens.1 > 0,
    decreases n,
{
    if n > 0 {
        let stmts = syntax::stmts(s);
        let k = at[n - 1];
        lemma_lenses(s, styles, at, n - 1, lens);
        law_deriving_styles_are_counted(styles, text::chars_of(syntax::cut(s, stmts[k].key)));
        lemma_push_contains(
            lenses::lenses_upto(s, stmts, styles, at, n - 1),
            (stmts[k].key, lenses::derived(s, stmts, styles, k)),
            lens,
        );
        assert(at[n - 1] == k);
    }
}

proof fn lemma_declarations(stmts: Seq<Stmt>, n: int, k: int)
    requires
        0 <= n <= stmts.len(),
    ensures
        style_index::declarations_upto(stmts, n).contains(k) <==> k < n && is_declaration(stmts, k),
    decreases n,
{
    if n > 0 {
        lemma_declarations(stmts, n - 1, k);
        lemma_push_contains(style_index::declarations_upto(stmts, n - 1), n - 1, k);
        assert(style_index::declares_style(stmts, n - 1) == is_declaration(stmts, n - 1));
    }
}

/// A lens stands on the name of each style that a document declares and from which some style of the
/// workspace derives, with the number of these, and on nothing else.
pub proof fn law_lenses(s: Seq<u8>, styles: style_index::StyleDocs, sp: ByteSpan, n: int)
    ensures
        lenses::lenses(s, styles).contains((sp, n)) <==> exists|k: int| #[trigger]
            is_declaration(syntax::stmts(s), k) && syntax::stmts(s)[k].key == sp && n == count_in(
                styles,
                text::chars_of(syntax::cut(s, sp)),
            ) && n > 0,
{
    let stmts = syntax::stmts(s);
    let at = style_index::declarations_upto(stmts, stmts.len() as int);
    lemma_lenses(s, styles, at, at.len() as int, (sp, n));
    assert forall|k: int| #[trigger] at.contains(k) <==> is_declaration(stmts, k) by {
        lemma_declarations(stmts, stmts.len() as int, k);
    }
    if lenses::lenses(s, styles).contains((sp, n)) {
        let i = choose|i: int|
            0 <= i < at.len() && sp == stmts[#[trigger] at[i]].key && n == count_in(
                styles,
                text::chars_of(syntax::cut(s, stmts[at[i]].key)),
            ) && n > 0;
        assert(at.contains(at[i]));
        assert(is_declaration(stmts, at[i]));
    }
    if exists|k: int| #[trigger]
        is_declaration(stmts, k) && stmts[k].key == sp && n == count_in(
            styles,
            text::chars_of(syntax::cut(s, sp)),
        ) && n > 0 {
        let k = choose|k: int| #[trigger]
            is_declaration(stmts, k) && stmts[k].key == sp && n == count_in(
                styles,
                text::chars_of(syntax::cut(s, sp)),
            ) && n > 0;
        assert(at.contains(k));
        assert(at[at.index_of(k)] == k);
    }
}

/// Whether statement `k` is a header of the top level whose base comes down to the class `class` of
/// the engine, which is another name, and `at` is where that base ends.
pub open spec fn comes_down_to(
    s: Seq<u8>,
    styles: style_index::StyleDocs,
    k: int,
    at: int,
    class: Seq<char>,
) -> bool {
    let stmts = syntax::stmts(s);
    is_declaration(stmts, k) && (stmts[k].value matches Some(v) && at == v.end && {
        let base = text::chars_of(s.subrange(v.start as int, v.end as int));
        widget_resolve::native_of(styles, base) == Some(class) && class != base
    })
}

proof fn lemma_hints(s: Seq<u8>, styles: style_index::StyleDocs, n: int, hint: (int, Seq<char>))
    requires
        s.len() <= usize::MAX,
        0 <= n <= syntax::stmts(s).len(),
    ensures
        inlay::hints_upto(s, syntax::stmts(s), styles, n).contains(hint) <==> exists|k: int|
            k < n && #[trigger] comes_down_to(s, styles, k, hint.0, hint.1),
    decreases n,
{
    if n > 0 {
        let stmts = syntax::stmts(s);
        lemma_hints(s, styles, n - 1, hint);
        syntax::lemma_header_base(s, n - 1);
        assert(style_index::declares_style(stmts, n - 1) == is_declaration(stmts, n - 1));
        assert(comes_down_to(s, styles, n - 1, hint.0, hint.1) <==> inlay::hint_on(
            s,
            stmts,
            styles,
            n - 1,
        ) == Some(hint));
        if let Some(h) = inlay::hint_on(s, stmts, styles, n - 1) {
            lemma_push_contains(inlay::hints_upto(s, stmts, styles, n - 1), h, hint);
        }
    }
}

/// A hint stands behind the base of each header of the top level that comes down to a class of
/// another name, and nowhere else.
pub proof fn law_hints(s: Seq<u8>, styles: style_index::StyleDocs, at: int, class: Seq<char>)
    requires
        s.len() <= usize::MAX,
    ensures
        inlay::hints_upto(s, syntax::stmts(s), styles, syntax::stmts(s).len() as int).contains(
            (at, class),
        ) <==> exists|k: int| #[trigger] comes_down_to(s, styles, k, at, class),
{
    let n = syntax::stmts(s).len() as int;
    let hint = (at, class);
    lemma_hints(s, styles, n, hint);
    assert forall|k: int| #[trigger] comes_down_to(s, styles, k, at, class) implies k < n
        && comes_down_to(s, styles, k, hint.0, hint.1) by {}
    if exists|k: int| #[trigger] comes_down_to(s, styles, k, at, class) {
        let k = choose|k: int| #[trigger] comes_down_to(s, styles, k, at, class);
        assert(k < n && comes_down_to(s, styles, k, hint.0, hint.1));
    }
}


/// The number of the given styles that have the name `name`.
pub open spec fn count_named(defs: Seq<(Seq<char>, StyleDef)>, name: Seq<char>) -> nat
    decreases defs.len(),
{
    if defs.len() == 0 {
        0
    } else {
        count_named(defs.drop_last(), name) + if defs.last().1.name@ == name {
            1nat
        } else {
            0nat
        }
    }
}

proof fn lemma_named(defs: Seq<(Seq<char>, StyleDef)>, name: Seq<char>)
    ensures
        style_index::named(defs, name).len() == count_named(defs, name),
        count_named(defs, name) > 0 <==> exists|i: int|
            0 <= i < defs.len() && (#[trigger] defs[i]).1.name@ == name,
    decreases defs.len(),
{
    reveal(Seq::filter);
    if defs.len() > 0 {
        let front = defs.drop_last();
        lemma_named(front, name);
        if count_named(front, name) > 0 {
            let i = choose|i: int| 0 <= i < front.len() && (#[trigger] front[i]).1.name@ == name;
            assert(defs[i].1.name@ == name);
        } else {
            assert forall|i: int| 0 <= i < defs.len() - 1 implies (#[trigger] defs[i]).1.name@
                != name by {
                assert(front[i] == defs[i]);
            }
            assert(defs[defs.len() - 1] == defs.last());
        }
    }
}

/// A base that a name in a header refers to is a class of the engine where its name says so, and else
/// a style of the workspace where some document declares it, with the number of its declarations, and
/// else nothing that is known.
pub proof fn law_hover_on_a_base(
    styles: style_index::StyleDocs,
    base: Seq<char>,
    kind: hover::StyleHoverKind,
)
    requires
        hover::is_base_kind(styles, base, kind),
    ensures
        kind is NativeBase <==> workspace_laws::starts_with_ui(base),
        kind is UserBase <==> !workspace_laws::starts_with_ui(base) && workspace_laws::has_style(
            styles,
            base,
        ),
        kind is DanglingBase <==> !workspace_laws::starts_with_ui(base)
            && !workspace_laws::has_style(styles, base),
        kind matches hover::StyleHoverKind::UserBase { name, def_count, .. } ==> name@ == base
            && def_count == count_named(doc_index::pairs(styles), base),
{
    let all = doc_index::pairs(styles);
    workspace_laws::law_classes_start_with_ui(base);
    lemma_named(all, base);
    if workspace_laws::has_style(styles, base) {
        let (d, i) = choose|d: int, i: int|
            0 <= d < styles.len() && 0 <= i < styles[d].1.len() && (#[trigger] styles[d].1[i]).name@
                == base;
        let pair = (styles[d].0, styles[d].1[i]);
        assert(styles[d].1[i] == pair.1);
        workspace_laws::law_pairs_hold_all(styles, pair);
        assert(all[all.index_of(pair)].1.name@ == base);
    } else if exists|i: int| 0 <= i < all.len() && (#[trigger] all[i]).1.name@ == base {
        let k = choose|i: int| 0 <= i < all.len() && (#[trigger] all[i]).1.name@ == base;
        assert(all.contains(all[k]));
        workspace_laws::law_pairs_hold_all(styles, all[k]);
        let (d, i) = choose|d: int, i: int|
            0 <= d < styles.len() && 0 <= i < styles[d].1.len() && styles[d].0 == all[k].0
                && #[trigger] styles[d].1[i] == all[k].1;
        assert(styles[d].1[i].name@ == base);
    }
}

} // verus!
