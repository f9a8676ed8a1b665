//! What it takes for a workspace to know a name.

use crate::doc_index;
use crate::lua_widgets;
use crate::lua_widgets::LuaWidgetDef;
use crate::style_index;
use crate::text;
use vstd::prelude::*;
use vstd::string::*;
use vstd::utf8::*;

verus! {

/// Whether some document declares a style of the given name.
pub open spec fn has_style(docs: style_index::StyleDocs, name: Seq<char>) -> bool {
    exists|d: int, i: int|
        0 <= d < docs.len() && 0 <= i < docs[d].1.len() && (#[trigger] docs[d].1[i]).name@ == name
}

/// Whether some Lua document declares a class of the given name.
pub open spec fn has_lua_class(docs: doc_index::DocItems<LuaWidgetDef>, name: Seq<char>) -> bool {
    exists|d: int, i: int|
        0 <= d < docs.len() && 0 <= i < docs[d].1.len() && (#[trigger] docs[d].1[i]).name@ == name
}

/// Whether a name starts with the two letters that mark a class of the engine.
pub open spec fn starts_with_ui(name: Seq<char>) -> bool {
    let b = text::bytes_of(name);
    b.len() >= 2 && b[0] == 0x55 && b[1] == 0x49
}

/// A name is that of a class of the engine exactly where it starts with `UI`.
pub proof fn law_classes_start_with_ui(name: Seq<char>)
    ensures
        style_index::native(name) == starts_with_ui(name),
{
    reveal_strlit("UI");
    is_ascii_chars_encode_utf8("UI"@);
    let b = text::bytes_of(name);
    let ui = "UI".spec_bytes();
    assert(ui.len() == 2 && ui[0] == 0x55 && ui[1] == 0x49);
    if b.len() >= 2 {
        if b[0] == 0x55 && b[1] == 0x49 {
            assert(b.subrange(0, 2) =~= ui);
        }
        if b.subrange(0, 2) == ui {
            assert(b.subrange(0, 2)[0] == b[0] && b.subrange(0, 2)[1] == b[1]);
        }
    }
}

/// Whether a document of the list has the given item.
pub open spec fn holds<T>(docs: doc_index::DocItems<T>, p: (Seq<char>, T)) -> bool {
    exists|d: int, i: int|
        0 <= d < docs.len() && 0 <= i < docs[d].1.len() && docs[d].0 == p.0 && #[trigger] docs[d].1[i]
            == p.1
}

/// The list of all items holds what the documents hold, and nothing else.
pub proof fn law_pairs_hold_all<T>(docs: doc_index::DocItems<T>, p: (Seq<char>, T))
    ensures
        doc_index::pairs(docs).contains(p) <==> holds(docs, p),
    decreases docs.len(),
{
    if docs.len() > 0 {
        let front = docs.drop_last();
        let last = docs.last();
        law_pairs_hold_all(front, p);
        let a = doc_index::pairs(front);
        let b = last.1.map_values(|x: T| (last.0, x));
        let all = doc_index::pairs(docs);
        assert(all == a + b);
        if holds(docs, p) {
            let (d, i) = choose|d: int, i: int|
                0 <= d < docs.len() && 0 <= i < docs[d].1.len() && docs[d].0 == p.0
                    && #[trigger] docs[d].1[i] == p.1;
            if d < front.len() {
                assert(front[d] == docs[d]);
                assert(front[d].1[i] == p.1);
                assert(a.contains(p));
                assert(all[a.index_of(p)] == p);
            } else {
                assert(b[i] == p);
                assert(all[a.len() + i] == p);
            }
        }
        if all.contains(p) {
            let k = all.index_of(p);
            if k < a.len() {
                assert(a[k] == p);
                assert(a.contains(p));
                let (d, i) = choose|d: int, i: int|
                    0 <= d < front.len() && 0 <= i < front[d].1.len() && front[d].0 == p.0
                        && #[trigger] front[d].1[i] == p.1;
                assert(docs[d] == front[d]);
                assert(docs[d].1[i] == p.1);
            } else {
                assert(b[k - a.len()] == p);
                assert(docs[docs.len() - 1].1[k - a.len()] == p.1);
            }
        }
    }
}

/// A style has a declaration that counts exactly where some document declares it, and that one is of
/// some document.
pub proof fn law_definitions_are_declared(docs: style_index::StyleDocs, name: Seq<char>)
    ensures
        style_index::definition(docs, name) is Some <==> has_style(docs, name),
        style_index::definition(docs, name) matches Some(def) ==> def.name@ == name && exists|
            doc: Seq<char>,
        |
            #[trigger] holds(docs, (doc, def)),
{
    let all = doc_index::pairs(docs);
    style_index::law_picked(all, name, all.len() as int);
    if let Some(j) = style_index::picked(all, name, all.len() as int) {
        assert(all.contains(all[j]));
        law_pairs_hold_all(docs, all[j]);
        assert(holds(docs, (all[j].0, all[j].1)));
        let (d, i) = choose|d: int, i: int|
            0 <= d < docs.len() && 0 <= i < docs[d].1.len() && docs[d].0 == all[j].0
                && #[trigger] docs[d].1[i] == all[j].1;
        assert(docs[d].1[i].name@ == name);
    } else if has_style(docs, name) {
        let (d, i) = choose|d: int, i: int|
            0 <= d < docs.len() && 0 <= i < docs[d].1.len() && (#[trigger] docs[d].1[i]).name@
                == name;
        let pair = (docs[d].0, docs[d].1[i]);
        assert(docs[d].1[i] == pair.1);
        law_pairs_hold_all(docs, pair);
        assert(all[all.index_of(pair)].1.name@ == name);
    }
}

/// A Lua class has a definition exactly where some Lua document declares it.
pub proof fn law_lua_classes_are_declared(docs: doc_index::DocItems<LuaWidgetDef>, name: Seq<char>)
    ensures
        lua_widgets::defs_named(lua_widgets::all_defs(docs), name).len() > 0 <==> has_lua_class(
            docs,
            name,
        ),
{
    let pairs = doc_index::pairs(docs);
    let all = lua_widgets::all_defs(docs);
    lemma_defs_named(all, name);
    if lua_widgets::defs_named(all, name).len() > 0 {
        let k = choose|k: int| 0 <= k < all.len() && (#[trigger] all[k]).name@ == name;
        assert(pairs.contains(pairs[k]));
        law_pairs_hold_all(docs, pairs[k]);
        let (d, i) = choose|d: int, i: int|
            0 <= d < docs.len() && 0 <= i < docs[d].1.len() && docs[d].0 == pairs[k].0
                && #[trigger] docs[d].1[i] == pairs[k].1;
        assert(docs[d].1[i].name@ == name);
    }
    if has_lua_class(docs, name) {
        let (d, i) = choose|d: int, i: int|
            0 <= d < docs.len() && 0 <= i < docs[d].1.len() && (#[trigger] docs[d].1[i]).name@
                == name;
        let pair = (docs[d].0, docs[d].1[i]);
        assert(docs[d].1[i] == pair.1);
        law_pairs_hold_all(docs, pair);
        let k = pairs.index_of(pair);
        assert(all[k] == docs[d].1[i]);
    }
}

proof fn lemma_defs_named(all: Seq<LuaWidgetDef>, name: Seq<char>)
    ensures
        lua_widgets::defs_named(all, name).len() > 0 <==> exists|k: int|
            0 <= k < all.len() && (#[trigger] all[k]).name@ == name,
    decreases all.len(),
{
    reveal(Seq::filter);
    if all.len() > 0 {
        let front = all.drop_last();
        lemma_defs_named(front, name);
        if lua_widgets::defs_named(front, name).len() > 0 {
            let k = choose|k: int| 0 <= k < front.len() && (#[trigger] front[k]).name@ == name;
            assert(all[k].name@ == name);
        } else {
            assert forall|k: int| 0 <= k < all.len() - 1 implies (#[trigger] all[k]).name@
                != name by {
                assert(front[k] == all[k]);
            }
            assert(all[all.len() - 1] == all.last());
        }
    }
}

} // verus!
