//! What a widget has in its ancestry.

use crate::doc_index;
use crate::lua_widgets;
use crate::lua_widgets::LuaWidgetDef;
use crate::style_index;
use crate::widget_resolve;
use crate::workspace_laws;
use vstd::prelude::*;
use vstd::string::*;

verus! {

/// Whether `base` is what the declaration of the style `name` that counts derives it from.
pub open spec fn derives(styles: style_index::StyleDocs, name: Seq<char>, base: Seq<char>) -> bool {
    !workspace_laws::starts_with_ui(name) && (style_index::definition(styles, name) matches Some(def)
        && def.base matches Some(b) && b@ == base)
}

/// Whether each style of a list but the last is followed by what it derives from.
spec fn linked(styles: style_index::StyleDocs, chain: Seq<Seq<char>>) -> bool {
    forall|i: int|
        0 <= i && i + 1 < chain.len() ==> derives(styles, #[trigger] chain[i], chain[i + 1])
}

/// Whether each name is declared.
spec fn declared(styles: style_index::StyleDocs, chain: Seq<Seq<char>>) -> bool {
    forall|i: int| 0 <= i < chain.len() ==> workspace_laws::has_style(styles, #[trigger] chain[i])
}

/// There are no more names without repetition than declarations of them.
proof fn lemma_no_more_names(styles: style_index::StyleDocs, chain: Seq<Seq<char>>)
    requires
        widget_resolve::no_repeats(chain),
        declared(styles, chain),
    ensures
        chain.len() <= doc_index::pairs(styles).len(),
{
    let all = doc_index::pairs(styles);
    let names = all.map_values(|p: (Seq<char>, style_index::StyleDef)| p.1.name@);
    assert(chain.to_set().subset_of(names.to_set())) by {
        assert forall|x: Seq<char>| chain.to_set().contains(x) implies names.to_set().contains(x) by {
            let i = chain.index_of(x);
            assert(workspace_laws::has_style(styles, chain[i]));
            let (d, j) = choose|d: int, j: int|
                0 <= d < styles.len() && 0 <= j < styles[d].1.len() && (
                #[trigger] styles[d].1[j]).name@ == x;
            let pair = (styles[d].0, styles[d].1[j]);
            assert(styles[d].1[j] == pair.1);
            workspace_laws::law_pairs_hold_all(styles, pair);
            assert(names[all.index_of(pair)] == x);
        }
    }
    lemma_distinct_len(chain, names);
}

/// A list without repetition is no longer than one that holds all its items.
proof fn lemma_distinct_len(chain: Seq<Seq<char>>, names: Seq<Seq<char>>)
    requires
        widget_resolve::no_repeats(chain),
        chain.to_set().subset_of(names.to_set()),
    ensures
        chain.len() <= names.len(),
{
    assert(chain.no_duplicates()) by {
        assert forall|i: int, j: int|
            0 <= i < chain.len() && 0 <= j < chain.len() && i != j implies chain[i] != chain[j] by {
            if i < j {
                assert(chain[i] != chain[j]);
            } else {
                assert(chain[j] != chain[i]);
            }
        }
    }
    chain.unique_seq_to_set();
    vstd::seq_lib::seq_to_set_is_finite(names);
    vstd::set_lib::lemma_len_subset(chain.to_set(), names.to_set());
    names.lemma_cardinality_of_set();
}

/// The bases are followed to the end: to a class of the engine, to a name without a base, or to one
/// that came before.
proof fn lemma_style_chain(
    styles: style_index::StyleDocs,
    name: Seq<char>,
    seen: Seq<Seq<char>>,
    fuel: nat,
)
    requires
        widget_resolve::no_repeats(seen),
        declared(styles, seen),
        linked(styles, seen),
        seen.len() > 0 ==> derives(styles, seen.last(), name),
        seen.len() + fuel == doc_index::pairs(styles).len() + 1,
    ensures
        ({
            let all = widget_resolve::style_chain(styles, name, seen, fuel);
            &&& linked(styles, all)
            &&& all.contains(name)
            &&& all.len() >= seen.len() && all.len() > 0
            &&& all.take(seen.len() as int) == seen
            &&& forall|b: Seq<char>| derives(styles, all.last(), b) ==> all.contains(b)
        }),
    decreases fuel,
{
    let all = widget_resolve::style_chain(styles, name, seen, fuel);
    lemma_no_more_names(styles, seen);
    workspace_laws::law_classes_start_with_ui(name);
    workspace_laws::law_definitions_are_declared(styles, name);
    assert(seen.take(seen.len() as int) =~= seen);
    if seen.contains(name) {
        assert(all == seen);
    } else {
        let more = seen.push(name);
        assert(more[seen.len() as int] == name);
        assert(widget_resolve::no_repeats(more));
        assert(linked(styles, more)) by {
            assert forall|i: int| 0 <= i && i + 1 < more.len() implies derives(
                styles,
                #[trigger] more[i],
                more[i + 1],
            ) by {
                if i + 1 == seen.len() {
                    assert(more[i] == seen.last());
                } else {
                    assert(more[i] == seen[i] && more[i + 1] == seen[i + 1]);
                }
            }
        }
        assert(more.take(seen.len() as int) =~= seen);
        let base = match style_index::definition(styles, name) {
            Some(def) => def.base,
            None => None,
        };
        if !style_index::native(name) && base is Some {
            let b = base->0;
            assert(declared(styles, more));
            lemma_style_chain(styles, b@, more, (fuel - 1) as nat);
            assert(all.take(more.len() as int) == more);
            assert(all.take(seen.len() as int) =~= more.take(seen.len() as int));
            assert(all[seen.len() as int] == all.take(more.len() as int)[seen.len() as int]);
        } else {
            assert(all == more);
        }
    }
}

/// The styles behind a name start with it, and go on with what each derives from, through all of
/// them: what the last one derives from, if anything, is among them already.
pub proof fn law_styles_behind(styles: style_index::StyleDocs, name: Seq<char>)
    ensures
        ({
            let chain = widget_resolve::styles_behind(styles, name);
            &&& chain.len() > 0 && chain[0] == name
            &&& forall|i: int|
                0 <= i && i + 1 < chain.len() ==> derives(
                    styles,
                    #[trigger] chain[i],
                    chain[i + 1],
                )
            &&& forall|i: int, b: Seq<char>|
                0 <= i < chain.len() && #[trigger] derives(styles, chain[i], b) ==> chain.contains(
                    b,
                )
        }),
{
    let none = Seq::<Seq<char>>::empty();
    let fuel = doc_index::pairs(styles).len() + 1;
    lemma_style_chain(styles, name, none, fuel);
    let chain = widget_resolve::styles_behind(styles, name);
    assert forall|i: int, b: Seq<char>|
        0 <= i < chain.len() && #[trigger] derives(styles, chain[i], b) implies chain.contains(b) by {
        if i + 1 < chain.len() {
            assert(derives(styles, chain[i], chain[i + 1]));
        }
    }
    assert(chain[0] == name) by {
        lemma_first(styles, name);
    }
}

proof fn lemma_first(styles: style_index::StyleDocs, name: Seq<char>)
    ensures
        widget_resolve::styles_behind(styles, name).len() > 0,
        widget_resolve::styles_behind(styles, name)[0] == name,
{
    let none = Seq::<Seq<char>>::empty();
    let first = none.push(name);
    let pairs = doc_index::pairs(styles);
    let all = widget_resolve::styles_behind(styles, name);
    workspace_laws::law_classes_start_with_ui(name);
    workspace_laws::law_definitions_are_declared(styles, name);
    if !style_index::native(name) {
        if let Some(def) = style_index::definition(styles, name) {
            if let Some(b) = def.base {
                assert(first[0] == name);
                assert(derives(styles, first.last(), b@));
                lemma_style_chain(styles, b@, first, pairs.len());
                assert(all.take(1)[0] == all[0]);
            }
        }
    }
}

/// Whether the declaration of the style `name` that counts puts `class` in place of the class that it
/// derives.
pub open spec fn puts_class(styles: style_index::StyleDocs, name: Seq<char>, class: Seq<char>) -> bool {
    !workspace_laws::starts_with_ui(name) && (style_index::definition(styles, name) matches Some(def)
        && def.class matches Some(c) && c@ == class)
}

/// The class that the engine creates for a widget is the one that the first style behind it puts in
/// place which puts one in place at all. Where none does, it is the class of the engine that the
/// styles come down to, if they come down to one.
pub proof fn law_native_class(styles: style_index::StyleDocs, name: Seq<char>, class: Seq<char>)
    ensures
        ({
            let chain = widget_resolve::styles_behind(styles, name);
            widget_resolve::native_of(styles, name) == Some(class) <==> {
                ||| exists|i: int|
                    0 <= i < chain.len() && puts_class(styles, #[trigger] chain[i], class) && forall|
                        j: int,
                        c: Seq<char>,
                    |
                        0 <= j < i ==> !#[trigger] puts_class(styles, chain[j], c)
                ||| chain.last() == class && workspace_laws::starts_with_ui(class) && forall|
                    j: int,
                    c: Seq<char>,
                |
                    0 <= j < chain.len() ==> !#[trigger] puts_class(styles, chain[j], c)
            }
        }),
{
    let chain = widget_resolve::styles_behind(styles, name);
    law_styles_behind(styles, name);
    lemma_override(styles, chain, 0);
    workspace_laws::law_classes_start_with_ui(chain.last());
    match widget_resolve::class_override(styles, chain, 0) {
        Some(found) => {
            let i = choose|i: int|
                0 <= i < chain.len() && puts_class(styles, #[trigger] chain[i], found) && forall|
                    j: int,
                    c: Seq<char>,
                |
                    0 <= j < i ==> !#[trigger] puts_class(styles, chain[j], c);
            if exists|k: int|
                0 <= k < chain.len() && puts_class(styles, #[trigger] chain[k], class) && forall|
                    j: int,
                    c: Seq<char>,
                |
                    0 <= j < k ==> !#[trigger] puts_class(styles, chain[j], c) {
                let k = choose|k: int|
                    0 <= k < chain.len() && puts_class(styles, #[trigger] chain[k], class)
                        && forall|j: int, c: Seq<char>|
                        0 <= j < k ==> !#[trigger] puts_class(styles, chain[j], c);
                if k < i {
                    assert(!puts_class(styles, chain[k], class));
                } else if i < k {
                    assert(!puts_class(styles, chain[i], found));
                }
            } else {
                assert(puts_class(styles, chain[i], found));
            }
        },
        None => {
            assert forall|i: int, c: Seq<char>| 0 <= i < chain.len() implies !#[trigger] puts_class(
                styles,
                chain[i],
                c,
            ) by {}
        },
    }
}

proof fn lemma_override(styles: style_index::StyleDocs, chain: Seq<Seq<char>>, i: int)
    requires
        0 <= i <= chain.len(),
        linked(styles, chain),
        forall|j: int, c: Seq<char>| 0 <= j < i ==> !#[trigger] puts_class(styles, chain[j], c),
    ensures
        match widget_resolve::class_override(styles, chain, i) {
            Some(class) => exists|k: int|
                0 <= k < chain.len() && puts_class(styles, #[trigger] chain[k], class) && forall|
                    j: int,
                    c: Seq<char>,
                |
                    0 <= j < k ==> !#[trigger] puts_class(styles, chain[j], c),
            None => forall|j: int, c: Seq<char>|
                0 <= j < chain.len() ==> !#[trigger] puts_class(styles, chain[j], c),
        },
    decreases chain.len() - i,
{
    if i < chain.len() {
        workspace_laws::law_classes_start_with_ui(chain[i]);
        if i + 1 < chain.len() {
            assert(derives(styles, chain[i], chain[i + 1]));
        }
        let class = match style_index::definition(styles, chain[i]) {
            Some(def) => def.class,
            None => None,
        };
        if !style_index::native(chain[i]) && class is Some {
            assert(puts_class(styles, chain[i], class->0@));
        } else {
            assert forall|j: int, c: Seq<char>| 0 <= j < i + 1 implies !#[trigger] puts_class(
                styles,
                chain[j],
                c,
            ) by {}
            lemma_override(styles, chain, i + 1);
        }
    }
}

// ---------------------------------------------------------------------------------------------
// Lua parents
// ---------------------------------------------------------------------------------------------

proof fn lemma_no_more_parents(lua: doc_index::DocItems<LuaWidgetDef>, steps: Seq<Seq<char>>)
    requires
        widget_resolve::no_repeats(steps),
        forall|i: int|
            0 <= i < steps.len() ==> lua_widgets::parent_in(lua, #[trigger] steps[i]) is Some,
    ensures
        steps.len() <= doc_index::pairs(lua).len(),
{
    let all = doc_index::pairs(lua);
    let names = all.map_values(|p: (Seq<char>, LuaWidgetDef)| p.1.name@);
    assert forall|x: Seq<char>| steps.to_set().contains(x) implies names.to_set().contains(x) by {
        let i = steps.index_of(x);
        assert(lua_widgets::parent_in(lua, steps[i]) is Some);
        lua_widgets::law_parent_source(all, x, all.len() as int);
        let j = lua_widgets::parent_source(all, x, all.len() as int)->0;
        assert(names[j] == x);
    }
    lemma_distinct_len(steps, names);
}

/// The Lua parents are followed to the end: to a class without one, or to a name that came before.
proof fn lemma_lua_chain(
    lua: doc_index::DocItems<LuaWidgetDef>,
    name: Seq<char>,
    seen: Seq<Seq<char>>,
    steps: Seq<Seq<char>>,
    fuel: nat,
)
    requires
        seen.contains(name),
        !steps.contains(name),
        widget_resolve::no_repeats(steps),
        forall|i: int|
            0 <= i < steps.len() ==> seen.contains(#[trigger] steps[i]) && (
            lua_widgets::parent_in(lua, steps[i]) matches Some(p) && seen.contains(p)),
        steps.len() + fuel == doc_index::pairs(lua).len() + 1,
    ensures
        ({
            let all = widget_resolve::lua_chain(lua, name, seen, fuel);
            &&& forall|x: Seq<char>| seen.contains(x) ==> #[trigger] all.contains(x)
            &&& forall|x: Seq<char>, p: Seq<char>|
                (x == name || (#[trigger] all.contains(x) && !seen.contains(x)))
                    && lua_widgets::parent_in(lua, x) == Some(p) ==> #[trigger] all.contains(p)
        }),
    decreases fuel,
{
    let all = widget_resolve::lua_chain(lua, name, seen, fuel);
    lemma_no_more_parents(lua, steps);
    if let Some(parent) = lua_widgets::parent_in(lua, name) {
        if seen.contains(parent) {
            assert(all == seen);
        } else {
            let more = seen.push(parent);
            let next = steps.push(name);
            assert(more[seen.len() as int] == parent);
            assert forall|x: Seq<char>| seen.contains(x) implies #[trigger] more.contains(x) by {
                assert(more[seen.index_of(x)] == x);
            }
            assert(more.contains(parent));
            assert forall|i: int| 0 <= i < next.len() implies more.contains(#[trigger] next[i]) && (
            lua_widgets::parent_in(lua, next[i]) matches Some(p) && more.contains(p)) by {
                if i < steps.len() {
                    assert(next[i] == steps[i]);
                }
            }
            assert(widget_resolve::no_repeats(next)) by {
                assert forall|i: int, j: int|
                    #![trigger next[i], next[j]]
                    0 <= i < j < next.len() implies next[i] != next[j] by {
                    assert(next[i] == steps[i]);
                    if j < steps.len() {
                        assert(next[j] == steps[j]);
                    }
                }
            }
            assert(!next.contains(parent)) by {
                if next.contains(parent) {
                    let i = next.index_of(parent);
                    if i < steps.len() {
                        assert(steps[i] == parent);
                        assert(seen.contains(steps[i]));
                    }
                }
            }
            lemma_lua_chain(lua, parent, more, next, (fuel - 1) as nat);
            assert(fuel > 0);
            assert(all == widget_resolve::lua_chain(lua, parent, more, (fuel - 1) as nat));
            assert(all.contains(parent));
            assert forall|x: Seq<char>, p: Seq<char>|
                (x == name || (#[trigger] all.contains(x) && !seen.contains(x)))
                    && lua_widgets::parent_in(lua, x) == Some(p) implies #[trigger] all.contains(p) by {
                if x != name && more.contains(x) {
                    let i = more.index_of(x);
                    if i < seen.len() {
                        assert(seen[i] == x);
                    }
                }
            }
        }
    } else {
        assert(all == seen);
    }
}

/// Everything behind a name: the styles behind it, the class that the engine creates, and the Lua
/// parents of that class, or else of the last style, through all of them.
pub proof fn law_ancestry(
    styles: style_index::StyleDocs,
    lua: doc_index::DocItems<LuaWidgetDef>,
    name: Seq<char>,
)
    ensures
        ({
            let all = widget_resolve::ancestry(styles, lua, name);
            let chain = widget_resolve::styles_behind(styles, name);
            let start = match widget_resolve::native_of(styles, name) {
                Some(class) => class,
                None => chain.last(),
            };
            &&& forall|x: Seq<char>| chain.contains(x) ==> #[trigger] all.contains(x)
            &&& all.contains(start)
            &&& forall|x: Seq<char>, p: Seq<char>|
                (x == start || (#[trigger] all.contains(x) && !chain.contains(x)))
                    && lua_widgets::parent_in(lua, x) == Some(p) ==> #[trigger] all.contains(p)
        }),
{
    let chain = widget_resolve::styles_behind(styles, name);
    let none = Seq::<Seq<char>>::empty();
    let fuel = doc_index::pairs(lua).len() + 1;
    law_styles_behind(styles, name);
    match widget_resolve::native_of(styles, name) {
        Some(class) => {
            if chain.contains(class) {
                lemma_lua_chain(lua, class, chain, none, fuel);
            } else {
                let more = chain.push(class);
                assert(more[chain.len() as int] == class);
                assert forall|x: Seq<char>| chain.contains(x) implies #[trigger] more.contains(x) by {
                    assert(more[chain.index_of(x)] == x);
                }
                lemma_lua_chain(lua, class, more, none, fuel);
                let all = widget_resolve::ancestry(styles, lua, name);
                let ends = widget_resolve::lua_chain(lua, class, more, fuel);
                assert(all == ends);
                assert(all.contains(class));
                assert forall|x: Seq<char>, p: Seq<char>|
                    (x == class || (#[trigger] all.contains(x) && !chain.contains(x)))
                        && lua_widgets::parent_in(lua, x) == Some(p) implies #[trigger] all.contains(
                    p,
                ) by {
                    if x != class && more.contains(x) {
                        let i = more.index_of(x);
                        assert(more[i] == x);
                        assert(i < chain.len());
                        assert(chain[i] == x);
                    }
                    assert(all.contains(x));
                    assert(x == class || !more.contains(x));
                    assert(ends.contains(p));
                }
            }
        },
        None => {
            assert(chain[chain.len() - 1] == chain.last());
            lemma_lua_chain(lua, chain.last(), chain, none, fuel);
        },
    }
}

} // verus!
