//! What a widget ultimately is: the styles it derives from, the class that the engine creates, and
//! the properties that its Lua classes read.

use crate::doc_index;
use crate::lua_widgets;
use crate::lua_widgets::{LuaWidgetDef, LuaWidgetIndex};
use crate::names;
use crate::names::insert_names;
use crate::style_index;
use crate::style_index::{is_native_base, is_widget, StyleIndex};
use crate::syntax;
use crate::syntax::{Stmt, StmtKind};
use crate::text;
use crate::text::{same_str, substr};
use vstd::prelude::*;
use vstd::string::*;

verus! {

/// What a type name resolves to.
#[derive(Debug, Clone, PartialEq, Eq)]
pub struct WidgetAncestry {
    /// The name itself, the styles and classes behind it and the Lua parents behind those, each once.
    pub chain: Vec<String>,
    /// The class that the engine creates.
    pub native: Option<String>,
}

/// The texts of a list.
pub open spec fn texts(names: Seq<String>) -> Seq<Seq<char>> {
    names.map_values(|s: String| s@)
}

/// The name and the bases behind it, up to a native class, a name without a declaration or one that
/// was `seen`; at most `fuel` of them.
pub open spec fn style_chain(
    docs: style_index::StyleDocs,
    name: Seq<char>,
    seen: Seq<Seq<char>>,
    fuel: nat,
) -> Seq<Seq<char>>
    decreases fuel,
{
    if fuel == 0 || seen.contains(name) {
        seen
    } else if style_index::native(name) {
        seen.push(name)
    } else {
        match style_index::definition(docs, name) {
            Some(def) => match def.base {
                Some(base) => style_chain(docs, base@, seen.push(name), (fuel - 1) as nat),
                None => seen.push(name),
            },
            None => seen.push(name),
        }
    }
}

/// The class that the declarations of the first `k` names of the chain put in place of the one they
/// derive; the first one counts.
pub open spec fn class_override(
    docs: style_index::StyleDocs,
    chain: Seq<Seq<char>>,
    i: int,
) -> Option<Seq<char>>
    decreases chain.len() - i,
{
    if !(0 <= i < chain.len()) || style_index::native(chain[i]) {
        None
    } else {
        match style_index::definition(docs, chain[i]) {
            Some(def) => match def.class {
                Some(c) => Some(c@),
                None => class_override(docs, chain, i + 1),
            },
            None => None,
        }
    }
}

/// The class that the engine creates for the chain.
pub open spec fn native_class(docs: style_index::StyleDocs, chain: Seq<Seq<char>>) -> Option<
    Seq<char>,
> {
    match class_override(docs, chain, 0) {
        Some(c) => Some(c),
        None => if chain.len() > 0 && style_index::native(chain.last()) {
            Some(chain.last())
        } else {
            None
        },
    }
}

/// The chain with the Lua parents of `name` behind it, up to one that it holds already; at most
/// `fuel` of them.
pub open spec fn lua_chain(
    docs: doc_index::DocItems<LuaWidgetDef>,
    name: Seq<char>,
    seen: Seq<Seq<char>>,
    fuel: nat,
) -> Seq<Seq<char>>
    decreases fuel,
{
    if fuel == 0 {
        seen
    } else {
        match lua_widgets::parent_in(docs, name) {
            Some(parent) => if seen.contains(parent) {
                seen
            } else {
                lua_chain(docs, parent, seen.push(parent), (fuel - 1) as nat)
            },
            None => seen,
        }
    }
}

/// The styles behind a type name.
pub open spec fn styles_behind(styles: style_index::StyleDocs, name: Seq<char>) -> Seq<Seq<char>> {
    style_chain(styles, name, Seq::empty(), doc_index::pairs(styles).len() + 1)
}

/// The class that the engine creates for a type name.
pub open spec fn native_of(styles: style_index::StyleDocs, name: Seq<char>) -> Option<Seq<char>> {
    native_class(styles, styles_behind(styles, name))
}

/// Everything behind a type name.
pub open spec fn ancestry(
    styles: style_index::StyleDocs,
    lua: doc_index::DocItems<LuaWidgetDef>,
    name: Seq<char>,
) -> Seq<Seq<char>> {
    let chain = styles_behind(styles, name);
    let fuel = doc_index::pairs(lua).len() + 1;
    match native_of(styles, name) {
        Some(class) => lua_chain(
            lua,
            class,
            if chain.contains(class) {
                chain
            } else {
                chain.push(class)
            },
            fuel,
        ),
        None => if chain.len() > 0 {
            lua_chain(lua, chain.last(), chain, fuel)
        } else {
            chain
        },
    }
}

/// Whether one of the first `k` names of the chain reads the property `prop` in Lua.
pub open spec fn reads_upto(
    lua: doc_index::DocItems<LuaWidgetDef>,
    chain: Seq<Seq<char>>,
    prop: Seq<u8>,
    k: int,
) -> bool {
    exists|i: int|
        0 <= i < k && #[trigger] lua_widgets::declares_in(lua, chain[i], prop)
}

/// Whether some name of the chain reads the property `prop` in Lua.
pub open spec fn reads(
    lua: doc_index::DocItems<LuaWidgetDef>,
    chain: Seq<Seq<char>>,
    prop: Seq<u8>,
) -> bool {
    reads_upto(lua, chain, prop, chain.len() as int)
}

/// The properties that the names of the chain read in Lua.
pub open spec fn properties_read(
    lua: doc_index::DocItems<LuaWidgetDef>,
    chain: Seq<Seq<char>>,
) -> Set<Seq<u8>> {
    Set::new(|prop: Seq<u8>| reads(lua, chain, prop))
}

/// Whether no name occurs twice.
pub open spec fn no_repeats(chain: Seq<Seq<char>>) -> bool {
    forall|i: int, j: int|
        #![trigger chain[i], chain[j]]
        0 <= i < j < chain.len() ==> chain[i] != chain[j]
}

proof fn lemma_push_new(chain: Seq<Seq<char>>, name: Seq<char>)
    requires
        no_repeats(chain),
        !chain.contains(name),
    ensures
        no_repeats(chain.push(name)),
{
    let new = chain.push(name);
    assert forall|i: int, j: int| #![trigger new[i], new[j]] 0 <= i < j < new.len() implies new[i]
        != new[j] by {
        assert(new[i] == chain[i]);
        if j < chain.len() {
            assert(new[j] == chain[j]);
        } else {
            assert(chain.contains(chain[i]));
        }
    }
}

proof fn lemma_style_chain(
    docs: style_index::StyleDocs,
    name: Seq<char>,
    seen: Seq<Seq<char>>,
    fuel: nat,
)
    requires
        no_repeats(seen),
    ensures
        no_repeats(style_chain(docs, name, seen, fuel)),
    decreases fuel,
{
    if fuel > 0 && !seen.contains(name) {
        lemma_push_new(seen, name);
        if !style_index::native(name) {
            if let Some(def) = style_index::definition(docs, name) {
                if let Some(base) = def.base {
                    lemma_style_chain(docs, base@, seen.push(name), (fuel - 1) as nat);
                }
            }
        }
    }
}

proof fn lemma_lua_chain(
    docs: doc_index::DocItems<LuaWidgetDef>,
    name: Seq<char>,
    seen: Seq<Seq<char>>,
    fuel: nat,
)
    requires
        no_repeats(seen),
    ensures
        no_repeats(lua_chain(docs, name, seen, fuel)),
    decreases fuel,
{
    if fuel > 0 {
        if let Some(parent) = lua_widgets::parent_in(docs, name) {
            if !seen.contains(parent) {
                lemma_push_new(seen, parent);
                lemma_lua_chain(docs, parent, seen.push(parent), (fuel - 1) as nat);
            }
        }
    }
}

/// A cycle among the bases or the Lua parents does not repeat: every name stands once in an
/// ancestry.
pub proof fn law_ancestry_has_no_repeats(
    styles: style_index::StyleDocs,
    lua: doc_index::DocItems<LuaWidgetDef>,
    name: Seq<char>,
)
    ensures
        no_repeats(ancestry(styles, lua, name)),
{
    let chain = styles_behind(styles, name);
    let fuel = doc_index::pairs(lua).len() + 1;
    lemma_style_chain(styles, name, Seq::empty(), doc_index::pairs(styles).len() + 1);
    match native_of(styles, name) {
        Some(class) => {
            if chain.contains(class) {
                lemma_lua_chain(lua, class, chain, fuel);
            } else {
                lemma_push_new(chain, class);
                lemma_lua_chain(lua, class, chain.push(class), fuel);
            }
        },
        None => {
            if chain.len() > 0 {
                lemma_lua_chain(lua, chain.last(), chain, fuel);
            }
        },
    }
}

/// A name is the first of its own ancestry.
pub proof fn law_ancestry_starts_with_name(
    styles: style_index::StyleDocs,
    lua: doc_index::DocItems<LuaWidgetDef>,
    name: Seq<char>,
)
    ensures
        ancestry(styles, lua, name).len() > 0,
        ancestry(styles, lua, name)[0] == name,
{
    let chain = styles_behind(styles, name);
    let fuel = doc_index::pairs(lua).len() + 1;
    let start = Seq::<Seq<char>>::empty().push(name);
    lemma_style_chain_grows(styles, name, Seq::empty(), doc_index::pairs(styles).len() + 1);
    if !style_index::native(name) {
        if let Some(def) = style_index::definition(styles, name) {
            if let Some(base) = def.base {
                lemma_style_chain_grows(
                    styles,
                    base@,
                    start,
                    doc_index::pairs(styles).len(),
                );
            }
        }
    }
    assert(chain.len() > 0 && chain[0] == name);
    match native_of(styles, name) {
        Some(class) => {
            lemma_lua_chain_grows(
                lua,
                class,
                if chain.contains(class) {
                    chain
                } else {
                    chain.push(class)
                },
                fuel,
            );
        },
        None => {
            lemma_lua_chain_grows(lua, chain.last(), chain, fuel);
        },
    }
}

proof fn lemma_style_chain_grows(
    docs: style_index::StyleDocs,
    name: Seq<char>,
    seen: Seq<Seq<char>>,
    fuel: nat,
)
    ensures
        seen.len() <= style_chain(docs, name, seen, fuel).len(),
        forall|i: int|
            0 <= i < seen.len() ==> #[trigger] style_chain(docs, name, seen, fuel)[i] == seen[i],
    decreases fuel,
{
    if fuel > 0 && !seen.contains(name) && !style_index::native(name) {
        if let Some(def) = style_index::definition(docs, name) {
            if let Some(base) = def.base {
                lemma_style_chain_grows(docs, base@, seen.push(name), (fuel - 1) as nat);
                let r = style_chain(docs, name, seen, fuel);
                assert forall|i: int| 0 <= i < seen.len() implies #[trigger] r[i] == seen[i] by {
                    assert(seen.push(name)[i] == seen[i]);
                }
            }
        }
    }
}

proof fn lemma_lua_chain_grows(
    docs: doc_index::DocItems<LuaWidgetDef>,
    name: Seq<char>,
    seen: Seq<Seq<char>>,
    fuel: nat,
)
    ensures
        seen.len() <= lua_chain(docs, name, seen, fuel).len(),
        forall|i: int|
            0 <= i < seen.len() ==> #[trigger] lua_chain(docs, name, seen, fuel)[i] == seen[i],
    decreases fuel,
{
    if fuel > 0 {
        if let Some(parent) = lua_widgets::parent_in(docs, name) {
            if !seen.contains(parent) {
                lemma_lua_chain_grows(docs, parent, seen.push(parent), (fuel - 1) as nat);
                let r = lua_chain(docs, name, seen, fuel);
                assert forall|i: int| 0 <= i < seen.len() implies #[trigger] r[i] == seen[i] by {
                    assert(seen.push(parent)[i] == seen[i]);
                }
            }
        }
    }
}

/// Whether `name` is in the list.
pub fn contains_text(names: &[String], name: &str) -> (r: bool)
    ensures
        r == texts(names@).contains(name@),
{
    let ghost all = texts(names@);
    let mut i: usize = 0;
    while i < names.len()
        invariant
            i <= names@.len(),
            all == texts(names@),
            forall|k: int| 0 <= k < i ==> #[trigger] all[k] != name@,
        decreases names@.len() - i,
    {
        assert(all[i as int] == names@[i as int]@);
        if same_str(names[i].as_str(), name) {
            assert(all.contains(name@));
            return true;
        }
        i += 1;
    }
    false
}

fn push_text(names: &mut Vec<String>, name: &str)
    ensures
        texts(final(names)@) == texts(old(names)@).push(name@),
{
    let ghost before = names@;
    let owned = name.to_owned();
    let ghost o = owned;
    names.push(owned);
    assert(texts(names@) =~= texts(before).push(o@));
}

/// The name and the bases behind it.
fn collect_styles(name: &str, styles: &StyleIndex) -> (chain: Vec<String>)
    ensures
        texts(chain@) == styles_behind(styles@, name@),
{
    let ghost docs = styles@;
    let mut chain: Vec<String> = Vec::new();
    let mut at: String = name.to_owned();
    let count: usize = styles.iter().len();
    let ghost whole = styles_behind(docs, name@);
    let mut more: bool = true;
    let mut last: bool = false;
    let mut fuel: usize = count;
    assert(texts(chain@) =~= Seq::empty());
    // One unit of fuel is kept aside in `last`, so that `count + 1` need not fit the counter.
    while more
        invariant
            docs == styles@,
            last ==> fuel == 0,
            more ==> style_chain(
                docs,
                at@,
                texts(chain@),
                (if last { 0 } else { fuel + 1 }) as nat,
            ) == whole,
            !more ==> texts(chain@) == whole,
        decreases (if more { 1int } else { 0int }), fuel, (if last { 0int } else { 1int }),
    {
        if last || contains_text(chain.as_slice(), at.as_str()) {
            more = false;
        } else if is_native_base(at.as_str()) {
            push_text(&mut chain, at.as_str());
            more = false;
        } else {
            let found = styles.definition_of(at.as_str());
            push_text(&mut chain, at.as_str());
            match found {
                Some(def) => {
                    match &def.base {
                        Some(base) => {
                            let next = base.as_str().to_owned();
                            if fuel == 0 {
                                last = true;
                            } else {
                                fuel -= 1;
                            }
                            at = next;
                        },
                        None => {
                            more = false;
                        },
                    }
                },
                None => {
                    more = false;
                },
            }
        }
    }
    chain
}

/// The class that a declaration in the chain puts in place of the one it derives.
fn find_override(chain: &[String], styles: &StyleIndex) -> (r: Option<String>)
    ensures
        style_index::opt_chars(r) == class_override(styles@, texts(chain@), 0),
{
    let ghost all = texts(chain@);
    let mut i: usize = 0;
    while i < chain.len()
        invariant
            i <= chain@.len(),
            all == texts(chain@),
            class_override(styles@, all, i as int) == class_override(styles@, all, 0),
        decreases chain@.len() - i,
    {
        assert(all[i as int] == chain@[i as int]@);
        if is_native_base(chain[i].as_str()) {
            return None;
        }
        match styles.definition_of(chain[i].as_str()) {
            Some(def) => {
                if let Some(class) = &def.class {
                    return Some(class.as_str().to_owned());
                }
            },
            None => {
                return None;
            },
        }
        i += 1;
    }
    None
}

/// Appends the Lua parents of `name`.
fn collect_parents(name: &str, lua: &LuaWidgetIndex, chain: &mut Vec<String>)
    ensures
        texts(final(chain)@) == lua_chain(
            lua@,
            name@,
            texts(old(chain)@),
            doc_index::pairs(lua@).len() + 1,
        ),
{
    let ghost docs = lua@;
    let mut at: String = name.to_owned();
    let mut fuel: usize = lua.iter().len();
    let ghost whole = lua_chain(docs, name@, texts(chain@), doc_index::pairs(docs).len() + 1);
    let mut more: bool = true;
    let mut last: bool = false;
    while more
        invariant
            docs == lua@,
            last ==> fuel == 0,
            more ==> lua_chain(
                docs,
                at@,
                texts(chain@),
                (if last { 0 } else { fuel + 1 }) as nat,
            ) == whole,
            !more ==> texts(chain@) == whole,
        decreases (if more { 1int } else { 0int }), fuel, (if last { 0int } else { 1int }),
    {
        if last {
            more = false;
        } else {
            match lua.parent_of(at.as_str()) {
                Some(parent) => {
                    if contains_text(chain.as_slice(), parent) {
                        more = false;
                    } else {
                        push_text(chain, parent);
                        at = parent.to_owned();
                        if fuel == 0 {
                            last = true;
                        } else {
                            fuel -= 1;
                        }
                    }
                },
                None => {
                    more = false;
                },
            }
        }
    }
}

/// Resolves a type name against the styles and Lua classes of a workspace.
pub fn resolve_ancestry(name: &str, styles: &StyleIndex, lua: &LuaWidgetIndex) -> (r: WidgetAncestry)
    ensures
        texts(r.chain@) == ancestry(styles@, lua@, name@),
        style_index::opt_chars(r.native) == native_of(styles@, name@),
{
    let mut chain = collect_styles(name, styles);
    let ghost behind = texts(chain@);
    let mut native: Option<String> = find_override(chain.as_slice(), styles);
    if native.is_none() && chain.len() > 0 {
        let last = &chain[chain.len() - 1];
        assert(behind.last() == last@);
        if is_native_base(last.as_str()) {
            native = Some(last.as_str().to_owned());
        }
    }
    match &native {
        Some(class) => {
            if !contains_text(chain.as_slice(), class.as_str()) {
                push_text(&mut chain, class.as_str());
            }
            collect_parents(class.as_str(), lua, &mut chain);
        },
        None => {
            if chain.len() > 0 {
                let last = chain[chain.len() - 1].as_str().to_owned();
                assert(behind.last() == last@);
                collect_parents(last.as_str(), lua, &mut chain);
            }
        },
    }
    WidgetAncestry { chain, native }
}

impl WidgetAncestry {
    /// Whether one of the names reads the property `prop` in Lua.
    pub fn declares_custom_property(&self, lua: &LuaWidgetIndex, prop: &str) -> (r: bool)
        ensures
            r == reads(lua@, texts(self.chain@), prop.spec_bytes()),
    {
        let ghost all = texts(self.chain@);
        let mut i: usize = 0;
        while i < self.chain.len()
            invariant
                i <= self.chain@.len(),
                all == texts(self.chain@),
                forall|k: int|
                    0 <= k < i ==> !#[trigger] lua_widgets::declares_in(
                        lua@,
                        all[k],
                        prop.spec_bytes(),
                    ),
            decreases self.chain@.len() - i,
        {
            assert(all[i as int] == self.chain@[i as int]@);
            if lua.declares(self.chain[i].as_str(), prop) {
                assert(lua_widgets::declares_in(lua@, all[i as int], prop.spec_bytes()));
                return true;
            }
            i += 1;
        }
        false
    }

    /// The properties that the names read in Lua, in ascending order, each once.
    ///
    /// What a class of the engine reads in its own code is not among them: only the properties that
    /// every widget reads are on record here, in the catalog.
    pub fn custom_properties(&self, lua: &LuaWidgetIndex) -> (props: Vec<String>)
        ensures
            names::ascending(names::spelled(props@)),
            names::name_set(props@) == properties_read(lua@, texts(self.chain@)),
    {
        let ghost all = texts(self.chain@);
        let mut props: Vec<String> = Vec::new();
        assert(names::spelled(props@) =~= Seq::empty());
        let mut i: usize = 0;
        while i < self.chain.len()
            invariant
                i <= self.chain@.len(),
                all == texts(self.chain@),
                names::ascending(names::spelled(props@)),
                forall|p: Seq<u8>|
                    names::name_set(props@).contains(p) == #[trigger] reads_upto(
                        lua@,
                        all,
                        p,
                        i as int,
                    ),
            decreases self.chain@.len() - i,
        {
            assert(all[i as int] == self.chain@[i as int]@);
            let defs = lua.iter();
            let ghost model = lua_widgets::all_defs(lua@);
            let ghost had = names::name_set(props@);
            let mut k: usize = 0;
            while k < defs.len()
                invariant
                    k <= defs@.len(),
                    i < self.chain@.len(),
                    all == texts(self.chain@),
                    model == lua_widgets::all_defs(lua@),
                    defs@.len() == model.len(),
                    forall|j: int| 0 <= j < defs@.len() ==> *(#[trigger] defs@[j]) == model[j],
                    names::ascending(names::spelled(props@)),
                    forall|p: Seq<u8>| #[trigger]
                        names::name_set(props@).contains(p) == (had.contains(p) || exists|j: int|
                            0 <= j < k && (#[trigger] model[j]).name@ == all[i as int]
                                && names::name_set(model[j].custom_props@).contains(p)),
                decreases defs@.len() - k,
            {
                assert(all[i as int] == self.chain@[i as int]@);
                let ghost before = names::name_set(props@);
                if same_str(defs[k].name.as_str(), self.chain[i].as_str()) {
                    insert_names(&mut props, defs[k].custom_props.as_slice());
                    proof {
                        let now = names::name_set(props@);
                        assert forall|p: Seq<u8>| #[trigger] now.contains(p) == (had.contains(p)
                            || exists|j: int|
                            0 <= j < k + 1 && (#[trigger] model[j]).name@ == all[i as int]
                                && names::name_set(model[j].custom_props@).contains(p)) by {
                            assert(now.contains(p) == (before.contains(p) || names::name_set(
                                model[k as int].custom_props@,
                            ).contains(p)));
                        }
                    }
                } else {
                    proof {
                        assert forall|p: Seq<u8>| #[trigger] before.contains(p) == (had.contains(p)
                            || exists|j: int|
                            0 <= j < k + 1 && (#[trigger] model[j]).name@ == all[i as int]
                                && names::name_set(model[j].custom_props@).contains(p)) by {}
                    }
                }
                k += 1;
            }
            proof {
                let now = names::name_set(props@);
                assert forall|p: Seq<u8>| now.contains(p) == #[trigger] reads_upto(
                    lua@,
                    all,
                    p,
                    i + 1,
                ) by {
                    let here = lua_widgets::declares_in(lua@, all[i as int], p);
                    assert(now.contains(p) == (had.contains(p) || here));
                    assert(had.contains(p) == reads_upto(lua@, all, p, i as int));
                    if reads_upto(lua@, all, p, i + 1) && !here {
                        let j = choose|j: int|
                            0 <= j < i + 1 && #[trigger] lua_widgets::declares_in(lua@, all[j], p);
                        assert(lua_widgets::declares_in(lua@, all[j], p));
                    }
                }
            }
            i += 1;
        }
        proof {
            assert forall|p: Seq<u8>| names::name_set(props@).contains(p) == properties_read(
                lua@,
                all,
            ).contains(p) by {
                assert(reads_upto(lua@, all, p, all.len() as int) == names::name_set(
                    props@,
                ).contains(p));
            }
            assert(names::name_set(props@) =~= properties_read(lua@, all));
        }
        props
    }
}

// ---------------------------------------------------------------------------------------------
// The widget around a place in a document
// ---------------------------------------------------------------------------------------------

/// The type of a widget: the tag, or the base.
pub open spec fn type_of(s: Seq<u8>, st: Stmt) -> Seq<u8> {
    if st.kind == StmtKind::StyleHeader {
        syntax::cut(s, st.value->0)
    } else {
        syntax::cut(s, st.key)
    }
}

/// The widget at statement `i`, or the nearest one above it, that starts before offset `limit`.
pub open spec fn widget_at(stmts: Seq<Stmt>, i: int, limit: int) -> Option<int>
    decreases i,
{
    if !(0 <= i < stmts.len()) {
        None
    } else if style_index::widget(stmts[i]) && stmts[i].span.start < limit {
        Some(i)
    } else {
        match stmts[i].parent {
            Some(p) => if p < i {
                widget_at(stmts, p as int, limit)
            } else {
                None
            },
            None => None,
        }
    }
}

/// The widget at statement `i`, or the nearest one above it, that starts before `limit`.
pub fn find_widget_at(stmts: &[Stmt], i: usize, limit: usize) -> (r: Option<usize>)
    requires
        i < stmts@.len(),
    ensures
        match r {
            Some(j) => widget_at(stmts@, i as int, limit as int) == Some(j as int) && j <= i
                && style_index::widget(stmts@[j as int]),
            None => widget_at(stmts@, i as int, limit as int) is None,
        },
{
    let mut at: usize = i;
    loop
        invariant
            at <= i < stmts@.len(),
            widget_at(stmts@, at as int, limit as int) == widget_at(
                stmts@,
                i as int,
                limit as int,
            ),
        decreases at,
    {
        if is_widget(&stmts[at]) && stmts[at].span.start < limit {
            return Some(at);
        }
        match stmts[at].parent {
            Some(p) => {
                if p >= at {
                    return None;
                }
                at = p;
            },
            None => {
                return None;
            },
        }
    }
}

/// The type of the widget at statement `i`.
pub fn widget_type(source: &str, stmts: &[Stmt], i: usize) -> (r: String)
    requires
        stmts@ == syntax::stmts(source.spec_bytes()),
        i < stmts@.len(),
        style_index::widget(stmts@[i as int]),
    ensures
        r@ == text::chars_of(type_of(source.spec_bytes(), stmts@[i as int])),
{
    let len: usize = source.as_bytes().len();
    proof {
        text::lemma_valid(source);
        syntax::lemma_stmts(source.spec_bytes());
        syntax::lemma_header_base(source.spec_bytes(), i as int);
        assert(syntax::stmt_ok(source.spec_bytes(), stmts@[i as int]));
    }
    let st = &stmts[i];
    if st.kind == StmtKind::StyleHeader {
        if let Some(v) = st.value {
            return substr(source, v.start, v.end).to_owned();
        }
    }
    substr(source, st.key.start, st.key.end).to_owned()
}

} // verus!
