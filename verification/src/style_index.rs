//! The styles of a workspace: what each document declares with `Name < Base` at its top level.
//!
//! Only a header at the top level declares a style; one inside a widget is an instance. The
//! namespace is global, and two documents may declare the same name.

use crate::doc_index;
use crate::doc_index::{DocId, DocIndex, IntoDocId};
use crate::lang_api::ByteSpan;
use crate::names;
use crate::names::comes_before;
use crate::syntax;
use crate::syntax::{Stmt, StmtKind, SyntaxTree};
use crate::text;
use crate::text::{occurs_at, same_str, substr};
use vstd::prelude::*;
use vstd::string::*;

verus! {

/// An `id:` in the body of a style.
#[derive(Debug, Clone, PartialEq, Eq)]
pub struct StyleBodyId {
    /// The id.
    pub id: String,
    /// Where it stands.
    pub span: ByteSpan,
}

/// The declaration of a style.
#[derive(Debug, Clone, PartialEq, Eq)]
pub struct StyleDef {
    /// The name that is declared.
    pub name: String,
    /// The style or class that it derives from.
    pub base: Option<String>,
    /// The widget class that a `__class:` in its body puts in place of the one it derives.
    pub class: Option<String>,
    /// Where the name stands.
    pub name_span: ByteSpan,
    /// The ids that its body gives to the widget itself or to widgets in it.
    pub body_ids: Vec<StyleBodyId>,
}

/// Whether `name` is a class that the engine provides.
pub open spec fn native(name: Seq<char>) -> bool {
    text::occurs(text::bytes_of(name), 0, "UI".spec_bytes())
}

/// Whether `name` is a class that the engine provides.
pub fn is_native_base(name: &str) -> (r: bool)
    ensures
        r == native(name@),
{
    occurs_at(name.as_bytes(), 0, "UI".as_bytes())
}

// ---------------------------------------------------------------------------------------------
// Declarations in a document
// ---------------------------------------------------------------------------------------------

/// Whether a statement is a widget: a tag, or a name with its base.
pub open spec fn widget(st: Stmt) -> bool {
    st.kind == StmtKind::Container || st.kind == StmtKind::StyleHeader
}

/// Whether a statement is a widget.
pub fn is_widget(st: &Stmt) -> (r: bool)
    ensures
        r == widget(*st),
{
    st.kind == StmtKind::Container || st.kind == StmtKind::StyleHeader
}

/// Whether statement `j` lies under statement `i` with nothing but widgets between them.
pub open spec fn under(stmts: Seq<Stmt>, j: int, i: int) -> bool
    decreases j,
{
    match stmts[j].parent {
        Some(p) => p < j && (p == i || (widget(stmts[p as int]) && under(stmts, p as int, i))),
        None => false,
    }
}

/// Whether statement `j` gives an id to the widget of statement `i` or to a widget in it.
pub open spec fn gives_id(stmts: Seq<Stmt>, j: int, i: int) -> bool {
    stmts[j].kind == StmtKind::IdProperty && stmts[j].value is Some && under(stmts, j, i)
}

/// The spans of the ids that the body of statement `i` gives, among the first `k` statements.
pub open spec fn ids_upto(stmts: Seq<Stmt>, i: int, k: int) -> Seq<ByteSpan>
    decreases k,
{
    if k <= 0 {
        Seq::empty()
    } else if gives_id(stmts, k - 1, i) {
        ids_upto(stmts, i, k - 1).push(stmts[k - 1].value->0)
    } else {
        ids_upto(stmts, i, k - 1)
    }
}

/// Whether statement `j` is the property `key` of statement `i`.
pub open spec fn property_of(s: Seq<u8>, stmts: Seq<Stmt>, i: int, key: Seq<u8>, j: int) -> bool {
    stmts[j].kind == StmtKind::Property && stmts[j].parent == Some(i as usize) && syntax::cut(
        s,
        stmts[j].key,
    ) == key
}

/// The first property `key` of statement `i` at or after statement `j`.
pub open spec fn find_property(s: Seq<u8>, stmts: Seq<Stmt>, i: int, key: Seq<u8>, j: int) -> Option<
    int,
>
    decreases stmts.len() - j,
{
    if !(0 <= j < stmts.len()) {
        None
    } else if property_of(s, stmts, i, key, j) {
        Some(j)
    } else {
        find_property(s, stmts, i, key, j + 1)
    }
}

/// What `find_property` reports is a statement.
pub proof fn lemma_find_property(s: Seq<u8>, stmts: Seq<Stmt>, i: int, key: Seq<u8>, j: int)
    requires
        0 <= j,
    ensures
        find_property(s, stmts, i, key, j) matches Some(t) ==> j <= t < stmts.len()
            && property_of(s, stmts, i, key, t),
    decreases stmts.len() - j,
{
    if j < stmts.len() && !property_of(s, stmts, i, key, j) {
        lemma_find_property(s, stmts, i, key, j + 1);
    }
}

/// The value of the `__class:` of statement `i`.
pub open spec fn class_of(s: Seq<u8>, stmts: Seq<Stmt>, i: int) -> Option<Seq<u8>> {
    match find_property(s, stmts, i, "__class".spec_bytes(), 0) {
        Some(j) => match stmts[j].value {
            Some(v) => Some(syntax::cut(s, v)),
            None => None,
        },
        None => None,
    }
}

/// Whether statement `i` declares a style.
pub open spec fn declares_style(stmts: Seq<Stmt>, i: int) -> bool {
    stmts[i].kind == StmtKind::StyleHeader && stmts[i].parent is None
}

/// The text of an optional string.
pub open spec fn opt_chars(s: Option<String>) -> Option<Seq<char>> {
    match s {
        Some(t) => Some(t@),
        None => None,
    }
}

/// Whether `ids` are the ids at the given spans.
pub open spec fn are_ids(s: Seq<u8>, ids: Seq<StyleBodyId>, spans: Seq<ByteSpan>) -> bool {
    &&& ids.len() == spans.len()
    &&& forall|k: int|
        0 <= k < ids.len() ==> (#[trigger] ids[k]).span == spans[k] && ids[k].id@
            == text::chars_of(syntax::cut(s, spans[k]))
}

/// Whether `def` is what statement `i` declares.
pub open spec fn is_def(s: Seq<u8>, stmts: Seq<Stmt>, i: int, def: StyleDef) -> bool {
    &&& def.name@ == text::chars_of(syntax::cut(s, stmts[i].key))
    &&& def.name_span == stmts[i].key
    &&& opt_chars(def.base) == Some(text::chars_of(syntax::cut(s, stmts[i].value->0)))
    &&& match class_of(s, stmts, i) {
        Some(c) => opt_chars(def.class) == Some(text::chars_of(c)),
        None => def.class is None,
    }
    &&& are_ids(s, def.body_ids@, ids_upto(stmts, i, stmts.len() as int))
}

/// The statements that declare a style, among the first `k`.
pub open spec fn declarations_upto(stmts: Seq<Stmt>, k: int) -> Seq<int>
    decreases k,
{
    if k <= 0 {
        Seq::empty()
    } else if declares_style(stmts, k - 1) {
        declarations_upto(stmts, k - 1).push(k - 1)
    } else {
        declarations_upto(stmts, k - 1)
    }
}

/// Whether `defs` are the styles that the document `s` declares, in order.
pub open spec fn are_defs(s: Seq<u8>, defs: Seq<StyleDef>) -> bool {
    let stmts = syntax::stmts(s);
    let at = declarations_upto(stmts, stmts.len() as int);
    &&& defs.len() == at.len()
    &&& forall|k: int| 0 <= k < defs.len() ==> is_def(s, stmts, at[k], #[trigger] defs[k])
}

/// Whether statement `j` lies under statement `i` with nothing but widgets between them.
pub fn is_under(stmts: &[Stmt], j: usize, i: usize) -> (r: bool)
    requires
        j < stmts@.len(),
    ensures
        r == under(stmts@, j as int, i as int),
{
    let mut at: usize = j;
    loop
        invariant
            at < stmts@.len(),
            under(stmts@, at as int, i as int) == under(stmts@, j as int, i as int),
        decreases at,
    {
        match stmts[at].parent {
            Some(p) => {
                if p >= at {
                    return false;
                }
                if p == i {
                    return true;
                }
                if !is_widget(&stmts[p]) {
                    return false;
                }
                at = p;
            },
            None => {
                return false;
            },
        }
    }
}

/// The first property `key` of statement `i`.
pub fn property_named(source: &str, stmts: &[Stmt], i: usize, key: &str) -> (r: Option<usize>)
    requires
        stmts@ == syntax::stmts(source.spec_bytes()),
    ensures
        match r {
            Some(j) => find_property(
                source.spec_bytes(),
                stmts@,
                i as int,
                key.spec_bytes(),
                0,
            ) == Some(j as int) && j < stmts@.len(),
            None => find_property(
                source.spec_bytes(),
                stmts@,
                i as int,
                key.spec_bytes(),
                0,
            ) is None,
        },
{
    let ghost s = source.spec_bytes();
    let len: usize = source.as_bytes().len();
    proof {
        text::lemma_valid(source);
        syntax::lemma_stmts(s);
    }
    let mut j: usize = 0;
    while j < stmts.len()
        invariant
            s == source.spec_bytes(),
            stmts@ == syntax::stmts(s),
            forall|k: int| 0 <= k < stmts@.len() ==> syntax::stmt_ok(s, #[trigger] stmts@[k]),
            j <= stmts@.len(),
            find_property(s, stmts@, i as int, key.spec_bytes(), j as int) == find_property(
                s,
                stmts@,
                i as int,
                key.spec_bytes(),
                0,
            ),
        decreases stmts@.len() - j,
    {
        let st = &stmts[j];
        assert(syntax::stmt_ok(s, stmts@[j as int]));
        let child: bool = match st.parent {
            Some(p) => p == i,
            None => false,
        };
        if child && st.kind == StmtKind::Property && same_str(
            substr(source, st.key.start, st.key.end),
            key,
        ) {
            return Some(j);
        }
        j += 1;
    }
    None
}

/// The ids that the body of statement `i` gives.
fn collect_body_ids(source: &str, stmts: &[Stmt], i: usize) -> (ids: Vec<StyleBodyId>)
    requires
        stmts@ == syntax::stmts(source.spec_bytes()),
    ensures
        are_ids(
            source.spec_bytes(),
            ids@,
            ids_upto(stmts@, i as int, stmts@.len() as int),
        ),
{
    let ghost s = source.spec_bytes();
    let len: usize = source.as_bytes().len();
    proof {
        text::lemma_valid(source);
        syntax::lemma_stmts(s);
    }
    let mut ids: Vec<StyleBodyId> = Vec::new();
    let mut j: usize = 0;
    while j < stmts.len()
        invariant
            s == source.spec_bytes(),
            stmts@ == syntax::stmts(s),
            forall|k: int| 0 <= k < stmts@.len() ==> syntax::stmt_ok(s, #[trigger] stmts@[k]),
            j <= stmts@.len(),
            are_ids(s, ids@, ids_upto(stmts@, i as int, j as int)),
        decreases stmts@.len() - j,
    {
        let st = &stmts[j];
        assert(syntax::stmt_ok(s, stmts@[j as int]));
        if st.kind == StmtKind::IdProperty && is_under(stmts, j, i) {
            if let Some(v) = st.value {
                ids.push(StyleBodyId { id: substr(source, v.start, v.end).to_owned(), span: v });
            }
        }
        j += 1;
    }
    ids
}

/// The styles that a document declares, in order.
pub fn extract_style_defs(tree: &SyntaxTree) -> (defs: Vec<StyleDef>)
    ensures
        are_defs(tree.text(), defs@),
{
    let source = tree.source();
    let stmts = tree.statements();
    let ghost s = tree.text();
    proof {
        text::lemma_valid(source);
        syntax::lemma_stmts(s);
    }
    let mut defs: Vec<StyleDef> = Vec::new();
    let mut i: usize = 0;
    while i < stmts.len()
        invariant
            s == source.spec_bytes(),
            s.len() <= usize::MAX,
            stmts@ == syntax::stmts(s),
            forall|k: int| 0 <= k < stmts@.len() ==> syntax::stmt_ok(s, #[trigger] stmts@[k]),
            i <= stmts@.len(),
            defs@.len() == declarations_upto(stmts@, i as int).len(),
            forall|k: int|
                0 <= k < defs@.len() ==> is_def(
                    s,
                    stmts@,
                    declarations_upto(stmts@, i as int)[k],
                    #[trigger] defs@[k],
                ),
        decreases stmts@.len() - i,
    {
        let st = &stmts[i];
        assert(syntax::stmt_ok(s, stmts@[i as int]));
        if st.kind == StmtKind::StyleHeader && st.parent.is_none() {
            proof {
                syntax::lemma_header_base(s, i as int);
            }
            let base = match st.value {
                Some(v) => Some(substr(source, v.start, v.end).to_owned()),
                None => None,
            };
            let class = match property_named(source, stmts, i, "__class") {
                Some(j) => {
                    assert(syntax::stmt_ok(s, stmts@[j as int]));
                    match stmts[j].value {
                        Some(v) => Some(substr(source, v.start, v.end).to_owned()),
                        None => None,
                    }
                },
                None => None,
            };
            let def = StyleDef {
                name: substr(source, st.key.start, st.key.end).to_owned(),
                base,
                class,
                name_span: st.key,
                body_ids: collect_body_ids(source, stmts, i),
            };
            assert(is_def(s, stmts@, i as int, def));
            defs.push(def);
        }
        i += 1;
    }
    defs
}

// ---------------------------------------------------------------------------------------------
// The index
// ---------------------------------------------------------------------------------------------

/// The styles that the documents of a workspace declare.
#[derive(Debug)]
pub struct StyleIndex {
    index: DocIndex<StyleDef>,
}

/// What each document declares.
pub type StyleDocs = doc_index::DocItems<StyleDef>;

impl View for StyleIndex {
    type V = StyleDocs;

    closed spec fn view(&self) -> StyleDocs {
        self.index@
    }
}

/// The declarations of the style `name`, with their documents.
pub open spec fn named(all: Seq<(Seq<char>, StyleDef)>, name: Seq<char>) -> Seq<
    (Seq<char>, StyleDef),
> {
    all.filter(|p: (Seq<char>, StyleDef)| p.1.name@ == name)
}

/// The declarations of the styles that derive from `name`, with their documents.
pub open spec fn deriving(all: Seq<(Seq<char>, StyleDef)>, name: Seq<char>) -> Seq<
    (Seq<char>, StyleDef),
> {
    all.filter(|p: (Seq<char>, StyleDef)| opt_chars(p.1.base) == Some(name))
}

/// Whether `r` lists `all`.
pub open spec fn lists(r: Seq<(&DocId, &StyleDef)>, all: Seq<(Seq<char>, StyleDef)>) -> bool {
    &&& r.len() == all.len()
    &&& forall|i: int|
        0 <= i < r.len() ==> (#[trigger] r[i]).0@ == all[i].0 && *r[i].1 == all[i].1
}

/// The declaration of `name` that counts among the first `k`: the first one in the document that
/// comes first.
pub open spec fn picked(all: Seq<(Seq<char>, StyleDef)>, name: Seq<char>, k: int) -> Option<int>
    decreases k,
{
    if k <= 0 {
        None
    } else if all[k - 1].1.name@ != name {
        picked(all, name, k - 1)
    } else {
        match picked(all, name, k - 1) {
            Some(j) => if names::before(
                text::bytes_of(all[k - 1].0),
                text::bytes_of(all[j].0),
            ) {
                Some(k - 1)
            } else {
                Some(j)
            },
            None => Some(k - 1),
        }
    }
}

/// The declaration of the style `name` that counts.
pub open spec fn definition(docs: StyleDocs, name: Seq<char>) -> Option<StyleDef> {
    let all = doc_index::pairs(docs);
    match picked(all, name, all.len() as int) {
        Some(j) => Some(all[j].1),
        None => None,
    }
}

/// The declaration that counts declares `name`, and no document that declares it comes before its
/// own.
pub proof fn law_picked(all: Seq<(Seq<char>, StyleDef)>, name: Seq<char>, k: int)
    requires
        0 <= k <= all.len(),
    ensures
        match picked(all, name, k) {
            Some(j) => 0 <= j < k && all[j].1.name@ == name && forall|i: int|
                0 <= i < k && (#[trigger] all[i]).1.name@ == name ==> !names::before(
                    text::bytes_of(all[i].0),
                    text::bytes_of(all[j].0),
                ),
            None => forall|i: int| 0 <= i < k ==> (#[trigger] all[i]).1.name@ != name,
        },
    decreases k,
{
    if k > 0 {
        law_picked(all, name, k - 1);
        if all[k - 1].1.name@ == name {
            let new = picked(all, name, k)->0;
            let c = text::bytes_of(all[new].0);
            names::law_before_total(c, c);
            assert forall|i: int|
                0 <= i < k && (#[trigger] all[i]).1.name@ == name implies !names::before(
                text::bytes_of(all[i].0),
                c,
            ) by {
                let a = text::bytes_of(all[i].0);
                if let Some(j) = picked(all, name, k - 1) {
                    if new != j && names::before(a, c) && i < k - 1 {
                        names::law_before_transitive(a, c, text::bytes_of(all[j].0));
                    }
                }
            }
        }
    }
}

impl StyleIndex {
    /// No document is held twice.
    pub open spec fn wf(&self) -> bool {
        doc_index::distinct(self@)
    }

    /// The index without documents.
    pub fn new() -> (index: Self)
        ensures
            index@ == Seq::<(Seq<char>, Seq<StyleDef>)>::empty(),
            index.wf(),
    {
        StyleIndex { index: DocIndex::new() }
    }

    /// Sets what one document declares, in place of what it did.
    pub fn set_document<D: IntoDocId>(&mut self, doc: D, defs: Vec<StyleDef>)
        ensures
            final(self)@ == doc_index::with_document(old(self)@, doc.doc_text(), defs@),
            old(self).wf() ==> final(self).wf(),
    {
        self.index.set_document(doc, defs);
    }

    /// Drops a document and hands back what it declared.
    pub fn remove_document(&mut self, doc: &DocId) -> (r: Option<Vec<StyleDef>>)
        ensures
            final(self)@ == doc_index::without_document(old(self)@, doc@),
            match r {
                Some(defs) => doc_index::items_of(old(self)@, doc@) == Some(defs@),
                None => doc_index::items_of(old(self)@, doc@) is None,
            },
            old(self).wf() ==> final(self).wf(),
    {
        self.index.remove_document(doc)
    }

    /// Every declaration with its document.
    pub fn iter(&self) -> (r: Vec<(&DocId, &StyleDef)>)
        ensures
            lists(r@, doc_index::pairs(self@)),
    {
        self.index.pairs()
    }

    /// The declarations of the style `name`, with their documents.
    pub fn lookup(&self, name: &str) -> (r: Vec<(&DocId, &StyleDef)>)
        ensures
            lists(r@, named(doc_index::pairs(self@), name@)),
    {
        let all = self.index.pairs();
        let ghost model = doc_index::pairs(self@);
        let mut r: Vec<(&DocId, &StyleDef)> = Vec::new();
        let mut i: usize = 0;
        assert(named(model.take(0), name@) =~= Seq::empty()) by {
            reveal(Seq::filter);
        }
        while i < all.len()
            invariant
                i <= all@.len(),
                lists(all@, model),
                lists(r@, named(model.take(i as int), name@)),
            decreases all@.len() - i,
        {
            proof {
                reveal(Seq::filter);
                assert(model.take(i + 1).drop_last() =~= model.take(i as int));
                assert(model.take(i + 1).last() == model[i as int]);
            }
            let pair = all[i];
            if same_str(pair.1.name.as_str(), name) {
                r.push(pair);
            }
            i += 1;
        }
        assert(model.take(model.len() as int) =~= model);
        r
    }

    /// The declarations of the styles that derive from `name`, with their documents.
    pub fn subtypes(&self, name: &str) -> (r: Vec<(&DocId, &StyleDef)>)
        ensures
            lists(r@, deriving(doc_index::pairs(self@), name@)),
    {
        let all = self.index.pairs();
        let ghost model = doc_index::pairs(self@);
        let mut r: Vec<(&DocId, &StyleDef)> = Vec::new();
        let mut i: usize = 0;
        assert(deriving(model.take(0), name@) =~= Seq::empty()) by {
            reveal(Seq::filter);
        }
        while i < all.len()
            invariant
                i <= all@.len(),
                lists(all@, model),
                lists(r@, deriving(model.take(i as int), name@)),
            decreases all@.len() - i,
        {
            proof {
                reveal(Seq::filter);
                assert(model.take(i + 1).drop_last() =~= model.take(i as int));
                assert(model.take(i + 1).last() == model[i as int]);
            }
            let pair = all[i];
            let derives: bool = match &pair.1.base {
                Some(base) => same_str(base.as_str(), name),
                None => false,
            };
            if derives {
                r.push(pair);
            }
            i += 1;
        }
        assert(model.take(model.len() as int) =~= model);
        r
    }

    /// Whether some document declares the style `name`.
    pub fn declares(&self, name: &str) -> (r: bool)
        ensures
            r == (definition(self@, name@) is Some),
    {
        self.definition_of(name).is_some()
    }

    /// The declaration of the style `name` that counts.
    pub fn definition_of(&self, name: &str) -> (r: Option<&StyleDef>)
        ensures
            match r {
                Some(def) => definition(self@, name@) == Some(*def),
                None => definition(self@, name@) is None,
            },
    {
        let all = self.index.pairs();
        let ghost model = doc_index::pairs(self@);
        let mut best: Option<usize> = None;
        let mut i: usize = 0;
        while i < all.len()
            invariant
                i <= all@.len(),
                lists(all@, model),
                match best {
                    Some(j) => picked(model, name@, i as int) == Some(j as int) && j < i,
                    None => picked(model, name@, i as int) is None,
                },
            decreases all@.len() - i,
        {
            if same_str(all[i].1.name.as_str(), name) {
                let better: bool = match best {
                    Some(j) => comes_before(all[i].0.as_str(), all[j].0.as_str()),
                    None => true,
                };
                if better {
                    best = Some(i);
                }
            }
            i += 1;
        }
        match best {
            Some(j) => Some(all[j].1),
            None => None,
        }
    }
}

} // verus!
