//! What the documents of a workspace contribute, document by document.

use crate::text;
use vstd::prelude::*;
use vstd::string::*;

verus! {

/// The opaque identity of a document.
#[derive(Debug, Clone, PartialEq, Eq)]
pub struct DocId {
    text: String,
}

impl View for DocId {
    type V = Seq<char>;

    closed spec fn view(&self) -> Seq<char> {
        self.text@
    }
}

/// What names a document: its identity, or the text of it.
pub trait IntoDocId: Sized {
    /// The text of the identity.
    spec fn doc_text(&self) -> Seq<char>;

    /// The identity.
    fn into_doc_id(self) -> (doc: DocId)
        ensures
            doc@ == self.doc_text(),
    ;
}

impl IntoDocId for DocId {
    open spec fn doc_text(&self) -> Seq<char> {
        self@
    }

    fn into_doc_id(self) -> (doc: DocId) {
        self
    }
}

impl<'a> IntoDocId for &'a str {
    open spec fn doc_text(&self) -> Seq<char> {
        self@
    }

    fn into_doc_id(self) -> (doc: DocId) {
        DocId { text: self.to_owned() }
    }
}

impl IntoDocId for String {
    open spec fn doc_text(&self) -> Seq<char> {
        self@
    }

    fn into_doc_id(self) -> (doc: DocId) {
        DocId { text: self }
    }
}

impl DocId {
    /// The identity with the given text.
    pub fn new<D: IntoDocId>(text: D) -> (doc: DocId)
        ensures
            doc@ == text.doc_text(),
    {
        text.into_doc_id()
    }

    /// The text of the identity.
    pub fn as_str(&self) -> (r: &str)
        ensures
            r@ == self@,
    {
        self.text.as_str()
    }

    /// Another handle on the same identity.
    pub fn duplicate(&self) -> (doc: DocId)
        ensures
            doc@ == self@,
    {
        DocId { text: self.text.clone() }
    }
}

/// What each document contributes, as a list of documents with their items.
pub type DocItems<T> = Seq<(Seq<char>, Seq<T>)>;

/// No document is listed twice.
pub open spec fn distinct<T>(docs: DocItems<T>) -> bool {
    forall|i: int, j: int|
        #![trigger docs[i], docs[j]]
        0 <= i < j < docs.len() ==> docs[i].0 != docs[j].0
}

/// The position of document `doc` in the list.
pub open spec fn position<T>(docs: DocItems<T>, doc: Seq<char>) -> Option<int>
    decreases docs.len(),
{
    if docs.len() == 0 {
        None
    } else if docs.last().0 == doc {
        Some(docs.len() - 1)
    } else {
        position(docs.drop_last(), doc)
    }
}

/// The list with the items of `doc` replaced, or with `doc` appended when it was not listed.
pub open spec fn with_document<T>(docs: DocItems<T>, doc: Seq<char>, items: Seq<T>) -> DocItems<
    T,
> {
    match position(docs, doc) {
        Some(i) => docs.update(i, (doc, items)),
        None => docs.push((doc, items)),
    }
}

/// The list without `doc`.
pub open spec fn without_document<T>(docs: DocItems<T>, doc: Seq<char>) -> DocItems<T> {
    match position(docs, doc) {
        Some(i) => docs.remove(i),
        None => docs,
    }
}

/// The items of `doc`, when it is listed.
pub open spec fn items_of<T>(docs: DocItems<T>, doc: Seq<char>) -> Option<Seq<T>> {
    match position(docs, doc) {
        Some(i) => Some(docs[i].1),
        None => None,
    }
}

/// Every item with its document, in the order of the list.
pub open spec fn pairs<T>(docs: DocItems<T>) -> Seq<(Seq<char>, T)>
    decreases docs.len(),
{
    if docs.len() == 0 {
        Seq::empty()
    } else {
        pairs(docs.drop_last()) + docs.last().1.map_values(|x: T| (docs.last().0, x))
    }
}

/// A position that `position` reports holds the document; where it reports none, no entry does.
pub proof fn lemma_position<T>(docs: DocItems<T>, doc: Seq<char>)
    ensures
        position(docs, doc) matches Some(i) ==> 0 <= i < docs.len() && docs[i].0 == doc,
        position(docs, doc) is None ==> forall|i: int|
            0 <= i < docs.len() ==> (#[trigger] docs[i]).0 != doc,
    decreases docs.len(),
{
    if docs.len() > 0 && docs.last().0 != doc {
        lemma_position(docs.drop_last(), doc);
        assert forall|i: int| position(docs, doc) is None && 0 <= i < docs.len() implies (
        #[trigger] docs[i]).0 != doc by {
            if i < docs.len() - 1 {
                assert(docs.drop_last()[i] == docs[i]);
            }
        }
    }
}

/// In a list without repetition the position of a listed document is the one where it stands.
proof fn lemma_position_of<T>(docs: DocItems<T>, i: int)
    requires
        distinct(docs),
        0 <= i < docs.len(),
    ensures
        position(docs, docs[i].0) == Some(i),
{
    lemma_position(docs, docs[i].0);
    let k = position(docs, docs[i].0)->0;
    if k < i {
        assert(docs[k].0 != docs[i].0);
    } else if i < k {
        assert(docs[i].0 != docs[k].0);
    }
}

/// Replacing the items of a document keeps the list free of repetition, gives those items back for
/// that document and leaves every other document as it was.
pub proof fn law_set_then_get<T>(docs: DocItems<T>, doc: Seq<char>, items: Seq<T>, other: Seq<char>)
    requires
        distinct(docs),
    ensures
        distinct(with_document(docs, doc, items)),
        items_of(with_document(docs, doc, items), doc) == Some(items),
        other != doc ==> items_of(with_document(docs, doc, items), other) == items_of(docs, other),
{
    let new = with_document(docs, doc, items);
    lemma_position(docs, doc);
    lemma_position(docs, other);
    lemma_position(new, doc);
    lemma_position(new, other);
    match position(docs, doc) {
        Some(i) => {
            assert(new[i].0 == doc);
            lemma_position_of(new, i);
            if other != doc && position(docs, other) is Some {
                let k = position(docs, other)->0;
                assert(new[k] == docs[k]);
                lemma_position_of(new, k);
            }
            if other != doc && position(new, other) is Some {
                let k = position(new, other)->0;
                assert(new[k] == docs[k]);
            }
        },
        None => {
            assert forall|i: int, j: int| #![trigger new[i], new[j]]
                0 <= i < j < new.len() implies new[i].0 != new[j].0 by {
                if j < docs.len() {
                    assert(new[j] == docs[j]);
                }
                assert(new[i] == docs[i]);
            }
            lemma_position_of(new, docs.len() as int);
            if other != doc && position(docs, other) is Some {
                let k = position(docs, other)->0;
                assert(new[k] == docs[k]);
                lemma_position_of(new, k);
            }
            if other != doc && position(new, other) is Some {
                let k = position(new, other)->0;
                assert(new[k] == docs[k]);
            }
        },
    }
}

/// Removing a document keeps the list free of repetition, leaves nothing of that document and
/// leaves every other document as it was.
pub proof fn law_remove_then_get<T>(docs: DocItems<T>, doc: Seq<char>, other: Seq<char>)
    requires
        distinct(docs),
    ensures
        distinct(without_document(docs, doc)),
        items_of(without_document(docs, doc), doc) is None,
        other != doc ==> items_of(without_document(docs, doc), other) == items_of(docs, other),
{
    let new = without_document(docs, doc);
    lemma_position(docs, doc);
    lemma_position(docs, other);
    if let Some(i) = position(docs, doc) {
        assert forall|k: int| 0 <= k < new.len() implies #[trigger] new[k] == docs[if k < i {
            k
        } else {
            k + 1
        }] by {}
        assert forall|a: int, b: int| #![trigger new[a], new[b]] 0 <= a < b < new.len() implies new[a].0
            != new[b].0 by {
            let x = if a < i { a } else { a + 1 };
            let y = if b < i { b } else { b + 1 };
            assert(docs[x].0 != docs[y].0);
        }
        lemma_position(new, doc);
        if let Some(k) = position(new, doc) {
            let x = if k < i { k } else { k + 1 };
            assert(new[k] == docs[x]);
            lemma_position_of(docs, x);
        }
        lemma_position(new, other);
        if other != doc {
            if let Some(k) = position(docs, other) {
                let x = if k < i { k } else { k - 1 };
                assert(new[x] == docs[k]);
                lemma_position_of(new, x);
            }
            if let Some(k) = position(new, other) {
                let x = if k < i { k } else { k + 1 };
                assert(new[k] == docs[x]);
            }
        }
    }
}

/// What each document of a workspace contributes; no document is held twice.
#[derive(Debug)]
pub struct DocIndex<T> {
    docs: Vec<(DocId, Vec<T>)>,
}

/// The model of one entry.
pub open spec fn entry_view<T>(entry: (DocId, Vec<T>)) -> (Seq<char>, Seq<T>) {
    (entry.0@, entry.1@)
}

impl<T> View for DocIndex<T> {
    type V = DocItems<T>;

    closed spec fn view(&self) -> DocItems<T> {
        self.docs@.map_values(|e: (DocId, Vec<T>)| entry_view(e))
    }
}

impl<T> DocIndex<T> {
    /// No document is held twice.
    pub open spec fn wf(&self) -> bool {
        distinct(self@)
    }

    /// The index without documents.
    pub fn new() -> (index: Self)
        ensures
            index@ == Seq::<(Seq<char>, Seq<T>)>::empty(),
            index.wf(),
    {
        let index = DocIndex { docs: Vec::new() };
        assert(index@ =~= Seq::<(Seq<char>, Seq<T>)>::empty());
        index
    }

    /// The position of `doc`.
    fn find(&self, doc: &DocId) -> (r: Option<usize>)
        ensures
            match r {
                Some(i) => position(self@, doc@) == Some(i as int) && i < self.docs@.len(),
                None => position(self@, doc@) is None,
            },
    {
        let mut i: usize = self.docs.len();
        assert(self@.take(self@.len() as int) =~= self@);
        while i > 0
            invariant
                i <= self.docs@.len(),
                self.docs@.len() == self@.len(),
                position(self@, doc@) == position(self@.take(i as int), doc@),
            decreases i,
        {
            i -= 1;
            assert(self@.take(i + 1).last() == entry_view(self.docs@[i as int]));
            if text::same_str(self.docs[i].0.as_str(), doc.as_str()) {
                return Some(i);
            }
            assert(self@.take(i + 1).drop_last() =~= self@.take(i as int));
        }
        None
    }

    /// Sets what `doc` contributes.
    pub fn set_document<D: IntoDocId>(&mut self, doc: D, items: Vec<T>)
        ensures
            final(self)@ == with_document(old(self)@, doc.doc_text(), items@),
            old(self).wf() ==> final(self).wf(),
    {
        let ghost before = self@;
        let doc = doc.into_doc_id();
        proof {
            if self.wf() {
                law_set_then_get(self@, doc@, items@, doc@);
            }
        }
        match self.find(&doc) {
            Some(i) => {
                let ghost entry = (doc@, items@);
                self.docs[i] = (doc, items);
                assert(self@ =~= before.update(i as int, entry));
            },
            None => {
                let ghost entry = (doc@, items@);
                self.docs.push((doc, items));
                assert(self@ =~= before.push(entry));
            },
        }
    }

    /// Drops `doc` and hands back what it contributed.
    pub fn remove_document(&mut self, doc: &DocId) -> (r: Option<Vec<T>>)
        ensures
            final(self)@ == without_document(old(self)@, doc@),
            match r {
                Some(items) => items_of(old(self)@, doc@) == Some(items@),
                None => items_of(old(self)@, doc@) is None,
            },
            old(self).wf() ==> final(self).wf(),
    {
        let ghost before = self@;
        proof {
            if self.wf() {
                law_remove_then_get(self@, doc@, doc@);
            }
        }
        match self.find(doc) {
            Some(i) => {
                let (_doc, items) = self.docs.remove(i);
                assert(self@ =~= before.remove(i as int));
                Some(items)
            },
            None => None,
        }
    }

    /// What `doc` contributes.
    pub fn document(&self, doc: &DocId) -> (r: Option<&[T]>)
        ensures
            match r {
                Some(items) => items_of(self@, doc@) == Some(items@),
                None => items_of(self@, doc@) is None,
            },
    {
        match self.find(doc) {
            Some(i) => Some(self.docs[i].1.as_slice()),
            None => None,
        }
    }

    /// The number of documents.
    pub fn document_count(&self) -> (n: usize)
        ensures
            n == self@.len(),
    {
        self.docs.len()
    }

    /// Whether there is no document.
    pub fn is_empty(&self) -> (r: bool)
        ensures
            r == (self@.len() == 0),
    {
        self.docs.len() == 0
    }

    /// Every item with its document.
    pub fn pairs(&self) -> (r: Vec<(&DocId, &T)>)
        ensures
            r@.len() == pairs(self@).len(),
            forall|i: int|
                0 <= i < r@.len() ==> (#[trigger] r@[i]).0@ == pairs(self@)[i].0 && *r@[i].1
                    == pairs(self@)[i].1,
    {
        let mut r: Vec<(&DocId, &T)> = Vec::new();
        let mut i: usize = 0;
        while i < self.docs.len()
            invariant
                i <= self.docs@.len(),
                self.docs@.len() == self@.len(),
                r@.len() == pairs(self@.take(i as int)).len(),
                forall|k: int|
                    0 <= k < r@.len() ==> (#[trigger] r@[k]).0@ == pairs(self@.take(i as int))[k].0
                        && *r@[k].1 == pairs(self@.take(i as int))[k].1,
            decreases self.docs@.len() - i,
        {
            let entry = &self.docs[i];
            let ghost done = r@;
            let ghost front = self@.take(i as int);
            let ghost next = self@.take(i + 1);
            proof {
                assert(next.drop_last() =~= front);
                assert(next.last() == entry_view(self.docs@[i as int]));
            }
            let mut k: usize = 0;
            while k < entry.1.len()
                invariant
                    k <= entry.1@.len(),
                    *entry == self.docs@[i as int],
                    next.drop_last() == front,
                    next.len() > 0,
                    next.last() == entry_view(*entry),
                    done.len() == pairs(front).len(),
                    r@.len() == done.len() + k,
                    forall|j: int|
                        0 <= j < done.len() ==> (#[trigger] done[j]).0@ == pairs(front)[j].0
                            && *done[j].1 == pairs(front)[j].1,
                    forall|j: int| 0 <= j < done.len() ==> #[trigger] r@[j] == done[j],
                    forall|j: int|
                        0 <= j < k ==> (#[trigger] r@[done.len() + j]).0@ == entry.0@ && *r@[
                        done.len() + j].1 == entry.1@[j],
                decreases entry.1@.len() - k,
            {
                r.push((&entry.0, &entry.1[k]));
                k += 1;
            }
            proof {
                assert forall|j: int| 0 <= j < r@.len() implies (#[trigger] r@[j]).0@ == pairs(
                    next,
                )[j].0 && *r@[j].1 == pairs(next)[j].1 by {
                    if j < done.len() {
                        assert(r@[j] == done[j]);
                    } else {
                        assert(r@[done.len() + (j - done.len())] == r@[j]);
                    }
                }
            }
            i += 1;
        }
        assert(self@.take(self@.len() as int) =~= self@);
        r
    }
}

} // verus!
