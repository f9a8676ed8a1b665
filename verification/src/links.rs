//! The files that a document refers to, and where they may be.
//!
//! A path that starts with `/` is looked up in the directories that the engine overlays: `mods`,
//! `modules` and `data` of the installation, in this order, and then the installation itself. Any
//! other path is looked up beside the document. A name that does not end in `.png` gets that ending,
//! and is looked up in no other form. Whether a file is there is for the host to find out.
//!
//! Paths are texts whose parts are separated by `/`.

use crate::ascii;
use crate::lang_api;
use crate::lang_api::ByteSpan;
use crate::nodes;
use crate::nodes::key_text;
use crate::schema;
use crate::schema::PATH_PROPERTIES;
use crate::syntax;
use crate::syntax::{Stmt, StmtKind, SyntaxTree};
use crate::text;
use crate::text::{find_byte_at, has_at, put, same_str, str_from, str_upto, substr, trim_range, trimmed};
use vstd::prelude::*;
use vstd::string::*;
use vstd::utf8::*;

verus! {

/// A path that a property holds.
#[derive(Debug, Clone, PartialEq, Eq)]
pub struct PathRef {
    /// Where the path stands.
    pub span: ByteSpan,
    /// The path as it is written.
    pub path: String,
    /// The key of the property.
    pub key: &'static str,
}

/// The model of a [`PathRef`].
pub struct PathView {
    /// Where the path stands.
    pub span: ByteSpan,
    /// The path.
    pub path: Seq<char>,
    /// The key of the property.
    pub key: Seq<char>,
}

impl View for PathRef {
    type V = PathView;

    open spec fn view(&self) -> PathView {
        PathView { span: self.span, path: self.path@, key: self.key@ }
    }
}

/// The path that a statement holds.
pub open spec fn path_in(s: Seq<u8>, st: Stmt) -> Option<PathView> {
    match st.value {
        Some(v) => {
            let p = text::trim_at(s, v.start as int, v.end as int);
            let key = nodes::key_of(s, st);
            if st.kind == StmtKind::Property && p.0 < p.1 && schema::member(
                PATH_PROPERTIES@,
                key,
            ) {
                Some(
                    PathView {
                        span: syntax::span(p.0, p.1),
                        path: text::chars_of(s.subrange(p.0, p.1)),
                        key: text::chars_of(key),
                    },
                )
            } else {
                None
            }
        },
        None => None,
    }
}

/// The paths that the first `k` statements hold.
pub open spec fn paths_upto(s: Seq<u8>, stmts: Seq<Stmt>, k: int) -> Seq<PathView>
    decreases k,
{
    if k <= 0 {
        Seq::empty()
    } else {
        match path_in(s, stmts[k - 1]) {
            Some(p) => paths_upto(s, stmts, k - 1).push(p),
            None => paths_upto(s, stmts, k - 1),
        }
    }
}

/// The paths that a document holds.
pub open spec fn paths(s: Seq<u8>) -> Seq<PathView> {
    paths_upto(s, syntax::stmts(s), syntax::stmts(s).len() as int)
}

/// The first path at or after statement `k` that `offset` points at.
pub open spec fn path_under(s: Seq<u8>, stmts: Seq<Stmt>, offset: int, k: int) -> Option<PathView>
    decreases stmts.len() - k,
{
    if !(0 <= k < stmts.len()) {
        None
    } else {
        match path_in(s, stmts[k]) {
            Some(p) => if p.span.holds(offset) {
                Some(p)
            } else {
                path_under(s, stmts, offset, k + 1)
            },
            None => path_under(s, stmts, offset, k + 1),
        }
    }
}

proof fn lemma_path_in(s: Seq<u8>, k: int)
    requires
        valid_utf8(s),
        s.len() <= usize::MAX,
        0 <= k < syntax::stmts(s).len(),
    ensures
        path_in(s, syntax::stmts(s)[k]) matches Some(p) ==> {
            &&& syntax::stmts(s)[k].span.start <= p.span.start < p.span.end
                <= syntax::stmts(s)[k].end
        },
{
    let st = syntax::stmts(s)[k];
    syntax::lemma_stmts(s);
    assert(syntax::stmt_ok(s, st));
    if let Some(v) = st.value {
        text::lemma_trim_at(s, v.start as int, v.end as int);
    }
}

proof fn lemma_path_under(s: Seq<u8>, offset: int, k: int, j: int)
    requires
        valid_utf8(s),
        s.len() <= usize::MAX,
        0 <= k <= j < syntax::stmts(s).len(),
        path_in(s, syntax::stmts(s)[j]) matches Some(p) && p.span.holds(offset),
    ensures
        path_under(s, syntax::stmts(s), offset, k) == path_in(s, syntax::stmts(s)[j]),
    decreases j - k,
{
    if k < j {
        lemma_path_in(s, k);
        lemma_path_in(s, j);
        syntax::lemma_stmts_ordered(s, k, j);
        lemma_path_under(s, offset, k + 1, j);
    }
}

proof fn lemma_paths_upto(s: Seq<u8>, stmts: Seq<Stmt>, i: int, k: int) -> (j: int)
    requires
        0 <= k,
        0 <= i < paths_upto(s, stmts, k).len(),
    ensures
        0 <= j < k,
        path_in(s, stmts[j]) == Some(paths_upto(s, stmts, k)[i]),
    decreases k,
{
    if i < paths_upto(s, stmts, k - 1).len() {
        lemma_paths_upto(s, stmts, i, k - 1)
    } else {
        k - 1
    }
}

proof fn lemma_paths_contain(s: Seq<u8>, stmts: Seq<Stmt>, j: int, k: int)
    requires
        0 <= j < k,
        path_in(s, stmts[j]) is Some,
    ensures
        paths_upto(s, stmts, k).contains(path_in(s, stmts[j])->0),
    decreases k,
{
    let p = path_in(s, stmts[j])->0;
    let before = paths_upto(s, stmts, k - 1);
    let all = paths_upto(s, stmts, k);
    if j == k - 1 {
        assert(all[all.len() - 1] == p);
    } else {
        lemma_paths_contain(s, stmts, j, k - 1);
        let i = before.index_of(p);
        assert(all[i] == p);
    }
}

proof fn lemma_path_found(s: Seq<u8>, stmts: Seq<Stmt>, offset: int, k: int)
    requires
        0 <= k,
    ensures
        path_under(s, stmts, offset, k) matches Some(p) ==> p.span.holds(offset) && paths_upto(
            s,
            stmts,
            stmts.len() as int,
        ).contains(p),
    decreases stmts.len() - k,
{
    if k < stmts.len() {
        lemma_path_found(s, stmts, offset, k + 1);
        if path_in(s, stmts[k]) is Some {
            lemma_paths_contain(s, stmts, k, stmts.len() as int);
        }
    }
}

/// Asking for the path under an offset finds the paths that the document holds, each at every offset
/// that it covers, and no others.
pub proof fn law_path_under_agrees(s: Seq<u8>, offset: int)
    requires
        valid_utf8(s),
        s.len() <= usize::MAX,
    ensures
        forall|i: int|
            0 <= i < paths(s).len() && (#[trigger] paths(s)[i]).span.holds(offset) ==> path_under(
                s,
                syntax::stmts(s),
                offset,
                0,
            ) == Some(paths(s)[i]),
        path_under(s, syntax::stmts(s), offset, 0) matches Some(p) ==> p.span.holds(offset)
            && paths(s).contains(p),
{
    let stmts = syntax::stmts(s);
    assert forall|i: int|
        0 <= i < paths(s).len() && (#[trigger] paths(s)[i]).span.holds(
            offset,
        ) implies path_under(s, stmts, offset, 0) == Some(paths(s)[i]) by {
        let j = lemma_paths_upto(s, stmts, i, stmts.len() as int);
        lemma_path_under(s, offset, 0, j);
    }
    lemma_path_found(s, stmts, offset, 0);
}

/// The directories that the engine overlays, the first one first.
pub const ASSET_MOUNT_DIRS: [&'static str; 3] = ["mods", "modules", "data"];

/// `t` without the double quotes around it.
pub open spec fn unquoted(t: Seq<u8>) -> Seq<u8> {
    if t.len() >= 2 && t[0] == ascii::DOUBLE_QUOTE && t[t.len() - 1] == ascii::DOUBLE_QUOTE {
        t.subrange(1, t.len() - 1)
    } else {
        t
    }
}

/// The path `rest`, taken from the directory `base`.
pub open spec fn joined(base: Seq<u8>, rest: Seq<u8>) -> Seq<u8> {
    if text::has(rest, 0, ascii::SLASH) {
        rest
    } else if base.len() == 0 || base.last() == ascii::SLASH {
        base + rest
    } else {
        base + "/".spec_bytes() + rest
    }
}

/// Where the name at the end of the first `j` bytes of a path ends: a `/` or `/.` behind it does not
/// count.
pub open spec fn name_end(t: Seq<u8>, j: int) -> int
    decreases j,
{
    if j <= 0 || j > t.len() {
        j
    } else if t[j - 1] == ascii::SLASH {
        name_end(t, j - 1)
    } else if j >= 2 && t[j - 1] == ascii::DOT && t[j - 2] == ascii::SLASH {
        name_end(t, j - 1)
    } else {
        j
    }
}

/// Whether the name at the end of a path ends in `.png`.
pub open spec fn names_png(t: Seq<u8>) -> bool {
    let j = name_end(t, t.len() as int);
    j >= 4 && text::occurs(t, j - 4, ".png".spec_bytes())
}

/// The file that is looked up for a path.
pub open spec fn probed(t: Seq<u8>) -> Seq<u8> {
    if names_png(t) {
        t
    } else {
        t + ".png".spec_bytes()
    }
}

/// The files that are looked up for `rest` in the first `k` overlaid directories of `root`.
pub open spec fn mounted(root: Seq<u8>, rest: Seq<u8>, k: int) -> Seq<Seq<u8>>
    decreases k,
{
    if k <= 0 {
        Seq::empty()
    } else {
        mounted(root, rest, k - 1).push(
            probed(joined(joined(root, ASSET_MOUNT_DIRS@[k - 1].spec_bytes()), rest)),
        )
    }
}

/// The files that are looked up for `rest` in the first `k` installations.
pub open spec fn rooted(roots: Seq<Seq<u8>>, rest: Seq<u8>, k: int) -> Seq<Seq<u8>>
    decreases k,
{
    if k <= 0 {
        Seq::empty()
    } else {
        rooted(roots, rest, k - 1) + mounted(roots[k - 1], rest, 3).push(
            probed(joined(roots[k - 1], rest)),
        )
    }
}

/// The files that are looked up for a path, the first one first.
pub open spec fn candidates(raw: Seq<u8>, doc_dir: Seq<u8>, roots: Seq<Seq<u8>>) -> Seq<Seq<u8>> {
    let path = unquoted(text::trim(raw));
    if path.len() == 0 {
        Seq::empty()
    } else if path[0] == ascii::SLASH {
        rooted(roots, text::from(path, 1), roots.len() as int)
    } else {
        seq![probed(joined(doc_dir, path))]
    }
}

/// Whether `raw` stands for no file: nothing, `none`, or an image that is written out in the document.
/// Only one property reads it that way.
pub open spec fn sentinel(key: Seq<u8>, raw: Seq<u8>) -> bool {
    let t = unquoted(text::trim(raw));
    key == "image-source".spec_bytes() && (t.len() == 0 || t == "none".spec_bytes() || (
    text::find_byte(t, ascii::COLON, 0) matches Some(c) && text::upto(t, c) == "base64".spec_bytes() && c
        + 1 < t.len()))
}

/// The bytes of the given texts.
pub open spec fn all_bytes(texts: Seq<String>) -> Seq<Seq<u8>> {
    texts.map_values(|t: String| text::bytes_of(t@))
}

/// A path that starts with `/` has four candidates in each installation, any other path has one.
pub proof fn law_candidates_count(raw: Seq<u8>, doc_dir: Seq<u8>, roots: Seq<Seq<u8>>)
    requires
        unquoted(text::trim(raw)).len() > 0,
    ensures
        candidates(raw, doc_dir, roots).len() == if unquoted(text::trim(raw))[0] == ascii::SLASH {
            4 * roots.len()
        } else {
            1
        },
{
    lemma_rooted_count(roots, text::from(unquoted(text::trim(raw)), 1), roots.len() as int);
}

/// Four files are looked up in each installation.
pub proof fn lemma_rooted_count(roots: Seq<Seq<u8>>, rest: Seq<u8>, k: int)
    requires
        0 <= k,
    ensures
        rooted(roots, rest, k).len() == 4 * k,
    decreases k,
{
    if k > 0 {
        lemma_rooted_count(roots, rest, k - 1);
        reveal_with_fuel(mounted, 4);
    }
}

/// The key of `PATH_PROPERTIES` that reads `key`.
fn path_key(key: &str) -> (r: Option<&'static str>)
    ensures
        match r {
            Some(k) => k.spec_bytes() == key.spec_bytes() && k@ == key@ && schema::member(
                PATH_PROPERTIES@,
                key.spec_bytes(),
            ),
            None => !schema::member(PATH_PROPERTIES@, key.spec_bytes()),
        },
{
    let set: &[&'static str] = &PATH_PROPERTIES;
    let mut i: usize = 0;
    while i < set.len()
        invariant
            set@ == PATH_PROPERTIES@,
            i <= set@.len(),
            forall|k: int| 0 <= k < i ==> (#[trigger] set@[k]).spec_bytes() != key.spec_bytes(),
        decreases set@.len() - i,
    {
        if same_str(set[i], key) {
            assert(set@[i as int].spec_bytes() == key.spec_bytes());
            return Some(set[i]);
        }
        i += 1;
    }
    None
}

/// The path that statement `k` holds.
fn path_ref(source: &str, stmts: &[Stmt], k: usize) -> (r: Option<PathRef>)
    requires
        stmts@ == syntax::stmts(source.spec_bytes()),
        k < stmts@.len(),
    ensures
        match r {
            Some(p) => path_in(source.spec_bytes(), stmts@[k as int]) == Some(p@),
            None => path_in(source.spec_bytes(), stmts@[k as int]) is None,
        },
{
    let n: usize = source.as_bytes().len();
    proof {
        nodes::lemma_document(source);
        assert(syntax::stmt_ok(source.spec_bytes(), stmts@[k as int]));
    }
    let st = &stmts[k];
    if st.kind != StmtKind::Property {
        return None;
    }
    if let Some(v) = st.value {
        if let Some(key) = path_key(key_text(source, stmts, k)) {
            proof {
                text::lemma_trim_at(source.spec_bytes(), v.start as int, v.end as int);
            }
            let (from, to) = trim_range(source, v.start, v.end);
            if from < to {
                return Some(
                    PathRef {
                        span: ByteSpan::new(from, to),
                        path: substr(source, from, to).to_owned(),
                        key,
                    },
                );
            }
        }
    }
    None
}

/// The paths that a document holds.
pub fn document_links(source: &str) -> (out: Vec<PathRef>)
    ensures
        lang_api::views(out@) == paths(source.spec_bytes()),
{
    match SyntaxTree::parse(source) {
        Some(tree) => document_links_from_tree(source, &tree),
        None => Vec::new(),
    }
}

/// The paths that a parsed document holds.
pub fn document_links_from_tree(source: &str, tree: &SyntaxTree) -> (out: Vec<PathRef>)
    requires
        tree.text() == source.spec_bytes(),
    ensures
        lang_api::views(out@) == paths(source.spec_bytes()),
{
    let stmts = tree.statements();
    let mut out: Vec<PathRef> = Vec::new();
    let mut k: usize = 0;
    assert(lang_api::views(out@) =~= Seq::empty());
    while k < stmts.len()
        invariant
            stmts@ == syntax::stmts(source.spec_bytes()),
            k <= stmts@.len(),
            lang_api::views(out@) == paths_upto(source.spec_bytes(), stmts@, k as int),
        decreases stmts@.len() - k,
    {
        if let Some(p) = path_ref(source, stmts, k) {
            proof {
                lang_api::lemma_views_push(out@, p);
            }
            out.push(p);
        }
        k += 1;
    }
    out
}

/// The path that `offset` points at.
pub fn asset_ref_at(source: &str, offset: usize) -> (r: Option<PathRef>)
    ensures
        match r {
            Some(p) => path_under(
                source.spec_bytes(),
                syntax::stmts(source.spec_bytes()),
                offset as int,
                0,
            ) == Some(p@),
            None => path_under(
                source.spec_bytes(),
                syntax::stmts(source.spec_bytes()),
                offset as int,
                0,
            ) is None,
        },
{
    let tree = match SyntaxTree::parse(source) {
        Some(tree) => tree,
        None => {
            return None;
        },
    };
    let stmts = tree.statements();
    let mut k: usize = 0;
    while k < stmts.len()
        invariant
            stmts@ == syntax::stmts(source.spec_bytes()),
            k <= stmts@.len(),
            path_under(source.spec_bytes(), stmts@, offset as int, k as int) == path_under(
                source.spec_bytes(),
                stmts@,
                offset as int,
                0,
            ),
        decreases stmts@.len() - k,
    {
        if let Some(p) = path_ref(source, stmts, k) {
            if p.span.contains(offset) {
                return Some(p);
            }
        }
        k += 1;
    }
    None
}

/// Whether a path holds a variable, which only the engine can resolve.
pub fn is_runtime_variable_path(path: &str) -> (r: bool)
    ensures
        r == (text::find_byte(path.spec_bytes(), ascii::DOLLAR, 0) is Some),
{
    find_byte_at(path.as_bytes(), ascii::DOLLAR, 0).is_some()
}

/// `t` without the double quotes around it.
pub fn strip_matching_quotes<'a>(t: &'a str) -> (r: &'a str)
    ensures
        r.spec_bytes() == unquoted(t.spec_bytes()),
{
    let b = t.as_bytes();
    let n: usize = b.len();
    if n >= 2 && b[0] == ascii::DOUBLE_QUOTE && b[n - 1] == ascii::DOUBLE_QUOTE {
        proof {
            text::lemma_valid(t);
            text::lemma_ascii_boundary(b@, 0);
            text::lemma_ascii_boundary(b@, n - 1);
        }
        return substr(t, 1, n - 1);
    }
    t
}

/// Whether the value `raw` of the property `key` stands for no file.
pub fn is_asset_sentinel_value(key: &str, raw: &str) -> (r: bool)
    ensures
        r == sentinel(key.spec_bytes(), raw.spec_bytes()),
{
    if !same_str(key, "image-source") {
        return false;
    }
    let t = strip_matching_quotes(trimmed(raw));
    let b = t.as_bytes();
    let n: usize = b.len();
    if n == 0 || same_str(t, "none") {
        return true;
    }
    match find_byte_at(b, ascii::COLON, 0) {
        Some(c) => {
            proof {
                text::lemma_valid(t);
                text::lemma_ascii_boundary(b@, c as int);
            }
            same_str(str_upto(t, c), "base64") && c + 1 < n
        },
        None => false,
    }
}

/// The path `rest`, taken from the directory `base`.
fn join(base: &str, rest: &str) -> (r: String)
    ensures
        text::bytes_of(r@) == joined(base.spec_bytes(), rest.spec_bytes()),
{
    if has_at(rest.as_bytes(), 0, ascii::SLASH) {
        return rest.to_owned();
    }
    let b = base.as_bytes();
    let n: usize = b.len();
    let mut r = base.to_owned();
    if n > 0 && b[n - 1] != ascii::SLASH {
        put(&mut r, "/");
    }
    put(&mut r, rest);
    r
}

/// Whether the name at the end of a path ends in `.png`.
fn is_png(t: &str) -> (r: bool)
    ensures
        r == names_png(t.spec_bytes()),
{
    let b = t.as_bytes();
    let mut j: usize = b.len();
    while j > 0 && (b[j - 1] == ascii::SLASH || (j >= 2 && b[j - 1] == ascii::DOT && b[j - 2] == ascii::SLASH))
        invariant
            b@ == t.spec_bytes(),
            j <= b@.len(),
            name_end(b@, j as int) == name_end(b@, b@.len() as int),
        decreases j,
    {
        j -= 1;
    }
    j >= 4 && text::occurs_at(b, j - 4, ".png".as_bytes())
}

/// The file that is looked up for a path.
fn asset_probe_variant(base: String) -> (r: String)
    ensures
        text::bytes_of(r@) == probed(text::bytes_of(base@)),
{
    let mut r = base;
    if !is_png(r.as_str()) {
        put(&mut r, ".png");
    }
    r
}

/// Adds the files that are looked up for `rest` in one installation.
fn add_rooted(root: &str, rest: &str, out: &mut Vec<String>)
    ensures
        all_bytes(final(out)@) == all_bytes(old(out)@) + mounted(
            root.spec_bytes(),
            rest.spec_bytes(),
            3,
        ).push(probed(joined(root.spec_bytes(), rest.spec_bytes()))),
{
    let ghost before = all_bytes(out@);
    let ghost all = mounted(root.spec_bytes(), rest.spec_bytes(), 3);
    let mounts: &[&'static str] = &ASSET_MOUNT_DIRS;
    let mut i: usize = 0;
    assert(before + mounted(root.spec_bytes(), rest.spec_bytes(), 0) =~= before);
    while i < mounts.len()
        invariant
            mounts@ == ASSET_MOUNT_DIRS@,
            i <= mounts@.len(),
            mounts@.len() == 3,
            all_bytes(out@) == before + mounted(root.spec_bytes(), rest.spec_bytes(), i as int),
        decreases mounts@.len() - i,
    {
        let ghost had = all_bytes(out@);
        let dir = join(root, mounts[i]);
        let file = asset_probe_variant(join(dir.as_str(), rest));
        out.push(file);
        assert(all_bytes(out@) =~= had.push(text::bytes_of(file@)));
        i += 1;
        assert(all_bytes(out@) =~= before + mounted(
            root.spec_bytes(),
            rest.spec_bytes(),
            i as int,
        ));
    }
    let ghost had = all_bytes(out@);
    let file = asset_probe_variant(join(root, rest));
    out.push(file);
    assert(all_bytes(out@) =~= had.push(text::bytes_of(file@)));
    assert(all_bytes(out@) =~= before + all.push(
        probed(joined(root.spec_bytes(), rest.spec_bytes())),
    ));
}

/// The files that are looked up for a path in a document in `doc_dir`, the first one first.
pub fn resolve_asset_candidates(raw: &str, doc_dir: &str, roots: &[String]) -> (out: Vec<String>)
    ensures
        all_bytes(out@) == candidates(raw.spec_bytes(), doc_dir.spec_bytes(), all_bytes(roots@)),
{
    let path = strip_matching_quotes(trimmed(raw));
    let b = path.as_bytes();
    let mut out: Vec<String> = Vec::new();
    assert(all_bytes(out@) =~= Seq::empty());
    if b.len() == 0 {
        return out;
    }
    if b[0] == ascii::SLASH {
        proof {
            text::lemma_valid(path);
            text::lemma_ascii_boundary(b@, 0);
        }
        let rest = str_from(path, 1);
        let ghost all = all_bytes(roots@);
        let mut i: usize = 0;
        while i < roots.len()
            invariant
                all == all_bytes(roots@),
                i <= roots@.len(),
                all_bytes(out@) == rooted(all, rest.spec_bytes(), i as int),
            decreases roots@.len() - i,
        {
            assert(all[i as int] == text::bytes_of(roots@[i as int]@));
            add_rooted(roots[i].as_str(), rest, &mut out);
            i += 1;
        }
        return out;
    }
    let file = asset_probe_variant(join(doc_dir, path));
    out.push(file);
    assert(all_bytes(out@) =~= seq![text::bytes_of(file@)]);
    out
}

} // verus!
