//! When a manifest has which finding.

use crate::diagnostics;
use crate::diagnostics_laws;
use crate::diagnostics_laws::reported;
use crate::lang_api::{ByteSpan, DiagnosticView, Severity};
use crate::manifest;
use crate::manifest::Manifest;
use crate::order;
use crate::schema;
use crate::syntax;
use crate::syntax::StmtKind;
use crate::text;
use vstd::prelude::*;
use vstd::string::*;
use vstd::utf8::*;

verus! {

/// Whether statement `k` is a widget at the top level with the tag that a manifest of that kind has.
pub open spec fn is_root(s: Seq<u8>, m: Manifest, k: int) -> bool {
    let stmts = syntax::stmts(s);
    &&& 0 <= k < stmts.len()
    &&& stmts[k].kind == StmtKind::Container
    &&& stmts[k].parent is None
    &&& s.subrange(stmts[k].key.start as int, stmts[k].key.end as int) == match m {
        Manifest::Module => "Module".spec_bytes(),
        Manifest::Font => "Font".spec_bytes(),
    }
}

/// Whether statement `k` is the first such widget.
pub open spec fn is_first_root(s: Seq<u8>, m: Manifest, k: int) -> bool {
    is_root(s, m, k) && forall|j: int| 0 <= j < k ==> !#[trigger] is_root(s, m, j)
}

/// Whether statement `j` is a property of the manifest whose key stands at `sp` and is none that the
/// engine reads: for a module one of its keys or `@` and one of its events, for a font one of its
/// keys.
pub open spec fn unread_key(s: Seq<u8>, m: Manifest, root: int, j: int, sp: ByteSpan) -> bool {
    let stmts = syntax::stmts(s);
    let key = s.subrange(sp.start as int, sp.end as int);
    &&& 0 <= j < stmts.len()
    &&& stmts[j].parent == Some(root as usize)
    &&& {
        ||| stmts[j].kind == StmtKind::Property && sp == stmts[j].key
        ||| stmts[j].kind == StmtKind::EventProperty && sp.end == stmts[j].key.end && if text::has(
            s,
            stmts[j].key.start - 1,
            0x40,
        ) {
            sp.start == stmts[j].key.start - 1
        } else {
            sp.start == stmts[j].key.start
        }
    }
    &&& !if key.len() > 0 && key[0] == 0x40 {
        m == Manifest::Module && schema::member(
            manifest::KNOWN_MANIFEST_EVENTS@,
            key.subrange(1, key.len() as int),
        )
    } else {
        match m {
            Manifest::Module => schema::member(manifest::KNOWN_MANIFEST_KEYS@, key),
            Manifest::Font => schema::member(manifest::KNOWN_FONT_KEYS@, key),
        }
    }
}

proof fn lemma_root(s: Seq<u8>, m: Manifest, i: int)
    requires
        0 <= i,
        forall|j: int| 0 <= j < i ==> !#[trigger] is_root(s, m, j),
    ensures
        match manifest::root_from(s, syntax::stmts(s), m, i) {
            Some(k) => is_first_root(s, m, k),
            None => forall|k: int| !#[trigger] is_root(s, m, k),
        },
    decreases syntax::stmts(s).len() - i,
{
    if i < syntax::stmts(s).len() && !is_root(s, m, i) {
        lemma_root(s, m, i + 1);
    }
}

proof fn lemma_codes()
    ensures
        manifest::MISSING_MODULE_ROOT@ == "missing-module-root"@,
        manifest::MISSING_FONT_ROOT@ == "missing-font-root"@,
        manifest::UNKNOWN_MANIFEST_KEY@ == "unknown-manifest-key"@,
        "missing-module-root"@.len() == 19,
        "missing-font-root"@.len() == 17,
        "unknown-manifest-key"@.len() == 20,
        "tab-indentation"@.len() == 15,
        "odd-indentation"@.len() == 15,
        "invalid-indentation-depth"@.len() == 25,
        "syntax-error"@.len() == 12,
{
    reveal_strlit("missing-module-root");
    reveal_strlit("missing-font-root");
    reveal_strlit("unknown-manifest-key");
    reveal_strlit("tab-indentation");
    reveal_strlit("odd-indentation");
    reveal_strlit("invalid-indentation-depth");
    reveal_strlit("syntax-error");
}

proof fn lemma_found(s: Seq<u8>, m: Manifest, f: DiagnosticView)
    ensures
        manifest::manifest_findings(s, m).contains(f) ==> manifest::findings(s, m).contains(f),
        manifest::findings(s, m).contains(f) ==> manifest::manifest_findings(s, m).contains(f)
            || diagnostics::structural_findings(s).contains(f),
{
    broadcast use vstd::seq_lib::group_to_multiset_ensures;

    let a = diagnostics::structural_findings(s);
    let b = manifest::manifest_findings(s, m);
    let all = a + b;
    order::law_stable_sort(all);
    assert(all.contains(f) <==> all.to_multiset().count(f) > 0);
    assert(order::stable_sort(all).contains(f) <==> order::stable_sort(all).to_multiset().count(f)
        > 0);
    if b.contains(f) {
        assert(all[a.len() + b.index_of(f)] == f);
    }
    if all.contains(f) {
        let i = all.index_of(f);
        if i < a.len() {
            assert(a[i] == f);
        } else {
            assert(b[i - a.len()] == f);
        }
    }
}

/// What the key of a statement gives.
proof fn lemma_key_given(s: Seq<u8>, m: Manifest, root: int, j: int, sp: ByteSpan)
    requires
        valid_utf8(s),
        s.len() <= usize::MAX,
        0 <= j < syntax::stmts(s).len(),
    ensures
        ({
            let all = manifest::key_findings(s, syntax::stmts(s), m, root, j);
            &&& all.len() <= 1
            &&& all.len() == 1 ==> all[0].severity == Severity::Hint && all[0].code
                == "unknown-manifest-key"@
            &&& unread_key(s, m, root, j, sp) <==> all.len() == 1 && all[0].span == sp
        }),
{
    lemma_codes();
    let st = syntax::stmts(s)[j];
    syntax::lemma_stmts(s);
    assert(syntax::stmt_ok(s, st));
    if let Some(span) = manifest::manifest_key(s, st) {
        let key = syntax::cut(s, span);
        assert(text::from(key, 1) == key.subrange(1, key.len() as int));
    }
}

proof fn lemma_keys_given(s: Seq<u8>, m: Manifest, root: int, n: int, f: DiagnosticView)
    requires
        0 <= n <= syntax::stmts(s).len(),
    ensures
        manifest::keys_upto(s, syntax::stmts(s), m, root, n).contains(f) <==> exists|j: int|
            0 <= j < n && #[trigger] manifest::key_findings(
                s,
                syntax::stmts(s),
                m,
                root,
                j,
            ).contains(f),
    decreases n,
{
    if n > 0 {
        let stmts = syntax::stmts(s);
        lemma_keys_given(s, m, root, n - 1, f);
        let a = manifest::keys_upto(s, stmts, m, root, n - 1);
        let b = manifest::key_findings(s, stmts, m, root, n - 1);
        let all = manifest::keys_upto(s, stmts, m, root, n);
        if a.contains(f) {
            assert(all[a.index_of(f)] == f);
        }
        if b.contains(f) {
            assert(all[a.len() + b.index_of(f)] == f);
        }
        if all.contains(f) {
            let i = all.index_of(f);
            if i < a.len() {
                assert(a[i] == f);
            } else {
                assert(b[i - a.len()] == f);
            }
        }
    }
}

/// The code of a manifest without its widget.
pub open spec fn root_code(m: Manifest) -> Seq<char> {
    match m {
        Manifest::Module => "missing-module-root"@,
        Manifest::Font => "missing-font-root"@,
    }
}

/// A manifest without a widget of its tag at the top level has an error for that, and no other has.
pub proof fn law_missing_root(s: Seq<u8>, m: Manifest)
    ensures
        (exists|sp: ByteSpan| #[trigger]
            reported(
                manifest::findings(s, m),
                Severity::Error,
                root_code(m),
                sp,
            )) <==> forall|k: int| !#[trigger] is_root(s, m, k),
{
    lemma_codes();
    lemma_root(s, m, 0);
    let fs = manifest::findings(s, m);
    let own = manifest::manifest_findings(s, m);
    let code = root_code(m);
    if exists|sp: ByteSpan| #[trigger] reported(fs, Severity::Error, code, sp) {
        let sp = choose|sp: ByteSpan| #[trigger] reported(fs, Severity::Error, code, sp);
        let i = choose|i: int|
            0 <= i < fs.len() && (#[trigger] fs[i]).severity == Severity::Error && fs[i].code
                == code && fs[i].span == sp;
        let f = fs[i];
        assert(fs.contains(f));
        lemma_found(s, m, f);
        if diagnostics::structural_findings(s).contains(f) {
            diagnostics_laws::law_structural_codes(s, f);
        }
        if let Some(root) = manifest::root_from(s, syntax::stmts(s), m, 0) {
            lemma_keys_given(s, m, root, syntax::stmts(s).len() as int, f);
            let j = choose|j: int|
                0 <= j < syntax::stmts(s).len() && #[trigger] manifest::key_findings(
                    s,
                    syntax::stmts(s),
                    m,
                    root,
                    j,
                ).contains(f);
            assert(f.severity == Severity::Hint);
        }
    }
    if forall|k: int| !#[trigger] is_root(s, m, k) {
        let f = own[0];
        assert(own.contains(f));
        lemma_found(s, m, f);
        assert(fs[fs.index_of(f)] == f);
        assert(reported(fs, Severity::Error, code, f.span));
    }
}

/// Each key of a manifest that the engine never reads has a hint, and no other has one of that code.
pub proof fn law_unread_keys_are_reported(s: Seq<u8>, m: Manifest, root: int, sp: ByteSpan)
    requires
        valid_utf8(s),
        s.len() <= usize::MAX,
        is_first_root(s, m, root),
    ensures
        reported(manifest::findings(s, m), Severity::Hint, "unknown-manifest-key"@, sp)
            <==> exists|j: int| #[trigger] unread_key(s, m, root, j, sp),
{
    lemma_codes();
    lemma_root(s, m, 0);
    let stmts = syntax::stmts(s);
    let n = stmts.len() as int;
    let fs = manifest::findings(s, m);
    let k = manifest::root_from(s, stmts, m, 0)->0;
    assert(is_root(s, m, root));
    assert(k == root) by {
        if k < root {
            assert(!is_root(s, m, k));
        } else if root < k {
            assert(!is_root(s, m, root));
        }
    }
    if reported(fs, Severity::Hint, "unknown-manifest-key"@, sp) {
        let i = choose|i: int|
            0 <= i < fs.len() && (#[trigger] fs[i]).severity == Severity::Hint && fs[i].code
                == "unknown-manifest-key"@ && fs[i].span == sp;
        let f = fs[i];
        assert(fs.contains(f));
        lemma_found(s, m, f);
        if diagnostics::structural_findings(s).contains(f) {
            diagnostics_laws::law_structural_codes(s, f);
        }
        lemma_keys_given(s, m, root, n, f);
        let j = choose|j: int|
            0 <= j < n && #[trigger] manifest::key_findings(s, stmts, m, root, j).contains(f);
        lemma_key_given(s, m, root, j, sp);
        assert(unread_key(s, m, root, j, sp));
    }
    if exists|j: int| #[trigger] unread_key(s, m, root, j, sp) {
        let j = choose|j: int| #[trigger] unread_key(s, m, root, j, sp);
        lemma_key_given(s, m, root, j, sp);
        let all = manifest::key_findings(s, stmts, m, root, j);
        let f = all[0];
        assert(all.contains(f));
        lemma_keys_given(s, m, root, n, f);
        lemma_found(s, m, f);
        assert(fs[fs.index_of(f)] == f);
    }
}

} // verus!
