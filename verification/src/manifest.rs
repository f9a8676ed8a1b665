//! Findings about manifests: documents of the same syntax that describe a module or a font.
//!
//! A manifest has one widget at its top level whose tag says what it describes, and the engine reads a
//! fixed set of keys off it. Without that widget the manifest does not load. Any other key is never
//! read. What holds of widgets and their properties does not hold here, so none of those findings
//! apply.

use crate::ascii;
use crate::diagnostics;
use crate::diagnostics::structural_diagnostics;
use crate::lang_api;
use crate::lang_api::{ByteSpan, Diagnostic, DiagnosticView, Severity};
use crate::nodes;
use crate::nodes::{is_child, last_statement_below, span_text};
use crate::order;
use crate::order::sort_by_place;
use crate::schema;
use crate::schema::is_member;
use crate::syntax;
use crate::syntax::{Stmt, StmtKind, SyntaxTree};
use crate::text;
use crate::text::{has_at, same_str, str_from};
use crate::wording::join3;
use vstd::prelude::*;
use vstd::string::*;

verus! {

/// The keys that the engine reads off a module.
pub const KNOWN_MANIFEST_KEYS: [&'static str; 14] = [
    "name",
    "description",
    "author",
    "website",
    "version",
    "enabled",
    "autoload",
    "reloadable",
    "sandboxed",
    "autoload-priority",
    "devices",
    "dependencies",
    "scripts",
    "load-later",
];

/// The events that the engine reads off a module.
pub const KNOWN_MANIFEST_EVENTS: [&'static str; 2] = ["onLoad", "onUnload"];

/// The keys that the engine reads off a font.
pub const KNOWN_FONT_KEYS: [&'static str; 11] = [
    "name",
    "texture",
    "glyph-size",
    "height",
    "space-width",
    "y-offset",
    "first-glyph",
    "spacing",
    "fixed-glyph-width",
    "default",
    "widget-default",
];

/// The document has no module at its top level.
pub const MISSING_MODULE_ROOT: &'static str = "missing-module-root";

/// A key that the engine never reads.
pub const UNKNOWN_MANIFEST_KEY: &'static str = "unknown-manifest-key";

/// The document has no font at its top level.
pub const MISSING_FONT_ROOT: &'static str = "missing-font-root";

/// What a manifest describes.
#[derive(Clone, Copy, PartialEq, Eq, Structural)]
pub enum Manifest {
    /// A module.
    Module,
    /// A font.
    Font,
}

/// The tag that the top level must hold.
pub open spec fn root_tag(m: Manifest) -> Seq<u8> {
    match m {
        Manifest::Module => "Module".spec_bytes(),
        Manifest::Font => "Font".spec_bytes(),
    }
}

/// The code of the finding that the tag is missing.
pub open spec fn missing_code(m: Manifest) -> Seq<char> {
    match m {
        Manifest::Module => MISSING_MODULE_ROOT@,
        Manifest::Font => MISSING_FONT_ROOT@,
    }
}

/// The message of that finding.
pub open spec fn missing_message(m: Manifest) -> Seq<char> {
    match m {
        Manifest::Module => "no top-level `Module` node: `ModuleManager::discoverModule` requires one and throws without it, so this manifest fails to load as a module"@,
        Manifest::Font => "no top-level `Font` node: `FontManager::importFont` requires one and throws without it, so this manifest fails to load as a font"@,
    }
}

/// Whether the engine reads the key `key`, which for an event starts with `@`.
pub open spec fn reads_key(m: Manifest, key: Seq<u8>) -> bool {
    if text::has(key, 0, ascii::AT_SIGN) {
        m == Manifest::Module && schema::member(KNOWN_MANIFEST_EVENTS@, text::from(key, 1))
    } else {
        match m {
            Manifest::Module => schema::member(KNOWN_MANIFEST_KEYS@, key),
            Manifest::Font => schema::member(KNOWN_FONT_KEYS@, key),
        }
    }
}

/// The first statement at or after statement `k` that is the widget of the manifest.
pub open spec fn root_from(s: Seq<u8>, stmts: Seq<Stmt>, m: Manifest, k: int) -> Option<int>
    decreases stmts.len() - k,
{
    if !(0 <= k < stmts.len()) {
        None
    } else if stmts[k].kind == StmtKind::Container && stmts[k].parent is None && nodes::key_of(
        s,
        stmts[k],
    ) == root_tag(m) {
        Some(k)
    } else {
        root_from(s, stmts, m, k + 1)
    }
}

/// Where the key of a statement stands, as the engine reads it: with the `@` of an event.
pub open spec fn manifest_key(s: Seq<u8>, st: Stmt) -> Option<ByteSpan> {
    match st.kind {
        StmtKind::Property => Some(st.key),
        StmtKind::EventProperty => if text::has(s, st.key.start - 1, ascii::AT_SIGN) {
            Some(syntax::span(st.key.start - 1, st.key.end as int))
        } else {
            Some(st.key)
        },
        _ => None,
    }
}

/// The finding about statement `j`, where it belongs to the widget of the manifest.
pub open spec fn key_findings(s: Seq<u8>, stmts: Seq<Stmt>, m: Manifest, root: int, j: int) -> Seq<
    DiagnosticView,
> {
    if stmts[j].parent != Some(root as usize) {
        Seq::empty()
    } else {
        match manifest_key(s, stmts[j]) {
            Some(span) => {
                let key = syntax::cut(s, span);
                if reads_key(m, key) {
                    Seq::empty()
                } else {
                    seq![
                        diagnostics::finding(
                            Severity::Hint,
                            UNKNOWN_MANIFEST_KEY@,
                            "unknown manifest key `"@ + text::chars_of(key)
                                + "`: the engine never reads it, so it has no effect"@,
                            span.start as int,
                            span.end as int,
                        ),
                    ]
                }
            },
            None => Seq::empty(),
        }
    }
}

/// The findings about the first `k` statements.
pub open spec fn keys_upto(s: Seq<u8>, stmts: Seq<Stmt>, m: Manifest, root: int, k: int) -> Seq<
    DiagnosticView,
>
    decreases k,
{
    if k <= 0 {
        Seq::empty()
    } else {
        keys_upto(s, stmts, m, root, k - 1) + key_findings(s, stmts, m, root, k - 1)
    }
}

/// Where the finding that the tag is missing points: at the first statement, or at the whole document
/// where there is none.
pub open spec fn root_place(s: Seq<u8>, stmts: Seq<Stmt>) -> ByteSpan {
    if stmts.len() > 0 {
        nodes::whole_span(stmts, 0)
    } else {
        syntax::span(0, s.len() as int)
    }
}

/// The findings that depend on what the manifest describes.
pub open spec fn manifest_findings(s: Seq<u8>, m: Manifest) -> Seq<DiagnosticView> {
    let stmts = syntax::stmts(s);
    match root_from(s, stmts, m, 0) {
        Some(root) => keys_upto(s, stmts, m, root, stmts.len() as int),
        None => seq![
            DiagnosticView {
                severity: Severity::Error,
                code: missing_code(m),
                message: missing_message(m),
                span: root_place(s, stmts),
            },
        ],
    }
}

/// The findings about a manifest, ordered by place.
pub open spec fn findings(s: Seq<u8>, m: Manifest) -> Seq<DiagnosticView> {
    order::stable_sort(diagnostics::structural_findings(s) + manifest_findings(s, m))
}

/// The findings about a manifest are ordered by place.
pub proof fn law_findings_ordered(s: Seq<u8>, m: Manifest)
    ensures
        order::is_sorted(findings(s, m)),
{
    order::law_stable_sort(diagnostics::structural_findings(s) + manifest_findings(s, m));
}

/// Whether the engine reads the key `key`.
fn is_known_manifest_key(m: Manifest, key: &str) -> (r: bool)
    ensures
        r == reads_key(m, key.spec_bytes()),
{
    let b = key.as_bytes();
    if has_at(b, 0, ascii::AT_SIGN) {
        proof {
            text::lemma_valid(key);
            text::lemma_ascii_boundary(key.spec_bytes(), 0);
        }
        return m == Manifest::Module && is_member(&KNOWN_MANIFEST_EVENTS, str_from(key, 1));
    }
    match m {
        Manifest::Module => is_member(&KNOWN_MANIFEST_KEYS, key),
        Manifest::Font => is_member(&KNOWN_FONT_KEYS, key),
    }
}

/// The widget of the manifest.
fn find_root(source: &str, stmts: &[Stmt], m: Manifest) -> (r: Option<usize>)
    requires
        stmts@ == syntax::stmts(source.spec_bytes()),
    ensures
        match r {
            Some(k) => root_from(source.spec_bytes(), stmts@, m, 0) == Some(k as int),
            None => root_from(source.spec_bytes(), stmts@, m, 0) is None,
        },
{
    let tag = match m {
        Manifest::Module => "Module",
        Manifest::Font => "Font",
    };
    let mut k: usize = 0;
    while k < stmts.len()
        invariant
            stmts@ == syntax::stmts(source.spec_bytes()),
            tag.spec_bytes() == root_tag(m),
            k <= stmts@.len(),
            root_from(source.spec_bytes(), stmts@, m, k as int) == root_from(
                source.spec_bytes(),
                stmts@,
                m,
                0,
            ),
        decreases stmts@.len() - k,
    {
        if stmts[k].kind == StmtKind::Container && stmts[k].parent.is_none() && same_str(
            nodes::key_text(source, stmts, k),
            tag,
        ) {
            return Some(k);
        }
        k += 1;
    }
    None
}

/// Where the key of a statement stands, as the engine reads it.
fn manifest_key_of(source: &str, st: &Stmt) -> (r: Option<ByteSpan>)
    requires
        syntax::stmt_ok(source.spec_bytes(), *st),
    ensures
        r == manifest_key(source.spec_bytes(), *st),
        r matches Some(span) ==> syntax::in_text(source.spec_bytes(), span),
{
    match st.kind {
        StmtKind::Property => Some(st.key),
        StmtKind::EventProperty => {
            let start: usize = st.key.start;
            if start > 0 && has_at(source.as_bytes(), start - 1, ascii::AT_SIGN) {
                proof {
                    text::lemma_valid(source);
                    text::lemma_ascii_boundary(source.spec_bytes(), start - 1);
                }
                Some(ByteSpan::new(start - 1, st.key.end))
            } else {
                Some(st.key)
            }
        },
        _ => None,
    }
}

/// Adds a finding.
fn report(out: &mut Vec<Diagnostic>, d: Diagnostic)
    ensures
        lang_api::views(final(out)@) == lang_api::views(old(out)@).push(d@),
{
    proof {
        lang_api::lemma_views_push(out@, d);
    }
    out.push(d);
}

/// Adds the finding about statement `j`.
fn check_key(
    source: &str,
    stmts: &[Stmt],
    m: Manifest,
    root: usize,
    j: usize,
    out: &mut Vec<Diagnostic>,
)
    requires
        stmts@ == syntax::stmts(source.spec_bytes()),
        j < stmts@.len(),
    ensures
        lang_api::views(final(out)@) == lang_api::views(old(out)@) + key_findings(
            source.spec_bytes(),
            stmts@,
            m,
            root as int,
            j as int,
        ),
{
    assert(lang_api::views(out@) + Seq::<DiagnosticView>::empty() =~= lang_api::views(out@));
    let n: usize = source.as_bytes().len();
    proof {
        nodes::lemma_document(source);
        assert(syntax::stmt_ok(source.spec_bytes(), stmts@[j as int]));
    }
    if is_child(&stmts[j], root) {
        if let Some(span) = manifest_key_of(source, &stmts[j]) {
            let key = span_text(source, span);
            if !is_known_manifest_key(m, key) {
                report(
                    out,
                    Diagnostic {
                        severity: Severity::Hint,
                        code: UNKNOWN_MANIFEST_KEY,
                        message: join3(
                            "unknown manifest key `",
                            key,
                            "`: the engine never reads it, so it has no effect",
                        ),
                        span,
                    },
                );
            }
        }
    }
}

/// The finding that the tag is missing.
fn missing_root(source: &str, stmts: &[Stmt], m: Manifest) -> (d: Diagnostic)
    ensures
        d@ == (DiagnosticView {
            severity: Severity::Error,
            code: missing_code(m),
            message: missing_message(m),
            span: root_place(source.spec_bytes(), stmts@),
        }),
{
    let n: usize = source.as_bytes().len();
    let span = if stmts.len() > 0 {
        let last: usize = last_statement_below(stmts, 0);
        ByteSpan::new(stmts[0].span.start, stmts[last].end)
    } else {
        ByteSpan::new(0, n)
    };
    match m {
        Manifest::Module => Diagnostic {
            severity: Severity::Error,
            code: MISSING_MODULE_ROOT,
            message: "no top-level `Module` node: `ModuleManager::discoverModule` requires one and throws without it, so this manifest fails to load as a module".to_owned(),
            span,
        },
        Manifest::Font => Diagnostic {
            severity: Severity::Error,
            code: MISSING_FONT_ROOT,
            message: "no top-level `Font` node: `FontManager::importFont` requires one and throws without it, so this manifest fails to load as a font".to_owned(),
            span,
        },
    }
}

/// Adds the findings that depend on what the manifest describes.
fn check_root_and_keys(source: &str, stmts: &[Stmt], m: Manifest, out: &mut Vec<Diagnostic>)
    requires
        stmts@ == syntax::stmts(source.spec_bytes()),
    ensures
        lang_api::views(final(out)@) == lang_api::views(old(out)@) + manifest_findings(
            source.spec_bytes(),
            m,
        ),
{
    let ghost s = source.spec_bytes();
    let ghost before = lang_api::views(out@);
    let root = match find_root(source, stmts, m) {
        Some(root) => root,
        None => {
            report(out, missing_root(source, stmts, m));
            assert(lang_api::views(out@) =~= before + manifest_findings(s, m));
            return;
        },
    };
    let mut j: usize = 0;
    assert(before + keys_upto(s, stmts@, m, root as int, 0) =~= before);
    while j < stmts.len()
        invariant
            s == source.spec_bytes(),
            stmts@ == syntax::stmts(s),
            j <= stmts@.len(),
            lang_api::views(out@) == before + keys_upto(s, stmts@, m, root as int, j as int),
        decreases stmts@.len() - j,
    {
        let ghost had = keys_upto(s, stmts@, m, root as int, j as int);
        check_key(source, stmts, m, root, j, out);
        proof {
            let x = key_findings(s, stmts@, m, root as int, j as int);
            assert(before + had + x =~= before + (had + x));
        }
        j += 1;
    }
}

/// The findings about a manifest, ordered by place.
fn analyze_with_schema(source: &str, m: Manifest) -> (out: Vec<Diagnostic>)
    ensures
        lang_api::views(out@) == findings(source.spec_bytes(), m),
{
    match SyntaxTree::parse(source) {
        Some(tree) => {
            let mut out = structural_diagnostics(&tree);
            check_root_and_keys(source, tree.statements(), m, &mut out);
            sort_by_place(out)
        },
        None => Vec::new(),
    }
}

/// The findings about the manifest of a module, ordered by place.
pub fn analyze_manifest(source: &str) -> (out: Vec<Diagnostic>)
    ensures
        lang_api::views(out@) == findings(source.spec_bytes(), Manifest::Module),
{
    analyze_with_schema(source, Manifest::Module)
}

/// The findings about the manifest of a font, ordered by place.
pub fn analyze_font_manifest(source: &str) -> (out: Vec<Diagnostic>)
    ensures
        lang_api::views(out@) == findings(source.spec_bytes(), Manifest::Font),
{
    analyze_with_schema(source, Manifest::Font)
}

} // verus!
