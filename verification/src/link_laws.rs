//! Which paths a document holds, and which files they may name.

use crate::color_laws;
use crate::lang_api::ByteSpan;
use crate::links;
use crate::links::PathView;
use crate::schema;
use crate::syntax;
use crate::syntax::StmtKind;
use crate::text;
use vstd::prelude::*;
use vstd::string::*;
use vstd::utf8::*;

verus! {

/// Whether statement `k` is a property that takes a path, and its value stands at `sp` without the
/// white space around it.
pub open spec fn path_value_at(s: Seq<u8>, k: int, sp: ByteSpan) -> bool {
    let st = syntax::stmts(s)[k];
    &&& 0 <= k < syntax::stmts(s).len()
    &&& st.kind == StmtKind::Property
    &&& schema::member(schema::PATH_PROPERTIES@, s.subrange(st.key.start as int, st.key.end as int))
    &&& st.value matches Some(v) && v.start <= sp.start < sp.end <= v.end && s.subrange(
        sp.start as int,
        sp.end as int,
    ) == text::trim(s.subrange(v.start as int, v.end as int)) && sp.start == text::trim_at(
        s,
        v.start as int,
        v.end as int,
    ).0
}

/// The paths of a document are the values of the properties that take one, all of them and no others,
/// each as it is written and with its key.
pub proof fn law_paths(s: Seq<u8>, p: PathView)
    requires
        valid_utf8(s),
        s.len() <= usize::MAX,
    ensures
        links::paths(s).contains(p) <==> exists|k: int| #[trigger]
            path_value_at(s, k, p.span) && p.path == text::chars_of(
                s.subrange(p.span.start as int, p.span.end as int),
            ) && p.key == text::chars_of(syntax::cut(s, syntax::stmts(s)[k].key)),
{
    let stmts = syntax::stmts(s);
    let n = stmts.len() as int;
    lemma_paths(s, n, p);
    if links::paths(s).contains(p) {
        let k = choose|k: int|
            0 <= k < n && links::path_in(s, #[trigger] stmts[k]) == Some(p);
        lemma_path_value(s, k, p);
    }
    if exists|k: int| #[trigger]
        path_value_at(s, k, p.span) && p.path == text::chars_of(
            s.subrange(p.span.start as int, p.span.end as int),
        ) && p.key == text::chars_of(syntax::cut(s, stmts[k].key)) {
        let k = choose|k: int| #[trigger]
            path_value_at(s, k, p.span) && p.path == text::chars_of(
                s.subrange(p.span.start as int, p.span.end as int),
            ) && p.key == text::chars_of(syntax::cut(s, stmts[k].key));
        lemma_path_value(s, k, p);
        assert(links::path_in(s, stmts[k]) == Some(p));
    }
}

proof fn lemma_path_value(s: Seq<u8>, k: int, p: PathView)
    requires
        valid_utf8(s),
        s.len() <= usize::MAX,
        0 <= k < syntax::stmts(s).len(),
    ensures
        links::path_in(s, syntax::stmts(s)[k]) == Some(p) <==> path_value_at(s, k, p.span)
            && p.path == text::chars_of(s.subrange(p.span.start as int, p.span.end as int))
            && p.key == text::chars_of(syntax::cut(s, syntax::stmts(s)[k].key)),
{
    let st = syntax::stmts(s)[k];
    syntax::lemma_stmts(s);
    assert(syntax::stmt_ok(s, st));
    if let Some(v) = st.value {
        text::lemma_trim_at(s, v.start as int, v.end as int);
        let q = text::trim_at(s, v.start as int, v.end as int);
        let t = text::trim(s.subrange(v.start as int, v.end as int));
        assert(t.len() == q.1 - q.0);
        if path_value_at(s, k, p.span) {
            assert(s.subrange(p.span.start as int, p.span.end as int).len() == t.len());
            assert(p.span == syntax::span(q.0, q.1));
        }
    }
}

proof fn lemma_paths(s: Seq<u8>, n: int, p: PathView)
    requires
        0 <= n <= syntax::stmts(s).len(),
    ensures
        links::paths_upto(s, syntax::stmts(s), n).contains(p) <==> exists|k: int|
            0 <= k < n && links::path_in(s, #[trigger] syntax::stmts(s)[k]) == Some(p),
    decreases n,
{
    if n > 0 {
        let stmts = syntax::stmts(s);
        lemma_paths(s, n - 1, p);
        let before = links::paths_upto(s, stmts, n - 1);
        let all = links::paths_upto(s, stmts, n);
        if let Some(q) = links::path_in(s, stmts[n - 1]) {
            assert(all == before.push(q));
            if before.contains(p) {
                assert(all[before.index_of(p)] == p);
            }
            if q == p {
                assert(all[before.len() as int] == p);
            }
            if all.contains(p) && q != p {
                assert(before[all.index_of(p)] == p);
            }
        }
    }
}

// ---------------------------------------------------------------------------------------------
// Files
// ---------------------------------------------------------------------------------------------

/// Whether a text ends with `.png`.
pub open spec fn ends_png(t: Seq<u8>) -> bool {
    let n = t.len() as int;
    n >= 4 && t[n - 4] == 0x2e && t[n - 3] == 0x70 && t[n - 2] == 0x6e && t[n - 1] == 0x67
}

/// A file name with `.png` behind it, unless it ends so.
pub open spec fn png(t: Seq<u8>) -> Seq<u8> {
    if ends_png(t) {
        t
    } else {
        t + seq![0x2eu8, 0x70u8, 0x6eu8, 0x67u8]
    }
}

/// Whether a text ends with a file name: with neither a slash nor a dot.
pub open spec fn ends_named(t: Seq<u8>) -> bool {
    t.len() > 0 && t.last() != 0x2f && t.last() != 0x2e
}

/// Whether a text is the path of a directory as it is written most often: it does not end with a
/// slash.
pub open spec fn is_dir(t: Seq<u8>) -> bool {
    t.len() > 0 && t.last() != 0x2f
}

proof fn lemma_png()
    ensures
        ".png".spec_bytes() == seq![0x2eu8, 0x70u8, 0x6eu8, 0x67u8],
        "/".spec_bytes() == seq![0x2fu8],
{
    reveal_strlit(".png");
    reveal_strlit("/");
    is_ascii_chars_encode_utf8(".png"@);
    is_ascii_chars_encode_utf8("/"@);
    assert(".png".spec_bytes() =~= seq![0x2eu8, 0x70u8, 0x6eu8, 0x67u8]);
    assert("/".spec_bytes() =~= seq![0x2fu8]);
}

proof fn lemma_probed(t: Seq<u8>)
    requires
        ends_named(t),
    ensures
        links::probed(t) == png(t),
{
    lemma_png();
    let n = t.len() as int;
    assert(t[n - 1] == t.last());
    assert(links::name_end(t, n) == n);
    if n >= 4 {
        let u = t.subrange(n - 4, n);
        assert(u[0] == t[n - 4] && u[1] == t[n - 3] && u[2] == t[n - 2] && u[3] == t[n - 1]);
        if ends_png(t) {
            assert(u =~= seq![0x2eu8, 0x70u8, 0x6eu8, 0x67u8]);
        }
        if u == seq![0x2eu8, 0x70u8, 0x6eu8, 0x67u8] {
            assert(u[0] == 0x2e && u[1] == 0x70 && u[2] == 0x6e && u[3] == 0x67);
        }
    }
}

proof fn lemma_joined(base: Seq<u8>, rest: Seq<u8>)
    requires
        is_dir(base),
        rest.len() > 0,
        rest[0] != 0x2f,
    ensures
        links::joined(base, rest) == base + seq![0x2fu8] + rest,
        links::joined(base, rest).last() == rest.last(),
        links::joined(base, rest).len() > 0,
{
    lemma_png();
}

/// Whether `raw` is the path `path` as it can be written: with spaces around it, and perhaps in
/// double quotes.
pub open spec fn writes(raw: Seq<u8>, path: Seq<u8>) -> bool {
    &&& path.len() > 0
    &&& color_laws::visible(path[0]) && color_laws::visible(path.last())
    &&& path[0] != 0x22
    &&& color_laws::spaced(raw, path) || color_laws::spaced(
        raw,
        seq![0x22u8] + path + seq![0x22u8],
    )
}

proof fn lemma_written(raw: Seq<u8>, path: Seq<u8>)
    requires
        writes(raw, path),
    ensures
        links::unquoted(text::trim(raw)) == path,
{
    let quoted = seq![0x22u8] + path + seq![0x22u8];
    if color_laws::spaced(raw, path) {
        color_laws::lemma_trim_spaces(raw, path);
    } else {
        assert(quoted[0] == 0x22 && quoted.last() == 0x22);
        color_laws::lemma_trim_spaces(raw, quoted);
        assert(quoted.subrange(1, quoted.len() - 1) =~= path);
    }
}

/// A path that does not start with a slash names one file: beside the document, with `.png` behind
/// it unless it ends so.
pub proof fn law_relative_path(raw: Seq<u8>, path: Seq<u8>, dir: Seq<u8>, roots: Seq<Seq<u8>>)
    requires
        writes(raw, path),
        path[0] != 0x2f,
        ends_named(path),
        is_dir(dir),
    ensures
        links::candidates(raw, dir, roots) == seq![png(dir + seq![0x2fu8] + path)],
{
    lemma_written(raw, path);
    lemma_joined(dir, path);
    lemma_probed(links::joined(dir, path));
}

/// The overlaid directories of an installation, in the order in which they are looked up, and at last
/// the installation itself.
pub open spec fn place_in(root: Seq<u8>, d: int) -> Seq<u8> {
    if d == 0 {
        root + seq![0x2fu8, 0x6du8, 0x6fu8, 0x64u8, 0x73u8]
    } else if d == 1 {
        root + seq![0x2fu8, 0x6du8, 0x6fu8, 0x64u8, 0x75u8, 0x6cu8, 0x65u8, 0x73u8]
    } else if d == 2 {
        root + seq![0x2fu8, 0x64u8, 0x61u8, 0x74u8, 0x61u8]
    } else {
        root
    }
}

proof fn lemma_mounts()
    ensures
        links::ASSET_MOUNT_DIRS@.len() == 3,
        links::ASSET_MOUNT_DIRS@[0].spec_bytes() == seq![0x6du8, 0x6fu8, 0x64u8, 0x73u8],
        links::ASSET_MOUNT_DIRS@[1].spec_bytes() == seq![
            0x6du8,
            0x6fu8,
            0x64u8,
            0x75u8,
            0x6cu8,
            0x65u8,
            0x73u8,
        ],
        links::ASSET_MOUNT_DIRS@[2].spec_bytes() == seq![0x64u8, 0x61u8, 0x74u8, 0x61u8],
{
    reveal_strlit("mods");
    reveal_strlit("modules");
    reveal_strlit("data");
    is_ascii_chars_encode_utf8("mods"@);
    is_ascii_chars_encode_utf8("modules"@);
    is_ascii_chars_encode_utf8("data"@);
    assert(links::ASSET_MOUNT_DIRS@[0] == "mods");
    assert(links::ASSET_MOUNT_DIRS@[1] == "modules");
    assert(links::ASSET_MOUNT_DIRS@[2] == "data");
    assert("mods".spec_bytes() =~= seq![0x6du8, 0x6fu8, 0x64u8, 0x73u8]);
    assert("modules".spec_bytes() =~= seq![0x6du8, 0x6fu8, 0x64u8, 0x75u8, 0x6cu8, 0x65u8, 0x73u8]);
    assert("data".spec_bytes() =~= seq![0x64u8, 0x61u8, 0x74u8, 0x61u8]);
}

/// The file of one place of an installation.
proof fn lemma_place(root: Seq<u8>, rest: Seq<u8>, d: int)
    requires
        is_dir(root),
        rest.len() > 0,
        rest[0] != 0x2f,
        ends_named(rest),
        0 <= d < 4,
    ensures
        ({
            let all = links::mounted(root, rest, 3).push(
                links::probed(links::joined(root, rest)),
            );
            all.len() == 4 && all[d] == png(place_in(root, d) + seq![0x2fu8] + rest)
        }),
{
    lemma_mounts();
    reveal_with_fuel(links::mounted, 4);
    lemma_joined(root, rest);
    lemma_probed(links::joined(root, rest));
    if d < 3 {
        let name = links::ASSET_MOUNT_DIRS@[d].spec_bytes();
        lemma_joined(root, name);
        let dir = links::joined(root, name);
        assert(dir =~= place_in(root, d));
        lemma_joined(dir, rest);
        lemma_probed(links::joined(dir, rest));
    }
}

proof fn lemma_rooted(roots: Seq<Seq<u8>>, rest: Seq<u8>, k: int, i: int, d: int)
    requires
        0 <= i < k <= roots.len(),
        0 <= d < 4,
        rest.len() > 0,
        rest[0] != 0x2f,
        ends_named(rest),
        is_dir(roots[i]),
    ensures
        links::rooted(roots, rest, k).len() == 4 * k,
        links::rooted(roots, rest, k)[4 * i + d] == png(
            place_in(roots[i], d) + seq![0x2fu8] + rest,
        ),
    decreases k,
{
    links::lemma_rooted_count(roots, rest, k);
    links::lemma_rooted_count(roots, rest, k - 1);
    if i < k - 1 {
        lemma_rooted(roots, rest, k - 1, i, d);
    } else {
        lemma_place(roots[i], rest, d);
    }
}

/// A path that starts with a slash names four files in each installation, in the order of the
/// installations: those below `mods`, `modules` and `data`, and that below the installation itself,
/// each with `.png` behind it unless it ends so.
pub proof fn law_rooted_path(
    raw: Seq<u8>,
    path: Seq<u8>,
    dir: Seq<u8>,
    roots: Seq<Seq<u8>>,
    i: int,
    d: int,
)
    requires
        writes(raw, path),
        path.len() > 1,
        path[0] == 0x2f,
        path[1] != 0x2f,
        ends_named(path),
        0 <= i < roots.len(),
        is_dir(roots[i]),
        0 <= d < 4,
    ensures
        links::candidates(raw, dir, roots).len() == 4 * roots.len(),
        links::candidates(raw, dir, roots)[4 * i + d] == png(place_in(roots[i], d) + path),
{
    lemma_written(raw, path);
    let rest = text::from(path, 1);
    assert(rest[0] == path[1] && rest.last() == path.last());
    lemma_rooted(roots, rest, roots.len() as int, i, d);
    assert(place_in(roots[i], d) + seq![0x2fu8] + rest =~= place_in(roots[i], d) + path);
}

} // verus!
