//! What a Lua source says of the widgets that it declares.

use crate::ascii;
use crate::color_laws;
use crate::lua_refs;
use crate::lua_widgets;
use crate::lua_widgets::WidgetInfo;
use crate::text;
use vstd::prelude::*;
use vstd::string::*;
use vstd::utf8::*;

verus! {

/// Whether a line declares the class `name`, with a parent where it names one.
pub open spec fn line_declares(
    lines: Seq<Seq<u8>>,
    i: int,
    name: Seq<u8>,
    parent: Option<Seq<u8>>,
) -> bool {
    0 <= i < lines.len() && lua_widgets::extends_line(lines[i]) == Some((name, parent))
}

/// Whether a line is the first that gives the class `name` a parent, and gives it `parent`.
pub open spec fn first_parent(lines: Seq<Seq<u8>>, i: int, name: Seq<u8>, parent: Seq<u8>) -> bool {
    &&& line_declares(lines, i, name, Some(parent))
    &&& forall|j: int, p: Seq<u8>| 0 <= j < i ==> !#[trigger] line_declares(lines, j, name, Some(p))
}

proof fn lemma_declared(lines: Seq<Seq<u8>>, k: int, name: Seq<u8>)
    requires
        0 <= k <= lines.len(),
    ensures
        ({
            let m = lua_widgets::declared(lines, k);
            &&& m.contains_key(name) <==> exists|i: int, p: Option<Seq<u8>>|
                i < k && #[trigger] line_declares(lines, i, name, p)
            &&& m.contains_key(name) ==> m[name].1 == Set::<Seq<u8>>::empty()
            &&& m.contains_key(name) ==> match m[name].0 {
                Some(parent) => exists|i: int|
                    i < k && #[trigger] first_parent(lines, i, name, parent),
                None => forall|i: int, p: Seq<u8>|
                    i < k ==> !#[trigger] line_declares(lines, i, name, Some(p)),
            }
        }),
    decreases k,
{
    if k > 0 {
        lemma_declared(lines, k - 1, name);
        let before = lua_widgets::declared(lines, k - 1);
        let m = lua_widgets::declared(lines, k);
        match lua_widgets::extends_line(lines[k - 1]) {
            Some((n, p)) => {
                if n == name {
                    assert(line_declares(lines, k - 1, name, p));
                    if before.contains_key(name) && before[name].0 is Some {
                        let parent = before[name].0->0;
                        let i = choose|i: int|
                            i < k - 1 && #[trigger] first_parent(lines, i, name, parent);
                        assert(first_parent(lines, i, name, parent));
                    } else {
                        assert forall|j: int, q: Seq<u8>| 0 <= j < k - 1 implies !#[trigger] line_declares(
                            lines,
                            j,
                            name,
                            Some(q),
                        ) by {
                            if line_declares(lines, j, name, Some(q)) {
                                assert(before.contains_key(name));
                            }
                        }
                        if let Some(parent) = p {
                            assert(first_parent(lines, k - 1, name, parent));
                        }
                    }
                } else {
                    lemma_other(lines, k, name);
                }
            },
            None => {
                lemma_other(lines, k, name);
            },
        }
    }
}

/// A line that declares no class of that name changes nothing about it.
proof fn lemma_other(lines: Seq<Seq<u8>>, k: int, name: Seq<u8>)
    requires
        0 < k <= lines.len(),
        forall|p: Option<Seq<u8>>| !#[trigger] line_declares(lines, k - 1, name, p),
    ensures
        forall|i: int, p: Option<Seq<u8>>|
            i < k && #[trigger] line_declares(lines, i, name, p) ==> i < k - 1,
{
}

proof fn lemma_applied(
    lines: Seq<Seq<u8>>,
    i: int,
    m: Map<Seq<u8>, WidgetInfo>,
    name: Seq<u8>,
)
    requires
        0 <= i <= lines.len(),
    ensures
        ({
            let r = lua_widgets::applied(lines, i, m);
            &&& m.contains_key(name) ==> r.contains_key(name) && r[name].0 == m[name].0
                && m[name].1.subset_of(r[name].1)
            &&& !m.contains_key(name) && r.contains_key(name) ==> r[name].0 is None
        }),
    decreases lines.len() - i,
{
    if i < lines.len() {
        match lua_widgets::apply_header(lines[i]) {
            Some(n) => {
                lua_widgets::lemma_body_end(lines, i + 1);
                let end = lua_widgets::body_end(lines, i + 1);
                let next = lua_widgets::with_props(
                    m,
                    n,
                    lua_widgets::body_props(lines.subrange(i, end)),
                );
                lemma_applied(lines, end, next, name);
            },
            None => {
                lemma_applied(lines, i + 1, m, name);
            },
        }
    }
}

/// Every class that an `extends` line declares is known, and its parent is the one that the first
/// line gives which gives it one.
pub proof fn law_declared_classes(s: Seq<u8>, name: Seq<u8>)
    ensures
        ({
            let lines = lua_widgets::line_texts(s);
            let m = lua_widgets::widgets(s);
            &&& forall|i: int, p: Option<Seq<u8>>| #[trigger]
                line_declares(lines, i, name, p) ==> m.contains_key(name)
            &&& m.contains_key(name) ==> match m[name].0 {
                Some(parent) => exists|i: int| #[trigger] first_parent(lines, i, name, parent),
                None => forall|i: int, p: Seq<u8>|
                    !#[trigger] line_declares(lines, i, name, Some(p)),
            }
        }),
{
    let lines = lua_widgets::line_texts(s);
    let n = lines.len() as int;
    let d = lua_widgets::declared(lines, n);
    lemma_declared(lines, n, name);
    lemma_applied(lines, 0, d, name);
    let m = lua_widgets::widgets(s);
    if m.contains_key(name) && d.contains_key(name) {
        if let Some(parent) = m[name].0 {
            let i = choose|i: int| i < n && #[trigger] first_parent(lines, i, name, parent);
            assert(first_parent(lines, i, name, parent));
        }
    }
}

/// Whether line `i` starts, in its first column, the function that applies a style to `name`.
pub open spec fn applies(lines: Seq<Seq<u8>>, i: int, name: Seq<u8>) -> bool {
    &&& 0 <= i < lines.len()
    &&& text::occurs(lines[i], 0, "function ".spec_bytes())
    &&& lua_widgets::apply_header(lines[i]) == Some(name)
}

proof fn lemma_body_stops(lines: Seq<Seq<u8>>, i: int, j: int)
    requires
        0 <= i <= j < lines.len(),
        text::occurs(lines[j], 0, "function ".spec_bytes()),
    ensures
        i <= lua_widgets::body_end(lines, i) <= j,
    decreases j - i,
{
    if !lua_widgets::closes_function(lines[i]) {
        lemma_body_stops(lines, i + 1, j);
    }
}

proof fn lemma_applied_reads(
    lines: Seq<Seq<u8>>,
    i: int,
    m: Map<Seq<u8>, WidgetInfo>,
    j: int,
    name: Seq<u8>,
)
    requires
        0 <= i <= j,
        applies(lines, j, name),
    ensures
        ({
            let r = lua_widgets::applied(lines, i, m);
            let body = lines.subrange(j, lua_widgets::body_end(lines, j + 1));
            r.contains_key(name) && lua_widgets::body_props(body).subset_of(r[name].1)
        }),
    decreases lines.len() - i,
{
    match lua_widgets::apply_header(lines[i]) {
        Some(n) => {
            lua_widgets::lemma_body_end(lines, i + 1);
            let end = lua_widgets::body_end(lines, i + 1);
            let next = lua_widgets::with_props(
                m,
                n,
                lua_widgets::body_props(lines.subrange(i, end)),
            );
            if i == j {
                lemma_applied(lines, end, next, name);
            } else {
                lemma_body_stops(lines, i + 1, j);
                lemma_applied_reads(lines, end, next, j, name);
            }
        },
        None => {
            lemma_applied_reads(lines, i + 1, m, j, name);
        },
    }
}

proof fn lemma_props_upto(body: Seq<Seq<u8>>, key: Seq<u8>, node: Seq<u8>, n: int, k: int)
    requires
        0 <= k < n,
    ensures
        lua_widgets::line_props(body[k], key, node).subset_of(
            lua_widgets::props_upto(body, key, node, n),
        ),
    decreases n,
{
    if k < n - 1 {
        lemma_props_upto(body, key, node, n - 1, k);
    }
}

/// What each line of the function that applies a style to a class reads, up to the line that closes
/// it, is a property of that class.
pub proof fn law_properties_read(s: Seq<u8>, i: int, name: Seq<u8>, k: int, prop: Seq<u8>)
    requires
        applies(lua_widgets::line_texts(s), i, name),
        i <= k < lua_widgets::body_end(lua_widgets::line_texts(s), i + 1),
        ({
            let lines = lua_widgets::line_texts(s);
            let body = lines.subrange(i, lua_widgets::body_end(lines, i + 1));
            let node = lua_widgets::node_variable(lines[i]);
            lua_widgets::line_props(
                lines[k],
                lua_widgets::key_variable(body, node, 0),
                node,
            ).contains(prop)
        }),
    ensures
        lua_widgets::widgets(s).contains_key(name),
        lua_widgets::widgets(s)[name].1.contains(prop),
{
    let lines = lua_widgets::line_texts(s);
    let d = lua_widgets::declared(lines, lines.len() as int);
    lua_widgets::lemma_body_end(lines, i + 1);
    let body = lines.subrange(i, lua_widgets::body_end(lines, i + 1));
    let node = lua_widgets::node_variable(body[0]);
    let key = lua_widgets::key_variable(body, node, 0);
    lemma_applied_reads(lines, 0, d, i, name);
    lemma_props_upto(body, key, node, body.len() as int, k - i);
    assert(body[k - i] == lines[k]);
    assert(lua_widgets::body_props(body).contains(prop));
}

/// Whether every byte of a text can stand in a Lua name.
pub open spec fn name_bytes(t: Seq<u8>) -> bool {
    t.len() > 0 && forall|i: int| 0 <= i < t.len() ==> lua_refs::ident_byte(#[trigger] t[i])
}

proof fn lemma_reads_from(line: Seq<u8>, node: Seq<u8>, i: int, j: int, prop: Seq<u8>)
    requires
        0 <= i <= j < line.len(),
        name_bytes(node),
        text::occurs(line, j, node),
        lua_refs::word_starts(line, j),
        lua_widgets::read_at(line, j + node.len()) == Some(prop),
    ensures
        lua_widgets::node_reads(line, node, i).contains(prop),
    decreases line.len() - i,
{
    let e = i + node.len();
    if i < j {
        if text::occurs(line, i, node) {
            if e > j {
                assert(line.subrange(i, e)[j - 1 - i] == line[j - 1]);
                assert(node[j - 1 - i] == line[j - 1]);
                assert(lua_refs::ident_byte(node[j - 1 - i]));
            }
            lemma_reads_from(line, node, e, j, prop);
        } else {
            lemma_reads_from(line, node, i + 1, j, prop);
        }
    }
}

/// Where the style node stands as a whole word, what is read off it behind a dot or between brackets
/// is a property that the line reads, wherever in the line that is.
pub proof fn law_node_reads(line: Seq<u8>, key: Seq<u8>, node: Seq<u8>, j: int, prop: Seq<u8>)
    requires
        0 <= j < line.len(),
        name_bytes(node),
        text::occurs(line, j, node),
        lua_refs::word_starts(line, j),
        lua_widgets::read_at(line, j + node.len()) == Some(prop),
    ensures
        lua_widgets::line_props(line, key, node).contains(prop),
{
    lemma_reads_from(line, node, 0, j, prop);
}

// ---------------------------------------------------------------------------------------------
// The text of a declaration
// ---------------------------------------------------------------------------------------------

/// Whether a text is a Lua name: letters, digits and `_`, the first no digit.
pub open spec fn is_name(t: Seq<u8>) -> bool {
    name_bytes(t) && !(0x30 <= t[0] <= 0x39)
}

/// A line that declares a class: spaces, its name, `=`, and a call of `extends` whose first argument
/// is its parent, with spaces in between.
pub open spec fn declaration(
    name: Seq<u8>,
    parent: Seq<u8>,
    gaps: Seq<nat>,
    tail: Seq<u8>,
) -> Seq<u8> {
    color_laws::spaces(gaps[0]) + name + color_laws::spaces(gaps[1]) + seq![0x3du8] + (
    color_laws::spaces(gaps[2]) + "extends".spec_bytes() + (color_laws::spaces(gaps[3])
        + seq![0x28u8] + (color_laws::spaces(gaps[4]) + parent + color_laws::spaces(gaps[5])
        + tail)))
}

proof fn lemma_name_visible(t: Seq<u8>)
    requires
        name_bytes(t),
    ensures
        forall|i: int| 0 <= i < t.len() ==> color_laws::visible(#[trigger] t[i]) && t[i] != 0x3d
            && t[i] != 0x2c && t[i] != 0x29,
{
    assert forall|i: int| 0 <= i < t.len() implies color_laws::visible(#[trigger] t[i]) && t[i]
        != 0x3d && t[i] != 0x2c && t[i] != 0x29 by {
        assert(lua_refs::ident_byte(t[i]));
    }
}

proof fn lemma_token_start(t: Seq<u8>, j: int)
    requires
        0 <= j <= t.len(),
        forall|i: int| 0 <= i < t.len() ==> color_laws::visible(#[trigger] t[i]),
    ensures
        lua_widgets::token_start(t, j) == 0,
        text::skip_ws_back(t, j) == j,
    decreases j,
{
    if j > 0 {
        assert(color_laws::visible(t[j - 1]));
        assert(text::ws_len_before(t, j) == 0);
        lemma_token_start(t, j - 1);
    }
}

proof fn lemma_last_ident(name: Seq<u8>)
    requires
        is_name(name),
    ensures
        lua_widgets::last_ident(name) == Some(name),
        lua_widgets::bare_ident(name) == Some(name),
{
    lemma_name_visible(name);
    lemma_token_start(name, name.len() as int);
    assert(text::trim_end(name) =~= name);
    assert(text::from(name, 0) =~= name);
    assert(lua_refs::ident_byte(name[0]));
}

proof fn lemma_arg_end(t: Seq<u8>, i: int, k: int)
    requires
        0 <= i <= k < t.len(),
        t[k] == 0x2c || t[k] == 0x29,
        forall|j: int| i <= j < k ==> #[trigger] t[j] != 0x2c && t[j] != 0x29,
    ensures
        lua_widgets::first_arg_end(t, i) == k,
    decreases k - i,
{
    if i < k {
        lemma_arg_end(t, i + 1, k);
    }
}

/// A line that reads `name = extends(parent` and goes on with a comma or a parenthesis declares the
/// class with that parent, however many spaces it has in between.
pub proof fn law_declaration_text(name: Seq<u8>, parent: Seq<u8>, gaps: Seq<nat>, tail: Seq<u8>)
    requires
        is_name(name),
        is_name(parent),
        gaps.len() == 6,
        tail.len() > 0,
        tail[0] == 0x2c || tail[0] == 0x29,
    ensures
        lua_widgets::extends_line(declaration(name, parent, gaps, tail)) == Some(
            (name, Some(parent)),
        ),
{
    reveal_strlit("extends");
    is_ascii_chars_encode_utf8("extends"@);
    let word = "extends".spec_bytes();
    assert(word.len() == 7 && word[0] == 0x65);
    lemma_name_visible(name);
    lemma_name_visible(parent);
    lemma_last_ident(name);
    lemma_last_ident(parent);
    let line = declaration(name, parent, gaps, tail);
    let front = color_laws::spaces(gaps[0]) + name + color_laws::spaces(gaps[1]);
    let args = color_laws::spaces(gaps[4]) + parent + color_laws::spaces(gaps[5]) + tail;
    let call = seq![0x28u8] + args;
    let behind = color_laws::spaces(gaps[3]) + seq![0x28u8] + args;
    let rest = word + behind;
    let right = color_laws::spaces(gaps[2]) + word + behind;
    let eq = front.len() as int;
    assert(line =~= front + seq![0x3du8] + right);
    assert forall|i: int| 0 <= i < eq implies #[trigger] line[i] != 0x3d by {
        assert(line[i] == front[i]);
        if gaps[0] <= i < gaps[0] + name.len() {
            assert(front[i] == name[i - gaps[0]]);
        } else {
            assert(front[i] == 0x20);
        }
    }
    assert(line[eq] == 0x3d);
    color_laws::lemma_find_at(line, ascii::EQUALS, 0, eq);
    assert(text::upto(line, eq) =~= front);
    assert(color_laws::spaced(front, name));
    color_laws::lemma_trim_spaces(front, name);
    assert(text::from(line, eq + 1) =~= right);
    lemma_skips(right, gaps[2], rest);
    assert(text::trim_start(right) == rest);
    assert(rest.subrange(0, 7) =~= word);
    assert(text::from(rest, 7) =~= behind);
    lemma_skips(behind, gaps[3], call);
    assert(text::trim_start(behind) == call);
    assert(text::from(call, 1) =~= args);
    let first = color_laws::spaces(gaps[4]) + parent + color_laws::spaces(gaps[5]);
    let k = first.len() as int;
    assert(args[k] == tail[0]);
    assert forall|j: int| 0 <= j < k implies #[trigger] args[j] != 0x2c && args[j] != 0x29 by {
        assert(args[j] == first[j]);
        if gaps[4] <= j < gaps[4] + parent.len() {
            assert(first[j] == parent[j - gaps[4]]);
        } else {
            assert(first[j] == 0x20);
        }
    }
    lemma_arg_end(args, 0, k);
    assert(text::upto(args, k) =~= first);
    assert(color_laws::spaced(first, parent));
    color_laws::lemma_trim_spaces(first, parent);
}

/// Spaces in front are cut off.
proof fn lemma_skips(t: Seq<u8>, n: nat, core: Seq<u8>)
    requires
        t =~= color_laws::spaces(n) + core,
        core.len() > 0,
        color_laws::visible(core[0]),
    ensures
        text::trim_start(t) == core,
{
    assert(t[n as int] == core[0]);
    color_laws::lemma_skip_spaces(t, 0, n as int);
    assert(text::trim_start(t) =~= core);
}

} // verus!
