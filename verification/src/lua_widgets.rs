//! The widgets that OTClient Lua code declares, and the style properties they read.
//!
//! Two constructs declare a widget: `UITable = extends(UIWidget, 'UITable')` names its parent class,
//! and the body of `function UITable:onStyleApply(styleName, styleNode)` reads the properties of the
//! applied style. A property is read by comparing the key of a loop over the style node
//! (`name == 'column-style'`), or directly (`styleNode.field`, `styleNode['column-style']`).
//!
//! There is no Lua grammar behind this: the scan goes line by line. A body runs up to the next line
//! that starts, in its first column, with `function ` or the word `end`. Reading too much only makes
//! a property known; it never makes up an error.

use crate::ascii;
use crate::doc_index;
use crate::doc_index::{DocId, DocIndex, IntoDocId};
use crate::lua_refs;
use crate::lua_refs::is_ident_byte;
use crate::names;
use crate::names::{comes_before, contains_name, insert_name, insert_names};
use crate::text;
use crate::text::{
    find_at, find_byte_at, has_at, occurs_at, same_str, str_from, str_upto, substr, trimmed, trimmed_end, trimmed_start,
};
use vstd::prelude::*;
use vstd::string::*;
use vstd::utf8::*;

verus! {

/// What one Lua source says of one widget.
#[derive(Debug, Clone, PartialEq, Eq)]
pub struct LuaWidgetDef {
    /// The name: what `extends` is assigned to, or the receiver of `onStyleApply`.
    pub name: String,
    /// The parent class, where an `extends` names one.
    pub lua_parent: Option<String>,
    /// The style properties that `onStyleApply` reads, in order, each once.
    pub custom_props: Vec<String>,
}

/// What is known of a widget: the parent class, if any, and the properties it reads.
pub type WidgetInfo = (Option<Seq<u8>>, Set<Seq<u8>>);

// ---------------------------------------------------------------------------------------------
// Lines and words
// ---------------------------------------------------------------------------------------------

/// The lines of `s` from offset `i` on, without their ends (`\n` or `\r\n`). The end of the source
/// is no line of its own.
pub open spec fn lines_from(s: Seq<u8>, i: int) -> Seq<(int, int)>
    decreases s.len() - i,
    via lines_from_decreases
{
    if !(0 <= i < s.len()) {
        Seq::empty()
    } else {
        match text::find_byte(s, ascii::NEWLINE, i) {
            Some(k) => seq![(i, if i < k && s[k - 1] == ascii::RETURN { k - 1 } else { k })] + lines_from(
                s,
                k + 1,
            ),
            None => seq![(i, s.len() as int)],
        }
    }
}

#[via_fn]
proof fn lines_from_decreases(s: Seq<u8>, i: int) {
    if 0 <= i {
        text::lemma_find_byte(s, ascii::NEWLINE, i);
    }
}

/// The text of each line of `s`.
pub open spec fn line_texts(s: Seq<u8>) -> Seq<Seq<u8>> {
    lines_from(s, 0).map_values(|p: (int, int)| s.subrange(p.0, p.1))
}

/// The last offset at or before `j` that white space, or nothing, precedes.
pub open spec fn token_start(s: Seq<u8>, j: int) -> int
    decreases j,
{
    if j <= 0 || text::ws_len_before(s, j) > 0 {
        j
    } else {
        token_start(s, j - 1)
    }
}

/// Whether `s` is a Lua identifier.
pub open spec fn identifier(s: Seq<u8>) -> bool {
    lua_refs::ident_start(s, 0) && forall|k: int| 0 <= k < s.len() ==> lua_refs::ident_byte(
        #[trigger] s[k],
    )
}

/// The last word of `s`, when it is an identifier.
pub open spec fn last_ident(s: Seq<u8>) -> Option<Seq<u8>> {
    let t = text::trim_end(s);
    let word = text::from(t, token_start(t, t.len() as int));
    if identifier(word) {
        Some(word)
    } else {
        None
    }
}

/// `s` itself, when it is an identifier.
pub open spec fn bare_ident(s: Seq<u8>) -> Option<Seq<u8>> {
    if identifier(s) {
        Some(s)
    } else {
        None
    }
}

/// Whether `s` starts with `pat`.
pub open spec fn starts(s: Seq<u8>, pat: Seq<u8>) -> bool {
    text::occurs(s, 0, pat)
}

/// Whether `word` stands at the start of `s` as a whole word.
pub open spec fn starts_word(s: Seq<u8>, word: Seq<u8>) -> bool {
    starts(s, word) && lua_refs::word_ends(s, word.len() as int)
}

/// Whether `word` stands at the end of `s` as a whole word.
pub open spec fn ends_word(s: Seq<u8>, word: Seq<u8>) -> bool {
    text::occurs(s, s.len() - word.len(), word) && lua_refs::word_starts(s, s.len() - word.len())
}

/// The content of the string literal at the start of `s`.
pub open spec fn first_literal(s: Seq<u8>) -> Option<Seq<u8>> {
    if text::has(s, 0, ascii::QUOTE) || text::has(s, 0, ascii::DOUBLE_QUOTE) {
        match text::find_byte(s, s[0], 1) {
            Some(k) => Some(s.subrange(1, k)),
            None => None,
        }
    } else {
        None
    }
}

/// The content of the string literal at the end of `s`.
pub open spec fn final_literal(s: Seq<u8>) -> Option<Seq<u8>> {
    let e = s.len() - 1;
    if text::has(s, e, ascii::QUOTE) || text::has(s, e, ascii::DOUBLE_QUOTE) {
        match text::rfind_byte(s, s[e], e) {
            Some(k) => Some(s.subrange(k + 1, e)),
            None => None,
        }
    } else {
        None
    }
}

/// The first offset at or after `i` where `==` stands that no comparison sign precedes.
pub open spec fn double_equals(s: Seq<u8>, i: int) -> Option<int>
    decreases s.len() - i,
{
    if i < 0 || i + 1 >= s.len() {
        None
    } else if s[i] == ascii::EQUALS && s[i + 1] == ascii::EQUALS && (i == 0 || !(s[i - 1] == ascii::TILDE || s[i - 1]
        == ascii::LESS || s[i - 1] == ascii::GREATER || s[i - 1] == ascii::EQUALS)) {
        Some(i)
    } else {
        double_equals(s, i + 1)
    }
}

// ---------------------------------------------------------------------------------------------
// Declarations
// ---------------------------------------------------------------------------------------------

/// The first offset of `s` that holds `,` or `)`, or the end of `s`.
pub open spec fn first_arg_end(s: Seq<u8>, i: int) -> int
    decreases s.len() - i,
{
    if !(0 <= i < s.len()) || s[i] == ascii::COMMA || s[i] == ascii::CLOSE_PAREN {
        i
    } else {
        first_arg_end(s, i + 1)
    }
}

/// The widget and its parent class where a line reads `name = extends(parent, ...)`; the parent
/// class is known where the first argument is an identifier.
pub open spec fn extends_line(line: Seq<u8>) -> Option<(Seq<u8>, Option<Seq<u8>>)> {
    match text::find_byte(line, ascii::EQUALS, 0) {
        Some(eq) => {
            let rest = text::trim_start(text::from(line, eq + 1));
            let word = "extends".spec_bytes();
            let call = text::trim_start(text::from(rest, word.len() as int));
            let args = text::from(call, 1);
            match last_ident(text::trim(text::upto(line, eq))) {
                Some(name) => if starts(rest, word) && text::has(call, 0, ascii::OPEN_PAREN) {
                    Some((name, bare_ident(text::trim(text::upto(args, first_arg_end(args, 0))))))
                } else {
                    None
                },
                None => None,
            }
        },
        None => None,
    }
}

/// The widget whose `onStyleApply` a line opens.
pub open spec fn apply_header(line: Seq<u8>) -> Option<Seq<u8>> {
    let trimmed = text::trim_start(line);
    let after = text::from(trimmed, "function ".spec_bytes().len() as int);
    if starts(trimmed, "function ".spec_bytes()) {
        match text::find_byte(after, ascii::COLON, 0) {
            Some(colon) => {
                let method = text::from(after, colon + 1);
                let word = "onStyleApply".spec_bytes();
                if starts(method, word) && text::has(
                    text::trim_start(text::from(method, word.len() as int)),
                    0,
                    ascii::OPEN_PAREN,
                ) {
                    last_ident(text::trim(text::upto(after, colon)))
                } else {
                    None
                }
            },
            None => None,
        }
    } else {
        None
    }
}

/// Whether a line closes a function that starts in the first column.
pub open spec fn closes_function(line: Seq<u8>) -> bool {
    starts(line, "function ".spec_bytes()) || starts_word(line, "end".spec_bytes())
}

/// The first line at or after `i` that closes a function, or the number of lines.
pub open spec fn body_end(lines: Seq<Seq<u8>>, i: int) -> int
    decreases lines.len() - i,
{
    if !(0 <= i < lines.len()) {
        lines.len() as int
    } else if closes_function(lines[i]) {
        i
    } else {
        body_end(lines, i + 1)
    }
}

/// The name of the style-node parameter in an `onStyleApply` header: the second one.
pub open spec fn node_variable(header: Seq<u8>) -> Seq<u8> {
    let default = "styleNode".spec_bytes();
    match text::find_byte(header, ascii::OPEN_PAREN, 0) {
        Some(open) => match text::find_byte(header, ascii::CLOSE_PAREN, open) {
            Some(close) => {
                let args = header.subrange(open + 1, close);
                match text::find_byte(args, ascii::COMMA, 0) {
                    Some(comma) => {
                        let rest = text::from(args, comma + 1);
                        let second = match text::find_byte(rest, ascii::COMMA, 0) {
                            Some(k) => text::upto(rest, k),
                            None => rest,
                        };
                        match last_ident(text::trim(second)) {
                            Some(name) => name,
                            None => default,
                        }
                    },
                    None => default,
                }
            },
            None => default,
        },
        None => default,
    }
}

/// The first offset of `s` that holds `,`, a space or a tab, or the end of `s`.
pub open spec fn first_word_end(s: Seq<u8>, i: int) -> int
    decreases s.len() - i,
{
    if !(0 <= i < s.len()) || s[i] == ascii::COMMA || s[i] == ascii::SPACE || s[i] == ascii::TAB {
        i
    } else {
        first_word_end(s, i + 1)
    }
}

/// The key variable where a line opens a loop over the style node.
pub open spec fn loop_key(line: Seq<u8>, node: Seq<u8>) -> Option<Seq<u8>> {
    let trimmed = text::trim_start(line);
    let after = text::from(trimmed, "for ".spec_bytes().len() as int);
    if text::find(line, "pairs(".spec_bytes() + node + ")".spec_bytes(), 0) is Some && starts(
        trimmed,
        "for ".spec_bytes(),
    ) {
        last_ident(text::trim(text::upto(after, first_word_end(after, 0))))
    } else {
        None
    }
}

/// The key variable of the first loop over the style node at or after line `i`.
pub open spec fn key_variable(body: Seq<Seq<u8>>, node: Seq<u8>, i: int) -> Seq<u8>
    decreases body.len() - i,
{
    if !(0 <= i < body.len()) {
        "name".spec_bytes()
    } else {
        match loop_key(body[i], node) {
            Some(key) => key,
            None => key_variable(body, node, i + 1),
        }
    }
}

/// The literal that a line compares the key variable with, on either side of the first `==`.
pub open spec fn compared(line: Seq<u8>, key: Seq<u8>) -> Option<Seq<u8>> {
    match double_equals(line, 0) {
        Some(eq) => {
            let left = text::trim_end(text::upto(line, eq));
            let right = text::trim_start(text::from(line, eq + 2));
            if ends_word(left, key) && first_literal(right) is Some {
                first_literal(right)
            } else if starts_word(right, key) {
                final_literal(left)
            } else {
                None
            }
        },
        None => None,
    }
}

/// The property that is read where the style node stands before offset `e`.
pub open spec fn read_at(line: Seq<u8>, e: int) -> Option<Seq<u8>> {
    if text::has(line, e, ascii::DOT) {
        let end = lua_refs::ident_run_end(line, e + 1);
        if end > e + 1 {
            Some(line.subrange(e + 1, end))
        } else {
            None
        }
    } else if text::has(line, e, ascii::OPEN_BRACKET) {
        first_literal(text::trim_start(text::from(line, e + 1)))
    } else {
        None
    }
}

/// The properties that a line reads off the style node, from offset `i` on.
pub open spec fn node_reads(line: Seq<u8>, node: Seq<u8>, i: int) -> Set<Seq<u8>>
    decreases line.len() - i,
{
    if !(0 <= i < line.len()) {
        Set::empty()
    } else if text::occurs(line, i, node) && node.len() > 0 {
        let e = i + node.len();
        let rest = node_reads(line, node, e);
        match read_at(line, e) {
            Some(prop) => if lua_refs::word_starts(line, i) {
                rest.insert(prop)
            } else {
                rest
            },
            None => rest,
        }
    } else {
        node_reads(line, node, i + 1)
    }
}

/// The properties that one line reads.
pub open spec fn line_props(line: Seq<u8>, key: Seq<u8>, node: Seq<u8>) -> Set<Seq<u8>> {
    match compared(line, key) {
        Some(prop) => node_reads(line, node, 0).insert(prop),
        None => node_reads(line, node, 0),
    }
}

/// The properties that the first `k` lines of a body read.
pub open spec fn props_upto(body: Seq<Seq<u8>>, key: Seq<u8>, node: Seq<u8>, k: int) -> Set<Seq<u8>>
    decreases k,
{
    if k <= 0 {
        Set::empty()
    } else {
        props_upto(body, key, node, k - 1).union(line_props(body[k - 1], key, node))
    }
}

/// The properties that a body reads; its first line is the header.
pub open spec fn body_props(body: Seq<Seq<u8>>) -> Set<Seq<u8>> {
    let node = node_variable(body[0]);
    props_upto(body, key_variable(body, node, 0), node, body.len() as int)
}

/// What is known of `name`, or nothing at all.
pub open spec fn known(m: Map<Seq<u8>, WidgetInfo>, name: Seq<u8>) -> WidgetInfo {
    if m.contains_key(name) {
        m[name]
    } else {
        (None, Set::empty())
    }
}

/// `m` with a parent class for `name`; the first one that is known stays.
pub open spec fn with_parent(
    m: Map<Seq<u8>, WidgetInfo>,
    name: Seq<u8>,
    parent: Option<Seq<u8>>,
) -> Map<Seq<u8>, WidgetInfo> {
    let info = known(m, name);
    m.insert(name, (if info.0 is Some { info.0 } else { parent }, info.1))
}

/// `m` with more properties for `name`.
pub open spec fn with_props(
    m: Map<Seq<u8>, WidgetInfo>,
    name: Seq<u8>,
    props: Set<Seq<u8>>,
) -> Map<Seq<u8>, WidgetInfo> {
    let info = known(m, name);
    m.insert(name, (info.0, info.1.union(props)))
}

/// What the `extends` lines among the first `k` say.
pub open spec fn declared(lines: Seq<Seq<u8>>, k: int) -> Map<Seq<u8>, WidgetInfo>
    decreases k,
{
    if k <= 0 {
        Map::empty()
    } else {
        let m = declared(lines, k - 1);
        match extends_line(lines[k - 1]) {
            Some((name, parent)) => with_parent(m, name, parent),
            None => m,
        }
    }
}

/// `m` with what the `onStyleApply` bodies from line `i` on say.
pub open spec fn applied(lines: Seq<Seq<u8>>, i: int, m: Map<Seq<u8>, WidgetInfo>) -> Map<
    Seq<u8>,
    WidgetInfo,
>
    decreases lines.len() - i,
    via applied_decreases
{
    if !(0 <= i < lines.len()) {
        m
    } else {
        match apply_header(lines[i]) {
            Some(name) => {
                let end = body_end(lines, i + 1);
                applied(lines, end, with_props(m, name, body_props(lines.subrange(i, end))))
            },
            None => applied(lines, i + 1, m),
        }
    }
}

#[via_fn]
proof fn applied_decreases(lines: Seq<Seq<u8>>, i: int, m: Map<Seq<u8>, WidgetInfo>) {
    if 0 <= i < lines.len() {
        lemma_body_end(lines, i + 1);
    }
}

/// A body ends at or behind its start.
pub proof fn lemma_body_end(lines: Seq<Seq<u8>>, i: int)
    requires
        0 <= i <= lines.len(),
    ensures
        i <= body_end(lines, i) <= lines.len(),
    decreases lines.len() - i,
{
    if i < lines.len() && !closes_function(lines[i]) {
        lemma_body_end(lines, i + 1);
    }
}

/// The widgets that a Lua source declares.
pub open spec fn widgets(s: Seq<u8>) -> Map<Seq<u8>, WidgetInfo> {
    let lines = line_texts(s);
    applied(lines, 0, declared(lines, lines.len() as int))
}

// ---------------------------------------------------------------------------------------------
// The list of definitions
// ---------------------------------------------------------------------------------------------

/// The bytes of an optional text.
pub open spec fn opt_bytes(s: Option<String>) -> Option<Seq<u8>> {
    match s {
        Some(t) => Some(text::bytes_of(t@)),
        None => None,
    }
}

impl LuaWidgetDef {
    /// The bytes of the name.
    pub open spec fn key(&self) -> Seq<u8> {
        text::bytes_of(self.name@)
    }

    /// What the definition says.
    pub open spec fn info(&self) -> WidgetInfo {
        (opt_bytes(self.lua_parent), names::name_set(self.custom_props@))
    }

    /// The properties ascend.
    pub open spec fn wf(&self) -> bool {
        names::ascending(names::spelled(self.custom_props@))
    }
}

/// The names of the definitions.
pub open spec fn keys(defs: Seq<LuaWidgetDef>) -> Seq<Seq<u8>> {
    defs.map_values(|d: LuaWidgetDef| d.key())
}

/// Whether `defs` lists exactly what `m` says, in ascending order of the names.
pub open spec fn lists(defs: Seq<LuaWidgetDef>, m: Map<Seq<u8>, WidgetInfo>) -> bool {
    &&& names::ascending(keys(defs))
    &&& forall|i: int| 0 <= i < defs.len() ==> (#[trigger] defs[i]).wf()
    &&& forall|i: int|
        0 <= i < defs.len() ==> m.contains_key((#[trigger] defs[i]).key()) && m[defs[i].key()]
            == defs[i].info()
    &&& forall|name: Seq<u8>| #[trigger]
        m.contains_key(name) ==> exists|i: int|
            0 <= i < defs.len() && (#[trigger] defs[i]).key() == name
}

/// The position of `name` among the definitions, which is made where it is missing.
fn entry_at(defs: &mut Vec<LuaWidgetDef>, name: String, Ghost(m): Ghost<Map<Seq<u8>, WidgetInfo>>)
    -> (r: usize)
    requires
        lists(old(defs)@, m),
    ensures
        r < final(defs)@.len(),
        final(defs)@[r as int].key() == text::bytes_of(name@),
        lists(final(defs)@, m.insert(text::bytes_of(name@), known(m, text::bytes_of(name@)))),
{
    let ghost all = keys(defs@);
    let ghost x = text::bytes_of(name@);
    let mut i: usize = 0;
    while i < defs.len() && comes_before(defs[i].name.as_str(), name.as_str())
        invariant
            i <= defs@.len(),
            all == keys(defs@),
            x == text::bytes_of(name@),
            forall|k: int| 0 <= k < i ==> names::before(#[trigger] all[k], x),
        decreases defs@.len() - i,
    {
        i += 1;
    }
    if i < defs.len() && same_str(defs[i].name.as_str(), name.as_str()) {
        assert(defs@[i as int].key() == x);
        assert(m.insert(x, known(m, x)) =~= m);
        i
    } else {
        proof {
            if i < all.len() {
                text::lemma_bytes_injective(defs@[i as int].name@, name@);
                names::law_before_total(all[i as int], x);
            }
            assert forall|k: int| i <= k < all.len() implies names::before(
                x,
                #[trigger] all[k],
            ) by {
                if k > i {
                    names::law_before_transitive(x, all[i as int], all[k]);
                }
            }
            if m.contains_key(x) {
                let k = choose|k: int| 0 <= k < defs@.len() && (#[trigger] defs@[k]).key() == x;
                assert(all[k] == x);
                names::law_before_total(x, x);
                assert(false);
            }
        }
        let ghost before = defs@;
        let fresh = LuaWidgetDef { name, lua_parent: None, custom_props: Vec::new() };
        let ghost fresh_view = fresh;
        defs.insert(i, fresh);
        proof {
            let new = defs@;
            let m2 = m.insert(x, known(m, x));
            assert(names::spelled(fresh_view.custom_props@) =~= Seq::empty());
            assert(names::name_set(fresh_view.custom_props@) =~= Set::empty());
            assert(keys(new) =~= all.insert(i as int, x));
            let ks = keys(new);
            assert forall|a: int, b: int|
                #![trigger ks[a], ks[b]]
                0 <= a < b < ks.len() implies names::before(ks[a], ks[b]) by {
                let p = if a < i { a } else { a - 1 };
                let q = if b < i { b } else { b - 1 };
                if a != i && b != i {
                    assert(names::before(all[p], all[q]));
                } else if a == i {
                    assert(names::before(x, all[q]));
                } else {
                    assert(names::before(all[p], x));
                }
            }
            assert forall|k: int| 0 <= k < new.len() implies (#[trigger] new[k]).wf()
                && m2.contains_key(new[k].key()) && m2[new[k].key()] == new[k].info() by {
                if k != i {
                    let p = if k < i { k } else { k - 1 };
                    assert(new[k] == before[p]);
                    assert(all[p] == before[p].key());
                    names::law_before_total(all[p], x);
                }
            }
            assert forall|n: Seq<u8>| #[trigger] m2.contains_key(n) implies exists|k: int|
                0 <= k < new.len() && (#[trigger] new[k]).key() == n by {
                if n == x {
                    assert(new[i as int].key() == x);
                } else {
                    let p = choose|p: int| 0 <= p < before.len() && (#[trigger] before[p]).key()
                        == n;
                    let k = if p < i { p } else { p + 1 };
                    assert(new[k] == before[p]);
                }
            }
        }
        i
    }
}

/// Changing what one definition says, and not its name, changes what the list says of that name.
proof fn lemma_lists_update(
    defs: Seq<LuaWidgetDef>,
    m: Map<Seq<u8>, WidgetInfo>,
    r: int,
    d: LuaWidgetDef,
)
    requires
        lists(defs, m),
        0 <= r < defs.len(),
        d.key() == defs[r].key(),
        d.wf(),
    ensures
        lists(defs.update(r, d), m.insert(d.key(), d.info())),
{
    let new = defs.update(r, d);
    let m2 = m.insert(d.key(), d.info());
    assert(keys(new) =~= keys(defs));
    assert forall|i: int| 0 <= i < new.len() implies m2.contains_key((#[trigger] new[i]).key())
        && m2[new[i].key()] == new[i].info() && new[i].wf() by {
        if i != r {
            assert(new[i] == defs[i]);
            let ks = keys(defs);
            assert(ks[i] == defs[i].key() && ks[r] == defs[r].key());
            if i < r {
                names::law_before_total(ks[i], ks[r]);
            } else {
                names::law_before_total(ks[r], ks[i]);
            }
        }
    }
    assert forall|n: Seq<u8>| #[trigger] m2.contains_key(n) implies exists|k: int|
        0 <= k < new.len() && (#[trigger] new[k]).key() == n by {
        if n == d.key() {
            assert(new[r].key() == n);
        } else {
            let p = choose|p: int| 0 <= p < defs.len() && (#[trigger] defs[p]).key() == n;
            assert(new[p].key() == n);
        }
    }
}

// ---------------------------------------------------------------------------------------------
// Scanning
// ---------------------------------------------------------------------------------------------

/// Whether `c` may stand in a Lua identifier.
pub fn is_ident_char(c: u8) -> (r: bool)
    ensures
        r == lua_refs::ident_byte(c),
{
    is_ident_byte(c)
}

/// Whether `s` is a Lua identifier.
pub fn is_identifier(s: &str) -> (r: bool)
    ensures
        r == identifier(s.spec_bytes()),
{
    let b = s.as_bytes();
    if b.len() == 0 || !is_ident_char(b[0]) || (ascii::DIGIT_0 <= b[0] && b[0] <= ascii::DIGIT_9) {
        return false;
    }
    let mut i: usize = 0;
    while i < b.len()
        invariant
            b@ == s.spec_bytes(),
            i <= b@.len(),
            forall|k: int| 0 <= k < i ==> lua_refs::ident_byte(#[trigger] b@[k]),
        decreases b@.len() - i,
    {
        if !is_ident_char(b[i]) {
            return false;
        }
        i += 1;
    }
    true
}

proof fn lemma_token_start(s: Seq<u8>, j: int)
    requires
        valid_utf8(s),
        0 <= j <= s.len(),
        text::boundary(s, j),
    ensures
        0 <= token_start(s, j) <= j,
        text::boundary(s, token_start(s, j)),
    decreases j,
{
    lemma_token_start_any(s, j);
    text::lemma_ends_boundary(s);
}

proof fn lemma_token_start_any(s: Seq<u8>, j: int)
    requires
        valid_utf8(s),
        0 <= j <= s.len(),
    ensures
        0 <= token_start(s, j) <= j,
        token_start(s, j) == 0 || text::boundary(s, token_start(s, j)),
    decreases j,
{
    if j > 0 {
        if text::ws_len_before(s, j) > 0 {
            text::lemma_ws_before_boundary(s, j);
        } else {
            lemma_token_start_any(s, j - 1);
        }
    }
}

/// The last word of `s`, when it is an identifier.
pub fn last_identifier<'a>(s: &'a str) -> (r: Option<&'a str>)
    ensures
        match r {
            Some(t) => last_ident(s.spec_bytes()) == Some(t.spec_bytes()),
            None => last_ident(s.spec_bytes()) is None,
        },
{
    let t = trimmed_end(s);
    let b = t.as_bytes();
    let n: usize = b.len();
    let mut j: usize = n;
    while j > 0 && !(text::ws_len_at(b, j - 1) == 1 || (j >= 2 && text::ws_len_at(b, j - 2) == 2)
        || (j >= 3 && text::ws_len_at(b, j - 3) == 3))
        invariant
            b@ == t.spec_bytes(),
            n == b@.len(),
            j <= n,
            token_start(b@, j as int) == token_start(b@, n as int),
        decreases j,
    {
        j -= 1;
    }
    proof {
        text::lemma_valid(t);
        text::lemma_ends_boundary(b@);
        lemma_token_start(b@, n as int);
    }
    let word = str_from(t, j);
    if is_identifier(word) {
        Some(word)
    } else {
        None
    }
}

/// Whether `s` starts with `word` as a whole word.
pub fn starts_with_word(s: &str, word: &str) -> (r: bool)
    ensures
        r == starts_word(s.spec_bytes(), word.spec_bytes()),
{
    let b = s.as_bytes();
    let w = word.as_bytes();
    occurs_at(b, 0, w) && (w.len() >= b.len() || !is_ident_char(b[w.len()]))
}

/// Whether `s` ends with `word` as a whole word.
pub fn ends_with_word(s: &str, word: &str) -> (r: bool)
    ensures
        r == ends_word(s.spec_bytes(), word.spec_bytes()),
{
    let b = s.as_bytes();
    let w = word.as_bytes();
    if w.len() > b.len() {
        return false;
    }
    let at: usize = b.len() - w.len();
    occurs_at(b, at, w) && (at == 0 || !is_ident_char(b[at - 1]))
}

/// The content of the string literal at the start of `s`.
pub fn leading_string_literal<'a>(s: &'a str) -> (r: Option<&'a str>)
    ensures
        match r {
            Some(t) => first_literal(s.spec_bytes()) == Some(t.spec_bytes()),
            None => first_literal(s.spec_bytes()) is None,
        },
{
    let b = s.as_bytes();
    if !(has_at(b, 0, ascii::QUOTE) || has_at(b, 0, ascii::DOUBLE_QUOTE)) {
        return None;
    }
    match find_byte_at(b, b[0], 1) {
        Some(k) => {
            proof {
                text::lemma_valid(s);
                text::lemma_ascii_boundary(b@, 0);
                text::lemma_ascii_boundary(b@, k as int);
            }
            Some(substr(s, 1, k))
        },
        None => None,
    }
}

/// The content of the string literal at the end of `s`.
pub fn trailing_string_literal<'a>(s: &'a str) -> (r: Option<&'a str>)
    ensures
        match r {
            Some(t) => final_literal(s.spec_bytes()) == Some(t.spec_bytes()),
            None => final_literal(s.spec_bytes()) is None,
        },
{
    let b = s.as_bytes();
    let n: usize = b.len();
    if n == 0 || !(b[n - 1] == ascii::QUOTE || b[n - 1] == ascii::DOUBLE_QUOTE) {
        return None;
    }
    let quote: u8 = b[n - 1];
    let mut j: usize = n - 1;
    while j > 0 && b[j - 1] != quote
        invariant
            n == b@.len(),
            n > 0,
            j <= n - 1,
            text::rfind_byte(b@, quote, j as int) == text::rfind_byte(b@, quote, n - 1),
        decreases j,
    {
        j -= 1;
    }
    if j == 0 {
        return None;
    }
    proof {
        text::lemma_valid(s);
        text::lemma_ascii_boundary(b@, j - 1);
        text::lemma_ascii_boundary(b@, n - 1);
    }
    Some(substr(s, j, n - 1))
}

/// The first `==` that no comparison sign precedes.
pub fn find_double_equals(line: &str) -> (r: Option<usize>)
    ensures
        match r {
            Some(i) => double_equals(line.spec_bytes(), 0) == Some(i as int) && i + 2
                <= line.spec_bytes().len() && line.spec_bytes()[i as int] == ascii::EQUALS
                && line.spec_bytes()[i + 1] == ascii::EQUALS,
            None => double_equals(line.spec_bytes(), 0) is None,
        },
{
    let b = line.as_bytes();
    let n: usize = b.len();
    let mut i: usize = 0;
    while i < n && i + 1 < n
        invariant
            b@ == line.spec_bytes(),
            n == b@.len(),
            i <= n,
            double_equals(b@, i as int) == double_equals(b@, 0),
        decreases n - i,
    {
        if b[i] == ascii::EQUALS && b[i + 1] == ascii::EQUALS {
            let free: bool = i == 0 || !(b[i - 1] == ascii::TILDE || b[i - 1] == ascii::LESS || b[i - 1] == ascii::GREATER
                || b[i - 1] == ascii::EQUALS);
            if free {
                return Some(i);
            }
        }
        i += 1;
    }
    None
}

proof fn lemma_literal_bytes()
    ensures
        "extends".spec_bytes().len() == 7,
        "extends".spec_bytes().last() < 0x80,
        "function ".spec_bytes().len() == 9,
        "function ".spec_bytes().last() < 0x80,
        "function ".spec_bytes()[0] != ascii::SPACE,
        "function ".spec_bytes()[0] != ascii::TAB,
        "onStyleApply".spec_bytes().len() == 12,
        "onStyleApply".spec_bytes().last() < 0x80,
        "for ".spec_bytes().len() == 4,
        "for ".spec_bytes().last() < 0x80,
        "end".spec_bytes().len() == 3,
        "end".spec_bytes()[0] != ascii::SPACE,
        "end".spec_bytes()[0] != ascii::TAB,
        "styleNode".spec_bytes().len() == 9,
{
    reveal_strlit("extends");
    reveal_strlit("function ");
    reveal_strlit("onStyleApply");
    reveal_strlit("for ");
    reveal_strlit("end");
    reveal_strlit("styleNode");
    is_ascii_chars_encode_utf8("extends"@);
    is_ascii_chars_encode_utf8("function "@);
    is_ascii_chars_encode_utf8("onStyleApply"@);
    is_ascii_chars_encode_utf8("for "@);
    is_ascii_chars_encode_utf8("end"@);
    is_ascii_chars_encode_utf8("styleNode"@);
}

/// What follows `pat` at the start of `s`.
fn after_prefix<'a>(s: &'a str, pat: &str) -> (r: Option<&'a str>)
    requires
        pat.spec_bytes().len() > 0,
        pat.spec_bytes().last() < 0x80,
    ensures
        match r {
            Some(t) => starts(s.spec_bytes(), pat.spec_bytes()) && t.spec_bytes() == text::from(
                s.spec_bytes(),
                pat.spec_bytes().len() as int,
            ),
            None => !starts(s.spec_bytes(), pat.spec_bytes()),
        },
{
    let b = s.as_bytes();
    let p = pat.as_bytes();
    if occurs_at(b, 0, p) {
        proof {
            text::lemma_valid(s);
            assert(b@.subrange(0, p@.len() as int).last() == b@[p@.len() - 1]);
            text::lemma_ascii_boundary(b@, p@.len() - 1);
        }
        Some(str_from(s, p.len()))
    } else {
        None
    }
}

/// The widget and its parent class where a line reads `name = extends(parent, ...)`.
pub fn parse_extends<'a>(line: &'a str) -> (r: Option<(&'a str, Option<&'a str>)>)
    ensures
        match r {
            Some((name, Some(parent))) => extends_line(line.spec_bytes()) == Some(
                (name.spec_bytes(), Some(parent.spec_bytes())),
            ),
            Some((name, None)) => extends_line(line.spec_bytes()) == Some(
                (name.spec_bytes(), None::<Seq<u8>>),
            ),
            None => extends_line(line.spec_bytes()) is None,
        },
{
    proof {
        lemma_literal_bytes();
        text::lemma_valid(line);
    }
    let b = line.as_bytes();
    let eq: usize = match find_byte_at(b, ascii::EQUALS, 0) {
        Some(eq) => eq,
        None => {
            return None;
        },
    };
    proof {
        text::lemma_ascii_boundary(b@, eq as int);
    }
    let name = match last_identifier(trimmed(str_upto(line, eq))) {
        Some(name) => name,
        None => {
            return None;
        },
    };
    let n: usize = b.len();
    let rest = trimmed_start(str_from(line, eq + 1));
    let call = match after_prefix(rest, "extends") {
        Some(after) => trimmed_start(after),
        None => {
            return None;
        },
    };
    let c = call.as_bytes();
    if !has_at(c, 0, ascii::OPEN_PAREN) {
        return None;
    }
    proof {
        text::lemma_valid(call);
        text::lemma_ascii_boundary(c@, 0);
    }
    let args = str_from(call, 1);
    let a = args.as_bytes();
    let n: usize = a.len();
    let mut end: usize = 0;
    while end < n && a[end] != ascii::COMMA && a[end] != ascii::CLOSE_PAREN
        invariant
            n == a@.len(),
            end <= n,
            first_arg_end(a@, end as int) == first_arg_end(a@, 0),
        decreases n - end,
    {
        end += 1;
    }
    proof {
        text::lemma_valid(args);
        text::lemma_ends_boundary(a@);
        if end < n {
            text::lemma_ascii_boundary(a@, end as int);
        }
    }
    let first = trimmed(str_upto(args, end));
    let parent = if is_identifier(first) {
        Some(first)
    } else {
        None
    };
    Some((name, parent))
}

/// The widget whose `onStyleApply` a line opens.
pub fn parse_on_style_apply_header<'a>(line: &'a str) -> (r: Option<&'a str>)
    ensures
        match r {
            Some(name) => apply_header(line.spec_bytes()) == Some(name.spec_bytes()),
            None => apply_header(line.spec_bytes()) is None,
        },
{
    proof {
        lemma_literal_bytes();
    }
    let after = match after_prefix(trimmed_start(line), "function ") {
        Some(after) => after,
        None => {
            return None;
        },
    };
    let a = after.as_bytes();
    let colon: usize = match find_byte_at(a, ascii::COLON, 0) {
        Some(colon) => colon,
        None => {
            return None;
        },
    };
    let n: usize = a.len();
    proof {
        text::lemma_valid(after);
        text::lemma_ascii_boundary(a@, colon as int);
    }
    let rest = match after_prefix(str_from(after, colon + 1), "onStyleApply") {
        Some(rest) => trimmed_start(rest),
        None => {
            return None;
        },
    };
    if !has_at(rest.as_bytes(), 0, ascii::OPEN_PAREN) {
        return None;
    }
    last_identifier(trimmed(str_upto(after, colon)))
}

/// Whether a line starts with the word `end`.
pub fn starts_with_end_keyword(line: &str) -> (r: bool)
    ensures
        r == starts_word(line.spec_bytes(), "end".spec_bytes()),
{
    starts_with_word(line, "end")
}

/// The bytes of each line.
pub open spec fn line_bytes(lines: Seq<&str>) -> Seq<Seq<u8>> {
    lines.map_values(|l: &str| l.spec_bytes())
}

/// The line that closes the body, or the number of lines.
pub fn on_style_apply_body_end(lines: &[&str], start: usize) -> (r: usize)
    requires
        start <= lines@.len(),
    ensures
        r == body_end(line_bytes(lines@), start as int),
        start <= r <= lines@.len(),
{
    let ghost all = line_bytes(lines@);
    proof {
        lemma_literal_bytes();
        lemma_body_end(all, start as int);
    }
    let mut i: usize = start;
    while i < lines.len()
        invariant
            start <= i <= lines@.len(),
            all == line_bytes(lines@),
            body_end(all, i as int) == body_end(all, start as int),
        decreases lines@.len() - i,
    {
        let line = lines[i];
        assert(all[i as int] == line.spec_bytes());
        if occurs_at(line.as_bytes(), 0, "function ".as_bytes()) || starts_with_end_keyword(line) {
            return i;
        }
        i += 1;
    }
    i
}

/// The name of the style-node parameter in an `onStyleApply` header.
pub fn style_node_variable<'a>(header: &'a str) -> (r: &'a str)
    ensures
        r.spec_bytes() == node_variable(header.spec_bytes()),
{
    let h = header.as_bytes();
    proof {
        text::lemma_valid(header);
    }
    let open: usize = match find_byte_at(h, ascii::OPEN_PAREN, 0) {
        Some(open) => open,
        None => {
            return "styleNode";
        },
    };
    let close: usize = match find_byte_at(h, ascii::CLOSE_PAREN, open) {
        Some(close) => close,
        None => {
            return "styleNode";
        },
    };
    proof {
        text::lemma_ascii_boundary(h@, open as int);
        text::lemma_ascii_boundary(h@, close as int);
    }
    let args = substr(header, open + 1, close);
    let a = args.as_bytes();
    let comma: usize = match find_byte_at(a, ascii::COMMA, 0) {
        Some(comma) => comma,
        None => {
            return "styleNode";
        },
    };
    proof {
        text::lemma_valid(args);
        text::lemma_ascii_boundary(a@, comma as int);
    }
    let rest = str_from(args, comma + 1);
    let second = match find_byte_at(rest.as_bytes(), ascii::COMMA, 0) {
        Some(k) => {
            proof {
                text::lemma_valid(rest);
                text::lemma_ascii_boundary(rest.spec_bytes(), k as int);
            }
            str_upto(rest, k)
        },
        None => rest,
    };
    match last_identifier(trimmed(second)) {
        Some(name) => name,
        None => "styleNode",
    }
}

/// The key variable of the first loop over the style node.
pub fn style_key_variable<'a>(body: &[&'a str], node_var: &str) -> (r: &'a str)
    ensures
        r.spec_bytes() == key_variable(line_bytes(body@), node_var.spec_bytes(), 0),
{
    let ghost all = line_bytes(body@);
    let mut pairs: Vec<u8> = Vec::new();
    pairs.extend_from_slice("pairs(".as_bytes());
    pairs.extend_from_slice(node_var.as_bytes());
    pairs.extend_from_slice(")".as_bytes());
    assert(pairs@ =~= "pairs(".spec_bytes() + node_var.spec_bytes() + ")".spec_bytes());
    proof {
        lemma_literal_bytes();
    }
    let mut i: usize = 0;
    while i < body.len()
        invariant
            i <= body@.len(),
            all == line_bytes(body@),
            "for ".spec_bytes().len() == 4,
            "for ".spec_bytes().last() < 0x80,
            pairs@ == "pairs(".spec_bytes() + node_var.spec_bytes() + ")".spec_bytes(),
            key_variable(all, node_var.spec_bytes(), i as int) == key_variable(
                all,
                node_var.spec_bytes(),
                0,
            ),
        decreases body@.len() - i,
    {
        let line = body[i];
        assert(all[i as int] == line.spec_bytes());
        if find_at(line.as_bytes(), pairs.as_slice(), 0).is_some() {
            if let Some(after) = after_prefix(trimmed_start(line), "for ") {
                let a = after.as_bytes();
                let n: usize = a.len();
                let mut end: usize = 0;
                while end < n && a[end] != ascii::COMMA && a[end] != ascii::SPACE && a[end] != ascii::TAB
                    invariant
                        n == a@.len(),
                        end <= n,
                        first_word_end(a@, end as int) == first_word_end(a@, 0),
                    decreases n - end,
                {
                    end += 1;
                }
                proof {
                    text::lemma_valid(after);
                    text::lemma_ends_boundary(a@);
                    if end < n {
                        text::lemma_ascii_boundary(a@, end as int);
                    }
                }
                if let Some(key) = last_identifier(trimmed(str_upto(after, end))) {
                    return key;
                }
            }
        }
        i += 1;
    }
    "name"
}

/// The literal that a line compares the key variable with.
pub fn comparison_literal<'a>(line: &'a str, key_var: &str) -> (r: Option<&'a str>)
    ensures
        match r {
            Some(prop) => compared(line.spec_bytes(), key_var.spec_bytes()) == Some(
                prop.spec_bytes(),
            ),
            None => compared(line.spec_bytes(), key_var.spec_bytes()) is None,
        },
{
    let n: usize = line.as_bytes().len();
    let eq: usize = match find_double_equals(line) {
        Some(eq) => eq,
        None => {
            return None;
        },
    };
    proof {
        text::lemma_valid(line);
        text::lemma_ascii_boundary(line.spec_bytes(), eq as int);
        text::lemma_ascii_boundary(line.spec_bytes(), eq + 1);
    }
    let left = trimmed_end(str_upto(line, eq));
    let right = trimmed_start(str_from(line, eq + 2));
    if ends_with_word(left, key_var) {
        if let Some(literal) = leading_string_literal(right) {
            return Some(literal);
        }
    }
    if starts_with_word(right, key_var) {
        trailing_string_literal(left)
    } else {
        None
    }
}

/// Puts the properties that a line reads off the style node into `props`.
pub fn collect_style_node_reads(line: &str, var: &str, props: &mut Vec<String>)
    requires
        names::ascending(names::spelled(old(props)@)),
        var.spec_bytes().len() > 0,
        var.spec_bytes().last() < 0x80,
    ensures
        names::ascending(names::spelled(final(props)@)),
        names::name_set(final(props)@) == names::name_set(old(props)@).union(
            node_reads(line.spec_bytes(), var.spec_bytes(), 0),
        ),
{
    let b = line.as_bytes();
    let v = var.as_bytes();
    let n: usize = b.len();
    let ghost start = names::name_set(props@);
    let ghost whole = start.union(node_reads(b@, v@, 0));
    let mut i: usize = 0;
    proof {
        text::lemma_valid(line);
    }
    while i < n
        invariant
            b@ == line.spec_bytes(),
            v@ == var.spec_bytes(),
            valid_utf8(b@),
            v@.len() > 0,
            v@.last() < 0x80,
            n == b@.len(),
            names::ascending(names::spelled(props@)),
            names::name_set(props@).union(node_reads(b@, v@, i as int)) == whole,
        decreases n - i,
    {
        if !occurs_at(b, i, v) {
            i += 1;
            continue;
        }
        let e: usize = i + v.len();
        proof {
            assert(b@.subrange(i as int, i + v@.len()).last() == b@[e - 1]);
            text::lemma_ascii_boundary(b@, e - 1);
        }
        if i == 0 || !is_ident_char(b[i - 1]) {
            let mut found: Option<&str> = None;
            if has_at(b, e, ascii::DOT) {
                let end: usize = lua_refs::ident_end(line, e + 1);
                proof {
                    lua_refs::lemma_ident_run_end(b@, e + 1);
                    text::lemma_ascii_boundary(b@, e as int);
                    if end > e + 1 {
                        text::lemma_ascii_boundary(b@, end - 1);
                    }
                }
                if end > e + 1 {
                    found = Some(substr(line, e + 1, end));
                }
            } else if has_at(b, e, ascii::OPEN_BRACKET) {
                proof {
                    text::lemma_ascii_boundary(b@, e as int);
                }
                found = leading_string_literal(trimmed_start(str_from(line, e + 1)));
            }
            assert(match found {
                Some(p) => read_at(b@, e as int) == Some(p.spec_bytes()),
                None => read_at(b@, e as int) is None,
            });
            if let Some(prop) = found {
                let ghost had = names::name_set(props@);
                let ghost rest = node_reads(b@, v@, e as int);
                insert_name(props, prop.to_owned());
                assert(had.insert(prop.spec_bytes()).union(rest) =~= had.union(
                    rest.insert(prop.spec_bytes()),
                ));
            }
        }
        i = e;
    }
    assert(names::name_set(props@) =~= whole);
}

/// The properties that a body reads; its first line is the header.
pub fn collect_props(body: &[&str]) -> (props: Vec<String>)
    requires
        body@.len() > 0,
    ensures
        names::ascending(names::spelled(props@)),
        names::name_set(props@) == body_props(line_bytes(body@)),
{
    let ghost all = line_bytes(body@);
    let node = style_node_variable(body[0]);
    let key = style_key_variable(body, node);
    proof {
        assert(all[0] == body@[0].spec_bytes());
        lemma_node_variable(all[0]);
    }
    let mut props: Vec<String> = Vec::new();
    assert(names::spelled(props@) =~= Seq::empty());
    assert(names::name_set(props@) =~= Set::empty());
    let mut i: usize = 0;
    while i < body.len()
        invariant
            i <= body@.len(),
            all == line_bytes(body@),
            node.spec_bytes().len() > 0,
            node.spec_bytes().last() < 0x80,
            names::ascending(names::spelled(props@)),
            names::name_set(props@) == props_upto(all, key.spec_bytes(), node.spec_bytes(), i as int),
        decreases body@.len() - i,
    {
        let line = body[i];
        let ghost had = names::name_set(props@);
        let ghost reads = node_reads(line.spec_bytes(), node.spec_bytes(), 0);
        assert(all[i as int] == line.spec_bytes());
        if let Some(prop) = comparison_literal(line, key) {
            insert_name(&mut props, prop.to_owned());
            assert(had.insert(prop.spec_bytes()).union(reads) =~= had.union(
                reads.insert(prop.spec_bytes()),
            ));
        }
        collect_style_node_reads(line, node, &mut props);
        i += 1;
    }
    props
}

proof fn lemma_node_variable(header: Seq<u8>)
    ensures
        node_variable(header).len() > 0,
        node_variable(header).last() < 0x80,
{
    reveal_strlit("styleNode");
    is_ascii_chars_encode_utf8("styleNode"@);
    let name = node_variable(header);
    if name != "styleNode".spec_bytes() {
        assert(identifier(name));
        assert(lua_refs::ident_byte(name[name.len() - 1]));
    }
}

/// The lines of `source`, without their ends.
pub fn split_lines<'a>(source: &'a str) -> (lines: Vec<&'a str>)
    ensures
        line_bytes(lines@) == line_texts(source.spec_bytes()),
{
    let s = source.as_bytes();
    let n: usize = s.len();
    let ghost whole = lines_from(s@, 0);
    let ghost mut done = Seq::<(int, int)>::empty();
    let mut lines: Vec<&'a str> = Vec::new();
    let mut i: usize = 0;
    proof {
        text::lemma_valid(source);
        text::lemma_ends_boundary(s@);
        assert(done + whole =~= whole);
        assert(line_bytes(lines@) =~= done.map_values(|p: (int, int)| s@.subrange(p.0, p.1)));
    }
    while i < n
        invariant
            s@ == source.spec_bytes(),
            valid_utf8(s@),
            n == s@.len(),
            i <= n,
            text::boundary(s@, i as int),
            done + lines_from(s@, i as int) == whole,
            line_bytes(lines@) == done.map_values(|p: (int, int)| s@.subrange(p.0, p.1)),
        decreases n - i,
    {
        let mut next: usize = n;
        let mut end: usize = n;
        match find_byte_at(s, ascii::NEWLINE, i) {
            Some(k) => {
                proof {
                    text::lemma_ascii_boundary(s@, k as int);
                }
                end = k;
                if i < k && s[k - 1] == ascii::RETURN {
                    proof {
                        text::lemma_ascii_boundary(s@, k - 1);
                    }
                    end = k - 1;
                }
                next = k + 1;
            },
            None => {
                proof {
                    text::lemma_ends_boundary(s@);
                    assert(lines_from(s@, n as int) =~= Seq::empty());
                }
            },
        }
        let line = substr(source, i, end);
        proof {
            let p = (i as int, end as int);
            let rest = lines_from(s@, next as int);
            assert(lines_from(s@, i as int) =~= seq![p] + rest);
            assert(done.push(p) + rest =~= done + (seq![p] + rest));
            assert(line_bytes(lines@.push(line)) =~= line_bytes(lines@).push(line.spec_bytes()));
            assert(done.push(p).map_values(|p: (int, int)| s@.subrange(p.0, p.1)) =~= done.map_values(
                |p: (int, int)| s@.subrange(p.0, p.1),
            ).push(s@.subrange(p.0, p.1)));
            done = done.push(p);
        }
        lines.push(line);
        i = next;
    }
    assert(done =~= whole);
    lines
}

/// Every widget that a Lua source declares, in ascending order of the names. A widget is listed
/// where either construct names it.
pub fn scan_widgets(source: &str) -> (r: Vec<LuaWidgetDef>)
    ensures
        lists(r@, widgets(source.spec_bytes())),
{
    let lines = split_lines(source);
    let ghost all = line_texts(source.spec_bytes());
    let mut defs: Vec<LuaWidgetDef> = Vec::new();
    let mut i: usize = 0;
    while i < lines.len()
        invariant
            i <= lines@.len(),
            all == line_bytes(lines@),
            lists(defs@, declared(all, i as int)),
        decreases lines@.len() - i,
    {
        assert(all[i as int] == lines@[i as int].spec_bytes());
        if let Some((name, parent)) = parse_extends(lines[i]) {
            let ghost m = declared(all, i as int);
            let ghost x = name.spec_bytes();
            let at: usize = entry_at(&mut defs, name.to_owned(), Ghost(m));
            let ghost m2 = m.insert(x, known(m, x));
            let ghost before = defs@;
            if defs[at].lua_parent.is_none() {
                if let Some(p) = parent {
                    let mut def = defs.remove(at);
                    def.lua_parent = Some(p.to_owned());
                    proof {
                        lemma_lists_update(before, m2, at as int, def);
                    }
                    let ghost d = def;
                    defs.insert(at, def);
                    assert(defs@ =~= before.update(at as int, d));
                }
            }
            assert(lists(defs@, declared(all, i + 1))) by {
                assert(m2.insert(x, with_parent(m, x, match parent {
                    Some(p) => Some(p.spec_bytes()),
                    None => None,
                })[x]) =~= declared(all, i + 1));
                if defs@ == before {
                    assert(m2 =~= declared(all, i + 1));
                }
            }
        }
        i += 1;
    }
    let ghost first = declared(all, all.len() as int);
    let ghost mut m = first;
    i = 0;
    while i < lines.len()
        invariant
            i <= lines@.len(),
            all == line_bytes(lines@),
            lists(defs@, m),
            applied(all, i as int, m) == applied(all, 0, first),
        decreases lines@.len() - i,
    {
        assert(all[i as int] == lines@[i as int].spec_bytes());
        match parse_on_style_apply_header(lines[i]) {
            Some(name) => {
                let end: usize = on_style_apply_body_end(lines.as_slice(), i + 1);
                let body = vstd::slice::slice_subrange(lines.as_slice(), i, end);
                let props = collect_props(body);
                let ghost x = name.spec_bytes();
                let at: usize = entry_at(&mut defs, name.to_owned(), Ghost(m));
                let ghost m2 = m.insert(x, known(m, x));
                let ghost before = defs@;
                let mut def = defs.remove(at);
                insert_names(&mut def.custom_props, props.as_slice());
                proof {
                    lemma_lists_update(before, m2, at as int, def);
                    assert(line_bytes(body@) =~= all.subrange(i as int, end as int));
                    let m3 = with_props(m, x, body_props(all.subrange(i as int, end as int)));
                    assert(m2.insert(x, def.info()) =~= m3);
                    m = m3;
                }
                let ghost d = def;
                defs.insert(at, def);
                assert(defs@ =~= before.update(at as int, d));
                i = end;
            },
            None => {
                i += 1;
            },
        }
    }
    defs
}

// ---------------------------------------------------------------------------------------------
// The index
// ---------------------------------------------------------------------------------------------

/// The widgets that the Lua documents of a workspace declare.
#[derive(Debug)]
pub struct LuaWidgetIndex {
    index: DocIndex<LuaWidgetDef>,
}

impl View for LuaWidgetIndex {
    type V = doc_index::DocItems<LuaWidgetDef>;

    closed spec fn view(&self) -> doc_index::DocItems<LuaWidgetDef> {
        self.index@
    }
}

/// Every definition, in the order of the documents.
pub open spec fn all_defs(docs: doc_index::DocItems<LuaWidgetDef>) -> Seq<LuaWidgetDef> {
    doc_index::pairs(docs).map_values(|p: (Seq<char>, LuaWidgetDef)| p.1)
}

/// The definitions of the widget `name`.
pub open spec fn defs_named(defs: Seq<LuaWidgetDef>, name: Seq<char>) -> Seq<LuaWidgetDef> {
    defs.filter(|d: LuaWidgetDef| d.name@ == name)
}

/// Whether a definition in a document gives the widget `name` a parent class.
pub open spec fn gives_parent(p: (Seq<char>, LuaWidgetDef), name: Seq<char>) -> bool {
    p.1.name@ == name && p.1.lua_parent is Some
}

/// The first definition, among those of the document that comes first, that gives `name` a parent
/// class.
pub open spec fn parent_source(
    all: Seq<(Seq<char>, LuaWidgetDef)>,
    name: Seq<char>,
    k: int,
) -> Option<int>
    decreases k,
{
    if k <= 0 {
        None
    } else {
        match parent_source(all, name, k - 1) {
            Some(j) => if gives_parent(all[k - 1], name) && names::before(
                text::bytes_of(all[k - 1].0),
                text::bytes_of(all[j].0),
            ) {
                Some(k - 1)
            } else {
                Some(j)
            },
            None => if gives_parent(all[k - 1], name) {
                Some(k - 1)
            } else {
                None
            },
        }
    }
}

/// The parent class of the widget `name` across all documents.
pub open spec fn parent_in(docs: doc_index::DocItems<LuaWidgetDef>, name: Seq<char>) -> Option<
    Seq<char>,
> {
    let all = doc_index::pairs(docs);
    match parent_source(all, name, all.len() as int) {
        Some(j) => Some(all[j].1.lua_parent->0@),
        None => None,
    }
}

/// Whether some definition of the widget `name` reads the property `prop`.
pub open spec fn declares_in(
    docs: doc_index::DocItems<LuaWidgetDef>,
    name: Seq<char>,
    prop: Seq<u8>,
) -> bool {
    exists|k: int|
        0 <= k < all_defs(docs).len() && (#[trigger] all_defs(docs)[k]).name@ == name
            && names::name_set(all_defs(docs)[k].custom_props@).contains(prop)
}

/// The parent class is taken from the document that comes first among those that give one.
pub proof fn law_parent_source(all: Seq<(Seq<char>, LuaWidgetDef)>, name: Seq<char>, k: int)
    requires
        0 <= k <= all.len(),
    ensures
        match parent_source(all, name, k) {
            Some(j) => 0 <= j < k && gives_parent(all[j], name) && forall|i: int|
                0 <= i < k && #[trigger] gives_parent(all[i], name) ==> !names::before(
                    text::bytes_of(all[i].0),
                    text::bytes_of(all[j].0),
                ),
            None => forall|i: int| 0 <= i < k ==> !#[trigger] gives_parent(all[i], name),
        },
    decreases k,
{
    if k > 0 {
        law_parent_source(all, name, k - 1);
        if let Some(j) = parent_source(all, name, k - 1) {
            let new = parent_source(all, name, k)->0;
            assert forall|i: int| 0 <= i < k && #[trigger] gives_parent(all[i], name) implies !names::before(
                text::bytes_of(all[i].0),
                text::bytes_of(all[new].0),
            ) by {
                let a = text::bytes_of(all[i].0);
                let b = text::bytes_of(all[j].0);
                let c = text::bytes_of(all[new].0);
                names::law_before_total(c, c);
                if new != j && names::before(a, c) {
                    if i < k - 1 {
                        names::law_before_transitive(a, c, b);
                    }
                }
            }
        } else if gives_parent(all[k - 1], name) {
            names::law_before_total(text::bytes_of(all[k - 1].0), text::bytes_of(all[k - 1].0));
        }
    }
}

impl LuaWidgetIndex {
    /// No document is held twice.
    pub open spec fn wf(&self) -> bool {
        doc_index::distinct(self@)
    }

    /// The index without documents.
    pub fn new() -> (index: Self)
        ensures
            index@ == Seq::<(Seq<char>, Seq<LuaWidgetDef>)>::empty(),
            index.wf(),
    {
        LuaWidgetIndex { index: DocIndex::new() }
    }

    /// Sets the definitions of one document, in place of those it had.
    pub fn set_document<D: IntoDocId>(&mut self, doc: D, defs: Vec<LuaWidgetDef>)
        ensures
            final(self)@ == doc_index::with_document(old(self)@, doc.doc_text(), defs@),
            old(self).wf() ==> final(self).wf(),
    {
        self.index.set_document(doc, defs);
    }

    /// Drops a document and hands back its definitions.
    pub fn remove_document(&mut self, doc: &DocId) -> (r: Option<Vec<LuaWidgetDef>>)
        ensures
            final(self)@ == doc_index::without_document(old(self)@, doc@),
            match r {
                Some(defs) => doc_index::items_of(old(self)@, doc@) == Some(defs@),
                None => doc_index::items_of(old(self)@, doc@) is None,
            },
            old(self).wf() ==> final(self).wf(),
    {
        self.index.remove_document(doc)
    }

    /// The definitions of one document.
    pub fn document(&self, doc: &DocId) -> (r: Option<&[LuaWidgetDef]>)
        ensures
            match r {
                Some(defs) => doc_index::items_of(self@, doc@) == Some(defs@),
                None => doc_index::items_of(self@, doc@) is None,
            },
    {
        self.index.document(doc)
    }

    /// Every definition of the widget `name` across all documents.
    pub fn lookup(&self, name: &str) -> (r: Vec<&LuaWidgetDef>)
        ensures
            r@.len() == defs_named(all_defs(self@), name@).len(),
            forall|i: int|
                0 <= i < r@.len() ==> *(#[trigger] r@[i]) == defs_named(all_defs(self@), name@)[i],
    {
        let all = self.iter();
        let ghost model = all_defs(self@);
        let mut r: Vec<&LuaWidgetDef> = Vec::new();
        let mut i: usize = 0;
        assert(defs_named(model.take(0), name@) =~= Seq::empty()) by {
            reveal(Seq::filter);
        }
        while i < all.len()
            invariant
                i <= all@.len(),
                all@.len() == model.len(),
                forall|k: int| 0 <= k < all@.len() ==> *(#[trigger] all@[k]) == model[k],
                r@.len() == defs_named(model.take(i as int), name@).len(),
                forall|k: int|
                    0 <= k < r@.len() ==> *(#[trigger] r@[k]) == defs_named(
                        model.take(i as int),
                        name@,
                    )[k],
            decreases all@.len() - i,
        {
            proof {
                reveal(Seq::filter);
                assert(model.take(i + 1).drop_last() =~= model.take(i as int));
                assert(model.take(i + 1).last() == model[i as int]);
            }
            if same_str(all[i].name.as_str(), name) {
                r.push(all[i]);
            }
            i += 1;
        }
        assert(model.take(model.len() as int) =~= model);
        r
    }

    /// The parent class of the widget `name`. Where several documents give one, that of the document
    /// that comes first counts, so that the answer does not vary.
    pub fn parent_of(&self, name: &str) -> (r: Option<&str>)
        ensures
            match r {
                Some(parent) => parent_in(self@, name@) == Some(parent@),
                None => parent_in(self@, name@) is None,
            },
    {
        let all = self.index.pairs();
        let ghost model = doc_index::pairs(self@);
        let mut best: Option<usize> = None;
        let mut i: usize = 0;
        while i < all.len()
            invariant
                i <= all@.len(),
                all@.len() == model.len(),
                forall|k: int|
                    0 <= k < all@.len() ==> (#[trigger] all@[k]).0@ == model[k].0 && *all@[k].1
                        == model[k].1,
                match best {
                    Some(j) => parent_source(model, name@, i as int) == Some(j as int) && j < i,
                    None => parent_source(model, name@, i as int) is None,
                },
            decreases all@.len() - i,
        {
            let pair = all[i];
            if same_str(pair.1.name.as_str(), name) && pair.1.lua_parent.is_some() {
                let better: bool = match best {
                    Some(j) => comes_before(pair.0.as_str(), all[j].0.as_str()),
                    None => true,
                };
                if better {
                    best = Some(i);
                }
            }
            i += 1;
        }
        proof {
            law_parent_source(model, name@, model.len() as int);
        }
        match best {
            Some(j) => match &all[j].1.lua_parent {
                Some(parent) => Some(parent.as_str()),
                None => None,
            },
            None => None,
        }
    }

    /// Whether some definition of the widget `name` reads the property `prop`.
    pub fn declares(&self, name: &str, prop: &str) -> (r: bool)
        ensures
            r == declares_in(self@, name@, prop.spec_bytes()),
    {
        let all = self.iter();
        let ghost model = all_defs(self@);
        let mut i: usize = 0;
        while i < all.len()
            invariant
                i <= all@.len(),
                model == all_defs(self@),
                all@.len() == model.len(),
                forall|k: int| 0 <= k < all@.len() ==> *(#[trigger] all@[k]) == model[k],
                forall|k: int|
                    0 <= k < i ==> !((#[trigger] model[k]).name@ == name@ && names::name_set(
                        model[k].custom_props@,
                    ).contains(prop.spec_bytes())),
            decreases all@.len() - i,
        {
            if same_str(all[i].name.as_str(), name) && contains_name(
                all[i].custom_props.as_slice(),
                prop,
            ) {
                assert(model[i as int].name@ == name@);
                return true;
            }
            i += 1;
        }
        false
    }

    /// Every definition across all documents.
    pub fn iter(&self) -> (r: Vec<&LuaWidgetDef>)
        ensures
            r@.len() == all_defs(self@).len(),
            forall|i: int| 0 <= i < r@.len() ==> *(#[trigger] r@[i]) == all_defs(self@)[i],
    {
        let all = self.index.pairs();
        let mut r: Vec<&LuaWidgetDef> = Vec::new();
        let mut i: usize = 0;
        while i < all.len()
            invariant
                i <= all@.len(),
                all@.len() == doc_index::pairs(self@).len(),
                forall|k: int|
                    0 <= k < all@.len() ==> *(#[trigger] all@[k]).1 == doc_index::pairs(self@)[k].1,
                r@.len() == i,
                forall|k: int| 0 <= k < i ==> *(#[trigger] r@[k]) == all_defs(self@)[k],
            decreases all@.len() - i,
        {
            r.push(all[i].1);
            i += 1;
        }
        r
    }

    /// The number of documents.
    pub fn document_count(&self) -> (n: usize)
        ensures
            n == self@.len(),
    {
        self.index.document_count()
    }

    /// Whether there is no document.
    pub fn is_empty(&self) -> (r: bool)
        ensures
            r == (self@.len() == 0),
    {
        self.index.is_empty()
    }
}

} // verus!
