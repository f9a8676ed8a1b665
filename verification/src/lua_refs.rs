//! Where OTClient Lua code refers to a widget by its `id:` value, and where it gives one.
//!
//! Three forms refer to an id: `widget:getChildById('id')`, `widget:recursiveGetChildById('id')` and
//! every segment of a chain behind `.ui.`, as in `controller.ui.panel.button`. One form gives an id:
//! `widget:setId('id')`. A call counts only when its sole argument is a complete string literal; an
//! id that is built at run time is not known here.
//!
//! There is no Lua grammar behind this: the scan is over bytes. What it must not read as code, the
//! comments and strings, is located first. Two rules keep that location honest in a file that is
//! being typed: an escape is read forwards, so that `'\\'` ends where it ends, and a short string
//! ends with its line, so that a stray quote costs one line and not the rest of the file.

use crate::ascii;
use crate::doc_index;
use crate::doc_index::{DocId, DocIndex, IntoDocId};
use crate::lang_api;
use crate::lang_api::ByteSpan;
use crate::order;
use crate::order::{sort_by_place, HasPlace, Placed};
use crate::text;
use crate::text::{find_at, find_byte_at, has_at, occurs_at, same_str, skip_ws_at, substr};
use vstd::prelude::*;
use vstd::string::*;
use vstd::utf8::*;

verus! {

/// The form in which an id is referred to.
#[derive(Debug, Clone, Copy, PartialEq, Eq, Structural)]
pub enum LuaIdRefKind {
    /// `widget:getChildById('id')`: a lookup among the direct children.
    GetChildById,
    /// `widget:recursiveGetChildById('id')`: a lookup in the whole subtree.
    RecursiveGetChildById,
    /// A segment of a chain behind `.ui.`. Plain controller state is written the same way, so the
    /// segment need not name a widget.
    DotUi,
}

/// One place that refers to a widget id; `span` covers the id alone.
#[derive(Debug, Clone, PartialEq, Eq)]
pub struct LuaIdRef {
    /// The id.
    pub id: String,
    /// Where it stands.
    pub span: ByteSpan,
    /// In which form.
    pub kind: LuaIdRefKind,
}

/// One place that gives a widget its id; `span` covers the id alone.
#[derive(Debug, Clone, PartialEq, Eq)]
pub struct LuaIdDef {
    /// The id.
    pub id: String,
    /// Where it stands.
    pub span: ByteSpan,
}

/// The model of a [`LuaIdRef`].
pub struct LuaIdRefView {
    /// The bytes of the id.
    pub id: Seq<u8>,
    /// Where they start.
    pub start: int,
    /// Where they end.
    pub end: int,
    /// The form of the reference.
    pub kind: LuaIdRefKind,
}

/// The model of a [`LuaIdDef`].
pub struct LuaIdDefView {
    /// The bytes of the id.
    pub id: Seq<u8>,
    /// Where they start.
    pub start: int,
    /// Where they end.
    pub end: int,
}

impl View for LuaIdRef {
    type V = LuaIdRefView;

    open spec fn view(&self) -> LuaIdRefView {
        LuaIdRefView {
            id: text::bytes_of(self.id@),
            start: self.span.start as int,
            end: self.span.end as int,
            kind: self.kind,
        }
    }
}

impl View for LuaIdDef {
    type V = LuaIdDefView;

    open spec fn view(&self) -> LuaIdDefView {
        LuaIdDefView {
            id: text::bytes_of(self.id@),
            start: self.span.start as int,
            end: self.span.end as int,
        }
    }
}

impl Placed for LuaIdRefView {
    open spec fn place(&self) -> (int, int) {
        (self.start, 0)
    }
}

impl Placed for LuaIdDefView {
    open spec fn place(&self) -> (int, int) {
        (self.start, 0)
    }
}

impl HasPlace for LuaIdRef {
    fn place_of(&self) -> (r: (usize, usize)) {
        (self.span.start, 0)
    }
}

impl HasPlace for LuaIdDef {
    fn place_of(&self) -> (r: (usize, usize)) {
        (self.span.start, 0)
    }
}

/// Whether `b` may stand in a Lua identifier.
pub open spec fn ident_byte(b: u8) -> bool {
    ||| ascii::LOWER_A <= b <= ascii::LOWER_Z
    ||| ascii::UPPER_A <= b <= ascii::UPPER_Z
    ||| ascii::DIGIT_0 <= b <= ascii::DIGIT_9
    ||| b == ascii::UNDERSCORE
}

/// Whether an identifier can start at offset `i` of `s`.
pub open spec fn ident_start(s: Seq<u8>, i: int) -> bool {
    0 <= i < s.len() && ident_byte(s[i]) && !(ascii::DIGIT_0 <= s[i] <= ascii::DIGIT_9)
}

/// Whether no identifier byte stands right before offset `i` of `s`.
pub open spec fn word_starts(s: Seq<u8>, i: int) -> bool {
    i <= 0 || i > s.len() || !ident_byte(s[i - 1])
}

/// Whether no identifier byte stands at offset `i` of `s`.
pub open spec fn word_ends(s: Seq<u8>, i: int) -> bool {
    !(0 <= i < s.len()) || !ident_byte(s[i])
}

/// The first offset at or after `i` that holds no identifier byte.
pub open spec fn ident_run_end(s: Seq<u8>, i: int) -> int
    decreases s.len() - i,
{
    if 0 <= i < s.len() && ident_byte(s[i]) {
        ident_run_end(s, i + 1)
    } else {
        i
    }
}

/// Where the short string ends whose body starts or goes on at `j`: behind its closing quote, at
/// the end of its line or at the end of the source. A backslash takes the byte behind it along.
pub open spec fn short_string_end(s: Seq<u8>, quote: u8, j: int) -> int
    decreases s.len() + 1 - j,
{
    if j >= s.len() {
        s.len() as int
    } else if s[j] == ascii::BACKSLASH {
        short_string_end(s, quote, j + 2)
    } else if s[j] == ascii::NEWLINE {
        j
    } else if s[j] == quote {
        j + 1
    } else {
        short_string_end(s, quote, j + 1)
    }
}

/// The first offset at or after `i` that holds no `=`.
pub open spec fn equals_run_end(s: Seq<u8>, i: int) -> int
    decreases s.len() - i,
{
    if text::has(s, i, ascii::EQUALS) {
        equals_run_end(s, i + 1)
    } else {
        i
    }
}

/// The close of a long bracket of the given level: `]`, so many `=`, `]`.
pub open spec fn long_close(level: int) -> Seq<u8> {
    seq![ascii::CLOSE_BRACKET] + Seq::new(level as nat, |k: int| ascii::EQUALS) + seq![ascii::CLOSE_BRACKET]
}

/// Where the long bracket ends that opens at `at` (`[`, any number of `=`, `[`): behind the close of
/// the same level, or at the end of the source.
pub open spec fn long_bracket(s: Seq<u8>, at: int) -> Option<int> {
    let k = equals_run_end(s, at + 1);
    if text::has(s, at, ascii::OPEN_BRACKET) && text::has(s, k, ascii::OPEN_BRACKET) {
        let level = k - (at + 1);
        match text::find(s, long_close(level), k + 1) {
            Some(p) => Some(p + level + 2),
            None => Some(s.len() as int),
        }
    } else {
        None
    }
}

/// Where the comment or string ends that opens at offset `i`, if one does.
pub open spec fn opaque_end(s: Seq<u8>, i: int) -> Option<int> {
    if s[i] == ascii::QUOTE || s[i] == ascii::DOUBLE_QUOTE {
        Some(short_string_end(s, s[i], i + 1))
    } else if s[i] == ascii::DASH && text::has(s, i + 1, ascii::DASH) {
        match long_bracket(s, i + 2) {
            Some(e) => Some(e),
            None => Some(text::line_end(s, i)),
        }
    } else if s[i] == ascii::OPEN_BRACKET {
        long_bracket(s, i)
    } else {
        None
    }
}

/// The comments and strings of the source from offset `i` on, where code stands at `i`.
pub open spec fn opaque_from(s: Seq<u8>, i: int) -> Seq<(int, int)>
    decreases s.len() - i,
    via opaque_from_decreases
{
    if !(0 <= i < s.len()) {
        Seq::empty()
    } else {
        match opaque_end(s, i) {
            Some(e) => seq![(i, e)] + opaque_from(s, e),
            None => opaque_from(s, i + 1),
        }
    }
}

#[via_fn]
proof fn opaque_from_decreases(s: Seq<u8>, i: int) {
    if 0 <= i < s.len() {
        lemma_opaque_end(s, i);
    }
}

/// The comments and strings of the source.
pub open spec fn opaque_ranges(s: Seq<u8>) -> Seq<(int, int)> {
    opaque_from(s, 0)
}

/// Whether `pos` lies in one of the ranges.
pub open spec fn covered(ranges: Seq<(int, int)>, pos: int) -> bool {
    exists|k: int| 0 <= k < ranges.len() && (#[trigger] ranges[k]).0 <= pos < ranges[k].1
}

/// Whether the ranges are non-empty, lie between `lo` and `hi`, and follow each other in order.
pub open spec fn ordered(ranges: Seq<(int, int)>, lo: int, hi: int) -> bool {
    &&& forall|k: int|
        0 <= k < ranges.len() ==> lo <= (#[trigger] ranges[k]).0 < ranges[k].1 <= hi
    &&& forall|i: int, j: int|
        #![trigger ranges[i], ranges[j]]
        0 <= i < j < ranges.len() ==> ranges[i].1 <= ranges[j].0
}

/// The content of the string literal that is the sole argument of a call whose arguments start at
/// `a`: white space, the literal, white space, `)`.
pub open spec fn sole_literal(s: Seq<u8>, a: int) -> Option<(int, int)> {
    let q = text::skip_ws(s, a);
    if text::has(s, q, ascii::QUOTE) || text::has(s, q, ascii::DOUBLE_QUOTE) {
        match text::find_byte(s, s[q], q + 1) {
            Some(c) => if text::has(s, text::skip_ws(s, c + 1), ascii::CLOSE_PAREN) {
                Some((q + 1, c))
            } else {
                None
            },
            None => None,
        }
    } else {
        None
    }
}

/// The content of the literal where offset `i` starts a call of `name` with a non-empty string
/// literal for its sole argument. The name is a whole word outside the ranges.
pub open spec fn call_literal(
    s: Seq<u8>,
    ranges: Seq<(int, int)>,
    name: Seq<u8>,
    i: int,
) -> Option<(int, int)> {
    let p = text::skip_ws(s, i + name.len());
    if text::occurs(s, i, name) && word_starts(s, i) && word_ends(s, i + name.len()) && !covered(
        ranges,
        i,
    ) && text::has(s, p, ascii::OPEN_PAREN) {
        match sole_literal(s, p + 1) {
            Some(span) => if span.0 < span.1 {
                Some(span)
            } else {
                None
            },
            None => None,
        }
    } else {
        None
    }
}

/// The contents of the literals of all such calls from offset `i` on, in order.
pub open spec fn call_literals(
    s: Seq<u8>,
    ranges: Seq<(int, int)>,
    name: Seq<u8>,
    i: int,
) -> Seq<(int, int)>
    decreases s.len() - i,
{
    if !(0 <= i < s.len()) {
        Seq::empty()
    } else {
        let next = if text::occurs(s, i, name) && name.len() > 0 {
            i + name.len()
        } else {
            i + 1
        };
        match call_literal(s, ranges, name, i) {
            Some(span) => seq![span] + call_literals(s, ranges, name, next),
            None => call_literals(s, ranges, name, next),
        }
    }
}

/// The identifiers of a dot chain whose first one starts at `i`.
pub open spec fn chain(s: Seq<u8>, i: int) -> Seq<(int, int)>
    decreases s.len() - i,
    via chain_decreases
{
    let e = ident_run_end(s, i);
    if e <= i {
        Seq::empty()
    } else if text::has(s, e, ascii::DOT) && ident_start(s, e + 1) {
        seq![(i, e)] + chain(s, e + 1)
    } else {
        seq![(i, e)]
    }
}

#[via_fn]
proof fn chain_decreases(s: Seq<u8>, i: int) {
    lemma_ident_run_end(s, i);
}

/// The identifiers behind every `.ui.` from offset `i` on. It counts where it is a member access,
/// that is, behind an identifier, and outside the ranges.
pub open spec fn dot_ui_ids(s: Seq<u8>, ranges: Seq<(int, int)>, i: int) -> Seq<(int, int)>
    decreases s.len() - i,
{
    if !(0 <= i < s.len()) {
        Seq::empty()
    } else if text::occurs(s, i, ".ui.".spec_bytes()) && !word_starts(s, i) && !covered(
        ranges,
        i,
    ) {
        chain(s, i + ".ui.".spec_bytes().len()) + dot_ui_ids(s, ranges, i + 1)
    } else {
        dot_ui_ids(s, ranges, i + 1)
    }
}

/// The references at the given spans.
pub open spec fn refs_at(s: Seq<u8>, spans: Seq<(int, int)>, kind: LuaIdRefKind) -> Seq<
    LuaIdRefView,
> {
    spans.map_values(
        |p: (int, int)|
            LuaIdRefView { id: s.subrange(p.0, p.1), start: p.0, end: p.1, kind },
    )
}

/// The definitions at the given spans.
pub open spec fn defs_at(s: Seq<u8>, spans: Seq<(int, int)>) -> Seq<LuaIdDefView> {
    spans.map_values(
        |p: (int, int)| LuaIdDefView { id: s.subrange(p.0, p.1), start: p.0, end: p.1 },
    )
}

/// The id references of a Lua source, ordered by where they start.
pub open spec fn id_refs(s: Seq<u8>) -> Seq<LuaIdRefView> {
    let ranges = opaque_ranges(s);
    order::stable_sort(
        refs_at(
            s,
            call_literals(s, ranges, "getChildById".spec_bytes(), 0),
            LuaIdRefKind::GetChildById,
        ) + refs_at(
            s,
            call_literals(s, ranges, "recursiveGetChildById".spec_bytes(), 0),
            LuaIdRefKind::RecursiveGetChildById,
        ) + refs_at(s, dot_ui_ids(s, ranges, 0), LuaIdRefKind::DotUi),
    )
}

/// The id definitions of a Lua source, ordered by where they start.
pub open spec fn id_defs(s: Seq<u8>) -> Seq<LuaIdDefView> {
    order::stable_sort(
        defs_at(s, call_literals(s, opaque_ranges(s), "setId".spec_bytes(), 0)),
    )
}

proof fn lemma_short_string_end(s: Seq<u8>, quote: u8, j: int)
    requires
        0 <= j,
        j <= s.len() + 1,
    ensures
        short_string_end(s, quote, j) <= s.len(),
        j <= s.len() ==> j <= short_string_end(s, quote, j),
    decreases s.len() + 1 - j,
{
    if j < s.len() {
        if s[j] == ascii::BACKSLASH {
            lemma_short_string_end(s, quote, j + 2);
        } else if s[j] != ascii::NEWLINE && s[j] != quote {
            lemma_short_string_end(s, quote, j + 1);
        }
    }
}

proof fn lemma_equals_run_end(s: Seq<u8>, i: int)
    ensures
        i <= equals_run_end(s, i),
        equals_run_end(s, i) <= s.len() || equals_run_end(s, i) == i,
    decreases s.len() - i,
{
    if text::has(s, i, ascii::EQUALS) {
        lemma_equals_run_end(s, i + 1);
    }
}

/// An identifier run stays in the source and holds identifier bytes only.
pub proof fn lemma_ident_run_end(s: Seq<u8>, i: int)
    ensures
        i <= ident_run_end(s, i),
        ident_run_end(s, i) <= s.len() || ident_run_end(s, i) == i,
        0 <= i ==> forall|k: int| i <= k < ident_run_end(s, i) ==> ident_byte(#[trigger] s[k]),
    decreases s.len() - i,
{
    if 0 <= i < s.len() && ident_byte(s[i]) {
        lemma_ident_run_end(s, i + 1);
    }
}

proof fn lemma_long_bracket(s: Seq<u8>, at: int)
    requires
        0 <= at,
    ensures
        long_bracket(s, at) matches Some(e) ==> at < e <= s.len(),
{
    lemma_equals_run_end(s, at + 1);
    let k = equals_run_end(s, at + 1);
    text::lemma_find(s, long_close(k - (at + 1)), k + 1);
}

/// A comment or string ends behind its start, in the source.
pub proof fn lemma_opaque_end(s: Seq<u8>, i: int)
    requires
        0 <= i < s.len(),
    ensures
        opaque_end(s, i) matches Some(e) ==> i < e <= s.len(),
{
    lemma_short_string_end(s, s[i], i + 1);
    lemma_long_bracket(s, i);
    lemma_long_bracket(s, i + 2);
    text::lemma_find_byte(s, ascii::NEWLINE, i);
}

/// The comments and strings of a source follow each other in order and do not overlap.
pub proof fn law_opaque_ranges_ordered(s: Seq<u8>)
    ensures
        ordered(opaque_ranges(s), 0, s.len() as int),
{
    lemma_opaque_from_ordered(s, 0);
}

proof fn lemma_opaque_from_ordered(s: Seq<u8>, i: int)
    requires
        0 <= i,
    ensures
        ordered(opaque_from(s, i), i, s.len() as int),
    decreases s.len() - i,
{
    if i < s.len() {
        lemma_opaque_end(s, i);
        match opaque_end(s, i) {
            Some(e) => {
                lemma_opaque_from_ordered(s, e);
                let rest = opaque_from(s, e);
                let all = opaque_from(s, i);
                assert(all == seq![(i, e)] + rest);
                assert forall|k: int| 0 <= k < all.len() implies i <= (#[trigger] all[k]).0
                    < all[k].1 <= s.len() by {
                    if k > 0 {
                        assert(all[k] == rest[k - 1]);
                    }
                }
                assert forall|a: int, b: int|
                    #![trigger all[a], all[b]]
                    0 <= a < b < all.len() implies all[a].1 <= all[b].0 by {
                    assert(all[b] == rest[b - 1]);
                    if a > 0 {
                        assert(all[a] == rest[a - 1]);
                    }
                }
            },
            None => {
                lemma_opaque_from_ordered(s, i + 1);
            },
        }
    }
}

/// A call literal lies in the source between two quotes.
proof fn lemma_sole_literal(s: Seq<u8>, a: int)
    requires
        valid_utf8(s),
        text::boundary(s, a),
    ensures
        sole_literal(s, a) matches Some(span) ==> a <= span.0 <= span.1 < s.len() && text::boundary(
            s,
            span.0,
        ) && text::boundary(s, span.1),
{
    text::lemma_skip_ws(s, a);
    let q = text::skip_ws(s, a);
    if text::has(s, q, ascii::QUOTE) || text::has(s, q, ascii::DOUBLE_QUOTE) {
        text::lemma_ascii_boundary(s, q);
        text::lemma_find_byte(s, s[q], q + 1);
        if let Some(c) = text::find_byte(s, s[q], q + 1) {
            text::lemma_ascii_boundary(s, c);
        }
    }
}

/// Whether `b` may stand in a Lua identifier.
pub fn is_ident_byte(b: u8) -> (r: bool)
    ensures
        r == ident_byte(b),
{
    (ascii::LOWER_A <= b && b <= ascii::LOWER_Z) || (ascii::UPPER_A <= b && b <= ascii::UPPER_Z) || (
    ascii::DIGIT_0 <= b && b <= ascii::DIGIT_9) || b == ascii::UNDERSCORE
}

/// Whether an identifier can start at offset `idx` of `source`.
pub fn is_ident_start(source: &str, idx: usize) -> (r: bool)
    ensures
        r == ident_start(source.spec_bytes(), idx as int),
{
    let s = source.as_bytes();
    idx < s.len() && is_ident_byte(s[idx]) && !(ascii::DIGIT_0 <= s[idx] && s[idx] <= ascii::DIGIT_9)
}

/// Whether no identifier byte stands right before `idx`.
pub fn is_ident_boundary_before(source: &str, idx: usize) -> (r: bool)
    requires
        idx <= source.spec_bytes().len(),
    ensures
        r == word_starts(source.spec_bytes(), idx as int),
{
    let s = source.as_bytes();
    idx == 0 || !is_ident_byte(s[idx - 1])
}

/// Whether no identifier byte stands at `idx`.
pub fn is_ident_boundary_after(source: &str, idx: usize) -> (r: bool)
    ensures
        r == word_ends(source.spec_bytes(), idx as int),
{
    let s = source.as_bytes();
    idx >= s.len() || !is_ident_byte(s[idx])
}

/// The end of the identifier run that starts at `start`; `start` itself where there is none.
pub fn ident_end(source: &str, start: usize) -> (r: usize)
    ensures
        r == ident_run_end(source.spec_bytes(), start as int),
        start <= r,
{
    let s = source.as_bytes();
    let mut i: usize = start;
    while i < s.len() && is_ident_byte(s[i])
        invariant
            s@ == source.spec_bytes(),
            start <= i,
            ident_run_end(s@, i as int) == ident_run_end(s@, start as int),
        decreases s@.len() - i,
    {
        i += 1;
    }
    i
}

/// Where the long bracket ends that opens at `at`, if one does. Long comments and long strings
/// share it; they differ in the `--` in front.
pub fn long_bracket_end(source: &str, at: usize) -> (r: Option<usize>)
    ensures
        match r {
            Some(e) => long_bracket(source.spec_bytes(), at as int) == Some(e as int) && at < e
                <= source.spec_bytes().len(),
            None => long_bracket(source.spec_bytes(), at as int) is None,
        },
{
    let s = source.as_bytes();
    let n: usize = s.len();
    if !has_at(s, at, ascii::OPEN_BRACKET) {
        return None;
    }
    let mut close: Vec<u8> = vec![ascii::CLOSE_BRACKET];
    let mut k: usize = at + 1;
    assert(close@ =~= seq![ascii::CLOSE_BRACKET] + Seq::new(0nat, |x: int| ascii::EQUALS));
    while has_at(s, k, ascii::EQUALS)
        invariant
            n == s@.len(),
            at < k <= n,
            close@ == seq![ascii::CLOSE_BRACKET] + Seq::new((k - (at + 1)) as nat, |x: int| ascii::EQUALS),
            equals_run_end(s@, k as int) == equals_run_end(s@, at + 1),
        decreases n - k,
    {
        close.push(ascii::EQUALS);
        k += 1;
        assert(close@ =~= seq![ascii::CLOSE_BRACKET] + Seq::new((k - (at + 1)) as nat, |x: int| ascii::EQUALS));
    }
    if !has_at(s, k, ascii::OPEN_BRACKET) {
        return None;
    }
    close.push(ascii::CLOSE_BRACKET);
    proof {
        lemma_long_bracket(s@, at as int);
        assert(close@ =~= long_close(k - (at + 1)));
    }
    match find_at(s, close.as_slice(), k + 1) {
        Some(p) => Some(p + close.len()),
        None => Some(n),
    }
}

/// The ranges as offsets.
pub open spec fn offsets(ranges: Seq<(usize, usize)>) -> Seq<(int, int)> {
    ranges.map_values(|p: (usize, usize)| (p.0 as int, p.1 as int))
}

proof fn lemma_offsets_push(ranges: Seq<(usize, usize)>, p: (usize, usize))
    ensures
        offsets(ranges.push(p)) == offsets(ranges).push((p.0 as int, p.1 as int)),
{
    assert(offsets(ranges.push(p)) =~= offsets(ranges).push((p.0 as int, p.1 as int)));
}

/// The comments and strings of `source`: what must not be read as code. They are in order and do
/// not overlap.
pub fn excluded_ranges(source: &str) -> (r: Vec<(usize, usize)>)
    ensures
        offsets(r@) == opaque_ranges(source.spec_bytes()),
        ordered(offsets(r@), 0, source.spec_bytes().len() as int),
{
    let s = source.as_bytes();
    let n: usize = s.len();
    let mut ranges: Vec<(usize, usize)> = Vec::new();
    let mut i: usize = 0;
    assert(offsets(ranges@) + opaque_from(s@, 0) =~= opaque_ranges(s@));
    while i < n
        invariant
            s@ == source.spec_bytes(),
            n == s@.len(),
            offsets(ranges@) + opaque_from(s@, i as int) == opaque_ranges(s@),
        decreases n - i,
    {
        let c: u8 = s[i];
        let mut end: Option<usize> = None;
        proof {
            lemma_opaque_end(s@, i as int);
        }
        if c == ascii::QUOTE || c == ascii::DOUBLE_QUOTE {
            let mut j: usize = i + 1;
            while j < n && s[j] != ascii::NEWLINE && s[j] != c
                invariant
                    n == s@.len(),
                    i < n,
                    c == s@[i as int],
                    c == ascii::QUOTE || c == ascii::DOUBLE_QUOTE,
                    i < j,
                    short_string_end(s@, c, j as int) == short_string_end(s@, c, i + 1),
                decreases n - j,
            {
                if s[j] == ascii::BACKSLASH {
                    if j + 1 >= n {
                        assert(short_string_end(s@, c, j as int) == short_string_end(
                            s@,
                            c,
                            j + 2,
                        ));
                        j = n;
                    } else {
                        j += 2;
                    }
                } else {
                    j += 1;
                }
            }
            end = Some(
                if j >= n {
                    n
                } else if s[j] == ascii::NEWLINE {
                    j
                } else {
                    j + 1
                },
            );
        } else if c == ascii::DASH && has_at(s, i + 1, ascii::DASH) {
            end = match long_bracket_end(source, i + 2) {
                Some(e) => Some(e),
                None => match find_byte_at(s, ascii::NEWLINE, i) {
                    Some(e) => Some(e),
                    None => Some(n),
                },
            };
        } else if c == ascii::OPEN_BRACKET {
            end = long_bracket_end(source, i);
        }
        assert(match end {
            Some(e) => opaque_end(s@, i as int) == Some(e as int),
            None => opaque_end(s@, i as int) is None,
        });
        match end {
            Some(e) => {
                proof {
                    lemma_offsets_push(ranges@, (i, e));
                    assert(offsets(ranges@).push((i as int, e as int)) + opaque_from(s@, e as int)
                        =~= offsets(ranges@) + (seq![(i as int, e as int)] + opaque_from(
                        s@,
                        e as int,
                    )));
                }
                ranges.push((i, e));
                i = e;
            },
            None => {
                i += 1;
            },
        }
    }
    proof {
        assert(offsets(ranges@) =~= opaque_ranges(s@));
        law_opaque_ranges_ordered(s@);
    }
    ranges
}

/// Whether `pos` lies in one of the ranges, which are in order and do not overlap.
pub fn in_excluded(ranges: &[(usize, usize)], pos: usize) -> (r: bool)
    requires
        ordered(offsets(ranges@), 0, usize::MAX as int),
    ensures
        r == covered(offsets(ranges@), pos as int),
{
    let ghost all = offsets(ranges@);
    let mut lo: usize = 0;
    let mut hi: usize = ranges.len();
    while lo < hi
        invariant
            all == offsets(ranges@),
            ordered(all, 0, usize::MAX as int),
            lo <= hi <= ranges@.len(),
            forall|k: int| 0 <= k < lo ==> (#[trigger] all[k]).1 <= pos,
            forall|k: int| hi <= k < all.len() ==> pos < (#[trigger] all[k]).0,
        decreases hi - lo,
    {
        let mid: usize = lo + (hi - lo) / 2;
        let range: (usize, usize) = ranges[mid];
        assert(all[mid as int] == (range.0 as int, range.1 as int));
        if pos < range.0 {
            hi = mid;
        } else if pos >= range.1 {
            lo = mid + 1;
        } else {
            return true;
        }
    }
    false
}

/// The content of the string literal that is the sole argument of a call whose arguments start at
/// `args`.
pub fn sole_string_literal_arg(source: &str, args: usize) -> (r: Option<(usize, usize)>)
    requires
        args <= source.spec_bytes().len(),
    ensures
        match r {
            Some(p) => sole_literal(source.spec_bytes(), args as int) == Some(
                (p.0 as int, p.1 as int),
            ),
            None => sole_literal(source.spec_bytes(), args as int) is None,
        },
{
    let s = source.as_bytes();
    let q: usize = skip_ws_at(s, args);
    if !(has_at(s, q, ascii::QUOTE) || has_at(s, q, ascii::DOUBLE_QUOTE)) {
        return None;
    }
    match find_byte_at(s, s[q], q + 1) {
        Some(c) => {
            let after: usize = skip_ws_at(s, c + 1);
            if has_at(s, after, ascii::CLOSE_PAREN) {
                Some((q + 1, c))
            } else {
                None
            }
        },
        None => None,
    }
}

/// The contents of the string literals that calls of `name` have for their sole argument.
pub fn call_string_literals(source: &str, excluded: &[(usize, usize)], name: &str) -> (r: Vec<
    (usize, usize),
>)
    requires
        ordered(offsets(excluded@), 0, usize::MAX as int),
        name.spec_bytes().len() > 0,
    ensures
        offsets(r@) == call_literals(
            source.spec_bytes(),
            offsets(excluded@),
            name.spec_bytes(),
            0,
        ),
{
    let s = source.as_bytes();
    let pat = name.as_bytes();
    let n: usize = s.len();
    let ghost ranges = offsets(excluded@);
    let mut out: Vec<(usize, usize)> = Vec::new();
    let mut i: usize = 0;
    assert(offsets(out@) + call_literals(s@, ranges, pat@, 0) =~= call_literals(
        s@,
        ranges,
        pat@,
        0,
    ));
    while i < n
        invariant
            s@ == source.spec_bytes(),
            pat@ == name.spec_bytes(),
            pat@.len() > 0,
            n == s@.len(),
            ranges == offsets(excluded@),
            ordered(ranges, 0, usize::MAX as int),
            offsets(out@) + call_literals(s@, ranges, pat@, i as int) == call_literals(
                s@,
                ranges,
                pat@,
                0,
            ),
        decreases n - i,
    {
        if !occurs_at(s, i, pat) {
            i += 1;
            continue;
        }
        let end: usize = i + pat.len();
        let mut found: Option<(usize, usize)> = None;
        if is_ident_boundary_before(source, i) && is_ident_boundary_after(source, end)
            && !in_excluded(excluded, i) {
            let paren: usize = skip_ws_at(s, end);
            if has_at(s, paren, ascii::OPEN_PAREN) {
                if let Some(span) = sole_string_literal_arg(source, paren + 1) {
                    if span.0 < span.1 {
                        found = Some(span);
                    }
                }
            }
        }
        if let Some(span) = found {
            proof {
                lemma_offsets_push(out@, span);
                let p = (span.0 as int, span.1 as int);
                assert(offsets(out@).push(p) + call_literals(s@, ranges, pat@, end as int)
                    =~= offsets(out@) + (seq![p] + call_literals(s@, ranges, pat@, end as int)));
            }
            out.push(span);
        }
        i = end;
    }
    assert(offsets(out@) =~= call_literals(s@, ranges, pat@, 0));
    out
}

/// The identifiers of the dot chains behind `.ui.`.
pub fn collect_dot_ui_refs(source: &str, excluded: &[(usize, usize)]) -> (r: Vec<(usize, usize)>)
    requires
        ordered(offsets(excluded@), 0, usize::MAX as int),
    ensures
        offsets(r@) == dot_ui_ids(source.spec_bytes(), offsets(excluded@), 0),
{
    let s = source.as_bytes();
    let pat = ".ui.".as_bytes();
    let n: usize = s.len();
    let ghost ranges = offsets(excluded@);
    let mut out: Vec<(usize, usize)> = Vec::new();
    let mut i: usize = 0;
    assert(offsets(out@) + dot_ui_ids(s@, ranges, 0) =~= dot_ui_ids(s@, ranges, 0));
    while i < n
        invariant
            s@ == source.spec_bytes(),
            pat@ == ".ui.".spec_bytes(),
            n == s@.len(),
            i <= n,
            ranges == offsets(excluded@),
            ordered(ranges, 0, usize::MAX as int),
            offsets(out@) + dot_ui_ids(s@, ranges, i as int) == dot_ui_ids(s@, ranges, 0),
        decreases n - i,
    {
        if occurs_at(s, i, pat) && !is_ident_boundary_before(source, i) && !in_excluded(
            excluded,
            i,
        ) {
            let ghost done = offsets(out@);
            let ghost links = chain(s@, i + pat@.len());
            let mut pos: usize = i + pat.len();
            let mut more: bool = true;
            while more
                invariant
                    s@ == source.spec_bytes(),
                    n == s@.len(),
                    pos <= n,
                    more ==> offsets(out@) + chain(s@, pos as int) == done + links,
                    !more ==> offsets(out@) == done + links,
                decreases n - pos, (if more { 1int } else { 0int }),
            {
                let end: usize = ident_end(source, pos);
                proof {
                    lemma_ident_run_end(s@, pos as int);
                }
                if end == pos {
                    assert(offsets(out@) + chain(s@, pos as int) =~= offsets(out@));
                    more = false;
                } else {
                    let ghost p = (pos as int, end as int);
                    proof {
                        lemma_offsets_push(out@, (pos, end));
                    }
                    let ghost before = offsets(out@);
                    out.push((pos, end));
                    if has_at(s, end, ascii::DOT) && is_ident_start(source, end + 1) {
                        proof {
                            assert(before.push(p) + chain(s@, end + 1) =~= before + (seq![p]
                                + chain(s@, end + 1)));
                        }
                        pos = end + 1;
                    } else {
                        assert(before.push(p) =~= before + seq![p]);
                        more = false;
                    }
                }
            }
            proof {
                assert((done + links) + dot_ui_ids(s@, ranges, i + 1) =~= done + (links
                    + dot_ui_ids(s@, ranges, i + 1)));
            }
        }
        i += 1;
    }
    assert(offsets(out@) =~= dot_ui_ids(s@, ranges, 0));
    out
}

/// The text of a span whose ends are boundaries.
pub open spec fn cuttable(s: Seq<u8>, spans: Seq<(int, int)>) -> bool {
    forall|k: int|
        0 <= k < spans.len() ==> (#[trigger] spans[k]).0 <= spans[k].1 && text::boundary(
            s,
            spans[k].0,
        ) && text::boundary(s, spans[k].1)
}

proof fn lemma_call_literals_cuttable(
    s: Seq<u8>,
    ranges: Seq<(int, int)>,
    name: Seq<u8>,
    i: int,
)
    requires
        valid_utf8(s),
        valid_utf8(name),
        name.len() > 0,
        name.last() < 0x80,
    ensures
        cuttable(s, call_literals(s, ranges, name, i)),
    decreases s.len() - i,
{
    if 0 <= i < s.len() {
        let next = if text::occurs(s, i, name) {
            i + name.len()
        } else {
            i + 1
        };
        lemma_call_literals_cuttable(s, ranges, name, next);
        if text::occurs(s, i, name) {
            assert(s.subrange(i, i + name.len()).last() == s[i + name.len() - 1]);
            text::lemma_ascii_boundary(s, i + name.len() - 1);
            text::lemma_skip_ws(s, i + name.len());
            let p = text::skip_ws(s, i + name.len());
            if text::has(s, p, ascii::OPEN_PAREN) {
                text::lemma_ascii_boundary(s, p);
                lemma_sole_literal(s, p + 1);
            }
        }
    }
}

proof fn lemma_chain_cuttable(s: Seq<u8>, i: int)
    requires
        valid_utf8(s),
        0 <= i,
    ensures
        cuttable(s, chain(s, i)),
    decreases s.len() - i,
{
    lemma_ident_run_end(s, i);
    let e = ident_run_end(s, i);
    if e > i {
        text::lemma_ascii_boundary(s, i);
        text::lemma_ascii_boundary(s, e - 1);
        if text::has(s, e, ascii::DOT) && ident_start(s, e + 1) {
            lemma_chain_cuttable(s, e + 1);
        }
    }
}

proof fn lemma_dot_ui_ids_cuttable(s: Seq<u8>, ranges: Seq<(int, int)>, i: int)
    requires
        valid_utf8(s),
    ensures
        cuttable(s, dot_ui_ids(s, ranges, i)),
    decreases s.len() - i,
{
    if 0 <= i < s.len() {
        lemma_dot_ui_ids_cuttable(s, ranges, i + 1);
        lemma_chain_cuttable(s, i + ".ui.".spec_bytes().len());
    }
}

/// Appends the references at the given spans.
fn push_refs(source: &str, spans: &[(usize, usize)], kind: LuaIdRefKind, out: &mut Vec<LuaIdRef>)
    requires
        cuttable(source.spec_bytes(), offsets(spans@)),
    ensures
        lang_api::views(final(out)@) == lang_api::views(old(out)@) + refs_at(
            source.spec_bytes(),
            offsets(spans@),
            kind,
        ),
{
    let ghost s = source.spec_bytes();
    let ghost before = lang_api::views(out@);
    let ghost all = offsets(spans@);
    let mut i: usize = 0;
    assert(before + refs_at(s, all.take(0), kind) =~= before);
    while i < spans.len()
        invariant
            s == source.spec_bytes(),
            all == offsets(spans@),
            cuttable(s, all),
            i <= spans@.len(),
            lang_api::views(out@) == before + refs_at(s, all.take(i as int), kind),
        decreases spans@.len() - i,
    {
        let p: (usize, usize) = spans[i];
        assert(all[i as int] == (p.0 as int, p.1 as int));
        let found = substr(source, p.0, p.1);
        let r = LuaIdRef { id: found.to_owned(), span: ByteSpan::new(p.0, p.1), kind };
        proof {
            lang_api::lemma_views_push(out@, r);
            assert(refs_at(s, all.take(i + 1), kind) =~= refs_at(s, all.take(i as int), kind).push(
                r@,
            ));
            assert(before + refs_at(s, all.take(i + 1), kind) =~= (before + refs_at(
                s,
                all.take(i as int),
                kind,
            )).push(r@));
        }
        out.push(r);
        i += 1;
    }
    assert(all.take(all.len() as int) =~= all);
}

proof fn lemma_name_bytes()
    ensures
        "getChildById".spec_bytes().len() > 0,
        "getChildById".spec_bytes().last() < 0x80,
        "recursiveGetChildById".spec_bytes().len() > 0,
        "recursiveGetChildById".spec_bytes().last() < 0x80,
        "setId".spec_bytes().len() > 0,
        "setId".spec_bytes().last() < 0x80,
{
    reveal_strlit("getChildById");
    reveal_strlit("recursiveGetChildById");
    reveal_strlit("setId");
    is_ascii_chars_encode_utf8("getChildById"@);
    is_ascii_chars_encode_utf8("recursiveGetChildById"@);
    is_ascii_chars_encode_utf8("setId"@);
}

/// Every reference to a widget id in a Lua source, ordered by where it starts.
pub fn scan_id_refs(source: &str) -> (r: Vec<LuaIdRef>)
    ensures
        lang_api::views(r@) == id_refs(source.spec_bytes()),
{
    let ghost s = source.spec_bytes();
    let excluded = excluded_ranges(source);
    proof {
        lemma_name_bytes();
        text::lemma_valid(source);
        text::lemma_valid("getChildById");
        text::lemma_valid("recursiveGetChildById");
        let ranges = opaque_ranges(s);
        lemma_call_literals_cuttable(s, ranges, "getChildById".spec_bytes(), 0);
        lemma_call_literals_cuttable(s, ranges, "recursiveGetChildById".spec_bytes(), 0);
        lemma_dot_ui_ids_cuttable(s, ranges, 0);
    }
    let len: usize = source.as_bytes().len();
    let mut out: Vec<LuaIdRef> = Vec::new();
    let direct = call_string_literals(source, excluded.as_slice(), "getChildById");
    push_refs(source, direct.as_slice(), LuaIdRefKind::GetChildById, &mut out);
    let recursive = call_string_literals(source, excluded.as_slice(), "recursiveGetChildById");
    push_refs(source, recursive.as_slice(), LuaIdRefKind::RecursiveGetChildById, &mut out);
    let chained = collect_dot_ui_refs(source, excluded.as_slice());
    push_refs(source, chained.as_slice(), LuaIdRefKind::DotUi, &mut out);
    assert(lang_api::views(Seq::<LuaIdRef>::empty()) + refs_at(
        s,
        offsets(direct@),
        LuaIdRefKind::GetChildById,
    ) =~= refs_at(s, offsets(direct@), LuaIdRefKind::GetChildById));
    sort_by_place(out)
}

/// Every definition of a widget id in a Lua source, ordered by where it starts.
pub fn scan_id_defs(source: &str) -> (r: Vec<LuaIdDef>)
    ensures
        lang_api::views(r@) == id_defs(source.spec_bytes()),
{
    let ghost s = source.spec_bytes();
    let excluded = excluded_ranges(source);
    proof {
        lemma_name_bytes();
        text::lemma_valid(source);
        text::lemma_valid("setId");
        lemma_call_literals_cuttable(s, opaque_ranges(s), "setId".spec_bytes(), 0);
    }
    let len: usize = source.as_bytes().len();
    let spans = call_string_literals(source, excluded.as_slice(), "setId");
    let ghost all = offsets(spans@);
    let mut out: Vec<LuaIdDef> = Vec::new();
    let mut i: usize = 0;
    assert(lang_api::views(out@) =~= defs_at(s, all.take(0)));
    while i < spans.len()
        invariant
            s == source.spec_bytes(),
            all == offsets(spans@),
            cuttable(s, all),
            i <= spans@.len(),
            lang_api::views(out@) == defs_at(s, all.take(i as int)),
        decreases spans@.len() - i,
    {
        let p: (usize, usize) = spans[i];
        assert(all[i as int] == (p.0 as int, p.1 as int));
        let found = substr(source, p.0, p.1);
        let d = LuaIdDef { id: found.to_owned(), span: ByteSpan::new(p.0, p.1) };
        proof {
            lang_api::lemma_views_push(out@, d);
            assert(defs_at(s, all.take(i + 1)) =~= defs_at(s, all.take(i as int)).push(d@));
        }
        out.push(d);
        i += 1;
    }
    assert(all.take(all.len() as int) =~= all);
    sort_by_place(out)
}

/// Scanning gives every reference the text that its span covers, and orders the references.
pub proof fn law_id_refs(s: Seq<u8>, k: int)
    requires
        0 <= k < id_refs(s).len(),
    ensures
        order::is_sorted(id_refs(s)),
        id_refs(s)[k].id == s.subrange(id_refs(s)[k].start, id_refs(s)[k].end),
{
    let ranges = opaque_ranges(s);
    let direct = call_literals(s, ranges, "getChildById".spec_bytes(), 0);
    let recursive = call_literals(s, ranges, "recursiveGetChildById".spec_bytes(), 0);
    let all = refs_at(s, direct, LuaIdRefKind::GetChildById) + refs_at(
        s,
        recursive,
        LuaIdRefKind::RecursiveGetChildById,
    ) + refs_at(s, dot_ui_ids(s, ranges, 0), LuaIdRefKind::DotUi);
    order::law_stable_sort(all);
    let sorted = order::stable_sort(all);
    broadcast use vstd::seq_lib::group_to_multiset_ensures;

    assert(sorted.contains(sorted[k]));
    assert(sorted.to_multiset().count(sorted[k]) > 0);
    assert(all.contains(sorted[k]));
}

/// Whether some call of `name`, outside comments and strings, has the literal at `span` for its sole
/// argument.
pub open spec fn called_with(s: Seq<u8>, name: Seq<u8>, span: (int, int)) -> bool {
    exists|i: int| #[trigger] call_literal(s, opaque_ranges(s), name, i) == Some(span)
}

/// Whether the identifier at `span` belongs to a chain behind some `.ui.` outside comments and
/// strings.
pub open spec fn chained(s: Seq<u8>, span: (int, int)) -> bool {
    exists|i: int|
        #![trigger text::occurs(s, i, ".ui.".spec_bytes())]
        text::occurs(s, i, ".ui.".spec_bytes()) && !covered(opaque_ranges(s), i) && chain(
            s,
            i + ".ui.".spec_bytes().len(),
        ).contains(span)
}

proof fn lemma_called_with(s: Seq<u8>, name: Seq<u8>, i: int)
    ensures
        forall|k: int|
            0 <= k < call_literals(s, opaque_ranges(s), name, i).len() ==> called_with(
                s,
                name,
                #[trigger] call_literals(s, opaque_ranges(s), name, i)[k],
            ),
    decreases s.len() - i,
{
    let ranges = opaque_ranges(s);
    if 0 <= i < s.len() {
        let next = if text::occurs(s, i, name) && name.len() > 0 {
            i + name.len()
        } else {
            i + 1
        };
        lemma_called_with(s, name, next);
        let all = call_literals(s, ranges, name, i);
        let rest = call_literals(s, ranges, name, next);
        assert forall|k: int| 0 <= k < all.len() implies called_with(s, name, #[trigger] all[k]) by {
            match call_literal(s, ranges, name, i) {
                Some(span) => {
                    assert(all == seq![span] + rest);
                    if k > 0 {
                        assert(all[k] == rest[k - 1]);
                    }
                },
                None => {
                    assert(all == rest);
                },
            }
        }
    }
}

proof fn lemma_chained(s: Seq<u8>, i: int)
    ensures
        forall|k: int|
            0 <= k < dot_ui_ids(s, opaque_ranges(s), i).len() ==> chained(
                s,
                #[trigger] dot_ui_ids(s, opaque_ranges(s), i)[k],
            ),
    decreases s.len() - i,
{
    let ranges = opaque_ranges(s);
    if 0 <= i < s.len() {
        lemma_chained(s, i + 1);
        let all = dot_ui_ids(s, ranges, i);
        let rest = dot_ui_ids(s, ranges, i + 1);
        if text::occurs(s, i, ".ui.".spec_bytes()) && !word_starts(s, i) && !covered(ranges, i) {
            let own = chain(s, i + ".ui.".spec_bytes().len());
            assert(all == own + rest);
            assert forall|k: int| 0 <= k < all.len() implies chained(s, #[trigger] all[k]) by {
                if k < own.len() {
                    assert(own.contains(all[k]));
                } else {
                    assert(all[k] == rest[k - own.len()]);
                }
            }
        } else {
            assert(all == rest);
        }
    }
}

/// A reference never comes out of a comment or a string: its call, or the `.ui.` in front of it, is
/// code.
pub proof fn law_id_refs_are_code(s: Seq<u8>, k: int)
    requires
        0 <= k < id_refs(s).len(),
    ensures
        ({
            let r = id_refs(s)[k];
            match r.kind {
                LuaIdRefKind::GetChildById => called_with(
                    s,
                    "getChildById".spec_bytes(),
                    (r.start, r.end),
                ),
                LuaIdRefKind::RecursiveGetChildById => called_with(
                    s,
                    "recursiveGetChildById".spec_bytes(),
                    (r.start, r.end),
                ),
                LuaIdRefKind::DotUi => chained(s, (r.start, r.end)),
            }
        }),
{
    let ranges = opaque_ranges(s);
    let direct = call_literals(s, ranges, "getChildById".spec_bytes(), 0);
    let recursive = call_literals(s, ranges, "recursiveGetChildById".spec_bytes(), 0);
    let dotted = dot_ui_ids(s, ranges, 0);
    let x = refs_at(s, direct, LuaIdRefKind::GetChildById);
    let y = refs_at(s, recursive, LuaIdRefKind::RecursiveGetChildById);
    let z = refs_at(s, dotted, LuaIdRefKind::DotUi);
    let all = x + y + z;
    order::law_stable_sort(all);
    let sorted = order::stable_sort(all);
    lemma_called_with(s, "getChildById".spec_bytes(), 0);
    lemma_called_with(s, "recursiveGetChildById".spec_bytes(), 0);
    lemma_chained(s, 0);
    let r = sorted[k];
    assert(all.contains(r)) by {
        broadcast use vstd::seq_lib::group_to_multiset_ensures;

        assert(sorted.contains(r));
        assert(sorted.to_multiset().count(r) > 0);
    }
    let i = choose|i: int| 0 <= i < all.len() && all[i] == r;
    if i < x.len() {
        assert(all[i] == x[i]);
        assert(called_with(s, "getChildById".spec_bytes(), direct[i]));
    } else if i < x.len() + y.len() {
        let j = i - x.len();
        assert(all[i] == y[j]);
        assert(called_with(s, "recursiveGetChildById".spec_bytes(), recursive[j]));
    } else {
        let j = i - x.len() - y.len();
        assert(all[i] == z[j]);
        assert(chained(s, dotted[j]));
    }
}

/// The references to widget ids across the Lua documents of a workspace.
#[derive(Debug)]
pub struct LuaRefIndex {
    index: DocIndex<LuaIdRef>,
}

impl View for LuaRefIndex {
    type V = doc_index::DocItems<LuaIdRef>;

    closed spec fn view(&self) -> doc_index::DocItems<LuaIdRef> {
        self.index@
    }
}

/// The pairs whose reference names `id`.
pub open spec fn naming(all: Seq<(Seq<char>, LuaIdRef)>, id: Seq<char>) -> Seq<
    (Seq<char>, LuaIdRef),
> {
    all.filter(|p: (Seq<char>, LuaIdRef)| p.1.id@ == id)
}

impl LuaRefIndex {
    /// No document is held twice.
    pub open spec fn wf(&self) -> bool {
        doc_index::distinct(self@)
    }

    /// The index without documents.
    pub fn new() -> (index: Self)
        ensures
            index@ == Seq::<(Seq<char>, Seq<LuaIdRef>)>::empty(),
            index.wf(),
    {
        LuaRefIndex { index: DocIndex::new() }
    }

    /// Sets the references of one document, in place of those it had.
    pub fn set_document<D: IntoDocId>(&mut self, doc: D, refs: Vec<LuaIdRef>)
        ensures
            final(self)@ == doc_index::with_document(old(self)@, doc.doc_text(), refs@),
            old(self).wf() ==> final(self).wf(),
    {
        self.index.set_document(doc, refs);
    }

    /// Drops a document and hands back its references.
    pub fn remove_document(&mut self, doc: &DocId) -> (r: Option<Vec<LuaIdRef>>)
        ensures
            final(self)@ == doc_index::without_document(old(self)@, doc@),
            match r {
                Some(refs) => doc_index::items_of(old(self)@, doc@) == Some(refs@),
                None => doc_index::items_of(old(self)@, doc@) is None,
            },
            old(self).wf() ==> final(self).wf(),
    {
        self.index.remove_document(doc)
    }

    /// The references of one document.
    pub fn document(&self, doc: &DocId) -> (r: Option<&[LuaIdRef]>)
        ensures
            match r {
                Some(refs) => doc_index::items_of(self@, doc@) == Some(refs@),
                None => doc_index::items_of(self@, doc@) is None,
            },
    {
        self.index.document(doc)
    }

    /// Every reference that names `id`, with its document, across all documents. An id belongs to
    /// its document, so a caller that looks for the uses of one declaration narrows this down.
    pub fn lookup(&self, id: &str) -> (r: Vec<(&DocId, &LuaIdRef)>)
        ensures
            r@.len() == naming(doc_index::pairs(self@), id@).len(),
            forall|i: int|
                0 <= i < r@.len() ==> (#[trigger] r@[i]).0@ == naming(
                    doc_index::pairs(self@),
                    id@,
                )[i].0 && *r@[i].1 == naming(doc_index::pairs(self@), id@)[i].1,
    {
        let all = self.index.pairs();
        let ghost model = doc_index::pairs(self@);
        let mut r: Vec<(&DocId, &LuaIdRef)> = Vec::new();
        let mut i: usize = 0;
        assert(naming(model.take(0), id@) =~= Seq::empty()) by {
            reveal(Seq::filter);
        }
        while i < all.len()
            invariant
                i <= all@.len(),
                all@.len() == model.len(),
                forall|k: int|
                    0 <= k < all@.len() ==> (#[trigger] all@[k]).0@ == model[k].0 && *all@[k].1
                        == model[k].1,
                r@.len() == naming(model.take(i as int), id@).len(),
                forall|k: int|
                    0 <= k < r@.len() ==> (#[trigger] r@[k]).0@ == naming(
                        model.take(i as int),
                        id@,
                    )[k].0 && *r@[k].1 == naming(model.take(i as int), id@)[k].1,
            decreases all@.len() - i,
        {
            proof {
                reveal(Seq::filter);
                assert(model.take(i + 1).drop_last() =~= model.take(i as int));
                assert(model.take(i + 1).last() == model[i as int]);
            }
            let pair = all[i];
            if same_str(pair.1.id.as_str(), id) {
                r.push(pair);
            }
            i += 1;
        }
        assert(model.take(model.len() as int) =~= model);
        r
    }

    /// Every reference with its document.
    pub fn iter(&self) -> (r: Vec<(&DocId, &LuaIdRef)>)
        ensures
            r@.len() == doc_index::pairs(self@).len(),
            forall|i: int|
                0 <= i < r@.len() ==> (#[trigger] r@[i]).0@ == doc_index::pairs(self@)[i].0
                    && *r@[i].1 == doc_index::pairs(self@)[i].1,
    {
        self.index.pairs()
    }

    /// The number of documents.
    pub fn document_count(&self) -> (n: usize)
        ensures
            n == self@.len(),
    {
        self.index.document_count()
    }

    /// Whether there is no document.
    pub fn is_empty(&self) -> (r: bool)
        ensures
            r == (self@.len() == 0),
    {
        self.index.is_empty()
    }
}

} // verus!
