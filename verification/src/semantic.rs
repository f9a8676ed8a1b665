//! What each piece of a document is, for highlighting.
//!
//! The pieces do not overlap and come in the order in which they stand.

use crate::ascii;
use crate::colors;
use crate::colors::array_item_end;
use crate::lang_api::{ByteSpan, SemanticToken, SemanticTokenKind};
use crate::nodes::span_text;
use crate::schema;
use crate::schema::{is_known_state, is_magic_anchor_target};
use crate::style_index;
use crate::style_index::is_native_base;
use crate::syntax;
use crate::syntax::{state_names, Stmt, StmtKind, SyntaxTree};
use crate::text;
use crate::text::{find_byte_at, has_at, same_str, substr, trim_range};
use vstd::prelude::*;
use vstd::string::*;
use vstd::utf8::*;

verus! {

/// A piece between two offsets.
pub open spec fn piece(a: int, b: int, kind: SemanticTokenKind) -> SemanticToken {
    SemanticToken { span: syntax::span(a, b), kind }
}

/// The first offset at or after `i` that holds no digit.
pub open spec fn digits_end(t: Seq<u8>, i: int) -> int
    decreases t.len() - i,
{
    if 0 <= i < t.len() && ascii::DIGIT_0 <= t[i] <= ascii::DIGIT_9 {
        digits_end(t, i + 1)
    } else {
        i
    }
}

/// Where the fraction behind the digits that end at `b` ends.
pub open spec fn fraction_end(t: Seq<u8>, b: int) -> int {
    if text::has(t, b, ascii::DOT) && digits_end(t, b + 1) > b + 1 {
        digits_end(t, b + 1)
    } else {
        b
    }
}

/// Whether `t` is a number, perhaps with a sign, a fraction or a percent sign.
pub open spec fn number(t: Seq<u8>) -> bool {
    let a: int = if text::has(t, 0, ascii::DASH) {
        1
    } else {
        0
    };
    let b = digits_end(t, a);
    let c = fraction_end(t, b);
    b > a && (c == t.len() || (c + 1 == t.len() && t[c] == ascii::PERCENT))
}

/// What a value is.
pub open spec fn value_kind(t: Seq<u8>) -> SemanticTokenKind {
    if number(t) {
        SemanticTokenKind::Number
    } else if t == "true".spec_bytes() || t == "false".spec_bytes() {
        SemanticTokenKind::Boolean
    } else if text::has(t, 0, ascii::DOLLAR) {
        SemanticTokenKind::Variable
    } else if t == "~".spec_bytes() {
        SemanticTokenKind::Keyword
    } else {
        SemanticTokenKind::String
    }
}

/// The piece that a value between two offsets is.
pub open spec fn value_pieces(s: Seq<u8>, a: int, b: int) -> Seq<SemanticToken> {
    if a < b {
        seq![piece(a, b, value_kind(s.subrange(a, b)))]
    } else {
        Seq::empty()
    }
}

/// The pieces of an array, from the item at offset `i` on, up to `e`.
pub open spec fn array_pieces(s: Seq<u8>, i: int, e: int) -> Seq<SemanticToken>
    decreases e + 1 - i,
    via array_pieces_decreases
{
    if !(0 <= i < e <= s.len()) {
        Seq::empty()
    } else {
        let k = colors::item_end(s, i, e, 0);
        let p = text::trim_at(s, i, k);
        value_pieces(s, p.0, p.1) + array_pieces(s, k + 1, e)
    }
}

#[via_fn]
proof fn array_pieces_decreases(s: Seq<u8>, i: int, e: int) {
    if 0 <= i < e <= s.len() {
        colors::lemma_item_end(s, i, e, 0);
    }
}

/// The pieces of the value of a property or a list item.
pub open spec fn plain_pieces(s: Seq<u8>, st: Stmt) -> Seq<SemanticToken> {
    match st.value {
        Some(v) => if st.body is Some {
            Seq::empty()
        } else if st.kind == StmtKind::Property && s[v.start as int] == ascii::OPEN_BRACKET {
            array_pieces(s, v.start + 1, v.end - 1)
        } else {
            value_pieces(s, v.start as int, v.end as int)
        },
        None => Seq::empty(),
    }
}

/// The piece that the value of a statement is, where it is one word of the given kind.
pub open spec fn word_pieces(st: Stmt, kind: SemanticTokenKind) -> Seq<SemanticToken> {
    match st.value {
        Some(v) => if st.body is Some {
            Seq::empty()
        } else {
            seq![SemanticToken { span: v, kind }]
        },
        None => Seq::empty(),
    }
}

/// The pieces of the target of an anchor: the widget, and the edge behind the first dot.
pub open spec fn target_pieces(s: Seq<u8>, st: Stmt) -> Seq<SemanticToken> {
    match st.value {
        Some(v) => if st.body is Some {
            Seq::empty()
        } else {
            let a = v.start as int;
            let b = v.end as int;
            match text::find_byte(syntax::cut(s, v), ascii::DOT, 0) {
                Some(dot) => widget_pieces(s, a, a + dot) + edge_pieces(a + dot + 1, b),
                None => widget_pieces(s, a, b),
            }
        },
        None => Seq::empty(),
    }
}

/// The piece that the widget in the target of an anchor is.
pub open spec fn widget_pieces(s: Seq<u8>, a: int, b: int) -> Seq<SemanticToken> {
    if a >= b {
        Seq::empty()
    } else if schema::member(schema::MAGIC_ANCHOR_TARGETS@, s.subrange(a, b)) {
        seq![piece(a, b, SemanticTokenKind::Keyword)]
    } else {
        seq![piece(a, b, SemanticTokenKind::Variable)]
    }
}

/// The piece that the edge in the target of an anchor is.
pub open spec fn edge_pieces(a: int, b: int) -> Seq<SemanticToken> {
    if a < b {
        seq![piece(a, b, SemanticTokenKind::Variable)]
    } else {
        Seq::empty()
    }
}

/// The pieces of a state between two offsets of a selector that reads `h` and starts at `a`.
pub open spec fn state_pieces(h: Seq<u8>, a: int, p: (int, int)) -> Seq<SemanticToken> {
    let kind = if schema::member_any_case(schema::STATES@, h.subrange(p.0, p.1)) {
        SemanticTokenKind::EnumMember
    } else {
        SemanticTokenKind::UnknownState
    };
    let name = seq![piece(a + p.0, a + p.1, kind)];
    if text::has(h, p.0 - 1, ascii::BANG) {
        seq![piece(a + p.0 - 1, a + p.0, SemanticTokenKind::Operator)] + name
    } else {
        name
    }
}

/// The pieces of the first `k` states of a selector.
pub open spec fn states_upto(h: Seq<u8>, a: int, k: int) -> Seq<SemanticToken>
    decreases k,
{
    if k <= 0 {
        Seq::empty()
    } else {
        states_upto(h, a, k - 1) + state_pieces(h, a, syntax::states_from(h, 1)[k - 1])
    }
}

/// The pieces of a selector.
pub open spec fn selector_pieces(s: Seq<u8>, st: Stmt) -> Seq<SemanticToken> {
    let h = syntax::cut(s, st.span);
    states_upto(h, st.span.start as int, syntax::states_from(h, 1).len() as int)
}

/// The kind of a base.
pub open spec fn base_kind(name: Seq<char>) -> SemanticTokenKind {
    if style_index::native(name) {
        SemanticTokenKind::BuiltinType
    } else {
        SemanticTokenKind::InheritedType
    }
}

/// The pieces of a statement.
pub open spec fn pieces_of(s: Seq<u8>, st: Stmt) -> Seq<SemanticToken> {
    let key = |kind: SemanticTokenKind| seq![SemanticToken { span: st.key, kind }];
    match st.kind {
        StmtKind::Comment => seq![
            SemanticToken { span: st.span, kind: SemanticTokenKind::Comment },
        ],
        StmtKind::StyleHeader => key(SemanticTokenKind::Type) + word_pieces(
            st,
            base_kind(text::chars_of(syntax::cut(s, st.value->0))),
        ),
        StmtKind::Container => key(SemanticTokenKind::Type),
        StmtKind::Property => key(SemanticTokenKind::Property) + plain_pieces(s, st),
        StmtKind::IdProperty => key(SemanticTokenKind::Property) + word_pieces(
            st,
            SemanticTokenKind::Variable,
        ),
        StmtKind::AnchorProperty => seq![
            piece(
                st.span.start as int,
                st.key.end as int,
                SemanticTokenKind::Property,
            ),
        ] + target_pieces(s, st),
        StmtKind::EventProperty => key(SemanticTokenKind::Event),
        StmtKind::AliasProperty => if st.value is Some && s[(st.value->0).start as int] == ascii::HASH {
            key(SemanticTokenKind::Property) + word_pieces(st, SemanticTokenKind::String)
        } else {
            key(SemanticTokenKind::Property)
        },
        StmtKind::ExprProperty => key(SemanticTokenKind::Property),
        StmtKind::StateSelector => selector_pieces(s, st),
        StmtKind::ListItem => plain_pieces(s, st),
        StmtKind::Error => Seq::empty(),
    }
}

/// The pieces of the first `k` statements.
pub open spec fn pieces_upto(s: Seq<u8>, stmts: Seq<Stmt>, k: int) -> Seq<SemanticToken>
    decreases k,
{
    if k <= 0 {
        Seq::empty()
    } else {
        pieces_upto(s, stmts, k - 1) + pieces_of(s, stmts[k - 1])
    }
}

/// The pieces of a document.
pub open spec fn pieces(s: Seq<u8>) -> Seq<SemanticToken> {
    pieces_upto(s, syntax::stmts(s), syntax::stmts(s).len() as int)
}

// ---------------------------------------------------------------------------------------------
// Order
// ---------------------------------------------------------------------------------------------

/// Whether the pieces lie between `a` and `b`, one behind the other.
pub open spec fn in_order(all: Seq<SemanticToken>, a: int, b: int) -> bool {
    &&& forall|i: int|
        0 <= i < all.len() ==> a <= (#[trigger] all[i]).span.start <= all[i].span.end <= b
    &&& forall|i: int, j: int|
        #![trigger all[i], all[j]]
        0 <= i < j < all.len() ==> all[i].span.end <= all[j].span.start
}

proof fn lemma_in_order(x: Seq<SemanticToken>, y: Seq<SemanticToken>, a: int, m: int, n: int, b: int)
    requires
        in_order(x, a, m),
        in_order(y, n, b),
        a <= m <= n <= b,
    ensures
        in_order(x + y, a, b),
{
    let all = x + y;
    assert forall|i: int| 0 <= i < all.len() implies a <= (#[trigger] all[i]).span.start
        <= all[i].span.end <= b by {
        if i < x.len() {
            assert(all[i] == x[i]);
        } else {
            assert(all[i] == y[i - x.len()]);
        }
    }
    assert forall|i: int, j: int| #![trigger all[i], all[j]] 0 <= i < j < all.len() implies all[i].span.end
        <= all[j].span.start by {
        if j < x.len() {
            assert(all[i] == x[i] && all[j] == x[j]);
        } else if i >= x.len() {
            assert(all[i] == y[i - x.len()] && all[j] == y[j - x.len()]);
        } else {
            assert(all[i] == x[i] && all[j] == y[j - x.len()]);
        }
    }
}

proof fn lemma_array_pieces(s: Seq<u8>, i: int, e: int)
    requires
        valid_utf8(s),
        s.len() <= usize::MAX,
        0 <= i,
        e <= s.len(),
        i <= e ==> text::boundary(s, i),
        text::boundary(s, e),
    ensures
        i <= e ==> in_order(array_pieces(s, i, e), i, e),
        i > e ==> array_pieces(s, i, e).len() == 0,
    decreases e + 1 - i,
{
    if i < e {
        let k = colors::item_end(s, i, e, 0);
        colors::lemma_item_end(s, i, e, 0);
        if k < e {
            text::lemma_ascii_boundary(s, k);
        }
        text::lemma_trim_at(s, i, k);
        let p = text::trim_at(s, i, k);
        lemma_array_pieces(s, k + 1, e);
        let x = value_pieces(s, p.0, p.1);
        assert(in_order(x, i, k));
        if k < e {
            lemma_in_order(x, array_pieces(s, k + 1, e), i, k, k + 1, e);
        } else {
            assert(x + array_pieces(s, k + 1, e) =~= x);
        }
    }
}

/// Whether no negation stands in front of a state that starts at offset `i`, if one does.
spec fn unmarked(h: Seq<u8>, i: int) -> bool {
    i >= h.len() - 1 || h[i] == ascii::SPACE || h[i - 1] != ascii::BANG
}

/// Whether a state of a selector lies at or behind offset `i`, with its negation.
spec fn state_behind(h: Seq<u8>, i: int, p: (int, int)) -> bool {
    &&& i <= p.0 <= p.1 <= h.len() - 1
    &&& text::has(h, p.0 - 1, ascii::BANG) ==> i <= p.0 - 1
}

/// The states of a selector follow each other.
proof fn lemma_states_follow(h: Seq<u8>, i: int)
    requires
        0 < i,
        unmarked(h, i),
    ensures
        forall|k: int|
            0 <= k < syntax::states_from(h, i).len() ==> state_behind(
                h,
                i,
                #[trigger] syntax::states_from(h, i)[k],
            ),
        forall|k: int|
            1 <= k < syntax::states_from(h, i).len() ==> state_behind(
                h,
                syntax::states_from(h, i)[k - 1].1,
                #[trigger] syntax::states_from(h, i)[k],
            ),
    decreases h.len() - i,
{
    let all = syntax::states_from(h, i);
    if i < h.len() - 1 {
        if h[i] == ascii::SPACE {
            lemma_states_follow(h, i + 1);
            assert(all == syntax::states_from(h, i + 1));
        } else {
            let e = syntax::state_end(h, i);
            syntax::lemma_state_end(h, i);
            syntax::lemma_state_stop(h, i);
            lemma_states_follow(h, e);
            let rest = syntax::states_from(h, e);
            let p = (if h[i] == ascii::BANG { i + 1 } else { i }, e);
            assert(all == seq![p] + rest);
            assert forall|k: int| 0 <= k < all.len() implies state_behind(
                h,
                i,
                #[trigger] all[k],
            ) by {
                if k > 0 {
                    assert(all[k] == rest[k - 1]);
                    assert(state_behind(h, e, rest[k - 1]));
                }
            }
            assert forall|k: int| 1 <= k < all.len() implies state_behind(
                h,
                all[k - 1].1,
                #[trigger] all[k],
            ) by {
                assert(all[k] == rest[k - 1]);
                if k == 1 {
                    assert(state_behind(h, e, rest[0]));
                } else {
                    assert(all[k - 1] == rest[k - 2]);
                    assert(state_behind(h, rest[k - 2].1, rest[k - 1]));
                }
            }
        }
    }
}

/// Where the first `k` states of a selector end.
spec fn states_end(h: Seq<u8>, k: int) -> int {
    if k <= 0 {
        1
    } else {
        syntax::states_from(h, 1)[k - 1].1
    }
}

proof fn lemma_states_pieces(h: Seq<u8>, a: int, k: int)
    requires
        h.len() > 0,
        unmarked(h, 1),
        0 <= a,
        a + h.len() <= usize::MAX,
        0 <= k <= syntax::states_from(h, 1).len(),
    ensures
        in_order(states_upto(h, a, k), a, a + states_end(h, k)),
        1 <= states_end(h, k) <= h.len(),
    decreases k,
{
    if k > 0 {
        lemma_states_follow(h, 1);
        lemma_states_pieces(h, a, k - 1);
        let p = syntax::states_from(h, 1)[k - 1];
        let m = states_end(h, k - 1);
        assert(state_behind(h, m, p)) by {
            if k == 1 {
                assert(state_behind(h, 1, p));
            } else {
                assert(state_behind(h, syntax::states_from(h, 1)[k - 2].1, p));
            }
        }
        assert(in_order(state_pieces(h, a, p), a + m, a + p.1));
        lemma_in_order(
            states_upto(h, a, k - 1),
            state_pieces(h, a, p),
            a,
            a + m,
            a + m,
            a + p.1,
        );
    }
}

proof fn lemma_selector_pieces(s: Seq<u8>, k: int)
    requires
        valid_utf8(s),
        s.len() <= usize::MAX,
        0 <= k < syntax::stmts(s).len(),
        syntax::stmts(s)[k].kind == StmtKind::StateSelector,
    ensures
        in_order(
            selector_pieces(s, syntax::stmts(s)[k]),
            syntax::stmts(s)[k].span.start as int,
            syntax::stmts(s)[k].end as int,
        ),
{
    let st = syntax::stmts(s)[k];
    syntax::lemma_selector_text(s, k);
    let h = syntax::cut(s, st.span);
    let n = syntax::states_from(h, 1).len() as int;
    lemma_states_pieces(h, st.span.start as int, n);
}

proof fn lemma_target_pieces(s: Seq<u8>, st: Stmt)
    requires
        syntax::stmt_ok(s, st),
        st.value is Some,
        s.len() <= usize::MAX,
    ensures
        in_order(
            target_pieces(s, st),
            (st.value->0).start as int,
            (st.value->0).end as int,
        ),
{
    let v = st.value->0;
    let a = v.start as int;
    let b = v.end as int;
    if st.body is None {
        text::lemma_find_byte(syntax::cut(s, v), ascii::DOT, 0);
        if let Some(dot) = text::find_byte(syntax::cut(s, v), ascii::DOT, 0) {
            let x = widget_pieces(s, a, a + dot);
            let y = edge_pieces(a + dot + 1, b);
            assert(in_order(x, a, a + dot));
            assert(in_order(y, a + dot + 1, b));
            lemma_in_order(x, y, a, a + dot, a + dot + 1, b);
        } else {
            assert(in_order(widget_pieces(s, a, b), a, b));
        }
    }
}

proof fn lemma_plain_pieces(s: Seq<u8>, k: int)
    requires
        valid_utf8(s),
        s.len() <= usize::MAX,
        0 <= k < syntax::stmts(s).len(),
        syntax::stmts(s)[k].value is Some,
    ensures
        in_order(
            plain_pieces(s, syntax::stmts(s)[k]),
            (syntax::stmts(s)[k].value->0).start as int,
            (syntax::stmts(s)[k].value->0).end as int,
        ),
{
    let st = syntax::stmts(s)[k];
    let v = st.value->0;
    syntax::lemma_stmts(s);
    assert(syntax::stmt_ok(s, st));
    if st.body is None && st.kind == StmtKind::Property && s[v.start as int] == ascii::OPEN_BRACKET {
        syntax::lemma_array_value(s, k);
        text::lemma_ascii_boundary(s, v.start as int);
        text::lemma_ascii_boundary(s, v.end - 1);
        lemma_array_pieces(s, v.start + 1, v.end - 1);
    }
}

proof fn lemma_key_first(key: ByteSpan, kind: SemanticTokenKind, rest: Seq<SemanticToken>, st: Stmt)
    requires
        st.span.start <= key.start <= key.end <= st.end,
        rest.len() > 0 ==> (st.value matches Some(v) && key.end <= v.start <= v.end <= st.end
            && in_order(rest, v.start as int, v.end as int)),
    ensures
        in_order(
            seq![SemanticToken { span: key, kind }] + rest,
            st.span.start as int,
            st.end as int,
        ),
{
    let x = seq![SemanticToken { span: key, kind }];
    assert(in_order(x, st.span.start as int, key.end as int));
    if rest.len() > 0 {
        let v = st.value->0;
        assert(in_order(rest, v.start as int, st.end as int));
        lemma_in_order(
            x,
            rest,
            st.span.start as int,
            key.end as int,
            v.start as int,
            st.end as int,
        );
    } else {
        assert(x + rest =~= x);
    }
}

/// The pieces of a statement lie in it, one behind the other.
proof fn lemma_pieces_of(s: Seq<u8>, k: int)
    requires
        valid_utf8(s),
        s.len() <= usize::MAX,
        0 <= k < syntax::stmts(s).len(),
    ensures
        in_order(
            pieces_of(s, syntax::stmts(s)[k]),
            syntax::stmts(s)[k].span.start as int,
            syntax::stmts(s)[k].end as int,
        ),
{
    let st = syntax::stmts(s)[k];
    syntax::lemma_stmts(s);
    assert(syntax::stmt_ok(s, st));
    let none = Seq::<SemanticToken>::empty();
    let key = |kind: SemanticTokenKind| seq![SemanticToken { span: st.key, kind }];
    match st.kind {
        StmtKind::Comment => {
            syntax::lemma_comment_end(s, k);
        },
        StmtKind::StyleHeader => {
            let kind = base_kind(text::chars_of(syntax::cut(s, st.value->0)));
            lemma_key_first(st.key, SemanticTokenKind::Type, word_pieces(st, kind), st);
        },
        StmtKind::Container => {
            lemma_key_first(st.key, SemanticTokenKind::Type, none, st);
            assert(key(SemanticTokenKind::Type) + none =~= key(SemanticTokenKind::Type));
        },
        StmtKind::Property => {
            if st.value is Some {
                lemma_plain_pieces(s, k);
            }
            lemma_key_first(st.key, SemanticTokenKind::Property, plain_pieces(s, st), st);
        },
        StmtKind::IdProperty => {
            lemma_key_first(
                st.key,
                SemanticTokenKind::Property,
                word_pieces(st, SemanticTokenKind::Variable),
                st,
            );
        },
        StmtKind::AnchorProperty => {
            if st.value is Some {
                lemma_target_pieces(s, st);
            }
            lemma_key_first(
                syntax::span(st.span.start as int, st.key.end as int),
                SemanticTokenKind::Property,
                target_pieces(s, st),
                st,
            );
        },
        StmtKind::EventProperty => {
            lemma_key_first(st.key, SemanticTokenKind::Event, none, st);
            assert(key(SemanticTokenKind::Event) + none =~= key(SemanticTokenKind::Event));
        },
        StmtKind::AliasProperty => {
            lemma_key_first(
                st.key,
                SemanticTokenKind::Property,
                word_pieces(st, SemanticTokenKind::String),
                st,
            );
            lemma_key_first(st.key, SemanticTokenKind::Property, none, st);
            assert(key(SemanticTokenKind::Property) + none =~= key(SemanticTokenKind::Property));
        },
        StmtKind::ExprProperty => {
            lemma_key_first(st.key, SemanticTokenKind::Property, none, st);
            assert(key(SemanticTokenKind::Property) + none =~= key(SemanticTokenKind::Property));
        },
        StmtKind::StateSelector => {
            lemma_selector_pieces(s, k);
        },
        StmtKind::ListItem => {
            if st.value is Some {
                lemma_plain_pieces(s, k);
            }
        },
        StmtKind::Error => {},
    }
}

/// Where the first `k` statements end.
spec fn stmts_end(stmts: Seq<Stmt>, k: int) -> int {
    if k <= 0 {
        0
    } else {
        stmts[k - 1].end as int
    }
}

proof fn lemma_pieces_upto(s: Seq<u8>, k: int)
    requires
        valid_utf8(s),
        s.len() <= usize::MAX,
        0 <= k <= syntax::stmts(s).len(),
    ensures
        in_order(pieces_upto(s, syntax::stmts(s), k), 0, stmts_end(syntax::stmts(s), k)),
    decreases k,
{
    if k > 0 {
        let stmts = syntax::stmts(s);
        lemma_pieces_upto(s, k - 1);
        lemma_pieces_of(s, k - 1);
        syntax::lemma_stmts(s);
        assert(syntax::stmt_ok(s, stmts[k - 1]));
        if k > 1 {
            syntax::lemma_stmts_ordered(s, k - 2, k - 1);
        }
        lemma_in_order(
            pieces_upto(s, stmts, k - 1),
            pieces_of(s, stmts[k - 1]),
            0,
            stmts_end(stmts, k - 1),
            stmts[k - 1].span.start as int,
            stmts[k - 1].end as int,
        );
    }
}

/// The pieces of a document lie in it, do not overlap, and come in the order in which they stand.
pub proof fn law_pieces_in_order(s: Seq<u8>)
    requires
        valid_utf8(s),
        s.len() <= usize::MAX,
    ensures
        in_order(pieces(s), 0, s.len() as int),
{
    let n = syntax::stmts(s).len() as int;
    lemma_pieces_upto(s, n);
    syntax::lemma_stmts(s);
    if n > 0 {
        assert(syntax::stmt_ok(s, syntax::stmts(s)[n - 1]));
    }
}

/// The first offset at or after `i` that holds no digit.
fn digits_end_at(b: &[u8], i: usize) -> (r: usize)
    ensures
        r == digits_end(b@, i as int),
        i <= r,
        i <= b@.len() ==> r <= b@.len(),
{
    let mut k: usize = i;
    while k < b.len() && ascii::DIGIT_0 <= b[k] && b[k] <= ascii::DIGIT_9
        invariant
            i <= k,
            i <= b@.len() ==> k <= b@.len(),
            digits_end(b@, k as int) == digits_end(b@, i as int),
        decreases b@.len() - k,
    {
        k += 1;
    }
    k
}

/// Whether `b` is a number.
fn is_number(b: &[u8]) -> (r: bool)
    ensures
        r == number(b@),
{
    let n: usize = b.len();
    let from: usize = if has_at(b, 0, ascii::DASH) {
        1
    } else {
        0
    };
    let mut to: usize = digits_end_at(b, from);
    if to == from {
        return false;
    }
    if has_at(b, to, ascii::DOT) {
        let behind: usize = digits_end_at(b, to + 1);
        if behind > to + 1 {
            to = behind;
        }
    }
    to == n || (to + 1 == n && b[to] == ascii::PERCENT)
}

/// What a value is.
fn kind_of_value(value: &str) -> (r: SemanticTokenKind)
    ensures
        r == value_kind(value.spec_bytes()),
{
    if is_number(value.as_bytes()) {
        SemanticTokenKind::Number
    } else if same_str(value, "true") || same_str(value, "false") {
        SemanticTokenKind::Boolean
    } else if has_at(value.as_bytes(), 0, ascii::DOLLAR) {
        SemanticTokenKind::Variable
    } else if same_str(value, "~") {
        SemanticTokenKind::Keyword
    } else {
        SemanticTokenKind::String
    }
}

/// Adds the piece between two offsets.
fn push_piece(out: &mut Vec<SemanticToken>, a: usize, b: usize, kind: SemanticTokenKind)
    requires
        a <= b,
    ensures
        final(out)@ == old(out)@ + seq![piece(a as int, b as int, kind)],
{
    out.push(SemanticToken { span: ByteSpan::new(a, b), kind });
    assert(out@ =~= old(out)@ + seq![piece(a as int, b as int, kind)]);
}

/// Adds the piece that a value between two offsets is.
fn push_value(source: &str, a: usize, b: usize, out: &mut Vec<SemanticToken>)
    requires
        a <= b,
        text::boundary(source.spec_bytes(), a as int),
        text::boundary(source.spec_bytes(), b as int),
    ensures
        final(out)@ == old(out)@ + value_pieces(source.spec_bytes(), a as int, b as int),
{
    if a < b {
        push_piece(out, a, b, kind_of_value(substr(source, a, b)));
    }
    assert(out@ =~= old(out)@ + value_pieces(source.spec_bytes(), a as int, b as int));
}

/// Adds the pieces of an array.
fn push_array(source: &str, start: usize, e: usize, out: &mut Vec<SemanticToken>)
    requires
        start <= e,
        text::boundary(source.spec_bytes(), start as int),
        text::boundary(source.spec_bytes(), e as int),
    ensures
        final(out)@ == old(out)@ + array_pieces(source.spec_bytes(), start as int, e as int),
{
    let b = source.as_bytes();
    let n: usize = b.len();
    let ghost s = b@;
    let ghost whole = out@ + array_pieces(s, start as int, e as int);
    proof {
        text::lemma_valid(source);
    }
    let mut i: usize = start;
    while i < e
        invariant
            b@ == source.spec_bytes(),
            s == b@,
            n == s.len(),
            valid_utf8(s),
            e <= n,
            text::boundary(s, e as int),
            i <= e ==> text::boundary(s, i as int),
            whole == old(out)@ + array_pieces(s, start as int, e as int),
            out@ + array_pieces(s, i as int, e as int) == whole,
        decreases e + 1 - i,
    {
        let k: usize = array_item_end(b, i, e);
        proof {
            colors::lemma_item_end(s, i as int, e as int, 0);
            if k < e {
                text::lemma_ascii_boundary(s, k as int);
            }
            text::lemma_trim_at(s, i as int, k as int);
        }
        let (from, to) = trim_range(source, i, k);
        let ghost had = out@;
        push_value(source, from, to, out);
        proof {
            let x = value_pieces(s, from as int, to as int);
            let rest = array_pieces(s, k + 1, e as int);
            assert(had + x + rest =~= had + (x + rest));
        }
        if k >= e {
            assert(array_pieces(s, k + 1, e as int) =~= Seq::empty());
            assert(out@ =~= whole);
            return;
        }
        i = k + 1;
    }
    assert(out@ =~= whole);
}

/// Adds the pieces of the value of a property or a list item.
fn push_plain(source: &str, stmts: &[Stmt], i: usize, out: &mut Vec<SemanticToken>)
    requires
        stmts@ == syntax::stmts(source.spec_bytes()),
        i < stmts@.len(),
    ensures
        final(out)@ == old(out)@ + plain_pieces(source.spec_bytes(), stmts@[i as int]),
{
    let b = source.as_bytes();
    let n: usize = b.len();
    let ghost s = b@;
    let st = &stmts[i];
    proof {
        text::lemma_valid(source);
        syntax::lemma_stmts(s);
        assert(syntax::stmt_ok(s, *st));
    }
    let empty: bool = st.body.is_some();
    if let Some(v) = st.value {
        if !empty {
            if st.kind == StmtKind::Property && b[v.start] == ascii::OPEN_BRACKET {
                proof {
                    syntax::lemma_array_value(s, i as int);
                    text::lemma_ascii_boundary(s, v.start as int);
                    text::lemma_ascii_boundary(s, v.end - 1);
                }
                push_array(source, v.start + 1, v.end - 1, out);
            } else {
                push_value(source, v.start, v.end, out);
            }
        }
    }
    assert(out@ =~= old(out)@ + plain_pieces(s, *st));
}

/// Adds the piece that the value of a statement is.
fn push_word(st: &Stmt, kind: SemanticTokenKind, out: &mut Vec<SemanticToken>)
    ensures
        final(out)@ == old(out)@ + word_pieces(*st, kind),
{
    if let Some(v) = st.value {
        if !st.body.is_some() {
            out.push(SemanticToken { span: v, kind });
        }
    }
    assert(out@ =~= old(out)@ + word_pieces(*st, kind));
}

/// Adds the pieces of the target of an anchor.
fn push_target(source: &str, st: &Stmt, out: &mut Vec<SemanticToken>)
    requires
        syntax::stmt_ok(source.spec_bytes(), *st),
    ensures
        final(out)@ == old(out)@ + target_pieces(source.spec_bytes(), *st),
{
    let n: usize = source.as_bytes().len();
    let ghost s = source.spec_bytes();
    proof {
        text::lemma_valid(source);
    }
    if let Some(v) = st.value {
        if !st.body.is_some() {
            let target = span_text(source, v);
            match find_byte_at(target.as_bytes(), ascii::DOT, 0) {
                Some(dot) => {
                    proof {
                        text::lemma_valid(target);
                        text::lemma_ascii_boundary(target.spec_bytes(), dot as int);
                    }
                    push_widget(substr(target, 0, dot), v.start, v.start + dot, out);
                    let ghost had = out@;
                    if v.start + dot + 1 < v.end {
                        push_piece(out, v.start + dot + 1, v.end, SemanticTokenKind::Variable);
                    }
                    proof {
                        let x = widget_pieces(s, v.start as int, v.start + dot);
                        let y = edge_pieces(v.start + dot + 1, v.end as int);
                        assert(syntax::cut(s, v).subrange(0, dot as int) =~= s.subrange(
                            v.start as int,
                            v.start + dot,
                        ));
                        assert(out@ =~= had + y);
                        assert(old(out)@ + x + y =~= old(out)@ + (x + y));
                    }
                },
                None => {
                    push_widget(target, v.start, v.end, out);
                },
            }
        }
    }
    assert(out@ =~= old(out)@ + target_pieces(s, *st));
}

/// Adds the piece that a widget in the target of an anchor is.
fn push_widget(name: &str, a: usize, b: usize, out: &mut Vec<SemanticToken>)
    requires
        a <= b,
    ensures
        final(out)@ == old(out)@ + if a >= b {
            Seq::empty()
        } else if schema::member(schema::MAGIC_ANCHOR_TARGETS@, name.spec_bytes()) {
            seq![piece(a as int, b as int, SemanticTokenKind::Keyword)]
        } else {
            seq![piece(a as int, b as int, SemanticTokenKind::Variable)]
        },
{
    if a < b {
        let kind = if is_magic_anchor_target(name) {
            SemanticTokenKind::Keyword
        } else {
            SemanticTokenKind::Variable
        };
        push_piece(out, a, b, kind);
    } else {
        assert(out@ =~= old(out)@ + Seq::empty());
    }
}

/// Adds the pieces of a selector.
fn push_selector(source: &str, stmts: &[Stmt], i: usize, out: &mut Vec<SemanticToken>)
    requires
        stmts@ == syntax::stmts(source.spec_bytes()),
        i < stmts@.len(),
        stmts@[i as int].kind == StmtKind::StateSelector,
    ensures
        final(out)@ == old(out)@ + selector_pieces(source.spec_bytes(), stmts@[i as int]),
{
    let ghost s = source.spec_bytes();
    let len: usize = source.as_bytes().len();
    proof {
        text::lemma_valid(source);
        syntax::lemma_selector_text(s, i as int);
        syntax::lemma_selector(s, i as int);
    }
    let st = &stmts[i];
    let h = span_text(source, st.span);
    let b = h.as_bytes();
    let n: usize = b.len();
    let names = state_names(h);
    let ghost model = syntax::states_from(h.spec_bytes(), 1);
    assert(model.len() == names@.len());
    let a: usize = st.span.start;
    let ghost before = out@;
    let mut k: usize = 0;
    proof {
        lemma_states_follow(h.spec_bytes(), 1);
    }
    assert(before + states_upto(h.spec_bytes(), a as int, 0) =~= before);
    while k < names.len()
        invariant
            k <= names@.len(),
            b@ == h.spec_bytes(),
            n == b@.len(),
            a + n <= usize::MAX,
            model == syntax::states_from(h.spec_bytes(), 1),
            model == names@.map_values(|p: (usize, usize)| (p.0 as int, p.1 as int)),
            forall|j: int| 0 <= j < model.len() ==> state_behind(b@, 1, #[trigger] model[j]),
            forall|j: int|
                0 <= j < model.len() ==> {
                    let p = #[trigger] model[j];
                    &&& p.0 <= p.1
                    &&& text::boundary(h.spec_bytes(), p.0)
                    &&& text::boundary(h.spec_bytes(), p.1)
                },
            out@ == before + states_upto(h.spec_bytes(), a as int, k as int),
        decreases names@.len() - k,
    {
        let (from, to) = names[k];
        assert(model[k as int] == (from as int, to as int));
        let name = substr(h, from, to);
        let ghost had = out@;
        if has_at(b, from - 1, ascii::BANG) {
            push_piece(out, a + from - 1, a + from, SemanticTokenKind::Operator);
        }
        let kind = if is_known_state(name) {
            SemanticTokenKind::EnumMember
        } else {
            SemanticTokenKind::UnknownState
        };
        push_piece(out, a + from, a + to, kind);
        k += 1;
        proof {
            let x = state_pieces(h.spec_bytes(), a as int, (from as int, to as int));
            assert(out@ =~= had + x);
            let upto = states_upto(h.spec_bytes(), a as int, k - 1);
            assert(before + upto + x =~= before + (upto + x));
        }
    }
}

/// Adds the pieces of statement `i`.
fn push_statement(source: &str, stmts: &[Stmt], i: usize, out: &mut Vec<SemanticToken>)
    requires
        stmts@ == syntax::stmts(source.spec_bytes()),
        i < stmts@.len(),
    ensures
        final(out)@ == old(out)@ + pieces_of(source.spec_bytes(), stmts@[i as int]),
{
    let b = source.as_bytes();
    let n: usize = b.len();
    let ghost s = b@;
    let st = &stmts[i];
    let ghost had = out@;
    proof {
        text::lemma_valid(source);
        syntax::lemma_stmts(s);
        assert(syntax::stmt_ok(s, *st));
    }
    match st.kind {
        StmtKind::Comment => {
            out.push(SemanticToken { span: st.span, kind: SemanticTokenKind::Comment });
        },
        StmtKind::StyleHeader => {
            out.push(SemanticToken { span: st.key, kind: SemanticTokenKind::Type });
            if let Some(v) = st.value {
                let kind = if is_native_base(span_text(source, v)) {
                    SemanticTokenKind::BuiltinType
                } else {
                    SemanticTokenKind::InheritedType
                };
                push_word(st, kind, out);
            }
        },
        StmtKind::Container => {
            out.push(SemanticToken { span: st.key, kind: SemanticTokenKind::Type });
        },
        StmtKind::Property => {
            out.push(SemanticToken { span: st.key, kind: SemanticTokenKind::Property });
            push_plain(source, stmts, i, out);
        },
        StmtKind::IdProperty => {
            out.push(SemanticToken { span: st.key, kind: SemanticTokenKind::Property });
            push_word(st, SemanticTokenKind::Variable, out);
        },
        StmtKind::AnchorProperty => {
            push_piece(out, st.span.start, st.key.end, SemanticTokenKind::Property);
            push_target(source, st, out);
        },
        StmtKind::EventProperty => {
            out.push(SemanticToken { span: st.key, kind: SemanticTokenKind::Event });
        },
        StmtKind::AliasProperty => {
            out.push(SemanticToken { span: st.key, kind: SemanticTokenKind::Property });
            if let Some(v) = st.value {
                if b[v.start] == ascii::HASH {
                    push_word(st, SemanticTokenKind::String, out);
                }
            }
        },
        StmtKind::ExprProperty => {
            out.push(SemanticToken { span: st.key, kind: SemanticTokenKind::Property });
        },
        StmtKind::StateSelector => {
            push_selector(source, stmts, i, out);
        },
        StmtKind::ListItem => {
            push_plain(source, stmts, i, out);
        },
        StmtKind::Error => {},
    }
    assert(out@ =~= had + pieces_of(s, *st));
}

/// The pieces of a document, in the order in which they stand.
pub fn tokens(source: &str) -> (out: Vec<SemanticToken>)
    ensures
        out@ == pieces(source.spec_bytes()),
        in_order(out@, 0, source.spec_bytes().len() as int),
{
    let n: usize = source.as_bytes().len();
    proof {
        text::lemma_valid(source);
        law_pieces_in_order(source.spec_bytes());
    }
    let mut out: Vec<SemanticToken> = Vec::new();
    let tree = match SyntaxTree::parse(source) {
        Some(tree) => tree,
        None => {
            return out;
        },
    };
    let stmts = tree.statements();
    let mut k: usize = 0;
    while k < stmts.len()
        invariant
            stmts@ == syntax::stmts(source.spec_bytes()),
            k <= stmts@.len(),
            out@ == pieces_upto(source.spec_bytes(), stmts@, k as int),
        decreases stmts@.len() - k,
    {
        push_statement(source, stmts, k, &mut out);
        k += 1;
    }
    out
}

} // verus!
