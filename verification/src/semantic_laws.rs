//! What each piece of a document is, told by its text and by the statement it stands in.

use crate::ascii;
use crate::color_laws;
use crate::colors;
use crate::lang_api::{ByteSpan, SemanticToken, SemanticTokenKind};
use crate::schema;
use crate::semantic;
use crate::syntax;
use crate::syntax::{Stmt, StmtKind};
use crate::text;
use crate::workspace_laws;
use vstd::prelude::*;
use vstd::string::*;
use vstd::utf8::*;

verus! {

/// Whether a text is one of the two literals of a switch.
pub open spec fn is_switch(t: Seq<u8>) -> bool {
    t == seq![0x74u8, 0x72u8, 0x75u8, 0x65u8] || t == seq![0x66u8, 0x61u8, 0x6cu8, 0x73u8, 0x65u8]
}

/// Whether a text is a number: perhaps a minus, digits, perhaps a point and digits, perhaps a percent
/// sign.
pub open spec fn is_numeral(t: Seq<u8>) -> bool {
    exists|m: Seq<u8>, i: Seq<u8>, f: Seq<u8>, p: Seq<u8>| #[trigger] numeral_parts(t, m, i, f, p)
}

/// Whether a number has the given sign, digits, fraction and percent sign.
pub open spec fn numeral_parts(
    t: Seq<u8>,
    m: Seq<u8>,
    i: Seq<u8>,
    f: Seq<u8>,
    p: Seq<u8>,
) -> bool {
    &&& t == m + i + f + p
    &&& m.len() == 0 || m == seq![0x2du8]
    &&& i.len() > 0 && color_laws::all_digits(i)
    &&& f.len() == 0 || (f.len() > 1 && f[0] == 0x2e && color_laws::all_digits(f.drop_first()))
    &&& p.len() == 0 || p == seq![0x25u8]
}

/// Whether a kind is the one of a value that reads `t`.
pub open spec fn fits(t: Seq<u8>, kind: SemanticTokenKind) -> bool {
    if is_numeral(t) {
        kind == SemanticTokenKind::Number
    } else if is_switch(t) {
        kind == SemanticTokenKind::Boolean
    } else if t.len() > 0 && t[0] == 0x24 {
        kind == SemanticTokenKind::Variable
    } else if t == seq![0x7eu8] {
        kind == SemanticTokenKind::Keyword
    } else {
        kind == SemanticTokenKind::String
    }
}

proof fn lemma_digits_end(t: Seq<u8>, i: int, e: int)
    requires
        0 <= i <= e <= t.len(),
        forall|k: int| i <= k < e ==> 0x30 <= #[trigger] t[k] <= 0x39,
        e == t.len() || !(0x30 <= t[e] <= 0x39),
    ensures
        semantic::digits_end(t, i) == e,
    decreases e - i,
{
    if i < e {
        lemma_digits_end(t, i + 1, e);
    }
}

proof fn lemma_digits_between(t: Seq<u8>, i: int)
    requires
        0 <= i <= t.len(),
    ensures
        i <= semantic::digits_end(t, i) <= t.len(),
        forall|k: int| i <= k < semantic::digits_end(t, i) ==> 0x30 <= #[trigger] t[k] <= 0x39,
        semantic::digits_end(t, i) < t.len() ==> !(0x30 <= t[semantic::digits_end(t, i)] <= 0x39),
    decreases t.len() - i,
{
    if i < t.len() && ascii::DIGIT_0 <= t[i] <= ascii::DIGIT_9 {
        lemma_digits_between(t, i + 1);
    }
}

proof fn lemma_number_is_numeral(t: Seq<u8>)
    requires
        semantic::number(t),
    ensures
        is_numeral(t),
{
    let a: int = if text::has(t, 0, ascii::DASH) {
        1
    } else {
        0
    };
    let b = semantic::digits_end(t, a);
    let c = semantic::fraction_end(t, b);
    lemma_digits_between(t, a);
    if b < t.len() {
        lemma_digits_between(t, b + 1);
    }
    let m = t.subrange(0, a);
    let i = t.subrange(a, b);
    let f = t.subrange(b, c);
    let p = t.subrange(c, t.len() as int);
    assert(t =~= m + i + f + p);
    if a == 1 {
        assert(m =~= seq![0x2du8]);
    }
    assert(color_laws::all_digits(i));
    if c > b {
        assert(f[0] == t[b]);
        assert(color_laws::all_digits(f.drop_first())) by {
            assert forall|k: int| 0 <= k < f.drop_first().len() implies 0x30
                <= #[trigger] f.drop_first()[k] <= 0x39 by {
                assert(f.drop_first()[k] == t[b + 1 + k]);
            }
        }
    }
    if c < t.len() {
        assert(p =~= seq![0x25u8]);
    }
    assert(numeral_parts(t, m, i, f, p));
}

proof fn lemma_numeral_is_number(
    t: Seq<u8>,
    m: Seq<u8>,
    i: Seq<u8>,
    f: Seq<u8>,
    p: Seq<u8>,
)
    requires
        numeral_parts(t, m, i, f, p),
    ensures
        semantic::number(t),
{
    let a = m.len() as int;
    let b = a + i.len();
    let c = b + f.len();
    assert(t.len() == c + p.len());
    if a == 1 {
        assert(t[0] == m[0]);
    } else {
        assert(t[0] == i[0]);
    }
    assert forall|k: int| a <= k < b implies 0x30 <= #[trigger] t[k] <= 0x39 by {
        assert(t[k] == i[k - a]);
    }
    if b < t.len() {
        if f.len() > 0 {
            assert(t[b] == f[0]);
        } else {
            assert(t[b] == p[0]);
        }
    }
    lemma_digits_end(t, a, b);
    if f.len() > 0 {
        assert forall|k: int| b + 1 <= k < c implies 0x30 <= #[trigger] t[k] <= 0x39 by {
            assert(t[k] == f[k - b]);
            assert(f[k - b] == f.drop_first()[k - b - 1]);
        }
        if c < t.len() {
            assert(t[c] == p[0]);
        }
        lemma_digits_end(t, b + 1, c);
    }
    assert(semantic::fraction_end(t, b) == c);
    if c < t.len() {
        assert(t[c] == p[0]);
    }
}

/// A value is a number exactly where it is digits, perhaps with a sign, a fraction or a percent sign.
pub proof fn law_numbers(t: Seq<u8>)
    ensures
        semantic::value_kind(t) == SemanticTokenKind::Number <==> is_numeral(t),
{
    if semantic::number(t) {
        lemma_number_is_numeral(t);
    }
    if is_numeral(t) {
        let (m, i, f, p) = choose|m: Seq<u8>, i: Seq<u8>, f: Seq<u8>, p: Seq<u8>| #[trigger]
            numeral_parts(t, m, i, f, p);
        lemma_numeral_is_number(t, m, i, f, p);
    }
}

/// The kind of a value is the one that its text has: a number, one of the two literals of a switch, a
/// variable behind `$`, the keyword `~`, and else a string.
pub proof fn law_value_kind(t: Seq<u8>)
    ensures
        fits(t, semantic::value_kind(t)),
        semantic::value_kind(t) == SemanticTokenKind::Boolean <==> is_switch(t),
{
    reveal_strlit("true");
    reveal_strlit("false");
    reveal_strlit("~");
    is_ascii_chars_encode_utf8("true"@);
    is_ascii_chars_encode_utf8("false"@);
    is_ascii_chars_encode_utf8("~"@);
    assert("true".spec_bytes() =~= seq![0x74u8, 0x72u8, 0x75u8, 0x65u8]);
    assert("false".spec_bytes() =~= seq![0x66u8, 0x61u8, 0x6cu8, 0x73u8, 0x65u8]);
    assert("~".spec_bytes() =~= seq![0x7eu8]);
    law_numbers(t);
    if is_switch(t) && semantic::number(t) {
        assert(t[0] == 0x74 || t[0] == 0x66);
    }
}

// ---------------------------------------------------------------------------------------------
// Pieces and statements
// ---------------------------------------------------------------------------------------------

/// Whether the document has the given piece.
pub open spec fn has_piece(s: Seq<u8>, sp: ByteSpan, kind: SemanticTokenKind) -> bool {
    semantic::pieces(s).contains(SemanticToken { span: sp, kind })
}

proof fn lemma_pieces_upto(s: Seq<u8>, n: int, p: SemanticToken)
    requires
        0 <= n <= syntax::stmts(s).len(),
    ensures
        semantic::pieces_upto(s, syntax::stmts(s), n).contains(p) <==> exists|k: int|
            0 <= k < n && semantic::pieces_of(s, #[trigger] syntax::stmts(s)[k]).contains(p),
    decreases n,
{
    if n > 0 {
        let stmts = syntax::stmts(s);
        lemma_pieces_upto(s, n - 1, p);
        lemma_piece_in_either(
            semantic::pieces_upto(s, stmts, n - 1),
            semantic::pieces_of(s, stmts[n - 1]),
            p,
        );
    }
}

proof fn lemma_piece_in_either(a: Seq<SemanticToken>, b: Seq<SemanticToken>, x: SemanticToken)
    ensures
        (a + b).contains(x) <==> a.contains(x) || b.contains(x),
{
    let c = a + b;
    if a.contains(x) {
        assert(c[a.index_of(x)] == x);
    }
    if b.contains(x) {
        assert(c[a.len() + b.index_of(x)] == x);
    }
    if c.contains(x) {
        let i = c.index_of(x);
        if i < a.len() {
            assert(a[i] == x);
        } else {
            assert(b[i - a.len()] == x);
        }
    }
}

proof fn lemma_piece_of(s: Seq<u8>, k: int, p: SemanticToken)
    requires
        0 <= k < syntax::stmts(s).len(),
        semantic::pieces_of(s, syntax::stmts(s)[k]).contains(p),
    ensures
        semantic::pieces(s).contains(p),
{
    lemma_pieces_upto(s, syntax::stmts(s).len() as int, p);
}

/// Whether the value of a statement is classified by its text: that of a property or a list item that
/// is no block.
pub open spec fn classified(st: Stmt) -> bool {
    (st.kind == StmtKind::Property || st.kind == StmtKind::ListItem) && st.value is Some && st.body is None
}

/// The value of a property or a list item is a piece, of the kind that its text has.
pub proof fn law_values_are_classified(s: Seq<u8>, k: int, v: ByteSpan)
    requires
        valid_utf8(s),
        s.len() <= usize::MAX,
        0 <= k < syntax::stmts(s).len(),
        classified(syntax::stmts(s)[k]),
        syntax::stmts(s)[k].value == Some(v),
        syntax::stmts(s)[k].kind == StmtKind::Property ==> s[v.start as int] != ascii::OPEN_BRACKET,
    ensures
        exists|kind: SemanticTokenKind| #[trigger]
            has_piece(s, v, kind) && fits(s.subrange(v.start as int, v.end as int), kind),
{
    let st = syntax::stmts(s)[k];
    syntax::lemma_stmts(s);
    assert(syntax::stmt_ok(s, st));
    let t = s.subrange(v.start as int, v.end as int);
    let kind = semantic::value_kind(t);
    law_value_kind(t);
    let p = SemanticToken { span: v, kind };
    let values = semantic::value_pieces(s, v.start as int, v.end as int);
    assert(values[0] == p);
    assert(values.contains(p));
    if st.kind == StmtKind::Property {
        lemma_piece_in_either(
            seq![SemanticToken { span: st.key, kind: SemanticTokenKind::Property }],
            values,
            p,
        );
    }
    lemma_piece_of(s, k, p);
    assert(has_piece(s, v, kind));
}

proof fn lemma_array_item(s: Seq<u8>, i: int, e: int, a: int, b: int, p: SemanticToken)
    requires
        0 <= i <= e <= s.len(),
        color_laws::no_parens(s, i, e),
        color_laws::array_item(s, i, e, a, b),
        a < b,
        ({
            let q = text::trim_at(s, a, b);
            semantic::value_pieces(s, q.0, q.1).contains(p)
        }),
    ensures
        semantic::array_pieces(s, i, e).contains(p),
    decreases e - i,
{
    let k = colors::item_end(s, i, e, 0);
    let q = text::trim_at(s, i, k);
    let first = semantic::value_pieces(s, q.0, q.1);
    let rest = semantic::array_pieces(s, k + 1, e);
    colors::lemma_item_end(s, i, e, 0);
    lemma_piece_in_either(first, rest, p);
    if a == i {
        color_laws::lemma_first_item(s, i, e, b);
    } else {
        color_laws::lemma_first_comma(s, i, e, a - 1);
        lemma_array_item(s, k + 1, e, a, b, p);
    }
}

/// Each item of an array is a piece, without the white space around it, of the kind that its text
/// has.
pub proof fn law_array_items_are_classified(s: Seq<u8>, k: int, v: ByteSpan, a: int, b: int)
    requires
        valid_utf8(s),
        s.len() <= usize::MAX,
        0 <= k < syntax::stmts(s).len(),
        syntax::stmts(s)[k].kind == StmtKind::Property,
        syntax::stmts(s)[k].body is None,
        syntax::stmts(s)[k].value == Some(v),
        s[v.start as int] == ascii::OPEN_BRACKET,
        color_laws::no_parens(s, v.start as int, v.end as int),
        a < b,
        color_laws::array_item(s, v.start + 1, v.end - 1, a, b),
        text::trim(s.subrange(a, b)).len() > 0,
    ensures
        exists|sp: ByteSpan, kind: SemanticTokenKind| #[trigger]
            has_piece(s, sp, kind) && a <= sp.start < sp.end <= b && s.subrange(
                sp.start as int,
                sp.end as int,
            ) == text::trim(s.subrange(a, b)) && fits(text::trim(s.subrange(a, b)), kind),
{
    let st = syntax::stmts(s)[k];
    syntax::lemma_stmts(s);
    assert(syntax::stmt_ok(s, st));
    syntax::lemma_array_value(s, k);
    color_laws::lemma_item_boundaries(s, v, a, b);
    text::lemma_trim_at(s, a, b);
    let q = text::trim_at(s, a, b);
    let t = s.subrange(q.0, q.1);
    let kind = semantic::value_kind(t);
    law_value_kind(t);
    let p = semantic::piece(q.0, q.1, kind);
    assert(semantic::value_pieces(s, q.0, q.1)[0] == p);
    lemma_array_item(s, v.start + 1, v.end - 1, a, b, p);
    lemma_piece_in_either(
        seq![SemanticToken { span: st.key, kind: SemanticTokenKind::Property }],
        semantic::array_pieces(s, v.start + 1, v.end - 1),
        p,
    );
    lemma_piece_of(s, k, p);
    assert(has_piece(s, p.span, kind));
}

proof fn lemma_array_piece(s: Seq<u8>, i: int, e: int, p: SemanticToken)
    requires
        valid_utf8(s),
        0 <= i,
        e <= s.len() <= usize::MAX,
        i <= e ==> text::boundary(s, i),
        text::boundary(s, e),
        semantic::array_pieces(s, i, e).contains(p),
    ensures
        i <= p.span.start < p.span.end <= e,
        fits(s.subrange(p.span.start as int, p.span.end as int), p.kind),
    decreases e + 1 - i,
{
    if i < e {
        let k = colors::item_end(s, i, e, 0);
        colors::lemma_item_end(s, i, e, 0);
        if k < e {
            text::lemma_ascii_boundary(s, k);
        }
        text::lemma_trim_at(s, i, k);
        let q = text::trim_at(s, i, k);
        let a = semantic::value_pieces(s, q.0, q.1);
        let b = semantic::array_pieces(s, k + 1, e);
        lemma_piece_in_either(a, b, p);
        law_value_kind(s.subrange(q.0, q.1));
        if !a.contains(p) {
            lemma_array_piece(s, k + 1, e, p);
        }
    }
}

/// Whether a piece is what it should be in a statement.
pub open spec fn fits_in(s: Seq<u8>, st: Stmt, p: SemanticToken) -> bool {
    let t = s.subrange(p.span.start as int, p.span.end as int);
    let in_value = st.value matches Some(v) && v.start <= p.span.start < p.span.end <= v.end;
    let is_value = st.value == Some(p.span) && st.body is None;
    let is_key = |kind: SemanticTokenKind| p.span == st.key && p.kind == kind;
    match st.kind {
        StmtKind::Comment => p.span == st.span && p.kind == SemanticTokenKind::Comment,
        StmtKind::StyleHeader => is_key(SemanticTokenKind::Type) || (is_value && p.kind == (
        if workspace_laws::starts_with_ui(text::chars_of(t)) {
            SemanticTokenKind::BuiltinType
        } else {
            SemanticTokenKind::InheritedType
        })),
        StmtKind::Container => is_key(SemanticTokenKind::Type),
        StmtKind::Property => is_key(SemanticTokenKind::Property) || (in_value && st.body is None
            && fits(t, p.kind)),
        StmtKind::ListItem => is_value && fits(t, p.kind),
        StmtKind::IdProperty => is_key(SemanticTokenKind::Property) || (is_value && p.kind
            == SemanticTokenKind::Variable),
        StmtKind::AnchorProperty => (p.span.start == st.span.start && p.span.end == st.key.end
            && p.kind == SemanticTokenKind::Property) || (in_value && st.body is None && (p.kind
            == SemanticTokenKind::Keyword ==> schema::member(schema::MAGIC_ANCHOR_TARGETS@, t)) && (
        p.kind == SemanticTokenKind::Keyword || p.kind == SemanticTokenKind::Variable)),
        StmtKind::EventProperty => is_key(SemanticTokenKind::Event),
        StmtKind::AliasProperty => is_key(SemanticTokenKind::Property) || (is_value && p.kind
            == SemanticTokenKind::String && text::has(t, 0, ascii::HASH)),
        StmtKind::ExprProperty => is_key(SemanticTokenKind::Property),
        StmtKind::StateSelector => st.span.start <= p.span.start <= p.span.end <= st.span.end && (
        match p.kind {
            SemanticTokenKind::Operator => t == seq![0x21u8],
            SemanticTokenKind::EnumMember => schema::member_any_case(schema::STATES@, t),
            SemanticTokenKind::UnknownState => !schema::member_any_case(schema::STATES@, t),
            _ => false,
        }),
        StmtKind::Error => false,
    }
}

proof fn lemma_target_fits(s: Seq<u8>, k: int, p: SemanticToken)
    requires
        valid_utf8(s),
        s.len() <= usize::MAX,
        0 <= k < syntax::stmts(s).len(),
        syntax::stmts(s)[k].kind == StmtKind::AnchorProperty,
        semantic::target_pieces(s, syntax::stmts(s)[k]).contains(p),
    ensures
        fits_in(s, syntax::stmts(s)[k], p),
{
    let st = syntax::stmts(s)[k];
    syntax::lemma_stmts(s);
    assert(syntax::stmt_ok(s, st));
    let v = st.value->0;
    let t = syntax::cut(s, v);
    text::lemma_find_byte(t, ascii::DOT, 0);
    if let Some(dot) = text::find_byte(t, ascii::DOT, 0) {
        lemma_piece_in_either(
            semantic::widget_pieces(s, v.start as int, v.start + dot),
            semantic::edge_pieces(v.start + dot + 1, v.end as int),
            p,
        );
    }
}

/// Whether a piece is what it should be in a selector that reads `h` and starts at `a`.
spec fn fits_selector(h: Seq<u8>, a: int, p: SemanticToken) -> bool {
    let t = h.subrange(p.span.start - a, p.span.end - a);
    &&& a <= p.span.start <= p.span.end <= a + h.len()
    &&& match p.kind {
        SemanticTokenKind::Operator => t == seq![0x21u8],
        SemanticTokenKind::EnumMember => schema::member_any_case(schema::STATES@, t),
        SemanticTokenKind::UnknownState => !schema::member_any_case(schema::STATES@, t),
        _ => false,
    }
}

proof fn lemma_state_fits(h: Seq<u8>, a: int, q: (int, int), p: SemanticToken)
    requires
        0 <= a,
        a + h.len() <= usize::MAX,
        0 <= q.0 <= q.1 <= h.len(),
        semantic::state_pieces(h, a, q).contains(p),
    ensures
        fits_selector(h, a, p),
{
    let all = semantic::state_pieces(h, a, q);
    let i = all.index_of(p);
    if text::has(h, q.0 - 1, ascii::BANG) && i == 0 {
        assert(p.kind == SemanticTokenKind::Operator);
        assert(h.subrange(q.0 - 1, q.0) =~= seq![0x21u8]);
    } else {
        assert(p == all.last());
    }
}

proof fn lemma_states_fit(h: Seq<u8>, a: int, n: int, p: SemanticToken)
    requires
        0 <= a,
        a + h.len() <= usize::MAX,
        0 <= n <= syntax::states_from(h, 1).len(),
        forall|j: int|
            0 <= j < syntax::states_from(h, 1).len() ==> {
                let q = #[trigger] syntax::states_from(h, 1)[j];
                0 <= q.0 <= q.1 <= h.len()
            },
        semantic::states_upto(h, a, n).contains(p),
    ensures
        fits_selector(h, a, p),
    decreases n,
{
    if n > 0 {
        let q = syntax::states_from(h, 1)[n - 1];
        lemma_piece_in_either(
            semantic::states_upto(h, a, n - 1),
            semantic::state_pieces(h, a, q),
            p,
        );
        if semantic::states_upto(h, a, n - 1).contains(p) {
            lemma_states_fit(h, a, n - 1, p);
        } else {
            lemma_state_fits(h, a, q, p);
        }
    }
}

proof fn lemma_selector_fits(s: Seq<u8>, k: int, p: SemanticToken)
    requires
        valid_utf8(s),
        s.len() <= usize::MAX,
        0 <= k < syntax::stmts(s).len(),
        syntax::stmts(s)[k].kind == StmtKind::StateSelector,
        semantic::selector_pieces(s, syntax::stmts(s)[k]).contains(p),
    ensures
        fits_in(s, syntax::stmts(s)[k], p),
{
    let st = syntax::stmts(s)[k];
    let h = syntax::cut(s, st.span);
    let a = st.span.start as int;
    syntax::lemma_selector(s, k);
    assert forall|j: int| 0 <= j < syntax::states_from(h, 1).len() implies {
        let q = #[trigger] syntax::states_from(h, 1)[j];
        0 <= q.0 <= q.1 <= h.len()
    } by {
        assert(text::boundary(h, syntax::states_from(h, 1)[j].0));
        assert(text::boundary(h, syntax::states_from(h, 1)[j].1));
    }
    lemma_states_fit(h, a, syntax::states_from(h, 1).len() as int, p);
    assert(s.subrange(p.span.start as int, p.span.end as int) =~= h.subrange(
        p.span.start - a,
        p.span.end - a,
    ));
}

/// Each piece of a document is what it should be in the statement that it stands in.
pub proof fn law_pieces_fit(s: Seq<u8>, i: int)
    requires
        valid_utf8(s),
        s.len() <= usize::MAX,
        0 <= i < semantic::pieces(s).len(),
    ensures
        exists|k: int|
            0 <= k < syntax::stmts(s).len() && fits_in(
                s,
                #[trigger] syntax::stmts(s)[k],
                semantic::pieces(s)[i],
            ),
{
    let p = semantic::pieces(s)[i];
    let stmts = syntax::stmts(s);
    assert(semantic::pieces(s).contains(p));
    lemma_pieces_upto(s, stmts.len() as int, p);
    let k = choose|k: int|
        0 <= k < stmts.len() && semantic::pieces_of(s, #[trigger] stmts[k]).contains(p);
    lemma_piece_fits(s, k, p);
}

proof fn lemma_header_fits(s: Seq<u8>, k: int, p: SemanticToken)
    requires
        valid_utf8(s),
        s.len() <= usize::MAX,
        0 <= k < syntax::stmts(s).len(),
        syntax::stmts(s)[k].kind == StmtKind::StyleHeader,
        semantic::pieces_of(s, syntax::stmts(s)[k]).contains(p),
    ensures
        fits_in(s, syntax::stmts(s)[k], p),
{
    let st = syntax::stmts(s)[k];
    syntax::lemma_stmts(s);
    assert(syntax::stmt_ok(s, st));
    syntax::lemma_header_base(s, k);
    let name = text::chars_of(syntax::cut(s, st.value->0));
    workspace_laws::law_classes_start_with_ui(name);
    lemma_piece_in_either(
        seq![SemanticToken { span: st.key, kind: SemanticTokenKind::Type }],
        semantic::word_pieces(st, semantic::base_kind(name)),
        p,
    );
}

proof fn lemma_property_fits(s: Seq<u8>, k: int, p: SemanticToken)
    requires
        valid_utf8(s),
        s.len() <= usize::MAX,
        0 <= k < syntax::stmts(s).len(),
        syntax::stmts(s)[k].kind == StmtKind::Property,
        semantic::pieces_of(s, syntax::stmts(s)[k]).contains(p),
    ensures
        fits_in(s, syntax::stmts(s)[k], p),
{
    let st = syntax::stmts(s)[k];
    syntax::lemma_stmts(s);
    assert(syntax::stmt_ok(s, st));
    lemma_piece_in_either(
        seq![SemanticToken { span: st.key, kind: SemanticTokenKind::Property }],
        semantic::plain_pieces(s, st),
        p,
    );
    if semantic::plain_pieces(s, st).contains(p) {
        lemma_plain_fits(s, k, p);
    }
}

proof fn lemma_id_fits(s: Seq<u8>, k: int, p: SemanticToken)
    requires
        valid_utf8(s),
        s.len() <= usize::MAX,
        0 <= k < syntax::stmts(s).len(),
        syntax::stmts(s)[k].kind == StmtKind::IdProperty,
        semantic::pieces_of(s, syntax::stmts(s)[k]).contains(p),
    ensures
        fits_in(s, syntax::stmts(s)[k], p),
{
    let st = syntax::stmts(s)[k];
    syntax::lemma_stmts(s);
    assert(syntax::stmt_ok(s, st));
    lemma_piece_in_either(
        seq![SemanticToken { span: st.key, kind: SemanticTokenKind::Property }],
        semantic::word_pieces(st, SemanticTokenKind::Variable),
        p,
    );
}

proof fn lemma_alias_fits(s: Seq<u8>, k: int, p: SemanticToken)
    requires
        valid_utf8(s),
        s.len() <= usize::MAX,
        0 <= k < syntax::stmts(s).len(),
        syntax::stmts(s)[k].kind == StmtKind::AliasProperty,
        semantic::pieces_of(s, syntax::stmts(s)[k]).contains(p),
    ensures
        fits_in(s, syntax::stmts(s)[k], p),
{
    let st = syntax::stmts(s)[k];
    syntax::lemma_stmts(s);
    assert(syntax::stmt_ok(s, st));
    lemma_piece_in_either(
        seq![SemanticToken { span: st.key, kind: SemanticTokenKind::Property }],
        semantic::word_pieces(st, SemanticTokenKind::String),
        p,
    );
}

proof fn lemma_anchor_fits(s: Seq<u8>, k: int, p: SemanticToken)
    requires
        valid_utf8(s),
        s.len() <= usize::MAX,
        0 <= k < syntax::stmts(s).len(),
        syntax::stmts(s)[k].kind == StmtKind::AnchorProperty,
        semantic::pieces_of(s, syntax::stmts(s)[k]).contains(p),
    ensures
        fits_in(s, syntax::stmts(s)[k], p),
{
    let st = syntax::stmts(s)[k];
    syntax::lemma_stmts(s);
    assert(syntax::stmt_ok(s, st));
    lemma_piece_in_either(
        seq![
            semantic::piece(
                st.span.start as int,
                st.key.end as int,
                SemanticTokenKind::Property,
            ),
        ],
        semantic::target_pieces(s, st),
        p,
    );
    if semantic::target_pieces(s, st).contains(p) {
        lemma_target_fits(s, k, p);
    }
}

proof fn lemma_comment_fits(s: Seq<u8>, k: int, p: SemanticToken)
    requires
        valid_utf8(s),
        s.len() <= usize::MAX,
        0 <= k < syntax::stmts(s).len(),
        syntax::stmts(s)[k].kind == StmtKind::Comment,
        semantic::pieces_of(s, syntax::stmts(s)[k]).contains(p),
    ensures
        fits_in(s, syntax::stmts(s)[k], p),
{
    let st = syntax::stmts(s)[k];
    syntax::lemma_stmts(s);
    assert(syntax::stmt_ok(s, st));
}

proof fn lemma_container_fits(s: Seq<u8>, k: int, p: SemanticToken)
    requires
        valid_utf8(s),
        s.len() <= usize::MAX,
        0 <= k < syntax::stmts(s).len(),
        syntax::stmts(s)[k].kind == StmtKind::Container,
        semantic::pieces_of(s, syntax::stmts(s)[k]).contains(p),
    ensures
        fits_in(s, syntax::stmts(s)[k], p),
{
    let st = syntax::stmts(s)[k];
    syntax::lemma_stmts(s);
    assert(syntax::stmt_ok(s, st));
}

proof fn lemma_event_fits(s: Seq<u8>, k: int, p: SemanticToken)
    requires
        valid_utf8(s),
        s.len() <= usize::MAX,
        0 <= k < syntax::stmts(s).len(),
        syntax::stmts(s)[k].kind == StmtKind::EventProperty,
        semantic::pieces_of(s, syntax::stmts(s)[k]).contains(p),
    ensures
        fits_in(s, syntax::stmts(s)[k], p),
{
    let st = syntax::stmts(s)[k];
    syntax::lemma_stmts(s);
    assert(syntax::stmt_ok(s, st));
}

proof fn lemma_expr_fits(s: Seq<u8>, k: int, p: SemanticToken)
    requires
        valid_utf8(s),
        s.len() <= usize::MAX,
        0 <= k < syntax::stmts(s).len(),
        syntax::stmts(s)[k].kind == StmtKind::ExprProperty,
        semantic::pieces_of(s, syntax::stmts(s)[k]).contains(p),
    ensures
        fits_in(s, syntax::stmts(s)[k], p),
{
    let st = syntax::stmts(s)[k];
    syntax::lemma_stmts(s);
    assert(syntax::stmt_ok(s, st));
}

proof fn lemma_piece_fits(s: Seq<u8>, k: int, p: SemanticToken)
    requires
        valid_utf8(s),
        s.len() <= usize::MAX,
        0 <= k < syntax::stmts(s).len(),
        semantic::pieces_of(s, syntax::stmts(s)[k]).contains(p),
    ensures
        fits_in(s, syntax::stmts(s)[k], p),
{
    match syntax::stmts(s)[k].kind {
        StmtKind::Comment => lemma_comment_fits(s, k, p),
        StmtKind::StyleHeader => lemma_header_fits(s, k, p),
        StmtKind::Container => lemma_container_fits(s, k, p),
        StmtKind::Property => lemma_property_fits(s, k, p),
        StmtKind::IdProperty => lemma_id_fits(s, k, p),
        StmtKind::AnchorProperty => lemma_anchor_fits(s, k, p),
        StmtKind::EventProperty => lemma_event_fits(s, k, p),
        StmtKind::AliasProperty => lemma_alias_fits(s, k, p),
        StmtKind::ExprProperty => lemma_expr_fits(s, k, p),
        StmtKind::StateSelector => lemma_selector_fits(s, k, p),
        StmtKind::ListItem => lemma_plain_fits(s, k, p),
        StmtKind::Error => {},
    }
}

proof fn lemma_plain_fits(s: Seq<u8>, k: int, p: SemanticToken)
    requires
        valid_utf8(s),
        s.len() <= usize::MAX,
        0 <= k < syntax::stmts(s).len(),
        syntax::stmts(s)[k].kind == StmtKind::Property || syntax::stmts(s)[k].kind
            == StmtKind::ListItem,
        semantic::plain_pieces(s, syntax::stmts(s)[k]).contains(p),
    ensures
        fits_in(s, syntax::stmts(s)[k], p),
{
    let st = syntax::stmts(s)[k];
    syntax::lemma_stmts(s);
    assert(syntax::stmt_ok(s, st));
    let v = st.value->0;
    if st.kind == StmtKind::Property && s[v.start as int] == ascii::OPEN_BRACKET {
        syntax::lemma_array_value(s, k);
        text::lemma_ascii_boundary(s, v.start as int);
        text::lemma_ascii_boundary(s, v.end - 1);
        lemma_array_piece(s, v.start + 1, v.end - 1, p);
    } else {
        law_value_kind(s.subrange(v.start as int, v.end as int));
    }
}

/// The token that names a statement is a piece, of the kind that the statement has: the name of a
/// widget is a type, and the base of a header is one that the engine provides or one that is
/// inherited; the key of a property is a property and that of an event an event; a comment is a
/// comment; and an id is a variable.
pub proof fn law_tokens_are_pieces(s: Seq<u8>, k: int)
    requires
        valid_utf8(s),
        s.len() <= usize::MAX,
        0 <= k < syntax::stmts(s).len(),
    ensures
        ({
            let st = syntax::stmts(s)[k];
            match st.kind {
                StmtKind::Comment => has_piece(s, st.span, SemanticTokenKind::Comment),
                StmtKind::StyleHeader => has_piece(s, st.key, SemanticTokenKind::Type) && (
                st.value matches Some(v) && (st.body is None ==> has_piece(
                    s,
                    v,
                    if workspace_laws::starts_with_ui(text::chars_of(syntax::cut(s, v))) {
                        SemanticTokenKind::BuiltinType
                    } else {
                        SemanticTokenKind::InheritedType
                    },
                ))),
                StmtKind::Container => has_piece(s, st.key, SemanticTokenKind::Type),
                StmtKind::Property => has_piece(s, st.key, SemanticTokenKind::Property),
                StmtKind::IdProperty => has_piece(s, st.key, SemanticTokenKind::Property) && (
                st.value matches Some(v) ==> st.body is None ==> has_piece(
                    s,
                    v,
                    SemanticTokenKind::Variable,
                )),
                StmtKind::AnchorProperty => has_piece(
                    s,
                    ByteSpan { start: st.span.start, end: st.key.end },
                    SemanticTokenKind::Property,
                ),
                StmtKind::EventProperty => has_piece(s, st.key, SemanticTokenKind::Event),
                StmtKind::AliasProperty => has_piece(s, st.key, SemanticTokenKind::Property),
                StmtKind::ExprProperty => has_piece(s, st.key, SemanticTokenKind::Property),
                _ => true,
            }
        }),
{
    let st = syntax::stmts(s)[k];
    let all = semantic::pieces_of(s, st);
    syntax::lemma_stmts(s);
    assert(syntax::stmt_ok(s, st));
    if st.kind == StmtKind::StyleHeader {
        syntax::lemma_header_base(s, k);
        workspace_laws::law_classes_start_with_ui(text::chars_of(syntax::cut(s, st.value->0)));
    }
    if all.len() > 0 {
        assert(all.contains(all[0]));
        lemma_piece_of(s, k, all[0]);
    }
    if all.len() > 1 {
        assert(all.contains(all[1]));
        lemma_piece_of(s, k, all[1]);
    }
}

/// Each state that a selector names is a piece: a member where the engine knows it, in any case of
/// its letters, and an unknown state otherwise.
pub proof fn law_states_are_pieces(s: Seq<u8>, k: int, i: int)
    requires
        valid_utf8(s),
        s.len() <= usize::MAX,
        0 <= k < syntax::stmts(s).len(),
        syntax::stmts(s)[k].kind == StmtKind::StateSelector,
        0 <= i < syntax::states_from(syntax::cut(s, syntax::stmts(s)[k].span), 1).len(),
    ensures
        ({
            let st = syntax::stmts(s)[k];
            let h = syntax::cut(s, st.span);
            let p = syntax::states_from(h, 1)[i];
            has_piece(
                s,
                syntax::span(st.span.start + p.0, st.span.start + p.1),
                if schema::member_any_case(schema::STATES@, h.subrange(p.0, p.1)) {
                    SemanticTokenKind::EnumMember
                } else {
                    SemanticTokenKind::UnknownState
                },
            )
        }),
{
    let st = syntax::stmts(s)[k];
    let h = syntax::cut(s, st.span);
    let a = st.span.start as int;
    let all = syntax::states_from(h, 1);
    let p = semantic::state_pieces(h, a, all[i]).last();
    assert(semantic::state_pieces(h, a, all[i]).contains(p));
    lemma_state_upto(h, a, all.len() as int, i, p);
    lemma_piece_of(s, k, p);
}

proof fn lemma_state_upto(h: Seq<u8>, a: int, n: int, i: int, p: SemanticToken)
    requires
        0 <= i < n,
        semantic::state_pieces(h, a, syntax::states_from(h, 1)[i]).contains(p),
    ensures
        semantic::states_upto(h, a, n).contains(p),
    decreases n,
{
    lemma_piece_in_either(
        semantic::states_upto(h, a, n - 1),
        semantic::state_pieces(h, a, syntax::states_from(h, 1)[n - 1]),
        p,
    );
    if i < n - 1 {
        lemma_state_upto(h, a, n - 1, i, p);
    }
}

} // verus!
