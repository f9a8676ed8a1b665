//! What can stand at the cursor, as far as the text in front of it on its line tells.
//!
//! A line that is being typed rarely parses, so the question is put to the text between the start of
//! the line and the cursor alone. That text is stable, however broken the rest of the line is.

use crate::ascii;
use crate::text;
use crate::text::{find_byte_at, has_at, occurs_at, str_from, substr, trimmed, trimmed_end, trimmed_start, ws_len_at};
use vstd::prelude::*;
use vstd::string::*;
use vstd::utf8::*;

verus! {

/// What can stand at the cursor.
pub enum Context {
    /// A state in a selector.
    States,
    /// The edge behind `anchors.`.
    AnchorEdgeKey,
    /// The edge behind the id in the target of an anchor.
    AnchorTargetEdge,
    /// The id in the target of an anchor.
    AnchorTarget,
    /// The event behind `@`.
    Events,
    /// A property key or the tag of a child widget.
    IndentedSlot,
    /// The value of the property with this key.
    PropertyValue(String),
    /// The base in a style header.
    BaseSlot,
}

/// The model of a [`Context`].
#[verifier::ext_equal]
pub enum Slot {
    /// A state in a selector.
    States,
    /// The edge behind `anchors.`.
    AnchorEdgeKey,
    /// The edge behind the id in the target of an anchor.
    AnchorTargetEdge,
    /// The id in the target of an anchor.
    AnchorTarget,
    /// The event behind `@`.
    Events,
    /// A property key or the tag of a child widget.
    IndentedSlot,
    /// The value of the property with this key.
    PropertyValue(Seq<u8>),
    /// The base in a style header.
    BaseSlot,
}

impl View for Context {
    type V = Slot;

    open spec fn view(&self) -> Slot {
        match self {
            Context::States => Slot::States,
            Context::AnchorEdgeKey => Slot::AnchorEdgeKey,
            Context::AnchorTargetEdge => Slot::AnchorTargetEdge,
            Context::AnchorTarget => Slot::AnchorTarget,
            Context::Events => Slot::Events,
            Context::IndentedSlot => Slot::IndentedSlot,
            Context::PropertyValue(key) => Slot::PropertyValue(text::bytes_of(key@)),
            Context::BaseSlot => Slot::BaseSlot,
        }
    }
}

/// The model of a context, where there is one.
pub open spec fn slot_of(c: Option<Context>) -> Option<Slot> {
    match c {
        Some(x) => Some(x@),
        None => None,
    }
}

/// `slot` where `holds` is true.
pub open spec fn slot_if(holds: bool, slot: Slot) -> Option<Slot> {
    if holds {
        Some(slot)
    } else {
        None
    }
}

/// Whether there is white space in `t` at or after offset `i`.
pub open spec fn spaced(t: Seq<u8>, i: int) -> bool
    decreases t.len() - i,
{
    if !(0 <= i < t.len()) {
        false
    } else {
        text::ws_len(t, i) > 0 || spaced(t, i + 1)
    }
}

/// Whether `t` ends with white space.
pub open spec fn ends_spaced(t: Seq<u8>) -> bool {
    text::ws_len_before(t, t.len() as int) > 0
}

/// Where the last white space before offset `j` ends.
pub open spec fn word_start(t: Seq<u8>, j: int) -> int
    decreases j,
{
    if j <= 0 || text::ws_len_before(t, j) > 0 {
        j
    } else {
        word_start(t, j - 1)
    }
}

/// The last of the words of `t` that white space separates, or nothing where `t` ends with it.
pub open spec fn last_word(t: Seq<u8>) -> Seq<u8> {
    text::from(t, word_start(t, t.len() as int))
}

/// Whether `c` is an ASCII letter.
pub open spec fn letter(c: u8) -> bool {
    ascii::LOWER_A <= c <= ascii::LOWER_Z || ascii::UPPER_A <= c <= ascii::UPPER_Z
}

/// Whether `c` can stand in a key or a tag.
pub open spec fn word_byte(c: u8) -> bool {
    letter(c) || ascii::DIGIT_0 <= c <= ascii::DIGIT_9 || c == ascii::UNDERSCORE || c == ascii::DASH
}

/// Whether all bytes of `t` from offset `i` on can stand in a key or a tag.
pub open spec fn all_word(t: Seq<u8>, i: int) -> bool {
    forall|j: int| i <= j < t.len() ==> word_byte(#[trigger] t[j])
}

/// What can stand at the end of the value of an anchor that reads `value`.
pub open spec fn anchor_value_slot(value: Seq<u8>) -> Option<Slot> {
    let word = last_word(value);
    if word.len() == 0 {
        slot_if(text::trim(value).len() == 0, Slot::AnchorTarget)
    } else if text::find_byte(word, ascii::DOT, 0) is Some {
        Some(Slot::AnchorTargetEdge)
    } else {
        Some(Slot::AnchorTarget)
    }
}

/// What can stand behind the key that ends at `colon`: a value that is one word, while it is typed. A
/// variable stands for a value that is not known here.
pub open spec fn value_slot(t: Seq<u8>, colon: int) -> Option<Slot> {
    let value = text::trim_start(text::from(t, colon + 1));
    slot_if(
        !text::has(value, 0, ascii::DOLLAR) && !spaced(value, 0),
        Slot::PropertyValue(text::trim_end(text::upto(t, colon))),
    )
}

/// What can stand at the end of a line that is not indented: the base of a style, while it is typed.
pub open spec fn header_slot(t: Seq<u8>) -> Option<Slot> {
    match text::rfind_byte(t, ascii::LESS, t.len() as int) {
        Some(k) => slot_if(
            all_word(text::trim_start(text::from(t, k + 1)), 0),
            Slot::BaseSlot,
        ),
        None => None,
    }
}

/// What can stand at the end of an indented line that is one word at most.
pub open spec fn word_slot(t: Seq<u8>) -> Option<Slot> {
    slot_if(t.len() == 0 || (letter(t[0]) && all_word(t, 1)), Slot::IndentedSlot)
}

/// What can stand at the end of a line that reads `t` behind its indentation.
pub open spec fn slot_after(t: Seq<u8>, indented: bool) -> Option<Slot> {
    if text::has(t, 0, ascii::AT_SIGN) {
        let rest = text::from(t, 1);
        slot_if(text::find_byte(rest, ascii::COLON, 0) is None && !spaced(rest, 0), Slot::Events)
    } else if text::has(t, 0, ascii::DOLLAR) {
        let rest = text::from(t, 1);
        slot_if(
            text::find_byte(rest, ascii::COLON, 0) is None && (rest.len() == 0 || !ends_spaced(rest)),
            Slot::States,
        )
    } else if text::occurs(t, 0, "anchors.".spec_bytes()) {
        match text::find_byte(t, ascii::COLON, 0) {
            None => Some(Slot::AnchorEdgeKey),
            Some(c) => anchor_value_slot(text::from(t, c + 1)),
        }
    } else {
        match text::find_byte(t, ascii::COLON, 0) {
            Some(c) => if indented {
                value_slot(t, c)
            } else {
                None
            },
            None => if indented {
                word_slot(t)
            } else if text::has(t, 0, ascii::HASH) {
                None
            } else {
                header_slot(t)
            },
        }
    }
}

/// What can stand at the end of a line that reads `prefix` so far. A line that is indented with a tab
/// is never in order.
pub open spec fn slot_at(prefix: Seq<u8>) -> Option<Slot> {
    let n = text::skip_ws(prefix, 0);
    if text::find_byte(text::upto(prefix, n), ascii::TAB, 0) is Some {
        None
    } else {
        slot_after(text::trim_start(prefix), n > 0)
    }
}

proof fn lemma_spaces_skipped(prefix: Seq<u8>, i: int, n: int)
    requires
        0 <= i <= n < prefix.len(),
        forall|j: int| 0 <= j < n ==> #[trigger] prefix[j] == ascii::SPACE,
        text::ws_len(prefix, n) == 0,
    ensures
        text::skip_ws(prefix, i) == n,
    decreases n - i,
{
    if i < n {
        lemma_spaces_skipped(prefix, i + 1, n);
    }
}

proof fn lemma_not_spaced(t: Seq<u8>, i: int, j: int)
    requires
        0 <= i <= j,
        !spaced(t, i),
    ensures
        text::ws_len(t, j) == 0,
    decreases j - i,
{
    if i < j && i < t.len() {
        lemma_not_spaced(t, i + 1, j);
    }
}

/// A state can stand behind `$` and any part of a word: what the part is makes no difference.
pub proof fn law_partial_state(prefix: Seq<u8>, n: int)
    requires
        0 <= n < prefix.len(),
        forall|j: int| 0 <= j < n ==> #[trigger] prefix[j] == ascii::SPACE,
        prefix[n] == ascii::DOLLAR,
        !spaced(text::from(prefix, n + 1), 0),
        text::find_byte(text::from(prefix, n + 1), ascii::COLON, 0) is None,
    ensures
        slot_at(prefix) == Some(Slot::States),
{
    lemma_spaces_skipped(prefix, 0, n);
    text::lemma_find_byte(text::upto(prefix, n), ascii::TAB, 0);
    let t = text::trim_start(prefix);
    let rest = text::from(t, 1);
    assert(t[0] == prefix[n]);
    assert(rest =~= text::from(prefix, n + 1));
    let e = rest.len() as int;
    if e >= 1 {
        lemma_not_spaced(rest, 0, e - 1);
    }
    if e >= 2 {
        lemma_not_spaced(rest, 0, e - 2);
    }
    if e >= 3 {
        lemma_not_spaced(rest, 0, e - 3);
    }
}

/// Whether there is white space in `t`.
fn has_space(t: &str) -> (r: bool)
    ensures
        r == spaced(t.spec_bytes(), 0),
{
    let b = t.as_bytes();
    let mut i: usize = 0;
    while i < b.len()
        invariant
            b@ == t.spec_bytes(),
            i <= b@.len(),
            spaced(b@, i as int) == spaced(b@, 0),
        decreases b@.len() - i,
    {
        if ws_len_at(b, i) > 0 {
            return true;
        }
        i += 1;
    }
    false
}

/// The length of the white space that ends at `j`.
fn space_before(b: &[u8], j: usize) -> (r: usize)
    requires
        j <= b@.len(),
    ensures
        r == text::ws_len_before(b@, j as int),
{
    if j >= 1 && ws_len_at(b, j - 1) == 1 {
        1
    } else if j >= 2 && ws_len_at(b, j - 2) == 2 {
        2
    } else if j >= 3 && ws_len_at(b, j - 3) == 3 {
        3
    } else {
        0
    }
}

proof fn lemma_word_start(t: Seq<u8>, j: int)
    requires
        0 <= j <= t.len(),
        valid_utf8(t),
    ensures
        0 <= word_start(t, j) <= j,
        text::boundary(t, word_start(t, j)),
    decreases j,
{
    text::lemma_ends_boundary(t);
    if j > 0 {
        if text::ws_len_before(t, j) > 0 {
            text::lemma_ws_before_boundary(t, j);
        } else {
            lemma_word_start(t, j - 1);
        }
    }
}

/// The last of the words of `t`, or nothing where `t` ends with white space.
fn final_word<'a>(t: &'a str) -> (r: &'a str)
    ensures
        r.spec_bytes() == last_word(t.spec_bytes()),
{
    let b = t.as_bytes();
    let mut j: usize = b.len();
    proof {
        text::lemma_valid(t);
        lemma_word_start(b@, b@.len() as int);
    }
    while j > 0 && space_before(b, j) == 0
        invariant
            b@ == t.spec_bytes(),
            j <= b@.len(),
            word_start(b@, j as int) == word_start(b@, b@.len() as int),
        decreases j,
    {
        j -= 1;
    }
    str_from(t, j)
}

/// Whether `c` is an ASCII letter.
fn is_letter(c: u8) -> (r: bool)
    ensures
        r == letter(c),
{
    (ascii::LOWER_A <= c && c <= ascii::LOWER_Z) || (ascii::UPPER_A <= c && c <= ascii::UPPER_Z)
}

/// Whether all bytes of `t` from offset `i` on can stand in a key or a tag.
fn is_word(t: &str, i: usize) -> (r: bool)
    ensures
        r == all_word(t.spec_bytes(), i as int),
{
    let b = t.as_bytes();
    let mut j: usize = i;
    while j < b.len()
        invariant
            b@ == t.spec_bytes(),
            i <= j,
            forall|k: int| i <= k < j && k < b@.len() ==> word_byte(#[trigger] b@[k]),
        decreases b@.len() - j,
    {
        let c: u8 = b[j];
        if !(is_letter(c) || (ascii::DIGIT_0 <= c && c <= ascii::DIGIT_9) || c == ascii::UNDERSCORE || c == ascii::DASH) {
            assert(!word_byte(b@[j as int]));
            return false;
        }
        j += 1;
    }
    true
}

/// The part of `t` behind its first byte, which is an ASCII byte.
fn behind_first<'a>(t: &'a str) -> (r: &'a str)
    requires
        t.spec_bytes().len() > 0,
        t.spec_bytes()[0] < 0x80,
    ensures
        r.spec_bytes() == text::from(t.spec_bytes(), 1),
{
    proof {
        text::lemma_valid(t);
        text::lemma_ascii_boundary(t.spec_bytes(), 0);
    }
    str_from(t, 1)
}

/// What can stand at the end of the value of an anchor.
fn classify_anchor_value(value: &str) -> (r: Option<Context>)
    ensures
        slot_of(r) == anchor_value_slot(value.spec_bytes()),
{
    let word = final_word(value);
    let b = word.as_bytes();
    if b.len() == 0 {
        if trimmed(value).as_bytes().len() == 0 {
            Some(Context::AnchorTarget)
        } else {
            None
        }
    } else if find_byte_at(b, ascii::DOT, 0).is_some() {
        Some(Context::AnchorTargetEdge)
    } else {
        Some(Context::AnchorTarget)
    }
}

/// What can stand behind the key that ends at `colon`.
fn classify_value_slot(t: &str, colon: usize) -> (r: Option<Context>)
    requires
        colon < t.spec_bytes().len(),
        t.spec_bytes()[colon as int] == ascii::COLON,
    ensures
        slot_of(r) == value_slot(t.spec_bytes(), colon as int),
{
    let n: usize = t.as_bytes().len();
    proof {
        text::lemma_valid(t);
        text::lemma_ends_boundary(t.spec_bytes());
        text::lemma_ascii_boundary(t.spec_bytes(), colon as int);
    }
    let value = trimmed_start(str_from(t, colon + 1));
    if !has_at(value.as_bytes(), 0, ascii::DOLLAR) && !has_space(value) {
        let key = trimmed_end(substr(t, 0, colon));
        Some(Context::PropertyValue(key.to_owned()))
    } else {
        None
    }
}

/// What can stand at the end of a line that is not indented.
fn classify_header(t: &str) -> (r: Option<Context>)
    ensures
        slot_of(r) == header_slot(t.spec_bytes()),
{
    let b = t.as_bytes();
    let mut j: usize = b.len();
    while j > 0
        invariant
            b@ == t.spec_bytes(),
            j <= b@.len(),
            text::rfind_byte(b@, ascii::LESS, j as int) == text::rfind_byte(b@, ascii::LESS, b@.len() as int),
        decreases j,
    {
        if b[j - 1] == ascii::LESS {
            proof {
                text::lemma_valid(t);
                text::lemma_ascii_boundary(b@, j - 1);
            }
            if is_word(trimmed_start(str_from(t, j)), 0) {
                return Some(Context::BaseSlot);
            }
            return None;
        }
        j -= 1;
    }
    None
}

/// What can stand at the end of an indented line that is one word at most.
fn classify_indented_slot(t: &str) -> (r: Option<Context>)
    ensures
        slot_of(r) == word_slot(t.spec_bytes()),
{
    let b = t.as_bytes();
    if b.len() == 0 || (is_letter(b[0]) && is_word(t, 1)) {
        Some(Context::IndentedSlot)
    } else {
        None
    }
}

/// What can stand at the end of a line that reads `t` behind its indentation.
fn classify_text(t: &str, indented: bool) -> (r: Option<Context>)
    ensures
        slot_of(r) == slot_after(t.spec_bytes(), indented),
{
    let b = t.as_bytes();
    let n: usize = b.len();
    if has_at(b, 0, ascii::AT_SIGN) {
        let rest = behind_first(t);
        if find_byte_at(rest.as_bytes(), ascii::COLON, 0).is_none() && !has_space(rest) {
            return Some(Context::Events);
        }
        return None;
    }
    if has_at(b, 0, ascii::DOLLAR) {
        let rest = behind_first(t);
        let bytes = rest.as_bytes();
        if find_byte_at(bytes, ascii::COLON, 0).is_none() && (bytes.len() == 0 || space_before(
            bytes,
            bytes.len(),
        ) == 0) {
            return Some(Context::States);
        }
        return None;
    }
    let colon = find_byte_at(b, ascii::COLON, 0);
    if occurs_at(b, 0, "anchors.".as_bytes()) {
        return match colon {
            None => Some(Context::AnchorEdgeKey),
            Some(c) => {
                proof {
                    text::lemma_valid(t);
                    text::lemma_ascii_boundary(b@, c as int);
                }
                classify_anchor_value(str_from(t, c + 1))
            },
        };
    }
    match colon {
        Some(c) => {
            if indented {
                classify_value_slot(t, c)
            } else {
                None
            }
        },
        None => {
            if indented {
                classify_indented_slot(t)
            } else if has_at(b, 0, ascii::HASH) {
                None
            } else {
                classify_header(t)
            }
        },
    }
}

/// What can stand at the end of a line that reads `prefix` so far.
pub fn classify(prefix: &str) -> (r: Option<Context>)
    ensures
        slot_of(r) == slot_at(prefix.spec_bytes()),
{
    let b = prefix.as_bytes();
    proof {
        text::lemma_valid(prefix);
        text::lemma_ends_boundary(b@);
        text::lemma_skip_ws(b@, 0);
    }
    let t = trimmed_start(prefix);
    let n: usize = b.len() - t.as_bytes().len();
    let indent = substr(prefix, 0, n);
    if find_byte_at(indent.as_bytes(), ascii::TAB, 0).is_some() {
        return None;
    }
    classify_text(t, n > 0)
}

} // verus!
