//! The closed sets of words that the engine knows, and what it accepts as a value.

use crate::ascii;
use crate::catalog;
use crate::text;
use crate::text::same_str;
use vstd::prelude::*;
use vstd::string::*;

verus! {

/// The states that a `$state` selector can name.
pub const STATES: [&'static str; 14] = [
    "active",
    "focus",
    "hover",
    "pressed",
    "checked",
    "disabled",
    "on",
    "first",
    "middle",
    "last",
    "alternate",
    "dragging",
    "hidden",
    "mobile",
];

/// The edges that an anchor ties.
pub const ANCHOR_EDGES: [&'static str; 6] = [
    "top",
    "bottom",
    "left",
    "right",
    "horizontalCenter",
    "verticalCenter",
];

/// The keys behind `anchors.` that tie several edges at once.
pub const SHORTHAND_ANCHORS: [&'static str; 2] = [
    "fill",
    "centerIn",
];

/// The words that stand for a widget in an anchor target.
pub const MAGIC_ANCHOR_TARGETS: [&'static str; 3] = [
    "parent",
    "next",
    "prev",
];

/// The layouts that a widget can use.
pub const LAYOUT_TYPES: [&'static str; 4] = [
    "horizontalBox",
    "verticalBox",
    "grid",
    "anchor",
];

/// The values of `display`.
pub const DISPLAY_VALUES: [&'static str; 12] = [
    "none",
    "block",
    "inline",
    "inline-block",
    "flex",
    "inline-flex",
    "grid",
    "inline-grid",
    "table",
    "table-row",
    "table-cell",
    "contents",
];

/// The events that an `@event` key can handle.
pub const EVENTS: [&'static str; 28] = [
    "onSetup",
    "onClick",
    "onDoubleClick",
    "onMousePress",
    "onMouseRelease",
    "onMouseMove",
    "onMouseWheel",
    "onKeyDown",
    "onKeyPress",
    "onKeyUp",
    "onKeyText",
    "onHoverChange",
    "onFocusChange",
    "onVisibilityChange",
    "onGeometryChange",
    "onTextChange",
    "onCheckChange",
    "onValueChange",
    "onOptionChange",
    "onDragEnter",
    "onDragLeave",
    "onDragMove",
    "onDrop",
    "onEscape",
    "onEnter",
    "onStyleApply",
    "onLayoutUpdate",
    "onDestroy",
];

/// The values of `text-align` and `icon-align`.
pub const ALIGNMENT_VALUES: [&'static str; 9] = [
    "topleft",
    "top",
    "topright",
    "left",
    "center",
    "right",
    "bottomleft",
    "bottom",
    "bottomright",
];

/// The values of `overflow`.
pub const OVERFLOW_VALUES: [&'static str; 5] = [
    "visible",
    "hidden",
    "clip",
    "scroll",
    "auto",
];

/// The values of `flex-direction`.
pub const FLEX_DIRECTION_VALUES: [&'static str; 4] = [
    "row",
    "row-reverse",
    "column",
    "column-reverse",
];

/// The values of `flex-wrap`.
pub const FLEX_WRAP_VALUES: [&'static str; 3] = [
    "nowrap",
    "wrap",
    "wrap-reverse",
];

/// The values of `align-content` and `justify-content`.
pub const ALIGN_CONTENT_VALUES: [&'static str; 7] = [
    "flex-start",
    "flex-end",
    "center",
    "space-between",
    "space-around",
    "space-evenly",
    "stretch",
];

/// The values of `align-self`.
pub const ALIGN_SELF_VALUES: [&'static str; 6] = [
    "auto",
    "flex-start",
    "flex-end",
    "center",
    "baseline",
    "stretch",
];

/// The values of `align-items`.
pub const ALIGN_ITEMS_VALUES: [&'static str; 5] = [
    "flex-start",
    "flex-end",
    "center",
    "baseline",
    "stretch",
];

/// The values of `position`.
pub const POSITION_VALUES: [&'static str; 4] = [
    "static",
    "relative",
    "absolute",
    "fixed",
];

/// The values of `float`.
pub const FLOAT_VALUES: [&'static str; 3] = [
    "none",
    "left",
    "right",
];

/// The values of `clear`.
pub const CLEAR_VALUES: [&'static str; 4] = [
    "none",
    "left",
    "right",
    "both",
];

/// The values of `justify-items`.
pub const JUSTIFY_ITEMS_VALUES: [&'static str; 5] = [
    "normal",
    "start",
    "end",
    "center",
    "stretch",
];

/// The values of `auto-focus`.
pub const AUTO_FOCUS_VALUES: [&'static str; 3] = [
    "none",
    "first",
    "last",
];

/// The properties whose value is the path of an image.
pub const PATH_PROPERTIES: [&'static str; 3] = [
    "image-source",
    "icon",
    "icon-source",
];

/// Whether `word` is one of `set`.
pub open spec fn member(set: Seq<&'static str>, word: Seq<u8>) -> bool {
    exists|k: int| 0 <= k < set.len() && (#[trigger] set[k]).spec_bytes() == word
}

/// An ASCII letter in lower case; any other byte as it is.
pub open spec fn lower(b: u8) -> u8 {
    if ascii::UPPER_A <= b <= ascii::UPPER_Z {
        (b + 32) as u8
    } else {
        b
    }
}

/// `word` with its ASCII letters in lower case.
pub open spec fn lowered(word: Seq<u8>) -> Seq<u8> {
    word.map_values(|b: u8| lower(b))
}

/// Whether `word` is one of `set` when case does not count.
pub open spec fn member_any_case(set: Seq<&'static str>, word: Seq<u8>) -> bool {
    exists|k: int|
        0 <= k < set.len() && lowered((#[trigger] set[k]).spec_bytes()) == lowered(word)
}

/// The words that the property `key` takes for its value, where they form a closed set.
#[verifier::opaque]
pub open spec fn value_set(key: Seq<u8>) -> Option<Seq<&'static str>> {
    if key == "display".spec_bytes() {
        Some(DISPLAY_VALUES@)
    } else if key == "layout".spec_bytes() {
        Some(LAYOUT_TYPES@)
    } else if key == "text-align".spec_bytes() {
        Some(ALIGNMENT_VALUES@)
    } else if key == "icon-align".spec_bytes() {
        Some(ALIGNMENT_VALUES@)
    } else if key == "overflow".spec_bytes() {
        Some(OVERFLOW_VALUES@)
    } else if key == "flex-direction".spec_bytes() {
        Some(FLEX_DIRECTION_VALUES@)
    } else if key == "flex-wrap".spec_bytes() {
        Some(FLEX_WRAP_VALUES@)
    } else if key == "align-content".spec_bytes() {
        Some(ALIGN_CONTENT_VALUES@)
    } else if key == "justify-content".spec_bytes() {
        Some(ALIGN_CONTENT_VALUES@)
    } else if key == "align-self".spec_bytes() {
        Some(ALIGN_SELF_VALUES@)
    } else if key == "align-items".spec_bytes() {
        Some(ALIGN_ITEMS_VALUES@)
    } else if key == "position".spec_bytes() {
        Some(POSITION_VALUES@)
    } else if key == "float".spec_bytes() {
        Some(FLOAT_VALUES@)
    } else if key == "clear".spec_bytes() {
        Some(CLEAR_VALUES@)
    } else if key == "justify-items".spec_bytes() {
        Some(JUSTIFY_ITEMS_VALUES@)
    } else if key == "auto-focus".spec_bytes() {
        Some(AUTO_FOCUS_VALUES@)
    } else {
        None
    }
}

/// What kind of value a property takes.
#[derive(Debug, Clone, Copy, PartialEq, Eq)]
pub enum PropertyValueKind {
    /// A word out of a closed set.
    Enum {
        /// The set.
        values: &'static [&'static str],
    },
    /// `true` or `false`.
    Boolean,
    /// A color.
    Color,
    /// The path of an image.
    AssetPath,
    /// Width, style and color of a border.
    Border,
    /// Anything else.
    Plain,
}

/// Whether `kind` is what the property `key` takes.
pub open spec fn takes(key: Seq<u8>, kind: PropertyValueKind) -> bool {
    match kind {
        PropertyValueKind::Enum { values } => value_set(key) == Some(values@),
        PropertyValueKind::Boolean => value_set(key) is None && member(
            catalog::BOOLEAN_PROPERTIES@,
            key,
        ),
        PropertyValueKind::Color => value_set(key) is None && !member(
            catalog::BOOLEAN_PROPERTIES@,
            key,
        ) && member(catalog::COLOR_PROPERTIES@, key),
        PropertyValueKind::AssetPath => value_set(key) is None && !member(
            catalog::BOOLEAN_PROPERTIES@,
            key,
        ) && !member(catalog::COLOR_PROPERTIES@, key) && member(PATH_PROPERTIES@, key),
        PropertyValueKind::Border => value_set(key) is None && !member(
            catalog::BOOLEAN_PROPERTIES@,
            key,
        ) && !member(catalog::COLOR_PROPERTIES@, key) && !member(PATH_PROPERTIES@, key) && key
            == "border".spec_bytes(),
        PropertyValueKind::Plain => value_set(key) is None && !member(
            catalog::BOOLEAN_PROPERTIES@,
            key,
        ) && !member(catalog::COLOR_PROPERTIES@, key) && !member(PATH_PROPERTIES@, key) && key
            != "border".spec_bytes(),
    }
}

/// Whether `kind` is what the key `key` of a `layout:` block takes.
pub open spec fn layout_takes(key: Seq<u8>, kind: PropertyValueKind) -> bool {
    match kind {
        PropertyValueKind::Enum { values } => key == "type".spec_bytes() && values@
            == LAYOUT_TYPES@,
        PropertyValueKind::Boolean => key != "type".spec_bytes() && member(
            catalog::LAYOUT_BOOLEANS@,
            key,
        ),
        PropertyValueKind::Plain => key != "type".spec_bytes() && !member(
            catalog::LAYOUT_BOOLEANS@,
            key,
        ),
        _ => false,
    }
}

/// Whether the property `key` is one that the engine reads off a widget or a style.
#[verifier::opaque]
pub open spec fn known_property(key: Seq<u8>) -> bool {
    member(catalog::PROPERTIES@, key) || member(catalog::STYLE_META_KEYS@, key)
}

/// Whether `word` is one of `set`.
pub fn is_member(set: &[&'static str], word: &str) -> (r: bool)
    ensures
        r == member(set@, word.spec_bytes()),
{
    let mut i: usize = 0;
    while i < set.len()
        invariant
            i <= set@.len(),
            forall|k: int| 0 <= k < i ==> (#[trigger] set@[k]).spec_bytes() != word.spec_bytes(),
        decreases set@.len() - i,
    {
        if same_str(set[i], word) {
            assert(set@[i as int].spec_bytes() == word.spec_bytes());
            return true;
        }
        i += 1;
    }
    false
}

/// An ASCII letter in lower case; any other byte as it is.
fn to_lower(b: u8) -> (r: u8)
    ensures
        r == lower(b),
{
    if ascii::UPPER_A <= b && b <= ascii::UPPER_Z {
        b + 32
    } else {
        b
    }
}

/// Whether `a` and `b` are the same word when case does not count.
fn same_any_case(a: &str, b: &str) -> (r: bool)
    ensures
        r == (lowered(a.spec_bytes()) == lowered(b.spec_bytes())),
{
    let x = a.as_bytes();
    let y = b.as_bytes();
    if x.len() != y.len() {
        assert(lowered(x@).len() != lowered(y@).len());
        return false;
    }
    let mut i: usize = 0;
    while i < x.len()
        invariant
            x@ == a.spec_bytes(),
            y@ == b.spec_bytes(),
            i <= x@.len(),
            x@.len() == y@.len(),
            forall|k: int| 0 <= k < i ==> lower(#[trigger] x@[k]) == lower(y@[k]),
        decreases x@.len() - i,
    {
        if to_lower(x[i]) != to_lower(y[i]) {
            assert(lowered(x@)[i as int] != lowered(y@)[i as int]);
            return false;
        }
        i += 1;
    }
    assert(lowered(x@) =~= lowered(y@));
    true
}

/// Whether `word` is one of `set` when case does not count.
pub fn is_member_any_case(set: &[&'static str], word: &str) -> (r: bool)
    ensures
        r == member_any_case(set@, word.spec_bytes()),
{
    let mut i: usize = 0;
    while i < set.len()
        invariant
            i <= set@.len(),
            forall|k: int|
                0 <= k < i ==> lowered((#[trigger] set@[k]).spec_bytes()) != lowered(
                    word.spec_bytes(),
                ),
        decreases set@.len() - i,
    {
        if same_any_case(set[i], word) {
            assert(lowered(set@[i as int].spec_bytes()) == lowered(word.spec_bytes()));
            return true;
        }
        i += 1;
    }
    false
}

/// Whether `name` is a state, in any case.
pub fn is_known_state(name: &str) -> (r: bool)
    ensures
        r == member_any_case(STATES@, name.spec_bytes()),
{
    is_member_any_case(&STATES, name)
}

/// Whether `name` is an anchor edge, in any case.
pub fn is_anchor_edge(name: &str) -> (r: bool)
    ensures
        r == member_any_case(ANCHOR_EDGES@, name.spec_bytes()),
{
    is_member_any_case(&ANCHOR_EDGES, name)
}

/// Whether `name` ties several edges at once.
pub fn is_shorthand_anchor(name: &str) -> (r: bool)
    ensures
        r == member(SHORTHAND_ANCHORS@, name.spec_bytes()),
{
    is_member(&SHORTHAND_ANCHORS, name)
}

/// Whether `name` stands for a widget in an anchor target.
pub fn is_magic_anchor_target(name: &str) -> (r: bool)
    ensures
        r == member(MAGIC_ANCHOR_TARGETS@, name.spec_bytes()),
{
    is_member(&MAGIC_ANCHOR_TARGETS, name)
}

/// Whether `name` is a layout.
pub fn is_layout_type(name: &str) -> (r: bool)
    ensures
        r == member(LAYOUT_TYPES@, name.spec_bytes()),
{
    is_member(&LAYOUT_TYPES, name)
}

/// Whether `value` is a value of `display`, in any case.
pub fn is_display_value(value: &str) -> (r: bool)
    ensures
        r == member_any_case(DISPLAY_VALUES@, value.spec_bytes()),
{
    is_member_any_case(&DISPLAY_VALUES, value)
}

/// Whether `key` may stand in a `layout:` block.
pub fn is_layout_block_property(key: &str) -> (r: bool)
    ensures
        r == member(catalog::LAYOUT_PROPERTIES@, key.spec_bytes()),
{
    is_member(&catalog::LAYOUT_PROPERTIES, key)
}

/// Whether the engine reads the property `key` off a widget or a style.
pub fn is_known_property(key: &str) -> (r: bool)
    ensures
        r == known_property(key.spec_bytes()),
{
    reveal(known_property);
    is_member(&catalog::PROPERTIES, key) || is_member(&catalog::STYLE_META_KEYS, key)
}

/// Whether the value of the property `key` is a color.
pub fn is_color_property(key: &str) -> (r: bool)
    ensures
        r == member(catalog::COLOR_PROPERTIES@, key.spec_bytes()),
{
    is_member(&catalog::COLOR_PROPERTIES, key)
}

/// The words that the property `key` takes for its value, where they form a closed set.
pub fn values_of(key: &str) -> (r: Option<&'static [&'static str]>)
    ensures
        match r {
            Some(values) => value_set(key.spec_bytes()) == Some(values@),
            None => value_set(key.spec_bytes()) is None,
        },
{
    reveal(value_set);
    if same_str(key, "display") {
        Some(&DISPLAY_VALUES)
    } else if same_str(key, "layout") {
        Some(&LAYOUT_TYPES)
    } else if same_str(key, "text-align") {
        Some(&ALIGNMENT_VALUES)
    } else if same_str(key, "icon-align") {
        Some(&ALIGNMENT_VALUES)
    } else if same_str(key, "overflow") {
        Some(&OVERFLOW_VALUES)
    } else if same_str(key, "flex-direction") {
        Some(&FLEX_DIRECTION_VALUES)
    } else if same_str(key, "flex-wrap") {
        Some(&FLEX_WRAP_VALUES)
    } else if same_str(key, "align-content") {
        Some(&ALIGN_CONTENT_VALUES)
    } else if same_str(key, "justify-content") {
        Some(&ALIGN_CONTENT_VALUES)
    } else if same_str(key, "align-self") {
        Some(&ALIGN_SELF_VALUES)
    } else if same_str(key, "align-items") {
        Some(&ALIGN_ITEMS_VALUES)
    } else if same_str(key, "position") {
        Some(&POSITION_VALUES)
    } else if same_str(key, "float") {
        Some(&FLOAT_VALUES)
    } else if same_str(key, "clear") {
        Some(&CLEAR_VALUES)
    } else if same_str(key, "justify-items") {
        Some(&JUSTIFY_ITEMS_VALUES)
    } else if same_str(key, "auto-focus") {
        Some(&AUTO_FOCUS_VALUES)
    } else {
        None
    }
}

/// What kind of value the property `key` takes.
pub fn classify_value(key: &str) -> (r: PropertyValueKind)
    ensures
        takes(key.spec_bytes(), r),
{
    if let Some(values) = values_of(key) {
        PropertyValueKind::Enum { values }
    } else if is_member(&catalog::BOOLEAN_PROPERTIES, key) {
        PropertyValueKind::Boolean
    } else if is_color_property(key) {
        PropertyValueKind::Color
    } else if is_member(&PATH_PROPERTIES, key) {
        PropertyValueKind::AssetPath
    } else if same_str(key, "border") {
        PropertyValueKind::Border
    } else {
        PropertyValueKind::Plain
    }
}

/// What kind of value the key `key` of a `layout:` block takes.
pub fn classify_layout_value(key: &str) -> (r: PropertyValueKind)
    ensures
        layout_takes(key.spec_bytes(), r),
{
    if same_str(key, "type") {
        PropertyValueKind::Enum { values: &LAYOUT_TYPES }
    } else if is_member(&catalog::LAYOUT_BOOLEANS, key) {
        PropertyValueKind::Boolean
    } else {
        PropertyValueKind::Plain
    }
}

} // verus!
