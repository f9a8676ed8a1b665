//! The property names and colors that the engine knows.

use vstd::prelude::*;

verus! {

/// The style properties that every widget reads, in ascending order.
pub const PROPERTIES: [&'static str; 129] = [
    "align-content",
    "align-items",
    "align-self",
    "auto-focus",
    "background",
    "background-color",
    "background-height",
    "background-offset",
    "background-offset-x",
    "background-offset-y",
    "background-rect",
    "background-size",
    "background-width",
    "border",
    "border-color",
    "border-color-bottom",
    "border-color-left",
    "border-color-right",
    "border-color-top",
    "border-width",
    "border-width-bottom",
    "border-width-left",
    "border-width-right",
    "border-width-top",
    "checked",
    "clear",
    "clipping",
    "color",
    "column-gap",
    "cursor",
    "display",
    "draggable",
    "enabled",
    "fixed-size",
    "flex",
    "flex-basis",
    "flex-direction",
    "flex-flow",
    "flex-grow",
    "flex-shrink",
    "flex-wrap",
    "float",
    "focusable",
    "font",
    "font-scale",
    "gap",
    "height",
    "icon",
    "icon-align",
    "icon-clip",
    "icon-color",
    "icon-height",
    "icon-offset",
    "icon-offset-x",
    "icon-offset-y",
    "icon-rect",
    "icon-size",
    "icon-source",
    "icon-width",
    "image-auto-resize",
    "image-border",
    "image-border-bottom",
    "image-border-left",
    "image-border-right",
    "image-border-top",
    "image-clip",
    "image-color",
    "image-fixed-ratio",
    "image-height",
    "image-offset",
    "image-offset-x",
    "image-offset-y",
    "image-rect",
    "image-repeated",
    "image-shader",
    "image-size",
    "image-smooth",
    "image-source",
    "image-width",
    "justify-content",
    "justify-items",
    "justify-self",
    "layout",
    "line-height",
    "margin",
    "margin-bottom",
    "margin-left",
    "margin-right",
    "margin-top",
    "max-height",
    "max-size",
    "max-width",
    "min-height",
    "min-size",
    "min-width",
    "on",
    "opacity",
    "order",
    "overflow",
    "padding",
    "padding-bottom",
    "padding-left",
    "padding-right",
    "padding-top",
    "phantom",
    "place-content",
    "pos",
    "position",
    "rect",
    "rotation",
    "row-gap",
    "shader",
    "size",
    "text",
    "text-align",
    "text-auto-resize",
    "text-horizontal-auto-resize",
    "text-offset",
    "text-only-upper-case",
    "text-vertical-auto-resize",
    "text-wrap",
    "ttf-font",
    "ttf-font-size",
    "ttf-stroke-color",
    "ttf-stroke-width",
    "visible",
    "width",
    "x",
    "y",
];

/// The keys of a style that its registry reads, and no widget.
pub const STYLE_META_KEYS: [&'static str; 2] = [
    "__class",
    "__unique",
];

/// The keys that a `layout:` block may hold.
pub const LAYOUT_PROPERTIES: [&'static str; 13] = [
    "type",
    "spacing",
    "fit-children",
    "align-right",
    "align-bottom",
    "auto-spacing",
    "flow",
    "cell-size",
    "cell-width",
    "cell-height",
    "cell-spacing",
    "num-columns",
    "num-lines",
];

/// Those of them that are switches.
pub const LAYOUT_BOOLEANS: [&'static str; 5] = [
    "fit-children",
    "align-right",
    "align-bottom",
    "auto-spacing",
    "flow",
];

/// The properties whose value is a color.
pub const COLOR_PROPERTIES: [&'static str; 11] = [
    "background",
    "background-color",
    "border-color",
    "border-color-bottom",
    "border-color-left",
    "border-color-right",
    "border-color-top",
    "color",
    "icon-color",
    "image-color",
    "ttf-stroke-color",
];

/// The properties whose value is a switch.
pub const BOOLEAN_PROPERTIES: [&'static str; 18] = [
    "checked",
    "clipping",
    "draggable",
    "enabled",
    "fixed-size",
    "focusable",
    "image-auto-resize",
    "image-fixed-ratio",
    "image-repeated",
    "image-smooth",
    "on",
    "phantom",
    "text-auto-resize",
    "text-horizontal-auto-resize",
    "text-only-upper-case",
    "text-vertical-auto-resize",
    "text-wrap",
    "visible",
];

/// The colors that have a name, each with its red, green and blue packed into one number.
pub const NAMED_COLORS: [(&'static str, u32); 18] = [
    ("black", 0x000000),
    ("white", 0xffffff),
    ("red", 0xff0000),
    ("darkRed", 0x800000),
    ("green", 0x00ff00),
    ("darkGreen", 0x008000),
    ("blue", 0x0000ff),
    ("darkBlue", 0x000080),
    ("pink", 0xff00ff),
    ("darkPink", 0x800080),
    ("yellow", 0xffff00),
    ("darkYellow", 0x808000),
    ("teal", 0x00ffff),
    ("darkTeal", 0x008080),
    ("gray", 0xa0a0a0),
    ("darkGray", 0x808080),
    ("lightGray", 0xc0c0c0),
    ("orange", 0xff8c00),
];

/// What some of the properties are for.
pub const PROPERTY_DOCS: [(&'static str, &'static str); 15] = [
    ("width", "The horizontal dimension of the widget, in pixels."),
    ("height", "The vertical dimension of the widget, in pixels."),
    ("size", "Width and height of the widget, in pixels."),
    ("color", "The color of the text."),
    ("background-color", "The color behind the widget."),
    ("border", "Width, style and color of the border in one value."),
    ("display", "How the widget takes part in the layout of its parent."),
    ("layout", "How the widget places its children."),
    ("image-source", "The image that is drawn behind the text."),
    ("icon", "The image that is drawn beside the text."),
    ("text", "The text that the widget shows."),
    ("text-align", "Where the text stands in the widget."),
    ("opacity", "How opaque the widget is, from 0 to 1."),
    ("visible", "Whether the widget is drawn."),
    ("enabled", "Whether the widget reacts to the user."),
];

/// What the edges and shorthands behind `anchors.` are for.
pub const ANCHOR_DOCS: [(&'static str, &'static str); 8] = [
    ("top", "The top edge of the widget."),
    ("bottom", "The bottom edge of the widget."),
    ("left", "The left edge of the widget."),
    ("right", "The right edge of the widget."),
    ("horizontalCenter", "The horizontal center of the widget, taken as an edge."),
    ("verticalCenter", "The vertical center of the widget, taken as an edge."),
    ("fill", "All four edges of the widget at once."),
    ("centerIn", "Both centers of the widget at once."),
];

} // verus!
