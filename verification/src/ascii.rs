//! Names for the ASCII bytes that the scanners look for.

use vstd::prelude::*;

verus! {

/// The byte of a tab.
pub const TAB: u8 = 0x09;

/// The byte of a line feed.
pub const NEWLINE: u8 = 0x0a;

/// The byte of a carriage return.
pub const RETURN: u8 = 0x0d;

/// The byte of a space.
pub const SPACE: u8 = 0x20;

/// The byte of `!`.
pub const BANG: u8 = 0x21;

/// The byte of `"`.
pub const DOUBLE_QUOTE: u8 = 0x22;

/// The byte of `#`.
pub const HASH: u8 = 0x23;

/// The byte of `$`.
pub const DOLLAR: u8 = 0x24;

/// The byte of `%`.
pub const PERCENT: u8 = 0x25;

/// The byte of `&`.
pub const AMPERSAND: u8 = 0x26;

/// The byte of `'`.
pub const QUOTE: u8 = 0x27;

/// The byte of `(`.
pub const OPEN_PAREN: u8 = 0x28;

/// The byte of `)`.
pub const CLOSE_PAREN: u8 = 0x29;

/// The byte of `,`.
pub const COMMA: u8 = 0x2c;

/// The byte of `-`.
pub const DASH: u8 = 0x2d;

/// The byte of `.`.
pub const DOT: u8 = 0x2e;

/// The byte of `/`.
pub const SLASH: u8 = 0x2f;

/// The byte of `0`.
pub const DIGIT_0: u8 = 0x30;

/// The byte of `9`.
pub const DIGIT_9: u8 = 0x39;

/// The byte of `:`.
pub const COLON: u8 = 0x3a;

/// The byte of `<`.
pub const LESS: u8 = 0x3c;

/// The byte of `=`.
pub const EQUALS: u8 = 0x3d;

/// The byte of `>`.
pub const GREATER: u8 = 0x3e;

/// The byte of `@`.
pub const AT_SIGN: u8 = 0x40;

/// The byte of `A`.
pub const UPPER_A: u8 = 0x41;

/// The byte of `F`.
pub const UPPER_F: u8 = 0x46;

/// The byte of `Z`.
pub const UPPER_Z: u8 = 0x5a;

/// The byte of `[`.
pub const OPEN_BRACKET: u8 = 0x5b;

/// The byte of `\`.
pub const BACKSLASH: u8 = 0x5c;

/// The byte of `]`.
pub const CLOSE_BRACKET: u8 = 0x5d;

/// The byte of `_`.
pub const UNDERSCORE: u8 = 0x5f;

/// The byte of `a`.
pub const LOWER_A: u8 = 0x61;

/// The byte of `f`.
pub const LOWER_F: u8 = 0x66;

/// The byte of `z`.
pub const LOWER_Z: u8 = 0x7a;

/// The byte of `|`.
pub const PIPE: u8 = 0x7c;

/// The byte of `~`.
pub const TILDE: u8 = 0x7e;

} // verus!
