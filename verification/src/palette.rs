//! Colors as they are written: `#` and hexadecimal digits, `rgb(..)` and its kin, or a name.

use crate::ascii;
use crate::catalog;
use crate::text;
use crate::text::{find_byte_at, has_at, occurs_at, same_str, str_from, str_upto, substr, trimmed};
use vstd::prelude::*;
use vstd::string::*;
use vstd::utf8::*;

verus! {

/// A color with its opacity.
#[derive(Debug, Clone, Copy, PartialEq, Eq, Structural)]
pub struct Rgba {
    /// Red.
    pub r: u8,
    /// Green.
    pub g: u8,
    /// Blue.
    pub b: u8,
    /// Opacity.
    pub a: u8,
}

impl Rgba {
    /// The color with the given channels.
    pub fn from_u8(r: u8, g: u8, b: u8, a: u8) -> (color: Rgba)
        ensures
            color == (Rgba { r, g, b, a }),
    {
        Rgba { r, g, b, a }
    }
}

/// The color with the given channels.
pub open spec fn rgba(r: int, g: int, b: int, a: int) -> Rgba {
    Rgba { r: r as u8, g: g as u8, b: b as u8, a: a as u8 }
}

/// The value of a hexadecimal digit.
pub open spec fn hex_digit(c: u8) -> Option<int> {
    if ascii::DIGIT_0 <= c <= ascii::DIGIT_9 {
        Some(c - ascii::DIGIT_0)
    } else if ascii::LOWER_A <= c <= ascii::LOWER_F {
        Some(c - ascii::LOWER_A + 10)
    } else if ascii::UPPER_A <= c <= ascii::UPPER_F {
        Some(c - ascii::UPPER_A + 10)
    } else {
        None
    }
}

/// Whether every byte from `i` on is a hexadecimal digit.
pub open spec fn all_hex(t: Seq<u8>, i: int) -> bool {
    forall|k: int| i <= k < t.len() ==> hex_digit(#[trigger] t[k]) is Some
}

/// The channel that one digit at `i` stands for: the digit twice.
pub open spec fn short_channel(t: Seq<u8>, i: int) -> int {
    hex_digit(t[i])->0 * 17
}

/// The channel that the two digits at `i` stand for.
pub open spec fn long_channel(t: Seq<u8>, i: int) -> int {
    hex_digit(t[i])->0 * 16 + hex_digit(t[i + 1])->0
}

/// The color that `#` and three, four, six or eight hexadecimal digits stand for.
pub open spec fn hex_color(t: Seq<u8>) -> Option<Rgba> {
    if !text::has(t, 0, ascii::HASH) || !all_hex(t, 1) {
        None
    } else if t.len() == 4 {
        Some(rgba(short_channel(t, 1), short_channel(t, 2), short_channel(t, 3), 255))
    } else if t.len() == 5 {
        Some(
            rgba(
                short_channel(t, 1),
                short_channel(t, 2),
                short_channel(t, 3),
                short_channel(t, 4),
            ),
        )
    } else if t.len() == 7 {
        Some(rgba(long_channel(t, 1), long_channel(t, 3), long_channel(t, 5), 255))
    } else if t.len() == 9 {
        Some(
            rgba(
                long_channel(t, 1),
                long_channel(t, 3),
                long_channel(t, 5),
                long_channel(t, 7),
            ),
        )
    } else {
        None
    }
}

/// The number that the decimal digits from `i` on stand for, behind `acc`.
pub open spec fn digits(t: Seq<u8>, i: int, acc: int) -> Option<int>
    decreases t.len() - i,
{
    if i >= t.len() {
        Some(acc)
    } else if ascii::DIGIT_0 <= t[i] <= ascii::DIGIT_9 {
        digits(t, i + 1, acc * 10 + (t[i] - ascii::DIGIT_0))
    } else {
        None
    }
}

/// The number that one to three decimal digits stand for.
pub open spec fn number(t: Seq<u8>) -> Option<int> {
    if 1 <= t.len() <= 3 {
        digits(t, 0, 0)
    } else {
        None
    }
}

/// The number, when it is at most `max`.
pub open spec fn number_upto(t: Seq<u8>, max: int) -> Option<int> {
    match number(t) {
        Some(n) => if n <= max {
            Some(n)
        } else {
            None
        },
        None => None,
    }
}

/// The number in front of a `%`, when it is at most 100.
pub open spec fn percentage(t: Seq<u8>) -> Option<int> {
    if t.len() > 0 && t.last() == ascii::PERCENT {
        number_upto(text::upto(t, t.len() - 1), 100)
    } else {
        None
    }
}

/// The opacity that a number from 0 to 1 stands for, rounded to the nearest channel value. At most
/// three digits follow the point.
pub open spec fn opacity(t: Seq<u8>) -> Option<int> {
    if t == "0".spec_bytes() {
        Some(0)
    } else if t == "1".spec_bytes() {
        Some(255)
    } else if text::occurs(t, 0, "0.".spec_bytes()) {
        let scale: int = if t.len() == 3 {
            10
        } else if t.len() == 4 {
            100
        } else {
            1000
        };
        match number(text::from(t, 2)) {
            Some(n) => Some((n * 255 + scale / 2) / scale),
            None => None,
        }
    } else {
        None
    }
}

/// The parts of `t` from offset `i` on that commas separate, without the white space around them.
pub open spec fn parts(t: Seq<u8>, i: int) -> Seq<Seq<u8>>
    decreases t.len() - i,
    via parts_decreases
{
    if !(0 <= i <= t.len()) {
        Seq::empty()
    } else {
        match text::find_byte(t, ascii::COMMA, i) {
            Some(k) => seq![text::trim(t.subrange(i, k))] + parts(t, k + 1),
            None => seq![text::trim(text::from(t, i))],
        }
    }
}

#[via_fn]
proof fn parts_decreases(t: Seq<u8>, i: int) {
    if 0 <= i {
        text::lemma_find_byte(t, ascii::COMMA, i);
    }
}

/// One channel of a color given by hue, saturation and lightness, where `base` is what the hue
/// contributes to it and `c` is the chroma, both in ten-thousandths.
pub open spec fn hsl_channel(base: int, c: int, l: int) -> int {
    ((2 * base + 200 * l - c) * 255 + 10000) / 20000
}

/// The chroma of a color, in ten-thousandths.
pub open spec fn chroma(s: int, l: int) -> int {
    (if l <= 50 {
        2 * l
    } else {
        200 - 2 * l
    }) * s
}

/// What the second strongest channel has of the hue, in ten-thousandths.
pub open spec fn second(h: int, c: int) -> int {
    let d = h % 120;
    (c * (if d <= 60 {
        d
    } else {
        120 - d
    })) / 60
}

/// What the hue contributes to red, green and blue, in ten-thousandths.
pub open spec fn hue_parts(h: int, c: int) -> (int, int, int) {
    let x = second(h, c);
    if h < 60 {
        (c, x, 0)
    } else if h < 120 {
        (x, c, 0)
    } else if h < 180 {
        (0, c, x)
    } else if h < 240 {
        (0, x, c)
    } else if h < 300 {
        (x, 0, c)
    } else {
        (c, 0, x)
    }
}

/// The color with hue `h` in degrees and saturation `s` and lightness `l` in percent.
pub open spec fn hsl(h: int, s: int, l: int, a: int) -> Rgba {
    let c = chroma(s, l);
    let p = hue_parts(h % 360, c);
    rgba(hsl_channel(p.0, c, l), hsl_channel(p.1, c, l), hsl_channel(p.2, c, l), a)
}

/// The opacity that the last of the arguments gives, where there is a fourth one.
pub open spec fn args_opacity(args: Seq<Seq<u8>>) -> Option<int> {
    if args.len() == 3 {
        Some(255)
    } else {
        opacity(args[3])
    }
}

/// The color that red, green and blue, and perhaps the opacity, stand for.
pub open spec fn rgb_args(args: Seq<Seq<u8>>) -> Option<Rgba> {
    match (
        number_upto(args[0], 255),
        number_upto(args[1], 255),
        number_upto(args[2], 255),
        args_opacity(args),
    ) {
        (Some(r), Some(g), Some(b), Some(a)) => Some(rgba(r, g, b, a)),
        _ => None,
    }
}

/// The color that hue, saturation and lightness, and perhaps the opacity, stand for.
pub open spec fn hsl_args(args: Seq<Seq<u8>>) -> Option<Rgba> {
    match (number_upto(args[0], 360), percentage(args[1]), percentage(args[2]), args_opacity(args)) {
        (Some(h), Some(s), Some(l), Some(a)) => Some(hsl(h, s, l, a)),
        _ => None,
    }
}

/// The color that a call of `rgb`, `rgba`, `hsl` or `hsla` stands for.
pub open spec fn function_color(t: Seq<u8>) -> Option<Rgba> {
    match text::find_byte(t, ascii::OPEN_PAREN, 0) {
        Some(k) => {
            let name = text::upto(t, k);
            let args = parts(t.subrange(k + 1, t.len() - 1), 0);
            if t.last() != ascii::CLOSE_PAREN {
                None
            } else if (name == "rgb".spec_bytes() && args.len() == 3) || (name
                == "rgba".spec_bytes() && args.len() == 4) {
                rgb_args(args)
            } else if (name == "hsl".spec_bytes() && args.len() == 3) || (name
                == "hsla".spec_bytes() && args.len() == 4) {
                hsl_args(args)
            } else {
                None
            }
        },
        None => None,
    }
}

/// The color of the given name among the first `n`.
pub open spec fn named_upto(t: Seq<u8>, n: int) -> Option<Rgba>
    decreases n,
{
    if n <= 0 {
        None
    } else if catalog::NAMED_COLORS@[n - 1].0.spec_bytes() == t {
        let rgb = catalog::NAMED_COLORS@[n - 1].1 as int;
        Some(rgba(rgb / 65536 % 256, rgb / 256 % 256, rgb % 256, 255))
    } else {
        named_upto(t, n - 1)
    }
}

/// Whether `t` is written as a color in a way that nothing else is.
pub open spec fn literal(t: Seq<u8>) -> bool {
    hex_color(t) is Some || function_color(t) is Some
}

/// The color that `t` stands for.
#[verifier::opaque]
pub open spec fn color(t: Seq<u8>) -> Option<Rgba> {
    if hex_color(t) is Some {
        hex_color(t)
    } else if function_color(t) is Some {
        function_color(t)
    } else if t == "transparent".spec_bytes() || t == "alpha".spec_bytes() {
        Some(rgba(0, 0, 0, 0))
    } else {
        named_upto(t, catalog::NAMED_COLORS@.len() as int)
    }
}

/// The first offset at or after `i` that holds a space outside parentheses, `depth` of which are
/// open.
pub open spec fn word_end(t: Seq<u8>, i: int, depth: int) -> int
    decreases t.len() - i,
{
    if !(0 <= i < t.len()) || (t[i] == ascii::SPACE && depth == 0) {
        i
    } else if t[i] == ascii::OPEN_PAREN {
        word_end(t, i + 1, depth + 1)
    } else if t[i] == ascii::CLOSE_PAREN {
        word_end(t, i + 1, if depth > 0 { depth - 1 } else { 0 })
    } else {
        word_end(t, i + 1, depth)
    }
}

/// The words of `t` from offset `i` on that spaces outside parentheses separate.
pub open spec fn words(t: Seq<u8>, i: int) -> Seq<Seq<u8>>
    decreases t.len() - i,
    via words_decreases
{
    if !(0 <= i < t.len()) {
        Seq::empty()
    } else if t[i] == ascii::SPACE {
        words(t, i + 1)
    } else {
        let e = word_end(t, i, 0);
        seq![t.subrange(i, e)] + words(t, e)
    }
}

#[via_fn]
proof fn words_decreases(t: Seq<u8>, i: int) {
    if 0 <= i < t.len() && t[i] != ascii::SPACE {
        lemma_word_end(t, i, 0);
    }
}

proof fn lemma_word_end(t: Seq<u8>, i: int, depth: int)
    requires
        0 <= i <= t.len(),
    ensures
        i <= word_end(t, i, depth) <= t.len(),
        i < t.len() && t[i] != ascii::SPACE ==> i < word_end(t, i, depth),
        word_end(t, i, depth) < t.len() ==> t[word_end(t, i, depth)] == ascii::SPACE,
    decreases t.len() - i,
{
    if i < t.len() && !(t[i] == ascii::SPACE && depth == 0) {
        if t[i] == ascii::OPEN_PAREN {
            lemma_word_end(t, i + 1, depth + 1);
        } else if t[i] == ascii::CLOSE_PAREN {
            lemma_word_end(t, i + 1, if depth > 0 { depth - 1 } else { 0 });
        } else {
            lemma_word_end(t, i + 1, depth);
        }
    }
}

/// Whether `w` is a border width: a number, with or without `px`.
pub open spec fn border_width(w: Seq<u8>) -> bool {
    number(w) is Some || (w.len() > 2 && text::occurs(w, w.len() - 2, "px".spec_bytes()) && number(
        text::upto(w, w.len() - 2),
    ) is Some)
}

/// Whether some word is a border width.
pub open spec fn has_width(ws: Seq<Seq<u8>>) -> bool {
    exists|k: int| 0 <= k < ws.len() && border_width(#[trigger] ws[k])
}

/// Whether some word is a color.
pub open spec fn has_color(ws: Seq<Seq<u8>>) -> bool {
    exists|k: int| 0 <= k < ws.len() && color(#[trigger] ws[k]) is Some
}

/// Whether `t` is a border: the single word `none` or `hidden`, or words among which are a width and
/// a color.
#[verifier::opaque]
pub open spec fn border(t: Seq<u8>) -> bool {
    t == "none".spec_bytes() || t == "hidden".spec_bytes() || (has_width(words(t, 0)) && has_color(
        words(t, 0),
    ))
}

// ---------------------------------------------------------------------------------------------
// Reading
// ---------------------------------------------------------------------------------------------

fn read_hex_digit(c: u8) -> (r: Option<u8>)
    ensures
        match r {
            Some(n) => hex_digit(c) == Some(n as int) && n < 16,
            None => hex_digit(c) is None,
        },
{
    if ascii::DIGIT_0 <= c && c <= ascii::DIGIT_9 {
        Some(c - ascii::DIGIT_0)
    } else if ascii::LOWER_A <= c && c <= ascii::LOWER_F {
        Some(c - ascii::LOWER_A + 10)
    } else if ascii::UPPER_A <= c && c <= ascii::UPPER_F {
        Some(c - ascii::UPPER_A + 10)
    } else {
        None
    }
}

/// The color that `#` and hexadecimal digits stand for.
fn read_hex_color(t: &str) -> (r: Option<Rgba>)
    ensures
        r == hex_color(t.spec_bytes()),
{
    let b = t.as_bytes();
    if !has_at(b, 0, ascii::HASH) {
        return None;
    }
    let mut ds: Vec<u8> = Vec::new();
    let mut i: usize = 1;
    while i < b.len()
        invariant
            b@ == t.spec_bytes(),
            1 <= i <= b@.len(),
            ds@.len() == i - 1,
            forall|k: int|
                1 <= k < i ==> hex_digit(#[trigger] b@[k]) == Some(ds@[k - 1] as int) && ds@[k - 1]
                    < 16,
        decreases b@.len() - i,
    {
        match read_hex_digit(b[i]) {
            Some(d) => {
                ds.push(d);
            },
            None => {
                assert(!all_hex(b@, 1));
                return None;
            },
        }
        i += 1;
    }
    assert(forall|k: int| 0 <= k < ds@.len() ==> hex_digit(b@[k + 1]) == Some(#[trigger] ds@[k] as int) && ds@[k] < 16);
    let n: usize = ds.len();
    if n == 3 {
        Some(Rgba::from_u8(ds[0] * 17, ds[1] * 17, ds[2] * 17, 255))
    } else if n == 4 {
        Some(Rgba::from_u8(ds[0] * 17, ds[1] * 17, ds[2] * 17, ds[3] * 17))
    } else if n == 6 {
        Some(
            Rgba::from_u8(
                ds[0] * 16 + ds[1],
                ds[2] * 16 + ds[3],
                ds[4] * 16 + ds[5],
                255,
            ),
        )
    } else if n == 8 {
        Some(
            Rgba::from_u8(
                ds[0] * 16 + ds[1],
                ds[2] * 16 + ds[3],
                ds[4] * 16 + ds[5],
                ds[6] * 16 + ds[7],
            ),
        )
    } else {
        None
    }
}

/// The number that one to three decimal digits stand for.
fn read_number(t: &str) -> (r: Option<u32>)
    ensures
        match r {
            Some(n) => number(t.spec_bytes()) == Some(n as int) && n < 1000,
            None => number(t.spec_bytes()) is None,
        },
{
    let b = t.as_bytes();
    let n: usize = b.len();
    if n < 1 || n > 3 {
        return None;
    }
    let mut acc: u32 = 0;
    let mut i: usize = 0;
    while i < n
        invariant
            b@ == t.spec_bytes(),
            n == b@.len(),
            n <= 3,
            i <= n,
            i == 0 ==> acc == 0,
            i == 1 ==> acc < 10,
            i == 2 ==> acc < 100,
            i == 3 ==> acc < 1000,
            digits(b@, i as int, acc as int) == digits(b@, 0, 0),
        decreases n - i,
    {
        let c: u8 = b[i];
        if c < ascii::DIGIT_0 || c > ascii::DIGIT_9 {
            return None;
        }
        acc = acc * 10 + (c - ascii::DIGIT_0) as u32;
        i += 1;
    }
    Some(acc)
}

fn read_number_upto(t: &str, max: u32) -> (r: Option<u32>)
    ensures
        match r {
            Some(n) => number_upto(t.spec_bytes(), max as int) == Some(n as int) && n <= max,
            None => number_upto(t.spec_bytes(), max as int) is None,
        },
{
    match read_number(t) {
        Some(n) => if n <= max {
            Some(n)
        } else {
            None
        },
        None => None,
    }
}

fn read_percentage(t: &str) -> (r: Option<u32>)
    ensures
        match r {
            Some(n) => percentage(t.spec_bytes()) == Some(n as int) && n <= 100,
            None => percentage(t.spec_bytes()) is None,
        },
{
    let b = t.as_bytes();
    let n: usize = b.len();
    if n == 0 || b[n - 1] != ascii::PERCENT {
        return None;
    }
    proof {
        text::lemma_valid(t);
        text::lemma_ascii_boundary(b@, n - 1);
    }
    read_number_upto(str_upto(t, n - 1), 100)
}

proof fn lemma_digits_bound(t: Seq<u8>)
    requires
        number(t) is Some,
    ensures
        0 <= number(t)->0,
        t.len() == 1 ==> number(t)->0 < 10,
        t.len() == 2 ==> number(t)->0 < 100,
        t.len() == 3 ==> number(t)->0 < 1000,
{
    reveal_with_fuel(digits, 4);
}

/// The opacity that a number from 0 to 1 stands for.
fn read_opacity(t: &str) -> (r: Option<u8>)
    ensures
        match r {
            Some(n) => opacity(t.spec_bytes()) == Some(n as int),
            None => opacity(t.spec_bytes()) is None,
        },
{
    proof {
        reveal_strlit("0.");
        is_ascii_chars_encode_utf8("0."@);
        reveal_strlit("0");
        reveal_strlit("1");
        is_ascii_chars_encode_utf8("0"@);
        is_ascii_chars_encode_utf8("1"@);
    }
    if same_str(t, "0") {
        return Some(0);
    }
    if same_str(t, "1") {
        return Some(255);
    }
    let b = t.as_bytes();
    if !occurs_at(b, 0, "0.".as_bytes()) {
        return None;
    }
    proof {
        text::lemma_valid(t);
        assert(b@.subrange(0, 2)[1] == b@[1]);
        text::lemma_ascii_boundary(b@, 1);
    }
    let scale: u32 = if b.len() == 3 {
        10
    } else if b.len() == 4 {
        100
    } else {
        1000
    };
    let rest = str_from(t, 2);
    match read_number(rest) {
        Some(n) => {
            proof {
                lemma_digits_bound(rest.spec_bytes());
                assert((n * 255 + scale / 2) / scale as int <= 255) by (nonlinear_arith)
                    requires
                        0 <= n < scale,
                        scale == 10 || scale == 100 || scale == 1000,
                ;
            }
            Some(((n * 255 + scale / 2) / scale) as u8)
        },
        None => None,
    }
}

/// The bytes of each part.
pub open spec fn spellings(ts: Seq<&str>) -> Seq<Seq<u8>> {
    ts.map_values(|t: &str| t.spec_bytes())
}

/// The parts of `t` that commas separate, without the white space around them.
fn split_parts<'a>(t: &'a str) -> (r: Vec<&'a str>)
    ensures
        spellings(r@) == parts(t.spec_bytes(), 0),
{
    let b = t.as_bytes();
    let n: usize = b.len();
    let ghost whole = parts(b@, 0);
    let mut r: Vec<&'a str> = Vec::new();
    let mut i: usize = 0;
    proof {
        text::lemma_valid(t);
        text::lemma_ends_boundary(b@);
        assert(spellings(r@) + whole =~= whole);
    }
    loop
        invariant
            b@ == t.spec_bytes(),
            valid_utf8(b@),
            n == b@.len(),
            i <= n,
            text::boundary(b@, i as int),
            spellings(r@) + parts(b@, i as int) == whole,
            whole == parts(t.spec_bytes(), 0),
        decreases n - i,
    {
        match find_byte_at(b, ascii::COMMA, i) {
            Some(k) => {
                proof {
                    text::lemma_ascii_boundary(b@, k as int);
                }
                let part = trimmed(substr(t, i, k));
                proof {
                    let x = part.spec_bytes();
                    assert(spellings(r@.push(part)) =~= spellings(r@).push(x));
                    assert(spellings(r@).push(x) + parts(b@, k + 1) =~= spellings(r@) + (seq![x]
                        + parts(b@, k + 1)));
                }
                r.push(part);
                i = k + 1;
            },
            None => {
                let part = trimmed(str_from(t, i));
                proof {
                    let x = part.spec_bytes();
                    assert(spellings(r@.push(part)) =~= spellings(r@).push(x));
                    assert(spellings(r@).push(x) =~= spellings(r@) + seq![x]);
                }
                r.push(part);
                return r;
            },
        }
    }
}

fn read_channel(base: u32, c: u32, l: u32) -> (r: u8)
    requires
        base <= c <= 10000,
        l <= 100,
        c <= 200 * l,
        c <= 20000 - 200 * l,
    ensures
        r == hsl_channel(base as int, c as int, l as int),
{
    let v: u32 = 2 * base + (200 * l - c);
    assert(v <= 20000);
    let q: u32 = (v * 255 + 10000) / 20000;
    assert(q <= 255) by (nonlinear_arith)
        requires
            v <= 20000,
            q == (v * 255 + 10000) / 20000,
    ;
    q as u8
}

/// The color with the given hue, saturation, lightness and opacity.
fn read_hsl(h: u32, s: u32, l: u32, a: u8) -> (r: Rgba)
    requires
        h <= 360,
        s <= 100,
        l <= 100,
    ensures
        r == hsl(h as int, s as int, l as int, a as int),
{
    let hue: u32 = h % 360;
    let spread: u32 = if l <= 50 {
        2 * l
    } else {
        200 - 2 * l
    };
    assert(spread * s <= 100 * spread) by (nonlinear_arith)
        requires
            s <= 100,
            0 <= spread,
    ;
    assert(0 <= spread * s) by (nonlinear_arith)
        requires
            0 <= s,
            0 <= spread,
    ;
    let c: u32 = spread * s;
    let d: u32 = hue % 120;
    let slope: u32 = if d <= 60 {
        d
    } else {
        120 - d
    };
    assert(0 <= c * slope <= c * 60) by (nonlinear_arith)
        requires
            0 <= slope <= 60,
            0 <= c,
    ;
    let x: u32 = (c * slope) / 60;
    assert(x <= c) by (nonlinear_arith)
        requires
            x == (c * slope) / 60,
            0 <= c * slope <= c * 60,
    ;
    let p: (u32, u32, u32) = if hue < 60 {
        (c, x, 0)
    } else if hue < 120 {
        (x, c, 0)
    } else if hue < 180 {
        (0, c, x)
    } else if hue < 240 {
        (0, x, c)
    } else if hue < 300 {
        (x, 0, c)
    } else {
        (c, 0, x)
    };
    Rgba::from_u8(read_channel(p.0, c, l), read_channel(p.1, c, l), read_channel(p.2, c, l), a)
}

fn read_args_opacity(args: &[&str]) -> (r: Option<u8>)
    requires
        args@.len() == 3 || args@.len() == 4,
    ensures
        match r {
            Some(n) => args_opacity(spellings(args@)) == Some(n as int),
            None => args_opacity(spellings(args@)) is None,
        },
{
    if args.len() == 3 {
        Some(255)
    } else {
        read_opacity(args[3])
    }
}

fn read_rgb_args(args: &[&str]) -> (r: Option<Rgba>)
    requires
        args@.len() == 3 || args@.len() == 4,
    ensures
        r == rgb_args(spellings(args@)),
{
    let red = read_number_upto(args[0], 255);
    let green = read_number_upto(args[1], 255);
    let blue = read_number_upto(args[2], 255);
    let alpha = read_args_opacity(args);
    match (red, green, blue, alpha) {
        (Some(r), Some(g), Some(b), Some(a)) => Some(Rgba::from_u8(r as u8, g as u8, b as u8, a)),
        _ => None,
    }
}

fn read_hsl_args(args: &[&str]) -> (r: Option<Rgba>)
    requires
        args@.len() == 3 || args@.len() == 4,
    ensures
        r == hsl_args(spellings(args@)),
{
    let hue = read_number_upto(args[0], 360);
    let saturation = read_percentage(args[1]);
    let lightness = read_percentage(args[2]);
    let alpha = read_args_opacity(args);
    match (hue, saturation, lightness, alpha) {
        (Some(h), Some(s), Some(l), Some(a)) => Some(read_hsl(h, s, l, a)),
        _ => None,
    }
}

/// The color that a call of `rgb`, `rgba`, `hsl` or `hsla` stands for.
fn read_function_color(t: &str) -> (r: Option<Rgba>)
    ensures
        r == function_color(t.spec_bytes()),
{
    let b = t.as_bytes();
    let n: usize = b.len();
    match find_byte_at(b, ascii::OPEN_PAREN, 0) {
        Some(k) => {
            if b[n - 1] != ascii::CLOSE_PAREN {
                return None;
            }
            proof {
                text::lemma_valid(t);
                text::lemma_ascii_boundary(b@, k as int);
                text::lemma_ascii_boundary(b@, n - 1);
            }
            let name = str_upto(t, k);
            let args = split_parts(substr(t, k + 1, n - 1));
            let count: usize = args.len();
            assert(spellings(args@).len() == count);
            if (same_str(name, "rgb") && count == 3) || (same_str(name, "rgba") && count == 4) {
                read_rgb_args(args.as_slice())
            } else if (same_str(name, "hsl") && count == 3) || (same_str(name, "hsla") && count
                == 4) {
                read_hsl_args(args.as_slice())
            } else {
                None
            }
        },
        None => None,
    }
}

/// Whether `t` is written as a color in a way that nothing else is.
pub fn is_color_literal(t: &str) -> (r: bool)
    ensures
        r == literal(t.spec_bytes()),
{
    read_hex_color(t).is_some() || read_function_color(t).is_some()
}

/// The color that `t` stands for.
pub fn color_value(t: &str) -> (r: Option<Rgba>)
    ensures
        r == color(t.spec_bytes()),
{
    reveal(color);
    if let Some(c) = read_hex_color(t) {
        return Some(c);
    }
    if let Some(c) = read_function_color(t) {
        return Some(c);
    }
    if same_str(t, "transparent") || same_str(t, "alpha") {
        return Some(Rgba::from_u8(0, 0, 0, 0));
    }
    let colors = catalog::NAMED_COLORS;
    let mut i: usize = colors.len();
    while i > 0
        invariant
            colors@ == catalog::NAMED_COLORS@,
            color(t.spec_bytes()) == named_upto(t.spec_bytes(), colors@.len() as int),
            i <= colors@.len(),
            named_upto(t.spec_bytes(), i as int) == named_upto(
                t.spec_bytes(),
                colors@.len() as int,
            ),
        decreases i,
    {
        i -= 1;
        if same_str(colors[i].0, t) {
            let rgb: u32 = colors[i].1;
            return Some(
                Rgba::from_u8(
                    ((rgb / 65536) % 256) as u8,
                    ((rgb / 256) % 256) as u8,
                    (rgb % 256) as u8,
                    255,
                ),
            );
        }
    }
    None
}

/// Whether `t` is a color.
pub fn is_border_color_value(t: &str) -> (r: bool)
    ensures
        r == (color(t.spec_bytes()) is Some),
{
    color_value(t).is_some()
}

fn is_border_width(w: &str) -> (r: bool)
    ensures
        r == border_width(w.spec_bytes()),
{
    proof {
        reveal_strlit("px");
        is_ascii_chars_encode_utf8("px"@);
    }
    if read_number(w).is_some() {
        return true;
    }
    let b = w.as_bytes();
    let n: usize = b.len();
    if n > 2 && occurs_at(b, n - 2, "px".as_bytes()) {
        proof {
            text::lemma_valid(w);
            assert(b@.subrange(n - 2, n as int)[0] == b@[n - 2]);
            text::lemma_ascii_boundary(b@, n - 2);
        }
        read_number(str_upto(w, n - 2)).is_some()
    } else {
        false
    }
}

/// Whether `t` is a border.
pub fn is_valid_border(t: &str) -> (r: bool)
    ensures
        r == border(t.spec_bytes()),
{
    reveal(border);
    if same_str(t, "none") || same_str(t, "hidden") {
        return true;
    }
    let b = t.as_bytes();
    let n: usize = b.len();
    let ghost whole = words(b@, 0);
    let ghost mut done = Seq::<Seq<u8>>::empty();
    let mut width_seen: bool = false;
    let mut color_seen: bool = false;
    let mut i: usize = 0;
    proof {
        text::lemma_valid(t);
        assert(done + whole =~= whole);
    }
    while i < n
        invariant
            b@ == t.spec_bytes(),
            valid_utf8(b@),
            n == b@.len(),
            i <= n,
            done + words(b@, i as int) == whole,
            i == n || i == 0 || b@[i as int] == ascii::SPACE || b@[i - 1] == ascii::SPACE,
            width_seen == has_width(done),
            color_seen == has_color(done),
        decreases n - i,
    {
        if b[i] == ascii::SPACE {
            i += 1;
            continue;
        }
        let mut e: usize = i;
        let mut depth: usize = 0;
        while e < n && !(b[e] == ascii::SPACE && depth == 0)
            invariant
                n == b@.len(),
                i <= e <= n,
                depth <= e - i,
                word_end(b@, e as int, depth as int) == word_end(b@, i as int, 0),
            decreases n - e,
        {
            if b[e] == ascii::OPEN_PAREN {
                depth += 1;
            } else if b[e] == ascii::CLOSE_PAREN && depth > 0 {
                depth -= 1;
            }
            e += 1;
        }
        proof {
            lemma_word_end(b@, i as int, 0);
            text::lemma_ends_boundary(b@);
            if e < n {
                text::lemma_ascii_boundary(b@, e as int);
            }
            if i > 0 {
                text::lemma_ascii_boundary(b@, i - 1);
            }
        }
        let word = substr(t, i, e);
        let ghost x = word.spec_bytes();
        if is_border_width(word) {
            width_seen = true;
        }
        if color_value(word).is_some() {
            color_seen = true;
        }
        proof {
            let next = done.push(x);
            assert(next + words(b@, e as int) =~= done + (seq![x] + words(b@, e as int)));
            lemma_seen(done, x);
            done = next;
        }
        i = e;
    }
    assert(done =~= whole);
    width_seen && color_seen
}

proof fn lemma_seen(ws: Seq<Seq<u8>>, x: Seq<u8>)
    ensures
        has_width(ws.push(x)) == (has_width(ws) || border_width(x)),
        has_color(ws.push(x)) == (has_color(ws) || color(x) is Some),
{
    let all = ws.push(x);
    assert(all[ws.len() as int] == x);
    assert forall|k: int| 0 <= k < ws.len() implies #[trigger] all[k] == ws[k] by {}
    if has_width(ws) {
        let k = choose|k: int| 0 <= k < ws.len() && border_width(#[trigger] ws[k]);
        assert(border_width(all[k]));
    }
    if has_color(ws) {
        let k = choose|k: int| 0 <= k < ws.len() && color(#[trigger] ws[k]) is Some;
        assert(color(all[k]) is Some);
    }
}

} // verus!
