//! What a color text stands for, and which colors a document has.

use crate::ascii;
use crate::catalog;
use crate::colors;
use crate::lang_api::ByteSpan;
use crate::nodes;
use crate::palette;
use crate::palette::Rgba;
use crate::schema;
use crate::syntax;
use crate::syntax::{Stmt, StmtKind};
use crate::text;
use vstd::prelude::*;
use vstd::string::*;
use vstd::utf8::*;

verus! {

/// The byte of a decimal digit.
pub open spec fn digit(d: int) -> u8 {
    (0x30 + d) as u8
}

/// A number up to 999 in decimal digits.
pub open spec fn decimal(n: int) -> Seq<u8> {
    if n < 10 {
        seq![digit(n)]
    } else if n < 100 {
        seq![digit(n / 10), digit(n % 10)]
    } else {
        seq![digit(n / 100), digit(n / 10 % 10), digit(n % 10)]
    }
}

/// As many spaces as `n` says.
pub open spec fn spaces(n: nat) -> Seq<u8> {
    Seq::new(n, |i: int| 0x20u8)
}

/// Whether `t` is `core` with spaces around it.
pub open spec fn spaced(t: Seq<u8>, core: Seq<u8>) -> bool {
    exists|i: nat, j: nat| t == #[trigger] spaces(i) + core + #[trigger] spaces(j)
}

/// Whether a byte is a visible ASCII character.
pub open spec fn visible(c: u8) -> bool {
    0x21 <= c <= 0x7e
}

/// White space that is skipped ends at a visible character.
pub proof fn lemma_skip_spaces(t: Seq<u8>, i: int, n: int)
    requires
        0 <= i <= n < t.len(),
        forall|k: int| i <= k < n ==> #[trigger] t[k] == 0x20,
        visible(t[n]),
    ensures
        text::skip_ws(t, i) == n,
    decreases n - i,
{
    if i < n {
        lemma_skip_spaces(t, i + 1, n);
    }
}

proof fn lemma_skip_spaces_back(t: Seq<u8>, j: int, n: int)
    requires
        0 < n <= j <= t.len(),
        forall|k: int| n <= k < j ==> #[trigger] t[k] == 0x20,
        visible(t[n - 1]),
    ensures
        text::skip_ws_back(t, j) == n,
    decreases j - n,
{
    if n < j {
        assert(t[j - 1] == 0x20);
        lemma_skip_spaces_back(t, j - 1, n);
    } else {
        assert(text::ws_len_before(t, j) == 0);
    }
}

/// Cutting white space off a text with spaces around it leaves the text.
pub proof fn lemma_trim_spaces(t: Seq<u8>, core: Seq<u8>)
    requires
        spaced(t, core),
        core.len() > 0,
        visible(core[0]),
        visible(core.last()),
    ensures
        text::trim(t) == core,
{
    let (i, j) = choose|i: nat, j: nat| t == #[trigger] spaces(i) + core + #[trigger] spaces(j);
    assert(t[i as int] == core[0]);
    lemma_skip_spaces(t, 0, i as int);
    let u = text::trim_start(t);
    assert(u =~= core + spaces(j));
    lemma_skip_spaces_back(u, u.len() as int, core.len() as int);
    assert(text::trim_end(u) =~= core);
}

/// The first place of a byte is where it is found.
pub proof fn lemma_find_at(t: Seq<u8>, c: u8, i: int, k: int)
    requires
        0 <= i <= k < t.len(),
        t[k] == c,
        forall|j: int| i <= j < k ==> #[trigger] t[j] != c,
    ensures
        text::find_byte(t, c, i) == Some(k),
    decreases k - i,
{
    if i < k {
        lemma_find_at(t, c, i + 1, k);
    }
}

proof fn lemma_find_none(t: Seq<u8>, c: u8, i: int)
    requires
        0 <= i <= t.len(),
        forall|j: int| i <= j < t.len() ==> #[trigger] t[j] != c,
    ensures
        text::find_byte(t, c, i) is None,
    decreases t.len() - i,
{
    if i < t.len() {
        lemma_find_none(t, c, i + 1);
    }
}

/// Whether a text has no comma and no parenthesis.
spec fn plain(t: Seq<u8>) -> bool {
    forall|k: int|
        0 <= k < t.len() ==> #[trigger] t[k] != ascii::COMMA && t[k] != ascii::OPEN_PAREN && t[k]
            != ascii::CLOSE_PAREN
}

proof fn lemma_spaced_plain(t: Seq<u8>, core: Seq<u8>)
    requires
        spaced(t, core),
        plain(core),
    ensures
        plain(t),
{
    let (i, j) = choose|i: nat, j: nat| t == #[trigger] spaces(i) + core + #[trigger] spaces(j);
    assert forall|k: int| 0 <= k < t.len() implies #[trigger] t[k] != ascii::COMMA && t[k]
        != ascii::OPEN_PAREN && t[k] != ascii::CLOSE_PAREN by {
        if i <= k < i + core.len() {
            assert(t[k] == core[k - i]);
        } else {
            assert(t[k] == 0x20);
        }
    }
}

/// Texts one behind the other, with commas between them.
pub open spec fn listed(args: Seq<Seq<u8>>) -> Seq<u8>
    decreases args.len(),
{
    if args.len() == 0 {
        Seq::empty()
    } else if args.len() == 1 {
        args[0]
    } else {
        args[0] + seq![ascii::COMMA] + listed(args.drop_first())
    }
}

proof fn lemma_parts(t: Seq<u8>, i: int, args: Seq<Seq<u8>>)
    requires
        0 <= i <= t.len(),
        args.len() > 0,
        t.subrange(i, t.len() as int) == listed(args),
        forall|k: int| 0 <= k < args.len() ==> plain(#[trigger] args[k]),
    ensures
        palette::parts(t, i) == args.map_values(|a: Seq<u8>| text::trim(a)),
    decreases args.len(),
{
    let u = t.subrange(i, t.len() as int);
    let first = args[0];
    let want = args.map_values(|a: Seq<u8>| text::trim(a));
    assert(plain(first));
    if args.len() == 1 {
        assert forall|j: int| i <= j < t.len() implies #[trigger] t[j] != ascii::COMMA by {
            assert(t[j] == u[j - i]);
        }
        lemma_find_none(t, ascii::COMMA, i);
        assert(palette::parts(t, i) =~= want);
    } else {
        let k = i + first.len();
        let rest = args.drop_first();
        assert(u == first + seq![ascii::COMMA] + listed(rest));
        assert(u.len() == first.len() + 1 + listed(rest).len());
        assert(u[first.len() as int] == ascii::COMMA);
        assert(t[k] == u[first.len() as int]);
        assert forall|j: int| i <= j < k implies #[trigger] t[j] != ascii::COMMA by {
            assert(t[j] == u[j - i]);
            assert(u[j - i] == first[j - i]);
        }
        lemma_find_at(t, ascii::COMMA, i, k);
        assert(t.subrange(k + 1, t.len() as int) =~= listed(rest)) by {
            assert(t.subrange(k + 1, t.len() as int) =~= u.subrange(
                first.len() as int + 1,
                u.len() as int,
            ));
        }
        assert forall|j: int| 0 <= j < rest.len() implies plain(#[trigger] rest[j]) by {
            assert(rest[j] == args[j + 1]);
        }
        lemma_parts(t, k + 1, rest);
        assert(t.subrange(i, k) =~= first);
        assert(palette::parts(t, i) =~= want);
    }
}

/// A call: a name, and arguments between parentheses.
pub open spec fn call(name: Seq<u8>, args: Seq<Seq<u8>>) -> Seq<u8> {
    name + seq![ascii::OPEN_PAREN] + listed(args) + seq![ascii::CLOSE_PAREN]
}

/// What a call is taken apart into.
proof fn lemma_call(name: Seq<u8>, args: Seq<Seq<u8>>)
    requires
        plain(name),
        name.len() > 0,
        name[0] != ascii::HASH,
        args.len() > 0,
        forall|k: int| 0 <= k < args.len() ==> plain(#[trigger] args[k]),
    ensures
        ({
            let t = call(name, args);
            let trimmed = args.map_values(|a: Seq<u8>| text::trim(a));
            &&& palette::hex_color(t) is None
            &&& text::find_byte(t, ascii::OPEN_PAREN, 0) == Some(name.len() as int)
            &&& text::upto(t, name.len() as int) == name
            &&& t.last() == ascii::CLOSE_PAREN
            &&& palette::parts(t.subrange(name.len() as int + 1, t.len() - 1), 0) == trimmed
        }),
{
    let t = call(name, args);
    let n = name.len() as int;
    assert(t[0] == name[0]);
    assert forall|j: int| 0 <= j < n implies #[trigger] t[j] != ascii::OPEN_PAREN by {
        assert(t[j] == name[j]);
    }
    assert(t[n] == ascii::OPEN_PAREN);
    lemma_find_at(t, ascii::OPEN_PAREN, 0, n);
    assert(text::upto(t, n) =~= name);
    let u = t.subrange(n + 1, t.len() - 1);
    assert(u =~= listed(args));
    assert(u.subrange(0, u.len() as int) =~= listed(args));
    lemma_parts(u, 0, args);
}

proof fn lemma_decimal(n: int)
    requires
        0 <= n <= 999,
    ensures
        palette::number(decimal(n)) == Some(n),
        plain(decimal(n)),
        1 <= decimal(n).len() <= 3,
        visible(decimal(n)[0]),
        visible(decimal(n).last()),
{
    reveal_with_fuel(palette::digits, 4);
    let t = decimal(n);
    if n >= 100 {
        assert(n == (n / 100) * 100 + (n / 10 % 10) * 10 + n % 10);
    }
}

proof fn lemma_names()
    ensures
        "rgb".spec_bytes() == seq![0x72u8, 0x67u8, 0x62u8],
        "rgba".spec_bytes() == seq![0x72u8, 0x67u8, 0x62u8, 0x61u8],
        "hsl".spec_bytes() == seq![0x68u8, 0x73u8, 0x6cu8],
        "hsla".spec_bytes() == seq![0x68u8, 0x73u8, 0x6cu8, 0x61u8],
{
    reveal_strlit("rgb");
    reveal_strlit("rgba");
    reveal_strlit("hsl");
    reveal_strlit("hsla");
    is_ascii_chars_encode_utf8("rgb"@);
    is_ascii_chars_encode_utf8("rgba"@);
    is_ascii_chars_encode_utf8("hsl"@);
    is_ascii_chars_encode_utf8("hsla"@);
    assert("rgb".spec_bytes() =~= seq![0x72u8, 0x67u8, 0x62u8]);
    assert("rgba".spec_bytes() =~= seq![0x72u8, 0x67u8, 0x62u8, 0x61u8]);
    assert("hsl".spec_bytes() =~= seq![0x68u8, 0x73u8, 0x6cu8]);
    assert("hsla".spec_bytes() =~= seq![0x68u8, 0x73u8, 0x6cu8, 0x61u8]);
}

/// Numbers up to 255 in a call of `rgb` are the red, the green and the blue channel, in this order,
/// with any spaces around them. The color is opaque.
pub proof fn law_rgb_channels(r: u8, g: u8, b: u8, x: Seq<u8>, y: Seq<u8>, z: Seq<u8>)
    requires
        spaced(x, decimal(r as int)),
        spaced(y, decimal(g as int)),
        spaced(z, decimal(b as int)),
    ensures
        palette::color(call(seq![0x72u8, 0x67u8, 0x62u8], seq![x, y, z])) == Some(
            Rgba { r, g, b, a: 255 },
        ),
{
    let name = seq![0x72u8, 0x67u8, 0x62u8];
    let args = seq![x, y, z];
    let t = call(name, args);
    reveal(palette::color);
    lemma_names();
    lemma_decimal(r as int);
    lemma_decimal(g as int);
    lemma_decimal(b as int);
    lemma_trim_spaces(x, decimal(r as int));
    lemma_trim_spaces(y, decimal(g as int));
    lemma_trim_spaces(z, decimal(b as int));
    lemma_spaced_plain(x, decimal(r as int));
    lemma_spaced_plain(y, decimal(g as int));
    lemma_spaced_plain(z, decimal(b as int));
    assert forall|k: int| 0 <= k < args.len() implies plain(#[trigger] args[k]) by {}
    lemma_call(name, args);
    let trimmed = args.map_values(|a: Seq<u8>| text::trim(a));
    assert(trimmed[0] == decimal(r as int));
    assert(trimmed[1] == decimal(g as int));
    assert(trimmed[2] == decimal(b as int));
    assert(palette::function_color(t) == palette::rgb_args(trimmed));
}

/// Whether a byte is a hexadecimal digit of the given value, in lower or in upper case.
pub open spec fn hex_byte(c: u8, d: int) -> bool {
    ||| 0 <= d <= 9 && c == 0x30 + d
    ||| 10 <= d <= 15 && (c == 0x61 + d - 10 || c == 0x41 + d - 10)
}

/// Whether a text is the two hexadecimal digits of a channel.
pub open spec fn hex_pair(t: Seq<u8>, n: u8) -> bool {
    t.len() == 2 && hex_byte(t[0], n as int / 16) && hex_byte(t[1], n as int % 16)
}

proof fn lemma_hex_pair(t: Seq<u8>, n: u8)
    requires
        hex_pair(t, n),
    ensures
        palette::hex_digit(t[0]) == Some(n as int / 16),
        palette::hex_digit(t[1]) == Some(n as int % 16),
        n as int / 16 * 16 + n as int % 16 == n,
{
}

/// Behind `#`, the pairs of digits are the red, the green and the blue channel, and then the opacity
/// where there is a fourth pair.
pub proof fn law_hex_channels(r: u8, g: u8, b: u8, a: u8, x: Seq<u8>, y: Seq<u8>, z: Seq<u8>, w: Seq<u8>)
    requires
        hex_pair(x, r),
        hex_pair(y, g),
        hex_pair(z, b),
        hex_pair(w, a),
    ensures
        palette::color(seq![0x23u8] + x + y + z) == Some(Rgba { r, g, b, a: 255 }),
        palette::color(seq![0x23u8] + x + y + z + w) == Some(Rgba { r, g, b, a }),
{
    reveal(palette::color);
    lemma_hex_pair(x, r);
    lemma_hex_pair(y, g);
    lemma_hex_pair(z, b);
    lemma_hex_pair(w, a);
    let t = seq![0x23u8] + x + y + z;
    let u = t + w;
    assert(t.len() == 7 && u.len() == 9);
    assert(t[1] == x[0] && t[2] == x[1] && t[3] == y[0] && t[4] == y[1] && t[5] == z[0] && t[6]
        == z[1]);
    assert(u[1] == x[0] && u[2] == x[1] && u[3] == y[0] && u[4] == y[1] && u[5] == z[0] && u[6]
        == z[1] && u[7] == w[0] && u[8] == w[1]);
    assert(palette::all_hex(t, 1));
    assert(palette::all_hex(u, 1));
}

/// A color in three or four hexadecimal digits is the one with each digit twice.
pub proof fn law_short_hex(t: Seq<u8>)
    requires
        t.len() == 4 || t.len() == 5,
        t[0] == 0x23,
        forall|k: int| 1 <= k < t.len() ==> exists|d: int| hex_byte(#[trigger] t[k], d),
    ensures
        palette::color(t) is Some,
        t.len() == 4 ==> palette::color(t) == palette::color(
            seq![t[0], t[1], t[1], t[2], t[2], t[3], t[3]],
        ),
        t.len() == 5 ==> palette::color(t) == palette::color(
            seq![t[0], t[1], t[1], t[2], t[2], t[3], t[3], t[4], t[4]],
        ),
{
    reveal(palette::color);
    assert(palette::all_hex(t, 1)) by {
        assert forall|k: int| 1 <= k < t.len() implies palette::hex_digit(#[trigger] t[k]) is Some by {
            let d = choose|d: int| hex_byte(t[k], d);
            assert(hex_byte(t[k], d));
        }
    }
    if t.len() == 4 {
        let u = seq![t[0], t[1], t[1], t[2], t[2], t[3], t[3]];
        assert(palette::all_hex(u, 1)) by {
            assert(palette::hex_digit(t[1]) is Some && palette::hex_digit(t[2]) is Some
                && palette::hex_digit(t[3]) is Some);
        }
    } else {
        let u = seq![t[0], t[1], t[1], t[2], t[2], t[3], t[3], t[4], t[4]];
        assert(palette::all_hex(u, 1)) by {
            assert(palette::hex_digit(t[1]) is Some && palette::hex_digit(t[2]) is Some
                && palette::hex_digit(t[3]) is Some && palette::hex_digit(t[4]) is Some);
        }
    }
}

/// A color in a call of `rgb` is the one that `#` and the hexadecimal digits of its channels give.
pub proof fn law_rgb_agrees_with_hex(
    r: u8,
    g: u8,
    b: u8,
    args: Seq<Seq<u8>>,
    pairs: Seq<Seq<u8>>,
)
    requires
        args.len() == 3,
        spaced(args[0], decimal(r as int)),
        spaced(args[1], decimal(g as int)),
        spaced(args[2], decimal(b as int)),
        pairs.len() == 3,
        hex_pair(pairs[0], r),
        hex_pair(pairs[1], g),
        hex_pair(pairs[2], b),
    ensures
        palette::color(call(seq![0x72u8, 0x67u8, 0x62u8], args)) == palette::color(
            seq![0x23u8] + pairs[0] + pairs[1] + pairs[2],
        ),
{
    assert(args =~= seq![args[0], args[1], args[2]]);
    law_rgb_channels(r, g, b, args[0], args[1], args[2]);
    let w = seq![0x66u8, 0x66u8];
    assert(hex_pair(w, 255));
    law_hex_channels(r, g, b, 255, pairs[0], pairs[1], pairs[2], w);
}

/// Whether every byte of a text is a decimal digit.
pub open spec fn all_digits(t: Seq<u8>) -> bool {
    forall|k: int| 0 <= k < t.len() ==> 0x30 <= #[trigger] t[k] <= 0x39
}

/// The number that up to three decimal digits stand for.
pub open spec fn digits_value(t: Seq<u8>) -> int {
    if t.len() == 1 {
        t[0] - 0x30
    } else if t.len() == 2 {
        (t[0] - 0x30) * 10 + (t[1] - 0x30)
    } else {
        (t[0] - 0x30) * 100 + (t[1] - 0x30) * 10 + (t[2] - 0x30)
    }
}

/// Ten to the number of digits.
pub open spec fn digits_scale(t: Seq<u8>) -> int {
    if t.len() == 1 {
        10
    } else if t.len() == 2 {
        100
    } else {
        1000
    }
}

/// Whether `a` is the channel value of the opacity that a text between 0 and 1 gives: the nearest to
/// that part of 255.
pub open spec fn opacity_text(t: Seq<u8>, a: u8) -> bool {
    ||| t == seq![0x30u8] && a == 0
    ||| t == seq![0x31u8] && a == 255
    ||| exists|d: Seq<u8>|
        t == seq![0x30u8, 0x2eu8] + d && 1 <= d.len() <= 3 && #[trigger] all_digits(d) && -digits_scale(
            d,
        ) < 2 * (a * digits_scale(d) - 255 * digits_value(d)) <= digits_scale(d)
}

proof fn lemma_opacity(t: Seq<u8>, a: u8)
    requires
        opacity_text(t, a),
    ensures
        palette::opacity(t) == Some(a as int),
        plain(t),
        t.len() > 0,
        visible(t[0]),
        visible(t.last()),
{
    reveal_strlit("0");
    reveal_strlit("1");
    reveal_strlit("0.");
    is_ascii_chars_encode_utf8("0"@);
    is_ascii_chars_encode_utf8("1"@);
    is_ascii_chars_encode_utf8("0."@);
    let zero = "0".spec_bytes();
    let one = "1".spec_bytes();
    let point = "0.".spec_bytes();
    assert(zero =~= seq![0x30u8]);
    assert(one =~= seq![0x31u8]);
    assert(point =~= seq![0x30u8, 0x2eu8]);
    if t == seq![0x31u8] {
        assert(t[0] == 0x31);
        assert(zero[0] == 0x30);
    } else if t != seq![0x30u8] {
        let d = choose|d: Seq<u8>|
            t == seq![0x30u8, 0x2eu8] + d && 1 <= d.len() <= 3 && #[trigger] all_digits(d)
                && -digits_scale(d) < 2 * (a * digits_scale(d) - 255 * digits_value(d))
                <= digits_scale(d);
        assert(t.len() == 2 + d.len());
        assert(zero.len() == 1 && one.len() == 1);
        assert(t.subrange(0, 2) =~= point);
        assert(text::from(t, 2) =~= d);
        reveal_with_fuel(palette::digits, 4);
        assert(palette::number(d) == Some(digits_value(d)));
        assert(t.last() == d.last());
        let n = digits_value(d);
        if d.len() == 1 {
            assert((n * 255 + 5) / 10 == a);
        } else if d.len() == 2 {
            assert((n * 255 + 50) / 100 == a);
        } else {
            assert((n * 255 + 500) / 1000 == a);
        }
        assert(plain(t));
    }
}

/// In a call of `rgba`, the fourth argument is the opacity, and the others are what they are in a
/// call of `rgb`.
pub proof fn law_rgba_channels(r: u8, g: u8, b: u8, a: u8, args: Seq<Seq<u8>>, alpha: Seq<u8>)
    requires
        args.len() == 4,
        spaced(args[0], decimal(r as int)),
        spaced(args[1], decimal(g as int)),
        spaced(args[2], decimal(b as int)),
        spaced(args[3], alpha),
        opacity_text(alpha, a),
    ensures
        palette::color(call(seq![0x72u8, 0x67u8, 0x62u8, 0x61u8], args)) == Some(
            Rgba { r, g, b, a },
        ),
{
    let name = seq![0x72u8, 0x67u8, 0x62u8, 0x61u8];
    let t = call(name, args);
    reveal(palette::color);
    lemma_names();
    lemma_decimal(r as int);
    lemma_decimal(g as int);
    lemma_decimal(b as int);
    lemma_opacity(alpha, a);
    lemma_trim_spaces(args[0], decimal(r as int));
    lemma_trim_spaces(args[1], decimal(g as int));
    lemma_trim_spaces(args[2], decimal(b as int));
    lemma_trim_spaces(args[3], alpha);
    lemma_spaced_plain(args[0], decimal(r as int));
    lemma_spaced_plain(args[1], decimal(g as int));
    lemma_spaced_plain(args[2], decimal(b as int));
    lemma_spaced_plain(args[3], alpha);
    assert forall|k: int| 0 <= k < args.len() implies plain(#[trigger] args[k]) by {}
    lemma_call(name, args);
    let trimmed = args.map_values(|a: Seq<u8>| text::trim(a));
    assert(trimmed[0] == decimal(r as int));
    assert(trimmed[1] == decimal(g as int));
    assert(trimmed[2] == decimal(b as int));
    assert(trimmed[3] == alpha);
    assert(name.len() == 4);
    assert("rgb".spec_bytes().len() == 3);
    assert(palette::function_color(t) == palette::rgb_args(trimmed));
}

/// Twice the distance of `n / m` from `x`, in parts of `m`.
pub open spec fn off(x: u8, n: int, m: int) -> int {
    if x * m >= n {
        2 * (x * m - n)
    } else {
        2 * (n - x * m)
    }
}

/// How much of the strongest channel the middle one has at a hue, in sixtieths: it rises from nothing
/// to all and falls again every 120 degrees.
pub open spec fn ramp(h: int) -> int {
    let d = h % 120;
    if d <= 60 {
        d
    } else {
        120 - d
    }
}

/// Whether the channels are those of the color with hue `h` in degrees and saturation `s` and
/// lightness `l` in percent. The strongest channel lies as far above the lightness as the weakest
/// lies below it, which channel is which follows from the hue, and each is the nearest value.
pub open spec fn has_hsl(c: Rgba, h: int, s: int, l: int) -> bool {
    let spread = s * (if l <= 50 {
        2 * l
    } else {
        200 - 2 * l
    });
    let sector = h % 360 / 60;
    let (strong, middle, weak) = if sector == 0 {
        (c.r, c.g, c.b)
    } else if sector == 1 {
        (c.g, c.r, c.b)
    } else if sector == 2 {
        (c.g, c.b, c.r)
    } else if sector == 3 {
        (c.b, c.g, c.r)
    } else if sector == 4 {
        (c.b, c.r, c.g)
    } else {
        (c.r, c.b, c.g)
    };
    &&& off(strong, 255 * (200 * l + spread), 20000) <= 20000
    &&& off(weak, 255 * (200 * l - spread), 20000) <= 20000
    &&& off(
        middle,
        255 * (60 * (200 * l - spread) + 2 * spread * ramp(h % 360)),
        1200000,
    ) <= 1200000 + 61200
}

proof fn lemma_hsl_channel(base: int, c: int, l: int)
    requires
        0 <= base <= c,
        0 <= l <= 100,
        c <= 200 * l,
        c <= 20000 - 200 * l,
    ensures
        0 <= palette::hsl_channel(base, c, l) <= 255,
        off(palette::hsl_channel(base, c, l) as u8, 255 * (2 * base + 200 * l - c), 20000)
            <= 20000,
{
    let n = (2 * base + 200 * l - c) * 255;
    assert(0 <= n <= 20000 * 255) by (nonlinear_arith)
        requires
            n == (2 * base + 200 * l - c) * 255,
            0 <= base <= c,
            c <= 200 * l,
            c <= 20000 - 200 * l,
    ;
    let x = (n + 10000) / 20000;
    assert(x == palette::hsl_channel(base, c, l));
    assert(20000 * x <= n + 10000 < 20000 * x + 20000);
}

proof fn lemma_has_hsl(h: int, s: int, l: int, a: int)
    requires
        0 <= h <= 360,
        0 <= s <= 100,
        0 <= l <= 100,
        0 <= a <= 255,
    ensures
        has_hsl(palette::hsl(h, s, l, a), h, s, l),
        palette::hsl(h, s, l, a).a == a,
{
    let c = palette::chroma(s, l);
    let m = if l <= 50 {
        2 * l
    } else {
        200 - 2 * l
    };
    assert(c == m * s);
    assert(0 <= c <= 100 * m) by (nonlinear_arith)
        requires
            c == m * s,
            0 <= s <= 100,
            0 <= m,
    ;
    let hh = h % 360;
    let d = ramp(hh);
    let x = palette::second(hh, c);
    assert(0 <= d <= 60);
    assert(0 <= c * d <= 60 * c) by (nonlinear_arith)
        requires
            0 <= d <= 60,
            0 <= c,
    ;
    assert(x == (c * d) / 60);
    assert(60 * x <= c * d < 60 * x + 60);
    assert(0 <= x <= c);
    lemma_hsl_channel(c, c, l);
    lemma_hsl_channel(x, c, l);
    lemma_hsl_channel(0, c, l);
    let v = palette::hsl_channel(x, c, l) as u8;
    let want = 255 * (60 * (200 * l - c) + 2 * c * d);
    assert(2 * c * d == 2 * (c * d)) by (nonlinear_arith);
    assert(s * m == c) by (nonlinear_arith)
        requires
            c == m * s,
    ;
    let near = 255 * (2 * x + 200 * l - c);
    assert(60 * near <= want <= 60 * near + 255 * 120);
    assert(off(v, near, 20000) <= 20000);
    assert(off(v, want, 1200000) <= 1200000 + 61200);
}

proof fn lemma_percentage(n: int)
    requires
        0 <= n <= 100,
    ensures
        palette::percentage(decimal(n).push(ascii::PERCENT)) == Some(n),
        plain(decimal(n).push(ascii::PERCENT)),
        visible(decimal(n).push(ascii::PERCENT)[0]),
{
    lemma_decimal(n);
    let t = decimal(n).push(ascii::PERCENT);
    assert(text::upto(t, t.len() - 1) =~= decimal(n));
    assert(t[0] == decimal(n)[0]);
}

/// A call of `hsl` gives the color with that hue, saturation and lightness, and a call of `hsla` that
/// color with the given opacity.
pub proof fn law_hsl_channels(
    h: int,
    s: int,
    l: int,
    a: u8,
    args: Seq<Seq<u8>>,
    alpha: Seq<u8>,
)
    requires
        0 <= h <= 360,
        0 <= s <= 100,
        0 <= l <= 100,
        args.len() == 4,
        spaced(args[0], decimal(h)),
        spaced(args[1], decimal(s).push(ascii::PERCENT)),
        spaced(args[2], decimal(l).push(ascii::PERCENT)),
        spaced(args[3], alpha),
        opacity_text(alpha, a),
    ensures
        palette::color(call(seq![0x68u8, 0x73u8, 0x6cu8], args.take(3))) matches Some(c)
            && has_hsl(c, h, s, l) && c.a == 255,
        palette::color(call(seq![0x68u8, 0x73u8, 0x6cu8, 0x61u8], args)) matches Some(c)
            && has_hsl(c, h, s, l) && c.a == a,
{
    let short = seq![0x68u8, 0x73u8, 0x6cu8];
    let long = seq![0x68u8, 0x73u8, 0x6cu8, 0x61u8];
    let first = args.take(3);
    let t = call(short, first);
    let u = call(long, args);
    reveal(palette::color);
    lemma_names();
    lemma_decimal(h);
    lemma_percentage(s);
    lemma_percentage(l);
    lemma_opacity(alpha, a);
    lemma_trim_spaces(args[0], decimal(h));
    lemma_trim_spaces(args[1], decimal(s).push(ascii::PERCENT));
    lemma_trim_spaces(args[2], decimal(l).push(ascii::PERCENT));
    lemma_trim_spaces(args[3], alpha);
    lemma_spaced_plain(args[0], decimal(h));
    lemma_spaced_plain(args[1], decimal(s).push(ascii::PERCENT));
    lemma_spaced_plain(args[2], decimal(l).push(ascii::PERCENT));
    lemma_spaced_plain(args[3], alpha);
    assert forall|k: int| 0 <= k < args.len() implies plain(#[trigger] args[k]) by {}
    assert forall|k: int| 0 <= k < first.len() implies plain(#[trigger] first[k]) by {
        assert(first[k] == args[k]);
    }
    lemma_call(short, first);
    lemma_call(long, args);
    lemma_has_hsl(h, s, l, 255);
    lemma_has_hsl(h, s, l, a as int);
    let cut = first.map_values(|x: Seq<u8>| text::trim(x));
    let all = args.map_values(|x: Seq<u8>| text::trim(x));
    assert(cut[0] == decimal(h) && all[0] == decimal(h));
    assert(cut[1] == decimal(s).push(ascii::PERCENT) && all[1] == cut[1]);
    assert(cut[2] == decimal(l).push(ascii::PERCENT) && all[2] == cut[2]);
    assert(all[3] == alpha);
    assert(short[0] == 0x68 && long[0] == 0x68);
    assert("rgb".spec_bytes()[0] == 0x72 && "rgba".spec_bytes()[0] == 0x72);
    assert("hsl".spec_bytes().len() == 3);
    assert(palette::function_color(t) == palette::hsl_args(cut));
    assert(palette::function_color(u) == palette::hsl_args(all));
}

/// A channel above 255 makes a call of `rgb` no color.
pub proof fn law_rgb_limit(r: int, g: int, b: int, args: Seq<Seq<u8>>)
    requires
        0 <= r <= 999,
        0 <= g <= 999,
        0 <= b <= 999,
        r > 255 || g > 255 || b > 255,
        args.len() == 3,
        spaced(args[0], decimal(r)),
        spaced(args[1], decimal(g)),
        spaced(args[2], decimal(b)),
    ensures
        palette::function_color(call(seq![0x72u8, 0x67u8, 0x62u8], args)) is None,
{
    let name = seq![0x72u8, 0x67u8, 0x62u8];
    lemma_names();
    lemma_decimal(r);
    lemma_decimal(g);
    lemma_decimal(b);
    lemma_trim_spaces(args[0], decimal(r));
    lemma_trim_spaces(args[1], decimal(g));
    lemma_trim_spaces(args[2], decimal(b));
    lemma_spaced_plain(args[0], decimal(r));
    lemma_spaced_plain(args[1], decimal(g));
    lemma_spaced_plain(args[2], decimal(b));
    assert forall|k: int| 0 <= k < args.len() implies plain(#[trigger] args[k]) by {}
    lemma_call(name, args);
    let trimmed = args.map_values(|a: Seq<u8>| text::trim(a));
    assert(trimmed[0] == decimal(r));
    assert(trimmed[1] == decimal(g));
    assert(trimmed[2] == decimal(b));
    assert(palette::function_color(call(name, args)) == palette::rgb_args(trimmed));
}

/// Whether entry `k` of the named colors has the name `t` and the channels of `c`.
pub open spec fn names_color(k: int, t: Seq<u8>, c: Rgba) -> bool {
    &&& catalog::NAMED_COLORS@[k].0.spec_bytes() == t
    &&& catalog::NAMED_COLORS@[k].1 % 0x1000000 == c.r * 0x10000 + c.g * 0x100 + c.b
    &&& c.a == 255
}

proof fn lemma_named(t: Seq<u8>, n: int)
    requires
        0 <= n <= catalog::NAMED_COLORS@.len(),
    ensures
        palette::named_upto(t, n) matches Some(c) ==> exists|k: int|
            0 <= k < n && #[trigger] names_color(k, t, c),
        palette::named_upto(t, n) is None ==> forall|k: int|
            0 <= k < n ==> (#[trigger] catalog::NAMED_COLORS@[k]).0.spec_bytes() != t,
    decreases n,
{
    if n > 0 {
        lemma_named(t, n - 1);
        if catalog::NAMED_COLORS@[n - 1].0.spec_bytes() == t {
            let rgb = catalog::NAMED_COLORS@[n - 1].1 as int;
            let c = palette::named_upto(t, n)->0;
            assert(rgb / 65536 % 256 * 0x10000 + rgb / 256 % 256 * 0x100 + rgb % 256 == rgb
                % 0x1000000);
            assert(names_color(n - 1, t, c));
        }
    }
}

/// A word that is neither `#` and digits nor a call is a color exactly where it is in the table of
/// names, which gives its red, green and blue from the highest byte to the lowest, or where it is one
/// of the two words for no color at all.
pub proof fn law_named_colors(t: Seq<u8>)
    requires
        !text::has(t, 0, ascii::HASH),
        forall|k: int| 0 <= k < t.len() ==> #[trigger] t[k] != ascii::OPEN_PAREN,
    ensures
        t == "transparent".spec_bytes() || t == "alpha".spec_bytes() ==> palette::color(t) == Some(
            Rgba { r: 0, g: 0, b: 0, a: 0 },
        ),
        t != "transparent".spec_bytes() && t != "alpha".spec_bytes() ==> match palette::color(t) {
            Some(c) => exists|k: int|
                0 <= k < catalog::NAMED_COLORS@.len() && #[trigger] names_color(k, t, c),
            None => forall|k: int|
                0 <= k < catalog::NAMED_COLORS@.len() ==> (
                #[trigger] catalog::NAMED_COLORS@[k]).0.spec_bytes() != t,
        },
{
    reveal(palette::color);
    lemma_find_none(t, ascii::OPEN_PAREN, 0);
    lemma_named(t, catalog::NAMED_COLORS@.len() as int);
}

/// Behind `#` stand three, four, six or eight hexadecimal digits, or it is no color.
pub proof fn law_hex_shape(t: Seq<u8>)
    requires
        text::has(t, 0, ascii::HASH),
        palette::hex_color(t) is Some,
    ensures
        t.len() == 4 || t.len() == 5 || t.len() == 7 || t.len() == 9,
        forall|k: int| 1 <= k < t.len() ==> exists|d: int| hex_byte(#[trigger] t[k], d),
{
    assert forall|k: int| 1 <= k < t.len() implies exists|d: int| hex_byte(#[trigger] t[k], d) by {
        let d = palette::hex_digit(t[k])->0;
        assert(palette::hex_digit(t[k]) is Some);
        assert(hex_byte(t[k], d));
    }
}

// ---------------------------------------------------------------------------------------------
// The colors of a document
// ---------------------------------------------------------------------------------------------

/// The colors of a document.
pub open spec fn document(s: Seq<u8>) -> Seq<(ByteSpan, Rgba)> {
    colors::colors_upto(s, syntax::stmts(s), syntax::stmts(s).len() as int)
}

/// Whether a text looks like a color and like nothing else: it starts with `#`, or it is a call.
pub open spec fn color_shape(t: Seq<u8>) -> bool {
    text::has(t, 0, ascii::HASH) || exists|k: int| 0 <= k < t.len() && #[trigger] t[k] == ascii::OPEN_PAREN
}

proof fn lemma_literal(t: Seq<u8>)
    requires
        palette::color(t) is Some,
    ensures
        palette::literal(t) ==> color_shape(t),
        !color_shape(t) ==> !palette::literal(t),
{
    if palette::literal(t) && !text::has(t, 0, ascii::HASH) {
        text::lemma_find_byte(t, ascii::OPEN_PAREN, 0);
        let k = text::find_byte(t, ascii::OPEN_PAREN, 0)->0;
        assert(t[k] == ascii::OPEN_PAREN);
    }
}

/// Whether statement `st` can have a color: a property or a list item whose value is no block.
pub open spec fn takes_color(st: Stmt) -> bool {
    (st.kind == StmtKind::Property || st.kind == StmtKind::ListItem) && st.value is Some && st.body is None
}

/// Whether a color is one of statement `k`: it lies in its value, its text stands for it, and either
/// the text looks like nothing else or it is the whole value of a property that takes a color.
pub open spec fn color_of(s: Seq<u8>, k: int, c: (ByteSpan, Rgba)) -> bool {
    let st = syntax::stmts(s)[k];
    let t = s.subrange(c.0.start as int, c.0.end as int);
    &&& takes_color(st)
    &&& st.value matches Some(v) && v.start <= c.0.start <= c.0.end <= v.end
    &&& palette::color(t) == Some(c.1)
    &&& color_shape(t) || (st.value == Some(c.0) && st.kind == StmtKind::Property
        && schema::member(catalog::COLOR_PROPERTIES@, syntax::cut(s, st.key)))
}

proof fn lemma_color_between(s: Seq<u8>, a: int, b: int, named: bool, c: (ByteSpan, Rgba))
    requires
        0 <= a <= b <= s.len() <= usize::MAX,
        colors::color_between(s, a, b, named).contains(c),
    ensures
        c.0.start == a && c.0.end == b,
        palette::color(s.subrange(a, b)) == Some(c.1),
        named || color_shape(s.subrange(a, b)),
{
    lemma_literal(s.subrange(a, b));
}

proof fn lemma_array_color(s: Seq<u8>, i: int, e: int, c: (ByteSpan, Rgba))
    requires
        valid_utf8(s),
        0 <= i,
        e <= s.len() <= usize::MAX,
        i <= e ==> text::boundary(s, i),
        text::boundary(s, e),
        colors::array_colors(s, i, e).contains(c),
    ensures
        i <= c.0.start <= c.0.end <= e,
        palette::color(s.subrange(c.0.start as int, c.0.end as int)) == Some(c.1),
        color_shape(s.subrange(c.0.start as int, c.0.end as int)),
    decreases e + 1 - i,
{
    if i < e {
        let k = colors::item_end(s, i, e, 0);
        colors::lemma_item_end(s, i, e, 0);
        if k < e {
            text::lemma_ascii_boundary(s, k);
        }
        text::lemma_trim_at(s, i, k);
        let p = text::trim_at(s, i, k);
        let a = colors::color_between(s, p.0, p.1, false);
        let b = colors::array_colors(s, k + 1, e);
        let all = colors::array_colors(s, i, e);
        let x = all.index_of(c);
        if x < a.len() {
            assert(a[x] == c);
            lemma_color_between(s, p.0, p.1, false, c);
        } else {
            assert(b[x - a.len()] == c);
            lemma_array_color(s, k + 1, e, c);
        }
    }
}

proof fn lemma_colors_in(s: Seq<u8>, k: int, c: (ByteSpan, Rgba))
    requires
        valid_utf8(s),
        s.len() <= usize::MAX,
        0 <= k < syntax::stmts(s).len(),
        colors::colors_in(s, syntax::stmts(s)[k]).contains(c),
    ensures
        color_of(s, k, c),
{
    let st = syntax::stmts(s)[k];
    syntax::lemma_stmts(s);
    assert(syntax::stmt_ok(s, st));
    let v = st.value->0;
    if st.kind == StmtKind::Property && s[v.start as int] == ascii::OPEN_BRACKET {
        syntax::lemma_array_value(s, k);
        text::lemma_ascii_boundary(s, v.start as int);
        text::lemma_ascii_boundary(s, v.end - 1);
        lemma_array_color(s, v.start + 1, v.end - 1, c);
    } else {
        lemma_color_between(
            s,
            v.start as int,
            v.end as int,
            st.kind == StmtKind::Property && schema::member(
                catalog::COLOR_PROPERTIES@,
                nodes::key_of(s, st),
            ),
            c,
        );
    }
}

proof fn lemma_colors_upto(s: Seq<u8>, n: int, c: (ByteSpan, Rgba))
    requires
        0 <= n <= syntax::stmts(s).len(),
    ensures
        colors::colors_upto(s, syntax::stmts(s), n).contains(c) <==> exists|k: int|
            0 <= k < n && colors::colors_in(s, #[trigger] syntax::stmts(s)[k]).contains(c),
    decreases n,
{
    if n > 0 {
        lemma_colors_upto(s, n - 1, c);
        let stmts = syntax::stmts(s);
        let a = colors::colors_upto(s, stmts, n - 1);
        let b = colors::colors_in(s, stmts[n - 1]);
        let all = colors::colors_upto(s, stmts, n);
        if a.contains(c) {
            assert(all[a.index_of(c)] == c);
        }
        if b.contains(c) {
            assert(all[a.len() + b.index_of(c)] == c);
        }
        if all.contains(c) {
            let x = all.index_of(c);
            if x < a.len() {
                assert(a[x] == c);
            } else {
                assert(b[x - a.len()] == c);
            }
        }
    }
}

/// Each color of a document lies in the value of a property or a list item and is what its text
/// stands for. A name counts only as the value of a property that takes a color.
pub proof fn law_document_colors_are_texts(s: Seq<u8>, i: int)
    requires
        valid_utf8(s),
        s.len() <= usize::MAX,
        0 <= i < document(s).len(),
    ensures
        exists|k: int| 0 <= k < syntax::stmts(s).len() && #[trigger] color_of(s, k, document(s)[i]),
{
    let c = document(s)[i];
    let n = syntax::stmts(s).len() as int;
    assert(document(s).contains(c));
    lemma_colors_upto(s, n, c);
    let k = choose|k: int|
        0 <= k < n && colors::colors_in(s, #[trigger] syntax::stmts(s)[k]).contains(c);
    lemma_colors_in(s, k, c);
}

/// A value that is a color as a whole is listed with it, in every statement: where it looks like
/// nothing else, or where the property takes a color.
pub proof fn law_color_values_are_listed(s: Seq<u8>, k: int, v: ByteSpan, c: Rgba)
    requires
        valid_utf8(s),
        s.len() <= usize::MAX,
        0 <= k < syntax::stmts(s).len(),
        takes_color(syntax::stmts(s)[k]),
        syntax::stmts(s)[k].value == Some(v),
        s[v.start as int] != ascii::OPEN_BRACKET,
        palette::color(s.subrange(v.start as int, v.end as int)) == Some(c),
        palette::hex_color(s.subrange(v.start as int, v.end as int)) is Some
            || palette::function_color(s.subrange(v.start as int, v.end as int)) is Some || (
        syntax::stmts(s)[k].kind == StmtKind::Property && schema::member(
            catalog::COLOR_PROPERTIES@,
            syntax::cut(s, syntax::stmts(s)[k].key),
        )),
    ensures
        document(s).contains((v, c)),
{
    let st = syntax::stmts(s)[k];
    syntax::lemma_stmts(s);
    assert(syntax::stmt_ok(s, st));
    let all = colors::colors_in(s, st);
    assert(all[0] == (v, c));
    assert(all.contains((v, c)));
    lemma_colors_upto(s, syntax::stmts(s).len() as int, (v, c));
}

/// Whether the bytes from `a` to `b` are an item of the array between `i` and `e`: commas or the ends
/// of the array enclose it.
pub open spec fn array_item(s: Seq<u8>, i: int, e: int, a: int, b: int) -> bool {
    &&& i <= a <= b <= e
    &&& a == i || s[a - 1] == ascii::COMMA
    &&& b == e || s[b] == ascii::COMMA
    &&& forall|j: int| a <= j < b ==> #[trigger] s[j] != ascii::COMMA
}

/// Whether there is no parenthesis between two offsets.
pub open spec fn no_parens(s: Seq<u8>, i: int, e: int) -> bool {
    forall|j: int|
        i <= j < e ==> #[trigger] s[j] != ascii::OPEN_PAREN && s[j] != ascii::CLOSE_PAREN
}

/// The first item of an array ends at the first comma.
pub proof fn lemma_first_item(s: Seq<u8>, i: int, e: int, b: int)
    requires
        0 <= i <= b <= e <= s.len(),
        no_parens(s, i, e),
        b == e || s[b] == ascii::COMMA,
        forall|j: int| i <= j < b ==> #[trigger] s[j] != ascii::COMMA,
    ensures
        colors::item_end(s, i, e, 0) == b,
    decreases b - i,
{
    if i < b {
        lemma_first_item(s, i + 1, e, b);
    }
}

proof fn lemma_item_listed(s: Seq<u8>, i: int, e: int, a: int, b: int)
    requires
        0 <= i <= e <= s.len(),
        no_parens(s, i, e),
        array_item(s, i, e, a, b),
        a < b,
    ensures
        ({
            let p = text::trim_at(s, a, b);
            forall|c: (ByteSpan, Rgba)| #[trigger]
                colors::color_between(s, p.0, p.1, false).contains(c) ==> colors::array_colors(
                    s,
                    i,
                    e,
                ).contains(c)
        }),
    decreases e - i,
{
    let p = text::trim_at(s, a, b);
    let k = colors::item_end(s, i, e, 0);
    let q = text::trim_at(s, i, k);
    let first = colors::color_between(s, q.0, q.1, false);
    let rest = colors::array_colors(s, k + 1, e);
    let all = colors::array_colors(s, i, e);
    colors::lemma_item_end(s, i, e, 0);
    assert(all == first + rest);
    if a == i {
        lemma_first_item(s, i, e, b);
        assert forall|c: (ByteSpan, Rgba)| #[trigger]
            colors::color_between(s, p.0, p.1, false).contains(c) implies all.contains(c) by {
            assert(all[first.index_of(c)] == c);
        }
    } else {
        lemma_first_comma(s, i, e, a - 1);
        lemma_item_listed(s, k + 1, e, a, b);
        assert forall|c: (ByteSpan, Rgba)| #[trigger]
            colors::color_between(s, p.0, p.1, false).contains(c) implies all.contains(c) by {
            assert(rest.contains(c));
            assert(all[first.len() + rest.index_of(c)] == c);
        }
    }
}

/// The first item of an array ends at or before any comma in it.
pub proof fn lemma_first_comma(s: Seq<u8>, i: int, e: int, m: int)
    requires
        0 <= i <= m < e <= s.len(),
        no_parens(s, i, e),
        s[m] == ascii::COMMA,
    ensures
        i <= colors::item_end(s, i, e, 0) <= m,
    decreases m - i,
{
    if s[i] != ascii::COMMA {
        lemma_first_comma(s, i + 1, e, m);
    }
}

/// Each item of an array that is written in hexadecimal digits is listed with its color.
pub proof fn law_color_items_are_listed(s: Seq<u8>, k: int, v: ByteSpan, a: int, b: int, c: Rgba)
    requires
        valid_utf8(s),
        s.len() <= usize::MAX,
        0 <= k < syntax::stmts(s).len(),
        syntax::stmts(s)[k].kind == StmtKind::Property,
        syntax::stmts(s)[k].body is None,
        syntax::stmts(s)[k].value == Some(v),
        s[v.start as int] == ascii::OPEN_BRACKET,
        no_parens(s, v.start as int, v.end as int),
        a < b,
        array_item(s, v.start + 1, v.end - 1, a, b),
        palette::hex_color(text::trim(s.subrange(a, b))) == Some(c),
    ensures
        ({
            let p = text::trim_at(s, a, b);
            document(s).contains((syntax::span(p.0, p.1), c))
        }),
{
    let st = syntax::stmts(s)[k];
    let p = text::trim_at(s, a, b);
    let entry = (syntax::span(p.0, p.1), c);
    syntax::lemma_stmts(s);
    assert(syntax::stmt_ok(s, st));
    syntax::lemma_array_value(s, k);
    lemma_item_listed(s, v.start + 1, v.end - 1, a, b);
    reveal(palette::color);
    lemma_item_boundaries(s, v, a, b);
    text::lemma_trim_at(s, a, b);
    let found = colors::color_between(s, p.0, p.1, false);
    assert(found[0] == entry);
    assert(found.contains(entry));
    assert(colors::colors_in(s, st).contains(entry));
    lemma_colors_upto(s, syntax::stmts(s).len() as int, entry);
}

/// An item of an array starts and ends at a boundary.
pub proof fn lemma_item_boundaries(s: Seq<u8>, v: ByteSpan, a: int, b: int)
    requires
        valid_utf8(s),
        v.start < v.end - 1 < s.len(),
        s[v.start as int] == ascii::OPEN_BRACKET,
        s[v.end - 1] == ascii::CLOSE_BRACKET,
        array_item(s, v.start + 1, v.end - 1, a, b),
    ensures
        text::boundary(s, a),
        text::boundary(s, b),
{
    text::lemma_ascii_boundary(s, v.start as int);
    text::lemma_ascii_boundary(s, v.end - 1);
    text::lemma_ascii_boundary(s, a - 1);
    if b < v.end - 1 {
        text::lemma_ascii_boundary(s, b);
    }
}

// ---------------------------------------------------------------------------------------------
// Borders
// ---------------------------------------------------------------------------------------------

/// Whether a text is one word: not empty, and without a space and a parenthesis.
pub open spec fn one_word(t: Seq<u8>) -> bool {
    t.len() > 0 && forall|k: int|
        0 <= k < t.len() ==> #[trigger] t[k] != 0x20 && t[k] != 0x28 && t[k] != 0x29
}

/// Whether a text is a width: up to three digits, perhaps with `px` behind them.
pub open spec fn width_text(t: Seq<u8>) -> bool {
    ||| 1 <= t.len() <= 3 && all_digits(t)
    ||| 3 <= t.len() <= 5 && all_digits(t.subrange(0, t.len() - 2)) && t[t.len() - 2] == 0x70
        && t[t.len() - 1] == 0x78
}

proof fn lemma_word_end(t: Seq<u8>, i: int, e: int)
    requires
        0 <= i <= e <= t.len(),
        e == t.len() || t[e] == 0x20,
        forall|k: int| i <= k < e ==> #[trigger] t[k] != 0x20 && t[k] != 0x28 && t[k] != 0x29,
    ensures
        palette::word_end(t, i, 0) == e,
    decreases e - i,
{
    if i < e {
        lemma_word_end(t, i + 1, e);
    }
}

proof fn lemma_two_words(a: Seq<u8>, b: Seq<u8>)
    requires
        one_word(a),
        one_word(b),
    ensures
        palette::words(a + seq![0x20u8] + b, 0) == seq![a, b],
{
    let t = a + seq![0x20u8] + b;
    let n = a.len() as int;
    assert forall|k: int| 0 <= k < n implies #[trigger] t[k] != 0x20 && t[k] != 0x28 && t[k]
        != 0x29 by {
        assert(t[k] == a[k]);
    }
    assert forall|k: int| n < k < t.len() implies #[trigger] t[k] != 0x20 && t[k] != 0x28 && t[k]
        != 0x29 by {
        assert(t[k] == b[k - n - 1]);
    }
    assert(t[n] == 0x20);
    lemma_word_end(t, 0, n);
    lemma_word_end(t, n + 1, t.len() as int);
    reveal_with_fuel(palette::words, 4);
    assert(t.subrange(0, n) =~= a);
    assert(t.subrange(n + 1, t.len() as int) =~= b);
    assert(palette::words(t, n + 1) =~= seq![b]);
    assert(palette::words(t, n) == palette::words(t, n + 1));
    assert(palette::words(t, 0) =~= seq![a, b]);
}

proof fn lemma_width(t: Seq<u8>)
    requires
        width_text(t),
    ensures
        palette::border_width(t),
{
    reveal_with_fuel(palette::digits, 4);
    reveal_strlit("px");
    is_ascii_chars_encode_utf8("px"@);
    let px = "px".spec_bytes();
    assert(px.len() == 2 && px[0] == 0x70 && px[1] == 0x78);
    if !(1 <= t.len() <= 3 && all_digits(t)) {
        let n = t.len() - 2;
        let front = t.subrange(0, n);
        assert(t.subrange(n, t.len() as int) =~= px);
        assert(text::upto(t, n) == front);
        assert(palette::number(front) is Some);
    } else {
        assert(palette::number(t) is Some);
    }
}

/// A width and a color are a border, in either order; and so are the two words for no border.
pub proof fn law_borders(width: Seq<u8>, color: Seq<u8>)
    requires
        one_word(width),
        width_text(width),
        one_word(color),
        palette::color(color) is Some,
    ensures
        palette::border(width + seq![0x20u8] + color),
        palette::border(color + seq![0x20u8] + width),
        palette::border("none".spec_bytes()),
        palette::border("hidden".spec_bytes()),
{
    reveal(palette::border);
    lemma_two_words(width, color);
    lemma_two_words(color, width);
    lemma_width(width);
    let a = seq![width, color];
    let b = seq![color, width];
    assert(palette::border_width(a[0]) && palette::color(a[1]) is Some);
    assert(palette::border_width(b[1]) && palette::color(b[0]) is Some);
}

/// One word alone is no border, unless it is one of the two words for none, or a width and a color at
/// once.
pub proof fn law_single_words_are_no_borders(t: Seq<u8>)
    requires
        one_word(t),
        t != "none".spec_bytes(),
        t != "hidden".spec_bytes(),
        palette::border(t),
    ensures
        palette::border_width(t) && palette::color(t) is Some,
{
    reveal(palette::border);
    lemma_word_end(t, 0, t.len() as int);
    reveal_with_fuel(palette::words, 3);
    assert(t.subrange(0, t.len() as int) =~= t);
    let all = palette::words(t, 0);
    assert(all =~= seq![t]);
}

} // verus!
