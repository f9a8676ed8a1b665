//! Text as UTF-8 bytes: searching, trimming and cutting strings at byte offsets.
//!
//! Every offset in this crate is a byte offset, so the contracts speak of a string through its
//! UTF-8 bytes (`spec_bytes`). A cut is legal only at a character boundary; the lemmas here show
//! that the places where the scanners cut, next to ASCII bytes and white space, are boundaries.

use crate::ascii;
use vstd::prelude::*;
use vstd::string::*;
use vstd::utf8::*;

verus! {

/// The UTF-8 bytes of a character sequence.
pub open spec fn bytes_of(chars: Seq<char>) -> Seq<u8> {
    encode_utf8(chars)
}

/// The characters that a byte sequence spells.
pub open spec fn chars_of(bytes: Seq<u8>) -> Seq<char> {
    decode_utf8(bytes)
}

/// Whether a character starts at offset `i` of `s`, or `s` ends there.
pub open spec fn boundary(s: Seq<u8>, i: int) -> bool {
    0 <= i <= s.len() && (i == s.len() || !is_continuation_byte(s[i]))
}

/// Whether byte `c` stands at offset `i` of `s`.
pub open spec fn has(s: Seq<u8>, i: int, c: u8) -> bool {
    0 <= i < s.len() && s[i] == c
}

/// Whether `pat` occurs at offset `i` of `s`.
pub open spec fn occurs(s: Seq<u8>, i: int, pat: Seq<u8>) -> bool {
    0 <= i && i + pat.len() <= s.len() && s.subrange(i, i + pat.len()) == pat
}

/// The first offset at or after `i` where `pat` occurs in `s`.
pub open spec fn find(s: Seq<u8>, pat: Seq<u8>, i: int) -> Option<int>
    decreases s.len() + 1 - i,
{
    if i < 0 || i > s.len() {
        None
    } else if occurs(s, i, pat) {
        Some(i)
    } else {
        find(s, pat, i + 1)
    }
}

/// The first offset at or after `i` where byte `c` stands in `s`.
pub open spec fn find_byte(s: Seq<u8>, c: u8, i: int) -> Option<int>
    decreases s.len() - i,
{
    if i < 0 || i >= s.len() {
        None
    } else if s[i] == c {
        Some(i)
    } else {
        find_byte(s, c, i + 1)
    }
}

/// Where the line of offset `i` ends.
pub open spec fn line_end(s: Seq<u8>, i: int) -> int {
    match find_byte(s, ascii::NEWLINE, i) {
        Some(k) => k,
        None => s.len() as int,
    }
}

/// The last offset before `j` where byte `c` stands in `s`.
pub open spec fn rfind_byte(s: Seq<u8>, c: u8, j: int) -> Option<int>
    decreases j,
{
    if j <= 0 || j > s.len() {
        None
    } else if s[j - 1] == c {
        Some(j - 1)
    } else {
        rfind_byte(s, c, j - 1)
    }
}

/// The start of the line that holds `offset`.
pub open spec fn line_start(s: Seq<u8>, offset: int) -> int {
    match rfind_byte(s, ascii::NEWLINE, offset) {
        Some(k) => k + 1,
        None => 0,
    }
}

/// The part of `s` from offset `i` on.
pub open spec fn from(s: Seq<u8>, i: int) -> Seq<u8> {
    s.subrange(i, s.len() as int)
}

/// The part of `s` before offset `i`.
pub open spec fn upto(s: Seq<u8>, i: int) -> Seq<u8> {
    s.subrange(0, i)
}

/// The byte length of the white-space character (Unicode `White_Space`) at offset `i` of `s`, or 0
/// when the character there is none.
pub open spec fn ws_len(s: Seq<u8>, i: int) -> int {
    if !(0 <= i < s.len()) {
        0
    } else if 0x09 <= s[i] <= 0x0d || s[i] == 0x20 {
        1
    } else if s[i] == 0xc2 && (has(s, i + 1, 0x85) || has(s, i + 1, 0xa0)) {
        2
    } else if s[i] == 0xe1 && has(s, i + 1, 0x9a) && has(s, i + 2, 0x80) {
        3
    } else if s[i] == 0xe2 && has(s, i + 1, 0x80) && i + 2 < s.len() && (0x80 <= s[i + 2] <= 0x8a
        || s[i + 2] == 0xa8 || s[i + 2] == 0xa9 || s[i + 2] == 0xaf) {
        3
    } else if s[i] == 0xe2 && has(s, i + 1, 0x81) && has(s, i + 2, 0x9f) {
        3
    } else if s[i] == 0xe3 && has(s, i + 1, 0x80) && has(s, i + 2, 0x80) {
        3
    } else {
        0
    }
}

/// The byte length of the white-space character that ends at offset `j` of `s`, or 0 when the
/// character before `j` is none.
pub open spec fn ws_len_before(s: Seq<u8>, j: int) -> int {
    if ws_len(s, j - 1) == 1 {
        1
    } else if ws_len(s, j - 2) == 2 {
        2
    } else if ws_len(s, j - 3) == 3 {
        3
    } else {
        0
    }
}

/// The first offset at or after `i` that holds no white space.
pub open spec fn skip_ws(s: Seq<u8>, i: int) -> int
    decreases s.len() - i,
{
    if ws_len(s, i) > 0 {
        skip_ws(s, i + ws_len(s, i))
    } else {
        i
    }
}

/// The last offset at or before `j` that no white space precedes.
pub open spec fn skip_ws_back(s: Seq<u8>, j: int) -> int
    decreases j,
{
    if j > 0 && ws_len_before(s, j) > 0 {
        skip_ws_back(s, j - ws_len_before(s, j))
    } else {
        j
    }
}

/// `s` without the white space in front.
pub open spec fn trim_start(s: Seq<u8>) -> Seq<u8> {
    from(s, skip_ws(s, 0))
}

/// `s` without the white space at its end.
pub open spec fn trim_end(s: Seq<u8>) -> Seq<u8> {
    upto(s, skip_ws_back(s, s.len() as int))
}

/// `s` without the white space on either side.
pub open spec fn trim(s: Seq<u8>) -> Seq<u8> {
    trim_end(trim_start(s))
}

/// Where in `s` the part between `a` and `b` lies that is left when white space is cut off on either
/// side.
pub open spec fn trim_at(s: Seq<u8>, a: int, b: int) -> (int, int) {
    let part = s.subrange(a, b);
    let start = a + skip_ws(part, 0);
    (start, start + trim(part).len())
}

/// A boundary in the sense of this module is one in the sense of vstd.
pub proof fn lemma_boundary(s: Seq<u8>, i: int)
    requires
        valid_utf8(s),
        boundary(s, i),
    ensures
        is_char_boundary(s, i),
        valid_utf8(from(s, i)),
        valid_utf8(upto(s, i)),
{
    if i == s.len() {
        is_char_boundary_start_end_of_seq(s);
    } else {
        is_char_boundary_iff_not_is_continuation_byte(s, i);
    }
    valid_utf8_split(s, i);
}

/// A boundary follows the character that starts at a boundary.
proof fn lemma_boundary_step(s: Seq<u8>, i: int, width: int)
    requires
        valid_utf8(s),
        boundary(s, i),
        i < s.len(),
        width == length_of_first_scalar(from(s, i)),
    ensures
        boundary(s, i + width),
{
    lemma_boundary(s, i);
    let rest = from(s, i);
    assert(rest[0] == s[i]);
    let tail = pop_first_scalar(rest);
    assert(valid_utf8(tail));
    if i + width < s.len() {
        assert(tail[0] == s[i + width]);
        assert(valid_first_scalar(tail));
    }
}

/// An ASCII byte is a whole character: it starts at a boundary and a boundary follows it.
pub proof fn lemma_ascii_boundary(s: Seq<u8>, i: int)
    requires
        valid_utf8(s),
        0 <= i < s.len(),
        s[i] < 0x80,
    ensures
        boundary(s, i),
        boundary(s, i + 1),
{
    assert(from(s, i)[0] == s[i]);
    assert(is_leading_byte_width_1(s[i]));
    lemma_boundary_step(s, i, 1);
}

/// The two ends of a string are boundaries.
pub proof fn lemma_ends_boundary(s: Seq<u8>)
    requires
        valid_utf8(s),
    ensures
        boundary(s, 0),
        boundary(s, s.len() as int),
{
    if s.len() > 0 {
        assert(valid_first_scalar(s));
    }
}

/// A line starts at a boundary.
pub proof fn lemma_line_start(s: Seq<u8>, offset: int)
    requires
        valid_utf8(s),
        0 <= offset <= s.len(),
    ensures
        0 <= line_start(s, offset) <= offset,
        boundary(s, line_start(s, offset)),
    decreases offset,
{
    lemma_ends_boundary(s);
    if offset > 0 {
        if s[offset - 1] == ascii::NEWLINE {
            lemma_ascii_boundary(s, offset - 1);
        } else {
            lemma_line_start(s, offset - 1);
        }
    }
}

/// White space is a whole character.
pub proof fn lemma_ws_boundary(s: Seq<u8>, i: int)
    requires
        valid_utf8(s),
        ws_len(s, i) > 0,
    ensures
        boundary(s, i),
        boundary(s, i + ws_len(s, i)),
{
    assert(from(s, i)[0] == s[i]);
    lemma_boundary_step(s, i, ws_len(s, i));
}

/// White space that ends at `j` is a whole character.
pub proof fn lemma_ws_before_boundary(s: Seq<u8>, j: int)
    requires
        valid_utf8(s),
        ws_len_before(s, j) > 0,
    ensures
        boundary(s, j - ws_len_before(s, j)),
        boundary(s, j),
{
    lemma_ws_boundary(s, j - ws_len_before(s, j));
}

/// Skipping white space stays in the string and ends at a boundary.
pub proof fn lemma_skip_ws(s: Seq<u8>, i: int)
    requires
        valid_utf8(s),
        boundary(s, i),
    ensures
        i <= skip_ws(s, i) <= s.len(),
        boundary(s, skip_ws(s, i)),
        ws_len(s, skip_ws(s, i)) == 0,
    decreases s.len() - i,
{
    if ws_len(s, i) > 0 {
        lemma_ws_boundary(s, i);
        lemma_skip_ws(s, i + ws_len(s, i));
    }
}

/// Skipping white space backwards stays in the string and ends at a boundary.
pub proof fn lemma_skip_ws_back(s: Seq<u8>, j: int)
    requires
        valid_utf8(s),
        boundary(s, j),
    ensures
        0 <= skip_ws_back(s, j) <= j,
        boundary(s, skip_ws_back(s, j)),
    decreases j,
{
    if j > 0 && ws_len_before(s, j) > 0 {
        let k = ws_len_before(s, j);
        lemma_ws_boundary(s, j - k);
        lemma_skip_ws_back(s, j - k);
    }
}

/// The text between two boundaries is valid, and its boundaries are those of the whole.
pub proof fn lemma_part(s: Seq<u8>, a: int, b: int)
    requires
        valid_utf8(s),
        a <= b,
        boundary(s, a),
        boundary(s, b),
    ensures
        valid_utf8(s.subrange(a, b)),
        forall|i: int|
            #![trigger boundary(s.subrange(a, b), i)]
            #![trigger boundary(s, a + i)]
            boundary(s.subrange(a, b), i) ==> boundary(s, a + i),
{
    lemma_boundary(s, b);
    let front = upto(s, b);
    assert(boundary(front, a));
    lemma_boundary(front, a);
    assert(from(front, a) =~= s.subrange(a, b));
    let part = s.subrange(a, b);
    assert forall|i: int| boundary(part, i) implies #[trigger] boundary(s, a + i) by {
        if i < part.len() {
            assert(part[i] == s[a + i]);
        }
    }
}

/// Cutting white space off stays between the ends, at boundaries.
pub proof fn lemma_trim_at(s: Seq<u8>, a: int, b: int)
    requires
        valid_utf8(s),
        a <= b,
        boundary(s, a),
        boundary(s, b),
    ensures
        a <= trim_at(s, a, b).0 <= trim_at(s, a, b).1 <= b,
        boundary(s, trim_at(s, a, b).0),
        boundary(s, trim_at(s, a, b).1),
        s.subrange(trim_at(s, a, b).0, trim_at(s, a, b).1) == trim(s.subrange(a, b)),
{
    lemma_part(s, a, b);
    let part = s.subrange(a, b);
    lemma_ends_boundary(part);
    lemma_skip_ws(part, 0);
    let k = skip_ws(part, 0);
    lemma_boundary(part, k);
    let rest = trim_start(part);
    lemma_ends_boundary(rest);
    lemma_skip_ws_back(rest, rest.len() as int);
    let n = skip_ws_back(rest, rest.len() as int);
    assert(boundary(part, k + n)) by {
        if n < rest.len() {
            assert(rest[n] == part[k + n]);
        }
    }
    assert(boundary(s, a + k));
    assert(boundary(s, a + (k + n)));
    assert(s.subrange(a + k, a + k + n) =~= trim(part));
}

/// A match that `find` reports lies in the string, at or after the start of the search.
pub proof fn lemma_find(s: Seq<u8>, pat: Seq<u8>, i: int)
    requires
        0 <= i,
    ensures
        find(s, pat, i) matches Some(k) ==> i <= k && occurs(s, k, pat) && (forall|j: int|
            i <= j < k ==> !#[trigger] occurs(s, j, pat)),
        find(s, pat, i) is None ==> forall|j: int| i <= j ==> !#[trigger] occurs(s, j, pat),
    decreases s.len() + 1 - i,
{
    if i <= s.len() && !occurs(s, i, pat) {
        lemma_find(s, pat, i + 1);
    }
}

/// Skipping white space never goes back.
pub proof fn lemma_skip_ws_grows(s: Seq<u8>, i: int)
    ensures
        i <= skip_ws(s, i),
    decreases s.len() - i,
{
    if ws_len(s, i) > 0 {
        lemma_skip_ws_grows(s, i + ws_len(s, i));
    }
}

/// White space at the end reaches back no further than to a character that is none.
pub proof fn lemma_skip_ws_back_stays(s: Seq<u8>, a: int, j: int)
    requires
        boundary(s, a),
        a < j <= s.len(),
        ws_len(s, a) == 0,
    ensures
        a < skip_ws_back(s, j) <= j,
    decreases j,
{
    if ws_len_before(s, j) > 0 {
        lemma_skip_ws_back_stays(s, a, j - ws_len_before(s, j));
    }
}

/// What `find_byte` reports lies in the string, at or after the start of the search.
pub proof fn lemma_find_byte(s: Seq<u8>, c: u8, i: int)
    requires
        0 <= i,
    ensures
        find_byte(s, c, i) matches Some(k) ==> i <= k < s.len() && s[k] == c && (forall|j: int|
            i <= j < k ==> #[trigger] s[j] != c),
        find_byte(s, c, i) is None ==> forall|j: int| i <= j < s.len() ==> #[trigger] s[j] != c,
    decreases s.len() - i,
{
    if i < s.len() && s[i] != c {
        lemma_find_byte(s, c, i + 1);
    }
}

/// Strings with the same bytes are the same.
pub proof fn lemma_bytes_injective(a: Seq<char>, b: Seq<char>)
    ensures
        (bytes_of(a) == bytes_of(b)) == (a == b),
{
    encode_utf8_decode_utf8(a);
    encode_utf8_decode_utf8(b);
}

/// The bytes of two strings in a row are those of the first and then those of the second.
pub proof fn lemma_bytes_concat(a: Seq<char>, b: Seq<char>)
    ensures
        bytes_of(a + b) == bytes_of(a) + bytes_of(b),
    decreases a.len(),
{
    if a.len() == 0 {
        assert(a + b =~= b);
        assert(bytes_of(a) + bytes_of(b) =~= bytes_of(b));
    } else {
        lemma_bytes_concat(a.drop_first(), b);
        assert((a + b).drop_first() =~= a.drop_first() + b);
        assert(bytes_of(a + b) =~= bytes_of(a) + bytes_of(b));
    }
}

/// The bytes of a string are valid UTF-8.
pub proof fn lemma_valid(s: &str)
    ensures
        valid_utf8(s.spec_bytes()),
{
    encode_utf8_valid_utf8(s@);
}

/// Whether `a` and `b` hold the same bytes.
pub fn same_bytes(a: &[u8], b: &[u8]) -> (r: bool)
    ensures
        r == (a@ == b@),
{
    if a.len() != b.len() {
        return false;
    }
    let mut k: usize = 0;
    while k < a.len()
        invariant
            a@.len() == b@.len(),
            k <= a@.len(),
            forall|j: int| 0 <= j < k ==> a@[j] == #[trigger] b@[j],
        decreases a@.len() - k,
    {
        if a[k] != b[k] {
            return false;
        }
        k += 1;
    }
    assert(a@ =~= b@);
    true
}

/// Whether `a` and `b` are the same text.
pub fn same_str(a: &str, b: &str) -> (r: bool)
    ensures
        r == (a@ == b@),
        r == (a.spec_bytes() == b.spec_bytes()),
{
    proof {
        lemma_bytes_injective(a@, b@);
    }
    same_bytes(a.as_bytes(), b.as_bytes())
}

/// Whether `pat` occurs at offset `i` of `s`.
pub fn occurs_at(s: &[u8], i: usize, pat: &[u8]) -> (r: bool)
    ensures
        r == occurs(s@, i as int, pat@),
{
    let n: usize = s.len();
    if i > n || pat.len() > n - i {
        return false;
    }
    let mut k: usize = 0;
    while k < pat.len()
        invariant
            n == s@.len(),
            i + pat@.len() <= n,
            k <= pat@.len(),
            forall|j: int| 0 <= j < k ==> s@[i + j] == #[trigger] pat@[j],
        decreases pat@.len() - k,
    {
        if s[i + k] != pat[k] {
            proof {
                assert(s@.subrange(i as int, i + pat@.len())[k as int] == s@[i + k]);
            }
            return false;
        }
        k += 1;
    }
    proof {
        assert(s@.subrange(i as int, i + pat@.len()) =~= pat@);
    }
    true
}

/// The first offset at or after `i` where `pat` occurs in `s`.
pub fn find_at(s: &[u8], pat: &[u8], i: usize) -> (r: Option<usize>)
    ensures
        match r {
            Some(k) => find(s@, pat@, i as int) == Some(k as int),
            None => find(s@, pat@, i as int) is None,
        },
        r matches Some(k) ==> i <= k && occurs(s@, k as int, pat@),
{
    let n: usize = s.len();
    let mut k: usize = i;
    while k <= n
        invariant
            n == s@.len(),
            i <= k,
            find(s@, pat@, k as int) == find(s@, pat@, i as int),
        decreases n + 1 - k,
    {
        if occurs_at(s, k, pat) {
            return Some(k);
        }
        if k == n {
            assert(find(s@, pat@, n + 1) is None);
            return None;
        }
        k += 1;
    }
    None
}

/// The first offset at or after `i` where byte `c` stands in `s`.
pub fn find_byte_at(s: &[u8], c: u8, i: usize) -> (r: Option<usize>)
    ensures
        match r {
            Some(k) => find_byte(s@, c, i as int) == Some(k as int),
            None => find_byte(s@, c, i as int) is None,
        },
        r matches Some(k) ==> i <= k < s@.len() && s@[k as int] == c && (forall|j: int|
            i <= j < k ==> #[trigger] s@[j] != c),
{
    let n: usize = s.len();
    let mut k: usize = i;
    while k < n
        invariant
            n == s@.len(),
            i <= k,
            find_byte(s@, c, k as int) == find_byte(s@, c, i as int),
            forall|j: int| i <= j < k && j < n ==> #[trigger] s@[j] != c,
        decreases n - k,
    {
        if s[k] == c {
            return Some(k);
        }
        k += 1;
    }
    None
}

/// Whether byte `c` stands at offset `i` of `s`.
pub fn has_at(s: &[u8], i: usize, c: u8) -> (r: bool)
    ensures
        r == has(s@, i as int, c),
{
    i < s.len() && s[i] == c
}

/// The length of the white-space character at offset `i` of `s`, or 0.
pub fn ws_len_at(s: &[u8], i: usize) -> (r: usize)
    ensures
        r == ws_len(s@, i as int),
        i + r <= s@.len() || r == 0,
{
    let n: usize = s.len();
    if i >= n {
        return 0;
    }
    let c: u8 = s[i];
    if (0x09 <= c && c <= 0x0d) || c == 0x20 {
        return 1;
    }
    if n - i < 2 {
        return 0;
    }
    let d: u8 = s[i + 1];
    if c == 0xc2 && (d == 0x85 || d == 0xa0) {
        return 2;
    }
    if n - i < 3 {
        return 0;
    }
    let e: u8 = s[i + 2];
    if (c == 0xe1 && d == 0x9a && e == 0x80) || (c == 0xe2 && d == 0x80 && ((0x80 <= e && e
        <= 0x8a) || e == 0xa8 || e == 0xa9 || e == 0xaf)) || (c == 0xe2 && d == 0x81 && e == 0x9f)
        || (c == 0xe3 && d == 0x80 && e == 0x80) {
        3
    } else {
        0
    }
}

/// The first offset at or after `i` that holds no white space.
pub fn skip_ws_at(s: &[u8], i: usize) -> (r: usize)
    requires
        i <= s@.len(),
    ensures
        r == skip_ws(s@, i as int),
        i <= r <= s@.len(),
        ws_len(s@, r as int) == 0,
{
    let n: usize = s.len();
    let mut k: usize = i;
    loop
        invariant
            n == s@.len(),
            i <= k <= n,
            skip_ws(s@, k as int) == skip_ws(s@, i as int),
        ensures
            ws_len(s@, k as int) == 0,
        decreases s@.len() - k,
    {
        let w: usize = ws_len_at(s, k);
        if w == 0 {
            break;
        }
        k += w;
    }
    k
}

/// The last offset at or before `j` that no white space precedes.
pub fn skip_ws_back_at(s: &[u8], j: usize) -> (r: usize)
    requires
        j <= s@.len(),
    ensures
        r == skip_ws_back(s@, j as int),
        r <= j,
{
    let mut k: usize = j;
    loop
        invariant
            k <= j <= s@.len(),
            skip_ws_back(s@, k as int) == skip_ws_back(s@, j as int),
        ensures
            skip_ws_back(s@, k as int) == k,
        decreases k,
    {
        if k >= 1 && ws_len_at(s, k - 1) == 1 {
            k -= 1;
        } else if k >= 2 && ws_len_at(s, k - 2) == 2 {
            k -= 2;
        } else if k >= 3 && ws_len_at(s, k - 3) == 3 {
            k -= 3;
        } else {
            break;
        }
    }
    k
}

/// Adds `s` at the end of `out`.
pub fn put(out: &mut String, s: &str)
    ensures
        final(out)@ == old(out)@ + s@,
        bytes_of(final(out)@) == bytes_of(old(out)@) + s.spec_bytes(),
{
    proof {
        lemma_bytes_concat(out@, s@);
    }
    out.append(s);
}

/// The start of the line that holds `offset`.
pub fn line_start_of(source: &str, offset: usize) -> (r: usize)
    requires
        offset <= source.spec_bytes().len(),
    ensures
        r == line_start(source.spec_bytes(), offset as int),
        r <= offset,
{
    let b = source.as_bytes();
    let mut i: usize = offset;
    while i > 0
        invariant
            b@ == source.spec_bytes(),
            i <= offset <= b@.len(),
            rfind_byte(b@, ascii::NEWLINE, i as int) == rfind_byte(b@, ascii::NEWLINE, offset as int),
        decreases i,
    {
        if b[i - 1] == ascii::NEWLINE {
            return i;
        }
        i -= 1;
    }
    0
}

/// Whether offset `i` of `s` is a boundary.
pub fn is_boundary(s: &str, i: usize) -> (r: bool)
    ensures
        r == boundary(s.spec_bytes(), i as int),
{
    let b = s.as_bytes();
    i == b.len() || (i < b.len() && !(0x80 <= b[i] && b[i] <= 0xbf))
}

/// The text of `s` between two boundaries.
pub fn substr<'a>(s: &'a str, a: usize, b: usize) -> (r: &'a str)
    requires
        a <= b,
        boundary(s.spec_bytes(), a as int),
        boundary(s.spec_bytes(), b as int),
    ensures
        r.spec_bytes() == s.spec_bytes().subrange(a as int, b as int),
        r@ == chars_of(s.spec_bytes().subrange(a as int, b as int)),
{
    proof {
        lemma_valid(s);
        lemma_boundary(s.spec_bytes(), b as int);
    }
    let (left, _rest) = s.split_at(b);
    proof {
        lemma_valid(left);
        assert(boundary(left.spec_bytes(), a as int));
        lemma_boundary(left.spec_bytes(), a as int);
    }
    let (_front, mid) = left.split_at(a);
    proof {
        assert(mid.spec_bytes() =~= s.spec_bytes().subrange(a as int, b as int));
        encode_utf8_decode_utf8(mid@);
    }
    mid
}

/// The text of `s` from a boundary on.
pub fn str_from<'a>(s: &'a str, a: usize) -> (r: &'a str)
    requires
        boundary(s.spec_bytes(), a as int),
    ensures
        r.spec_bytes() == from(s.spec_bytes(), a as int),
{
    proof {
        lemma_valid(s);
        lemma_boundary(s.spec_bytes(), a as int);
    }
    let (_front, rest) = s.split_at(a);
    rest
}

/// The text of `s` before a boundary.
pub fn str_upto<'a>(s: &'a str, b: usize) -> (r: &'a str)
    requires
        boundary(s.spec_bytes(), b as int),
    ensures
        r.spec_bytes() == upto(s.spec_bytes(), b as int),
{
    proof {
        lemma_valid(s);
        lemma_boundary(s.spec_bytes(), b as int);
    }
    let (front, _rest) = s.split_at(b);
    front
}

/// `s` without the white space in front.
pub fn trimmed_start<'a>(s: &'a str) -> (r: &'a str)
    ensures
        r.spec_bytes() == trim_start(s.spec_bytes()),
{
    let i: usize = skip_ws_at(s.as_bytes(), 0);
    proof {
        lemma_valid(s);
        lemma_ends_boundary(s.spec_bytes());
        lemma_skip_ws(s.spec_bytes(), 0);
    }
    str_from(s, i)
}

/// `s` without the white space at its end.
pub fn trimmed_end<'a>(s: &'a str) -> (r: &'a str)
    ensures
        r.spec_bytes() == trim_end(s.spec_bytes()),
{
    let n: usize = s.as_bytes().len();
    let j: usize = skip_ws_back_at(s.as_bytes(), n);
    proof {
        lemma_valid(s);
        lemma_ends_boundary(s.spec_bytes());
        lemma_skip_ws_back(s.spec_bytes(), n as int);
    }
    str_upto(s, j)
}

/// `s` without the white space on either side.
pub fn trimmed<'a>(s: &'a str) -> (r: &'a str)
    ensures
        r.spec_bytes() == trim(s.spec_bytes()),
{
    trimmed_end(trimmed_start(s))
}

/// Where the text between two boundaries lies when white space is cut off on either side.
pub fn trim_range(s: &str, a: usize, b: usize) -> (r: (usize, usize))
    requires
        a <= b,
        boundary(s.spec_bytes(), a as int),
        boundary(s.spec_bytes(), b as int),
    ensures
        (r.0 as int, r.1 as int) == trim_at(s.spec_bytes(), a as int, b as int),
        a <= r.0 <= r.1 <= b,
        boundary(s.spec_bytes(), r.0 as int),
        boundary(s.spec_bytes(), r.1 as int),
{
    proof {
        lemma_valid(s);
        lemma_trim_at(s.spec_bytes(), a as int, b as int);
    }
    let part = substr(s, a, b);
    let front: usize = skip_ws_at(part.as_bytes(), 0);
    let kept: usize = trimmed(part).as_bytes().len();
    (a + front, a + front + kept)
}

} // verus!
