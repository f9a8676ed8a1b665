//! Lines and their indentation, read off the text alone.
//!
//! [`indent_for_line`] tells how far a line is to be indented the moment Enter is pressed. The
//! document is then seldom well-formed, so nothing here asks for a parse. The answer comes from the
//! nearest line above that is neither blank nor a comment: one level deeper where that line opens a
//! block, the same level where it does not. No answer is given in the body of a block scalar, whose
//! indentation is content, and next to a tab, which the engine rejects.

use crate::ascii;
use crate::text;
use crate::text::{find_byte_at, has_at, same_str, str_from, substr, trimmed};
use vstd::prelude::*;
use vstd::string::*;
use vstd::utf8::*;

verus! {

/// One line of a source, without its `\n`. A `\r` in front of that counts as trailing white space.
pub struct Line<'a> {
    /// Where the line starts.
    pub start: usize,
    /// Its text.
    pub text: &'a str,
}

/// The lines of `s` from offset `i` on. A final `\n` starts no further line.
pub open spec fn lines_from(s: Seq<u8>, i: int) -> Seq<(int, int)>
    decreases s.len() - i,
    via lines_from_decreases
{
    if !(0 <= i < s.len()) {
        Seq::empty()
    } else {
        match text::find_byte(s, ascii::NEWLINE, i) {
            Some(k) => seq![(i, k)] + lines_from(s, k + 1),
            None => seq![(i, s.len() as int)],
        }
    }
}

#[via_fn]
proof fn lines_from_decreases(s: Seq<u8>, i: int) {
    if 0 <= i {
        text::lemma_find_byte(s, ascii::NEWLINE, i);
    }
}

/// The lines of `s`.
pub open spec fn lines(s: Seq<u8>) -> Seq<(int, int)> {
    lines_from(s, 0)
}

/// The text of each line of `s`.
pub open spec fn texts(s: Seq<u8>) -> Seq<Seq<u8>> {
    lines(s).map_values(|p: (int, int)| s.subrange(p.0, p.1))
}

/// The number of spaces in front, from offset `i` on.
pub open spec fn spaces_from(t: Seq<u8>, i: int) -> int
    decreases t.len() - i,
{
    if text::has(t, i, ascii::SPACE) {
        1 + spaces_from(t, i + 1)
    } else {
        0
    }
}

/// The number of spaces in front of a line. A tab ends the count.
pub open spec fn spaces(t: Seq<u8>) -> int {
    spaces_from(t, 0)
}

/// Whether a tab follows the spaces in front of a line.
pub open spec fn tabbed(t: Seq<u8>) -> bool {
    text::has(t, spaces(t), ascii::TAB)
}

/// The value part of a line: what follows a leading `-`, or else the first `:`.
pub open spec fn value_of(trimmed: Seq<u8>) -> Seq<u8> {
    if text::has(trimmed, 0, ascii::DASH) {
        text::trim(text::from(trimmed, 1))
    } else {
        match text::find_byte(trimmed, ascii::COLON, 0) {
            Some(k) => text::trim(text::from(trimmed, k + 1)),
            None => Seq::empty(),
        }
    }
}

/// Whether a value announces a block scalar.
pub open spec fn marker(value: Seq<u8>) -> bool {
    value == "|".spec_bytes() || value == "|-".spec_bytes() || value == "|+".spec_bytes()
}

/// Whether a line that reads `trimmed` is a comment.
pub open spec fn comment(trimmed: Seq<u8>) -> bool {
    (text::has(trimmed, 0, ascii::SLASH) && text::has(trimmed, 1, ascii::SLASH)) || text::has(trimmed, 0, ascii::HASH)
}

/// Whether the lines below a line that reads `trimmed`, where they are indented deeper, belong to
/// it: a tag or a header, which have no `:`, or a key without a value or with that of a block scalar.
/// A list item never opens a block.
pub open spec fn opens(trimmed: Seq<u8>) -> bool {
    if text::has(trimmed, 0, ascii::DASH) {
        false
    } else {
        match text::find_byte(trimmed, ascii::COLON, 0) {
            Some(k) => {
                let value = text::trim(text::from(trimmed, k + 1));
                value.len() == 0 || marker(value)
            },
            None => true,
        }
    }
}

/// What a line is.
#[derive(Clone, Copy, PartialEq, Eq, Structural)]
pub enum LineKind {
    /// Nothing but white space.
    Blank,
    /// A comment that takes the whole line.
    Comment,
    /// A line in the body of a block scalar.
    BlockContent,
    /// A line of structure.
    Node {
        /// The number of spaces in front.
        sp: usize,
        /// Whether the deeper lines below belong to it.
        opens_block: bool,
        /// Whether a tab follows the spaces in front.
        has_tab: bool,
    },
}

/// What the line `t` is, where no block scalar is open.
pub open spec fn plain_kind(t: Seq<u8>) -> LineKind {
    let trimmed = text::trim(t);
    if trimmed.len() == 0 {
        LineKind::Blank
    } else if comment(trimmed) {
        LineKind::Comment
    } else {
        LineKind::Node {
            sp: spaces(t) as usize,
            opens_block: opens(trimmed),
            has_tab: tabbed(t),
        }
    }
}

/// Whether the line `t` goes on with the block scalar whose marker line has `open` spaces in front:
/// it is blank, or indented deeper.
pub open spec fn continues(t: Seq<u8>, open: Option<int>) -> bool {
    match open {
        Some(sp) => text::trim(t).len() == 0 || spaces(t) > sp,
        None => false,
    }
}

/// The block scalar that is open behind the line `t`, where the one that was open ended before it.
pub open spec fn opened(t: Seq<u8>) -> Option<int> {
    let trimmed = text::trim(t);
    if trimmed.len() > 0 && !comment(trimmed) && marker(value_of(trimmed)) {
        Some(spaces(t))
    } else {
        None
    }
}

/// What each line is from line `i` on, where the block scalar `open` is open.
pub open spec fn kinds_from(lines: Seq<Seq<u8>>, i: int, open: Option<int>) -> Seq<LineKind>
    decreases lines.len() - i,
{
    if !(0 <= i < lines.len()) {
        Seq::empty()
    } else if continues(lines[i], open) {
        seq![LineKind::BlockContent] + kinds_from(lines, i + 1, open)
    } else {
        seq![plain_kind(lines[i])] + kinds_from(lines, i + 1, opened(lines[i]))
    }
}

/// The indentation that the nearest line of structure above line `k` asks for.
pub open spec fn wanted(kinds: Seq<LineKind>, k: int) -> Option<int>
    decreases k,
{
    if !(0 < k <= kinds.len()) {
        Some(0)
    } else {
        match kinds[k - 1] {
            LineKind::Blank => wanted(kinds, k - 1),
            LineKind::Comment => wanted(kinds, k - 1),
            LineKind::BlockContent => None,
            LineKind::Node { sp, opens_block, has_tab } => if has_tab {
                None
            } else if opens_block {
                Some(sp + 2)
            } else {
                Some(sp as int)
            },
        }
    }
}

/// The indentation of line `line` of `s`, which need not exist yet. A line in the body of a block
/// scalar and a line with a tab in front get none, whatever else they are.
pub open spec fn line_indent(s: Seq<u8>, line: int) -> Option<int> {
    let kinds = kinds_from(texts(s), 0, None);
    if line == 0 {
        Some(0)
    } else if line < kinds.len() && (kinds[line] is BlockContent || tabbed(texts(s)[line])) {
        None
    } else {
        wanted(kinds, if line < kinds.len() { line } else { kinds.len() as int })
    }
}

/// Each line has one kind.
pub proof fn lemma_kinds_len(lines: Seq<Seq<u8>>, i: int, open: Option<int>)
    requires
        0 <= i <= lines.len(),
    ensures
        kinds_from(lines, i, open).len() == lines.len() - i,
    decreases lines.len() - i,
{
    if i < lines.len() {
        lemma_kinds_len(lines, i + 1, open);
        lemma_kinds_len(lines, i + 1, opened(lines[i]));
    }
}

/// A line of structure carries its own number of spaces.
proof fn lemma_kind_spaces(lines: Seq<Seq<u8>>, i: int, open: Option<int>, k: int)
    requires
        0 <= i <= k < lines.len(),
    ensures
        kinds_from(lines, i, open)[k - i] matches LineKind::Node { sp, .. } ==> sp == spaces(
            lines[k],
        ) as usize,
    decreases k - i,
{
    lemma_kinds_len(lines, i + 1, open);
    lemma_kinds_len(lines, i + 1, opened(lines[i]));
    if k > i {
        lemma_kind_spaces(lines, i + 1, open, k);
        lemma_kind_spaces(lines, i + 1, opened(lines[i]), k);
        let kinds = kinds_from(lines, i, open);
        if continues(lines[i], open) {
            assert(kinds[k - i] == kinds_from(lines, i + 1, open)[k - i - 1]);
        } else {
            assert(kinds[k - i] == kinds_from(lines, i + 1, opened(lines[i]))[k - i - 1]);
        }
    }
}

/// The spaces in front lie in the line.
pub proof fn lemma_spaces(t: Seq<u8>, i: int)
    requires
        0 <= i <= t.len(),
    ensures
        0 <= spaces_from(t, i) <= t.len() - i,
        !text::has(t, i + spaces_from(t, i), ascii::SPACE),
        forall|k: int| i <= k < i + spaces_from(t, i) ==> #[trigger] t[k] == ascii::SPACE,
    decreases t.len() - i,
{
    if text::has(t, i, ascii::SPACE) {
        lemma_spaces(t, i + 1);
    }
}

proof fn lemma_spaces_are_ws(t: Seq<u8>, i: int)
    requires
        0 <= i <= t.len(),
    ensures
        i + spaces_from(t, i) <= text::skip_ws(t, i),
    decreases t.len() - i,
{
    lemma_spaces(t, i);
    if text::has(t, i, ascii::SPACE) {
        lemma_spaces_are_ws(t, i + 1);
    } else {
        text::lemma_skip_ws_grows(t, i);
    }
}

/// The spaces in front of a line that is not blank are not its end.
pub proof fn lemma_spaces_before_end(t: Seq<u8>)
    requires
        valid_utf8(t),
        text::trim(t).len() > 0,
    ensures
        spaces(t) < text::trim_end(t).len(),
{
    let a = text::skip_ws(t, 0);
    text::lemma_ends_boundary(t);
    text::lemma_skip_ws(t, 0);
    lemma_spaces_are_ws(t, 0);
    if a == t.len() {
        assert(text::from(t, a).len() == 0);
    } else {
        text::lemma_skip_ws_back_stays(t, a, t.len() as int);
    }
}

/// Each line of `s` lies in `s`, holds no `\n`, and ends at one or at the end of `s`. The next line
/// starts behind that.
pub proof fn lemma_lines(s: Seq<u8>, i: int)
    requires
        0 <= i <= s.len(),
    ensures
        forall|k: int|
            0 <= k < lines_from(s, i).len() ==> {
                let p = #[trigger] lines_from(s, i)[k];
                &&& i <= p.0 <= p.1 <= s.len()
                &&& p.1 == s.len() || s[p.1] == ascii::NEWLINE
                &&& p.0 == 0 || p.0 == i || s[p.0 - 1] == ascii::NEWLINE
                &&& p.0 < s.len()
                &&& forall|j: int| p.0 <= j < p.1 ==> #[trigger] s[j] != ascii::NEWLINE
            },
        lines_from(s, i).len() > 0 ==> lines_from(s, i)[0].0 == i,
        forall|k: int|
            0 < k < lines_from(s, i).len() ==> (#[trigger] lines_from(s, i)[k]).0 == lines_from(
                s,
                i,
            )[k - 1].1 + 1,
    decreases s.len() - i,
{
    if i < s.len() {
        text::lemma_find_byte(s, ascii::NEWLINE, i);
        let all = lines_from(s, i);
        if let Some(n) = text::find_byte(s, ascii::NEWLINE, i) {
            lemma_lines(s, n + 1);
            let rest = lines_from(s, n + 1);
            assert(all == seq![(i, n)] + rest);
            assert forall|k: int| 0 <= k < all.len() implies {
                let p = #[trigger] all[k];
                &&& i <= p.0 <= p.1 <= s.len()
                &&& p.1 == s.len() || s[p.1] == ascii::NEWLINE
                &&& p.0 == 0 || p.0 == i || s[p.0 - 1] == ascii::NEWLINE
                &&& p.0 < s.len()
                &&& forall|j: int| p.0 <= j < p.1 ==> #[trigger] s[j] != ascii::NEWLINE
            } by {
                if k > 0 {
                    assert(all[k] == rest[k - 1]);
                }
            }
            assert forall|k: int| 0 < k < all.len() implies (#[trigger] all[k]).0 == all[k - 1].1
                + 1 by {
                assert(all[k] == rest[k - 1]);
                if k > 1 {
                    assert(all[k - 1] == rest[k - 2]);
                }
            }
        }
    }
}

/// The ends of a line are boundaries.
pub proof fn lemma_line_boundary(s: Seq<u8>, k: int)
    requires
        valid_utf8(s),
        0 <= k < lines(s).len(),
    ensures
        0 <= lines(s)[k].0 <= lines(s)[k].1 <= s.len(),
        text::boundary(s, lines(s)[k].0),
        text::boundary(s, lines(s)[k].1),
{
    lemma_lines(s, 0);
    text::lemma_ends_boundary(s);
    let p = lines(s)[k];
    if p.0 > 0 {
        text::lemma_ascii_boundary(s, p.0 - 1);
    }
    if p.1 < s.len() {
        text::lemma_ascii_boundary(s, p.1);
    }
}

/// The text of each of the given lines.
pub open spec fn texts_of(lines: Seq<Line>) -> Seq<Seq<u8>> {
    lines.map_values(|line: Line| line.text.spec_bytes())
}

/// Whether `lines` are the lines of `s`.
pub open spec fn are_lines(lines: Seq<Line>, s: Seq<u8>) -> bool {
    &&& lines.len() == self::lines(s).len()
    &&& forall|k: int|
        0 <= k < lines.len() ==> {
            let line = #[trigger] lines[k];
            &&& line.start == self::lines(s)[k].0
            &&& line.text.spec_bytes() == s.subrange(self::lines(s)[k].0, self::lines(s)[k].1)
            &&& line.text.spec_bytes() == texts(s)[k]
            &&& line.start + line.text.spec_bytes().len() == self::lines(s)[k].1
            &&& line.start + line.text.spec_bytes().len() <= s.len()
        }
}

/// The lines of `source`.
pub fn split_lines<'a>(source: &'a str) -> (r: Vec<Line<'a>>)
    ensures
        are_lines(r@, source.spec_bytes()),
{
    let s = source.as_bytes();
    let n: usize = s.len();
    let ghost whole = lines(s@);
    let mut out: Vec<Line<'a>> = Vec::new();
    let mut i: usize = 0;
    proof {
        text::lemma_valid(source);
        text::lemma_ends_boundary(s@);
        lemma_lines(s@, 0);
        assert(whole.subrange(0, whole.len() as int) =~= whole);
    }
    while i < n
        invariant
            s@ == source.spec_bytes(),
            valid_utf8(s@),
            n == s@.len(),
            i <= n,
            text::boundary(s@, i as int),
            whole == lines(s@),
            out@.len() <= whole.len(),
            whole.subrange(out@.len() as int, whole.len() as int) == lines_from(s@, i as int),
            forall|k: int|
                0 <= k < out@.len() ==> {
                    let line = #[trigger] out@[k];
                    &&& line.start == whole[k].0
                    &&& line.text.spec_bytes() == s@.subrange(whole[k].0, whole[k].1)
                    &&& line.text.spec_bytes() == texts(s@)[k]
                    &&& line.start + line.text.spec_bytes().len() == whole[k].1
                    &&& line.start + line.text.spec_bytes().len() <= s@.len()
                },
        decreases n - i,
    {
        let mut next: usize = n;
        let mut end: usize = n;
        match find_byte_at(s, ascii::NEWLINE, i) {
            Some(k) => {
                proof {
                    text::lemma_ascii_boundary(s@, k as int);
                }
                end = k;
                next = k + 1;
            },
            None => {
                proof {
                    text::lemma_ends_boundary(s@);
                }
            },
        }
        let line = substr(source, i, end);
        proof {
            let rest = lines_from(s@, next as int);
            assert(lines_from(s@, i as int) =~= seq![(i as int, end as int)] + rest);
            let tail = whole.subrange(out@.len() as int, whole.len() as int);
            assert(tail[0] == whole[out@.len() as int]);
            assert(whole.subrange((out@.len() + 1) as int, whole.len() as int) =~= tail.drop_first());
            assert(tail.drop_first() =~= rest);
        }
        out.push(Line { start: i, text: line });
        i = next;
    }
    out
}

/// The number of spaces in front of a line.
pub fn leading_spaces(t: &str) -> (n: usize)
    ensures
        n == spaces(t.spec_bytes()),
        n <= t.spec_bytes().len(),
{
    let b = t.as_bytes();
    let mut i: usize = 0;
    while i < b.len() && b[i] == ascii::SPACE
        invariant
            b@ == t.spec_bytes(),
            i <= b@.len(),
            i + spaces_from(b@, i as int) == spaces(b@),
        decreases b@.len() - i,
    {
        i += 1;
    }
    i
}

/// Whether a tab follows the spaces in front of a line.
pub fn has_tab_indent(t: &str) -> (r: bool)
    ensures
        r == tabbed(t.spec_bytes()),
{
    let sp: usize = leading_spaces(t);
    has_at(t.as_bytes(), sp, ascii::TAB)
}

/// The value part of a line.
pub fn line_value<'a>(t: &'a str) -> (r: &'a str)
    ensures
        r.spec_bytes() == value_of(t.spec_bytes()),
{
    let b = t.as_bytes();
    let n: usize = b.len();
    proof {
        text::lemma_valid(t);
    }
    if has_at(b, 0, ascii::DASH) {
        proof {
            text::lemma_ascii_boundary(b@, 0);
        }
        return trimmed(str_from(t, 1));
    }
    match find_byte_at(b, ascii::COLON, 0) {
        Some(k) => {
            proof {
                text::lemma_ascii_boundary(b@, k as int);
            }
            trimmed(str_from(t, k + 1))
        },
        None => {
            proof {
                reveal_strlit("");
                is_ascii_chars_encode_utf8(""@);
                assert("".spec_bytes() =~= Seq::empty());
            }
            ""
        },
    }
}

/// Whether a value announces a block scalar.
pub fn is_block_scalar_marker(value: &str) -> (r: bool)
    ensures
        r == marker(value.spec_bytes()),
{
    same_str(value, "|") || same_str(value, "|-") || same_str(value, "|+")
}

/// Whether a line that reads `t` is a comment.
pub fn is_comment(t: &str) -> (r: bool)
    ensures
        r == comment(t.spec_bytes()),
{
    let b = t.as_bytes();
    (has_at(b, 0, ascii::SLASH) && has_at(b, 1, ascii::SLASH)) || has_at(b, 0, ascii::HASH)
}

/// Whether the deeper lines below a line that reads `t` belong to it.
pub fn opens_block(t: &str) -> (r: bool)
    ensures
        r == opens(t.spec_bytes()),
{
    let b = t.as_bytes();
    let n: usize = b.len();
    if has_at(b, 0, ascii::DASH) {
        return false;
    }
    match find_byte_at(b, ascii::COLON, 0) {
        Some(k) => {
            proof {
                text::lemma_valid(t);
                text::lemma_ascii_boundary(b@, k as int);
            }
            let value = trimmed(str_from(t, k + 1));
            value.as_bytes().len() == 0 || is_block_scalar_marker(value)
        },
        None => true,
    }
}

/// What each line is.
pub fn classify_lines(lines: &[Line]) -> (kinds: Vec<LineKind>)
    ensures
        kinds@ == kinds_from(texts_of(lines@), 0, None),
        kinds@.len() == lines@.len(),
{
    let ghost all = texts_of(lines@);
    let ghost whole = kinds_from(all, 0, None);
    let mut kinds: Vec<LineKind> = Vec::new();
    let mut open: Option<usize> = None;
    let mut i: usize = 0;
    assert(kinds@ + whole =~= whole);
    while i < lines.len()
        invariant
            i <= lines@.len(),
            all == texts_of(lines@),
            kinds@.len() == i,
            kinds@ + kinds_from(
                all,
                i as int,
                match open {
                    Some(sp) => Some(sp as int),
                    None => None,
                },
            ) == whole,
        decreases lines@.len() - i,
    {
        let line = &lines[i];
        let t = trimmed(line.text);
        let blank: bool = t.as_bytes().len() == 0;
        let sp: usize = leading_spaces(line.text);
        let ghost had = match open {
            Some(x) => Some(x as int),
            None => None::<int>,
        };
        let ghost before = kinds@;
        let content: bool = match open {
            Some(limit) => blank || sp > limit,
            None => false,
        };
        assert(content == continues(all[i as int], had));
        if content {
            kinds.push(LineKind::BlockContent);
            assert(before.push(LineKind::BlockContent) + kinds_from(all, i + 1, had) =~= before + (
            seq![LineKind::BlockContent] + kinds_from(all, i + 1, had)));
        } else {
            let ghost kind = plain_kind(all[i as int]);
            let ghost rest = kinds_from(all, i + 1, opened(all[i as int]));
            open = None;
            if blank {
                kinds.push(LineKind::Blank);
            } else if is_comment(t) {
                kinds.push(LineKind::Comment);
            } else {
                kinds.push(
                    LineKind::Node {
                        sp,
                        opens_block: opens_block(t),
                        has_tab: has_tab_indent(line.text),
                    },
                );
                if is_block_scalar_marker(line_value(t)) {
                    open = Some(sp);
                }
            }
            assert(kinds@ == before.push(kind));
            assert(before.push(kind) + rest =~= before + (seq![kind] + rest));
        }
        i += 1;
    }
    assert(kinds@ =~= whole);
    kinds
}

/// The number of spaces that line `line` is to have in front. The line need not exist yet.
pub fn indent_for_line(source: &str, line: u32) -> (r: Option<usize>)
    requires
        source.spec_bytes().len() + 2 <= usize::MAX,
    ensures
        match r {
            Some(n) => line_indent(source.spec_bytes(), line as int) == Some(n as int),
            None => line_indent(source.spec_bytes(), line as int) is None,
        },
{
    let ghost s = source.spec_bytes();
    proof {
        lemma_kinds_len(texts(s), 0, None);
    }
    if line == 0 {
        return Some(0);
    }
    let lines = split_lines(source);
    let kinds = classify_lines(lines.as_slice());
    assert(texts_of(lines@) =~= texts(s));
    let idx: usize = line as usize;
    if idx < kinds.len() {
        assert(lines@[idx as int].text.spec_bytes() == texts(s)[idx as int]);
        if kinds[idx] == LineKind::BlockContent || has_tab_indent(lines[idx].text) {
            return None;
        }
    }
    let mut k: usize = if idx < kinds.len() {
        idx
    } else {
        kinds.len()
    };
    let n: usize = source.as_bytes().len();
    while k > 0
        invariant
            s == source.spec_bytes(),
            k <= kinds@.len(),
            kinds@ == kinds_from(texts(s), 0, None),
            kinds@.len() == texts(s).len(),
            s.len() + 2 <= usize::MAX,
            line != 0,
            wanted(kinds@, k as int) == line_indent(s, line as int),
        decreases k,
    {
        k -= 1;
        match kinds[k] {
            LineKind::BlockContent => {
                return None;
            },
            LineKind::Node { sp, opens_block, has_tab } => {
                if has_tab {
                    return None;
                }
                if opens_block {
                    proof {
                        lemma_kind_spaces(texts(s), 0, None, k as int);
                        lemma_spaces(texts(s)[k as int], 0);
                        lemma_lines(s, 0);
                    }
                    return Some(sp + 2);
                }
                return Some(sp);
            },
            _ => {},
        }
    }
    Some(0)
}

} // verus!
