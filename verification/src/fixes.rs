//! Corrections for findings.
//!
//! A correction rewrites nothing but what the finding points at: a tab becomes an indentation level,
//! an odd indentation is rounded down to the depth that the engine takes it for, and a misspelled
//! word is replaced by one that the engine knows and that is close to it. Where no known word is
//! close enough, none is offered.

use crate::ascii;
use crate::catalog;
use crate::diagnostics;
use crate::diagnostics::{analyze, structural_diagnostics};
use crate::lang_api;
use crate::lang_api::{ByteSpan, Diagnostic, DiagnosticView};
use crate::order;
use crate::order::{sort_by_place, HasPlace, Placed};
use crate::schema;
use crate::syntax;
use crate::syntax::SyntaxTree;
use crate::text;
use crate::text::{find_at, line_start_of, same_str, substr};
use crate::wording;
use crate::wording::{blank_text, decimal_text, join3};
use vstd::prelude::*;
use vstd::string::*;
use vstd::utf8::*;

verus! {

/// A correction for one finding.
#[derive(Debug, Clone, PartialEq, Eq)]
pub struct Fix {
    /// What the correction does, for a reader.
    pub title: String,
    /// The spans to replace, each with the text to put there.
    pub edits: Vec<(ByteSpan, String)>,
    /// The code of the finding.
    pub fixes_code: &'static str,
}

/// The model of a [`Fix`].
#[verifier::ext_equal]
pub struct FixView {
    /// What the correction does.
    pub title: Seq<char>,
    /// The spans to replace, each with the text to put there.
    pub edits: Seq<(ByteSpan, Seq<char>)>,
    /// The code of the finding.
    pub fixes_code: Seq<char>,
}

impl View for Fix {
    type V = FixView;

    open spec fn view(&self) -> FixView {
        FixView {
            title: self.title@,
            edits: self.edits@.map_values(|e: (ByteSpan, String)| (e.0, e.1@)),
            fixes_code: self.fixes_code@,
        }
    }
}

/// The correction that replaces one span.
pub open spec fn fix_of(
    title: Seq<char>,
    span: ByteSpan,
    replacement: Seq<char>,
    code: Seq<char>,
) -> FixView {
    FixView { title, edits: seq![(span, replacement)], fixes_code: code }
}

// ---------------------------------------------------------------------------------------------
// Edit distance
// ---------------------------------------------------------------------------------------------

/// The smaller of two numbers.
pub open spec fn least(a: int, b: int) -> int {
    if a <= b {
        a
    } else {
        b
    }
}

/// The least number of steps that turn the first `i` characters of `a` into the first `j` of `b`,
/// where a step inserts, deletes or replaces one character or swaps two neighbours, and no stretch
/// is edited twice.
pub open spec fn steps(a: Seq<char>, b: Seq<char>, i: int, j: int) -> int
    decreases i + j,
{
    if i <= 0 {
        j
    } else if j <= 0 {
        i
    } else {
        let cost: int = if a[i - 1] == b[j - 1] {
            0
        } else {
            1
        };
        let edited = least(
            least(steps(a, b, i - 1, j) + 1, steps(a, b, i, j - 1) + 1),
            steps(a, b, i - 1, j - 1) + cost,
        );
        if i > 1 && j > 1 && a[i - 1] == b[j - 2] && a[i - 2] == b[j - 1] {
            least(edited, steps(a, b, i - 2, j - 2) + 1)
        } else {
            edited
        }
    }
}

/// The edit distance between two words.
pub open spec fn distance(a: Seq<char>, b: Seq<char>) -> int {
    steps(a, b, a.len() as int, b.len() as int)
}

proof fn lemma_steps_bounds(a: Seq<char>, b: Seq<char>, i: int, j: int)
    requires
        0 <= i,
        0 <= j,
    ensures
        0 <= steps(a, b, i, j),
        i - j <= steps(a, b, i, j),
        j - i <= steps(a, b, i, j),
        steps(a, b, i, j) <= i || steps(a, b, i, j) <= j,
    decreases i + j,
{
    if i > 0 && j > 0 {
        lemma_steps_bounds(a, b, i - 1, j);
        lemma_steps_bounds(a, b, i, j - 1);
        lemma_steps_bounds(a, b, i - 1, j - 1);
        if i > 1 && j > 1 {
            lemma_steps_bounds(a, b, i - 2, j - 2);
        }
    }
}

proof fn lemma_steps_zero(a: Seq<char>, b: Seq<char>, i: int, j: int)
    requires
        0 <= i <= a.len(),
        0 <= j <= b.len(),
    ensures
        steps(a, b, i, j) == 0 <==> a.take(i) == b.take(j),
    decreases i + j,
{
    if i > 0 && j > 0 {
        lemma_steps_zero(a, b, i - 1, j - 1);
        lemma_steps_bounds(a, b, i - 1, j);
        lemma_steps_bounds(a, b, i, j - 1);
        lemma_steps_bounds(a, b, i - 1, j - 1);
        if i > 1 && j > 1 {
            lemma_steps_bounds(a, b, i - 2, j - 2);
        }
        assert(a.take(i) =~= a.take(i - 1).push(a[i - 1]));
        assert(b.take(j) =~= b.take(j - 1).push(b[j - 1]));
        if a.take(i) == b.take(j) {
            assert(a.take(i - 1) =~= a.take(i).drop_last());
            assert(b.take(j - 1) =~= b.take(j).drop_last());
            assert(a.take(i).last() == b.take(j).last());
        }
    } else if i == 0 && j == 0 {
        assert(a.take(0) =~= b.take(0));
    } else {
        assert(a.take(i).len() != b.take(j).len());
    }
}

proof fn lemma_steps_symmetric(a: Seq<char>, b: Seq<char>, i: int, j: int)
    requires
        0 <= i,
        0 <= j,
    ensures
        steps(a, b, i, j) == steps(b, a, j, i),
    decreases i + j,
{
    if i > 0 && j > 0 {
        lemma_steps_symmetric(a, b, i - 1, j);
        lemma_steps_symmetric(a, b, i, j - 1);
        lemma_steps_symmetric(a, b, i - 1, j - 1);
        if i > 1 && j > 1 {
            lemma_steps_symmetric(a, b, i - 2, j - 2);
        }
    }
}

/// The edit distance is zero between equal words and no others, it does not depend on the order of
/// the words, and it lies between the difference of their lengths and the length of the longer one.
pub proof fn law_distance(a: Seq<char>, b: Seq<char>)
    ensures
        distance(a, b) == 0 <==> a == b,
        distance(a, b) == distance(b, a),
        a.len() - b.len() <= distance(a, b),
        b.len() - a.len() <= distance(a, b),
        distance(a, b) <= a.len() || distance(a, b) <= b.len(),
        0 <= distance(a, b),
{
    let i = a.len() as int;
    let j = b.len() as int;
    lemma_steps_zero(a, b, i, j);
    lemma_steps_symmetric(a, b, i, j);
    lemma_steps_bounds(a, b, i, j);
    assert(a.take(i) =~= a);
    assert(b.take(j) =~= b);
}

/// The characters of a word.
fn characters(s: &str) -> (r: Vec<char>)
    ensures
        r@ == s@,
{
    let n: usize = s.unicode_len();
    let mut r: Vec<char> = Vec::new();
    let mut i: usize = 0;
    while i < n
        invariant
            n == s@.len(),
            i <= n,
            r@ == s@.take(i as int),
        decreases n - i,
    {
        r.push(s.get_char(i));
        assert(s@.take(i + 1) =~= s@.take(i as int).push(s@[i as int]));
        i += 1;
    }
    assert(s@.take(n as int) =~= s@);
    r
}

/// Whether `row` holds the distances of the first `i` characters of `a` to the beginnings of `b`
/// shorter than `k`.
spec fn is_row(row: Seq<usize>, a: Seq<char>, b: Seq<char>, i: int, k: nat) -> bool {
    row.len() == k && forall|j: int| 0 <= j < k ==> #[trigger] row[j] == steps(a, b, i, j)
}

/// The distances of the first `i + 1` characters of `a` to the beginnings of `b`, from the rows for
/// fewer characters.
fn next_row(a: &Vec<char>, b: &Vec<char>, rows: &Vec<Vec<usize>>, i: usize) -> (row: Vec<usize>)
    requires
        i < a@.len(),
        rows@.len() == i + 1,
        forall|k: int| 0 <= k <= i ==> is_row((#[trigger] rows@[k])@, a@, b@, k, b@.len() + 1),
    ensures
        is_row(row@, a@, b@, i + 1, b@.len() + 1),
{
    let n: usize = a.len();
    let m: usize = b.len();
    let mut row: Vec<usize> = Vec::new();
    row.push(i + 1);
    let mut j: usize = 0;
    while j < m
        invariant
            n == a@.len(),
            m == b@.len(),
            i < n,
            j <= m,
            rows@.len() == i + 1,
            forall|k: int| 0 <= k <= i ==> is_row((#[trigger] rows@[k])@, a@, b@, k, b@.len() + 1),
            is_row(row@, a@, b@, i + 1, (j + 1) as nat),
        decreases m - j,
    {
        proof {
            lemma_steps_bounds(a@, b@, i as int, j as int);
            lemma_steps_bounds(a@, b@, i as int, j + 1);
            lemma_steps_bounds(a@, b@, i + 1, j as int);
            assert(is_row(rows@[i as int]@, a@, b@, i as int, b@.len() + 1));
        }
        let above: usize = rows[i][j + 1];
        let left: usize = row[j];
        let low: usize = if above <= left {
            above
        } else {
            left
        };
        let diagonal: usize = rows[i][j];
        let replaced: usize = if a[i] == b[j] {
            diagonal
        } else {
            diagonal + 1
        };
        let mut best: usize = if low < replaced {
            low + 1
        } else {
            replaced
        };
        if i > 0 && j > 0 && a[i] == b[j - 1] && a[i - 1] == b[j] {
            proof {
                lemma_steps_bounds(a@, b@, i - 1, j - 1);
                assert(is_row(rows@[i - 1]@, a@, b@, i - 1, b@.len() + 1));
            }
            let swapped: usize = rows[i - 1][j - 1] + 1;
            if swapped < best {
                best = swapped;
            }
        }
        assert(best == steps(a@, b@, i + 1, j + 1));
        row.push(best);
        j += 1;
    }
    row
}

/// The edit distance between two words, where swapping two neighbours is one step.
pub fn edit_distance(a: &str, b: &str) -> (r: usize)
    ensures
        r == distance(a@, b@),
{
    let x = characters(a);
    let y = characters(b);
    let n: usize = x.len();
    let m: usize = y.len();
    let mut first: Vec<usize> = Vec::new();
    let mut j: usize = 0;
    while j < m
        invariant
            m == y@.len(),
            j <= m,
            is_row(first@, x@, y@, 0, j as nat),
        decreases m - j,
    {
        first.push(j);
        j += 1;
    }
    first.push(m);
    let mut rows: Vec<Vec<usize>> = Vec::new();
    rows.push(first);
    let mut i: usize = 0;
    while i < n
        invariant
            n == x@.len(),
            i <= n,
            rows@.len() == i + 1,
            forall|k: int| 0 <= k <= i ==> is_row((#[trigger] rows@[k])@, x@, y@, k, y@.len() + 1),
        decreases n - i,
    {
        let row = next_row(&x, &y, &rows, i);
        rows.push(row);
        i += 1;
    }
    assert(is_row(rows@[n as int]@, x@, y@, n as int, y@.len() + 1));
    rows[n][m]
}

// ---------------------------------------------------------------------------------------------
// Suggestions
// ---------------------------------------------------------------------------------------------

/// A candidate and how far it is from the word that was written.
#[derive(Clone, Copy, PartialEq, Eq, Structural)]
pub struct Scored {
    /// The edit distance.
    pub distance: usize,
    /// The place of the candidate in its set.
    pub index: usize,
}

impl View for Scored {
    type V = Scored;

    open spec fn view(&self) -> Scored {
        *self
    }
}

impl Placed for Scored {
    open spec fn place(&self) -> (int, int) {
        (self.distance as int, self.index as int)
    }
}

impl HasPlace for Scored {
    fn place_of(&self) -> (r: (usize, usize)) {
        (self.distance, self.index)
    }
}

/// The greatest distance at which a candidate is offered for a word of `n` bytes.
pub open spec fn threshold(n: int) -> int {
    if n / 3 > 2 {
        n / 3
    } else {
        2
    }
}

/// Whether candidate `i` is close to `word` without being it.
pub open spec fn close(word: Seq<char>, candidates: Seq<&'static str>, i: int) -> bool {
    0 < distance(word, candidates[i]@) <= threshold(text::bytes_of(word).len() as int)
}

/// The candidates among the first `k` that are close to `word`.
pub open spec fn close_upto(word: Seq<char>, candidates: Seq<&'static str>, k: int) -> Seq<Scored>
    decreases k,
{
    if k <= 0 {
        Seq::empty()
    } else if close(word, candidates, k - 1) {
        close_upto(word, candidates, k - 1).push(
            Scored {
                distance: distance(word, candidates[k - 1]@) as usize,
                index: (k - 1) as usize,
            },
        )
    } else {
        close_upto(word, candidates, k - 1)
    }
}

/// The candidates that are close to `word`, the closest first; of equally close ones the one that
/// stands first in its set.
pub open spec fn ranked(word: Seq<char>, candidates: Seq<&'static str>) -> Seq<Scored> {
    order::stable_sort(close_upto(word, candidates, candidates.len() as int))
}

/// The first `max` items, or all of them where there are fewer.
pub open spec fn first_of<T>(items: Seq<T>, max: int) -> Seq<T> {
    if max < items.len() {
        items.take(max)
    } else {
        items
    }
}

/// The words offered for `word`.
pub open spec fn suggested(word: Seq<char>, candidates: Seq<&'static str>, max: int) -> Seq<
    Seq<char>,
> {
    first_of(ranked(word, candidates), max).map_values(
        |c: Scored| candidates[c.index as int]@,
    )
}

/// The corrections that put one of `words` in place of what a finding points at.
pub open spec fn word_fixes(words: Seq<Seq<char>>, d: DiagnosticView) -> Seq<FixView> {
    words.map_values(
        |word: Seq<char>| fix_of("Did you mean `"@ + word + "`?"@, d.span, word, d.code),
    )
}

/// The corrections that offer known words for the word that a finding points at.
pub open spec fn suggestion_fixes_of(
    s: Seq<u8>,
    d: DiagnosticView,
    candidates: Seq<&'static str>,
    max: int,
) -> Seq<FixView> {
    word_fixes(suggested(text::chars_of(syntax::cut(s, d.span)), candidates, max), d)
}

/// What can stand behind `anchors.`.
pub const ANCHOR_CANDIDATES: [&'static str; 8] = [
    "top",
    "bottom",
    "left",
    "right",
    "horizontalCenter",
    "verticalCenter",
    "fill",
    "centerIn",
];

/// Whether a message holds the words `part`.
pub open spec fn mentions(message: Seq<char>, part: Seq<u8>) -> bool {
    text::find(text::bytes_of(message), part, 0) is Some
}

/// The values that the property takes that a message names, where they form a small set.
pub open spec fn value_candidates(message: Seq<char>) -> Option<Seq<&'static str>> {
    if mentions(message, "`display`".spec_bytes()) {
        Some(schema::DISPLAY_VALUES@)
    } else if mentions(message, "`layout`".spec_bytes()) {
        Some(schema::LAYOUT_TYPES@)
    } else {
        None
    }
}

/// The end of the run of spaces and tabs at `i`.
pub open spec fn blanks_end(s: Seq<u8>, i: int) -> int
    decreases s.len() - i,
{
    if 0 <= i < s.len() && (s[i] == ascii::SPACE || s[i] == ascii::TAB) {
        blanks_end(s, i + 1)
    } else {
        i
    }
}

/// The spaces that stand for the bytes between two offsets: two for a tab, one for any other byte.
pub open spec fn widened(s: Seq<u8>, a: int, b: int) -> Seq<char>
    decreases b - a,
{
    if a >= b {
        Seq::empty()
    } else if s[b - 1] == ascii::TAB {
        widened(s, a, b - 1) + "  "@
    } else {
        widened(s, a, b - 1) + " "@
    }
}

/// The correction of a tab in an indentation.
pub open spec fn tab_fix_of(s: Seq<u8>, d: DiagnosticView) -> FixView {
    let a = text::line_start(s, d.span.start as int);
    let b = blanks_end(s, a);
    fix_of("Convert tabs to spaces"@, syntax::span(a, b), widened(s, a, b), d.code)
}

/// The even number of spaces that the engine takes `sp` spaces for.
pub open spec fn rounded(sp: int) -> int {
    2 * (sp / 2)
}

/// The correction of an odd indentation.
pub open spec fn odd_fix_of(d: DiagnosticView) -> FixView {
    let n = rounded(d.span.spec_len() as int);
    fix_of(
        "Fix indentation to "@ + wording::decimal(n as nat) + " spaces"@,
        d.span,
        wording::blanks(n),
        d.code,
    )
}

/// The corrections for the findings about indentation.
pub open spec fn indentation_fixes(s: Seq<u8>, d: DiagnosticView) -> Seq<FixView> {
    if d.code == diagnostics::TAB_INDENTATION@ {
        seq![tab_fix_of(s, d)]
    } else if d.code == diagnostics::ODD_INDENTATION@ {
        seq![odd_fix_of(d)]
    } else {
        Seq::empty()
    }
}

/// The corrections for a finding.
pub open spec fn fixes_of(s: Seq<u8>, d: DiagnosticView) -> Seq<FixView> {
    if d.code == diagnostics::TAB_INDENTATION@ || d.code == diagnostics::ODD_INDENTATION@ {
        indentation_fixes(s, d)
    } else if d.code == diagnostics::UNKNOWN_PROPERTY@ {
        suggestion_fixes_of(s, d, catalog::PROPERTIES@, 3)
    } else if d.code == diagnostics::UNKNOWN_STATE@ {
        suggestion_fixes_of(s, d, schema::STATES@, 1)
    } else if d.code == diagnostics::INVALID_ANCHOR_EDGE@ {
        suggestion_fixes_of(s, d, ANCHOR_CANDIDATES@, 1)
    } else if d.code == diagnostics::INVALID_PROPERTY_VALUE@ {
        match value_candidates(d.message) {
            Some(set) => suggestion_fixes_of(s, d, set, 1),
            None => Seq::empty(),
        }
    } else {
        Seq::empty()
    }
}

/// Whether two spans touch or overlap.
pub open spec fn touches(a: ByteSpan, b: ByteSpan) -> bool {
    a.start <= b.end && b.start <= a.end
}

/// The corrections for the first `k` of the findings that touch `range`.
pub open spec fn fixes_upto(s: Seq<u8>, ds: Seq<DiagnosticView>, range: ByteSpan, k: int) -> Seq<
    FixView,
>
    decreases k,
{
    if k <= 0 {
        Seq::empty()
    } else if touches(ds[k - 1].span, range) {
        fixes_upto(s, ds, range, k - 1) + fixes_of(s, ds[k - 1])
    } else {
        fixes_upto(s, ds, range, k - 1)
    }
}

/// The corrections of the indentation for the first `k` of the findings that touch `range`.
pub open spec fn structural_upto(
    s: Seq<u8>,
    ds: Seq<DiagnosticView>,
    range: ByteSpan,
    k: int,
) -> Seq<FixView>
    decreases k,
{
    if k <= 0 {
        Seq::empty()
    } else if touches(ds[k - 1].span, range) {
        structural_upto(s, ds, range, k - 1) + indentation_fixes(s, ds[k - 1])
    } else {
        structural_upto(s, ds, range, k - 1)
    }
}

/// The findings that every kind of document shares, ordered by place.
pub open spec fn structural_places(s: Seq<u8>) -> Seq<DiagnosticView> {
    order::stable_sort(diagnostics::structural_findings(s))
}

// ---------------------------------------------------------------------------------------------
// Laws
// ---------------------------------------------------------------------------------------------

/// Whether what is offered is a candidate that is close to the word.
pub open spec fn offered(word: Seq<char>, candidates: Seq<&'static str>, c: Scored) -> bool {
    &&& c.index < candidates.len()
    &&& close(word, candidates, c.index as int)
    &&& c.distance == distance(word, candidates[c.index as int]@)
}

/// What is listed as close is close.
pub proof fn lemma_close_upto(word: Seq<char>, candidates: Seq<&'static str>, k: int)
    requires
        0 <= k <= candidates.len(),
        candidates.len() <= usize::MAX,
        text::bytes_of(word).len() <= usize::MAX,
    ensures
        forall|i: int|
            0 <= i < close_upto(word, candidates, k).len() ==> offered(
                word,
                candidates,
                #[trigger] close_upto(word, candidates, k)[i],
            ),
    decreases k,
{
    if k > 0 {
        lemma_close_upto(word, candidates, k - 1);
        if close(word, candidates, k - 1) {
            let before = close_upto(word, candidates, k - 1);
            let all = close_upto(word, candidates, k);
            assert(offered(word, candidates, all.last()));
            assert forall|i: int| 0 <= i < all.len() implies offered(
                word,
                candidates,
                #[trigger] all[i],
            ) by {
                assert(i < before.len() ==> all[i] == before[i]);
            }
        } else {
            assert(close_upto(word, candidates, k) == close_upto(word, candidates, k - 1));
        }
    }
}

/// What is offered for a word is close to it and is not the word itself, and nothing farther comes
/// before it.
pub proof fn law_suggestions(word: Seq<char>, candidates: Seq<&'static str>, max: int)
    requires
        candidates.len() <= usize::MAX,
        text::bytes_of(word).len() <= usize::MAX,
        0 <= max,
    ensures
        suggested(word, candidates, max).len() <= max,
        forall|i: int|
            0 <= i < suggested(word, candidates, max).len() ==> {
                let d = distance(word, #[trigger] suggested(word, candidates, max)[i]);
                0 < d <= threshold(text::bytes_of(word).len() as int)
            },
        forall|i: int, j: int|
            #![trigger suggested(word, candidates, max)[i], suggested(word, candidates, max)[j]]
            0 <= i <= j < suggested(word, candidates, max).len() ==> distance(
                word,
                suggested(word, candidates, max)[i],
            ) <= distance(word, suggested(word, candidates, max)[j]),
{
    let all = close_upto(word, candidates, candidates.len() as int);
    let best = ranked(word, candidates);
    lemma_close_upto(word, candidates, candidates.len() as int);
    order::law_stable_sort(all);
    assert forall|i: int| 0 <= i < best.len() implies offered(
        word,
        candidates,
        #[trigger] best[i],
    ) by {
        broadcast use vstd::seq_lib::group_to_multiset_ensures;

        assert(best.contains(best[i]));
        assert(all.to_multiset().count(best[i]) > 0);
        assert(all.contains(best[i]));
    }
    let words = suggested(word, candidates, max);
    assert forall|i: int| 0 <= i < words.len() implies words[i]
        == candidates[#[trigger] best[i].index as int]@ by {}
    assert forall|i: int| 0 <= i < words.len() implies 0 < distance(word, #[trigger] words[i])
        <= threshold(text::bytes_of(word).len() as int) by {
        assert(offered(word, candidates, best[i]));
    }
    assert forall|i: int, j: int| #![trigger words[i], words[j]] 0 <= i <= j
        < words.len() implies distance(word, words[i]) <= distance(word, words[j]) by {
        assert(offered(word, candidates, best[i]));
        assert(offered(word, candidates, best[j]));
        assert(order::place_le(best[i].place(), best[j].place()));
    }
}

/// Rounding an indentation gives an even number of spaces of the same depth.
pub proof fn law_rounded(sp: int)
    requires
        0 <= sp,
    ensures
        rounded(sp) % 2 == 0,
        rounded(sp) / 2 == sp / 2,
        rounded(sp) <= sp,
{
}

/// A run of spaces and tabs is replaced by spaces: two for each tab, one for each space.
pub proof fn law_widened(s: Seq<u8>, a: int, b: int)
    requires
        a <= b,
    ensures
        widened(s, a, b) == wording::blanks(widened(s, a, b).len() as int),
        b - a <= widened(s, a, b).len() <= 2 * (b - a),
    decreases b - a,
{
    reveal_strlit(" ");
    reveal_strlit("  ");
    wording::law_blanks(widened(s, a, b).len() as int);
    if a < b {
        law_widened(s, a, b - 1);
        wording::law_blanks(widened(s, a, b - 1).len() as int);
    }
    assert(widened(s, a, b) =~= wording::blanks(widened(s, a, b).len() as int));
}

/// Whether a correction rewrites what a finding points at and nothing else. For a tab that is the
/// whole run of spaces and tabs in front of its line.
pub open spec fn corrects(s: Seq<u8>, d: DiagnosticView, f: FixView) -> bool {
    &&& f.fixes_code == d.code
    &&& f.edits.len() == 1
    &&& f.edits[0].0.start <= f.edits[0].0.end <= s.len()
    &&& if d.code == diagnostics::TAB_INDENTATION@ {
        forall|j: int|
            f.edits[0].0.start <= j < f.edits[0].0.end ==> (#[trigger] s[j] == ascii::SPACE || s[j]
                == ascii::TAB)
    } else {
        f.edits[0].0 == d.span
    }
}

proof fn lemma_blanks(s: Seq<u8>, i: int)
    requires
        0 <= i <= s.len(),
    ensures
        i <= blanks_end(s, i) <= s.len(),
        forall|j: int| i <= j < blanks_end(s, i) ==> (#[trigger] s[j] == ascii::SPACE || s[j] == ascii::TAB),
    decreases s.len() - i,
{
    if i < s.len() && (s[i] == ascii::SPACE || s[i] == ascii::TAB) {
        lemma_blanks(s, i + 1);
    }
}

proof fn lemma_fixes_correct(s: Seq<u8>, d: DiagnosticView)
    requires
        valid_utf8(s),
        s.len() <= usize::MAX,
        d.span.start <= d.span.end <= s.len(),
    ensures
        forall|i: int|
            0 <= i < fixes_of(s, d).len() ==> corrects(s, d, #[trigger] fixes_of(s, d)[i]),
{
    text::lemma_line_start(s, d.span.start as int);
    lemma_blanks(s, text::line_start(s, d.span.start as int));
    reveal_strlit("tab-indentation");
    reveal_strlit("odd-indentation");
    reveal_strlit("unknown-property");
    reveal_strlit("unknown-state");
    reveal_strlit("invalid-anchor-edge");
    reveal_strlit("invalid-property-value");
    assert(diagnostics::TAB_INDENTATION@.len() == 15);
    assert(diagnostics::ODD_INDENTATION@.len() == 15);
    assert(diagnostics::ODD_INDENTATION@[0] == 'o');
    assert(diagnostics::TAB_INDENTATION@[0] == 't');
}

/// Whether a correction is for one of the first `k` findings, and that finding touches `range`.
pub open spec fn is_called_for(
    s: Seq<u8>,
    ds: Seq<DiagnosticView>,
    range: ByteSpan,
    k: int,
    f: FixView,
) -> bool {
    exists|j: int|
        0 <= j < k && touches(ds[j].span, range) && corrects(s, #[trigger] ds[j], f)
}

proof fn lemma_called_for(s: Seq<u8>, ds: Seq<DiagnosticView>, range: ByteSpan, k: int)
    requires
        valid_utf8(s),
        s.len() <= usize::MAX,
        0 <= k <= ds.len(),
        diagnostics::all_sound(s, ds),
    ensures
        forall|i: int|
            0 <= i < fixes_upto(s, ds, range, k).len() ==> is_called_for(
                s,
                ds,
                range,
                k,
                #[trigger] fixes_upto(s, ds, range, k)[i],
            ),
    decreases k,
{
    let all = fixes_upto(s, ds, range, k);
    if k > 0 {
        lemma_called_for(s, ds, range, k - 1);
        let before = fixes_upto(s, ds, range, k - 1);
        let new = fixes_of(s, ds[k - 1]);
        assert(diagnostics::sound(s, ds[k - 1]));
        lemma_fixes_correct(s, ds[k - 1]);
        assert forall|i: int| 0 <= i < all.len() implies is_called_for(
            s,
            ds,
            range,
            k,
            #[trigger] all[i],
        ) by {
            if i < before.len() {
                assert(all[i] == before[i]);
                assert(is_called_for(s, ds, range, k - 1, before[i]));
                let j = choose|j: int|
                    0 <= j < k - 1 && touches(ds[j].span, range) && corrects(
                        s,
                        #[trigger] ds[j],
                        before[i],
                    );
                assert(corrects(s, ds[j], all[i]));
            } else {
                assert(all[i] == new[i - before.len()]);
                assert(corrects(s, ds[k - 1], all[i]));
            }
        }
    }
}

/// Each correction is for a finding that touches the range, and rewrites what that finding points at
/// and nothing else.
pub proof fn law_fixes_correct_findings(s: Seq<u8>, range: ByteSpan)
    requires
        valid_utf8(s),
        s.len() <= usize::MAX,
    ensures
        ({
            let ds = diagnostics::findings(s, None);
            let n = ds.len() as int;
            forall|i: int|
                0 <= i < fixes_upto(s, ds, range, n).len() ==> is_called_for(
                    s,
                    ds,
                    range,
                    n,
                    #[trigger] fixes_upto(s, ds, range, n)[i],
                )
        }),
{
    let ds = diagnostics::findings(s, None);
    diagnostics::law_findings(s, None);
    lemma_called_for(s, ds, range, ds.len() as int);
}

// ---------------------------------------------------------------------------------------------
// Computing corrections
// ---------------------------------------------------------------------------------------------

/// The candidates that are close to `word`.
fn score(word: &str, candidates: &[&'static str]) -> (scored: Vec<Scored>)
    ensures
        lang_api::views(scored@) == close_upto(word@, candidates@, candidates@.len() as int),
        forall|i: int| 0 <= i < scored@.len() ==> (#[trigger] scored@[i]).index < candidates@.len(),
{
    let third: usize = word.as_bytes().len() / 3;
    let limit: usize = if third > 2 {
        third
    } else {
        2
    };
    let mut scored: Vec<Scored> = Vec::new();
    let mut i: usize = 0;
    assert(lang_api::views(scored@) =~= Seq::empty());
    while i < candidates.len()
        invariant
            i <= candidates@.len(),
            limit == threshold(text::bytes_of(word@).len() as int),
            lang_api::views(scored@) == close_upto(word@, candidates@, i as int),
            forall|k: int| 0 <= k < scored@.len() ==> (#[trigger] scored@[k]).index < i,
        decreases candidates@.len() - i,
    {
        let d: usize = edit_distance(word, candidates[i]);
        if d > 0 && d <= limit {
            proof {
                lang_api::lemma_views_push(scored@, Scored { distance: d, index: i });
            }
            scored.push(Scored { distance: d, index: i });
        }
        i += 1;
    }
    scored
}

proof fn lemma_indexes(items: Seq<Scored>, n: nat)
    requires
        forall|i: int| 0 <= i < items.len() ==> (#[trigger] items[i]).index < n,
    ensures
        forall|i: int|
            0 <= i < items.len() ==> (#[trigger] order::stable_sort(items)[i]).index < n,
        order::stable_sort(items).len() == items.len(),
{
    let best = order::stable_sort(items);
    order::law_stable_sort(items);
    assert forall|i: int| 0 <= i < items.len() implies (#[trigger] best[i]).index < n by {
        broadcast use vstd::seq_lib::group_to_multiset_ensures;

        assert(best.contains(best[i]));
        assert(items.to_multiset().count(best[i]) > 0);
        assert(items.contains(best[i]));
    }
}

/// The words offered for `word`.
pub fn closest(word: &str, candidates: &[&'static str], max: usize) -> (words: Vec<&'static str>)
    ensures
        words@.map_values(|w: &'static str| w@) == suggested(word@, candidates@, max as int),
{
    let scored = score(word, candidates);
    let ghost items = scored@;
    proof {
        assert(lang_api::views(items) =~= items);
        lemma_indexes(items, candidates@.len());
    }
    let best = sort_by_place(scored);
    let ghost model = first_of(ranked(word@, candidates@), max as int);
    assert(lang_api::views(best@) =~= best@);
    let ghost text = |w: &'static str| w@;
    let mut words: Vec<&'static str> = Vec::new();
    let mut i: usize = 0;
    while i < best.len() && i < max
        invariant
            i <= best@.len(),
            i <= max,
            text == (|w: &'static str| w@),
            best@ == ranked(word@, candidates@),
            model == first_of(best@, max as int),
            forall|k: int| 0 <= k < best@.len() ==> (#[trigger] best@[k]).index < candidates@.len(),
            words@.len() == i,
            forall|k: int|
                0 <= k < i ==> (#[trigger] words@[k])@ == candidates@[best@[k].index as int]@,
        decreases best@.len() - i,
    {
        words.push(candidates[best[i].index]);
        i += 1;
    }
    assert(words@.len() == model.len());
    assert(words@.map_values(text) =~= suggested(word@, candidates@, max as int));
    words
}

/// Adds a correction that replaces one span.
fn offer(
    out: &mut Vec<Fix>,
    title: String,
    span: ByteSpan,
    replacement: String,
    code: &'static str,
)
    ensures
        lang_api::views(final(out)@) == lang_api::views(old(out)@).push(
            fix_of(title@, span, replacement@, code@),
        ),
{
    let mut edits: Vec<(ByteSpan, String)> = Vec::new();
    let ghost edit = (span, replacement@);
    edits.push((span, replacement));
    let fix = Fix { title, edits, fixes_code: code };
    proof {
        assert(fix@.edits =~= seq![edit]);
        lang_api::lemma_views_push(out@, fix);
    }
    out.push(fix);
}

/// Adds the corrections that offer known words for the word that a finding points at.
fn suggestion_fixes(
    source: &str,
    diag: &Diagnostic,
    candidates: &[&'static str],
    max: usize,
    out: &mut Vec<Fix>,
)
    requires
        syntax::in_text(source.spec_bytes(), diag.span),
    ensures
        lang_api::views(final(out)@) == lang_api::views(old(out)@) + suggestion_fixes_of(
            source.spec_bytes(),
            diag@,
            candidates@,
            max as int,
        ),
{
    let word = substr(source, diag.span.start, diag.span.end);
    let words = closest(word, candidates, max);
    let ghost model = suggestion_fixes_of(source.spec_bytes(), diag@, candidates@, max as int);
    let ghost before = lang_api::views(out@);
    let ghost texts = words@.map_values(|w: &'static str| w@);
    assert(texts == suggested(word@, candidates@, max as int));
    let mut i: usize = 0;
    assert(before + model.take(0) =~= before);
    while i < words.len()
        invariant
            i <= words@.len(),
            words@.len() == model.len(),
            texts == words@.map_values(|w: &'static str| w@),
            model == word_fixes(texts, diag@),
            lang_api::views(out@) == before + model.take(i as int),
        decreases words@.len() - i,
    {
        let word = words[i];
        assert(texts[i as int] == word@);
        offer(out, join3("Did you mean `", word, "`?"), diag.span, word.to_owned(), diag.code);
        assert(lang_api::views(out@) =~= before + model.take(i + 1));
        i += 1;
    }
    assert(model.take(words@.len() as int) =~= model);
}

/// Whether a message holds the words `part`.
fn holds_words(message: &str, part: &str) -> (r: bool)
    ensures
        r == mentions(message@, part.spec_bytes()),
{
    find_at(message.as_bytes(), part.as_bytes(), 0).is_some()
}

/// The values that the property takes that a message names, where they form a small set.
fn value_candidate_set(message: &str) -> (r: Option<&'static [&'static str]>)
    ensures
        match r {
            Some(set) => value_candidates(message@) == Some(set@),
            None => value_candidates(message@) is None,
        },
{
    if holds_words(message, "`display`") {
        Some(&schema::DISPLAY_VALUES)
    } else if holds_words(message, "`layout`") {
        Some(&schema::LAYOUT_TYPES)
    } else {
        None
    }
}

/// The end of the run of spaces and tabs at `start`.
fn leading_whitespace_end(source: &str, start: usize) -> (r: usize)
    requires
        start <= source.spec_bytes().len(),
    ensures
        r == blanks_end(source.spec_bytes(), start as int),
        start <= r <= source.spec_bytes().len(),
{
    let b = source.as_bytes();
    let mut i: usize = start;
    while i < b.len() && (b[i] == ascii::SPACE || b[i] == ascii::TAB)
        invariant
            b@ == source.spec_bytes(),
            start <= i <= b@.len(),
            blanks_end(b@, i as int) == blanks_end(b@, start as int),
        decreases b@.len() - i,
    {
        i += 1;
    }
    i
}

/// Adds the correction of a tab in an indentation.
fn tab_fix(source: &str, diag: &Diagnostic, out: &mut Vec<Fix>)
    requires
        diag.span.start <= source.spec_bytes().len(),
    ensures
        lang_api::views(final(out)@) == lang_api::views(old(out)@).push(
            tab_fix_of(source.spec_bytes(), diag@),
        ),
{
    let b = source.as_bytes();
    let start: usize = line_start_of(source, diag.span.start);
    let end: usize = leading_whitespace_end(source, start);
    let mut replacement = String::new();
    let mut i: usize = start;
    while i < end
        invariant
            b@ == source.spec_bytes(),
            start <= i <= end <= b@.len(),
            replacement@ == widened(b@, start as int, i as int),
        decreases end - i,
    {
        if b[i] == ascii::TAB {
            replacement.append("  ");
        } else {
            replacement.append(" ");
        }
        i += 1;
    }
    offer(
        out,
        "Convert tabs to spaces".to_owned(),
        ByteSpan::new(start, end),
        replacement,
        diag.code,
    );
}

/// Adds the correction of an odd indentation.
fn odd_fix(diag: &Diagnostic, out: &mut Vec<Fix>)
    requires
        diag.span.start <= diag.span.end,
    ensures
        lang_api::views(final(out)@) == lang_api::views(old(out)@).push(odd_fix_of(diag@)),
{
    let target: usize = 2 * (diag.span.len() / 2);
    offer(
        out,
        join3("Fix indentation to ", decimal_text(target).as_str(), " spaces"),
        diag.span,
        blank_text(target),
        diag.code,
    );
}

/// Adds the corrections for a finding about indentation.
fn indentation_fix(source: &str, diag: &Diagnostic, out: &mut Vec<Fix>)
    requires
        syntax::in_text(source.spec_bytes(), diag.span),
    ensures
        lang_api::views(final(out)@) == lang_api::views(old(out)@) + indentation_fixes(
            source.spec_bytes(),
            diag@,
        ),
{
    assert(lang_api::views(out@) + Seq::<FixView>::empty() =~= lang_api::views(out@));
    if same_str(diag.code, diagnostics::TAB_INDENTATION) {
        tab_fix(source, diag, out);
    } else if same_str(diag.code, diagnostics::ODD_INDENTATION) {
        odd_fix(diag, out);
    }
}

/// Adds the corrections for a finding.
fn fixes_for(source: &str, diag: &Diagnostic, out: &mut Vec<Fix>)
    requires
        syntax::in_text(source.spec_bytes(), diag.span),
    ensures
        lang_api::views(final(out)@) == lang_api::views(old(out)@) + fixes_of(
            source.spec_bytes(),
            diag@,
        ),
{
    assert(lang_api::views(out@) + Seq::<FixView>::empty() =~= lang_api::views(out@));
    if same_str(diag.code, diagnostics::TAB_INDENTATION) || same_str(
        diag.code,
        diagnostics::ODD_INDENTATION,
    ) {
        indentation_fix(source, diag, out);
    } else if same_str(diag.code, diagnostics::UNKNOWN_PROPERTY) {
        suggestion_fixes(source, diag, &catalog::PROPERTIES, 3, out);
    } else if same_str(diag.code, diagnostics::UNKNOWN_STATE) {
        suggestion_fixes(source, diag, &schema::STATES, 1, out);
    } else if same_str(diag.code, diagnostics::INVALID_ANCHOR_EDGE) {
        suggestion_fixes(source, diag, &ANCHOR_CANDIDATES, 1, out);
    } else if same_str(diag.code, diagnostics::INVALID_PROPERTY_VALUE) {
        if let Some(set) = value_candidate_set(diag.message.as_str()) {
            suggestion_fixes(source, diag, set, 1, out);
        }
    }
}

/// Whether two spans touch or overlap.
fn overlaps(a: ByteSpan, b: ByteSpan) -> (r: bool)
    ensures
        r == touches(a, b),
{
    a.start <= b.end && b.start <= a.end
}

/// The corrections for the findings that touch `range`.
pub fn quick_fixes(source: &str, range: ByteSpan) -> (out: Vec<Fix>)
    ensures
        lang_api::views(out@) == fixes_upto(
            source.spec_bytes(),
            diagnostics::findings(source.spec_bytes(), None),
            range,
            diagnostics::findings(source.spec_bytes(), None).len() as int,
        ),
{
    let ghost s = source.spec_bytes();
    let n: usize = source.as_bytes().len();
    let diags = analyze(source);
    let ghost ds = diagnostics::findings(s, None);
    proof {
        text::lemma_valid(source);
        diagnostics::law_findings(s, None);
    }
    let mut out: Vec<Fix> = Vec::new();
    let mut i: usize = 0;
    assert(lang_api::views(out@) =~= Seq::empty());
    while i < diags.len()
        invariant
            s == source.spec_bytes(),
            ds == lang_api::views(diags@),
            diagnostics::all_sound(s, ds),
            i <= diags@.len(),
            lang_api::views(out@) == fixes_upto(s, ds, range, i as int),
        decreases diags@.len() - i,
    {
        let diag = &diags[i];
        assert(ds[i as int] == diag@);
        if overlaps(diag.span, range) {
            fixes_for(source, diag, &mut out);
        }
        i += 1;
    }
    out
}

/// The corrections of the indentation for the findings that touch `range`. They suit every kind of
/// document, whatever its keys mean.
pub fn structural_quick_fixes(source: &str, range: ByteSpan) -> (out: Vec<Fix>)
    ensures
        lang_api::views(out@) == structural_upto(
            source.spec_bytes(),
            structural_places(source.spec_bytes()),
            range,
            structural_places(source.spec_bytes()).len() as int,
        ),
{
    let ghost s = source.spec_bytes();
    let n: usize = source.as_bytes().len();
    let ghost ds = structural_places(s);
    proof {
        text::lemma_valid(source);
        diagnostics::law_structural_findings(s);
    }
    let mut out: Vec<Fix> = Vec::new();
    assert(lang_api::views(out@) =~= Seq::empty());
    let diags = match SyntaxTree::parse(source) {
        Some(tree) => sort_by_place(structural_diagnostics(&tree)),
        None => Vec::new(),
    };
    let mut i: usize = 0;
    while i < diags.len()
        invariant
            s == source.spec_bytes(),
            ds == lang_api::views(diags@),
            diagnostics::all_sound(s, ds),
            i <= diags@.len(),
            lang_api::views(out@) == structural_upto(s, ds, range, i as int),
        decreases diags@.len() - i,
    {
        let diag = &diags[i];
        assert(ds[i as int] == diag@);
        if overlaps(diag.span, range) {
            indentation_fix(source, diag, &mut out);
        }
        i += 1;
    }
    out
}

} // verus!
