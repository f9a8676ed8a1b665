//! Which corrections are offered.

use crate::catalog;
use crate::diagnostics;
use crate::fixes;
use crate::fixes::{FixView, Scored};
use crate::lang_api::{ByteSpan, DiagnosticView};
use crate::order;
use crate::order::Placed;
use crate::schema;
use crate::syntax;
use crate::text;
use crate::wording;
use vstd::prelude::*;
use vstd::string::*;
use vstd::utf8::*;

verus! {

/// Whether a candidate is close to a word without being it: it takes no more edits than a third of
/// the bytes of the word, or than two where that is more.
pub open spec fn close_to(word: Seq<char>, other: Seq<char>) -> bool {
    let d = fixes::distance(word, other);
    0 < d && (d <= 2 || 3 * d <= text::bytes_of(word).len())
}

proof fn lemma_close(word: Seq<char>, candidates: Seq<&'static str>, n: int, i: int)
    requires
        0 <= i < n <= candidates.len() <= usize::MAX,
        text::bytes_of(word).len() <= usize::MAX,
        close_to(word, candidates[i]@),
    ensures
        fixes::close_upto(word, candidates, n).contains(
            Scored {
                distance: fixes::distance(word, candidates[i]@) as usize,
                index: i as usize,
            },
        ),
    decreases n,
{
    let want = Scored {
        distance: fixes::distance(word, candidates[i]@) as usize,
        index: i as usize,
    };
    let before = fixes::close_upto(word, candidates, n - 1);
    let all = fixes::close_upto(word, candidates, n);
    if i == n - 1 {
        assert(fixes::close(word, candidates, i));
        assert(all[before.len() as int] == want);
    } else {
        lemma_close(word, candidates, n - 1, i);
        assert(all[before.index_of(want)] == want);
    }
}

/// A candidate that is close to the word is offered, unless as many as can be offered are offered
/// that are no farther.
pub proof fn law_close_words_are_offered(
    word: Seq<char>,
    candidates: Seq<&'static str>,
    max: int,
    i: int,
)
    requires
        0 <= i < candidates.len() <= usize::MAX,
        text::bytes_of(word).len() <= usize::MAX,
        0 <= max,
        close_to(word, candidates[i]@),
    ensures
        ({
            let all = fixes::suggested(word, candidates, max);
            ||| all.contains(candidates[i]@)
            ||| all.len() == max && forall|j: int|
                0 <= j < all.len() ==> fixes::distance(word, #[trigger] all[j]) <= fixes::distance(
                    word,
                    candidates[i]@,
                )
        }),
{
    broadcast use vstd::seq_lib::group_to_multiset_ensures;

    let n = candidates.len() as int;
    let close = fixes::close_upto(word, candidates, n);
    let best = fixes::ranked(word, candidates);
    let all = fixes::suggested(word, candidates, max);
    let want = Scored {
        distance: fixes::distance(word, candidates[i]@) as usize,
        index: i as usize,
    };
    lemma_close(word, candidates, n, i);
    order::law_stable_sort(close);
    fixes::lemma_close_upto(word, candidates, n);
    assert(close.to_multiset().count(want) > 0);
    assert(best.to_multiset().count(want) > 0);
    assert(best.contains(want));
    let k = best.index_of(want);
    if k < all.len() {
        assert(all[k] == candidates[i]@);
    } else {
        assert(all.len() == max);
        assert forall|j: int| 0 <= j < all.len() implies fixes::distance(word, #[trigger] all[j])
            <= fixes::distance(word, candidates[i]@) by {
            assert(best.contains(best[j]));
            assert(close.to_multiset().count(best[j]) > 0);
            assert(close.contains(best[j]));
            assert(fixes::offered(word, candidates, best[j]));
            assert(fixes::offered(word, candidates, want)) by {
                assert(close.contains(want));
            }
            assert(order::place_le(best[j].place(), best[k].place()));
            assert(all[j] == candidates[best[j].index as int]@);
        }
    }
}

proof fn lemma_fix_found(
    s: Seq<u8>,
    ds: Seq<DiagnosticView>,
    range: ByteSpan,
    n: int,
    k: int,
    f: FixView,
)
    requires
        0 <= k < n <= ds.len(),
        fixes::touches(ds[k].span, range),
        fixes::fixes_of(s, ds[k]).contains(f),
    ensures
        fixes::fixes_upto(s, ds, range, n).contains(f),
    decreases n,
{
    let before = fixes::fixes_upto(s, ds, range, n - 1);
    let own = fixes::fixes_of(s, ds[n - 1]);
    let all = fixes::fixes_upto(s, ds, range, n);
    if k == n - 1 {
        assert(all[before.len() + own.index_of(f)] == f);
    } else {
        lemma_fix_found(s, ds, range, n - 1, k, f);
        assert(all[before.index_of(f)] == f);
    }
}

/// Whether a correction puts `words` at `sp`, and nothing else.
pub open spec fn rewrites(f: FixView, sp: ByteSpan, words: Seq<char>) -> bool {
    f.edits.len() == 1 && f.edits[0].0 == sp && f.edits[0].1 == words
}

/// Whether a text is nothing but spaces.
pub open spec fn only_spaces(t: Seq<char>, n: int) -> bool {
    t.len() == n && forall|i: int| 0 <= i < t.len() ==> #[trigger] t[i] == ' '
}

/// An odd indentation that touches the range is corrected to one space less, and nothing but spaces.
pub proof fn law_odd_indentation_is_corrected(s: Seq<u8>, range: ByteSpan, k: int)
    requires
        0 <= k < diagnostics::findings(s, None).len(),
        diagnostics::findings(s, None)[k].code == "odd-indentation"@,
        diagnostics::findings(s, None)[k].span.start <= diagnostics::findings(s, None)[k].span.end,
        (diagnostics::findings(s, None)[k].span.end - diagnostics::findings(
            s,
            None,
        )[k].span.start) % 2 == 1,
        diagnostics::findings(s, None)[k].span.start <= range.end,
        range.start <= diagnostics::findings(s, None)[k].span.end,
    ensures
        ({
            let ds = diagnostics::findings(s, None);
            let sp = ds[k].span;
            exists|i: int, words: Seq<char>|
                0 <= i < fixes::fixes_upto(s, ds, range, ds.len() as int).len()
                    && #[trigger] rewrites(
                    fixes::fixes_upto(s, ds, range, ds.len() as int)[i],
                    sp,
                    words,
                ) && only_spaces(words, sp.end - sp.start - 1)
        }),
{
    let ds = diagnostics::findings(s, None);
    let d = ds[k];
    reveal_strlit("tab-indentation");
    reveal_strlit("odd-indentation");
    assert("tab-indentation"@[0] == 't');
    assert("odd-indentation"@[0] == 'o');
    assert(d.code == diagnostics::ODD_INDENTATION@);
    let f = fixes::odd_fix_of(d);
    let own = fixes::fixes_of(s, d);
    assert(own[0] == f);
    assert(own.contains(f));
    lemma_fix_found(s, ds, range, ds.len() as int, k, f);
    let all = fixes::fixes_upto(s, ds, range, ds.len() as int);
    let i = all.index_of(f);
    let n = d.span.end - d.span.start - 1;
    let words = wording::blanks(n);
    wording::law_blanks(n);
    assert(rewrites(all[i], d.span, words));
    assert(only_spaces(words, n));
}

/// For a property that the engine ignores and that touches the range, each word that is offered for
/// it is offered in its place; and so is the one that is offered for an unknown state.
pub proof fn law_misspellings_are_corrected(s: Seq<u8>, range: ByteSpan, k: int, word: Seq<char>)
    requires
        valid_utf8(s),
        s.len() <= usize::MAX,
        0 <= k < diagnostics::findings(s, None).len(),
        diagnostics::findings(s, None)[k].span.start <= range.end,
        range.start <= diagnostics::findings(s, None)[k].span.end,
        ({
            let d = diagnostics::findings(s, None)[k];
            let old = text::chars_of(s.subrange(d.span.start as int, d.span.end as int));
            ||| d.code == "unknown-property"@ && fixes::suggested(
                old,
                catalog::PROPERTIES@,
                3,
            ).contains(word)
            ||| d.code == "unknown-state"@ && fixes::suggested(old, schema::STATES@, 1).contains(
                word,
            )
        }),
    ensures
        ({
            let ds = diagnostics::findings(s, None);
            exists|i: int|
                0 <= i < fixes::fixes_upto(s, ds, range, ds.len() as int).len()
                    && #[trigger] rewrites(
                    fixes::fixes_upto(s, ds, range, ds.len() as int)[i],
                    ds[k].span,
                    word,
                )
        }),
{
    let ds = diagnostics::findings(s, None);
    let d = ds[k];
    diagnostics::law_findings(s, None);
    assert(diagnostics::sound(s, d));
    reveal_strlit("tab-indentation");
    reveal_strlit("odd-indentation");
    reveal_strlit("unknown-property");
    reveal_strlit("unknown-state");
    assert("tab-indentation"@.len() == 15 && "odd-indentation"@.len() == 15);
    assert("unknown-property"@.len() == 16 && "unknown-state"@.len() == 13);
    let old = text::chars_of(syntax::cut(s, d.span));
    let words = if d.code == "unknown-property"@ {
        fixes::suggested(old, catalog::PROPERTIES@, 3)
    } else {
        fixes::suggested(old, schema::STATES@, 1)
    };
    let own = fixes::fixes_of(s, d);
    let i = words.index_of(word);
    lemma_own(s, d, words);
    let f = own[i];
    assert(own.contains(f));
    lemma_fix_found(s, ds, range, ds.len() as int, k, f);
    let all = fixes::fixes_upto(s, ds, range, ds.len() as int);
    assert(rewrites(all[all.index_of(f)], d.span, word));
}

proof fn lemma_own(s: Seq<u8>, d: DiagnosticView, words: Seq<Seq<char>>)
    requires
        syntax::in_text(s, d.span),
        d.code == "unknown-property"@ || d.code == "unknown-state"@,
        words == if d.code == "unknown-property"@ {
            fixes::suggested(text::chars_of(syntax::cut(s, d.span)), catalog::PROPERTIES@, 3)
        } else {
            fixes::suggested(text::chars_of(syntax::cut(s, d.span)), schema::STATES@, 1)
        },
    ensures
        fixes::fixes_of(s, d) == fixes::word_fixes(words, d),
{
    reveal_strlit("tab-indentation");
    reveal_strlit("odd-indentation");
    reveal_strlit("unknown-property");
    reveal_strlit("unknown-state");
    assert("tab-indentation"@.len() == 15 && "odd-indentation"@.len() == 15);
    assert("unknown-property"@.len() == 16 && "unknown-state"@.len() == 13);
}

} // verus!
