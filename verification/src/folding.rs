//! The parts of a document that an editor can fold away.
//!
//! A widget folds with everything below it, the body of a block scalar folds into its marker line,
//! and so do two or more comments on consecutive lines. The first line of a fold stays visible, so a
//! fold covers two lines at least. A document with a line that fits no kind of statement has no
//! folds: where such a line belongs is anyone's guess, and so is what lies below it.

use crate::nodes;
use crate::nodes::last_statement_below;
use crate::style_index;
use crate::style_index::is_widget;
use crate::syntax;
use crate::syntax::{Stmt, StmtKind, SyntaxTree};
use crate::text;
use vstd::prelude::*;
use vstd::string::*;
use vstd::utf8::*;

verus! {

/// What a fold holds.
#[derive(Debug, Clone, Copy, PartialEq, Eq, Structural)]
pub enum FoldKind {
    /// A widget or the body of a block scalar.
    Region,
    /// Comments.
    Comment,
}

/// Lines that can be folded away, all but the first.
#[derive(Debug, Clone, Copy, PartialEq, Eq, Structural)]
pub struct FoldRange {
    /// The first line, which stays visible.
    pub start_line: u32,
    /// The last line.
    pub end_line: u32,
    /// What the fold holds.
    pub kind: FoldKind,
}

/// The fold of the given lines.
pub open spec fn fold(start: int, end: int, kind: FoldKind) -> FoldRange {
    FoldRange { start_line: start as u32, end_line: end as u32, kind }
}

/// The line on which what folds into statement `k` ends.
pub open spec fn fold_end(stmts: Seq<Stmt>, k: int) -> int {
    if style_index::widget(stmts[k]) {
        stmts[nodes::last_below(stmts, k, stmts.len() as int)].last_line as int
    } else if stmts[k].body is Some {
        stmts[k].last_line as int
    } else {
        stmts[k].line as int
    }
}

/// The folds of the first `k` statements.
pub open spec fn region_folds(stmts: Seq<Stmt>, k: int) -> Seq<FoldRange>
    decreases k,
{
    if k <= 0 {
        Seq::empty()
    } else if fold_end(stmts, k - 1) > stmts[k - 1].line {
        region_folds(stmts, k - 1).push(
            fold(stmts[k - 1].line as int, fold_end(stmts, k - 1), FoldKind::Region),
        )
    } else {
        region_folds(stmts, k - 1)
    }
}

/// The lines of the comments among the first `k` statements.
pub open spec fn comment_lines(stmts: Seq<Stmt>, k: int) -> Seq<usize>
    decreases k,
{
    if k <= 0 {
        Seq::empty()
    } else if stmts[k - 1].kind == StmtKind::Comment {
        comment_lines(stmts, k - 1).push(stmts[k - 1].line)
    } else {
        comment_lines(stmts, k - 1)
    }
}

/// The last of the items from item `i` on that are consecutive numbers.
pub open spec fn run_end(lines: Seq<usize>, i: int) -> int
    decreases lines.len() - i,
{
    if 0 <= i && i + 1 < lines.len() && lines[i + 1] == lines[i] + 1 {
        run_end(lines, i + 1)
    } else {
        i
    }
}

pub proof fn lemma_run_end(lines: Seq<usize>, i: int)
    requires
        0 <= i < lines.len(),
    ensures
        i <= run_end(lines, i) < lines.len(),
        lines[run_end(lines, i)] == lines[i] + (run_end(lines, i) - i),
    decreases lines.len() - i,
{
    if i + 1 < lines.len() && lines[i + 1] == lines[i] + 1 {
        lemma_run_end(lines, i + 1);
    }
}

/// The folds of comments on the given lines, from item `i` on.
pub open spec fn comment_folds_from(lines: Seq<usize>, i: int) -> Seq<FoldRange>
    decreases lines.len() - i,
    via comment_folds_decreases
{
    if !(0 <= i < lines.len()) {
        Seq::empty()
    } else {
        let j = run_end(lines, i);
        if j > i {
            seq![fold(lines[i] as int, lines[j] as int, FoldKind::Comment)] + comment_folds_from(
                lines,
                j + 1,
            )
        } else {
            comment_folds_from(lines, j + 1)
        }
    }
}

#[via_fn]
proof fn comment_folds_decreases(lines: Seq<usize>, i: int) {
    if 0 <= i < lines.len() {
        lemma_run_end(lines, i);
    }
}

/// The folds of a document.
pub open spec fn folds(stmts: Seq<Stmt>) -> Seq<FoldRange> {
    let n = stmts.len() as int;
    if syntax::broken(stmts) {
        Seq::empty()
    } else {
        region_folds(stmts, n) + comment_folds_from(comment_lines(stmts, n), 0)
    }
}

/// Whether a fold covers two lines at least.
pub open spec fn covers_lines(f: FoldRange) -> bool {
    f.start_line < f.end_line
}

pub proof fn lemma_fold_end(s: Seq<u8>, k: int)
    requires
        valid_utf8(s),
        s.len() <= u32::MAX,
        0 <= k < syntax::stmts(s).len(),
    ensures
        0 <= fold_end(syntax::stmts(s), k) <= u32::MAX,
        syntax::stmts(s)[k].line <= u32::MAX,
{
    let stmts = syntax::stmts(s);
    let last = nodes::last_below(stmts, k, stmts.len() as int);
    nodes::lemma_last_below(stmts, k, stmts.len() as int);
    syntax::lemma_stmts(s);
    syntax::lemma_lines_count(s, 0);
    assert(syntax::stmt_ok(s, stmts[k]));
    assert(syntax::stmt_ok(s, stmts[last]));
}

proof fn lemma_region_folds(stmts: Seq<Stmt>, k: int)
    requires
        0 <= k <= stmts.len(),
        forall|i: int|
            0 <= i < stmts.len() ==> 0 <= #[trigger] fold_end(stmts, i) <= u32::MAX
                && stmts[i].line <= u32::MAX,
    ensures
        forall|i: int|
            0 <= i < region_folds(stmts, k).len() ==> covers_lines(
                #[trigger] region_folds(stmts, k)[i],
            ),
    decreases k,
{
    if k > 0 {
        let before = region_folds(stmts, k - 1);
        lemma_region_folds(stmts, k - 1);
        let end = fold_end(stmts, k - 1);
        let line = stmts[k - 1].line as int;
        if end > line {
            assert(covers_lines(fold(line, end, FoldKind::Region)));
            assert(region_folds(stmts, k) == before.push(fold(line, end, FoldKind::Region)));
        } else {
            assert(region_folds(stmts, k) == before);
        }
    }
}

pub proof fn lemma_comment_lines(s: Seq<u8>, k: int)
    requires
        valid_utf8(s),
        s.len() <= u32::MAX,
        0 <= k <= syntax::stmts(s).len(),
    ensures
        forall|i: int|
            0 <= i < comment_lines(syntax::stmts(s), k).len() ==> #[trigger] comment_lines(
                syntax::stmts(s),
                k,
            )[i] <= u32::MAX,
    decreases k,
{
    if k > 0 {
        let stmts = syntax::stmts(s);
        lemma_comment_lines(s, k - 1);
        syntax::lemma_stmts(s);
        syntax::lemma_lines_count(s, 0);
        assert(syntax::stmt_ok(s, stmts[k - 1]));
        if stmts[k - 1].kind != StmtKind::Comment {
            assert(comment_lines(stmts, k) == comment_lines(stmts, k - 1));
        } else {
            assert(comment_lines(stmts, k) == comment_lines(stmts, k - 1).push(
                stmts[k - 1].line,
            ));
        }
    }
}

proof fn lemma_comment_folds(lines: Seq<usize>, i: int)
    requires
        forall|j: int| 0 <= j < lines.len() ==> #[trigger] lines[j] <= u32::MAX,
        0 <= i,
    ensures
        forall|j: int|
            0 <= j < comment_folds_from(lines, i).len() ==> covers_lines(
                #[trigger] comment_folds_from(lines, i)[j],
            ),
    decreases lines.len() - i,
{
    if i < lines.len() {
        lemma_run_end(lines, i);
        let j = run_end(lines, i);
        lemma_comment_folds(lines, j + 1);
        let rest = comment_folds_from(lines, j + 1);
        if j > i {
            assert forall|x: int| 0 <= x < comment_folds_from(lines, i).len() implies covers_lines(
                #[trigger] comment_folds_from(lines, i)[x],
            ) by {
                if x > 0 {
                    assert(comment_folds_from(lines, i)[x] == rest[x - 1]);
                }
            }
        } else {
            assert(comment_folds_from(lines, i) == rest);
        }
    }
}

/// A fold ends behind the line on which it starts.
pub proof fn law_folds_cover_lines(s: Seq<u8>)
    requires
        valid_utf8(s),
        s.len() <= u32::MAX,
    ensures
        forall|i: int|
            0 <= i < folds(syntax::stmts(s)).len() ==> covers_lines(
                #[trigger] folds(syntax::stmts(s))[i],
            ),
{
    let n = syntax::stmts(s).len() as int;
    assert forall|i: int| 0 <= i < n implies 0 <= #[trigger] fold_end(syntax::stmts(s), i)
        <= u32::MAX && syntax::stmts(s)[i].line <= u32::MAX by {
        lemma_fold_end(s, i);
    }
    lemma_region_folds(syntax::stmts(s), n);
    lemma_comment_lines(s, n);
    lemma_comment_folds(comment_lines(syntax::stmts(s), n), 0);
}

/// The number of a line.
fn line_number(line: usize) -> (r: u32)
    ensures
        r == line as u32,
{
    #[verifier::truncate]
    (line as u32)
}

/// Whether each line comes after the one before it.
pub open spec fn increasing(lines: Seq<usize>) -> bool {
    forall|i: int, j: int|
        #![trigger lines[i], lines[j]]
        0 <= i < j < lines.len() ==> lines[i] < lines[j]
}

/// Two increasing lists of the same lines are equal.
proof fn lemma_increasing_unique(a: Seq<usize>, b: Seq<usize>)
    requires
        increasing(a),
        increasing(b),
        forall|x: usize| a.contains(x) == #[trigger] b.contains(x),
    ensures
        a == b,
    decreases a.len(),
{
    if a.len() == 0 {
        if b.len() > 0 {
            assert(b.contains(b[0]));
        }
        assert(a =~= b);
    } else {
        assert(a.contains(a.last()));
        assert(b.contains(a.last()));
        let i = b.index_of(a.last());
        assert(b.contains(b.last()));
        let j = a.index_of(b.last());
        assert(a.last() == b.last());
        let c = a.drop_last();
        let d = b.drop_last();
        assert forall|x: usize| c.contains(x) == #[trigger] d.contains(x) by {
            if c.contains(x) {
                let k = c.index_of(x);
                assert(a[k] == x);
                assert(b.contains(x));
                let m = b.index_of(x);
                assert(d[m] == x);
            }
            if d.contains(x) {
                let k = d.index_of(x);
                assert(b[k] == x);
                assert(b.contains(x));
                let m = a.index_of(x);
                assert(c[m] == x);
            }
        }
        lemma_increasing_unique(c, d);
        assert(a =~= c.push(a.last()));
        assert(b =~= d.push(b.last()));
    }
}

/// The comments of a document stand on increasing lines.
pub proof fn lemma_comments_increase(s: Seq<u8>, k: int)
    requires
        valid_utf8(s),
        s.len() <= usize::MAX,
        0 <= k <= syntax::stmts(s).len(),
    ensures
        increasing(comment_lines(syntax::stmts(s), k)),
        comment_lines(syntax::stmts(s), k).len() > 0 ==> 0 < k && comment_lines(
            syntax::stmts(s),
            k,
        ).last() <= syntax::stmts(s)[k - 1].line,
    decreases k,
{
    let stmts = syntax::stmts(s);
    if k > 0 {
        lemma_comments_increase(s, k - 1);
        let before = comment_lines(stmts, k - 1);
        if k > 1 {
            syntax::lemma_stmts(s);
            assert(syntax::stmt_ok(s, stmts[k - 2]));
            syntax::lemma_stmts_ordered(s, k - 2, k - 1);
        }
        if stmts[k - 1].kind == StmtKind::Comment {
            assert(comment_lines(stmts, k) == before.push(stmts[k - 1].line));
        } else {
            assert(comment_lines(stmts, k) == before);
        }
    }
}

/// Adds a line to an increasing list, unless it is there.
fn insert_line(lines: &mut Vec<usize>, x: usize)
    requires
        increasing(old(lines)@),
    ensures
        increasing(final(lines)@),
        forall|y: usize| #[trigger] final(lines)@.contains(y) == (old(lines)@.contains(y) || y == x),
{
    let ghost before = lines@;
    let mut k: usize = lines.len();
    while k > 0 && lines[k - 1] > x
        invariant
            lines@ == before,
            k <= before.len(),
            forall|i: int| k <= i < before.len() ==> #[trigger] before[i] > x,
        decreases k,
    {
        k -= 1;
    }
    if k > 0 && lines[k - 1] == x {
        assert(before.contains(x));
        return;
    }
    lines.insert(k, x);
    proof {
        let after = lines@;
        assert(after == before.insert(k as int, x));
        assert forall|y: usize| #[trigger] after.contains(y) == (before.contains(y) || y == x) by {
            if before.contains(y) {
                let i = before.index_of(y);
                assert(after[if i < k { i } else { i + 1 }] == y);
            }
            if y == x {
                assert(after[k as int] == y);
            }
            if after.contains(y) && y != x {
                let i = after.index_of(y);
                assert(before[if i < k { i } else { i - 1 }] == y);
            }
        }
    }
}

/// Puts lines in order, each once.
fn sort_lines(lines: &mut Vec<usize>)
    ensures
        increasing(final(lines)@),
        forall|x: usize| #[trigger] final(lines)@.contains(x) == old(lines)@.contains(x),
{
    let ghost given = lines@;
    let mut sorted: Vec<usize> = Vec::new();
    let mut i: usize = 0;
    while i < lines.len()
        invariant
            lines@ == given,
            i <= given.len(),
            increasing(sorted@),
            forall|x: usize| #[trigger] sorted@.contains(x) == given.take(i as int).contains(x),
        decreases given.len() - i,
    {
        let ghost had = sorted@;
        insert_line(&mut sorted, lines[i]);
        proof {
            let old_part = given.take(i as int);
            let part = given.take(i + 1);
            assert(part =~= old_part.push(given[i as int]));
            assert forall|x: usize| #[trigger] sorted@.contains(x) == part.contains(x) by {
                assert(had.contains(x) == old_part.contains(x));
                if old_part.contains(x) {
                    let k = old_part.index_of(x);
                    assert(part[k] == x);
                }
                if x == given[i as int] {
                    assert(part[i as int] == x);
                }
                if part.contains(x) && x != given[i as int] {
                    let k = part.index_of(x);
                    assert(old_part[k] == x);
                }
            }
        }
        i += 1;
    }
    assert(given.take(given.len() as int) =~= given);
    *lines = sorted;
}

/// The folds of comments on the given lines, which are put in order first, each once.
fn comment_folds(lines: &mut Vec<usize>) -> (out: Vec<FoldRange>)
    ensures
        increasing(final(lines)@),
        forall|x: usize| #[trigger] final(lines)@.contains(x) == old(lines)@.contains(x),
        out@ == comment_folds_from(final(lines)@, 0),
{
    sort_lines(lines);
    folds_of_runs(lines.as_slice())
}

/// The folds of comments on the given lines.
fn folds_of_runs(lines: &[usize]) -> (out: Vec<FoldRange>)
    ensures
        out@ == comment_folds_from(lines@, 0),
{
    let n: usize = lines.len();
    let mut out: Vec<FoldRange> = Vec::new();
    let mut i: usize = 0;
    assert(out@ + comment_folds_from(lines@, 0) =~= comment_folds_from(lines@, 0));
    while i < n
        invariant
            n == lines@.len(),
            i <= n,
            out@ + comment_folds_from(lines@, i as int) == comment_folds_from(lines@, 0),
        decreases n - i,
    {
        proof {
            lemma_run_end(lines@, i as int);
        }
        let mut j: usize = i;
        while j + 1 < n && lines[j] < usize::MAX && lines[j + 1] == lines[j] + 1
            invariant
                n == lines@.len(),
                i <= j < n,
                run_end(lines@, j as int) == run_end(lines@, i as int),
            decreases n - j,
        {
            j += 1;
        }
        let ghost before = out@;
        let ghost rest = comment_folds_from(lines@, j + 1);
        if j > i {
            let f = FoldRange {
                start_line: line_number(lines[i]),
                end_line: line_number(lines[j]),
                kind: FoldKind::Comment,
            };
            out.push(f);
            assert(before.push(f) + rest =~= before + (seq![f] + rest));
        }
        i = j + 1;
    }
    assert(out@ =~= comment_folds_from(lines@, 0));
    out
}

/// The folds of a document.
pub fn folding_ranges(source: &str) -> (out: Vec<FoldRange>)
    ensures
        out@ == folds(syntax::stmts(source.spec_bytes())),
{
    let n: usize = source.as_bytes().len();
    let tree = match SyntaxTree::parse(source) {
        Some(tree) => tree,
        None => {
            return Vec::new();
        },
    };
    if tree.has_error() {
        return Vec::new();
    }
    let stmts = tree.statements();
    let mut out: Vec<FoldRange> = Vec::new();
    let mut comments: Vec<usize> = Vec::new();
    let mut k: usize = 0;
    while k < stmts.len()
        invariant
            k <= stmts@.len(),
            out@ == region_folds(stmts@, k as int),
            comments@ == comment_lines(stmts@, k as int),
        decreases stmts@.len() - k,
    {
        let st = &stmts[k];
        let end: usize = if is_widget(st) {
            stmts[last_statement_below(stmts, k)].last_line
        } else if st.body.is_some() {
            st.last_line
        } else {
            st.line
        };
        if end > st.line {
            out.push(
                FoldRange {
                    start_line: line_number(st.line),
                    end_line: line_number(end),
                    kind: FoldKind::Region,
                },
            );
        }
        if st.kind == StmtKind::Comment {
            comments.push(st.line);
        }
        k += 1;
    }
    let ghost given = comments@;
    let mut folds = comment_folds(&mut comments);
    proof {
        text::lemma_valid(source);
        lemma_comments_increase(source.spec_bytes(), stmts@.len() as int);
        lemma_increasing_unique(given, comments@);
    }
    out.append(&mut folds);
    out
}

} // verus!
