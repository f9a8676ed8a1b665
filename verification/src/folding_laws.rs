//! What folds away, told by what lies below what.

use crate::folding;
use crate::folding::{FoldKind, FoldRange};
use crate::nodes;
use crate::syntax;
use crate::syntax::{Stmt, StmtKind};
use crate::tree_laws;
use vstd::prelude::*;
use vstd::utf8::*;

verus! {

/// Whether the document has a fold of the given lines.
pub open spec fn has_fold(s: Seq<u8>, first: int, last: int, kind: FoldKind) -> bool {
    exists|i: int|
        0 <= i < folding::folds(syntax::stmts(s)).len() && {
            let f = #[trigger] folding::folds(syntax::stmts(s))[i];
            f.start_line == first && f.end_line == last && f.kind == kind
        }
}

/// Whether a statement is a widget.
pub open spec fn is_widget(st: Stmt) -> bool {
    st.kind == StmtKind::Container || st.kind == StmtKind::StyleHeader
}

/// Whether line `last` is the last line of statement `k` and of what lies below it.
pub open spec fn ends_with(stmts: Seq<Stmt>, k: int, last: int) -> bool {
    &&& exists|j: int|
        0 <= j < stmts.len() && #[trigger] tree_laws::within(stmts, j, k) && stmts[j].last_line
            == last
    &&& forall|j: int|
        0 <= j < stmts.len() && #[trigger] tree_laws::within(stmts, j, k) ==> stmts[j].last_line
            <= last
}

/// Whether the lines from `first` to `last` are those of statement `k` folded: a widget folds with
/// all that lies below it, and a block scalar into its first line.
pub open spec fn folds_at(stmts: Seq<Stmt>, k: int, first: int, last: int) -> bool {
    &&& first == stmts[k].line
    &&& first < last
    &&& if is_widget(stmts[k]) {
        ends_with(stmts, k, last)
    } else {
        stmts[k].body is Some && last == stmts[k].last_line
    }
}

proof fn lemma_end(s: Seq<u8>, k: int)
    requires
        valid_utf8(s),
        s.len() <= u32::MAX,
        0 <= k < syntax::stmts(s).len(),
        is_widget(syntax::stmts(s)[k]),
    ensures
        ends_with(syntax::stmts(s), k, folding::fold_end(syntax::stmts(s), k)),
{
    let stmts = syntax::stmts(s);
    let n = stmts.len() as int;
    let last = nodes::last_below(stmts, k, n);
    nodes::lemma_last_below(stmts, k, n);
    tree_laws::lemma_descends(stmts, last, k);
    assert(tree_laws::within(stmts, last, k));
    syntax::lemma_stmts(s);
    assert forall|j: int| 0 <= j < n && #[trigger] tree_laws::within(stmts, j, k) implies stmts[j].last_line
        <= stmts[last].last_line by {
        tree_laws::lemma_descends(stmts, j, k);
        if j != k {
            lemma_below_after(stmts, j, k);
            assert(nodes::descends(stmts, j, k));
            assert(j <= last);
        }
        if j < last {
            syntax::lemma_stmts_ordered(s, j, last);
            assert(syntax::stmt_ok(s, stmts[last]));
        }
    }
}

/// What lies below a statement comes after it.
pub proof fn lemma_below_after(stmts: Seq<Stmt>, j: int, k: int)
    requires
        tree_laws::lies_below(stmts, j, k),
    ensures
        k < j,
    decreases j,
{
    if let Some(p) = stmts[j].parent {
        if p != k {
            lemma_below_after(stmts, p as int, k);
        }
    }
}

proof fn lemma_ends_once(stmts: Seq<Stmt>, k: int, a: int, b: int)
    requires
        ends_with(stmts, k, a),
        ends_with(stmts, k, b),
    ensures
        a == b,
{
}

/// What statement `k` folds into, where it folds.
proof fn lemma_fold_of(s: Seq<u8>, k: int, f: FoldRange)
    requires
        valid_utf8(s),
        s.len() <= u32::MAX,
        0 <= k < syntax::stmts(s).len(),
    ensures
        ({
            let stmts = syntax::stmts(s);
            let end = folding::fold_end(stmts, k);
            let line = stmts[k].line as int;
            (f.kind == FoldKind::Region && folds_at(
                stmts,
                k,
                f.start_line as int,
                f.end_line as int,
            )) <==> (end > line && f == folding::fold(line, end, FoldKind::Region))
        }),
{
    let stmts = syntax::stmts(s);
    let end = folding::fold_end(stmts, k);
    let line = stmts[k].line as int;
    folding::lemma_fold_end(s, k);
    if is_widget(stmts[k]) {
        lemma_end(s, k);
        if ends_with(stmts, k, f.end_line as int) {
            lemma_ends_once(stmts, k, f.end_line as int, end);
        }
    }
}

proof fn lemma_region(s: Seq<u8>, n: int, f: FoldRange)
    requires
        valid_utf8(s),
        s.len() <= u32::MAX,
        0 <= n <= syntax::stmts(s).len(),
    ensures
        folding::region_folds(syntax::stmts(s), n).contains(f) <==> f.kind == FoldKind::Region
            && exists|k: int|
            0 <= k < n && #[trigger] folds_at(
                syntax::stmts(s),
                k,
                f.start_line as int,
                f.end_line as int,
            ),
    decreases n,
{
    let stmts = syntax::stmts(s);
    if n > 0 {
        lemma_region(s, n - 1, f);
        lemma_fold_of(s, n - 1, f);
        let before = folding::region_folds(stmts, n - 1);
        let all = folding::region_folds(stmts, n);
        let end = folding::fold_end(stmts, n - 1);
        let line = stmts[n - 1].line as int;
        let new = folding::fold(line, end, FoldKind::Region);
        if end > line {
            assert(all == before.push(new));
            if before.contains(f) {
                assert(all[before.index_of(f)] == f);
            }
            if f == new {
                assert(all[before.len() as int] == f);
            }
            if all.contains(f) && f != new {
                assert(before[all.index_of(f)] == f);
            }
        } else {
            assert(all == before);
        }
    }
}

/// A fold that is no comment is that of a widget with all that lies below it, or that of a block
/// scalar, and each of these that has more than one line folds.
pub proof fn law_regions_fold(s: Seq<u8>, first: int, last: int)
    requires
        valid_utf8(s),
        s.len() <= u32::MAX,
        !syntax::broken(syntax::stmts(s)),
    ensures
        has_fold(s, first, last, FoldKind::Region) <==> exists|k: int|
            0 <= k < syntax::stmts(s).len() && #[trigger] folds_at(
                syntax::stmts(s),
                k,
                first,
                last,
            ),
{
    let stmts = syntax::stmts(s);
    let n = stmts.len() as int;
    let regions = folding::region_folds(stmts, n);
    let comments = folding::comment_folds_from(folding::comment_lines(stmts, n), 0);
    let all = folding::folds(stmts);
    lemma_comments_only(folding::comment_lines(stmts, n), 0);
    if has_fold(s, first, last, FoldKind::Region) {
        let i = choose|i: int|
            0 <= i < all.len() && {
                let f = #[trigger] all[i];
                f.start_line == first && f.end_line == last && f.kind == FoldKind::Region
            };
        if i < regions.len() {
            assert(regions[i] == all[i]);
        } else {
            assert(comments[i - regions.len()] == all[i]);
        }
        assert(regions.contains(all[i]));
        lemma_region(s, n, all[i]);
    }
    if exists|k: int| 0 <= k < n && #[trigger] folds_at(stmts, k, first, last) {
        let k = choose|k: int| 0 <= k < n && #[trigger] folds_at(stmts, k, first, last);
        folding::lemma_fold_end(s, k);
        if is_widget(stmts[k]) {
            lemma_end(s, k);
            lemma_ends_once(stmts, k, last, folding::fold_end(stmts, k));
        }
        let f = folding::fold(first, last, FoldKind::Region);
        assert(f.start_line == first && f.end_line == last);
        assert(folds_at(stmts, k, f.start_line as int, f.end_line as int));
        lemma_region(s, n, f);
        assert(regions.contains(f));
        assert(all[regions.index_of(f)] == f);
    }
}

/// No line of a fold that is no comment is one of a statement that is neither the folded one nor
/// below it.
pub proof fn law_folds_hold_nothing_else(s: Seq<u8>, k: int, first: int, last: int, j: int)
    requires
        valid_utf8(s),
        s.len() <= u32::MAX,
        0 <= k < syntax::stmts(s).len(),
        folds_at(syntax::stmts(s), k, first, last),
        0 <= j < syntax::stmts(s).len(),
        !tree_laws::within(syntax::stmts(s), j, k),
    ensures
        syntax::stmts(s)[j].last_line < first || last < syntax::stmts(s)[j].line,
{
    let stmts = syntax::stmts(s);
    if j < k {
        syntax::lemma_stmts_ordered(s, j, k);
    } else if is_widget(stmts[k]) {
        let m = choose|m: int|
            0 <= m < stmts.len() && #[trigger] tree_laws::within(stmts, m, k) && stmts[m].last_line
                == last;
        if m != k {
            lemma_below_after(stmts, m, k);
            if j < m {
                tree_laws::law_below_is_contiguous(s, j, m, k);
            }
        }
        syntax::lemma_stmts_ordered(s, m, j);
    } else {
        syntax::lemma_stmts_ordered(s, k, j);
    }
}

/// Two folds that are no comments lie one in the other, or have no line in common.
pub proof fn law_folds_nest(s: Seq<u8>, a: int, b: int, c: int, d: int)
    requires
        valid_utf8(s),
        s.len() <= u32::MAX,
        !syntax::broken(syntax::stmts(s)),
        has_fold(s, a, b, FoldKind::Region),
        has_fold(s, c, d, FoldKind::Region),
    ensures
        b < c || d < a || (a <= c && d <= b) || (c <= a && b <= d),
{
    let stmts = syntax::stmts(s);
    law_regions_fold(s, a, b);
    law_regions_fold(s, c, d);
    let k = choose|k: int| 0 <= k < stmts.len() && #[trigger] folds_at(stmts, k, a, b);
    let m = choose|m: int| 0 <= m < stmts.len() && #[trigger] folds_at(stmts, m, c, d);
    if k == m {
        if is_widget(stmts[k]) {
            lemma_ends_once(stmts, k, b, d);
        }
    } else if k < m {
        lemma_two_folds(s, k, m, a, b, c, d);
    } else {
        lemma_two_folds(s, m, k, c, d, a, b);
    }
}

/// The fold of a statement that lies below a widget ends with that of the widget or before.
proof fn lemma_fold_inside(s: Seq<u8>, k: int, m: int, a: int, b: int, c: int, d: int)
    requires
        valid_utf8(s),
        s.len() <= u32::MAX,
        0 <= k < m < syntax::stmts(s).len(),
        folds_at(syntax::stmts(s), k, a, b),
        folds_at(syntax::stmts(s), m, c, d),
        is_widget(syntax::stmts(s)[k]),
        tree_laws::lies_below(syntax::stmts(s), m, k),
    ensures
        d <= b,
{
    let stmts = syntax::stmts(s);
    if is_widget(stmts[m]) {
        let x = choose|x: int|
            0 <= x < stmts.len() && #[trigger] tree_laws::within(stmts, x, m) && stmts[x].last_line
                == d;
        if x != m {
            tree_laws::law_below_is_transitive(stmts, x, m, k);
        }
        assert(tree_laws::within(stmts, x, k));
    } else {
        assert(tree_laws::within(stmts, m, k));
    }
}

proof fn lemma_two_folds(s: Seq<u8>, k: int, m: int, a: int, b: int, c: int, d: int)
    requires
        valid_utf8(s),
        s.len() <= u32::MAX,
        0 <= k < m < syntax::stmts(s).len(),
        folds_at(syntax::stmts(s), k, a, b),
        folds_at(syntax::stmts(s), m, c, d),
    ensures
        b < c || (a <= c && d <= b),
{
    let stmts = syntax::stmts(s);
    lemma_lines_follow(s, k, m);
    if is_widget(stmts[k]) {
        if tree_laws::lies_below(stmts, m, k) {
            lemma_fold_inside(s, k, m, a, b, c, d);
        } else {
            assert(!tree_laws::within(stmts, m, k));
            law_folds_hold_nothing_else(s, k, a, b, m);
        }
    }
}

proof fn lemma_lines_follow(s: Seq<u8>, k: int, m: int)
    requires
        valid_utf8(s),
        s.len() <= usize::MAX,
        0 <= k < m < syntax::stmts(s).len(),
    ensures
        syntax::stmts(s)[k].line <= syntax::stmts(s)[k].last_line < syntax::stmts(s)[m].line,
        syntax::stmts(s)[m].line <= syntax::stmts(s)[m].last_line,
{
    syntax::lemma_stmts(s);
    assert(syntax::stmt_ok(s, syntax::stmts(s)[k]));
    assert(syntax::stmt_ok(s, syntax::stmts(s)[m]));
    syntax::lemma_stmts_ordered(s, k, m);
}

// ---------------------------------------------------------------------------------------------
// Comments
// ---------------------------------------------------------------------------------------------

proof fn lemma_comments_only(lines: Seq<usize>, i: int)
    requires
        0 <= i,
    ensures
        forall|j: int|
            0 <= j < folding::comment_folds_from(lines, i).len() ==> (
            #[trigger] folding::comment_folds_from(lines, i)[j]).kind == FoldKind::Comment,
    decreases lines.len() - i,
{
    if i < lines.len() {
        folding::lemma_run_end(lines, i);
        let j = folding::run_end(lines, i);
        lemma_comments_only(lines, j + 1);
        let all = folding::comment_folds_from(lines, i);
        let rest = folding::comment_folds_from(lines, j + 1);
        assert forall|x: int| 0 <= x < all.len() implies (#[trigger] all[x]).kind
            == FoldKind::Comment by {
            if j > i {
                if x > 0 {
                    assert(all[x] == rest[x - 1]);
                }
            } else {
                assert(all[x] == rest[x]);
            }
        }
    }
}

/// Whether a comment stands on the line.
pub open spec fn comment_on(stmts: Seq<Stmt>, line: int) -> bool {
    exists|k: int|
        0 <= k < stmts.len() && (#[trigger] stmts[k]).kind == StmtKind::Comment && stmts[k].line
            == line
}

proof fn lemma_comment_on(stmts: Seq<Stmt>, n: int, line: int)
    requires
        0 <= n <= stmts.len(),
    ensures
        (exists|i: int|
            0 <= i < folding::comment_lines(stmts, n).len() && #[trigger] folding::comment_lines(
                stmts,
                n,
            )[i] == line) <==> (exists|k: int|
            0 <= k < n && (#[trigger] stmts[k]).kind == StmtKind::Comment && stmts[k].line
                == line),
    decreases n,
{
    if n > 0 {
        lemma_comment_on(stmts, n - 1, line);
        let before = folding::comment_lines(stmts, n - 1);
        let all = folding::comment_lines(stmts, n);
        if stmts[n - 1].kind == StmtKind::Comment {
            assert(all == before.push(stmts[n - 1].line));
            if exists|i: int| 0 <= i < before.len() && #[trigger] before[i] == line {
                let i = choose|i: int| 0 <= i < before.len() && #[trigger] before[i] == line;
                assert(all[i] == line);
            }
            if stmts[n - 1].line == line {
                assert(all[before.len() as int] == line);
            }
            if exists|i: int| 0 <= i < all.len() && #[trigger] all[i] == line {
                let i = choose|i: int| 0 <= i < all.len() && #[trigger] all[i] == line;
                if i < before.len() {
                    assert(before[i] == line);
                }
            }
        } else {
            assert(all == before);
        }
    }
}

/// Where the run of consecutive lines from item `i` on ends, the next line is missing, and none is
/// missing before.
proof fn lemma_run(lines: Seq<usize>, i: int)
    requires
        folding::increasing(lines),
        0 <= i < lines.len(),
    ensures
        ({
            let j = folding::run_end(lines, i);
            &&& i <= j < lines.len()
            &&& forall|x: int| i <= x <= j ==> #[trigger] lines[x] == lines[i] + (x - i)
            &&& forall|x: int| 0 <= x < lines.len() ==> #[trigger] lines[x] != lines[j] + 1
        }),
    decreases lines.len() - i,
{
    if i + 1 < lines.len() && lines[i + 1] == lines[i] + 1 {
        lemma_run(lines, i + 1);
    } else {
        assert forall|x: int| 0 <= x < lines.len() implies #[trigger] lines[x] != lines[i] + 1 by {
            if x <= i {
                assert(lines[x] <= lines[i]);
            } else if x > i + 1 {
                assert(lines[i + 1] < lines[x]);
                assert(lines[i] < lines[i + 1]);
            }
        }
    }
}

/// Whether a fold is a whole run of the given lines.
spec fn whole_run(lines: Seq<usize>, f: FoldRange) -> bool {
    &&& f.kind == FoldKind::Comment
    &&& f.start_line < f.end_line
    &&& forall|line: int|
        f.start_line <= line <= f.end_line ==> #[trigger] listed(lines, line)
    &&& !listed(lines, f.start_line - 1)
    &&& !listed(lines, f.end_line + 1)
}

/// Whether a line is in the list.
spec fn listed(lines: Seq<usize>, line: int) -> bool {
    exists|i: int| 0 <= i < lines.len() && #[trigger] lines[i] == line
}

proof fn lemma_runs(lines: Seq<usize>, i: int)
    requires
        folding::increasing(lines),
        0 <= i <= lines.len(),
        0 < i < lines.len() ==> lines[i] != lines[i - 1] + 1,
        forall|j: int| 0 <= j < lines.len() ==> #[trigger] lines[j] <= u32::MAX,
    ensures
        forall|x: int|
            0 <= x < folding::comment_folds_from(lines, i).len() ==> whole_run(
                lines,
                #[trigger] folding::comment_folds_from(lines, i)[x],
            ),
        forall|x: int|
            #![trigger lines[x]]
            i <= x && x + 1 < lines.len() && lines[x + 1] == lines[x] + 1 ==> exists|y: int|
                0 <= y < folding::comment_folds_from(lines, i).len() && (
                #[trigger] folding::comment_folds_from(lines, i)[y]).start_line <= lines[x]
                    && lines[x] + 1 <= folding::comment_folds_from(lines, i)[y].end_line,
    decreases lines.len() - i,
{
    if i < lines.len() {
        lemma_run(lines, i);
        let j = folding::run_end(lines, i);
        let all = folding::comment_folds_from(lines, i);
        let rest = folding::comment_folds_from(lines, j + 1);
        if j + 1 < lines.len() {
            assert(lines[j + 1] != lines[j] + 1);
        }
        lemma_runs(lines, j + 1);
        let f = folding::fold(lines[i] as int, lines[j] as int, FoldKind::Comment);
        if j > i {
            assert(all == seq![f] + rest);
            assert(lines[j] == lines[i] + (j - i));
            assert(whole_run(lines, f)) by {
                assert forall|line: int| f.start_line <= line <= f.end_line implies #[trigger] listed(
                    lines,
                    line,
                ) by {
                    assert(lines[i + (line - f.start_line)] == line);
                }
                if listed(lines, f.start_line - 1) {
                    let x = choose|x: int|
                        0 <= x < lines.len() && #[trigger] lines[x] == f.start_line - 1;
                    if x < i - 1 {
                        assert(lines[x] < lines[i - 1]);
                        assert(lines[i - 1] < lines[i]);
                    } else if x > i {
                        assert(lines[i] < lines[x]);
                    }
                }
            }
            assert(all[0] == f);
            assert forall|x: int| 0 <= x < all.len() implies whole_run(lines, #[trigger] all[x]) by {
                if x > 0 {
                    assert(all[x] == rest[x - 1]);
                }
            }
        } else {
            assert(all == rest);
        }
        assert forall|x: int|
            #![trigger lines[x]]
            i <= x && x + 1 < lines.len() && lines[x + 1] == lines[x] + 1 implies exists|y: int|
            0 <= y < all.len() && (#[trigger] all[y]).start_line <= lines[x] && lines[x] + 1
                <= all[y].end_line by {
            if x < j {
                assert(lines[x] == lines[i] + (x - i));
                assert(lines[j] == lines[i] + (j - i));
                assert(all[0] == f);
            } else {
                if x == j {
                    assert(lines[x + 1] != lines[j] + 1);
                }
                let y = choose|y: int|
                    0 <= y < rest.len() && (#[trigger] rest[y]).start_line <= lines[x] && lines[x]
                        + 1 <= rest[y].end_line;
                if j > i {
                    assert(all[y + 1] == rest[y]);
                } else {
                    assert(all[y] == rest[y]);
                }
            }
        }
    }
}

/// A fold of comments is a whole run of them: a comment stands on each of its lines, and none right
/// before and right behind. Comments on two consecutive lines fold together.
pub proof fn law_comments_fold(s: Seq<u8>, first: int, last: int)
    requires
        valid_utf8(s),
        s.len() <= u32::MAX,
        !syntax::broken(syntax::stmts(s)),
    ensures
        has_fold(s, first, last, FoldKind::Comment) ==> first < last && (forall|line: int|
            first <= line <= last ==> #[trigger] comment_on(syntax::stmts(s), line)) && !comment_on(
            syntax::stmts(s),
            first - 1,
        ) && !comment_on(syntax::stmts(s), last + 1),
        comment_on(syntax::stmts(s), first) && comment_on(syntax::stmts(s), first + 1) ==> exists|
            a: int,
            b: int,
        | #[trigger] has_fold(s, a, b, FoldKind::Comment) && a <= first && first + 1 <= b,
{
    let stmts = syntax::stmts(s);
    let n = stmts.len() as int;
    let lines = folding::comment_lines(stmts, n);
    let regions = folding::region_folds(stmts, n);
    let comments = folding::comment_folds_from(lines, 0);
    let all = folding::folds(stmts);
    folding::lemma_comments_increase(s, n);
    folding::lemma_comment_lines(s, n);
    lemma_runs(lines, 0);
    assert forall|line: int| #[trigger] comment_on(stmts, line) <==> listed(lines, line) by {
        lemma_comment_on(stmts, n, line);
    }
    if has_fold(s, first, last, FoldKind::Comment) {
        let i = choose|i: int|
            0 <= i < all.len() && {
                let f = #[trigger] all[i];
                f.start_line == first && f.end_line == last && f.kind == FoldKind::Comment
            };
        if i < regions.len() {
            assert(regions[i] == all[i]);
            assert(regions.contains(all[i]));
            lemma_region(s, n, all[i]);
        }
        let f = comments[i - regions.len()];
        assert(f == all[i]);
        assert(whole_run(lines, f));
        assert forall|line: int| first <= line <= last implies #[trigger] comment_on(stmts, line) by {
            assert(listed(lines, line));
        }
    }
    if comment_on(stmts, first) && comment_on(stmts, first + 1) {
        assert(listed(lines, first) && listed(lines, first + 1));
        let x = choose|x: int| 0 <= x < lines.len() && #[trigger] lines[x] == first;
        let y = choose|y: int| 0 <= y < lines.len() && #[trigger] lines[y] == first + 1;
        if y < x {
            assert(lines[y] < lines[x]);
        } else if y > x + 1 {
            assert(lines[x] < lines[x + 1]);
            assert(lines[x + 1] < lines[y]);
        }
        assert(y == x + 1);
        let z = choose|z: int|
            0 <= z < comments.len() && (#[trigger] comments[z]).start_line <= lines[x] && lines[x]
                + 1 <= comments[z].end_line;
        let f = comments[z];
        assert(whole_run(lines, f));
        assert(all[regions.len() + z] == f);
        assert(has_fold(s, f.start_line as int, f.end_line as int, FoldKind::Comment));
    }
}

} // verus!
