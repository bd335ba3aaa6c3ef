//! What the word differ finds, stated on the tokens alone.

use crate::block_maker::BlockMaker;
use crate::tokeniser::Token;
use crate::pair::{Pair, Span};
use crate::part::Part;
use crate::word_differ::{
    back_ok, blanks_before, blanks_from, capped, distance, forth_ok, indent, lone, on_expected_line,
    ranks_before, total_bytes, DiffMatch,
};
use vstd::prelude::*;

verus! {

/// For each line of each side the line of the other side that the first run
/// found on it lies on.
pub struct Memo {
    pub left: Seq<Option<usize>>,
    pub right: Seq<Option<usize>>,
}

/// The line distance of a run that ends on line `line_a` of the left side and
/// begins on line `line_b` of the right: from the line that was matched with
/// `line_a` before, else from the one matched with `line_b`, else from the
/// line that lies as far from `first_b` as `line_a` from `first_a`.
pub open spec fn line_dist_of(memo: Memo, line_a: int, line_b: int, first_a: int, first_b: int) -> (int, bool) {
    match memo.left[line_a] {
        Some(expected) => (distance(expected as int, line_b), true),
        None => match memo.right[line_b] {
            Some(expected) => (distance(expected as int, line_a), true),
            None => (distance(line_a - first_a, line_b - first_b), false),
        },
    }
}

/// The run of `k` words that ends with word `i` of the left side and word `j` of
/// the right, found in ranges that begin at `alo` and `blo`.
pub open spec fn candidate_of(bm: &BlockMaker, memo: Memo, i: int, j: int, k: int, alo: int, blo: int) -> DiffMatch {
    let tokens = bm.side(1).tokens@;
    let lead = blanks_from(tokens, j + 1 - k, k);
    let trail = blanks_before(tokens, j + 1, k - lead);
    let dist = line_dist_of(
        memo,
        bm.line_of(0, i),
        bm.line_of(1, j + 1 - k),
        bm.line_of(0, alo),
        bm.line_of(1, blo),
    );
    DiffMatch {
        left: (i + 1 - k) as usize,
        right: (j + 1 - k) as usize,
        length: k as usize,
        lineno_dist: dist.0 as usize,
        lineno_dist_strong: dist.1,
        non_ws_length: (k - lead - trail) as usize,
        char_length: capped(total_bytes(bm.side(0).word_seq(), i + 1 - k + lead, i + 1 - trail)) as usize,
    }
}

/// Word `i` of the left side is word `j` of the right side, which is not
/// indentation.
pub open spec fn agrees(bm: &BlockMaker, i: int, j: int) -> bool {
    &&& 0 <= i < bm.nwords(0)
    &&& 0 <= j < bm.nwords(1)
    &&& bm.tok(0, i) == bm.tok(1, j)
    &&& !indent(bm.side(1).tokens@, j)
}

/// The length of the run of words that agree, none of them a newline, that ends
/// with word `i` of the left side and word `j` of the right and begins no
/// earlier than `alo` and `blo`.
pub open spec fn run_after(bm: &BlockMaker, alo: int, blo: int, i: int, j: int) -> nat
    decreases i + 1,
{
    if i < 0 {
        0
    } else if i < alo || j < blo || !agrees(bm, i, j) || bm.tok(0, i).is_newline() {
        0
    } else {
        run_after(bm, alo, blo, i - 1, j - 1) + 1
    }
}

/// The length of the run that ends with word `i` of the left side and word `j` of
/// the right, which agree: one more than the run before them.
pub open spec fn cell_run(bm: &BlockMaker, alo: int, blo: int, i: int, j: int) -> nat {
    run_after(bm, alo, blo, i - 1, j - 1) + 1
}

/// Whether a run that is weighed ends with word `i` of the left side and word `j`
/// of the right: the two agree and are not blank, and the run does not begin
/// with a newline, which it does where it is a newline and no more.
pub open spec fn ends_run(bm: &BlockMaker, alo: int, blo: int, i: int, j: int) -> bool {
    &&& agrees(bm, i, j)
    &&& !bm.tok(0, i).is_blank()
    &&& !(bm.tok(0, i).is_newline() && cell_run(bm, alo, blo, i, j) == 1)
}

/// A run of words that agree, none of them a newline, begins with a word that is
/// no newline.
pub proof fn lemma_run_start(bm: &BlockMaker, alo: int, blo: int, i: int, j: int)
    ensures
        run_after(bm, alo, blo, i, j) > 0 ==> !bm.tok(0, i + 1 - run_after(bm, alo, blo, i, j)).is_newline(),
        run_after(bm, alo, blo, i, j) <= i + 1 || run_after(bm, alo, blo, i, j) == 0,
    decreases i + 1,
{
    if i >= 0 {
        lemma_run_start(bm, alo, blo, i - 1, j - 1);
    }
}

/// The runs found so far, and the length without blanks that they share, once the
/// run `m` is found: it is left out if it is shorter, stands alone if it is
/// longer, and joins them if it is as long.
pub open spec fn take_candidate(acc: (Seq<DiffMatch>, usize), m: DiffMatch) -> (Seq<DiffMatch>, usize) {
    if m.non_ws_length < acc.1 {
        acc
    } else if m.non_ws_length > acc.1 {
        (seq![m], m.non_ws_length)
    } else {
        (acc.0.push(m), acc.1)
    }
}

/// The runs found, with their length without blanks, once the words of the left
/// side before `i` are held against the words `blo..bhi` of the right side, and
/// word `i` against those before `j`. A run is found where two words agree and
/// are not blank, unless it begins with a newline.
pub open spec fn scan_to(bm: &BlockMaker, memo: Memo, alo: int, blo: int, bhi: int, i: int, j: int) -> (
    Seq<DiffMatch>,
    usize,
)
    decreases i - alo, j - blo,
{
    if i < alo || j < blo || bhi < blo {
        (Seq::empty(), 0)
    } else if j > blo {
        let before = scan_to(bm, memo, alo, blo, bhi, i, j - 1);
        if ends_run(bm, alo, blo, i, j - 1) {
            take_candidate(before, candidate_of(bm, memo, i, j - 1, cell_run(bm, alo, blo, i, j - 1) as int, alo, blo))
        } else {
            before
        }
    } else if i > alo {
        scan_to(bm, memo, alo, blo, bhi, i - 1, bhi)
    } else {
        (Seq::empty(), 0)
    }
}

/// The longest runs of equal words of the two ranges that end in a word that is
/// not blank and do not begin with a newline, in the order in which they end.
pub open spec fn scan_spec(bm: &BlockMaker, memo: Memo, alo: int, ahi: int, blo: int, bhi: int) -> Seq<DiffMatch> {
    scan_to(bm, memo, alo, blo, bhi, ahi, blo).0
}

/// The best of the first `n` runs: the first, unless a later one ranks before the
/// best before it.
pub open spec fn best_index(ms: Seq<DiffMatch>, n: int) -> int
    decreases n,
{
    if n <= 1 {
        0
    } else {
        let best = best_index(ms, n - 1);
        if ranks_before(ms[n - 1], ms[best]) {
            n - 1
        } else {
            best
        }
    }
}

/// The run that ranks first.
pub open spec fn best_of(ms: Seq<DiffMatch>) -> DiffMatch {
    ms[best_index(ms, ms.len() as int)]
}

/// Where the first `n` runs begin first on the left side.
pub open spec fn min_left(ms: Seq<DiffMatch>, n: int) -> int
    decreases n,
{
    if n <= 1 {
        ms[0].left as int
    } else if ms[n - 1].left < min_left(ms, n - 1) {
        ms[n - 1].left as int
    } else {
        min_left(ms, n - 1)
    }
}

/// Where the first `n` runs end last on the left side.
pub open spec fn max_left(ms: Seq<DiffMatch>, n: int) -> int
    decreases n,
{
    if n <= 1 {
        ms[0].left + ms[0].length
    } else if ms[n - 1].left + ms[n - 1].length > max_left(ms, n - 1) {
        ms[n - 1].left + ms[n - 1].length
    } else {
        max_left(ms, n - 1)
    }
}

/// Where the first `n` runs begin first on the right side.
pub open spec fn min_right(ms: Seq<DiffMatch>, n: int) -> int
    decreases n,
{
    if n <= 1 {
        ms[0].right as int
    } else if ms[n - 1].right < min_right(ms, n - 1) {
        ms[n - 1].right as int
    } else {
        min_right(ms, n - 1)
    }
}

/// Where the first `n` runs end last on the right side.
pub open spec fn max_right(ms: Seq<DiffMatch>, n: int) -> int
    decreases n,
{
    if n <= 1 {
        ms[0].right + ms[0].length
    } else if ms[n - 1].right + ms[n - 1].length > max_right(ms, n - 1) {
        ms[n - 1].right + ms[n - 1].length
    } else {
        max_right(ms, n - 1)
    }
}

/// All runs begin at one place on the left side.
pub open spec fn one_left(ms: Seq<DiffMatch>) -> bool {
    forall|n: int| 0 <= n < ms.len() ==> (#[trigger] ms[n]).left == ms[0].left
}

/// All runs begin at one place on the right side.
pub open spec fn one_right(ms: Seq<DiffMatch>) -> bool {
    forall|n: int| 0 <= n < ms.len() ==> (#[trigger] ms[n]).right == ms[0].right
}

/// The greatest length without blanks of the first `n` runs.
pub open spec fn top_length(ms: Seq<DiffMatch>, n: int) -> usize
    decreases n,
{
    if n <= 1 {
        ms[0].non_ws_length
    } else if ms[n - 1].non_ws_length > top_length(ms, n - 1) {
        ms[n - 1].non_ws_length
    } else {
        top_length(ms, n - 1)
    }
}

/// The runs that are longest without their blanks.
pub open spec fn longest_of(ms: Seq<DiffMatch>) -> Seq<DiffMatch> {
    ms.filter(|m: DiffMatch| m.non_ws_length == top_length(ms, ms.len() as int))
}

/// The run is one newline and no more.
pub open spec fn bare_newline(bm: &BlockMaker, m: DiffMatch) -> bool {
    m.length == 1 && bm.tok(0, m.left as int).is_newline()
}

/// The lines that are held as matched once the lines of the run `m` are held as
/// matched with each other, unless they are held already.
pub open spec fn recorded(bm: &BlockMaker, memo: Memo, m: DiffMatch) -> Memo {
    let left_line = bm.line_of(0, m.left as int);
    let right_line = bm.line_of(1, m.right as int);
    Memo {
        left: if memo.left[left_line].is_none() {
            memo.left.update(left_line, Some(right_line as usize))
        } else {
            memo.left
        },
        right: if memo.right[right_line].is_none() {
            memo.right.update(right_line, Some(left_line as usize))
        } else {
            memo.right
        },
    }
}

/// Where the range between the runs `x - 1` and `x` begins on the left side.
pub open spec fn between_from(ms: Seq<DiffMatch>, x: int, alo: int) -> int {
    if x <= 0 || x > ms.len() {
        alo
    } else {
        ms[x - 1].left + ms[x - 1].length
    }
}

/// Where it ends.
pub open spec fn between_to(ms: Seq<DiffMatch>, x: int, ahi: int) -> int {
    if x < 0 || x >= ms.len() {
        ahi
    } else {
        ms[x].left as int
    }
}

/// Where the range between the runs `y - 1` and `y` begins on the right side.
pub open spec fn beside_from(ms: Seq<DiffMatch>, y: int, blo: int) -> int {
    if y <= 0 || y > ms.len() {
        blo
    } else {
        ms[y - 1].right + ms[y - 1].length
    }
}

/// Where it ends.
pub open spec fn beside_to(ms: Seq<DiffMatch>, y: int, bhi: int) -> int {
    if y < 0 || y >= ms.len() {
        bhi
    } else {
        ms[y].right as int
    }
}

/// The run lies before `hi` or after `lo` on both sides, and is more than a newline.
pub open spec fn wanted(bm: &BlockMaker, m: DiffMatch, lo: (int, int), hi: (int, int)) -> bool {
    &&& (m.left < hi.0 && m.right < hi.1) || (m.left > lo.0 && m.right > lo.1)
    &&& !bare_newline(bm, m)
}

/// The best run of equal words of the two ranges, and the lines that are held as
/// matched after it is found: none where no word that is not blank occurs on
/// both sides; else the longest without its blanks; of several, the one that
/// `handle_spec` hands back, or else the one that ranks first among those it
/// leaves. With `write`, the lines of the run are held as matched.
pub open spec fn find_spec(bm: &BlockMaker, memo: Memo, alo: int, ahi: int, blo: int, bhi: int, write: bool) -> (
    Memo,
    Option<DiffMatch>,
)
    decreases (ahi - alo) + (bhi - blo), 3int, 0int, 0int,
{
    let ms = scan_spec(bm, memo, alo, ahi, blo, bhi);
    if ms.len() == 0 {
        (memo, None)
    } else {
        let narrowed = if ms.len() > 1 {
            handle_spec(bm, memo, ms, alo, ahi, blo, bhi, write)
        } else {
            (memo, None, ms)
        };
        if narrowed.1.is_some() {
            (narrowed.0, narrowed.1)
        } else {
            let best = best_of(narrowed.2);
            (
                if write {
                    recorded(bm, narrowed.0, best)
                } else {
                    narrowed.0
                },
                Some(best),
            )
        }
    }
}

/// Several runs that are equally long, narrowed: to those that alone begin where
/// they begin; else to those on the line expected of them; else, where all
/// begin at one place on one side, to the longest of the runs found between
/// them; else a run found before the first of them, or else after the last, is
/// handed back, if it is more than a newline. With no run handed back, the runs
/// to choose from.
pub open spec fn handle_spec(
    bm: &BlockMaker,
    memo: Memo,
    ms: Seq<DiffMatch>,
    alo: int,
    ahi: int,
    blo: int,
    bhi: int,
    write: bool,
) -> (Memo, Option<DiffMatch>, Seq<DiffMatch>)
    decreases (ahi - alo) + (bhi - blo), 2int, 0int, 0int,
{
    let alone = ms.filter(|m: DiffMatch| lone(ms, m));
    let exact = ms.filter(|m: DiffMatch| on_expected_line(m));
    let n = ms.len() as int;
    let mini = min_left(ms, n);
    let maxi = max_left(ms, n);
    let minj = min_right(ms, n);
    let maxj = max_right(ms, n);
    let pivot = (ms[0].left as int, ms[0].right as int);
    let lo = if one_left(ms) {
        pivot
    } else {
        (mini, minj)
    };
    let hi = if one_left(ms) {
        pivot
    } else {
        (maxi, maxj)
    };
    let found = if one_left(ms) || one_right(ms) {
        search_to(bm, memo, ms, alo, ahi, blo, bhi, lo, hi, n + 1, 0)
    } else {
        Seq::empty()
    };
    if alone.len() > 0 {
        (memo, None, alone)
    } else if exact.len() > 0 {
        (memo, None, exact)
    } else if found.len() > 0 {
        (memo, None, longest_of(found))
    } else {
        let first = if alo < mini && blo < minj && mini <= ahi && minj <= bhi && (mini < ahi || minj < bhi) {
            find_spec(bm, memo, alo, mini, blo, minj, write)
        } else {
            (memo, None)
        };
        if first.1.is_some() && !bare_newline(bm, first.1.unwrap()) {
            (first.0, first.1, ms)
        } else {
            let second = if maxi < ahi && maxj < bhi && alo <= maxi && blo <= maxj && (alo < maxi || blo < maxj) {
                find_spec(bm, first.0, maxi, ahi, maxj, bhi, write)
            } else {
                (first.0, None)
            };
            if second.1.is_some() && !bare_newline(bm, second.1.unwrap()) {
                (second.0, second.1, ms)
            } else {
                (second.0, None, ms)
            }
        }
    }
}

/// The runs that are wanted among the best runs of the ranges between the runs of
/// `ms`: of the ranges between them on the left side before range `x`, each
/// held against every range between them on the right side, and of range `x`
/// held against those before range `y`.
pub open spec fn search_to(
    bm: &BlockMaker,
    memo: Memo,
    ms: Seq<DiffMatch>,
    alo: int,
    ahi: int,
    blo: int,
    bhi: int,
    lo: (int, int),
    hi: (int, int),
    x: int,
    y: int,
) -> Seq<DiffMatch>
    decreases (ahi - alo) + (bhi - blo), 1int, x, y,
{
    if x < 0 || y < 0 {
        Seq::empty()
    } else if y > 0 {
        let before = search_to(bm, memo, ms, alo, ahi, blo, bhi, lo, hi, x, y - 1);
        let a0 = between_from(ms, x, alo);
        let a1 = between_to(ms, x, ahi);
        let b0 = beside_from(ms, y - 1, blo);
        let b1 = beside_to(ms, y - 1, bhi);
        if a0 < a1 && b0 < b1 && alo <= a0 && a1 <= ahi && blo <= b0 && b1 <= bhi && (a1 - a0) + (b1 - b0) < (ahi
            - alo) + (bhi - blo) {
            let best = find_spec(bm, memo, a0, a1, b0, b1, false).1;
            if best.is_some() && wanted(bm, best.unwrap(), lo, hi) {
                before.push(best.unwrap())
            } else {
                before
            }
        } else {
            before
        }
    } else if x > 0 {
        search_to(bm, memo, ms, alo, ahi, blo, bhi, lo, hi, x - 1, ms.len() as int + 1)
    } else {
        Seq::empty()
    }
}

/// How many words a run that begins at words `i` and `j` takes in before it.
pub open spec fn back_steps(a: Seq<Token>, b: Seq<Token>, alo: int, blo: int, i: int, j: int) -> nat
    decreases i - alo,
{
    if i > alo && back_ok(a, b, alo, blo, i, j) {
        1 + back_steps(a, b, alo, blo, i - 1, j - 1)
    } else {
        0
    }
}

/// How many words a run that ends before words `i` and `j` takes in after it.
pub open spec fn forth_steps(a: Seq<Token>, b: Seq<Token>, ahi: int, bhi: int, i: int, j: int) -> nat
    decreases ahi - i,
{
    if i < ahi && forth_ok(a, b, ahi, bhi, i, j) {
        1 + forth_steps(a, b, ahi, bhi, i + 1, j + 1)
    } else {
        0
    }
}

/// The run lengthened to the front over blanks and the newlines of empty lines,
/// and to the back over a newline and over blanks within a line, as far as both
/// sides agree and the two ranges reach.
pub open spec fn extended(bm: &BlockMaker, run: (usize, usize, usize), alo: int, ahi: int, blo: int, bhi: int) -> (
    usize,
    usize,
    usize,
) {
    let a = bm.side(0).tokens@;
    let b = bm.side(1).tokens@;
    let before = back_steps(a, b, alo, blo, run.0 as int, run.1 as int);
    let after = forth_steps(a, b, ahi, bhi, run.0 + run.2, run.1 + run.2);
    ((run.0 - before) as usize, (run.1 - before) as usize, (run.2 + before + after) as usize)
}

/// The runs of the two ranges: the best run, lengthened; then the runs after it;
/// then the runs before it; in the order of their places. With them, the lines
/// that are held as matched after they are found.
pub open spec fn collect_spec(bm: &BlockMaker, memo: Memo, alo: int, ahi: int, blo: int, bhi: int) -> (
    Memo,
    Seq<(usize, usize, usize)>,
)
    decreases ahi - alo,
{
    let found = find_spec(bm, memo, alo, ahi, blo, bhi, true);
    if found.1.is_some() {
        let m = found.1.unwrap();
        let run = extended(bm, (m.left, m.right, m.length), alo, ahi, blo, bhi);
        if alo <= run.0 && run.2 >= 1 && run.0 + run.2 <= ahi {
            let after = if run.0 + run.2 < ahi && run.1 + run.2 < bhi {
                collect_spec(bm, found.0, run.0 + run.2, ahi, run.1 + run.2, bhi)
            } else {
                (found.0, Seq::empty())
            };
            let before = if alo < run.0 && blo < run.1 {
                collect_spec(bm, after.0, alo, run.0 as int, blo, run.1 as int)
            } else {
                (after.0, Seq::empty())
            };
            (before.0, before.1.push(run) + after.1)
        } else {
            (found.0, Seq::empty())
        }
    } else {
        (found.0, Seq::empty())
    }
}

/// The part that matches over the run `run`.
pub open spec fn run_part<'a>(bm: &'a BlockMaker, run: (usize, usize, usize)) -> Part<'a> {
    Part {
        parent: bm,
        matches: true,
        slices: Pair {
            left: Span { start: run.0, end: (run.0 + run.2) as usize },
            right: Span { start: run.1, end: (run.1 + run.2) as usize },
        },
    }
}

/// The first `n` runs as parts: each run is lengthened once more between the
/// part before it and the run after it, and where it then begins on both sides
/// where the part before it ends, the two become one part. With the parts that
/// are finished, the part that may yet grow, and whether there is one.
pub open spec fn fuse_fold<'a>(
    bm: &'a BlockMaker,
    runs: Seq<(usize, usize, usize)>,
    alo: int,
    ahi: int,
    blo: int,
    bhi: int,
    n: int,
) -> (Seq<Part<'a>>, (usize, usize, usize), bool)
    decreases n,
{
    if n <= 0 {
        (Seq::empty(), (alo as usize, blo as usize, 0usize), false)
    } else {
        let before = fuse_fold(bm, runs, alo, ahi, blo, bhi, n - 1);
        let open = before.1;
        let next = if n < runs.len() {
            runs[n]
        } else {
            (ahi as usize, bhi as usize, 0usize)
        };
        let longer = extended(bm, runs[n - 1], open.0 + open.2, next.0 as int, open.1 + open.2, next.1 as int);
        if before.2 && longer.0 == open.0 + open.2 && longer.1 == open.1 + open.2 {
            (before.0, (open.0, open.1, (open.2 + longer.2) as usize), true)
        } else {
            (
                if before.2 {
                    before.0.push(run_part(bm, open))
                } else {
                    before.0
                },
                longer,
                true,
            )
        }
    }
}

/// The runs as parts that match: runs that touch on both sides, once they are
/// lengthened, are one part, however many of them there are.
pub open spec fn fused<'a>(
    bm: &'a BlockMaker,
    runs: Seq<(usize, usize, usize)>,
    alo: int,
    ahi: int,
    blo: int,
    bhi: int,
) -> Seq<Part<'a>> {
    let all = fuse_fold(bm, runs, alo, ahi, blo, bhi, runs.len() as int);
    if all.2 {
        all.0.push(run_part(bm, all.1))
    } else {
        all.0
    }
}

/// The runs of equal words of the two ranges as parts that match, and the lines
/// that are held as matched after they are found.
pub open spec fn matching_spec<'a>(bm: &'a BlockMaker, memo: Memo, alo: int, ahi: int, blo: int, bhi: int) -> (
    Memo,
    Seq<Part<'a>>,
) {
    let runs = collect_spec(bm, memo, alo, ahi, blo, bhi);
    (runs.0, fused(bm, runs.1, alo, ahi, blo, bhi))
}

} // verus!
