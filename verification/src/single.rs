//! Hunks of one line on each side that hold the same words: the word differ
//! finds the whole line as one run.

use crate::block::split_spec;
use crate::block_maker::BlockMaker;
use crate::line_differ::{best_run, common_run, long_runs, longest_run};
use crate::pair::Span;
use crate::part::Part;
use crate::tokeniser::Token;
use crate::whole::{lemma_equal_split, lemma_same_lines_block, lemma_same_lines_split};
use crate::word_differ::{back_ok, blanks_before, blanks_from, forth_ok, indent, DiffMatch};
use crate::word_spec::{
    agrees, back_steps, candidate_of, cell_run, collect_spec, ends_run, extended, find_spec, forth_steps,
    fuse_fold, fused, matching_spec, recorded, run_after, run_part, scan_spec, scan_to, take_candidate, Memo,
};
use vstd::prelude::*;

verus! {

/// A line of tokens: a newline stands nowhere but at its end, and some token is
/// neither blank nor a newline.
pub open spec fn is_line(a: Seq<Token>) -> bool {
    &&& forall|w: int| 0 <= w < a.len() - 1 ==> !(#[trigger] a[w]).is_newline()
    &&& exists|w: int| 0 <= w < a.len() && !(#[trigger] a[w]).is_blank() && !a[w].is_newline()
}

/// Where the first token of the line stands that is not blank.
pub open spec fn first_solid(a: Seq<Token>) -> int {
    blanks_from(a, 0, a.len() as int) as int
}

/// Where the last token of the line stands that is not blank.
pub open spec fn last_solid(a: Seq<Token>) -> int {
    a.len() - 1 - blanks_before(a, a.len() as int, a.len() as int)
}

/// The blanks from `j` on are blank, and what follows them is not.
pub proof fn lemma_blanks_from(a: Seq<Token>, j: int, m: int)
    requires
        0 <= j,
    ensures
        blanks_from(a, j, m) <= m || blanks_from(a, j, m) == 0,
        j + blanks_from(a, j, m) <= a.len() || blanks_from(a, j, m) == 0,
        forall|x: int| j <= x < j + blanks_from(a, j, m) ==> (#[trigger] a[x]).is_blank(),
        blanks_from(a, j, m) < m && j + blanks_from(a, j, m) < a.len() ==> !a[j + blanks_from(
            a,
            j,
            m,
        )].is_blank(),
    decreases m,
{
    if !(m <= 0 || j >= a.len() || !a[j].is_blank()) {
        lemma_blanks_from(a, j + 1, m - 1);
    }
}

/// The blanks before `e` are blank, and what stands before them is not.
pub proof fn lemma_blanks_before(a: Seq<Token>, e: int, m: int)
    requires
        e <= a.len(),
    ensures
        blanks_before(a, e, m) <= m || blanks_before(a, e, m) == 0,
        blanks_before(a, e, m) <= e || blanks_before(a, e, m) == 0,
        forall|x: int| e - blanks_before(a, e, m) <= x < e ==> (#[trigger] a[x]).is_blank(),
        blanks_before(a, e, m) < m && blanks_before(a, e, m) < e ==> !a[e - blanks_before(a, e, m)
            - 1].is_blank(),
    decreases m,
{
    if !(m <= 0 || e <= 0 || !a[e - 1].is_blank()) {
        lemma_blanks_before(a, e - 1, m - 1);
    }
}

/// In a line the first and the last token that are not blank stand within it,
/// the first no later than the last; before the one and after the other all
/// are blank.
pub proof fn lemma_solid(a: Seq<Token>)
    requires
        is_line(a),
    ensures
        0 <= first_solid(a) <= last_solid(a) < a.len(),
        !a[first_solid(a)].is_blank(),
        !a[first_solid(a)].is_newline(),
        !a[last_solid(a)].is_blank(),
        forall|x: int| 0 <= x < first_solid(a) ==> (#[trigger] a[x]).is_blank(),
        forall|x: int| last_solid(a) < x < a.len() ==> (#[trigger] a[x]).is_blank(),
{
    let n = a.len() as int;
    lemma_blanks_from(a, 0, n);
    lemma_blanks_before(a, n, n);
    let w = choose|w: int| 0 <= w < a.len() && !(#[trigger] a[w]).is_blank() && !a[w].is_newline();
    let d = first_solid(a);
    let e = last_solid(a);
    if d > w {
        assert(a[w].is_blank());
    }
    if e < w {
        assert(a[w].is_blank());
    }
}

/// In a line the indentation is the blanks before the first token that is not
/// blank.
pub proof fn lemma_indent(a: Seq<Token>, j: int)
    requires
        is_line(a),
        0 <= j < a.len(),
    ensures
        indent(a, j) == (j < first_solid(a)),
    decreases j,
{
    lemma_solid(a);
    if j > 0 {
        lemma_indent(a, j - 1);
        assert(!a[j - 1].is_newline());
    }
}

/// Both sides hold the tokens of one and the same line.
pub open spec fn same_line(bm: &BlockMaker) -> bool {
    &&& bm.wf()
    &&& bm.nlines(0) == 1
    &&& bm.nlines(1) == 1
    &&& bm.side(0).tokens@ == bm.side(1).tokens@
    &&& is_line(bm.side(0).tokens@)
}

/// The run of words that agree and end with word `i` on both sides begins with
/// the first word that is not blank.
pub proof fn lemma_diagonal(bm: &BlockMaker, i: int)
    requires
        same_line(bm),
        -1 <= i < bm.nwords(0) - 1,
    ensures
        run_after(bm, 0, 0, i, i) == if i < first_solid(bm.side(0).tokens@) {
            0
        } else {
            i - first_solid(bm.side(0).tokens@) + 1
        },
    decreases i + 1,
{
    let a = bm.side(0).tokens@;
    assert(bm.side(0).wf());
    assert(bm.side(1).wf());
    lemma_solid(a);
    if i >= 0 {
        lemma_indent(a, i);
        lemma_diagonal(bm, i - 1);
        assert(!a[i].is_newline());
    }
}

/// A run of words that agree does not reach back into the indentation of the
/// right side; one that ends earlier on the left side than on the right ends
/// after the first word that is not blank.
pub proof fn lemma_run_bound(bm: &BlockMaker, i: int, j: int)
    requires
        same_line(bm),
        -1 <= i < bm.nwords(0),
        -1 <= j < bm.nwords(1),
    ensures
        run_after(bm, 0, 0, i, j) <= j - first_solid(bm.side(0).tokens@) + 1 || run_after(bm, 0, 0, i, j) == 0,
        i < j ==> run_after(bm, 0, 0, i, j) <= j - first_solid(bm.side(0).tokens@) || run_after(bm, 0, 0, i, j)
            == 0,
    decreases i + 1,
{
    let a = bm.side(0).tokens@;
    let d = first_solid(a);
    assert(bm.side(0).wf());
    assert(bm.side(1).wf());
    lemma_solid(a);
    if i >= 0 && j >= 0 && agrees(bm, i, j) && !bm.tok(0, i).is_newline() {
        lemma_indent(a, j);
        lemma_run_bound(bm, i - 1, j - 1);
        if i < j && j == d {
            assert(a[i].is_blank());
            assert(false);
        }
    }
}

/// The length of a run without its blanks is no more than its length.
pub proof fn lemma_candidate_length(bm: &BlockMaker, memo: Memo, i: int, j: int, k: int)
    requires
        bm.wf(),
        0 <= k <= j + 1,
        j < bm.nwords(1),
    ensures
        candidate_of(bm, memo, i, j, k, 0, 0).non_ws_length <= k,
{
    let tokens = bm.side(1).tokens@;
    assert(bm.side(1).wf());
    lemma_blanks_from(tokens, j + 1 - k, k);
    let lead = blanks_from(tokens, j + 1 - k, k);
    lemma_blanks_before(tokens, j + 1, k - lead);
}

/// The run from the first to the last word that is not blank.
pub open spec fn whole_run(bm: &BlockMaker, memo: Memo) -> DiffMatch {
    let a = bm.side(0).tokens@;
    candidate_of(bm, memo, last_solid(a), last_solid(a), last_solid(a) - first_solid(a) + 1, 0, 0)
}

/// That run begins and ends with a word that is not blank.
pub proof fn lemma_whole_run_length(bm: &BlockMaker, memo: Memo)
    requires
        same_line(bm),
    ensures
        whole_run(bm, memo).non_ws_length == last_solid(bm.side(0).tokens@) - first_solid(bm.side(0).tokens@)
            + 1,
        whole_run(bm, memo).left == first_solid(bm.side(0).tokens@),
        whole_run(bm, memo).right == first_solid(bm.side(0).tokens@),
        whole_run(bm, memo).length == last_solid(bm.side(0).tokens@) - first_solid(bm.side(0).tokens@) + 1,
{
    let a = bm.side(0).tokens@;
    assert(bm.side(0).wf());
    assert(bm.side(1).wf());
    lemma_solid(a);
}

/// Before the run from the first to the last word that is not blank is found,
/// every run that is found is shorter.
#[verifier::spinoff_prover]
#[verifier::rlimit(100)]
pub proof fn lemma_scan_before(bm: &BlockMaker, memo: Memo, i: int, j: int)
    requires
        same_line(bm),
        0 <= i <= last_solid(bm.side(0).tokens@),
        0 <= j <= bm.nwords(1),
        i < last_solid(bm.side(0).tokens@) || j <= last_solid(bm.side(0).tokens@),
    ensures
        scan_to(bm, memo, 0, 0, bm.nwords(1), i, j).1 <= last_solid(bm.side(0).tokens@) - first_solid(
            bm.side(0).tokens@,
        ),
    decreases i, j,
{
    let a = bm.side(0).tokens@;
    let n = bm.nwords(1);
    let d = first_solid(a);
    let e = last_solid(a);
    assert(bm.side(0).wf());
    assert(bm.side(1).wf());
    lemma_solid(a);
    if j > 0 {
        lemma_scan_before(bm, memo, i, j - 1);
        let before = scan_to(bm, memo, 0, 0, n, i, j - 1);
        if ends_run(bm, 0, 0, i, j - 1) {
            let at = j - 1;
            lemma_indent(a, at);
            assert(!a[at].is_blank());
            lemma_run_bound(bm, i - 1, at - 1);
            let k = cell_run(bm, 0, 0, i, at) as int;
            assert(k <= e - d);
            lemma_candidate_length(bm, memo, i, at, k);
        }
    } else if i > 0 {
        lemma_scan_before(bm, memo, i - 1, n);
    }
}

/// What the scan has found once it has come to word `i` of the left side and
/// word `j` of the right, past the last words that are not blank: the run from
/// the first to the last word that is not blank, and no other.
#[verifier::spinoff_prover]
#[verifier::rlimit(100)]
pub proof fn lemma_scan_after(bm: &BlockMaker, memo: Memo, i: int, j: int)
    requires
        same_line(bm),
        0 <= j <= bm.nwords(1),
        (i == last_solid(bm.side(0).tokens@) && j > i) || last_solid(bm.side(0).tokens@) < i <= bm.nwords(0),
    ensures
        scan_to(bm, memo, 0, 0, bm.nwords(1), i, j) == (
            seq![whole_run(bm, memo)],
            whole_run(bm, memo).non_ws_length,
        ),
    decreases i, j,
{
    let a = bm.side(0).tokens@;
    let n = bm.nwords(1);
    let d = first_solid(a);
    let e = last_solid(a);
    assert(bm.side(0).wf());
    assert(bm.side(1).wf());
    lemma_solid(a);
    lemma_whole_run_length(bm, memo);
    if i == e && j == e + 1 {
        lemma_scan_before(bm, memo, e, e);
        lemma_indent(a, e);
        lemma_diagonal(bm, e - 1);
        assert(agrees(bm, e, e));
        assert(cell_run(bm, 0, 0, e, e) == e - d + 1);
        assert(ends_run(bm, 0, 0, e, e));
        let before = scan_to(bm, memo, 0, 0, n, e, e);
        assert(take_candidate(before, whole_run(bm, memo)) == (
            seq![whole_run(bm, memo)],
            whole_run(bm, memo).non_ws_length,
        ));
    } else if j > 0 {
        lemma_scan_after(bm, memo, i, j - 1);
        if i == e {
            assert(a[j - 1].is_blank());
        } else if i < n {
            assert(a[i].is_blank());
        }
        assert(!ends_run(bm, 0, 0, i, j - 1));
    } else {
        lemma_scan_after(bm, memo, i - 1, n);
    }
}

/// The scan of the whole line finds the run from the first to the last word that
/// is not blank, and no other.
pub proof fn lemma_scan(bm: &BlockMaker, memo: Memo)
    requires
        same_line(bm),
    ensures
        scan_spec(bm, memo, 0, bm.nwords(0), 0, bm.nwords(1)) == seq![whole_run(bm, memo)],
{
    assert(bm.side(0).wf());
    assert(bm.side(1).wf());
    lemma_solid(bm.side(0).tokens@);
    lemma_scan_after(bm, memo, bm.nwords(0), 0);
}

/// The best run of the whole line is the run from the first to the last word
/// that is not blank.
pub proof fn lemma_find(bm: &BlockMaker, memo: Memo)
    requires
        same_line(bm),
    ensures
        find_spec(bm, memo, 0, bm.nwords(0), 0, bm.nwords(1), true) == (
            recorded(bm, memo, whole_run(bm, memo)),
            Some(whole_run(bm, memo)),
        ),
{
    lemma_scan(bm, memo);
    let ms = scan_spec(bm, memo, 0, bm.nwords(0), 0, bm.nwords(1));
    assert(ms.len() == 1);
    assert(ms[0] == whole_run(bm, memo));
}

/// A run that begins after blanks alone takes them all in.
pub proof fn lemma_back(a: Seq<Token>, i: int)
    requires
        0 <= i <= a.len(),
        forall|x: int| 0 <= x < i ==> (#[trigger] a[x]).is_blank(),
    ensures
        back_steps(a, a, 0, 0, i, i) == i,
    decreases i,
{
    if i > 0 {
        assert(a[i - 1].is_blank());
        assert(back_ok(a, a, 0, 0, i, i));
        lemma_back(a, i - 1);
    }
}

/// A run that ends before blanks alone, within a line, takes them all in.
pub proof fn lemma_forth(a: Seq<Token>, i: int)
    requires
        1 <= i <= a.len(),
        forall|x: int| i <= x < a.len() ==> (#[trigger] a[x]).is_blank(),
        forall|x: int| 0 <= x < a.len() - 1 ==> !(#[trigger] a[x]).is_newline(),
    ensures
        forth_steps(a, a, a.len() as int, a.len() as int, i, i) == a.len() - i,
    decreases a.len() - i,
{
    if i < a.len() {
        assert(a[i].is_blank());
        assert(!a[i - 1].is_newline());
        assert(forth_ok(a, a, a.len() as int, a.len() as int, i, i));
        lemma_forth(a, i + 1);
    }
}

/// The runs of the whole line: the whole line and no other.
#[verifier::spinoff_prover]
#[verifier::rlimit(100)]
pub proof fn lemma_collect(bm: &BlockMaker, memo: Memo)
    requires
        same_line(bm),
    ensures
        collect_spec(bm, memo, 0, bm.nwords(0), 0, bm.nwords(1)).1 == seq![
            (0usize, 0usize, bm.nwords(0) as usize),
        ],
{
    let a = bm.side(0).tokens@;
    let n = bm.nwords(0);
    let d = first_solid(a);
    let e = last_solid(a);
    assert(bm.side(0).wf());
    assert(bm.side(1).wf());
    lemma_solid(a);
    lemma_find(bm, memo);
    lemma_whole_run_length(bm, memo);
    lemma_back(a, d);
    lemma_forth(a, e + 1);
    let m = whole_run(bm, memo);
    let run = extended(bm, (m.left, m.right, m.length), 0, n, 0, n);
    assert(run == (0usize, 0usize, n as usize));
    let found = find_spec(bm, memo, 0, n, 0, n, true);
    assert(Seq::<(usize, usize, usize)>::empty().push(run) + Seq::<(usize, usize, usize)>::empty() =~= seq![run]);
}

/// The parts that match in the whole line: the part over all words of both
/// sides.
#[verifier::spinoff_prover]
#[verifier::rlimit(100)]
pub proof fn lemma_matching(bm: &BlockMaker, memo: Memo)
    requires
        same_line(bm),
    ensures
        matching_spec(bm, memo, 0, bm.nwords(0), 0, bm.nwords(1)).1 == seq![bm.whole_part(true)],
{
    let a = bm.side(0).tokens@;
    let n = bm.nwords(0);
    assert(bm.side(0).wf());
    assert(bm.side(1).wf());
    lemma_solid(a);
    lemma_collect(bm, memo);
    let runs = collect_spec(bm, memo, 0, n, 0, n).1;
    let run = (0usize, 0usize, n as usize);
    assert(runs[0] == run);
    let start = fuse_fold(bm, runs, 0, n, 0, n, 0);
    assert(start == (Seq::<Part>::empty(), (0usize, 0usize, 0usize), false));
    assert(back_steps(a, a, 0, 0, 0, 0) == 0);
    assert(forth_steps(a, a, n, n, n, n) == 0);
    assert(extended(bm, run, 0, n, 0, n) == run);
    assert(run_part(bm, run) == bm.whole_part(true));
    let one = fuse_fold(bm, runs, 0, n, 0, n, 1);
    assert(one == (Seq::<Part>::empty(), run, true));
    assert(fused(bm, runs, 0, n, 0, n) =~= seq![bm.whole_part(true)]);
}

/// Both sides hold the same one line, in which a newline stands nowhere but at
/// the end and some word is neither blank nor a newline.
pub open spec fn same_one_line(bm: &BlockMaker) -> bool {
    &&& bm.nlines(0) == 1
    &&& bm.side(0).line_tokens@ == bm.side(1).line_tokens@
    &&& is_line(bm.side(0).tokens@)
}

/// Sides that hold the same one line hold the same tokens.
pub proof fn lemma_same_tokens(bm: &BlockMaker)
    requires
        bm.wf(),
        same_one_line(bm),
    ensures
        same_line(bm),
{
    assert(bm.side(0).wf());
    assert(bm.side(1).wf());
    assert(bm.side(0).line_tokens@.len() == bm.nlines(0));
    assert(bm.side(1).line_tokens@.len() == bm.nlines(1));
    bm.lemma_lines_same_words(0, 0, 1);
    let left = bm.side(0).word_seq();
    let right = bm.side(1).word_seq();
    assert(left.subrange(0, bm.nwords(0)) =~= left);
    assert(right.subrange(0, bm.nwords(1)) =~= right);
    assert(left == right);
    assert(bm.tokens_agree(0, 1));
    reveal(BlockMaker::tokens_agree);
    assert forall|w: int| 0 <= w < bm.nwords(0) implies bm.side(0).tokens@[w] == bm.side(1).tokens@[w] by {
        assert(bm.word(0, w) == left[w]);
        assert(bm.word(1, w) == right[w]);
        assert(bm.tok(0, w) == bm.tok(1, w));
    }
    assert(bm.side(0).tokens@ =~= bm.side(1).tokens@);
}

/// One line on each side holds no run of two lines.
pub proof fn lemma_no_long_run(a: Seq<Token>, b: Seq<Token>)
    requires
        a.len() == 1,
        b.len() == 1,
    ensures
        long_runs(a, b, 0, 1, 0, 1).len() == 0,
{
    let m = best_run(a, b, 0, 1, 0, 1);
    if longest_run(a, b, 0, 1, 0, 1, m.0, m.1, m.2) {
        assert(common_run(a, b, 0, 1, 0, 1, m.0, m.1, m.2));
    }
}

/// The parts of a hunk whose sides hold the same one line: the one part in which
/// all words match.
#[verifier::spinoff_prover]
#[verifier::rlimit(100)]
pub proof fn lemma_same_line_block(bm: &BlockMaker)
    requires
        bm.wf(),
        same_one_line(bm),
    ensures
        bm.block_spec() == seq![bm.whole_part(true)],
{
    let n = bm.nwords(0);
    let whole = bm.whole_part(true);
    lemma_same_tokens(bm);
    assert(bm.side(0).wf());
    assert(bm.side(1).wf());
    lemma_solid(bm.side(0).tokens@);
    lemma_no_long_run(bm.side(0).line_tokens@, bm.side(1).line_tokens@);
    let runs = long_runs(bm.side(0).line_tokens@, bm.side(1).line_tokens@, 0, 1, 0, 1);
    let start = bm.block_fold(runs, 0);
    let memo = bm.fresh_memo();
    lemma_matching(bm, memo);
    bm.lemma_whole_part(true);
    let left = Span { start: 0usize, end: n as usize };
    let right = Span { start: 0usize, end: n as usize };
    let found = matching_spec(bm, memo, 0, n, 0, n);
    assert(found.1[0] == whole);
    let none = Seq::<Part>::empty();
    assert(bm.gap_fold(none, found.1, left, right, 0) == (none, 0int, 0int));
    assert(bm.with_gap(none, 0, 0, 0, 0) == none);
    let taken = bm.gap_fold(none, found.1, left, right, 1);
    assert(taken.0 =~= seq![whole]);
    assert(taken.1 == n && taken.2 == n);
    assert(bm.with_gap(taken.0, n, n, n, n) == taken.0);
    assert(bm.filled(none, memo, left, right).1 == seq![whole]);
}

/// A line of white space alone: every token is blank but the last, which is
/// blank or a newline.
pub open spec fn is_blank_line(a: Seq<Token>) -> bool {
    &&& a.len() > 0
    &&& forall|w: int| 0 <= w < a.len() - 1 ==> (#[trigger] a[w]).is_blank()
    &&& (a.last().is_blank() || a.last().is_newline())
}

/// Both sides hold the tokens of one and the same line of white space alone.
pub open spec fn same_blank_line(bm: &BlockMaker) -> bool {
    &&& bm.wf()
    &&& bm.nlines(0) == 1
    &&& bm.nlines(1) == 1
    &&& bm.side(0).tokens@ == bm.side(1).tokens@
    &&& is_blank_line(bm.side(0).tokens@)
}

/// Blanks at the start of the tokens are indentation.
pub proof fn lemma_blank_indent(a: Seq<Token>, k: int)
    requires
        0 <= k < a.len(),
        forall|w: int| 0 <= w <= k ==> (#[trigger] a[w]).is_blank(),
    ensures
        indent(a, k),
    decreases k,
{
    if k > 0 {
        lemma_blank_indent(a, k - 1);
    }
}

/// In a line of white space alone no run is weighed: a word that is not blank is
/// the newline at the end, and the run that ends with it is that newline and no
/// more.
pub proof fn lemma_blank_no_run(bm: &BlockMaker, i: int, j: int)
    requires
        same_blank_line(bm),
    ensures
        !ends_run(bm, 0, 0, i, j),
{
    let a = bm.side(0).tokens@;
    let n = bm.nwords(0);
    assert(bm.side(0).wf());
    assert(bm.side(1).wf());
    if agrees(bm, i, j) && !bm.tok(0, i).is_blank() {
        assert(i == n - 1);
        if j < n - 1 {
            assert(a[j].is_blank());
        }
        assert(j == n - 1);
        if n >= 2 {
            lemma_blank_indent(a, n - 2);
            assert(!agrees(bm, n - 2, n - 2));
        }
        assert(run_after(bm, 0, 0, n - 2, n - 2) == 0);
        assert(cell_run(bm, 0, 0, i, j) == 1);
    }
}

/// The scan of a line of white space alone finds no run.
pub proof fn lemma_blank_scan(bm: &BlockMaker, memo: Memo, i: int, j: int)
    requires
        same_blank_line(bm),
        0 <= i,
        0 <= j,
    ensures
        scan_to(bm, memo, 0, 0, bm.nwords(1), i, j) == (Seq::<DiffMatch>::empty(), 0usize),
    decreases i, j,
{
    if j > 0 {
        lemma_blank_scan(bm, memo, i, j - 1);
        lemma_blank_no_run(bm, i, j - 1);
    } else if i > 0 {
        lemma_blank_scan(bm, memo, i - 1, bm.nwords(1));
    }
}

/// The parts of a hunk whose sides hold the same one line of white space alone:
/// the one part over all words, which does not match, since no run is weighed.
#[verifier::spinoff_prover]
#[verifier::rlimit(100)]
pub proof fn lemma_blank_line_block(bm: &BlockMaker)
    requires
        same_blank_line(bm),
    ensures
        bm.block_spec() == seq![bm.whole_part(false)],
{
    let n = bm.nwords(0);
    let whole = bm.whole_part(false);
    assert(bm.side(0).wf());
    assert(bm.side(1).wf());
    lemma_no_long_run(bm.side(0).line_tokens@, bm.side(1).line_tokens@);
    let runs = long_runs(bm.side(0).line_tokens@, bm.side(1).line_tokens@, 0, 1, 0, 1);
    let start = bm.block_fold(runs, 0);
    let memo = bm.fresh_memo();
    lemma_blank_scan(bm, memo, n, 0);
    assert(scan_spec(bm, memo, 0, n, 0, n).len() == 0);
    let found = find_spec(bm, memo, 0, n, 0, n, true);
    assert(found.1.is_none());
    let runs_of_words = collect_spec(bm, memo, 0, n, 0, n);
    assert(runs_of_words.1.len() == 0);
    let parts = matching_spec(bm, memo, 0, n, 0, n);
    assert(parts.1.len() == 0);
    bm.lemma_whole_part(false);
    let left = Span { start: 0usize, end: n as usize };
    let right = Span { start: 0usize, end: n as usize };
    let none = Seq::<Part>::empty();
    assert(bm.gap_fold(none, parts.1, left, right, 0) == (none, 0int, 0int));
    assert(bm.gap(left, right) == whole);
    assert(bm.with_gap(none, 0, 0, n, n) =~= seq![whole]);
    assert(bm.filled(none, memo, left, right).1 == seq![whole]);
}

/// Sides that hold the same one line hold the same words and the same tokens.
pub proof fn lemma_one_line_words(bm: &BlockMaker)
    requires
        bm.wf(),
        bm.nlines(0) == 1,
        bm.side(0).line_tokens@ == bm.side(1).line_tokens@,
    ensures
        bm.nlines(1) == 1,
        bm.side(0).word_seq() == bm.side(1).word_seq(),
        bm.side(0).tokens@ == bm.side(1).tokens@,
{
    assert(bm.side(0).wf());
    assert(bm.side(1).wf());
    assert(bm.side(0).line_tokens@.len() == bm.nlines(0));
    assert(bm.side(1).line_tokens@.len() == bm.nlines(1));
    bm.lemma_lines_same_words(0, 0, 1);
    let left = bm.side(0).word_seq();
    let right = bm.side(1).word_seq();
    assert(left.subrange(0, bm.nwords(0)) =~= left);
    assert(right.subrange(0, bm.nwords(1)) =~= right);
    assert(left == right);
    assert(bm.tokens_agree(0, 1));
    reveal(BlockMaker::tokens_agree);
    assert forall|w: int| 0 <= w < bm.nwords(0) implies bm.side(0).tokens@[w] == bm.side(1).tokens@[w] by {
        assert(bm.word(0, w) == left[w]);
        assert(bm.word(1, w) == right[w]);
        assert(bm.tok(0, w) == bm.tok(1, w));
    }
    assert(bm.side(0).tokens@ =~= bm.side(1).tokens@);
}

/// Both sides hold the same lines: two or more with some word, or one line with
/// some word in which a newline stands nowhere but at the end.
pub open spec fn same_sides(bm: &BlockMaker) -> bool {
    &&& bm.side(0).line_tokens@ == bm.side(1).line_tokens@
    &&& bm.nwords(0) > 0
    &&& bm.nlines(0) >= 1
    &&& bm.nlines(0) == 1 ==> forall|w: int|
        0 <= w < bm.nwords(0) - 1 ==> !(#[trigger] bm.side(0).tokens@[w]).is_newline()
}

/// A hunk whose sides hold the same lines is split into one block of one part,
/// in which all words of both sides match.
#[verifier::spinoff_prover]
#[verifier::rlimit(100)]
pub proof fn lemma_same_sides(bm: &BlockMaker)
    requires
        bm.wf(),
        same_sides(bm),
    ensures
        split_spec(bm.block_spec()) == seq![seq![bm.whole_part(true)]],
        bm.whole_part(true).same_words(),
{
    let a = bm.side(0).tokens@;
    assert(bm.side(0).wf());
    assert(bm.side(1).wf());
    if bm.nlines(0) >= 2 {
        lemma_same_lines_block(bm);
        lemma_same_lines_split(bm);
    } else {
        lemma_one_line_words(bm);
        if exists|w: int| 0 <= w < a.len() && !(#[trigger] a[w]).is_blank() && !a[w].is_newline() {
            assert(is_line(a));
            lemma_same_line_block(bm);
            lemma_same_lines_split(bm);
        } else {
            assert forall|w: int| 0 <= w < a.len() implies (#[trigger] a[w]).is_blank() || a[w].is_newline() by {
            }
            assert(is_blank_line(a));
            lemma_blank_line_block(bm);
            lemma_equal_split(bm);
            lemma_same_lines_split(bm);
        }
    }
}

} // verus!
