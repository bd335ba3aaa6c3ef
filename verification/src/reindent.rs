//! Hunks of one line on each side that differ in their indentation alone: the
//! word differ finds the line, without the indentation that differs, as one run.

use crate::block_maker::BlockMaker;
use crate::part::Part;
use crate::single::{
    first_solid, is_line, last_solid, lemma_candidate_length, lemma_indent, lemma_solid,
};
use crate::tokeniser::Token;
use crate::word_differ::{back_ok, forth_ok, DiffMatch};
use crate::word_spec::{
    agrees, back_steps, candidate_of, cell_run, collect_spec, ends_run, extended, find_spec, forth_steps,
    fuse_fold, fused, matching_spec, recorded, run_after, run_part, scan_spec, scan_to, take_candidate, Memo,
};
use vstd::prelude::*;

verus! {

/// Both sides hold one line, and the two lines are the same from their first word
/// that is not blank on: they differ in their indentation alone, if at all.
pub open spec fn indented_anew(bm: &BlockMaker) -> bool {
    let a = bm.side(0).tokens@;
    let b = bm.side(1).tokens@;
    &&& bm.wf()
    &&& bm.nlines(0) == 1
    &&& bm.nlines(1) == 1
    &&& is_line(a)
    &&& is_line(b)
    &&& a.skip(first_solid(a)) == b.skip(first_solid(b))
}

/// The number of words of the line from the first to the last that is not blank.
pub open spec fn body_len(bm: &BlockMaker) -> int {
    last_solid(bm.side(0).tokens@) - first_solid(bm.side(0).tokens@) + 1
}

/// The two lines hold the same words at the same distance from their first word
/// that is not blank, and their last words that are not blank lie equally far
/// from it.
pub proof fn lemma_bodies(bm: &BlockMaker)
    requires
        indented_anew(bm),
    ensures
        bm.nwords(0) - first_solid(bm.side(0).tokens@) == bm.nwords(1) - first_solid(bm.side(1).tokens@),
        forall|t: int|
            0 <= t < bm.nwords(0) - first_solid(bm.side(0).tokens@) ==> #[trigger] bm.side(0).tokens@[first_solid(
                bm.side(0).tokens@,
            ) + t] == bm.side(1).tokens@[first_solid(bm.side(1).tokens@) + t],
        last_solid(bm.side(0).tokens@) - first_solid(bm.side(0).tokens@) == last_solid(bm.side(1).tokens@)
            - first_solid(bm.side(1).tokens@),
{
    let a = bm.side(0).tokens@;
    let b = bm.side(1).tokens@;
    let d1 = first_solid(a);
    let d2 = first_solid(b);
    assert(bm.side(0).wf());
    assert(bm.side(1).wf());
    lemma_solid(a);
    lemma_solid(b);
    assert(a.skip(d1).len() == a.len() - d1);
    assert(b.skip(d2).len() == b.len() - d2);
    assert forall|t: int| 0 <= t < a.len() - d1 implies #[trigger] a[d1 + t] == b[d2 + t] by {
        assert(a.skip(d1)[t] == a[d1 + t]);
        assert(b.skip(d2)[t] == b[d2 + t]);
    }
    let e1 = last_solid(a);
    let e2 = last_solid(b);
    let t1 = e1 - d1;
    let t2 = e2 - d2;
    if t1 < t2 {
        assert(a[d1 + t2] == b[d2 + t2]);
        assert(a[d1 + t2].is_blank());
    } else if t2 < t1 {
        assert(a[d1 + t1] == b[d2 + t1]);
        assert(b[d2 + t1].is_blank());
    }
}

/// The run of words that agree and end `t` words after the first words that are
/// not blank begins with these.
#[verifier::spinoff_prover]
pub proof fn lemma_diagonal(bm: &BlockMaker, t: int)
    requires
        indented_anew(bm),
        -1 <= t < bm.nwords(0) - first_solid(bm.side(0).tokens@) - 1,
    ensures
        run_after(
            bm,
            0,
            0,
            first_solid(bm.side(0).tokens@) + t,
            first_solid(bm.side(1).tokens@) + t,
        ) == t + 1,
    decreases t + 1,
{
    let a = bm.side(0).tokens@;
    let b = bm.side(1).tokens@;
    let d1 = first_solid(a);
    let d2 = first_solid(b);
    assert(bm.side(0).wf());
    assert(bm.side(1).wf());
    lemma_solid(a);
    lemma_solid(b);
    lemma_bodies(bm);
    if t >= 0 {
        lemma_indent(b, d2 + t);
        lemma_diagonal(bm, t - 1);
        assert(a[d1 + t] == b[d2 + t]);
        assert(!a[d1 + t].is_newline());
        assert(agrees(bm, d1 + t, d2 + t));
    } else if d1 >= 1 && d2 >= 1 {
        lemma_indent(b, d2 - 1);
        assert(!agrees(bm, d1 - 1, d2 - 1));
    }
}

/// A run of words that agree does not reach back into the indentation of the
/// right side.
#[verifier::spinoff_prover]
pub proof fn lemma_run_bound(bm: &BlockMaker, i: int, j: int)
    requires
        indented_anew(bm),
        -1 <= i < bm.nwords(0),
        -1 <= j < bm.nwords(1),
    ensures
        run_after(bm, 0, 0, i, j) <= j - first_solid(bm.side(1).tokens@) + 1 || run_after(bm, 0, 0, i, j) == 0,
    decreases i + 1,
{
    let b = bm.side(1).tokens@;
    assert(bm.side(0).wf());
    assert(bm.side(1).wf());
    lemma_solid(b);
    if i >= 0 && j >= 0 && agrees(bm, i, j) && !bm.tok(0, i).is_newline() {
        lemma_indent(b, j);
        lemma_run_bound(bm, i - 1, j - 1);
    }
}

/// The words of a run agree, the first of them too.
pub proof fn lemma_run_agrees(bm: &BlockMaker, i: int, j: int, t: int)
    requires
        0 <= t < run_after(bm, 0, 0, i, j),
    ensures
        agrees(bm, i - t, j - t),
    decreases t,
{
    if t > 0 {
        lemma_run_agrees(bm, i - 1, j - 1, t - 1);
    }
}

/// A run that is weighed and is not the run from the first to the last word that
/// is not blank is shorter than that run.
#[verifier::spinoff_prover]
pub proof fn lemma_shorter(bm: &BlockMaker, i: int, j: int)
    requires
        indented_anew(bm),
        ends_run(bm, 0, 0, i, j),
        !(i == last_solid(bm.side(0).tokens@) && j == last_solid(bm.side(1).tokens@)),
    ensures
        1 <= cell_run(bm, 0, 0, i, j) < body_len(bm),
        cell_run(bm, 0, 0, i, j) <= j + 1,
{
    let a = bm.side(0).tokens@;
    let b = bm.side(1).tokens@;
    let d1 = first_solid(a);
    let d2 = first_solid(b);
    let e1 = last_solid(a);
    let e2 = last_solid(b);
    let len = body_len(bm);
    assert(bm.side(0).wf());
    assert(bm.side(1).wf());
    lemma_solid(a);
    lemma_solid(b);
    lemma_bodies(bm);
    lemma_indent(b, j);
    assert(!b[j].is_blank());
    assert(d1 <= i <= e1);
    assert(d2 <= j <= e2);
    lemma_run_bound(bm, i - 1, j - 1);
    let k = cell_run(bm, 0, 0, i, j) as int;
    assert(k <= len);
    if k == len {
        if len >= 2 {
            assert(j == e2);
            lemma_run_agrees(bm, i - 1, j - 1, len - 2);
            let x = i - len + 1;
            assert(agrees(bm, x, d2));
            assert(!a[x].is_blank());
            assert(x >= d1);
        }
        assert(false);
    }
}

/// The run from the first to the last word that is not blank.
pub open spec fn whole_run(bm: &BlockMaker, memo: Memo) -> DiffMatch {
    candidate_of(
        bm,
        memo,
        last_solid(bm.side(0).tokens@),
        last_solid(bm.side(1).tokens@),
        body_len(bm),
        0,
        0,
    )
}

/// That run begins and ends with a word that is not blank.
pub proof fn lemma_whole_run(bm: &BlockMaker, memo: Memo)
    requires
        indented_anew(bm),
    ensures
        whole_run(bm, memo).non_ws_length == body_len(bm),
        whole_run(bm, memo).left == first_solid(bm.side(0).tokens@),
        whole_run(bm, memo).right == first_solid(bm.side(1).tokens@),
        whole_run(bm, memo).length == body_len(bm),
{
    assert(bm.side(0).wf());
    assert(bm.side(1).wf());
    lemma_solid(bm.side(0).tokens@);
    lemma_solid(bm.side(1).tokens@);
    lemma_bodies(bm);
}

/// Before the run from the first to the last word that is not blank is found,
/// every run that is found is shorter.
#[verifier::spinoff_prover]
pub proof fn lemma_scan_before(bm: &BlockMaker, memo: Memo, i: int, j: int)
    requires
        indented_anew(bm),
        0 <= i <= last_solid(bm.side(0).tokens@),
        0 <= j <= bm.nwords(1),
        i < last_solid(bm.side(0).tokens@) || j <= last_solid(bm.side(1).tokens@),
    ensures
        scan_to(bm, memo, 0, 0, bm.nwords(1), i, j).1 < body_len(bm),
    decreases i, j,
{
    let n = bm.nwords(1);
    assert(bm.side(0).wf());
    assert(bm.side(1).wf());
    lemma_solid(bm.side(0).tokens@);
    lemma_solid(bm.side(1).tokens@);
    if j > 0 {
        lemma_scan_before(bm, memo, i, j - 1);
        if ends_run(bm, 0, 0, i, j - 1) {
            lemma_shorter(bm, i, j - 1);
            let k = cell_run(bm, 0, 0, i, j - 1) as int;
            lemma_candidate_length(bm, memo, i, j - 1, k);
        }
    } else if i > 0 {
        lemma_scan_before(bm, memo, i - 1, n);
    }
}

/// What the scan has found once it is past the last words that are not blank: the
/// run from the first to the last word that is not blank, and no other.
#[verifier::spinoff_prover]
pub proof fn lemma_scan_after(bm: &BlockMaker, memo: Memo, i: int, j: int)
    requires
        indented_anew(bm),
        0 <= j <= bm.nwords(1),
        (i == last_solid(bm.side(0).tokens@) && j > last_solid(bm.side(1).tokens@)) || last_solid(
            bm.side(0).tokens@,
        ) < i <= bm.nwords(0),
    ensures
        scan_to(bm, memo, 0, 0, bm.nwords(1), i, j) == (
            seq![whole_run(bm, memo)],
            whole_run(bm, memo).non_ws_length,
        ),
    decreases i, j,
{
    let a = bm.side(0).tokens@;
    let b = bm.side(1).tokens@;
    let n = bm.nwords(1);
    let d1 = first_solid(a);
    let d2 = first_solid(b);
    let e1 = last_solid(a);
    let e2 = last_solid(b);
    assert(bm.side(0).wf());
    assert(bm.side(1).wf());
    lemma_solid(a);
    lemma_solid(b);
    lemma_bodies(bm);
    lemma_whole_run(bm, memo);
    if i == e1 && j == e2 + 1 {
        lemma_scan_before(bm, memo, e1, e2);
        lemma_indent(b, e2);
        lemma_diagonal(bm, e1 - d1 - 1);
        assert(a[d1 + (e1 - d1)] == b[d2 + (e1 - d1)]);
        assert(agrees(bm, e1, e2));
        assert(cell_run(bm, 0, 0, e1, e2) == body_len(bm));
        assert(ends_run(bm, 0, 0, e1, e2));
        let before = scan_to(bm, memo, 0, 0, n, e1, e2);
        assert(take_candidate(before, whole_run(bm, memo)) == (
            seq![whole_run(bm, memo)],
            whole_run(bm, memo).non_ws_length,
        ));
    } else if j > 0 {
        lemma_scan_after(bm, memo, i, j - 1);
        if i == e1 {
            assert(b[j - 1].is_blank());
        } else if i < bm.nwords(0) {
            assert(a[i].is_blank());
        }
        assert(!ends_run(bm, 0, 0, i, j - 1));
    } else {
        lemma_scan_after(bm, memo, i - 1, n);
    }
}

/// The best run of the two lines is the run from the first to the last word that
/// is not blank.
pub proof fn lemma_find(bm: &BlockMaker, memo: Memo)
    requires
        indented_anew(bm),
    ensures
        find_spec(bm, memo, 0, bm.nwords(0), 0, bm.nwords(1), true) == (
            recorded(bm, memo, whole_run(bm, memo)),
            Some(whole_run(bm, memo)),
        ),
{
    assert(bm.side(0).wf());
    assert(bm.side(1).wf());
    lemma_solid(bm.side(0).tokens@);
    lemma_scan_after(bm, memo, bm.nwords(0), 0);
    let ms = scan_spec(bm, memo, 0, bm.nwords(0), 0, bm.nwords(1));
    assert(ms.len() == 1);
    assert(ms[0] == whole_run(bm, memo));
}

/// A run takes in no more words before it than lie before it on either side, and
/// where it has taken them in it takes in no more.
pub proof fn lemma_back(a: Seq<Token>, b: Seq<Token>, i: int, j: int)
    requires
        0 <= i,
        0 <= j,
    ensures
        back_steps(a, b, 0, 0, i, j) <= i,
        back_steps(a, b, 0, 0, i, j) <= j,
        back_steps(a, b, 0, 0, i - back_steps(a, b, 0, 0, i, j), j - back_steps(a, b, 0, 0, i, j)) == 0,
    decreases i,
{
    if i > 0 && back_ok(a, b, 0, 0, i, j) {
        lemma_back(a, b, i - 1, j - 1);
    }
}

/// A run that ends before blanks alone that are the same on both sides, within a
/// line, takes them all in.
pub proof fn lemma_forth(a: Seq<Token>, b: Seq<Token>, i: int, j: int)
    requires
        1 <= i <= a.len(),
        0 <= j,
        a.len() - i == b.len() - j,
        forall|x: int| i <= x < a.len() ==> (#[trigger] a[x]).is_blank(),
        forall|x: int| i <= x < a.len() ==> #[trigger] a[x] == b[x - i + j],
        forall|x: int| 0 <= x < a.len() - 1 ==> !(#[trigger] a[x]).is_newline(),
    ensures
        forth_steps(a, b, a.len() as int, b.len() as int, i, j) == a.len() - i,
    decreases a.len() - i,
{
    if i < a.len() {
        assert(a[i].is_blank());
        assert(a[i] == b[i - i + j]);
        assert(!a[i - 1].is_newline());
        assert(forth_ok(a, b, a.len() as int, b.len() as int, i, j));
        assert forall|x: int| i + 1 <= x < a.len() implies #[trigger] a[x] == b[x - (i + 1) + (j + 1)] by {
            assert(a[x] == b[x - i + j]);
        }
        lemma_forth(a, b, i + 1, j + 1);
    }
}

/// Among words of the left side that are all blank no run is found.
pub proof fn lemma_blank_rows(bm: &BlockMaker, memo: Memo, alo: int, ahi: int, blo: int, bhi: int, i: int, j: int)
    requires
        0 <= alo,
        ahi <= bm.nwords(0),
        forall|x: int| alo <= x < ahi ==> (#[trigger] bm.side(0).tokens@[x]).is_blank(),
        i < ahi,
    ensures
        scan_to(bm, memo, alo, blo, bhi, i, j) == (Seq::<DiffMatch>::empty(), 0usize),
    decreases i - alo, j - blo,
{
    if !(i < alo || j < blo || bhi < blo) {
        if j > blo {
            lemma_blank_rows(bm, memo, alo, ahi, blo, bhi, i, j - 1);
            assert(bm.tok(0, i).is_blank());
        } else if i > alo {
            lemma_blank_rows(bm, memo, alo, ahi, blo, bhi, i - 1, bhi);
        }
    }
}

/// The words of the line that the one run holds: all from the first that is not
/// blank on, and before it the blanks that are the same on both sides.
pub open spec fn anew_run(bm: &BlockMaker) -> (usize, usize, usize) {
    let a = bm.side(0).tokens@;
    let b = bm.side(1).tokens@;
    let shared = back_steps(a, b, 0, 0, first_solid(a), first_solid(b));
    (
        (first_solid(a) - shared) as usize,
        (first_solid(b) - shared) as usize,
        (a.len() - first_solid(a) + shared) as usize,
    )
}

/// The runs of the two lines: the one run and no other.
#[verifier::spinoff_prover]
pub proof fn lemma_collect(bm: &BlockMaker, memo: Memo)
    requires
        indented_anew(bm),
    ensures
        collect_spec(bm, memo, 0, bm.nwords(0), 0, bm.nwords(1)).1 == seq![anew_run(bm)],
        anew_run(bm).0 + anew_run(bm).2 == bm.nwords(0),
        anew_run(bm).1 + anew_run(bm).2 == bm.nwords(1),
        anew_run(bm).0 <= first_solid(bm.side(0).tokens@),
        anew_run(bm).1 <= first_solid(bm.side(1).tokens@),
{
    let a = bm.side(0).tokens@;
    let b = bm.side(1).tokens@;
    let n1 = bm.nwords(0);
    let n2 = bm.nwords(1);
    let d1 = first_solid(a);
    let d2 = first_solid(b);
    let e1 = last_solid(a);
    let e2 = last_solid(b);
    assert(bm.side(0).wf());
    assert(bm.side(1).wf());
    lemma_solid(a);
    lemma_solid(b);
    lemma_bodies(bm);
    lemma_find(bm, memo);
    lemma_whole_run(bm, memo);
    lemma_back(a, b, d1, d2);
    assert forall|x: int| e1 + 1 <= x < a.len() implies #[trigger] a[x] == b[x - (e1 + 1) + (e2 + 1)] by {
        assert(a[d1 + (x - d1)] == b[d2 + (x - d1)]);
    }
    lemma_forth(a, b, e1 + 1, e2 + 1);
    let m = whole_run(bm, memo);
    let run = extended(bm, (m.left, m.right, m.length), 0, n1, 0, n2);
    assert(run == anew_run(bm));
    let found = find_spec(bm, memo, 0, n1, 0, n2, true);
    if 0 < run.0 && 0 < run.1 {
        assert forall|x: int| 0 <= x < run.0 implies (#[trigger] a[x]).is_blank() by {
        }
        lemma_blank_rows(bm, found.0, 0, run.0 as int, 0, run.1 as int, run.0 - 1, run.1 as int);
        assert(scan_spec(bm, found.0, 0, run.0 as int, 0, run.1 as int).len() == 0);
        assert(find_spec(bm, found.0, 0, run.0 as int, 0, run.1 as int, true).1.is_none());
        assert(collect_spec(bm, found.0, 0, run.0 as int, 0, run.1 as int).1.len() == 0);
    }
    let got = collect_spec(bm, memo, 0, n1, 0, n2).1;
    assert(got =~= seq![run]);
}

/// Two lines that differ in their indentation alone hold one part that matches:
/// all their words from the first that is not blank on, and before it the
/// blanks that are the same on both sides. What is left of either line, before
/// that part, is indentation.
#[verifier::spinoff_prover]
pub proof fn lemma_indented_anew(bm: &BlockMaker, memo: Memo)
    requires
        indented_anew(bm),
    ensures
        matching_spec(bm, memo, 0, bm.nwords(0), 0, bm.nwords(1)).1 == seq![run_part(bm, anew_run(bm))],
        run_part(bm, anew_run(bm)).slices.left.end == bm.nwords(0),
        run_part(bm, anew_run(bm)).slices.right.end == bm.nwords(1),
        forall|x: int|
            0 <= x < run_part(bm, anew_run(bm)).slices.left.start ==> (#[trigger] bm.side(0).tokens@[x]).is_blank(),
        forall|x: int|
            0 <= x < run_part(bm, anew_run(bm)).slices.right.start ==> (#[trigger] bm.side(
                1,
            ).tokens@[x]).is_blank(),
{
    let a = bm.side(0).tokens@;
    let b = bm.side(1).tokens@;
    let n1 = bm.nwords(0);
    let n2 = bm.nwords(1);
    assert(bm.side(0).wf());
    assert(bm.side(1).wf());
    lemma_solid(a);
    lemma_solid(b);
    lemma_collect(bm, memo);
    lemma_back(a, b, first_solid(a), first_solid(b));
    let runs = collect_spec(bm, memo, 0, n1, 0, n2).1;
    let run = anew_run(bm);
    assert(runs[0] == run);
    let start = fuse_fold(bm, runs, 0, n1, 0, n2, 0);
    assert(start == (Seq::<Part>::empty(), (0usize, 0usize, 0usize), false));
    assert(back_steps(a, b, 0, 0, run.0 as int, run.1 as int) == 0);
    assert(forth_steps(a, b, n1, n2, n1, n2) == 0);
    assert(extended(bm, run, 0, n1, 0, n2) == run);
    let one = fuse_fold(bm, runs, 0, n1, 0, n2, 1);
    assert(one == (Seq::<Part>::empty(), run, true));
    assert(fused(bm, runs, 0, n1, 0, n2) =~= seq![run_part(bm, run)]);
}

/// The pieces that a part is split into lie within it and match where it
/// matches.
pub proof fn lemma_pieces_within(p: Part<'_>)
    requires
        p.wf(),
    ensures
        forall|k: int|
            0 <= k < p.spec_split().len() ==> {
                let q = #[trigger] p.spec_split()[k];
                &&& q.matches == p.matches
                &&& p.slices.left.start <= q.slices.left.start <= q.slices.left.end <= p.slices.left.end
                &&& p.slices.right.start <= q.slices.right.start <= q.slices.right.end <= p.slices.right.end
            },
{
    p.lemma_split_tiles();
    let s = p.spec_split();
    assert(p.splits_into(s));
    assert forall|k: int| 0 <= k < s.len() implies {
        let q = #[trigger] s[k];
        &&& q.matches == p.matches
        &&& p.slices.left.start <= q.slices.left.start <= q.slices.left.end <= p.slices.left.end
        &&& p.slices.right.start <= q.slices.right.start <= q.slices.right.end <= p.slices.right.end
    } by {
        assert(s[0].wf());
        assert(s[s.len() - 1].wf());
        if s.len() == 3 {
            assert(s[1].wf());
            assert(s[0int].slices.left.end == s[0int + 1].slices.left.start);
            assert(s[1int].slices.left.end == s[1int + 1].slices.left.start);
        } else if s.len() == 2 {
            assert(s[0int].slices.left.end == s[0int + 1].slices.left.start);
        }
    }
}

/// The parts of a hunk of two lines that differ in their indentation alone: every
/// part that matches lies within the one run, which holds all words from the
/// first that is not blank on; every part that does not match lies before it,
/// where all words are blank: it holds indentation and no more.
#[verifier::spinoff_prover]
#[verifier::rlimit(100)]
pub proof fn lemma_indented_anew_block(bm: &BlockMaker)
    requires
        indented_anew(bm),
    ensures
        forall|k: int|
            0 <= k < bm.block_spec().len() ==> {
                let q = #[trigger] bm.block_spec()[k];
                if q.matches {
                    anew_run(bm).0 <= q.slices.left.start && anew_run(bm).1 <= q.slices.right.start
                } else {
                    q.slices.left.end <= anew_run(bm).0 && q.slices.right.end <= anew_run(bm).1
                }
            },
        anew_run(bm).0 <= first_solid(bm.side(0).tokens@),
        anew_run(bm).1 <= first_solid(bm.side(1).tokens@),
        forall|x: int| 0 <= x < first_solid(bm.side(0).tokens@) ==> (#[trigger] bm.side(0).tokens@[x]).is_blank(),
        forall|x: int| 0 <= x < first_solid(bm.side(1).tokens@) ==> (#[trigger] bm.side(1).tokens@[x]).is_blank(),
{
    let n1 = bm.nwords(0);
    let n2 = bm.nwords(1);
    let memo = bm.fresh_memo();
    let run = anew_run(bm);
    let whole = run_part(bm, run);
    assert(bm.side(0).wf());
    assert(bm.side(1).wf());
    lemma_solid(bm.side(0).tokens@);
    lemma_solid(bm.side(1).tokens@);
    lemma_collect(bm, memo);
    lemma_indented_anew(bm, memo);
    crate::single::lemma_no_long_run(bm.side(0).line_tokens@, bm.side(1).line_tokens@);
    let runs = crate::line_differ::long_runs(bm.side(0).line_tokens@, bm.side(1).line_tokens@, 0, 1, 0, 1);
    let start = bm.block_fold(runs, 0);
    let left = crate::pair::Span { start: 0usize, end: n1 as usize };
    let right = crate::pair::Span { start: 0usize, end: n2 as usize };
    let found = matching_spec(bm, memo, 0, n1, 0, n2);
    assert(found.1[0] == whole);
    let none = Seq::<Part>::empty();
    assert(bm.gap_fold(none, found.1, left, right, 0) == (none, 0int, 0int));
    let gap = bm.gap(
        crate::pair::Span { start: 0usize, end: run.0 },
        crate::pair::Span { start: 0usize, end: run.1 },
    );
    let before = bm.with_gap(none, 0, 0, run.0 as int, run.1 as int);
    let pieces = crate::block::without_empty(whole.spec_split());
    let taken = bm.gap_fold(none, found.1, left, right, 1);
    assert(taken.0 == before + pieces);
    assert(taken.1 == n1 && taken.2 == n2);
    assert(bm.with_gap(taken.0, n1, n2, n1, n2) == taken.0);
    assert(bm.filled(none, memo, left, right).1 == before + pieces);
    let all = bm.block_spec();
    assert(all == before + pieces);
    assert(whole.wf());
    assert(gap.wf());
    lemma_pieces_within(whole);
    lemma_pieces_within(gap);
    crate::select::lemma_filter_from(whole.spec_split(), |p: Part| !p.both_empty());
    crate::select::lemma_filter_from(gap.spec_split(), |p: Part| !p.both_empty());
    assert forall|k: int| 0 <= k < all.len() implies {
        let q = #[trigger] all[k];
        if q.matches {
            run.0 <= q.slices.left.start && run.1 <= q.slices.right.start
        } else {
            q.slices.left.end <= run.0 && q.slices.right.end <= run.1
        }
    } by {
        let q = all[k];
        if k < before.len() {
            assert(q == before[k]);
            let kept = crate::block::without_empty(gap.spec_split());
            assert(before =~= kept);
            assert(gap.spec_split().contains(kept[k]));
            let x = choose|x: int| 0 <= x < gap.spec_split().len() && gap.spec_split()[x] == kept[k];
            assert(gap.spec_split()[x] == q);
        } else {
            assert(q == pieces[k - before.len()]);
            assert(whole.spec_split().contains(pieces[k - before.len()]));
            let x = choose|x: int|
                0 <= x < whole.spec_split().len() && whole.spec_split()[x] == pieces[k - before.len()];
            assert(whole.spec_split()[x] == q);
        }
    }
}

} // verus!
