//! Hunks that come to a single part: sides that hold the same lines, and a side
//! that holds nothing.

use crate::block::{
    any_match, capped_len, collapsed, flagged, group_fold, grouped, matched_weight, merge_fold, merged,
    recovered, simple_trial, simplified, spec_too_small, split_spec, squeeze_fold, squeeze_step, squeezed,
    stage, staged, total_weight, without_empty, Block,
};
use crate::block_maker::BlockMaker;
use crate::line_differ::{lemma_no_runs, lemma_whole_run, long_runs};
use crate::pair::{Pair, Span};
use crate::part::{solid_count, Part};
use crate::render::{MergeMarkers, Numbering};
use crate::shift::{shift_fold, shiftable, spec_shifted};
use crate::style::Style;
use crate::style_opts::StyleOpts;
use crate::word_spec::{collect_spec, find_spec, matching_spec, scan_spec, scan_to};
use vstd::prelude::*;

verus! {

/// A single part that is not too small stays when it is squeezed.
pub proof fn lemma_lone_squeezed(p: Part)
    requires
        !spec_too_small(p),
    ensures
        squeezed(seq![p]) == seq![p],
{
    let parts = seq![p];
    assert(squeeze_fold(parts, 0) =~= Seq::<Part>::empty());
    assert(squeeze_step(Seq::empty(), p) =~= seq![p]);
    assert(squeeze_fold(parts, 1) == squeeze_step(squeeze_fold(parts, 0), parts[0]));
}

/// A single part that is not empty on both sides stays when such parts are left out.
pub proof fn lemma_lone_kept(p: Part)
    requires
        !p.both_empty(),
    ensures
        without_empty(seq![p]) == seq![p],
{
    reveal(Seq::filter);
    let one = seq![p];
    assert(one.drop_last() =~= Seq::<Part>::empty());
    assert(without_empty(one) =~= seq![p]);
}

/// A single part that is not empty on both sides is a group of its own.
pub proof fn lemma_lone_grouped(p: Part)
    requires
        !p.both_empty(),
    ensures
        grouped(seq![p]) == seq![seq![p]],
{
    let parts = seq![p];
    let start = group_fold(parts, 0);
    assert(start.0 =~= Seq::<Seq<Part>>::empty());
    assert(start.1 =~= Seq::<Part>::empty());
    let g = group_fold(parts, 1);
    assert(g.0 =~= Seq::<Seq<Part>>::empty());
    assert(g.1 =~= seq![p]);
    assert(g.0.push(g.1) =~= seq![seq![p]]);
}

/// A single list stays when lists that are alike are joined.
pub proof fn lemma_lone_merged(list: Seq<Part>)
    ensures
        merged(seq![list]) == seq![list],
{
    let lists = seq![list];
    assert(lists.drop_first() =~= Seq::<Seq<Part>>::empty());
    assert(merge_fold(Seq::empty(), list, Seq::empty()) =~= seq![list]);
}

/// A step on a single list is the step on the list.
pub proof fn lemma_lone_staged(step: int, list: Seq<Part>)
    ensures
        staged(step, seq![list]) == seq![stage(step, list)],
{
    assert(staged(step, seq![list]) =~= seq![stage(step, list)]);
}

/// The weights of a single part.
pub proof fn lemma_lone_weights(p: Part)
    ensures
        matched_weight(seq![p]) == if p.matches {
            capped_len(solid_count(p.content(0)))
        } else {
            0
        },
        total_weight(seq![p]) == capped_len(solid_count(p.content(0)) + solid_count(p.content(1))),
{
    let one = seq![p];
    assert(one.drop_last() =~= Seq::<Part>::empty());
    assert(matched_weight(one.drop_last()) == 0);
    assert(total_weight(one.drop_last()) == 0);
}

/// Where both sides hold the same lines, and some word, a block of the one part
/// in which all words match is split into itself and nothing else.
#[verifier::spinoff_prover]
#[verifier::rlimit(100)]
pub proof fn lemma_same_lines_split(bm: &BlockMaker)
    requires
        bm.wf(),
        bm.side(0).line_tokens@ == bm.side(1).line_tokens@,
        bm.nwords(0) > 0,
    ensures
        split_spec(seq![bm.whole_part(true)]) == seq![seq![bm.whole_part(true)]],
        bm.whole_part(true).same_words(),
        bm.whole_part(true).spec_whole_line(),
{
    let p = bm.whole_part(true);
    let one = seq![p];
    bm.lemma_whole_part(true);
    assert(bm.side(0).wf());
    assert(bm.side(1).wf());
    bm.lemma_lines_same_words(0, 0, bm.nlines(0));
    assert(p.content(0) == p.content(1));
    lemma_lone_squeezed(p);
    lemma_lone_grouped(p);
    lemma_lone_weights(p);
    lemma_lone_kept(p);
    assert(spec_shifted(one) == one);
    assert(recovered(one) == one);
    assert(collapsed(one) == one);
    assert(simplified(one) == one);
    lemma_lone_staged(0, one);
    lemma_lone_staged(1, one);
    lemma_lone_staged(2, one);
    lemma_lone_staged(3, one);
    lemma_lone_staged(4, one);
    lemma_lone_merged(one);
}

/// The part that matches and is empty at the start of both sides.
pub open spec fn start_anchor(bm: &BlockMaker) -> Part<'_> {
    Part {
        parent: bm,
        matches: true,
        slices: Pair { left: Span { start: 0, end: 0 }, right: Span { start: 0, end: 0 } },
    }
}

/// The part that matches and is empty at the end of both sides.
pub open spec fn end_anchor(bm: &BlockMaker) -> Part<'_> {
    Part {
        parent: bm,
        matches: true,
        slices: Pair {
            left: Span { start: bm.nwords(0) as usize, end: bm.nwords(0) as usize },
            right: Span { start: bm.nwords(1) as usize, end: bm.nwords(1) as usize },
        },
    }
}

/// Against a left side without lines, the words of the right side have nothing
/// in common with it at either end.
proof fn lemma_insertion_trial(bm: &BlockMaker)
    requires
        bm.wf(),
        bm.nlines(0) == 0,
        bm.nwords(1) > 0,
    ensures
        simple_trial(bm.whole_part(false)) == seq![start_anchor(bm), bm.whole_part(false), end_anchor(bm)],
{
    let p = bm.whole_part(false);
    assert(bm.side(0).wf());
    assert(bm.side(1).wf());
    assert(p.content(0).len() == 0);
    let cut = p.spec_partition(0, 0);
    assert(cut.0 == flagged(start_anchor(bm), false));
    assert(cut.1 == p);
    let rest = cut.1;
    assert(rest.content(0).len() == 0);
    let tail = rest.spec_partition(rest.slices.left.end as int, rest.slices.right.end as int);
    assert(tail.0 == p);
    assert(tail.1 == flagged(end_anchor(bm), false));
    assert(simple_trial(p) =~= seq![start_anchor(bm), p, end_anchor(bm)]);
}

/// The three parts stay when they are squeezed: the empty parts begin a line.
#[verifier::spinoff_prover]
#[verifier::rlimit(100)]
proof fn lemma_insertion_squeezed(bm: &BlockMaker)
    requires
        bm.wf(),
        bm.nlines(0) == 0,
        bm.nwords(1) > 0,
    ensures
        squeezed(seq![start_anchor(bm), bm.whole_part(false), end_anchor(bm)]) == seq![
            start_anchor(bm),
            bm.whole_part(false),
            end_anchor(bm),
        ],
{
    let first = start_anchor(bm);
    let mid = bm.whole_part(false);
    let third = end_anchor(bm);
    let trial = seq![first, mid, third];
    assert(bm.side(0).wf());
    assert(first.spec_starts_line(0));
    assert(third.spec_starts_line(0));
    assert(!spec_too_small(first));
    assert(!spec_too_small(third));
    assert(squeeze_fold(trial, 0) =~= Seq::<Part>::empty());
    assert(squeeze_step(Seq::empty(), first) =~= seq![first]);
    assert(squeeze_fold(trial, 1) =~= seq![first]);
    assert(squeeze_step(seq![first], mid) =~= seq![first, mid]);
    assert(squeeze_fold(trial, 2) =~= seq![first, mid]);
    assert(squeeze_step(seq![first, mid], third) =~= seq![first, mid, third]);
    assert(squeeze_fold(trial, 3) =~= trial);
}

/// Of the three parts the one in the middle alone is not empty on both sides.
proof fn lemma_insertion_kept(bm: &BlockMaker)
    requires
        bm.wf(),
        bm.nlines(0) == 0,
        bm.nwords(1) > 0,
    ensures
        without_empty(seq![start_anchor(bm), bm.whole_part(false), end_anchor(bm)]) == seq![
            bm.whole_part(false),
        ],
{
    reveal(Seq::filter);
    let first = start_anchor(bm);
    let mid = bm.whole_part(false);
    let third = end_anchor(bm);
    let trial = seq![first, mid, third];
    assert(bm.side(0).wf());
    let two = trial.drop_last();
    let head = two.drop_last();
    assert(two =~= seq![first, mid]);
    assert(head =~= seq![first]);
    assert(head.drop_last() =~= Seq::<Part>::empty());
    assert(first.both_empty());
    assert(third.both_empty());
    assert(!mid.both_empty());
    assert(head.last() == first);
    assert(two.last() == mid);
    assert(trial.last() == third);
    assert(without_empty(head.drop_last()) =~= Seq::<Part>::empty());
    assert(without_empty(head) =~= Seq::<Part>::empty());
    assert(without_empty(two) =~= seq![mid]);
    assert(without_empty(trial) =~= seq![mid]);
}

/// Against a left side without lines, the part of the right side is not given
/// back words in common: there are none.
#[verifier::spinoff_prover]
#[verifier::rlimit(100)]
proof fn lemma_insertion_simplified(bm: &BlockMaker)
    requires
        bm.wf(),
        bm.nlines(0) == 0,
        bm.nwords(1) > 0,
    ensures
        simplified(seq![bm.whole_part(false)]) == seq![bm.whole_part(false)],
{
    let p = bm.whole_part(false);
    lemma_insertion_trial(bm);
    lemma_insertion_squeezed(bm);
    lemma_insertion_kept(bm);
    let kept = seq![p];
    assert(!any_match(kept)) by {
        if any_match(kept) {
            let n = choose|n: int| 0 <= n < kept.len() && (#[trigger] kept[n]).matches;
            assert(kept[n] == p);
        }
    }
}

/// A block of the one part that holds the words of the right side against a left
/// side without lines is split into itself and nothing else.
#[verifier::spinoff_prover]
#[verifier::rlimit(100)]
pub proof fn lemma_insertion_split(bm: &BlockMaker)
    requires
        bm.wf(),
        bm.nlines(0) == 0,
        bm.nwords(1) > 0,
    ensures
        split_spec(seq![bm.whole_part(false)]) == seq![seq![bm.whole_part(false)]],
        bm.whole_part(false).spec_is_empty(0),
        !bm.whole_part(false).matches,
{
    let p = bm.whole_part(false);
    let one = seq![p];
    bm.lemma_whole_part(false);
    assert(bm.side(0).wf());
    assert(bm.side(1).wf());
    assert(p.content(0).len() == 0);
    lemma_lone_squeezed(p);
    lemma_lone_grouped(p);
    lemma_lone_weights(p);
    lemma_lone_kept(p);
    lemma_insertion_simplified(bm);
    assert(spec_shifted(one) == one);
    assert(recovered(one) == one);
    assert(collapsed(one) == one);
    lemma_lone_staged(0, one);
    lemma_lone_staged(1, one);
    lemma_lone_staged(2, one);
    lemma_lone_staged(3, one);
    lemma_lone_staged(4, one);
    lemma_lone_merged(one);
}

/// The parts of a hunk whose sides hold the same lines, two at least, and some
/// word: the one part in which all words match.
#[verifier::spinoff_prover]
#[verifier::rlimit(100)]
pub proof fn lemma_same_lines_block(bm: &BlockMaker)
    requires
        bm.wf(),
        bm.same_lines(),
    ensures
        bm.block_spec() == seq![bm.whole_part(true)],
{
    let a = bm.side(0).line_tokens@;
    assert(bm.side(0).wf());
    assert(bm.side(1).wf());
    lemma_whole_run(a);
    let runs = long_runs(a, a, 0, bm.nlines(0), 0, bm.nlines(1));
    assert(runs == seq![(0usize, 0usize, bm.nlines(0) as usize)]);
    let start = bm.block_fold(runs, 0);
    let spans = bm.run_spans(runs[0]);
    assert(spans.0 == bm.whole_part(true).slices.left);
    assert(spans.1 == bm.whole_part(true).slices.right);
    assert(!bm.rejected(start.2, start.3, spans.0, spans.1));
    reveal(BlockMaker::block_step);
    let folded = bm.block_fold(runs, 1);
    assert(folded.0 =~= seq![bm.whole_part(true)]);
    assert(folded.2 == bm.nwords(0));
    assert(folded.3 == bm.nwords(1));
}

/// A block of the one part in which all words match is shown as context and in
/// no other way, unless both sides are to be shown.
pub proof fn lemma_same_lines_shown(
    bm: &BlockMaker,
    block: &Block<'_>,
    markers: Option<&MergeMarkers>,
    style: &Style,
    opts: &StyleOpts,
    numbering: &Numbering,
)
    requires
        block.parts@ == seq![bm.whole_part(true)],
        !style.show_both,
    ensures
        block.spec_print(markers, style, opts, numbering) == block.painter(
            markers,
            style,
            opts,
            numbering,
        ).context_parts(block.start(), 0).bytes,
{
}

/// The parts of a hunk whose left side holds no line and whose right side holds
/// a word: the one part that does not match, with all words of the right side.
#[verifier::spinoff_prover]
#[verifier::rlimit(100)]
pub proof fn lemma_insertion_block(bm: &BlockMaker)
    requires
        bm.wf(),
        bm.nlines(0) == 0,
        bm.nwords(1) > 0,
    ensures
        bm.block_spec() == seq![bm.whole_part(false)],
{
    let a = bm.side(0).line_tokens@;
    let b = bm.side(1).line_tokens@;
    assert(bm.side(0).wf());
    assert(bm.side(1).wf());
    lemma_no_runs(a, b, 0, 0, bm.nlines(1));
    let runs = long_runs(a, b, 0, 0, 0, bm.nlines(1));
    assert(runs.len() == 0);
    let folded = bm.block_fold(runs, 0);
    let memo = bm.fresh_memo();
    let n1 = bm.nwords(1);
    let left = Span { start: 0, end: 0 };
    let right = Span { start: 0, end: n1 as usize };
    assert(scan_to(bm, memo, 0, 0, n1, 0, 0).0.len() == 0);
    assert(scan_spec(bm, memo, 0, 0, 0, n1).len() == 0);
    assert(find_spec(bm, memo, 0, 0, 0, n1, true).1.is_none());
    assert(collect_spec(bm, memo, 0, 0, 0, n1).1.len() == 0);
    let found = matching_spec(bm, memo, 0, 0, 0, n1);
    assert(found.1 =~= Seq::<Part>::empty());
    let parts = bm.gap_fold(Seq::empty(), found.1, left, right, 0);
    assert(parts.0 =~= Seq::<Part>::empty());
    bm.lemma_whole_part(false);
    assert(bm.gap(left, right) == bm.whole_part(false));
    let filled = bm.filled(Seq::empty(), memo, left, right);
    assert(filled.1 =~= seq![bm.whole_part(false)]);
}

/// The two parts that the words in common at the start make of the part over all
/// words where both sides hold the same words: the part in which all words
/// match, and what is left, which is nothing.
pub open spec fn given_back(bm: &BlockMaker) -> Seq<Part<'_>> {
    seq![bm.whole_part(true), flagged(end_anchor(bm), false)]
}

/// Where both sides hold the same words, all of them are given back as words in
/// common.
#[verifier::spinoff_prover]
#[verifier::rlimit(100)]
proof fn lemma_equal_recovered(bm: &BlockMaker)
    requires
        bm.wf(),
        bm.nwords(0) > 0,
        bm.side(0).word_seq() == bm.side(1).word_seq(),
    ensures
        recovered(seq![bm.whole_part(false)]) == given_back(bm),
{
    let p = bm.whole_part(false);
    let n = bm.nwords(0);
    assert(bm.side(0).wf());
    assert(bm.side(1).wf());
    assert(p.content(0) =~= bm.side(0).word_seq());
    assert(p.content(1) =~= bm.side(1).word_seq());
    crate::block::lemma_common_prefix_is(p.content(0), p.content(1), n);
    let cut = p.spec_partition(n, n);
    assert(flagged(cut.0, true) == bm.whole_part(true));
    assert(cut.1 == flagged(end_anchor(bm), false));
    let one = seq![p];
    assert(one.subrange(1, 1) =~= Seq::<Part>::empty());
    assert(seq![flagged(cut.0, true), cut.1] + one.subrange(1, 1) =~= given_back(bm));
}

/// The two parts stay when they are moved and squeezed.
#[verifier::spinoff_prover]
#[verifier::rlimit(100)]
proof fn lemma_equal_squeezed(bm: &BlockMaker)
    requires
        bm.wf(),
        bm.nwords(0) > 0,
        bm.side(0).word_seq() == bm.side(1).word_seq(),
    ensures
        squeezed(spec_shifted(given_back(bm))) == given_back(bm),
{
    let whole = bm.whole_part(true);
    let rest = flagged(end_anchor(bm), false);
    let two = given_back(bm);
    bm.lemma_whole_part(true);
    assert(!shiftable(whole));
    assert(!shiftable(rest));
    assert(shift_fold(two, 0) == (two, None::<Part>, None::<Part>));
    assert(shift_fold(two, 1) == (two, None::<Part>, None::<Part>));
    assert(shift_fold(two, 2) == (two, None::<Part>, None::<Part>));
    assert(Seq::<Part>::empty() + two + Seq::<Part>::empty() =~= two);
    assert(spec_shifted(two) == two);
    assert(!spec_too_small(whole));
    assert(squeeze_fold(two, 0) =~= Seq::<Part>::empty());
    assert(squeeze_step(Seq::empty(), whole) =~= seq![whole]);
    assert(squeeze_fold(two, 1) =~= seq![whole]);
    assert(squeeze_step(seq![whole], rest) =~= two);
    assert(squeeze_fold(two, 2) =~= two);
}

/// The two parts do not score between zero and the cutoff.
#[verifier::spinoff_prover]
#[verifier::rlimit(100)]
proof fn lemma_equal_collapsed(bm: &BlockMaker)
    requires
        bm.wf(),
        bm.nwords(0) > 0,
        bm.side(0).word_seq() == bm.side(1).word_seq(),
    ensures
        collapsed(given_back(bm)) == given_back(bm),
{
    let whole = bm.whole_part(true);
    let rest = flagged(end_anchor(bm), false);
    let two = given_back(bm);
    assert(bm.side(0).wf());
    assert(bm.side(1).wf());
    assert(two.drop_last() =~= seq![whole]);
    assert(two.last() == rest);
    lemma_lone_weights(whole);
    assert(whole.content(0) =~= bm.side(0).word_seq());
    assert(whole.content(1) =~= bm.side(1).word_seq());
    assert(rest.content(0) =~= Seq::<Seq<u8>>::empty());
    assert(rest.content(1) =~= Seq::<Seq<u8>>::empty());
    assert(solid_count(rest.content(0)) == 0);
    assert(solid_count(rest.content(1)) == 0);
    let s = solid_count(whole.content(0));
    assert(matched_weight(two) == capped_len(s));
    assert(total_weight(two) == capped_len(s + s));
}

/// Of the two parts the first alone is not empty on both sides.
proof fn lemma_equal_kept(bm: &BlockMaker)
    requires
        bm.wf(),
        bm.nwords(0) > 0,
    ensures
        without_empty(given_back(bm)) == seq![bm.whole_part(true)],
{
    reveal(Seq::filter);
    let whole = bm.whole_part(true);
    let rest = flagged(end_anchor(bm), false);
    let two = given_back(bm);
    let head = two.drop_last();
    assert(head =~= seq![whole]);
    assert(head.drop_last() =~= Seq::<Part>::empty());
    assert(rest.both_empty());
    assert(!whole.both_empty());
    assert(head.last() == whole);
    assert(two.last() == rest);
    assert(without_empty(head.drop_last()) =~= Seq::<Part>::empty());
    assert(without_empty(head) =~= seq![whole]);
    assert(without_empty(two) =~= seq![whole]);
}

/// Where both sides hold the same words, a block of the one part over all words
/// that does not match is split into the one part in which all words match: the
/// words are given back as words in common.
#[verifier::spinoff_prover]
#[verifier::rlimit(100)]
pub proof fn lemma_equal_split(bm: &BlockMaker)
    requires
        bm.wf(),
        bm.nwords(0) > 0,
        bm.side(0).word_seq() == bm.side(1).word_seq(),
    ensures
        split_spec(seq![bm.whole_part(false)]) == seq![seq![bm.whole_part(true)]],
{
    let p = bm.whole_part(false);
    let one = seq![p];
    let two = given_back(bm);
    bm.lemma_whole_part(false);
    assert(bm.side(0).wf());
    assert(bm.side(1).wf());
    lemma_lone_squeezed(p);
    lemma_lone_grouped(p);
    assert(spec_shifted(one) == one);
    let groups = grouped(spec_shifted(squeezed(one)));
    assert(groups == seq![one]);
    lemma_equal_recovered(bm);
    lemma_lone_staged(0, one);
    assert(staged(0, groups) == seq![two]);
    lemma_lone_merged(two);
    let joined = merged(staged(0, groups));
    assert(joined == seq![two]);
    lemma_equal_squeezed(bm);
    lemma_lone_staged(1, two);
    assert(staged(1, joined) == seq![two]);
    lemma_equal_collapsed(bm);
    lemma_lone_staged(2, two);
    assert(staged(2, staged(1, joined)) == seq![two]);
    let again = merged(staged(2, staged(1, joined)));
    assert(again == seq![two]);
    assert(simplified(two) == two);
    lemma_lone_staged(3, two);
    assert(staged(3, again) == seq![two]);
    lemma_equal_kept(bm);
    lemma_lone_staged(4, two);
    assert(staged(4, staged(3, again)) == seq![seq![bm.whole_part(true)]]);
}

} // verus!
