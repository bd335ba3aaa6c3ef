//! A list of parts that is shown as one group.

use crate::block_maker::BlockMaker;
use crate::pair::{Pair, Span};
use crate::part::{all_sound, chained, holds, parts_of, solid_count, tiles, Part};
use crate::select::select;
use crate::whitespace::{bytes_eq, views};
use vstd::prelude::*;

verus! {

/// Parts of `bm` that cover `0..l1` on the left and `0..r1` on the right without a
/// gap, none of them empty on both sides, and every part that is said to match
/// holds the same words on both sides.
pub open spec fn covering(parts: Seq<Part<'_>>, bm: &BlockMaker, l1: int, r1: int) -> bool {
    &&& parts_of(parts, bm)
    &&& tiles(parts, 0, l1, 0, r1)
    &&& forall|n: int| 0 <= n < parts.len() ==> !(#[trigger] parts[n]).both_empty()
    &&& all_sound(parts)
}

/// A chain of parts that covers its ranges and a part that begins where the chain
/// ends are such a chain again; a part that is empty on both sides may be left out.
pub proof fn lemma_covering_push(parts: Seq<Part<'_>>, p: Part<'_>, bm: &BlockMaker, l1: int, r1: int)
    requires
        covering(parts, bm, l1, r1),
        p.wf(),
        p.parent == bm,
        p.slices.left.start == l1,
        p.slices.right.start == r1,
        p.sound(),
    ensures
        !p.both_empty() ==> covering(
            parts.push(p),
            bm,
            p.slices.left.end as int,
            p.slices.right.end as int,
        ),
        p.both_empty() ==> covering(parts, bm, p.slices.left.end as int, p.slices.right.end as int),
{
    if !p.both_empty() {
        let all = parts.push(p);
        assert forall|n: int| 0 <= n < all.len() implies (#[trigger] all[n]).wf() && all[n].parent == bm
            && !all[n].both_empty() by {
            if n < parts.len() {
                assert(all[n] == parts[n]);
            }
        }
        assert forall|n: int| 0 <= n < all.len() - 1 implies (#[trigger] all[n]).slices.left.end == all[n
            + 1].slices.left.start && all[n].slices.right.end == all[n + 1].slices.right.start by {
            assert(all[n] == parts[n]);
            if n + 1 < parts.len() {
                assert(all[n + 1] == parts[n + 1]);
            }
        }
        if parts.len() > 0 {
            assert(all[0] == parts[0]);
        }
        {
            assert forall|n: int| 0 <= n < all.len() implies (#[trigger] all[n]).sound() by {
                if n < parts.len() {
                    assert(all[n] == parts[n]);
                }
            }
        }
    }
}

/// The number of words that `a` and `b` begin with in common.
pub open spec fn common_prefix(a: Seq<Seq<u8>>, b: Seq<Seq<u8>>) -> nat
    decreases a.len(),
{
    if a.len() == 0 || b.len() == 0 || a[0] != b[0] {
        0
    } else {
        1 + common_prefix(a.drop_first(), b.drop_first())
    }
}

/// The number of words that `a` and `b` end with in common.
pub open spec fn common_suffix(a: Seq<Seq<u8>>, b: Seq<Seq<u8>>) -> nat
    decreases a.len(),
{
    if a.len() == 0 || b.len() == 0 || a.last() != b.last() {
        0
    } else {
        1 + common_suffix(a.drop_last(), b.drop_last())
    }
}

/// The common prefix lies within both, its words agree, and the next ones differ.
pub proof fn lemma_common_prefix(a: Seq<Seq<u8>>, b: Seq<Seq<u8>>)
    ensures
        common_prefix(a, b) <= a.len(),
        common_prefix(a, b) <= b.len(),
        forall|t: int| 0 <= t < common_prefix(a, b) ==> #[trigger] a[t] == b[t],
        common_prefix(a, b) < a.len() && common_prefix(a, b) < b.len() ==> a[common_prefix(a, b) as int]
            != b[common_prefix(a, b) as int],
    decreases a.len(),
{
    if !(a.len() == 0 || b.len() == 0 || a[0] != b[0]) {
        lemma_common_prefix(a.drop_first(), b.drop_first());
        let k = common_prefix(a.drop_first(), b.drop_first());
        assert forall|t: int| 0 <= t < k + 1 implies #[trigger] a[t] == b[t] by {
            if t > 0 {
                assert(a.drop_first()[t - 1] == b.drop_first()[t - 1]);
            }
        }
        if k + 1 < a.len() && k + 1 < b.len() {
            assert(a.drop_first()[k as int] != b.drop_first()[k as int]);
        }
    }
}

/// The common suffix lies within both, its words agree, and the ones before differ.
pub proof fn lemma_common_suffix(a: Seq<Seq<u8>>, b: Seq<Seq<u8>>)
    ensures
        common_suffix(a, b) <= a.len(),
        common_suffix(a, b) <= b.len(),
        forall|t: int|
            0 <= t < common_suffix(a, b) ==> #[trigger] a[a.len() - 1 - t] == b[b.len() - 1 - t],
        common_suffix(a, b) < a.len() && common_suffix(a, b) < b.len() ==> a[a.len() - 1
            - common_suffix(a, b)] != b[b.len() - 1 - common_suffix(a, b)],
    decreases a.len(),
{
    if !(a.len() == 0 || b.len() == 0 || a.last() != b.last()) {
        lemma_common_suffix(a.drop_last(), b.drop_last());
        let k = common_suffix(a.drop_last(), b.drop_last());
        assert forall|t: int| 0 <= t < k + 1 implies #[trigger] a[a.len() - 1 - t] == b[b.len() - 1 - t] by {
            if t > 0 {
                assert(a.drop_last()[a.len() - 1 - 1 - (t - 1)] == b.drop_last()[b.len() - 1 - 1 - (t - 1)]);
            }
        }
        if k + 1 < a.len() && k + 1 < b.len() {
            assert(a.drop_last()[a.len() - 1 - 1 - k] != b.drop_last()[b.len() - 1 - 1 - k]);
        }
    }
}

/// Words that agree up to a place where they differ or one list ends have that
/// many words in common at their beginning.
pub proof fn lemma_common_prefix_is(a: Seq<Seq<u8>>, b: Seq<Seq<u8>>, n: int)
    requires
        0 <= n <= a.len(),
        n <= b.len(),
        forall|t: int| 0 <= t < n ==> #[trigger] a[t] == b[t],
        n < a.len() && n < b.len() ==> a[n] != b[n],
    ensures
        common_prefix(a, b) == n,
{
    lemma_common_prefix(a, b);
    let k = common_prefix(a, b) as int;
    if k < n {
        assert(a[k] == b[k]);
    } else if k > n {
        assert(a[n] == b[n]);
    }
}

/// The same for the words in common at the end.
pub proof fn lemma_common_suffix_is(a: Seq<Seq<u8>>, b: Seq<Seq<u8>>, n: int)
    requires
        0 <= n <= a.len(),
        n <= b.len(),
        forall|t: int| 0 <= t < n ==> #[trigger] a[a.len() - 1 - t] == b[b.len() - 1 - t],
        n < a.len() && n < b.len() ==> a[a.len() - 1 - n] != b[b.len() - 1 - n],
    ensures
        common_suffix(a, b) == n,
{
    lemma_common_suffix(a, b);
    let k = common_suffix(a, b) as int;
    if k < n {
        assert(a[a.len() - 1 - k] == b[b.len() - 1 - k]);
    } else if k > n {
        assert(a[a.len() - 1 - n] == b[b.len() - 1 - n]);
    }
}

/// The number of words that `a` and `b` begin with in common.
pub fn find_common_prefix_length(a: &[Vec<u8>], b: &[Vec<u8>]) -> (r: usize)
    ensures
        r == common_prefix(views(a@), views(b@)),
{
    let mut n: usize = 0;
    while n < a.len() && n < b.len() && bytes_eq(a[n].as_slice(), b[n].as_slice())
        invariant
            n <= a@.len(),
            n <= b@.len(),
            forall|t: int| 0 <= t < n ==> #[trigger] views(a@)[t] == views(b@)[t],
        decreases a@.len() - n,
    {
        n += 1;
    }
    proof {
        lemma_common_prefix_is(views(a@), views(b@), n as int);
    }
    n
}

/// The number of words that `a` and `b` end with in common.
pub fn find_common_suffix_length(a: &[Vec<u8>], b: &[Vec<u8>]) -> (r: usize)
    ensures
        r == common_suffix(views(a@), views(b@)),
{
    let mut n: usize = 0;
    while n < a.len() && n < b.len() && bytes_eq(a[a.len() - 1 - n].as_slice(), b[b.len() - 1 - n].as_slice())
        invariant
            n <= a@.len(),
            n <= b@.len(),
            forall|t: int|
                0 <= t < n ==> #[trigger] views(a@)[a@.len() - 1 - t] == views(b@)[b@.len() - 1 - t],
        decreases a@.len() - n,
    {
        n += 1;
    }
    proof {
        lemma_common_suffix_is(views(a@), views(b@), n as int);
    }
    n
}

/// No more than ten.
pub open spec fn capped_len(n: nat) -> nat {
    if n < 10 {
        n
    } else {
        10
    }
}

/// The words of the left side in the parts of `parts` that match, each part
/// counted for ten at most; white space is not counted.
pub open spec fn matched_weight(parts: Seq<Part<'_>>) -> nat
    decreases parts.len(),
{
    if parts.len() == 0 {
        0
    } else {
        matched_weight(parts.drop_last()) + if parts.last().matches {
            capped_len(solid_count(parts.last().content(0)))
        } else {
            0
        }
    }
}

/// The words of both sides in the parts of `parts`, the two sides of each part
/// together counted for ten at most; white space is not counted.
pub open spec fn total_weight(parts: Seq<Part<'_>>) -> nat
    decreases parts.len(),
{
    if parts.len() == 0 {
        0
    } else {
        total_weight(parts.drop_last()) + capped_len(
            solid_count(parts.last().content(0)) + solid_count(parts.last().content(1)),
        )
    }
}

/// How well the two sides of a block agree: twice the weight of what matches
/// over the weight of all, which can be more than one. A block without weight
/// scores one.
#[derive(Clone, Copy, Debug)]
pub struct Score {
    pub matched: u128,
    pub total: u128,
}

impl Score {
    /// A bound on the weights that keeps the arithmetic of the comparisons in range.
    pub const LIMIT: u128 = 0xffff_ffff_ffff_ffff_ffff;

    /// The score is zero: there is weight, and none of it matches.
    pub open spec fn spec_is_zero(self) -> bool {
        self.total != 0 && self.matched == 0
    }

    /// The score is below the cutoff of three fifths.
    pub open spec fn spec_below_cutoff(self) -> bool {
        self.total != 0 && 10 * self.matched < 3 * self.total
    }

    /// The score is above the cutoff of three fifths.
    pub open spec fn spec_above_cutoff(self) -> bool {
        self.total == 0 || 10 * self.matched > 3 * self.total
    }

    /// The score of `self` is no less than that of `other`.
    pub open spec fn at_least(self, other: Score) -> bool {
        if other.total == 0 {
            self.total == 0 || 2 * self.matched >= self.total
        } else if self.total == 0 {
            2 * other.matched <= other.total
        } else {
            self.matched * other.total >= other.matched * self.total
        }
    }

    /// Whether something was weighed and nothing of it matched.
    pub fn is_zero(self) -> (r: bool)
        ensures
            r == self.spec_is_zero(),
    {
        self.total != 0 && self.matched == 0
    }

    /// Whether the score is below the cutoff of three fifths.
    pub fn below_cutoff(self) -> (r: bool)
        requires
            self.matched <= Score::LIMIT,
            self.total <= Score::LIMIT,
        ensures
            r == self.spec_below_cutoff(),
    {
        self.total != 0 && 10 * self.matched < 3 * self.total
    }

    /// Whether the score is above the cutoff of three fifths.
    pub fn above_cutoff(self) -> (r: bool)
        requires
            self.matched <= Score::LIMIT,
            self.total <= Score::LIMIT,
        ensures
            r == self.spec_above_cutoff(),
    {
        self.total == 0 || 10 * self.matched > 3 * self.total
    }
}

/// Parts of `bm` that cover `l0..l1` on the left and `r0..r1` on the right without
/// a gap, and every part that is said to match holds the same words on both
/// sides.
pub open spec fn chain(parts: Seq<Part<'_>>, bm: &BlockMaker, l0: int, l1: int, r0: int, r1: int) -> bool {
    &&& parts_of(parts, bm)
    &&& tiles(parts, l0, l1, r0, r1)
    &&& all_sound(parts)
}

/// A chain and a part that begins where the chain ends are a chain.
pub proof fn lemma_chain_push(
    parts: Seq<Part<'_>>,
    p: Part<'_>,
    bm: &BlockMaker,
    l0: int,
    l1: int,
    r0: int,
    r1: int,
)
    requires
        chain(parts, bm, l0, l1, r0, r1),
        p.wf(),
        p.parent == bm,
        p.slices.left.start == l1,
        p.slices.right.start == r1,
        p.sound(),
    ensures
        chain(parts.push(p), bm, l0, p.slices.left.end as int, r0, p.slices.right.end as int),
{
    let all = parts.push(p);
    assert forall|n: int| 0 <= n < all.len() implies (#[trigger] all[n]).wf() && all[n].parent == bm by {
        if n < parts.len() {
            assert(all[n] == parts[n]);
        }
    }
    assert forall|n: int| 0 <= n < all.len() - 1 implies (#[trigger] all[n]).slices.left.end == all[n
        + 1].slices.left.start && all[n].slices.right.end == all[n + 1].slices.right.start by {
        assert(all[n] == parts[n]);
        if n + 1 < parts.len() {
            assert(all[n + 1] == parts[n + 1]);
        }
    }
    if parts.len() > 0 {
        assert(all[0] == parts[0]);
    }
    {
        assert forall|n: int| 0 <= n < all.len() implies (#[trigger] all[n]).sound() by {
            if n < parts.len() {
                assert(all[n] == parts[n]);
            }
        }
    }
}

/// A chain without its last part is a chain that ends where that part begins.
pub proof fn lemma_chain_pop(parts: Seq<Part<'_>>, bm: &BlockMaker, l0: int, l1: int, r0: int, r1: int)
    requires
        chain(parts, bm, l0, l1, r0, r1),
        parts.len() > 0,
    ensures
        chain(
            parts.drop_last(),
            bm,
            l0,
            parts.last().slices.left.start as int,
            r0,
            parts.last().slices.right.start as int,
        ),
        parts.last().wf(),
        parts.last().parent == bm,
        parts.last().sound(),
        parts.last().slices.left.end == l1,
        parts.last().slices.right.end == r1,
{
    let rest = parts.drop_last();
    assert forall|n: int| 0 <= n < rest.len() implies (#[trigger] rest[n]).wf() && rest[n].parent == bm by {
        assert(rest[n] == parts[n]);
    }
    assert forall|n: int| 0 <= n < rest.len() - 1 implies (#[trigger] rest[n]).slices.left.end == rest[n
        + 1].slices.left.start && rest[n].slices.right.end == rest[n + 1].slices.right.start by {
        assert(rest[n] == parts[n]);
        assert(rest[n + 1] == parts[n + 1]);
    }
    if rest.len() > 0 {
        assert(rest[0] == parts[0]);
        assert(rest.last() == parts[parts.len() - 2]);
    }
    {
        assert forall|n: int| 0 <= n < rest.len() implies (#[trigger] rest[n]).sound() by {
            assert(rest[n] == parts[n]);
        }
    }
}

/// The parts of `parts` that are not empty on both sides.
pub open spec fn without_empty<'a>(parts: Seq<Part<'a>>) -> Seq<Part<'a>> {
    parts.filter(|p: Part<'a>| !p.both_empty())
}

/// No part of `parts` is empty on both sides.
pub open spec fn none_empty(parts: Seq<Part<'_>>) -> bool {
    forall|n: int| 0 <= n < parts.len() ==> !(#[trigger] parts[n]).both_empty()
}

/// A chain without its parts that are empty on both sides is a chain.
pub proof fn lemma_chain_filter<'a>(parts: Seq<Part<'a>>, bm: &BlockMaker, l0: int, l1: int, r0: int, r1: int)
    requires
        chain(parts, bm, l0, l1, r0, r1),
    ensures
        chain(without_empty(parts), bm, l0, l1, r0, r1),
        none_empty(without_empty(parts)),
    decreases parts.len(),
{
    reveal(Seq::filter);
    let pred = |p: Part<'a>| !p.both_empty();
    if parts.len() > 0 {
        lemma_chain_pop(parts, bm, l0, l1, r0, r1);
        let last = parts.last();
        lemma_chain_filter(
            parts.drop_last(),
            bm,
            l0,
            last.slices.left.start as int,
            r0,
            last.slices.right.start as int,
        );
        let kept = parts.drop_last().filter(pred);
        if !last.both_empty() {
            lemma_chain_push(kept, last, bm, l0, last.slices.left.start as int, r0, last.slices.right.start as int);
            let all = kept.push(last);
            assert forall|n: int| 0 <= n < all.len() implies !(#[trigger] all[n]).both_empty() by {
                if n < kept.len() {
                    assert(all[n] == kept[n]);
                }
            }
        }
    }
}

/// Two chains of which the second begins where the first ends are one chain.
pub proof fn lemma_chain_concat(
    a: Seq<Part<'_>>,
    b: Seq<Part<'_>>,
    bm: &BlockMaker,
    l0: int,
    l1: int,
    l2: int,
    r0: int,
    r1: int,
    r2: int,
)
    requires
        chain(a, bm, l0, l1, r0, r1),
        chain(b, bm, l1, l2, r1, r2),
    ensures
        chain(a + b, bm, l0, l2, r0, r2),
    decreases b.len(),
{
    if b.len() == 0 {
        assert(a + b =~= a);
    } else {
        lemma_chain_pop(b, bm, l1, l2, r1, r2);
        let last = b.last();
        lemma_chain_concat(
            a,
            b.drop_last(),
            bm,
            l0,
            l1,
            last.slices.left.start as int,
            r0,
            r1,
            last.slices.right.start as int,
        );
        lemma_chain_push(
            a + b.drop_last(),
            last,
            bm,
            l0,
            last.slices.left.start as int,
            r0,
            last.slices.right.start as int,
        );
        assert((a + b.drop_last()).push(last) =~= a + b);
    }
}

/// Two parts that match one after the other, both with the same words on both
/// sides, hold the same words on both sides when taken as one part.
pub proof fn lemma_joined_sound(first: Part<'_>, second: Part<'_>, joined: Part<'_>)
    requires
        first.wf(),
        second.wf(),
        first.parent == second.parent,
        joined.parent == first.parent,
        first.same_words(),
        second.same_words(),
        first.slices.left.end == second.slices.left.start,
        first.slices.right.end == second.slices.right.start,
        joined.slices.left.start == first.slices.left.start,
        joined.slices.right.start == first.slices.right.start,
        joined.slices.left.end == second.slices.left.end,
        joined.slices.right.end == second.slices.right.end,
    ensures
        joined.same_words(),
{
    assert(joined.content(0) =~= first.content(0) + second.content(0));
    assert(joined.content(1) =~= first.content(1) + second.content(1));
}

/// Every part of `parts` has its ranges within the words of its parent, and all
/// have the same parent.
pub open spec fn all_wf(parts: Seq<Part<'_>>) -> bool {
    forall|n: int| 0 <= n < parts.len() ==> (#[trigger] parts[n]).wf() && parts[n].parent == parts[0].parent
}

/// Every part matches and is made of whole lines.
pub open spec fn spec_perfect(parts: Seq<Part<'_>>) -> bool {
    forall|n: int| 0 <= n < parts.len() ==> (#[trigger] parts[n]).matches && parts[n].spec_whole_line()
}

/// Every part is empty on side `i`.
pub open spec fn spec_side_empty(parts: Seq<Part<'_>>, i: int) -> bool {
    forall|n: int| 0 <= n < parts.len() ==> (#[trigger] parts[n]).spec_is_empty(i)
}

/// The score of `parts`.
pub open spec fn spec_score(parts: Seq<Part<'_>>) -> Score {
    Score { matched: matched_weight(parts) as u128, total: total_weight(parts) as u128 }
}

/// Neither side is empty, and one side lies on one line while the other does not.
pub open spec fn spec_multiline(parts: Seq<Part<'_>>) -> bool {
    &&& !spec_side_empty(parts, 0)
    &&& !spec_side_empty(parts, 1)
    &&& (parts[0].first_line(0) == parts.last().last_line(0)) != (parts[0].first_line(1)
        == parts.last().last_line(1))
}

/// Whether two blocks that follow each other become one: both are perfect, or
/// both score zero, or both score no less than the cutoff, or both score below
/// it. But a block that scores above zero with one side on one line and the
/// other not stays alone.
pub open spec fn spec_should_merge(prev: Seq<Part<'_>>, next: Seq<Part<'_>>) -> bool {
    let alike = {
        ||| spec_perfect(prev) && spec_perfect(next)
        ||| spec_score(prev).spec_is_zero() && spec_score(next).spec_is_zero()
        ||| !spec_score(prev).spec_below_cutoff() && !spec_score(next).spec_below_cutoff()
        ||| spec_score(prev).spec_below_cutoff() && spec_score(next).spec_below_cutoff()
    };
    &&& alike
    &&& !(spec_multiline(prev) && !spec_score(prev).spec_is_zero())
    &&& !(spec_multiline(next) && !spec_score(next).spec_is_zero())
}

/// The blocks that `prev` and the blocks of `rest` become when each block is
/// joined to the one before it where `spec_should_merge` says so; `done` holds
/// the blocks that are finished.
pub open spec fn merge_fold<'a>(done: Seq<Seq<Part<'a>>>, prev: Seq<Part<'a>>, rest: Seq<Seq<Part<'a>>>) -> Seq<
    Seq<Part<'a>>,
>
    decreases rest.len(),
{
    if rest.len() == 0 {
        done.push(prev)
    } else if spec_should_merge(prev, rest[0]) {
        merge_fold(done, prev + rest[0], rest.drop_first())
    } else {
        merge_fold(done.push(prev), rest[0], rest.drop_first())
    }
}

/// The parts of each block of `blocks`.
pub open spec fn part_lists<'a>(blocks: Seq<Block<'a>>) -> Seq<Seq<Part<'a>>> {
    Seq::new(blocks.len(), |n: int| blocks[n].parts@)
}

/// Appends the parts of `src` to `dst`.
pub fn append_parts<'a>(dst: &mut Vec<Part<'a>>, src: &Vec<Part<'a>>)
    ensures
        final(dst)@ == old(dst)@ + src@,
{
    let mut n: usize = 0;
    while n < src.len()
        invariant
            n <= src@.len(),
            dst@ == old(dst)@ + src@.take(n as int),
        decreases src@.len() - n,
    {
        dst.push(src[n]);
        assert(src@.take(n + 1) =~= src@.take(n as int).push(src@[n as int]));
        n += 1;
    }
    assert(src@.take(n as int) =~= src@);
}

/// The first word of `words` from `from` on that is not a newline, or `to`.
pub open spec fn skip_newlines(words: Seq<Seq<u8>>, from: int, to: int) -> int
    decreases to - from,
{
    if from >= to || words[from] != seq![10u8] {
        from
    } else {
        skip_newlines(words, from + 1, to)
    }
}

/// The number of bytes of the words of `words` from `from` on, up to the first
/// newline or to `to`.
pub open spec fn bytes_to_newline(words: Seq<Seq<u8>>, from: int, to: int) -> nat
    decreases to - from,
{
    if from >= to || words[from] == seq![10u8] {
        0
    } else {
        words[from].len() + bytes_to_newline(words, from + 1, to)
    }
}

/// The number of bytes of the first line of `words` that is not empty.
pub open spec fn line_bytes(words: Seq<Seq<u8>>) -> nat {
    bytes_to_newline(words, skip_newlines(words, 0, words.len() as int), words.len() as int)
}

/// Whether a part that matches is too small to stand between two parts that do
/// not: it is neither made of whole lines nor a single newline, it neither
/// begins nor ends a line on either side, and the first line of it that is not
/// empty holds fewer than seven bytes.
pub open spec fn spec_too_small(p: Part<'_>) -> bool {
    &&& p.matches
    &&& !p.spec_whole_line()
    &&& !(p.slices.left.end - p.slices.left.start == 1 && p.content(0)[0] == seq![10u8])
    &&& !(p.spec_starts_line(0) || p.spec_starts_line(1) || p.spec_ends_line(0) || p.spec_ends_line(1))
    &&& line_bytes(p.content(0)) < 7
}

/// `last` lengthened to the end of `part`.
pub open spec fn stretched<'a>(last: Part<'a>, part: Part<'a>) -> Part<'a> {
    Part {
        parent: last.parent,
        matches: last.matches,
        slices: Pair {
            left: Span { start: last.slices.left.start, end: part.slices.left.end },
            right: Span { start: last.slices.right.start, end: part.slices.right.end },
        },
    }
}

/// The part at the start of `part` that is empty on both sides and does not match.
pub open spec fn placeholder<'a>(part: Part<'a>) -> Part<'a> {
    Part {
        parent: part.parent,
        matches: false,
        slices: Pair {
            left: Span { start: part.slices.left.start, end: part.slices.left.start },
            right: Span { start: part.slices.right.start, end: part.slices.right.start },
        },
    }
}

/// The parts `acc` once `part` is taken in: a part that matches and is too small,
/// and a part that does not match after one that does not, are joined to the part
/// before them, which is then split anew; other parts are appended.
pub open spec fn squeeze_step<'a>(acc: Seq<Part<'a>>, part: Part<'a>) -> Seq<Part<'a>> {
    let join = spec_too_small(part);
    let kept = if part.matches && !join {
        acc.push(part)
    } else if part.matches && acc.len() == 0 {
        seq![placeholder(part)]
    } else {
        acc
    };
    if kept.len() > 0 && (join || (!part.matches && !kept.last().matches)) {
        kept.drop_last() + stretched(kept.last(), part).spec_split()
    } else if !part.matches {
        kept.push(part)
    } else {
        kept
    }
}

/// The first `n` parts of `parts`, squeezed.
pub open spec fn squeeze_fold<'a>(parts: Seq<Part<'a>>, n: int) -> Seq<Part<'a>>
    decreases n,
{
    if n <= 0 {
        Seq::empty()
    } else {
        squeeze_step(squeeze_fold(parts, n - 1), parts[n - 1])
    }
}

/// The parts of `parts`, squeezed. Where that changes their number, the parts
/// that are empty on both sides are left out; where it does not, `parts` stays.
pub open spec fn squeezed<'a>(parts: Seq<Part<'a>>) -> Seq<Part<'a>> {
    let folded = squeeze_fold(parts, parts.len() as int);
    if folded.len() != parts.len() {
        without_empty(folded)
    } else {
        parts
    }
}

/// No part of `parts` is joined to another when they are squeezed: no part that
/// matches is too small, and of two parts that follow each other one matches.
pub open spec fn nothing_to_squeeze(parts: Seq<Part<'_>>) -> bool {
    &&& forall|n: int| 0 <= n < parts.len() ==> !spec_too_small(#[trigger] parts[n])
    &&& forall|n: int| 0 <= n < parts.len() - 1 ==> (#[trigger] parts[n]).matches || parts[n + 1].matches
}

/// Squeezing leaves parts of which none is joined to another as they are.
pub proof fn lemma_squeeze_fold_fixed(parts: Seq<Part<'_>>, n: int)
    requires
        nothing_to_squeeze(parts),
        0 <= n <= parts.len(),
    ensures
        squeeze_fold(parts, n) == parts.take(n),
    decreases n,
{
    if n > 0 {
        lemma_squeeze_fold_fixed(parts, n - 1);
        let acc = parts.take(n - 1);
        let part = parts[n - 1];
        assert(!spec_too_small(part));
        if n >= 2 {
            assert(acc.last() == parts[n - 2]);
            assert(parts[n - 2].matches || parts[n - 2 + 1].matches);
        }
        assert(squeeze_step(acc, part) =~= parts.take(n));
    } else {
        assert(parts.take(0) =~= Seq::<Part<'_>>::empty());
    }
}

/// The score of a block does not fall when its parts are squeezed, where none of
/// them is joined to another: the parts stay as they are, and so does the score.
pub proof fn lemma_squeeze_keeps_score(parts: Seq<Part<'_>>)
    requires
        nothing_to_squeeze(parts),
    ensures
        squeezed(parts) == parts,
        spec_score(squeezed(parts)).at_least(spec_score(parts)),
{
    lemma_squeeze_fold_fixed(parts, parts.len() as int);
    assert(parts.take(parts.len() as int) =~= parts);
    let s = spec_score(parts);
    assert(s.at_least(s)) by (nonlinear_arith)
        requires
            s.matched == matched_weight(parts) as u128,
            s.total == total_weight(parts) as u128,
    {
    }
}

/// The pieces that a part is split into match where the part matches.
pub proof fn lemma_split_flag(p: Part<'_>)
    ensures
        forall|k: int| 0 <= k < p.spec_split().len() ==> (#[trigger] p.spec_split()[k]).matches == p.matches,
{
}

/// Parts that do not match weigh nothing as what matches.
pub proof fn lemma_unmatched_weight(parts: Seq<Part<'_>>)
    requires
        forall|k: int| 0 <= k < parts.len() ==> !(#[trigger] parts[k]).matches,
    ensures
        matched_weight(parts) == 0,
    decreases parts.len(),
{
    if parts.len() > 0 {
        lemma_unmatched_weight(parts.drop_last());
    }
}

/// What matches in two lists of parts weighs what it weighs in each.
pub proof fn lemma_matched_concat(a: Seq<Part<'_>>, b: Seq<Part<'_>>)
    ensures
        matched_weight(a + b) == matched_weight(a) + matched_weight(b),
    decreases b.len(),
{
    if b.len() == 0 {
        assert(a + b =~= a);
    } else {
        lemma_matched_concat(a, b.drop_last());
        assert((a + b).drop_last() =~= a + b.drop_last());
        assert((a + b).last() == b.last());
    }
}

/// What matches weighs the same without the parts that are empty on both sides.
pub proof fn lemma_matched_without_empty(parts: Seq<Part<'_>>)
    requires
        forall|k: int| 0 <= k < parts.len() && (#[trigger] parts[k]).matches ==> parts[k].wf(),
    ensures
        matched_weight(without_empty(parts)) == matched_weight(parts),
    decreases parts.len(),
{
    reveal(Seq::filter);
    if parts.len() > 0 {
        let last = parts.last();
        lemma_matched_without_empty(parts.drop_last());
        if last.both_empty() {
            if last.matches {
                assert(last.wf());
                assert(last.parent.side(0).wf());
                assert(last.content(0) =~= Seq::<Seq<u8>>::empty());
            }
        } else {
            let kept = without_empty(parts.drop_last()).push(last);
            assert(kept.drop_last() =~= without_empty(parts.drop_last()));
        }
    }
}

/// No more weighs what matches than all.
pub proof fn lemma_weights(parts: Seq<Part<'_>>)
    ensures
        matched_weight(parts) <= total_weight(parts) <= 10 * parts.len(),
    decreases parts.len(),
{
    if parts.len() > 0 {
        lemma_weights(parts.drop_last());
    }
}

/// A part is split into one part at least.
pub proof fn lemma_split_some(p: Part<'_>)
    ensures
        p.spec_split().len() >= 1,
{
}

/// The weight of the parts that match and are too small: what is joined to
/// other parts when the parts are squeezed.
pub open spec fn absorbed_weight(parts: Seq<Part<'_>>) -> nat
    decreases parts.len(),
{
    if parts.len() == 0 {
        0
    } else {
        absorbed_weight(parts.drop_last()) + if spec_too_small(parts.last()) {
            capped_len(solid_count(parts.last().content(0)))
        } else {
            0
        }
    }
}

/// No part that matches and is too small follows a part that matches: it is
/// joined to a part that does not match, or to none.
pub open spec fn small_after_gap(parts: Seq<Part<'_>>) -> bool {
    forall|n: int| 1 <= n < parts.len() && spec_too_small(#[trigger] parts[n]) ==> !parts[n - 1].matches
}

/// Where no part that is too small follows a part that matches, squeezing the
/// first `n` parts takes from the weight of what matches the weight of the
/// parts that are too small, and no more; every part that matches afterwards
/// is a part from before.
#[verifier::spinoff_prover]
#[verifier::rlimit(100)]
pub proof fn lemma_squeeze_fold_matched(parts: Seq<Part<'_>>, n: int)
    requires
        all_wf(parts),
        small_after_gap(parts),
        0 <= n <= parts.len(),
    ensures
        matched_weight(squeeze_fold(parts, n)) + absorbed_weight(parts.take(n)) == matched_weight(parts.take(n)),
        forall|k: int|
            0 <= k < squeeze_fold(parts, n).len() && (#[trigger] squeeze_fold(parts, n)[k]).matches
                ==> squeeze_fold(parts, n)[k].wf(),
        n >= 1 && squeeze_fold(parts, n).len() > 0 && squeeze_fold(parts, n).last().matches ==> parts[n
            - 1].matches && !spec_too_small(parts[n - 1]),
    decreases n,
{
    if n > 0 {
        lemma_squeeze_fold_matched(parts, n - 1);
        let acc = squeeze_fold(parts, n - 1);
        let part = parts[n - 1];
        let now = squeeze_step(acc, part);
        assert(parts.take(n).drop_last() =~= parts.take(n - 1));
        assert(parts.take(n).last() == part);
        assert(part.wf());
        if part.matches && !spec_too_small(part) {
            assert(now =~= acc.push(part));
            assert(now.drop_last() =~= acc);
        } else if spec_too_small(part) {
            let kept = if acc.len() == 0 {
                seq![placeholder(part)]
            } else {
                acc
            };
            if n >= 2 && acc.len() > 0 {
                assert(!parts[n - 2].matches);
                assert(!acc.last().matches);
            }
            assert(!kept.last().matches);
            let joined = stretched(kept.last(), part);
            let pieces = joined.spec_split();
            lemma_split_flag(joined);
            lemma_split_some(joined);
            lemma_unmatched_weight(pieces);
            lemma_matched_concat(kept.drop_last(), pieces);
            assert(now =~= kept.drop_last() + pieces);
            if acc.len() == 0 {
                assert(kept.drop_last() =~= Seq::<Part<'_>>::empty());
            }
            assert(now.last() == pieces.last());
            assert forall|k: int| 0 <= k < now.len() && (#[trigger] now[k]).matches implies now[k].wf() by {
                if k < kept.len() - 1 {
                    assert(now[k] == acc[k]);
                } else {
                    assert(now[k] == pieces[k - (kept.len() - 1)]);
                }
            }
        } else if acc.len() > 0 && !acc.last().matches {
            let pieces = stretched(acc.last(), part).spec_split();
            lemma_split_flag(stretched(acc.last(), part));
            lemma_split_some(stretched(acc.last(), part));
            lemma_unmatched_weight(pieces);
            lemma_matched_concat(acc.drop_last(), pieces);
            assert(now =~= acc.drop_last() + pieces);
            assert(now.last() == pieces.last());
            assert forall|k: int| 0 <= k < now.len() && (#[trigger] now[k]).matches implies now[k].wf() by {
                if k < acc.len() - 1 {
                    assert(now[k] == acc[k]);
                } else {
                    assert(now[k] == pieces[k - (acc.len() - 1)]);
                }
            }
        } else {
            assert(now =~= acc.push(part));
            assert(now.drop_last() =~= acc);
        }
    } else {
        assert(parts.take(0) =~= Seq::<Part<'_>>::empty());
    }
}

/// What squeezing does to the score of a block in which no part that is too small
/// follows a part that matches. What matches loses the weight of the parts
/// that are too small, which are joined to parts that do not match, and no
/// more; and it loses nothing where the parts come out as many as they went
/// in, for then they stay as they were. So the score does not fall where the
/// parts that are too small weigh nothing, as those of white space alone do,
/// unless the weight of all grows, which it can where parts that do not match
/// are joined and split anew.
pub proof fn lemma_squeeze_score(parts: Seq<Part<'_>>)
    requires
        all_wf(parts),
        parts.len() <= usize::MAX,
        small_after_gap(parts),
    ensures
        matched_weight(squeeze_fold(parts, parts.len() as int)) + absorbed_weight(parts) == matched_weight(parts),
        matched_weight(squeezed(parts)) == if squeeze_fold(parts, parts.len() as int).len() != parts.len() {
            matched_weight(parts) - absorbed_weight(parts)
        } else {
            matched_weight(parts) as int
        },
        absorbed_weight(parts) == 0 && total_weight(squeezed(parts)) <= total_weight(parts) ==> spec_score(
            squeezed(parts),
        ).at_least(spec_score(parts)),
{
    let n = parts.len() as int;
    lemma_squeeze_fold_matched(parts, n);
    assert(parts.take(n) =~= parts);
    let folded = squeeze_fold(parts, n);
    lemma_matched_without_empty(folded);
    lemma_weights(parts);
    lemma_weights(squeezed(parts));
    let m = matched_weight(parts);
    let t = total_weight(parts);
    let t2 = total_weight(squeezed(parts));
    if t2 <= t {
        assert(m * t >= m * t2) by (nonlinear_arith)
            requires
                t2 <= t,
                m >= 0,
        {
        }
    }
}

/// Whatever ranges `before` covers as a chain, `after` covers as a chain.
pub open spec fn keeps_extent(before: Seq<Part<'_>>, after: Seq<Part<'_>>, bm: &BlockMaker) -> bool {
    forall|l0: int, l1: int, r0: int, r1: int| #[trigger]
        chain(before, bm, l0, l1, r0, r1) ==> chain(after, bm, l0, l1, r0, r1)
}

/// The number of bytes of the first line of `words` that is not empty, or the
/// largest number where that is beyond it.
fn first_line_bytes(words: &[Vec<u8>]) -> (r: usize)
    ensures
        r == if line_bytes(views(words@)) <= usize::MAX {
            line_bytes(views(words@)) as int
        } else {
            usize::MAX as int
        },
{
    let ghost w = views(words@);
    let mut k: usize = 0;
    while k < words.len() && is_newline_word(&words[k])
        invariant
            k <= words@.len(),
            w == views(words@),
            skip_newlines(w, 0, w.len() as int) == skip_newlines(w, k as int, w.len() as int),
        decreases words@.len() - k,
    {
        k += 1;
    }
    let ghost from = k as int;
    let mut total: usize = 0;
    let ghost mut sum: nat = 0;
    while k < words.len() && !is_newline_word(&words[k])
        invariant
            from <= k <= words@.len(),
            w == views(words@),
            from == skip_newlines(w, 0, w.len() as int),
            bytes_to_newline(w, from, w.len() as int) == sum + bytes_to_newline(w, k as int, w.len() as int),
            total == if sum <= usize::MAX {
                sum as int
            } else {
                usize::MAX as int
            },
        decreases words@.len() - k,
    {
        total = total.saturating_add(words[k].len());
        proof {
            sum = sum + w[k as int].len();
        }
        k += 1;
    }
    total
}

/// Whether `word` is a newline and no more.
fn is_newline_word(word: &Vec<u8>) -> (r: bool)
    ensures
        r == (word@ == seq![10u8]),
{
    let r = word.len() == 1 && word[0] == 10;
    proof {
        if r {
            assert(word@ =~= seq![10u8]);
        } else if word@.len() == 1 {
            assert(seq![10u8][0] == 10u8);
        } else {
            assert(seq![10u8].len() == 1);
        }
    }
    r
}

/// The parts of `parts` that are not empty on both sides.
pub fn drop_empty<'a>(parts: &Vec<Part<'a>>) -> (r: Vec<Part<'a>>)
    ensures
        r@ == without_empty(parts@),
{
    let mut keep: Vec<bool> = Vec::new();
    let mut n: usize = 0;
    while n < parts.len()
        invariant
            n <= parts@.len(),
            keep@.len() == n,
            forall|x: int| 0 <= x < n ==> #[trigger] keep@[x] == !parts@[x].both_empty(),
        decreases parts@.len() - n,
    {
        keep.push(!(parts[n].is_empty(0) && parts[n].is_empty(1)));
        n += 1;
    }
    select(parts, &keep, Ghost(|p: Part<'a>| !p.both_empty()))
}

/// The parts that a part is split into are a chain over the ranges of the part.
pub proof fn lemma_split_chain(part: Part<'_>, bm: &BlockMaker)
    requires
        part.wf(),
        part.parent == bm,
        part.sound(),
    ensures
        chain(
            part.spec_split(),
            bm,
            part.slices.left.start as int,
            part.slices.left.end as int,
            part.slices.right.start as int,
            part.slices.right.end as int,
        ),
{
    part.lemma_split_tiles();
    {
        part.lemma_split_sound();
    }
}

/// Whether a part that matches is too small to stand between two parts that do not.
fn too_small(part: &Part<'_>) -> (r: bool)
    requires
        part.wf(),
    ensures
        r == spec_too_small(*part),
{
    if !part.matches {
        return false;
    }
    let words = part.get(0);
    if part.whole_line() || (words.len() == 1 && is_newline_word(&words[0])) {
        return false;
    }
    if part.starts_line(0) || part.starts_line(1) || part.ends_line(0) || part.ends_line(1) {
        return false;
    }
    first_line_bytes(words) < 7
}

/// Takes `part` into the squeezed parts `acc`, as `squeeze_step` says.
fn take_in<'a>(acc: &mut Vec<Part<'a>>, part: Part<'a>, Ghost(bm): Ghost<&BlockMaker>, Ghost(l0): Ghost<int>, Ghost(r0): Ghost<int>)
    requires
        chain(old(acc)@, bm, l0, part.slices.left.start as int, r0, part.slices.right.start as int),
        part.wf(),
        part.parent == bm,
        part.sound(),
    ensures
        final(acc)@ == squeeze_step(old(acc)@, part),
        chain(final(acc)@, bm, l0, part.slices.left.end as int, r0, part.slices.right.end as int),
{
    let join = too_small(&part);
    let ghost start = acc@;
    if part.matches && !join {
        proof {
            lemma_chain_push(acc@, part, bm, l0, part.slices.left.start as int, r0, part.slices.right.start as int);
        }
        acc.push(part);
        return ;
    }
    if part.matches && acc.len() == 0 {
        let empty = Part {
            parent: part.parent,
            matches: false,
            slices: Pair {
                left: Span::new(part.slices.left.start, part.slices.left.start),
                right: Span::new(part.slices.right.start, part.slices.right.start),
            },
        };
        proof {
            lemma_chain_push(acc@, empty, bm, l0, part.slices.left.start as int, r0, part.slices.right.start as int);
        }
        acc.push(empty);
        assert(acc@ =~= seq![placeholder(part)]);
    }
    let ghost kept = acc@;
    if acc.len() > 0 && (join || (!part.matches && !acc[acc.len() - 1].matches)) {
        proof {
            lemma_chain_pop(kept, bm, l0, part.slices.left.start as int, r0, part.slices.right.start as int);
        }
        let last = acc.pop().unwrap();
        let longer = Part {
            parent: last.parent,
            matches: last.matches,
            slices: Pair {
                left: Span::new(last.slices.left.start, part.slices.left.end),
                right: Span::new(last.slices.right.start, part.slices.right.end),
            },
        };
        proof {
            assert(longer == stretched(last, part));
            if last.matches {
                lemma_joined_sound(last, part, longer);
            }
            lemma_split_chain(longer, bm);
            lemma_chain_concat(
                kept.drop_last(),
                longer.spec_split(),
                bm,
                l0,
                last.slices.left.start as int,
                part.slices.left.end as int,
                r0,
                last.slices.right.start as int,
                part.slices.right.end as int,
            );
        }
        let pieces = longer.split();
        let ghost s = longer.spec_split();
        let ghost base = acc@;
        let mut k: usize = 0;
        while k < 3
            invariant
                k <= 3,
                holds(pieces, s),
                acc@ == base + s.take(if k < s.len() {
                    k as int
                } else {
                    s.len() as int
                }),
            decreases 3 - k,
        {
            match pieces[k] {
                Some(piece) => {
                    assert(s.take(k + 1) =~= s.take(k as int).push(piece));
                    acc.push(piece);
                },
                None => {},
            }
            k += 1;
        }
        assert(s.take(s.len() as int) =~= s);
    } else if !part.matches {
        proof {
            lemma_chain_push(acc@, part, bm, l0, part.slices.left.start as int, r0, part.slices.right.start as int);
        }
        acc.push(part);
    }
}

/// The parts of all lists of `lists`, one list after the other.
pub open spec fn concat_all<'a>(lists: Seq<Seq<Part<'a>>>) -> Seq<Part<'a>>
    decreases lists.len(),
{
    if lists.len() == 0 {
        Seq::empty()
    } else {
        concat_all(lists.drop_last()) + lists.last()
    }
}

/// List `n` of `lists` is a chain from the ranges' places `bounds[n]` to
/// `bounds[n + 1]`, for every `n`: the lists cover their ranges one after the other.
pub open spec fn blocks_tile(lists: Seq<Seq<Part<'_>>>, bm: &BlockMaker, bounds: Seq<(int, int)>) -> bool {
    &&& bounds.len() == lists.len() + 1
    &&& forall|n: int|
        0 <= n < lists.len() ==> chain(
            #[trigger] lists[n],
            bm,
            bounds[n].0,
            bounds[n + 1].0,
            bounds[n].1,
            bounds[n + 1].1,
        )
}

/// Lists that cover their ranges one after the other are, taken together, a
/// chain from the first place to the last.
#[verifier::rlimit(40)]
pub proof fn lemma_tile_concat(lists: Seq<Seq<Part<'_>>>, bm: &BlockMaker, bounds: Seq<(int, int)>)
    requires
        blocks_tile(lists, bm, bounds),
    ensures
        chain(concat_all(lists), bm, bounds[0].0, bounds.last().0, bounds[0].1, bounds.last().1),
    decreases lists.len(),
{
    if lists.len() > 0 {
        let rest = lists.drop_last();
        let inner = bounds.drop_last();
        assert forall|n: int| 0 <= n < rest.len() implies chain(
            #[trigger] rest[n],
            bm,
            inner[n].0,
            inner[n + 1].0,
            inner[n].1,
            inner[n + 1].1,
        ) by {
            assert(rest[n] == lists[n]);
        }
        assert(inner.len() == rest.len() + 1);
        lemma_tile_concat(rest, bm, inner);
        let m = lists.len() - 1;
        assert(inner[0] == bounds[0]);
        assert(inner.last() == bounds[m]);
        assert(bounds.last() == bounds[m + 1]);
        assert(chain(concat_all(rest), bm, bounds[0].0, bounds[m].0, bounds[0].1, bounds[m].1));
        assert(chain(lists[m], bm, bounds[m].0, bounds[m + 1].0, bounds[m].1, bounds[m + 1].1));
        assert(lists.last() == lists[m]);
        lemma_chain_concat(
            concat_all(rest),
            lists.last(),
            bm,
            bounds[0].0,
            bounds[m].0,
            bounds[m + 1].0,
            bounds[0].1,
            bounds[m].1,
            bounds[m + 1].1,
        );
    }
}

/// An ordered list of parts.
#[derive(Debug)]
pub struct Block<'a> {
    pub parts: Vec<Part<'a>>,
}

impl<'a> Block<'a> {
    /// The parts are parts of `bm`, and each begins where the one before it ends.
    pub open spec fn wf(&self, bm: &BlockMaker) -> bool {
        &&& parts_of(self.parts@, bm)
        &&& chained(self.parts@)
    }

    /// The parts are parts of `bm`, each begins where the one before it ends, and
    /// every part that is said to match holds the same words on both sides.
    pub open spec fn ok(&self, bm: &BlockMaker) -> bool {
        &&& parts_of(self.parts@, bm)
        &&& chained(self.parts@)
        &&& all_sound(self.parts@)
    }

    /// Joins the parts that match and are too small to the parts around them, and
    /// the parts that do not match to each other: see `squeezed`. The parts cover
    /// what they covered.
    #[verifier::spinoff_prover]
    #[verifier::rlimit(100)]
    pub fn squeeze_parts(&mut self)
        requires
            old(self).ok(old(self).maker()),
        ensures
            final(self).ok(old(self).maker()),
            final(self).parts@ == squeezed(old(self).parts@),
            keeps_extent(old(self).parts@, final(self).parts@, old(self).maker()),
    {
        let ghost bm = self.maker();
        self.squeeze_with(Ghost(bm));
    }

    /// Squeezes the parts, which are parts of `bm`.
    #[verifier::spinoff_prover]
    #[verifier::rlimit(100)]
    pub(crate) fn squeeze_with(&mut self, Ghost(bm): Ghost<&BlockMaker>)
        requires
            old(self).ok(bm),
        ensures
            final(self).ok(bm),
            final(self).parts@ == squeezed(old(self).parts@),
            keeps_extent(old(self).parts@, final(self).parts@, bm),
    {
        let count = self.parts.len();
        if count == 0 {
            assert(squeeze_fold(self.parts@, 0) =~= self.parts@);
            return ;
        }
        let ghost parts = self.parts@;
        let ghost l0 = parts[0].slices.left.start as int;
        let ghost r0 = parts[0].slices.right.start as int;
        let mut acc: Vec<Part<'a>> = Vec::new();
        let mut n: usize = 0;
        while n < count
            invariant
                n <= count,
                count == parts.len(),
                parts == self.parts@,
                self.ok(bm),
                l0 == parts[0].slices.left.start,
                r0 == parts[0].slices.right.start,
                acc@ == squeeze_fold(parts, n as int),
                n < count ==> chain(acc@, bm, l0, parts[n as int].slices.left.start as int, r0, parts[n as int].slices.right.start as int),
                n == count ==> chain(acc@, bm, l0, parts[count - 1].slices.left.end as int, r0, parts[count - 1].slices.right.end as int),
            decreases count - n,
        {
            let part = self.parts[n];
            take_in(&mut acc, part, Ghost(bm), Ghost(l0), Ghost(r0));
            n += 1;
        }
        if acc.len() != count {
            proof {
                lemma_chain_filter(acc@, bm, l0, parts[count - 1].slices.left.end as int, r0, parts[count - 1].slices.right.end as int);
            }
            self.parts = drop_empty(&acc);
        }
        proof {
            let l1 = parts[count - 1].slices.left.end as int;
            let r1 = parts[count - 1].slices.right.end as int;
            assert(chain(self.parts@, bm, l0, l1, r0, r1));
            assert forall|a0: int, a1: int, b0: int, b1: int| #[trigger]
                chain(parts, bm, a0, a1, b0, b1) implies chain(self.parts@, bm, a0, a1, b0, b1) by {
                assert(a0 == l0 && a1 == l1 && b0 == r0 && b1 == r1);
            }
        }
    }

    /// Whether every part matches and is made of whole lines.
    pub fn perfect(&self) -> (r: bool)
        requires
            all_wf(self.parts@),
        ensures
            r == spec_perfect(self.parts@),
    {
        let mut n: usize = 0;
        while n < self.parts.len()
            invariant
                all_wf(self.parts@),
                n <= self.parts@.len(),
                forall|x: int| 0 <= x < n ==> (#[trigger] self.parts@[x]).matches && self.parts@[x].spec_whole_line(),
            decreases self.parts@.len() - n,
        {
            if !(self.parts[n].matches && self.parts[n].whole_line()) {
                return false;
            }
            n += 1;
        }
        true
    }

    /// How well the two sides agree.
    pub fn score(&self) -> (r: Score)
        requires
            all_wf(self.parts@),
        ensures
            r == spec_score(self.parts@),
            r.total <= 10 * self.parts@.len(),
            r.matched <= 10 * self.parts@.len(),
            r.total <= Score::LIMIT,
            r.matched <= Score::LIMIT,
    {
        let mut matched: u128 = 0;
        let mut total: u128 = 0;
        let mut n: usize = 0;
        proof {
            assert(self.parts@.take(0) =~= Seq::<Part<'a>>::empty());
        }
        while n < self.parts.len()
            invariant
                all_wf(self.parts@),
                n <= self.parts@.len(),
                matched == matched_weight(self.parts@.take(n as int)),
                total == total_weight(self.parts@.take(n as int)),
                total <= 10 * n,
                matched <= 10 * n,
            decreases self.parts@.len() - n,
        {
            let part = &self.parts[n];
            proof {
                assert(self.parts@.take(n + 1).drop_last() =~= self.parts@.take(n as int));
                assert(self.parts@.take(n + 1).last() == self.parts@[n as int]);
            }
            let left = part.word_len(0);
            let right = part.word_len(1);
            let both: u128 = if left < 10 && right < 10 - left {
                (left + right) as u128
            } else {
                10
            };
            let left: u128 = if left < 10 {
                left as u128
            } else {
                10
            };
            total = total + both;
            if part.matches {
                matched = matched + left;
            }
            n += 1;
        }
        proof {
            assert(self.parts@.take(n as int) =~= self.parts@);
        }
        Score { matched, total }
    }

    /// Whether every part is empty on side `i`.
    pub fn is_empty(&self, i: usize) -> (r: bool)
        ensures
            r == spec_side_empty(self.parts@, i as int),
    {
        let mut n: usize = 0;
        while n < self.parts.len()
            invariant
                n <= self.parts@.len(),
                forall|x: int| 0 <= x < n ==> (#[trigger] self.parts@[x]).spec_is_empty(i as int),
            decreases self.parts@.len() - n,
        {
            if !self.parts[n].is_empty(i) {
                return false;
            }
            n += 1;
        }
        true
    }

    /// Whether one side lies on one line and the other does not, neither being empty.
    pub fn splits_to_multiline(&self) -> (r: bool)
        requires
            all_wf(self.parts@),
        ensures
            r == spec_multiline(self.parts@),
    {
        if self.is_empty(0) || self.is_empty(1) {
            return false;
        }
        let first = &self.parts[0];
        let last = &self.parts[self.parts.len() - 1];
        let left = first.first_lineno(0) == last.last_lineno(0);
        let right = first.first_lineno(1) == last.last_lineno(1);
        left != right
    }

    /// The last part that is not empty on side `i`.
    pub fn last_non_empty(&self, i: usize) -> (r: Option<&Part<'a>>)
        ensures
            r.is_none() == spec_side_empty(self.parts@, i as int),
            match r {
                Some(p) => exists|k: int|
                    {
                        &&& 0 <= k < self.parts@.len()
                        &&& *p == #[trigger] self.parts@[k]
                        &&& !p.spec_is_empty(i as int)
                        &&& forall|x: int| k < x < self.parts@.len() ==> (#[trigger] self.parts@[x]).spec_is_empty(i as int)
                    },
                None => true,
            },
    {
        let mut n: usize = self.parts.len();
        while n > 0
            invariant
                n <= self.parts@.len(),
                forall|x: int| n <= x < self.parts@.len() ==> (#[trigger] self.parts@[x]).spec_is_empty(i as int),
            decreases n,
        {
            n -= 1;
            if !self.parts[n].is_empty(i) {
                return Some(&self.parts[n]);
            }
        }
        None
    }

    #[verifier::spinoff_prover]
    #[verifier::rlimit(100)]
    fn should_merge(prev: &Block<'a>, next: &Block<'a>) -> (r: bool)
        requires
            all_wf(prev.parts@),
            all_wf(next.parts@),
            prev.parts@.len() > 0 && next.parts@.len() > 0 ==> prev.parts@[0].parent == next.parts@[0].parent,
        ensures
            r == spec_should_merge(prev.parts@, next.parts@),
    {
        let prev_perfect = prev.perfect();
        let next_perfect = next.perfect();
        let prev_score = prev.score();
        let next_score = next.score();
        let alike = (prev_perfect && next_perfect) || (prev_score.is_zero() && next_score.is_zero()) || (
        !prev_score.below_cutoff() && !next_score.below_cutoff()) || (prev_score.below_cutoff()
            && next_score.below_cutoff());
        alike && !(prev.splits_to_multiline() && !prev_score.is_zero()) && !(next.splits_to_multiline()
            && !next_score.is_zero())
    }

    /// Joins each block to the one before it where the two are alike: see
    /// `spec_should_merge`. The blocks cover what they covered.
    #[verifier::spinoff_prover]
    #[verifier::rlimit(100)]
    fn merge_blocks_on_score(
        blocks: Vec<Block<'a>>,
        Ghost(bm): Ghost<&BlockMaker>,
        Ghost(bounds): Ghost<Seq<(int, int)>>,
    ) -> (r: (Vec<Block<'a>>, Ghost<Seq<(int, int)>>))
        requires
            blocks@.len() > 0,
            blocks_tile(part_lists(blocks@), bm, bounds),
        ensures
            part_lists(r.0@) == merge_fold(
                Seq::empty(),
                blocks@[0].parts@,
                part_lists(blocks@).drop_first(),
            ),
            r.0@.len() > 0,
            blocks_tile(part_lists(r.0@), bm, r.1@),
            r.1@[0] == bounds[0],
            r.1@.last() == bounds.last(),
            (forall|n: int| 0 <= n < blocks@.len() ==> (#[trigger] blocks@[n]).parts@.len() > 0) ==> (forall|
                n: int,
            |
                0 <= n < r.0@.len() ==> (#[trigger] r.0@[n]).parts@.len() > 0),
    {
        let ghost lists = part_lists(blocks@);
        let ghost filled = forall|n: int| 0 <= n < blocks@.len() ==> (#[trigger] blocks@[n]).parts@.len() > 0;
        let mut merged: Vec<Block<'a>> = Vec::new();
        let mut prev: Block<'a> = Block { parts: Vec::new() };
        append_parts(&mut prev.parts, &blocks[0].parts);
        let ghost mut done: Seq<(int, int)> = seq![bounds[0]];
        let mut n: usize = 1;
        proof {
            assert(lists[0] == blocks@[0].parts@);
            assert(prev.parts@ =~= blocks@[0].parts@);
            assert(part_lists(merged@) =~= Seq::<Seq<Part<'a>>>::empty());
            assert(lists.subrange(1, lists.len() as int) =~= lists.drop_first());
        }
        while n < blocks.len()
            invariant
                1 <= n <= blocks@.len(),
                lists == part_lists(blocks@),
                blocks_tile(lists, bm, bounds),
                filled == (forall|x: int| 0 <= x < blocks@.len() ==> (#[trigger] blocks@[x]).parts@.len() > 0),
                filled ==> prev.parts@.len() > 0,
                filled ==> (forall|x: int| 0 <= x < merged@.len() ==> (#[trigger] merged@[x]).parts@.len() > 0),
                done.len() == merged@.len() + 1,
                done[0] == bounds[0],
                forall|x: int|
                    0 <= x < merged@.len() ==> chain(
                        (#[trigger] merged@[x]).parts@,
                        bm,
                        done[x].0,
                        done[x + 1].0,
                        done[x].1,
                        done[x + 1].1,
                    ),
                chain(prev.parts@, bm, done.last().0, bounds[n as int].0, done.last().1, bounds[n as int].1),
                merge_fold(part_lists(merged@), prev.parts@, lists.subrange(n as int, lists.len() as int))
                    == merge_fold(Seq::empty(), blocks@[0].parts@, lists.drop_first()),
            decreases blocks@.len() - n,
        {
            let block = &blocks[n];
            let ghost rest = lists.subrange(n as int, lists.len() as int);
            proof {
                assert(lists[n as int] == block.parts@);
                assert(rest[0] == block.parts@);
                assert(rest.drop_first() =~= lists.subrange(n + 1, lists.len() as int));
                assert(chain(lists[n as int], bm, bounds[n as int].0, bounds[n + 1].0, bounds[n as int].1, bounds[n + 1].1));
            }
            if Self::should_merge(&prev, block) {
                proof {
                    lemma_chain_concat(
                        prev.parts@,
                        block.parts@,
                        bm,
                        done.last().0,
                        bounds[n as int].0,
                        bounds[n + 1].0,
                        done.last().1,
                        bounds[n as int].1,
                        bounds[n + 1].1,
                    );
                }
                append_parts(&mut prev.parts, &block.parts);
            } else {
                let ghost lists_done = part_lists(merged@);
                let ghost old_prev = prev.parts@;
                let ghost merged_before = merged@;
                let mut next: Block<'a> = Block { parts: Vec::new() };
                append_parts(&mut next.parts, &block.parts);
                merged.push(prev);
                prev = next;
                proof {
                    assert(part_lists(merged@) =~= lists_done.push(old_prev));
                    assert(prev.parts@ =~= block.parts@);
                    let new_done = done.push(bounds[n as int]);
                    assert forall|x: int| 0 <= x < merged@.len() implies chain(
                        (#[trigger] merged@[x]).parts@,
                        bm,
                        new_done[x].0,
                        new_done[x + 1].0,
                        new_done[x].1,
                        new_done[x + 1].1,
                    ) by {
                        if x < merged_before.len() {
                            assert(merged@[x] == merged_before[x]);
                        }
                    }
                    if filled {
                        assert forall|x: int| 0 <= x < merged@.len() implies (#[trigger] merged@[x]).parts@.len() > 0 by {
                            if x < merged_before.len() {
                                assert(merged@[x] == merged_before[x]);
                            }
                        }
                    }
                    done = new_done;
                }
            }
            n += 1;
        }
        let ghost lists_done = part_lists(merged@);
        let ghost last = prev.parts@;
        let ghost merged_before = merged@;
        merged.push(prev);
        proof {
            assert(lists.subrange(n as int, lists.len() as int) =~= Seq::<Seq<Part<'a>>>::empty());
            assert(part_lists(merged@) =~= lists_done.push(last));
            let new_done = done.push(bounds[n as int]);
            assert forall|x: int| 0 <= x < merged@.len() implies chain(
                #[trigger] part_lists(merged@)[x],
                bm,
                new_done[x].0,
                new_done[x + 1].0,
                new_done[x].1,
                new_done[x + 1].1,
            ) by {
                if x < merged_before.len() {
                    assert(merged@[x] == merged_before[x]);
                }
            }
            if filled {
                assert forall|x: int| 0 <= x < merged@.len() implies (#[trigger] merged@[x]).parts@.len() > 0 by {
                    if x < merged_before.len() {
                        assert(merged@[x] == merged_before[x]);
                    }
                }
            }
            done = new_done;
        }
        (merged, Ghost(done))
    }
}

/// `p` with the flag `matches`.
pub open spec fn flagged<'a>(p: Part<'a>, matches: bool) -> Part<'a> {
    Part { parent: p.parent, matches, slices: p.slices }
}

/// The parts with the words that the two sides of the first part begin with in
/// common as a part of their own, which matches; as they are where the first
/// part matches or its sides begin with no word in common.
pub open spec fn recovered<'a>(parts: Seq<Part<'a>>) -> Seq<Part<'a>> {
    if parts.len() == 0 || parts[0].matches {
        parts
    } else {
        let n = common_prefix(parts[0].content(0), parts[0].content(1));
        if n == 0 {
            parts
        } else {
            let cut = parts[0].spec_partition(parts[0].slices.left.start + n, parts[0].slices.right.start + n);
            seq![flagged(cut.0, true), cut.1] + parts.subrange(1, parts.len() as int)
        }
    }
}

/// The part that does not match and covers what `parts` cover.
pub open spec fn spanning<'a>(parts: Seq<Part<'a>>) -> Part<'a> {
    Part {
        parent: parts[0].parent,
        matches: false,
        slices: Pair {
            left: Span { start: parts[0].slices.left.start, end: parts.last().slices.left.end },
            right: Span { start: parts[0].slices.right.start, end: parts.last().slices.right.end },
        },
    }
}

/// The parts as one part that does not match, where they score above zero and
/// below the cutoff; else as they are.
pub open spec fn collapsed<'a>(parts: Seq<Part<'a>>) -> Seq<Part<'a>> {
    if parts.len() > 0 && !spec_score(parts).spec_is_zero() && spec_score(parts).spec_below_cutoff() {
        seq![spanning(parts)]
    } else {
        parts
    }
}

/// The three parts that `part` falls into at the words that its sides begin
/// with in common and, where what is left lies on one line on both sides, at
/// the words that they end with in common: the first and the last match, the
/// one between them does not.
pub open spec fn simple_trial<'a>(part: Part<'a>) -> Seq<Part<'a>> {
    let n = common_prefix(part.content(0), part.content(1));
    let cut = part.spec_partition(part.slices.left.start + n, part.slices.right.start + n);
    let rest = cut.1;
    let m = if rest.spec_single_line(0) && rest.spec_single_line(1) {
        common_suffix(rest.content(0), rest.content(1))
    } else {
        0
    };
    let tail = rest.spec_partition(rest.slices.left.end - m, rest.slices.right.end - m);
    seq![flagged(cut.0, true), flagged(tail.0, false), flagged(tail.1, true)]
}

/// Some part matches.
pub open spec fn any_match(parts: Seq<Part<'_>>) -> bool {
    exists|n: int| 0 <= n < parts.len() && (#[trigger] parts[n]).matches
}

/// A single part that scores zero, split as `simple_trial` says, squeezed and
/// without what is empty on both sides: where what lies between the words in
/// common is empty on one side or cannot be shown within a line, and where a
/// part that matches is left. Else the parts as they are.
pub open spec fn simplified<'a>(parts: Seq<Part<'a>>) -> Seq<Part<'a>> {
    if parts.len() == 1 && spec_score(parts).spec_is_zero() {
        let trial = simple_trial(parts[0]);
        let kept = without_empty(squeezed(trial));
        if (trial[1].spec_is_empty(0) || trial[1].spec_is_empty(1) || !trial[1].spec_inlineable()) && any_match(
            kept,
        ) {
            kept
        } else {
            parts
        }
    } else {
        parts
    }
}

/// What step `step` makes of the parts of a block.
pub open spec fn stage<'a>(step: int, parts: Seq<Part<'a>>) -> Seq<Part<'a>> {
    if step == 0 {
        recovered(parts)
    } else if step == 1 {
        squeezed(crate::shift::spec_shifted(parts))
    } else if step == 2 {
        collapsed(parts)
    } else if step == 3 {
        simplified(parts)
    } else {
        without_empty(parts)
    }
}

/// What step `step` makes of each list of parts.
pub open spec fn staged<'a>(step: int, lists: Seq<Seq<Part<'a>>>) -> Seq<Seq<Part<'a>>> {
    Seq::new(lists.len(), |n: int| stage(step, lists[n]))
}

/// The lists with each joined to the one before it where the two are alike.
pub open spec fn merged<'a>(lists: Seq<Seq<Part<'a>>>) -> Seq<Seq<Part<'a>>> {
    merge_fold(Seq::empty(), lists[0], lists.drop_first())
}

/// Whether `part` begins a new group after the parts `cur`: on both sides it
/// begins on another line than the last part of `cur` that is not empty there
/// ends on.
pub open spec fn starts_group(cur: Seq<Part<'_>>, part: Part<'_>) -> bool {
    cur.len() > 0 && spec_apart(cur, part, 0) && spec_apart(cur, part, 1)
}

/// The first `n` parts in groups: the groups that are finished, and the group
/// that is not. Parts that are empty on both sides are left out.
pub open spec fn group_fold<'a>(parts: Seq<Part<'a>>, n: int) -> (Seq<Seq<Part<'a>>>, Seq<Part<'a>>)
    decreases n,
{
    if n <= 0 {
        (Seq::empty(), Seq::empty())
    } else {
        let before = group_fold(parts, n - 1);
        let part = parts[n - 1];
        if part.both_empty() {
            before
        } else if starts_group(before.1, part) {
            (before.0.push(before.1), seq![part])
        } else {
            (before.0, before.1.push(part))
        }
    }
}

/// The parts in groups.
pub open spec fn grouped<'a>(parts: Seq<Part<'a>>) -> Seq<Seq<Part<'a>>> {
    let g = group_fold(parts, parts.len() as int);
    g.0.push(g.1)
}

/// The groups that a block is split into: the parts are squeezed and shifted and
/// put into groups; the words in common at the start of each group are
/// recovered, and groups that are alike are joined; each group is shifted and
/// squeezed, a group that scores low becomes one part, and groups that are
/// alike are joined again; then a group of one part that scores zero is given
/// back the words that its sides have in common, and what is empty on both
/// sides is left out. A block without parts is its own single group.
pub open spec fn split_spec<'a>(parts: Seq<Part<'a>>) -> Seq<Seq<Part<'a>>> {
    if parts.len() == 0 {
        seq![parts]
    } else {
        let groups = grouped(crate::shift::spec_shifted(squeezed(parts)));
        let joined = merged(staged(0, groups));
        let again = merged(staged(2, staged(1, joined)));
        staged(4, staged(3, again))
    }
}

/// Whether the last part of `block` that is not empty on side `i` ends on another
/// line than `part` begins on, or there is no such part.
pub open spec fn spec_apart(block: Seq<Part<'_>>, part: Part<'_>, i: int) -> bool {
    spec_side_empty(block, i) || exists|k: int|
        {
            &&& 0 <= k < block.len()
            &&& !(#[trigger] block[k]).spec_is_empty(i)
            &&& forall|x: int| k < x < block.len() ==> (#[trigger] block[x]).spec_is_empty(i)
            &&& block[k].last_line(i) != part.first_line(i)
        }
}

#[verifier::spinoff_prover]
#[verifier::rlimit(100)]
fn apart<'a>(block: &Block<'a>, part: &Part<'a>, i: usize, Ghost(bm): Ghost<&BlockMaker>) -> (r: bool)
    requires
        parts_of(block.parts@, bm),
        part.wf(),
        part.parent == bm,
    ensures
        r == spec_apart(block.parts@, *part, i as int),
{
    match block.last_non_empty(i) {
        Some(last) => {
            let r = last.last_lineno(i) != part.first_lineno(i);
            proof {
                let k = choose|k: int|
                    {
                        &&& 0 <= k < block.parts@.len()
                        &&& *last == #[trigger] block.parts@[k]
                        &&& !last.spec_is_empty(i as int)
                        &&& forall|x: int| k < x < block.parts@.len() ==> (#[trigger] block.parts@[x]).spec_is_empty(i as int)
                    };
                assert(block.parts@[k].wf() && block.parts@[k].parent == bm);
                if spec_apart(block.parts@, *part, i as int) {
                    let k2 = choose|k2: int|
                        {
                            &&& 0 <= k2 < block.parts@.len()
                            &&& !(#[trigger] block.parts@[k2]).spec_is_empty(i as int)
                            &&& forall|x: int| k2 < x < block.parts@.len() ==> (#[trigger] block.parts@[x]).spec_is_empty(i as int)
                            &&& block.parts@[k2].last_line(i as int) != part.first_line(i as int)
                        };
                    assert(k2 == k) by {
                        if k2 < k {
                            assert(block.parts@[k].spec_is_empty(i as int));
                        } else if k < k2 {
                            assert(block.parts@[k2].spec_is_empty(i as int));
                        }
                    }
                }
            }
            r
        },
        None => true,
    }
}

/// The parts in groups: a part begins a new group where, on both sides, it begins
/// on another line than the last part of the group that is not empty there ends
/// on. Parts that are empty on both sides are left out.
#[verifier::spinoff_prover]
#[verifier::rlimit(100)]
fn group<'a>(
    parts: &Vec<Part<'a>>,
    Ghost(bm): Ghost<&BlockMaker>,
    Ghost(l0): Ghost<int>,
    Ghost(l1): Ghost<int>,
    Ghost(r0): Ghost<int>,
    Ghost(r1): Ghost<int>,
) -> (r: (Vec<Block<'a>>, Ghost<Seq<(int, int)>>))
    requires
        chain(parts@, bm, l0, l1, r0, r1),
    ensures
        r.0@.len() > 0,
        blocks_tile(part_lists(r.0@), bm, r.1@),
        r.1@[0] == (l0, r0),
        r.1@.last() == (l1, r1),
        forall|n: int| 0 <= n < r.0@.len() ==> none_empty((#[trigger] r.0@[n]).parts@),
        forall|n: int| 0 < n < r.0@.len() ==> (#[trigger] r.0@[n]).parts@.len() > 0,
        r.0@.len() > 1 ==> r.0@[0].parts@.len() > 0,
        part_lists(r.0@) == grouped(parts@),
{
    let mut blocks: Vec<Block<'a>> = Vec::new();
    let mut cur: Block<'a> = Block { parts: Vec::new() };
    let ghost mut done: Seq<(int, int)> = seq![(l0, r0)];
    let ghost mut at: (int, int) = (l0, r0);
    let mut n: usize = 0;
    while n < parts.len()
        invariant
            n <= parts@.len(),
            chain(parts@, bm, l0, l1, r0, r1),
            done.len() == blocks@.len() + 1,
            done[0] == (l0, r0),
            forall|x: int|
                0 <= x < blocks@.len() ==> chain(
                    (#[trigger] blocks@[x]).parts@,
                    bm,
                    done[x].0,
                    done[x + 1].0,
                    done[x].1,
                    done[x + 1].1,
                ) && none_empty(blocks@[x].parts@) && blocks@[x].parts@.len() > 0,
            chain(cur.parts@, bm, done.last().0, at.0, done.last().1, at.1),
            none_empty(cur.parts@),
            blocks@.len() > 0 ==> cur.parts@.len() > 0,
            (part_lists(blocks@), cur.parts@) == group_fold(parts@, n as int),
            n < parts@.len() ==> at.0 == parts@[n as int].slices.left.start && at.1
                == parts@[n as int].slices.right.start,
            n == parts@.len() ==> at == (l1, r1),
        decreases parts@.len() - n,
    {
        let part = parts[n];
        proof {
            assert(part.wf() && part.parent == bm);
            if n + 1 < parts@.len() {
                assert(parts@[n as int].slices.left.end == parts@[n + 1].slices.left.start);
            }
        }
        if !(part.is_empty(0) && part.is_empty(1)) {
            if cur.parts.len() > 0 && apart(&cur, &part, 0, Ghost(bm)) && apart(&cur, &part, 1, Ghost(bm)) {
                let ghost before = blocks@;
                let ghost lists_before = part_lists(blocks@);
                let ghost cur_before = cur.parts@;
                blocks.push(cur);
                cur = Block { parts: Vec::new() };
                proof {
                    assert(part_lists(blocks@) =~= lists_before.push(cur_before));
                    let new_done = done.push(at);
                    assert forall|x: int| 0 <= x < blocks@.len() implies chain(
                        (#[trigger] blocks@[x]).parts@,
                        bm,
                        new_done[x].0,
                        new_done[x + 1].0,
                        new_done[x].1,
                        new_done[x + 1].1,
                    ) && none_empty(blocks@[x].parts@) && blocks@[x].parts@.len() > 0 by {
                        if x < before.len() {
                            assert(blocks@[x] == before[x]);
                        }
                    }
                    done = new_done;
                }
            }
            proof {
                lemma_chain_push(cur.parts@, part, bm, done.last().0, at.0, done.last().1, at.1);
                let grown = cur.parts@.push(part);
                assert forall|x: int| 0 <= x < grown.len() implies !(#[trigger] grown[x]).both_empty() by {
                    if x < cur.parts@.len() {
                        assert(grown[x] == cur.parts@[x]);
                    }
                }
            }
            cur.parts.push(part);
        }
        proof {
            at = (part.slices.left.end as int, part.slices.right.end as int);
        }
        n += 1;
    }
    let ghost before = blocks@;
    let ghost lists_before = part_lists(blocks@);
    let ghost cur_before = cur.parts@;
    blocks.push(cur);
    proof {
        assert(part_lists(blocks@) =~= lists_before.push(cur_before));
        let new_done = done.push(at);
        assert forall|x: int| 0 <= x < blocks@.len() implies chain(
            #[trigger] part_lists(blocks@)[x],
            bm,
            new_done[x].0,
            new_done[x + 1].0,
            new_done[x].1,
            new_done[x + 1].1,
        ) by {
            if x < before.len() {
                assert(blocks@[x] == before[x]);
            }
        }
        assert forall|x: int| 0 <= x < blocks@.len() implies none_empty((#[trigger] blocks@[x]).parts@) by {
            if x < before.len() {
                assert(blocks@[x] == before[x]);
            }
        }
        assert forall|x: int| 0 < x < blocks@.len() implies (#[trigger] blocks@[x]).parts@.len() > 0 by {
            if x < before.len() {
                assert(blocks@[x] == before[x]);
            }
        }
        if blocks@.len() > 1 {
            assert(blocks@[0] == before[0]);
        }
        done = new_done;
    }
    (blocks, Ghost(done))
}

/// A part over the first `n` words of both sides of `part`, where these are the
/// same words, holds the same words on both sides.
proof fn lemma_head_sound(part: Part<'_>, head: Part<'_>, n: int)
    requires
        part.wf(),
        head.parent == part.parent,
        0 <= n <= common_prefix(part.content(0), part.content(1)),
        head.slices.left.start == part.slices.left.start,
        head.slices.right.start == part.slices.right.start,
        head.slices.left.end == part.slices.left.start + n,
        head.slices.right.end == part.slices.right.start + n,
    ensures
        head.same_words(),
{
    lemma_common_prefix(part.content(0), part.content(1));
    let a = part.content(0);
    let b = part.content(1);
    assert(a.len() == part.slices.left.end - part.slices.left.start);
    assert(b.len() == part.slices.right.end - part.slices.right.start);
    assert forall|t: int| 0 <= t < n implies #[trigger] head.content(0)[t] == head.content(1)[t] by {
        assert(a[t] == b[t]);
    }
    assert(head.content(0) =~= head.content(1));
}

/// A part over the last `m` words of both sides of `part`, where these are the
/// same words, holds the same words on both sides.
proof fn lemma_tail_sound(part: Part<'_>, tail: Part<'_>, m: int)
    requires
        part.wf(),
        tail.parent == part.parent,
        0 <= m <= common_suffix(part.content(0), part.content(1)),
        tail.slices.left.end == part.slices.left.end,
        tail.slices.right.end == part.slices.right.end,
        tail.slices.left.start == part.slices.left.end - m,
        tail.slices.right.start == part.slices.right.end - m,
    ensures
        tail.same_words(),
{
    lemma_common_suffix(part.content(0), part.content(1));
    let a = part.content(0);
    let b = part.content(1);
    assert(a.len() == part.slices.left.end - part.slices.left.start);
    assert(b.len() == part.slices.right.end - part.slices.right.start);
    assert forall|t: int| 0 <= t < m implies #[trigger] tail.content(0)[t] == tail.content(1)[t] by {
        assert(a[a.len() - 1 - (m - 1 - t)] == b[b.len() - 1 - (m - 1 - t)]);
    }
    assert(tail.content(0) =~= tail.content(1));
}

/// Where the first part of the block does not match, the words that its two sides
/// begin with in common become a part of their own, which matches.
#[verifier::spinoff_prover]
#[verifier::rlimit(100)]
fn recover_prefix<'a>(block: &mut Block<'a>, Ghost(bm): Ghost<&BlockMaker>)
    requires
        parts_of(old(block).parts@, bm),
    ensures
        parts_of(final(block).parts@, bm),
        keeps_extent(old(block).parts@, final(block).parts@, bm),
        final(block).parts@.len() >= old(block).parts@.len(),
        final(block).parts@ == recovered(old(block).parts@),
{
    if block.parts.len() == 0 {
        return ;
    }
    let first = block.parts[0];
    assert(first.wf() && first.parent == bm);
    if first.matches {
        return ;
    }
    let prefix = find_common_prefix_length(first.get(0), first.get(1));
    if prefix == 0 {
        return ;
    }
    let ghost before = block.parts@;
    proof {
        lemma_common_prefix(first.content(0), first.content(1));
        first.lemma_partition(first.slices.left.start + prefix, first.slices.right.start + prefix);
    }
    let (mut head, rest) = first.partition_from_start(prefix, prefix);
    let ghost cut = first.spec_partition(first.slices.left.start + prefix, first.slices.right.start + prefix);
    head.matches = true;
    proof {
        assert(head == flagged(cut.0, true));
        lemma_head_sound(first, head, prefix as int);
    }
    let mut parts: Vec<Part<'a>> = Vec::new();
    parts.push(head);
    parts.push(rest);
    let mut n: usize = 1;
    while n < block.parts.len()
        invariant
            1 <= n <= block.parts@.len(),
            block.parts@ == before,
            parts@ == seq![head, rest] + before.subrange(1, n as int),
        decreases block.parts@.len() - n,
    {
        parts.push(block.parts[n]);
        assert(before.subrange(1, n + 1) =~= before.subrange(1, n as int).push(before[n as int]));
        n += 1;
    }
    block.parts = parts;
    proof {
        let after = block.parts@;
        assert(after =~= seq![head, rest] + before.subrange(1, before.len() as int));
        assert forall|x: int| 0 <= x < after.len() implies (#[trigger] after[x]).wf() && after[x].parent == bm by {
            if x >= 2 {
                assert(after[x] == before[x - 1]);
            }
        }
        assert forall|l0: int, l1: int, r0: int, r1: int| #[trigger]
            chain(before, bm, l0, l1, r0, r1) implies chain(after, bm, l0, l1, r0, r1) by {
            assert forall|x: int| 0 <= x < after.len() - 1 implies (#[trigger] after[x]).slices.left.end == after[x
                + 1].slices.left.start && after[x].slices.right.end == after[x + 1].slices.right.start by {
                if x >= 2 {
                    assert(after[x] == before[x - 1]);
                    assert(after[x + 1] == before[x]);
                } else if x == 1 {
                    assert(after[x + 1] == before[1]);
                    assert(before[0].slices.left.end == before[1].slices.left.start);
                }
            }
            if before.len() > 1 {
                assert(after.last() == before.last());
            }
            {
                assert forall|x: int| 0 <= x < after.len() implies (#[trigger] after[x]).sound() by {
                    if x >= 2 {
                        assert(after[x] == before[x - 1]);
                        assert(before[x - 1].sound());
                    }
                }
            }
        }
    }
}

/// A chain begins no later than it ends, on both sides, and ends within the words.
pub proof fn lemma_chain_ordered(parts: Seq<Part<'_>>, bm: &BlockMaker, l0: int, l1: int, r0: int, r1: int)
    requires
        chain(parts, bm, l0, l1, r0, r1),
    ensures
        l0 <= l1,
        r0 <= r1,
        parts.len() > 0 ==> 0 <= l0 && 0 <= r0 && l1 <= bm.nwords(0) && r1 <= bm.nwords(1),
    decreases parts.len(),
{
    if parts.len() > 0 {
        lemma_chain_pop(parts, bm, l0, l1, r0, r1);
        let last = parts.last();
        lemma_chain_ordered(
            parts.drop_last(),
            bm,
            l0,
            last.slices.left.start as int,
            r0,
            last.slices.right.start as int,
        );
        if parts.len() == 1 {
            assert(parts[0] == last);
        }
    }
}

/// Whatever ranges a first list covers as a chain a second covers, and whatever
/// the second covers a third covers: then the third covers what the first covers.
pub proof fn lemma_keeps_trans(a: Seq<Part<'_>>, b: Seq<Part<'_>>, c: Seq<Part<'_>>, bm: &BlockMaker)
    requires
        keeps_extent(a, b, bm),
        keeps_extent(b, c, bm),
    ensures
        keeps_extent(a, c, bm),
{
    assert forall|l0: int, l1: int, r0: int, r1: int| #[trigger] chain(a, bm, l0, l1, r0, r1) implies chain(
        c,
        bm,
        l0,
        l1,
        r0,
        r1,
    ) by {
        assert(chain(b, bm, l0, l1, r0, r1));
    }
}

/// Shifts the parts of the block, then squeezes them.
#[verifier::spinoff_prover]
#[verifier::rlimit(100)]
fn reshift<'a>(block: &mut Block<'a>, Ghost(bm): Ghost<&BlockMaker>)
    requires
        old(block).ok(bm),
    ensures
        final(block).ok(bm),
        keeps_extent(old(block).parts@, final(block).parts@, bm),
        final(block).parts@ == squeezed(crate::shift::spec_shifted(old(block).parts@)),
{
    let ghost start = block.parts@;
    crate::shift::shift_within(&mut block.parts, Ghost(bm));
    let ghost mid = block.parts@;
    block.squeeze_with(Ghost(bm));
    proof {
        lemma_keeps_trans(start, mid, block.parts@, bm);
    }
}

/// A block that scores above zero and below the cutoff becomes one part that
/// does not match.
#[verifier::spinoff_prover]
#[verifier::rlimit(100)]
fn collapse_low<'a>(block: &mut Block<'a>, Ghost(bm): Ghost<&BlockMaker>)
    requires
        old(block).ok(bm),
    ensures
        final(block).ok(bm),
        keeps_extent(old(block).parts@, final(block).parts@, bm),
        final(block).parts@ == collapsed(old(block).parts@),
{
    let count = block.parts.len();
    if count == 0 {
        return ;
    }
    let score = block.score();
    if !score.is_zero() && score.below_cutoff() {
        let ghost before = block.parts@;
        let first = block.parts[0];
        let last = block.parts[count - 1];
        proof {
            assert(first.wf() && last.wf() && first.parent == bm);
            lemma_chain_ordered(
                before,
                bm,
                first.slices.left.start as int,
                last.slices.left.end as int,
                first.slices.right.start as int,
                last.slices.right.end as int,
            );
        }
        let part = Part {
            parent: first.parent,
            matches: false,
            slices: Pair {
                left: Span::new(first.slices.left.start, last.slices.left.end),
                right: Span::new(first.slices.right.start, last.slices.right.end),
            },
        };
        let mut parts: Vec<Part<'a>> = Vec::new();
        parts.push(part);
        block.parts = parts;
        proof {
            assert(block.parts@ =~= seq![part]);
            assert forall|l0: int, l1: int, r0: int, r1: int| #[trigger]
                chain(before, bm, l0, l1, r0, r1) implies chain(block.parts@, bm, l0, l1, r0, r1) by {}
        }
    }
}

/// A block of one part that scores zero: the words that its two sides begin with
/// in common and, on a single line, those they end with in common become parts
/// of their own, which match. This is kept only where the rest is empty on one
/// side or cannot be shown within a line, and where a part that matches is
/// still there once the parts are squeezed.
#[verifier::spinoff_prover]
#[verifier::rlimit(100)]
fn simple_diff<'a>(block: &mut Block<'a>, Ghost(bm): Ghost<&BlockMaker>)
    requires
        old(block).ok(bm),
    ensures
        final(block).ok(bm),
        keeps_extent(old(block).parts@, final(block).parts@, bm),
        final(block).parts@ == simplified(old(block).parts@),
{
    if block.parts.len() != 1 {
        return ;
    }
    let score = block.score();
    if !score.is_zero() {
        return ;
    }
    let ghost before = block.parts@;
    let part = block.parts[0];
    assert(part.wf() && part.parent == bm);
    let prefix = find_common_prefix_length(part.get(0), part.get(1));
    proof {
        lemma_common_prefix(part.content(0), part.content(1));
        part.lemma_partition(part.slices.left.start + prefix, part.slices.right.start + prefix);
    }
    let (mut first, second) = part.partition_from_start(prefix, prefix);
    let ghost cut = part.spec_partition(part.slices.left.start + prefix, part.slices.right.start + prefix);
    first.matches = true;
    let suffix = if second.single_line(0) && second.single_line(1) {
        find_common_suffix_length(second.get(0), second.get(1))
    } else {
        0
    };
    proof {
        lemma_common_suffix(second.content(0), second.content(1));
        second.lemma_partition(second.slices.left.end - suffix, second.slices.right.end - suffix);
    }
    let (mut mid, mut third) = second.partition_from_end(suffix, suffix);
    let ghost tail = second.spec_partition(second.slices.left.end - suffix, second.slices.right.end - suffix);
    mid.matches = false;
    third.matches = true;
    proof {
        assert(first == flagged(cut.0, true));
        assert(mid == flagged(tail.0, false));
        assert(third == flagged(tail.1, true));
        assert(simple_trial(part) =~= seq![first, mid, third]);
    }
    if mid.is_empty(0) || mid.is_empty(1) || !mid.inlineable() {
        let mut parts: Vec<Part<'a>> = Vec::new();
        parts.push(first);
        parts.push(mid);
        parts.push(third);
        let mut trial = Block { parts };
        proof {
            lemma_head_sound(part, first, prefix as int);
            lemma_tail_sound(second, third, suffix as int);
            assert(trial.parts@ =~= seq![first, mid, third]);
        }
        let ghost three = trial.parts@;
        trial.squeeze_with(Ghost(bm));
        let ghost squeezed_parts = trial.parts@;
        let kept = drop_empty(&trial.parts);
        let mut any = false;
        let mut n: usize = 0;
        while n < kept.len()
            invariant
                n <= kept@.len(),
                any == (exists|x: int| 0 <= x < n && (#[trigger] kept@[x]).matches),
            decreases kept@.len() - n,
        {
            if kept[n].matches {
                any = true;
            }
            n += 1;
        }
        if any {
            block.parts = kept;
            proof {
                assert forall|l0: int, l1: int, r0: int, r1: int| #[trigger]
                    chain(before, bm, l0, l1, r0, r1) implies chain(block.parts@, bm, l0, l1, r0, r1) by {
                    assert(chain(three, bm, l0, l1, r0, r1));
                    assert(chain(squeezed_parts, bm, l0, l1, r0, r1));
                    lemma_chain_filter(squeezed_parts, bm, l0, l1, r0, r1);
                }
                let l0 = part.slices.left.start as int;
                let l1 = part.slices.left.end as int;
                let r0 = part.slices.right.start as int;
                let r1 = part.slices.right.end as int;
                assert(chain(before, bm, l0, l1, r0, r1));
            }
        }
    }
}

/// Leaves out the parts that are empty on both sides.
#[verifier::spinoff_prover]
#[verifier::rlimit(100)]
fn drop_empties<'a>(block: &mut Block<'a>, Ghost(bm): Ghost<&BlockMaker>)
    requires
        old(block).ok(bm),
    ensures
        final(block).ok(bm),
        keeps_extent(old(block).parts@, final(block).parts@, bm),
        final(block).parts@ == without_empty(old(block).parts@),
        none_empty(final(block).parts@),
{
    let ghost before = block.parts@;
    block.parts = drop_empty(&block.parts);
    proof {
        assert forall|l0: int, l1: int, r0: int, r1: int| #[trigger]
            chain(before, bm, l0, l1, r0, r1) implies chain(block.parts@, bm, l0, l1, r0, r1) by {
            lemma_chain_filter(before, bm, l0, l1, r0, r1);
        }
        if before.len() > 0 {
            let l0 = before[0].slices.left.start as int;
            let l1 = before.last().slices.left.end as int;
            let r0 = before[0].slices.right.start as int;
            let r1 = before.last().slices.right.end as int;
            assert(chain(before, bm, l0, l1, r0, r1));
            lemma_chain_filter(before, bm, l0, l1, r0, r1);
        } else {
            assert(chain(before, bm, 0, 0, 0, 0));
            lemma_chain_filter(before, bm, 0, 0, 0, 0);
        }
    }
}

/// Applies one step to every block: step 0 recovers the words in common at the
/// start, step 1 shifts and squeezes, step 2 makes a block that scores low one
/// part, step 3 tries the simple diff, and any other step leaves out the parts
/// that are empty on both sides.
#[verifier::spinoff_prover]
#[verifier::rlimit(100)]
fn refine<'a>(blocks: &Vec<Block<'a>>, step: u8, Ghost(bm): Ghost<&BlockMaker>, Ghost(bounds): Ghost<Seq<(int, int)>>) -> (r:
    Vec<Block<'a>>)
    requires
        blocks_tile(part_lists(blocks@), bm, bounds),
    ensures
        r@.len() == blocks@.len(),
        blocks_tile(part_lists(r@), bm, bounds),
        step > 3 ==> forall|n: int| 0 <= n < r@.len() ==> none_empty((#[trigger] r@[n]).parts@),
        part_lists(r@) == staged(step as int, part_lists(blocks@)),
{
    let mut out: Vec<Block<'a>> = Vec::new();
    let mut n: usize = 0;
    while n < blocks.len()
        invariant
            n <= blocks@.len(),
            out@.len() == n,
            blocks_tile(part_lists(blocks@), bm, bounds),
            forall|x: int|
                0 <= x < n ==> chain(
                    (#[trigger] out@[x]).parts@,
                    bm,
                    bounds[x].0,
                    bounds[x + 1].0,
                    bounds[x].1,
                    bounds[x + 1].1,
                ),
            step > 3 ==> forall|x: int| 0 <= x < n ==> none_empty((#[trigger] out@[x]).parts@),
            forall|x: int| 0 <= x < n ==> (#[trigger] out@[x]).parts@ == stage(step as int, blocks@[x].parts@),
        decreases blocks@.len() - n,
    {
        let mut block: Block<'a> = Block { parts: Vec::new() };
        append_parts(&mut block.parts, &blocks[n].parts);
        proof {
            assert(block.parts@ =~= blocks@[n as int].parts@);
            assert(part_lists(blocks@)[n as int] == blocks@[n as int].parts@);
            assert(chain(block.parts@, bm, bounds[n as int].0, bounds[n + 1].0, bounds[n as int].1, bounds[n + 1].1));
        }
        if step == 0 {
            recover_prefix(&mut block, Ghost(bm));
        } else if step == 1 {
            reshift(&mut block, Ghost(bm));
        } else if step == 2 {
            collapse_low(&mut block, Ghost(bm));
        } else if step == 3 {
            simple_diff(&mut block, Ghost(bm));
        } else {
            drop_empties(&mut block, Ghost(bm));
        }
        let ghost before = out@;
        out.push(block);
        proof {
            assert forall|x: int| 0 <= x < n + 1 implies chain(
                (#[trigger] out@[x]).parts@,
                bm,
                bounds[x].0,
                bounds[x + 1].0,
                bounds[x].1,
                bounds[x + 1].1,
            ) by {
                if x < n {
                    assert(out@[x] == before[x]);
                }
            }
            if step > 3 {
                assert forall|x: int| 0 <= x < n + 1 implies none_empty((#[trigger] out@[x]).parts@) by {
                    if x < n {
                        assert(out@[x] == before[x]);
                    }
                }
            }
            assert forall|x: int| 0 <= x < n + 1 implies (#[trigger] out@[x]).parts@ == stage(
                step as int,
                blocks@[x].parts@,
            ) by {
                if x < n {
                    assert(out@[x] == before[x]);
                }
            }
        }
        n += 1;
    }
    proof {
        assert(part_lists(out@) =~= staged(step as int, part_lists(blocks@)));
    }
    proof {
        assert forall|x: int| 0 <= x < out@.len() implies chain(
            #[trigger] part_lists(out@)[x],
            bm,
            bounds[x].0,
            bounds[x + 1].0,
            bounds[x].1,
            bounds[x + 1].1,
        ) by {
            assert(part_lists(out@)[x] == out@[x].parts@);
        }
    }
    out
}

impl<'a> Block<'a> {
    /// The parent of the parts.
    pub open spec fn maker(&self) -> &'a BlockMaker {
        self.parts@[0].parent
    }

    /// Splits the block into the groups that are shown together. The parts are
    /// squeezed and shifted, put into groups by their lines, and the groups that
    /// are alike are joined; a group that agrees too little becomes one part that
    /// does not match, and a group of one such part is given back the words that
    /// its sides begin and end with in common. The groups cover, one after the
    /// other, what the block covers, and none holds a part that is empty on both
    /// sides.
    #[verifier::spinoff_prover]
    #[verifier::rlimit(100)]
    pub fn split_block(self) -> (r: Vec<Block<'a>>)
        requires
            self.ok(self.maker()),
        ensures
            r@.len() > 0,
            forall|n: int| 0 <= n < r@.len() ==> (#[trigger] r@[n]).ok(self.maker()) && none_empty(r@[n].parts@),
            keeps_extent(self.parts@, concat_all(part_lists(r@)), self.maker()),
            part_lists(r@) == split_spec(self.parts@),
    {
        let ghost bm = self.maker();
        let ghost start = self.parts@;
        let mut whole = self;
        if whole.parts.len() == 0 {
            let mut r: Vec<Block<'a>> = Vec::new();
            r.push(whole);
            proof {
                let lists = part_lists(r@);
                assert(lists.len() == 1);
                assert(lists.last() == start);
                assert(lists.drop_last().len() == 0);
                assert(concat_all(lists.drop_last()) =~= Seq::<Part<'a>>::empty());
                assert(concat_all(lists) =~= start);
                assert(lists =~= seq![start]);
            }
            return r;
        }
        let ghost l0 = start[0].slices.left.start as int;
        let ghost r0 = start[0].slices.right.start as int;
        let ghost l1 = start.last().slices.left.end as int;
        let ghost r1 = start.last().slices.right.end as int;
        assert(chain(start, bm, l0, l1, r0, r1));
        reshift_first(&mut whole, Ghost(bm));
        assert(chain(whole.parts@, bm, l0, l1, r0, r1));
        let (blocks, Ghost(bounds)) = group(&whole.parts, Ghost(bm), Ghost(l0), Ghost(l1), Ghost(r0), Ghost(r1));
        let blocks = refine(&blocks, 0, Ghost(bm), Ghost(bounds));
        let (blocks, Ghost(bounds)) = Self::merge_blocks_on_score(blocks, Ghost(bm), Ghost(bounds));
        let blocks = refine(&blocks, 1, Ghost(bm), Ghost(bounds));
        let blocks = refine(&blocks, 2, Ghost(bm), Ghost(bounds));
        let (blocks, Ghost(bounds)) = Self::merge_blocks_on_score(blocks, Ghost(bm), Ghost(bounds));
        let blocks = refine(&blocks, 3, Ghost(bm), Ghost(bounds));
        let blocks = refine(&blocks, 4, Ghost(bm), Ghost(bounds));
        proof {
            lemma_tile_concat(part_lists(blocks@), bm, bounds);
            assert forall|a0: int, a1: int, b0: int, b1: int| #[trigger]
                chain(start, bm, a0, a1, b0, b1) implies chain(concat_all(part_lists(blocks@)), bm, a0, a1, b0, b1) by {
                assert(a0 == l0 && a1 == l1 && b0 == r0 && b1 == r1);
            }
            assert forall|n: int| 0 <= n < blocks@.len() implies (#[trigger] blocks@[n]).ok(bm) by {
                assert(part_lists(blocks@)[n] == blocks@[n].parts@);
                assert(chain(part_lists(blocks@)[n], bm, bounds[n].0, bounds[n + 1].0, bounds[n].1, bounds[n + 1].1));
            }
        }
        blocks
    }
}

/// Squeezes the parts of the block, then shifts them.
#[verifier::spinoff_prover]
#[verifier::rlimit(100)]
fn reshift_first<'a>(block: &mut Block<'a>, Ghost(bm): Ghost<&BlockMaker>)
    requires
        old(block).ok(bm),
    ensures
        final(block).ok(bm),
        keeps_extent(old(block).parts@, final(block).parts@, bm),
        final(block).parts@ == crate::shift::spec_shifted(squeezed(old(block).parts@)),
{
    let ghost start = block.parts@;
    block.squeeze_with(Ghost(bm));
    let ghost mid = block.parts@;
    crate::shift::shift_within(&mut block.parts, Ghost(bm));
    proof {
        lemma_keeps_trans(start, mid, block.parts@, bm);
    }
}

} // verus!
