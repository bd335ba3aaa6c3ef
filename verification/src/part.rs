//! A span of words on both sides of a hunk.

use crate::block_maker::BlockMaker;
use crate::pair::{Pair, Span};
use crate::tokeniser::Token;
use crate::whitespace::{all_space, views, CheckAllWhitespace};
use vstd::prelude::*;
use vstd::slice::slice_subrange;

verus! {

/// The number of words of `s` that are not white space alone.
pub open spec fn solid_count(s: Seq<Seq<u8>>) -> nat
    decreases s.len(),
{
    if s.len() == 0 {
        0
    } else {
        solid_count(s.drop_last()) + if all_space(s.last()) {
            0nat
        } else {
            1nat
        }
    }
}

/// The number of bytes in the words of `s` that are not white space alone.
pub open spec fn solid_bytes(s: Seq<Seq<u8>>) -> nat
    decreases s.len(),
{
    if s.len() == 0 {
        0
    } else {
        solid_bytes(s.drop_last()) + if all_space(s.last()) {
            0nat
        } else {
            s.last().len()
        }
    }
}

/// `x` brought into `lo..=hi`.
pub open spec fn clamp(x: int, lo: int, hi: int) -> int {
    if x < lo {
        lo
    } else if x > hi {
        hi
    } else {
        x
    }
}

/// `x` brought into `lo..=hi`.
pub fn clamp_to(x: usize, lo: usize, hi: usize) -> (r: usize)
    requires
        lo <= hi,
    ensures
        r == clamp(x as int, lo as int, hi as int),
{
    if x < lo {
        lo
    } else if x > hi {
        hi
    } else {
        x
    }
}

/// Every part of `parts` is a part of `bm` with ranges within its words.
pub open spec fn parts_of(parts: Seq<Part<'_>>, bm: &BlockMaker) -> bool {
    forall|n: int| 0 <= n < parts.len() ==> (#[trigger] parts[n]).wf() && parts[n].parent == bm
}

/// Each part begins where the one before it ends, on both sides.
pub open spec fn chained(parts: Seq<Part<'_>>) -> bool {
    forall|n: int|
        0 <= n < parts.len() - 1 ==> (#[trigger] parts[n]).slices.left.end == parts[n
            + 1].slices.left.start && parts[n].slices.right.end == parts[n + 1].slices.right.start
}

/// The parts lie within `l0..l1` on the left and `r0..r1` on the right, and each
/// begins no earlier than the one before it ends, on both sides.
pub open spec fn ascending(parts: Seq<Part<'_>>, l0: int, l1: int, r0: int, r1: int) -> bool {
    &&& forall|n: int|
        0 <= n < parts.len() ==> {
            let p = #[trigger] parts[n];
            l0 <= p.slices.left.start && p.slices.left.end <= l1 && r0 <= p.slices.right.start
                && p.slices.right.end <= r1
        }
    &&& forall|n: int|
        0 <= n < parts.len() - 1 ==> (#[trigger] parts[n]).slices.left.end <= parts[n
            + 1].slices.left.start && parts[n].slices.right.end <= parts[n + 1].slices.right.start
}

/// The parts cover `l0..l1` on the left and `r0..r1` on the right without a gap:
/// the first begins at `l0` and `r0`, the last ends at `l1` and `r1`, and each
/// begins where the one before it ends.
pub open spec fn tiles(parts: Seq<Part<'_>>, l0: int, l1: int, r0: int, r1: int) -> bool {
    if parts.len() == 0 {
        l0 == l1 && r0 == r1
    } else {
        &&& parts[0].slices.left.start == l0
        &&& parts[0].slices.right.start == r0
        &&& parts.last().slices.left.end == l1
        &&& parts.last().slices.right.end == r1
        &&& chained(parts)
    }
}

/// Every part that is said to match holds the same words on both sides.
pub open spec fn all_sound(parts: Seq<Part<'_>>) -> bool {
    forall|n: int| 0 <= n < parts.len() ==> (#[trigger] parts[n]).sound()
}

/// `r` holds the parts of `s` in order, and nothing after them.
pub open spec fn holds(r: [Option<Part<'_>>; 3], s: Seq<Part<'_>>) -> bool {
    &&& 1 <= s.len() <= 3
    &&& forall|k: int|
        0 <= k < 3 ==> #[trigger] r[k] == if k < s.len() {
            Some(s[k])
        } else {
            None
        }
}

/// A range of words on each side, said to match or not.
#[derive(Clone, Copy, Debug)]
pub struct Part<'a> {
    pub parent: &'a BlockMaker,
    pub matches: bool,
    pub slices: Pair<Span>,
}

impl<'a> Part<'a> {
    /// The range of side `i`.
    pub open spec fn span(&self, i: int) -> Span {
        self.slices.side(i)
    }

    /// Both ranges lie within the words of the parent.
    pub open spec fn wf(&self) -> bool {
        &&& self.parent.wf()
        &&& self.slices.left.start <= self.slices.left.end <= self.parent.nwords(0)
        &&& self.slices.right.start <= self.slices.right.end <= self.parent.nwords(1)
    }

    /// The words of side `i`.
    pub open spec fn content(&self, i: int) -> Seq<Seq<u8>> {
        self.parent.side(i).word_seq().subrange(self.span(i).start as int, self.span(i).end as int)
    }

    /// The tokens of side `i`.
    pub open spec fn token_seq(&self, i: int) -> Seq<Token> {
        self.parent.side(i).tokens@.subrange(self.span(i).start as int, self.span(i).end as int)
    }

    /// Both sides hold the same words.
    pub open spec fn same_words(&self) -> bool {
        self.content(0) == self.content(1)
    }

    /// A part that is said to match holds the same words on both sides.
    pub open spec fn sound(&self) -> bool {
        self.matches ==> self.same_words()
    }

    /// The index of the line of the first word of side `i`.
    pub open spec fn first_line(&self, i: int) -> int {
        self.parent.line_of(i, self.span(i).start as int)
    }

    /// The index of the line of the last word of side `i`; that of the place itself
    /// where the range is empty.
    pub open spec fn last_line(&self, i: int) -> int {
        if self.span(i).start < self.span(i).end {
            self.parent.line_of(i, self.span(i).end - 1)
        } else {
            self.parent.line_of(i, self.span(i).start as int)
        }
    }

    /// Whether side `i` lies in one line.
    pub open spec fn spec_single_line(&self, i: int) -> bool {
        self.first_line(i) == self.last_line(i)
    }

    /// Whether side `i` begins where its first line begins.
    pub open spec fn spec_starts_line(&self, i: int) -> bool {
        self.span(i).start == self.parent.line_start(i, self.first_line(i))
    }

    /// Whether side `i` ends where a line or the side ends.
    pub open spec fn spec_ends_line(&self, i: int) -> bool {
        ||| self.span(i).end == self.parent.nwords(i)
        ||| self.span(i).end == self.parent.line_start(i, self.last_line(i) + 1)
    }

    /// Whether both sides begin and end with a line.
    pub open spec fn spec_whole_line(&self) -> bool {
        &&& self.spec_starts_line(0)
        &&& self.spec_starts_line(1)
        &&& self.spec_ends_line(0)
        &&& self.spec_ends_line(1)
    }

    /// Whether side `i` holds no word.
    pub open spec fn spec_is_empty(&self, i: int) -> bool {
        self.span(i).start >= self.span(i).end
    }

    /// Empty on both sides.
    pub open spec fn both_empty(&self) -> bool {
        self.spec_is_empty(0) && self.spec_is_empty(1)
    }

    /// Empty, or over more than one line, or a whole number of lines.
    pub open spec fn spec_splitable(&self, i: int) -> bool {
        ||| self.spec_is_empty(i)
        ||| self.last_line(i) > self.first_line(i)
        ||| (self.spec_starts_line(i) && self.spec_ends_line(i))
    }

    /// No word of side `i` is a newline.
    pub open spec fn no_newline(&self, i: int) -> bool {
        forall|w: int|
            self.span(i).start <= w < self.span(i).end ==> #[trigger] self.parent.word(i, w) != seq![
                10u8,
            ]
    }

    /// On one line on both sides, and without a newline.
    pub open spec fn spec_inlineable(&self) -> bool {
        &&& self.spec_single_line(0)
        &&& self.spec_single_line(1)
        &&& self.no_newline(0)
        &&& self.no_newline(1)
    }

    /// The part with the same parent and flag over the given ranges.
    pub open spec fn with_spans(&self, l0: int, l1: int, r0: int, r1: int) -> Part<'a> {
        Part {
            parent: self.parent,
            matches: self.matches,
            slices: Pair {
                left: Span { start: l0 as usize, end: l1 as usize },
                right: Span { start: r0 as usize, end: r1 as usize },
            },
        }
    }

    /// The two parts that `self` falls into at word `a` of the left side and word
    /// `b` of the right, each brought into its range.
    pub open spec fn spec_partition(&self, a: int, b: int) -> (Part<'a>, Part<'a>) {
        let a = clamp(a, self.slices.left.start as int, self.slices.left.end as int);
        let b = clamp(b, self.slices.right.start as int, self.slices.right.end as int);
        (
            self.with_spans(self.slices.left.start as int, a, self.slices.right.start as int, b),
            self.with_spans(a, self.slices.left.end as int, b, self.slices.right.end as int),
        )
    }

    /// Whether side `i` counts as starting a line when the part is split: a part
    /// that matches starts a line on both sides or on neither.
    pub open spec fn starts_flag(&self, i: int) -> bool {
        if self.matches && !(self.spec_starts_line(0) && self.spec_starts_line(1)) {
            false
        } else {
            self.spec_starts_line(i)
        }
    }

    /// Whether side `i` counts as ending a line when the part is split.
    pub open spec fn ends_flag(&self, i: int) -> bool {
        if self.matches && !(self.spec_ends_line(0) && self.spec_ends_line(1)) {
            false
        } else {
            self.spec_ends_line(i)
        }
    }

    /// Where the first line of side `i` ends, if the part does not start a line there.
    pub open spec fn prefix_pivot(&self, i: int) -> int {
        if self.starts_flag(i) {
            self.span(i).start as int
        } else {
            self.parent.line_start(i, self.first_line(i) + 1)
        }
    }

    /// Where the last line of side `i` starts, if the part does not end a line there.
    pub open spec fn suffix_pivot(&self, i: int) -> int {
        if self.ends_flag(i) {
            self.span(i).end as int
        } else {
            self.parent.line_start(i, self.last_line(i))
        }
    }

    /// The three parts that `self` falls into at the two given pairs of places.
    pub open spec fn three_way(&self, pl: int, pr: int, sl: int, sr: int) -> Seq<Part<'a>> {
        let (first, second) = self.spec_partition(pl, pr);
        let (second, third) = second.spec_partition(sl, sr);
        seq![first, second, third]
    }

    /// The two parts that `self` falls into at the given pair of places.
    pub open spec fn two_way(&self, a: int, b: int) -> Seq<Part<'a>> {
        let (first, second) = self.spec_partition(a, b);
        seq![first, second]
    }

    /// How a part that does not match is split where only side `i` can be split and
    /// is not empty; `None` where that is not so or where the other side lies on
    /// more than one line without filling them.
    pub open spec fn split_one_sided(&self, i: int) -> Option<Seq<Part<'a>>> {
        let other = 1 - i;
        let start0 = self.slices.left.start as int;
        let start1 = self.slices.right.start as int;
        let end0 = self.slices.left.end as int;
        let end1 = self.slices.right.end as int;
        if !self.matches && self.spec_splitable(i) && !self.spec_is_empty(i) {
            if self.starts_flag(other) && self.ends_flag(other) {
                if i == 0 {
                    Some(self.three_way(self.prefix_pivot(0), start1, self.suffix_pivot(0), end1))
                } else {
                    Some(self.three_way(start0, self.prefix_pivot(1), end0, self.suffix_pivot(1)))
                }
            } else if self.first_line(other) != self.last_line(other) {
                None
            } else if self.starts_flag(i) && self.ends_flag(i) {
                if i == 0 {
                    Some(self.two_way(end0, start1))
                } else {
                    Some(self.two_way(start0, end1))
                }
            } else if (self.starts_flag(other) && !self.ends_flag(i)) || self.starts_flag(i) {
                if i == 0 {
                    Some(self.two_way(self.suffix_pivot(0), start1))
                } else {
                    Some(self.two_way(start0, self.suffix_pivot(1)))
                }
            } else {
                if i == 0 {
                    Some(self.two_way(self.prefix_pivot(0), end1))
                } else {
                    Some(self.two_way(end0, self.prefix_pivot(1)))
                }
            }
        } else {
            None
        }
    }

    /// Whether the two places at which the part is cut lie as far from its start
    /// on the right side as on the left. They do in a part that holds the same
    /// words on both sides where newlines delimit the lines.
    pub open spec fn cuts_agree(&self) -> bool {
        let l = self.slices.left;
        let r = self.slices.right;
        let first_left = clamp(self.prefix_pivot(0), l.start as int, l.end as int);
        let first_right = clamp(self.prefix_pivot(1), r.start as int, r.end as int);
        let second_left = clamp(self.suffix_pivot(0), first_left, l.end as int);
        let second_right = clamp(self.suffix_pivot(1), first_right, r.end as int);
        &&& first_left - l.start == first_right - r.start
        &&& second_left - l.start == second_right - r.start
    }

    /// Whether the part stays whole though both sides could be split: it matches
    /// and holds the same words on both sides, and yet would not be cut at the
    /// same places on both sides. That cannot be where newlines delimit the lines.
    pub open spec fn stays_whole(&self) -> bool {
        self.matches && !self.cuts_agree() && self.same_words()
    }

    /// The parts that `self` is split into: what lies on its first line, the whole
    /// lines, and what lies on its last line. A part that matches and holds the
    /// same words on both sides is cut at the same places on both sides, or not
    /// at all.
    pub open spec fn spec_split(&self) -> Seq<Part<'a>> {
        if self.spec_whole_line() {
            seq![*self]
        } else if self.spec_splitable(0) && self.spec_splitable(1) {
            if self.stays_whole() {
                seq![*self]
            } else {
                self.three_way(
                    self.prefix_pivot(0),
                    self.prefix_pivot(1),
                    self.suffix_pivot(0),
                    self.suffix_pivot(1),
                )
            }
        } else {
            match self.split_one_sided(0) {
                Some(r) => r,
                None => match self.split_one_sided(1) {
                    Some(r) => r,
                    None => seq![*self],
                },
            }
        }
    }

    /// A part with the same tokens on both sides holds the same words on both sides.
    pub proof fn lemma_same_tokens(&self)
        requires
            self.wf(),
            self.token_seq(0) == self.token_seq(1),
        ensures
            self.same_words(),
    {
        let bm = self.parent;
        let l = self.slices.left;
        let r = self.slices.right;
        assert(self.token_seq(0).len() == l.end - l.start);
        assert(self.token_seq(1).len() == r.end - r.start);
        assert(bm.tokens_agree(0, 1));
        reveal(BlockMaker::tokens_agree);
        assert forall|t: int| 0 <= t < l.end - l.start implies #[trigger] self.content(0)[t]
            == self.content(1)[t] by {
            assert(self.token_seq(0)[t] == bm.tok(0, l.start + t));
            assert(self.token_seq(1)[t] == bm.tok(1, r.start + t));
            assert(bm.tok(0, l.start + t) == bm.tok(1, r.start + t));
            assert(bm.word(0, l.start + t) == bm.word(1, r.start + t));
        }
        assert(self.content(0) =~= self.content(1));
    }

    /// A part with the same words on both sides holds the same tokens on both sides.
    pub proof fn lemma_same_words(&self)
        requires
            self.wf(),
            self.same_words(),
        ensures
            self.token_seq(0) == self.token_seq(1),
    {
        let bm = self.parent;
        let l = self.slices.left;
        let r = self.slices.right;
        assert(self.content(0).len() == l.end - l.start);
        assert(self.content(1).len() == r.end - r.start);
        assert(bm.tokens_agree(0, 1));
        reveal(BlockMaker::tokens_agree);
        assert forall|t: int| 0 <= t < l.end - l.start implies #[trigger] self.token_seq(0)[t]
            == self.token_seq(1)[t] by {
            assert(self.content(0)[t] == bm.word(0, l.start + t));
            assert(self.content(1)[t] == bm.word(1, r.start + t));
            assert(bm.tok(0, l.start + t) == bm.tok(1, r.start + t) <==> bm.word(0, l.start + t)
                == bm.word(1, r.start + t));
        }
        assert(self.token_seq(0) =~= self.token_seq(1));
    }

    /// The two parts of a partition are parts of the same parent, with the flag of
    /// `self`; the first begins where `self` begins, the second ends where `self`
    /// ends, and the second begins where the first ends.
    pub proof fn lemma_partition(&self, a: int, b: int)
        requires
            self.wf(),
        ensures
            ({
                let (first, second) = self.spec_partition(a, b);
                &&& first.wf() && second.wf()
                &&& first.parent == self.parent && second.parent == self.parent
                &&& first.matches == self.matches && second.matches == self.matches
                &&& first.slices.left.start == self.slices.left.start
                &&& first.slices.right.start == self.slices.right.start
                &&& second.slices.left.end == self.slices.left.end
                &&& second.slices.right.end == self.slices.right.end
                &&& first.slices.left.end == second.slices.left.start
                &&& first.slices.right.end == second.slices.right.start
                &&& first.slices.left.end == clamp(
                    a,
                    self.slices.left.start as int,
                    self.slices.left.end as int,
                )
                &&& first.slices.right.end == clamp(
                    b,
                    self.slices.right.start as int,
                    self.slices.right.end as int,
                )
            }),
    {
    }

    /// The parts of `s` are parts of the same parent, with the flag of `self`, and
    /// cover the ranges of `self` without a gap.
    pub open spec fn splits_into(&self, s: Seq<Part<'a>>) -> bool {
        &&& 1 <= s.len() <= 3
        &&& parts_of(s, self.parent)
        &&& tiles(
            s,
            self.slices.left.start as int,
            self.slices.left.end as int,
            self.slices.right.start as int,
            self.slices.right.end as int,
        )
        &&& forall|n: int| 0 <= n < s.len() ==> (#[trigger] s[n]).matches == self.matches
    }

    /// The three pieces of two cuts tile the part.
    pub proof fn lemma_three_way(&self, pl: int, pr: int, sl: int, sr: int)
        requires
            self.wf(),
        ensures
            self.splits_into(self.three_way(pl, pr, sl, sr)),
    {
        self.lemma_partition(pl, pr);
        let (first, second) = self.spec_partition(pl, pr);
        second.lemma_partition(sl, sr);
    }

    /// The two pieces of one cut tile the part.
    pub proof fn lemma_two_way(&self, a: int, b: int)
        requires
            self.wf(),
        ensures
            self.splits_into(self.two_way(a, b)),
    {
        self.lemma_partition(a, b);
    }

    /// What a split on one side gives tiles the part.
    pub proof fn lemma_one_sided(&self, i: int)
        requires
            self.wf(),
        ensures
            self.split_one_sided(i).is_some() ==> self.splits_into(self.split_one_sided(i).unwrap()),
    {
        let other = 1 - i;
        let l = self.slices.left;
        let r = self.slices.right;
        if !self.matches && self.spec_splitable(i) && !self.spec_is_empty(i) {
            if self.starts_flag(other) && self.ends_flag(other) {
                if i == 0 {
                    self.lemma_three_way(self.prefix_pivot(0), r.start as int, self.suffix_pivot(0), r.end as int);
                } else {
                    self.lemma_three_way(l.start as int, self.prefix_pivot(1), l.end as int, self.suffix_pivot(1));
                }
            } else if self.first_line(other) != self.last_line(other) {
            } else if self.starts_flag(i) && self.ends_flag(i) {
                if i == 0 {
                    self.lemma_two_way(l.end as int, r.start as int);
                } else {
                    self.lemma_two_way(l.start as int, r.end as int);
                }
            } else if (self.starts_flag(other) && !self.ends_flag(i)) || self.starts_flag(i) {
                if i == 0 {
                    self.lemma_two_way(self.suffix_pivot(0), r.start as int);
                } else {
                    self.lemma_two_way(l.start as int, self.suffix_pivot(1));
                }
            } else {
                if i == 0 {
                    self.lemma_two_way(self.prefix_pivot(0), r.end as int);
                } else {
                    self.lemma_two_way(l.end as int, self.prefix_pivot(1));
                }
            }
        }
    }

    /// The parts of a split are parts of the same parent, with the flag of `self`,
    /// and cover the ranges of `self` without a gap.
    pub proof fn lemma_split_tiles(&self)
        requires
            self.wf(),
        ensures
            self.splits_into(self.spec_split()),
    {
        if self.spec_whole_line() {
        } else if self.spec_splitable(0) && self.spec_splitable(1) {
            if !self.stays_whole() {
                self.lemma_three_way(
                    self.prefix_pivot(0),
                    self.prefix_pivot(1),
                    self.suffix_pivot(0),
                    self.suffix_pivot(1),
                );
            }
        } else {
            self.lemma_one_sided(0);
            self.lemma_one_sided(1);
        }
    }

    /// Where the first line of side `i` ends within the part, that of side `j`
    /// ends no later, counted from the start of the part.
    proof fn lemma_prefix_toward(&self, i: int, j: int)
        requires
            self.wf(),
            self.parent.line_delimited(),
            self.token_seq(0) == self.token_seq(1),
            (i == 0 && j == 1) || (i == 1 && j == 0),
            self.span(i).start < self.span(i).end,
            self.parent.line_start(i, self.first_line(i) + 1) < self.span(i).end,
        ensures
            self.parent.line_start(j, self.first_line(j) + 1) - self.span(j).start
                <= self.parent.line_start(i, self.first_line(i) + 1) - self.span(i).start,
    {
        let bm = self.parent;
        let si = self.span(i).start as int;
        let sj = self.span(j).start as int;
        let n = self.span(i).end - si;
        assert(self.token_seq(i).len() == n);
        assert(self.token_seq(j).len() == self.span(j).end - sj);
        bm.lemma_line_end(i, si);
        bm.lemma_line_end(j, sj);
        let ei = bm.line_start(i, self.first_line(i) + 1);
        let ej = bm.line_start(j, self.first_line(j) + 1);
        let d = ei - si;
        assert(bm.tok(i, ei - 1).is_newline());
        assert(self.token_seq(i)[d - 1] == bm.tok(i, si + d - 1));
        assert(self.token_seq(j)[d - 1] == bm.tok(j, sj + d - 1));
        assert(bm.tok(j, sj + d - 1).is_newline());
    }

    /// Where the last line of side `i` begins within the part, that of side `j`
    /// begins no earlier, counted from the start of the part.
    proof fn lemma_suffix_toward(&self, i: int, j: int)
        requires
            self.wf(),
            self.parent.line_delimited(),
            self.token_seq(0) == self.token_seq(1),
            (i == 0 && j == 1) || (i == 1 && j == 0),
            self.span(i).start < self.span(i).end,
            self.parent.line_start(i, self.last_line(i)) > self.span(i).start,
        ensures
            self.parent.line_start(j, self.last_line(j)) - self.span(j).start
                >= self.parent.line_start(i, self.last_line(i)) - self.span(i).start,
    {
        let bm = self.parent;
        let si = self.span(i).start as int;
        let sj = self.span(j).start as int;
        let n = self.span(i).end - si;
        assert(self.token_seq(i).len() == n);
        assert(self.token_seq(j).len() == self.span(j).end - sj);
        bm.lemma_line_begin(i, si + n - 1);
        bm.lemma_line_begin(j, sj + n - 1);
        let bi = bm.line_start(i, self.last_line(i));
        let bj = bm.line_start(j, self.last_line(j));
        let c = bi - si;
        assert(bm.tok(i, bi - 1).is_newline());
        assert(self.token_seq(i)[c - 1] == bm.tok(i, si + c - 1));
        assert(self.token_seq(j)[c - 1] == bm.tok(j, sj + c - 1));
        assert(bm.tok(j, sj + c - 1).is_newline());
    }

    /// A part over the same stretch of both sides of a part with the same words
    /// holds the same words.
    pub proof fn lemma_piece_sound(&self, piece: Part<'a>, from: int, to: int)
        requires
            self.wf(),
            self.same_words(),
            piece.parent == self.parent,
            0 <= from <= to <= self.slices.left.end - self.slices.left.start,
            piece.slices.left.start == self.slices.left.start + from,
            piece.slices.left.end == self.slices.left.start + to,
            piece.slices.right.start == self.slices.right.start + from,
            piece.slices.right.end == self.slices.right.start + to,
        ensures
            piece.same_words(),
    {
        assert(self.content(0).len() == self.slices.left.end - self.slices.left.start);
        assert(self.content(1).len() == self.slices.right.end - self.slices.right.start);
        assert(piece.content(0) =~= self.content(0).subrange(from, to));
        assert(piece.content(1) =~= self.content(1).subrange(from, to));
    }

    /// Where newlines delimit the lines, a part that matches and holds the same
    /// words on both sides is cut at the same places on both sides: there every
    /// part that can be split on both sides is split.
    pub proof fn lemma_cuts_agree(&self)
        requires
            self.wf(),
            self.matches,
            self.same_words(),
            self.parent.line_delimited(),
            !self.spec_whole_line(),
            self.spec_splitable(0),
            self.spec_splitable(1),
        ensures
            self.cuts_agree(),
    {
        self.lemma_same_words();
        let bm = self.parent;
        let l = self.slices.left;
        let r = self.slices.right;
        let n = l.end - l.start;
        assert(self.token_seq(0).len() == n);
        assert(self.token_seq(1).len() == r.end - r.start);
        let pl = self.prefix_pivot(0);
        let pr = self.prefix_pivot(1);
        let sl = self.suffix_pivot(0);
        let sr = self.suffix_pivot(1);
        let a0 = clamp(pl, l.start as int, l.end as int);
        let a1 = clamp(pr, r.start as int, r.end as int);
        let b0 = clamp(sl, a0, l.end as int);
        let b1 = clamp(sr, a1, r.end as int);
        if n > 0 {
            if !self.starts_flag(0) {
                if pl < l.end {
                    self.lemma_prefix_toward(0, 1);
                }
                if pr < r.end {
                    self.lemma_prefix_toward(1, 0);
                }
                bm.lemma_line_end(0, l.start as int);
                bm.lemma_line_end(1, r.start as int);
            }
            assert(a0 - l.start == a1 - r.start);
            if !self.ends_flag(0) {
                if sl > l.start {
                    self.lemma_suffix_toward(0, 1);
                }
                if sr > r.start {
                    self.lemma_suffix_toward(1, 0);
                }
                bm.lemma_line_begin(0, l.end - 1);
                bm.lemma_line_begin(1, r.end - 1);
            }
            assert(b0 - l.start == b1 - r.start);
        }
    }

    /// The parts that a part with the same words on both sides is split into hold
    /// the same words on both sides.
    pub proof fn lemma_split_sound(&self)
        requires
            self.wf(),
            self.sound(),
        ensures
            all_sound(self.spec_split()),
    {
        self.lemma_split_tiles();
        let s = self.spec_split();
        if !self.matches {
        } else if self.spec_whole_line() {
        } else if self.spec_splitable(0) && self.spec_splitable(1) {
            if self.cuts_agree() {
                let l = self.slices.left;
                let r = self.slices.right;
                let n = l.end - l.start;
                assert(self.content(0).len() == n);
                assert(self.content(1).len() == r.end - r.start);
                let pl = self.prefix_pivot(0);
                let pr = self.prefix_pivot(1);
                let sl = self.suffix_pivot(0);
                let sr = self.suffix_pivot(1);
                let a0 = clamp(pl, l.start as int, l.end as int);
                let b0 = clamp(sl, a0, l.end as int);
                self.lemma_partition(pl, pr);
                let (first, second) = self.spec_partition(pl, pr);
                second.lemma_partition(sl, sr);
                let (mid, third) = second.spec_partition(sl, sr);
                self.lemma_piece_sound(first, 0, a0 - l.start);
                self.lemma_piece_sound(mid, a0 - l.start, b0 - l.start);
                self.lemma_piece_sound(third, b0 - l.start, n);
                assert(s =~= seq![first, mid, third]);
            }
        } else {
            assert(self.split_one_sided(0).is_none());
            assert(self.split_one_sided(1).is_none());
        }
    }

    /// No word of a part is empty.
    pub proof fn lemma_word_filled(&self, i: int, j: int)
        requires
            self.wf(),
            0 <= j < self.content(i).len(),
        ensures
            self.content(i)[j].len() > 0,
    {
        let side = self.parent.side(i);
        assert(side.wf());
        assert(self.content(i)[j] == side.words@[self.span(i).start + j]@);
    }

    fn span_of(&self, i: usize) -> (r: Span)
        ensures
            r == self.span(i as int),
    {
        *self.slices.index(i)
    }

    /// The words of side `i`.
    pub fn get(&self, i: usize) -> (r: &'a [Vec<u8>])
        requires
            self.wf(),
        ensures
            views(r@) == self.content(i as int),
            r@ == self.parent.side(i as int).words@.subrange(
                self.span(i as int).start as int,
                self.span(i as int).end as int,
            ),
    {
        let span = self.span_of(i);
        let words = self.parent.sides.index(i).words.as_slice();
        let r = slice_subrange(words, span.start, span.end);
        assert(views(r@) =~= self.content(i as int));
        r
    }

    /// The number of the line of the first word of side `i`.
    pub fn first_lineno(&self, i: usize) -> (r: usize)
        requires
            self.wf(),
        ensures
            r == self.first_line(i as int) + self.parent.line_numbers.side(i as int),
    {
        self.parent.get_lineno(i, self.span_of(i).start)
    }

    /// The number of the line of the last word of side `i`.
    pub fn last_lineno(&self, i: usize) -> (r: usize)
        requires
            self.wf(),
        ensures
            r == self.last_line(i as int) + self.parent.line_numbers.side(i as int),
    {
        let span = self.span_of(i);
        if span.start < span.end {
            self.parent.get_lineno(i, span.end - 1)
        } else {
            self.parent.get_lineno(i, span.start)
        }
    }

    fn first_index(&self, i: usize) -> (r: usize)
        requires
            self.wf(),
        ensures
            r == self.first_line(i as int),
            r <= self.parent.nlines(i as int),
            r < usize::MAX,
    {
        self.parent.line_index(i, self.span_of(i).start)
    }

    fn last_index(&self, i: usize) -> (r: usize)
        requires
            self.wf(),
        ensures
            r == self.last_line(i as int),
            r <= self.parent.nlines(i as int),
            r < usize::MAX,
    {
        let span = self.span_of(i);
        if span.start < span.end {
            self.parent.line_index(i, span.end - 1)
        } else {
            self.parent.line_index(i, span.start)
        }
    }

    /// Whether side `i` lies in one line.
    pub fn single_line(&self, i: usize) -> (r: bool)
        requires
            self.wf(),
        ensures
            r == self.spec_single_line(i as int),
    {
        self.first_index(i) == self.last_index(i)
    }

    /// Whether side `i` begins where its first line begins.
    pub fn starts_line(&self, i: usize) -> (r: bool)
        requires
            self.wf(),
        ensures
            r == self.spec_starts_line(i as int),
    {
        self.span_of(i).start == self.parent.first_word(i, self.first_index(i))
    }

    /// Whether side `i` ends where a line or the side ends.
    pub fn ends_line(&self, i: usize) -> (r: bool)
        requires
            self.wf(),
        ensures
            r == self.spec_ends_line(i as int),
    {
        let end = self.span_of(i).end;
        end == self.parent.word_count(i) || end == self.parent.first_word(i, self.last_index(i) + 1)
    }

    /// Whether both sides begin and end with a line.
    pub fn whole_line(&self) -> (r: bool)
        requires
            self.wf(),
        ensures
            r == self.spec_whole_line(),
    {
        self.starts_line(0) && self.starts_line(1) && self.ends_line(0) && self.ends_line(1)
    }

    /// The number of bytes in the words of side `i` that are not white space alone,
    /// or the largest number where that is beyond it.
    pub fn char_len(&self, i: usize) -> (r: usize)
        requires
            self.wf(),
        ensures
            r == if solid_bytes(self.content(i as int)) <= usize::MAX {
                solid_bytes(self.content(i as int)) as int
            } else {
                usize::MAX as int
            },
    {
        let words = self.get(i);
        let mut total: usize = 0;
        let mut k: usize = 0;
        proof {
            assert(views(words@).take(0) =~= Seq::<Seq<u8>>::empty());
        }
        while k < words.len()
            invariant
                k <= words@.len(),
                total == if solid_bytes(views(words@).take(k as int)) <= usize::MAX {
                    solid_bytes(views(words@).take(k as int)) as int
                } else {
                    usize::MAX as int
                },
            decreases words@.len() - k,
        {
            proof {
                assert(views(words@).take(k + 1).drop_last() =~= views(words@).take(k as int));
                assert(views(words@).take(k + 1).last() == words@[k as int]@);
            }
            if !words[k].is_ascii_whitespace() {
                total = total.saturating_add(words[k].len());
            }
            k += 1;
        }
        proof {
            assert(views(words@).take(k as int) =~= views(words@));
        }
        total
    }

    /// The number of words of side `i` that are not white space alone.
    pub fn word_len(&self, i: usize) -> (r: usize)
        requires
            self.wf(),
        ensures
            r == solid_count(self.content(i as int)),
    {
        let words = self.get(i);
        let mut total: usize = 0;
        let mut k: usize = 0;
        proof {
            assert(views(words@).take(0) =~= Seq::<Seq<u8>>::empty());
        }
        while k < words.len()
            invariant
                k <= words@.len(),
                total == solid_count(views(words@).take(k as int)),
                total <= k,
            decreases words@.len() - k,
        {
            proof {
                assert(views(words@).take(k + 1).drop_last() =~= views(words@).take(k as int));
                assert(views(words@).take(k + 1).last() == words@[k as int]@);
            }
            if !words[k].is_ascii_whitespace() {
                total += 1;
            }
            k += 1;
        }
        proof {
            assert(views(words@).take(k as int) =~= views(words@));
        }
        total
    }

    /// Splits at word `a` of the left side and word `b` of the right, each brought
    /// into its range.
    pub fn partition(&self, a: usize, b: usize) -> (r: (Part<'a>, Part<'a>))
        requires
            self.wf(),
        ensures
            r == self.spec_partition(a as int, b as int),
            r.0.wf(),
            r.1.wf(),
    {
        let left = self.slices.left;
        let right = self.slices.right;
        let a = clamp_to(a, left.start, left.end);
        let b = clamp_to(b, right.start, right.end);
        (
            Part {
                parent: self.parent,
                matches: self.matches,
                slices: Pair {
                    left: Span { start: left.start, end: a },
                    right: Span { start: right.start, end: b },
                },
            },
            Part {
                parent: self.parent,
                matches: self.matches,
                slices: Pair {
                    left: Span { start: a, end: left.end },
                    right: Span { start: b, end: right.end },
                },
            },
        )
    }

    /// Splits `a` words after the start of the left side and `b` after that of the
    /// right, at the end of a side that is shorter.
    pub fn partition_from_start(&self, a: usize, b: usize) -> (r: (Part<'a>, Part<'a>))
        requires
            self.wf(),
        ensures
            r == self.spec_partition(self.slices.left.start + a, self.slices.right.start + b),
            r.0.wf(),
            r.1.wf(),
    {
        let left = self.slices.left;
        let right = self.slices.right;
        let a = if a > left.end - left.start {
            left.end
        } else {
            left.start + a
        };
        let b = if b > right.end - right.start {
            right.end
        } else {
            right.start + b
        };
        self.partition(a, b)
    }

    /// Splits `a` words before the end of the left side and `b` before that of the
    /// right, at the start of a side that is shorter.
    pub fn partition_from_end(&self, a: usize, b: usize) -> (r: (Part<'a>, Part<'a>))
        requires
            self.wf(),
        ensures
            r == self.spec_partition(self.slices.left.end - a, self.slices.right.end - b),
            r.0.wf(),
            r.1.wf(),
    {
        let left = self.slices.left;
        let right = self.slices.right;
        let a = if a > left.end - left.start {
            left.start
        } else {
            left.end - a
        };
        let b = if b > right.end - right.start {
            right.start
        } else {
            right.end - b
        };
        self.partition(a, b)
    }

    /// Whether side `i` holds no word.
    pub fn is_empty(&self, i: usize) -> (r: bool)
        ensures
            r == self.spec_is_empty(i as int),
    {
        self.span_of(i).is_empty()
    }

    /// Both ranges with `a` added to their starts and `b` to their ends.
    pub fn shift_slice(&self, a: isize, b: isize) -> (r: Pair<Span>)
        requires
            0 <= self.slices.left.start + a <= usize::MAX,
            0 <= self.slices.left.end + b <= usize::MAX,
            0 <= self.slices.right.start + a <= usize::MAX,
            0 <= self.slices.right.end + b <= usize::MAX,
        ensures
            r.left.start == self.slices.left.start + a,
            r.left.end == self.slices.left.end + b,
            r.right.start == self.slices.right.start + a,
            r.right.end == self.slices.right.end + b,
    {
        Pair {
            left: Span {
                start: shifted(self.slices.left.start, a),
                end: shifted(self.slices.left.end, b),
            },
            right: Span {
                start: shifted(self.slices.right.start, a),
                end: shifted(self.slices.right.end, b),
            },
        }
    }

    fn splitable(&self, i: usize) -> (r: bool)
        requires
            self.wf(),
        ensures
            r == self.spec_splitable(i as int),
    {
        self.is_empty(i) || self.last_index(i) > self.first_index(i) || (self.starts_line(i)
            && self.ends_line(i))
    }

    fn starts_collapsed(&self, i: usize) -> (r: bool)
        requires
            self.wf(),
        ensures
            r == self.starts_flag(i as int),
    {
        if self.matches && !(self.starts_line(0) && self.starts_line(1)) {
            false
        } else {
            self.starts_line(i)
        }
    }

    fn ends_collapsed(&self, i: usize) -> (r: bool)
        requires
            self.wf(),
        ensures
            r == self.ends_flag(i as int),
    {
        if self.matches && !(self.ends_line(0) && self.ends_line(1)) {
            false
        } else {
            self.ends_line(i)
        }
    }

    fn prefix_at(&self, i: usize) -> (r: usize)
        requires
            self.wf(),
        ensures
            r == self.prefix_pivot(i as int),
    {
        if self.starts_collapsed(i) {
            self.span_of(i).start
        } else {
            self.parent.first_word(i, self.first_index(i) + 1)
        }
    }

    fn suffix_at(&self, i: usize) -> (r: usize)
        requires
            self.wf(),
        ensures
            r == self.suffix_pivot(i as int),
    {
        if self.ends_collapsed(i) {
            self.span_of(i).end
        } else {
            self.parent.first_word(i, self.last_index(i))
        }
    }

    fn three(&self, pl: usize, pr: usize, sl: usize, sr: usize) -> (r: [Option<Part<'a>>; 3])
        requires
            self.wf(),
        ensures
            holds(r, self.three_way(pl as int, pr as int, sl as int, sr as int)),
    {
        let (first, second) = self.partition(pl, pr);
        let (second, third) = second.partition(sl, sr);
        [Some(first), Some(second), Some(third)]
    }

    fn two(&self, a: usize, b: usize) -> (r: [Option<Part<'a>>; 3])
        requires
            self.wf(),
        ensures
            holds(r, self.two_way(a as int, b as int)),
    {
        let (first, second) = self.partition(a, b);
        [Some(first), Some(second), None]
    }

    fn split_side(&self, i: usize) -> (r: Option<[Option<Part<'a>>; 3]>)
        requires
            self.wf(),
            i < 2,
        ensures
            r.is_some() == self.split_one_sided(i as int).is_some(),
            r.is_some() ==> holds(r.unwrap(), self.split_one_sided(i as int).unwrap()),
    {
        let other = 1 - i;
        let left = self.slices.left;
        let right = self.slices.right;
        if !self.matches && self.splitable(i) && !self.is_empty(i) {
            if self.starts_collapsed(other) && self.ends_collapsed(other) {
                if i == 0 {
                    Some(self.three(self.prefix_at(0), right.start, self.suffix_at(0), right.end))
                } else {
                    Some(self.three(left.start, self.prefix_at(1), left.end, self.suffix_at(1)))
                }
            } else if self.first_index(other) != self.last_index(other) {
                None
            } else if self.starts_collapsed(i) && self.ends_collapsed(i) {
                if i == 0 {
                    Some(self.two(left.end, right.start))
                } else {
                    Some(self.two(left.start, right.end))
                }
            } else if (self.starts_collapsed(other) && !self.ends_collapsed(i))
                || self.starts_collapsed(i) {
                if i == 0 {
                    Some(self.two(self.suffix_at(0), right.start))
                } else {
                    Some(self.two(left.start, self.suffix_at(1)))
                }
            } else {
                if i == 0 {
                    Some(self.two(self.prefix_at(0), right.end))
                } else {
                    Some(self.two(left.end, self.prefix_at(1)))
                }
            }
        } else {
            None
        }
    }

    /// Whether the cuts at these places lie as far from the start of the part on
    /// the right side as on the left.
    fn agreeing(&self, pl: usize, pr: usize, sl: usize, sr: usize) -> (r: bool)
        requires
            self.wf(),
            pl == self.prefix_pivot(0),
            pr == self.prefix_pivot(1),
            sl == self.suffix_pivot(0),
            sr == self.suffix_pivot(1),
        ensures
            r == self.cuts_agree(),
    {
        let l = self.slices.left;
        let r = self.slices.right;
        let first_left = clamp_to(pl, l.start, l.end);
        let first_right = clamp_to(pr, r.start, r.end);
        let second_left = clamp_to(sl, first_left, l.end);
        let second_right = clamp_to(sr, first_right, r.end);
        first_left - l.start == first_right - r.start && second_left - l.start == second_right - r.start
    }

    /// Splits the part into what lies on its first line, its whole lines, and what
    /// lies on its last line. A part of whole lines stays as it is, and so does a
    /// part that matches, holds the same words on both sides and would not be cut
    /// at the same places on both sides.
    pub fn split(self) -> (r: [Option<Part<'a>>; 3])
        requires
            self.wf(),
        ensures
            holds(r, self.spec_split()),
    {
        if self.whole_line() {
            return [Some(self), None, None];
        }
        if self.splitable(0) && self.splitable(1) {
            let pl = self.prefix_at(0);
            let pr = self.prefix_at(1);
            let sl = self.suffix_at(0);
            let sr = self.suffix_at(1);
            if self.matches && !self.agreeing(pl, pr, sl, sr) && self.parent.same_stretch(
                0,
                self.slices.left.start,
                self.slices.left.end,
                1,
                self.slices.right.start,
                self.slices.right.end,
            ) {
                return [Some(self), None, None];
            }
            return self.three(pl, pr, sl, sr);
        }
        match self.split_side(0) {
            Some(r) => r,
            None => match self.split_side(1) {
                Some(r) => r,
                None => [Some(self), None, None],
            },
        }
    }

    /// Whether the part can be shown within a line: it lies on one line on both
    /// sides and holds no newline.
    pub fn inlineable(&self) -> (r: bool)
        requires
            self.wf(),
        ensures
            r == self.spec_inlineable(),
    {
        self.single_line(0) && self.single_line(1) && self.lacks_newline(0) && self.lacks_newline(1)
    }

    fn lacks_newline(&self, i: usize) -> (r: bool)
        requires
            self.wf(),
        ensures
            r == self.no_newline(i as int),
    {
        let span = self.span_of(i);
        let tokens = &self.parent.sides.index(i).tokens;
        let mut w: usize = span.start;
        while w < span.end
            invariant
                self.wf(),
                span == self.span(i as int),
                *tokens == self.parent.side(i as int).tokens,
                span.start <= w <= span.end,
                forall|x: int| span.start <= x < w ==> #[trigger] self.parent.word(i as int, x) != seq![
                    10u8,
                ],
            decreases span.end - w,
        {
            proof {
                self.parent.lemma_newline_token(i as int, w as int);
            }
            if tokens[w].0 == Token::NEWLINE {
                return false;
            }
            w += 1;
        }
        true
    }
}

/// `x + d`.
pub fn shifted(x: usize, d: isize) -> (r: usize)
    requires
        0 <= x + d <= usize::MAX,
    ensures
        r == x + d,
{
    if d >= 0 {
        x + (d as usize)
    } else if d == isize::MIN {
        x - 1 - (isize::MAX as usize)
    } else {
        x - ((-d) as usize)
    }
}

} // verus!
