//! The runs of equal words of the two sides, with white space as junk.

use crate::block_maker::BlockMaker;
use crate::pair::Span;
use crate::part::Part;
use crate::line_differ::{common_run, lemma_runs_join, lemma_suffix_is_run, runs_in_order, suffix_len};
use crate::part::{all_sound, ascending, parts_of};
use crate::select::{lemma_filter_from, select};
use crate::tokeniser::Token;
use crate::whitespace::views;
use crate::word_spec::{
    agrees, bare_newline, beside_from, beside_to, best_index, best_of, between_from, between_to, candidate_of,
    cell_run, find_spec, handle_spec, line_dist_of, longest_of, max_left, max_right, min_left, min_right,
    ends_run, lemma_run_start, one_left, one_right, recorded, run_after, scan_spec, scan_to, search_to,
    top_length, wanted, Memo,
};
use crate::word_spec::{back_steps, collect_spec, extended, forth_steps, fuse_fold, matching_spec, run_part};
use vstd::prelude::*;

verus! {

/// Blank tokens are junk: they never begin or end a run of equal words.
pub fn isjunk(tok: Token) -> (r: bool)
    ensures
        r == tok.is_blank(),
{
    tok.is_ascii_whitespace()
}

/// Whether token `j` of `tokens` is indentation: a blank at the start of the
/// tokens, after a newline, or after indentation.
pub open spec fn indent(tokens: Seq<Token>, j: int) -> bool
    decreases j + 1,
{
    if j < 0 || j >= tokens.len() {
        false
    } else {
        tokens[j].is_blank() && (j == 0 || tokens[j - 1].is_newline() || indent(tokens, j - 1))
    }
}

/// Whether a run that begins at tokens `i` of `a` and `j` of `b` may take in the
/// token before it: the two are the same and are blank, or are the newline of an
/// empty line on both sides.
pub open spec fn back_ok(a: Seq<Token>, b: Seq<Token>, alo: int, blo: int, i: int, j: int) -> bool {
    &&& i > alo
    &&& j > blo
    &&& a[i - 1] == b[j - 1]
    &&& (a[i - 1].is_blank() || (a[i - 1].is_newline() && i >= 2 && a[i - 2].is_newline() && j >= 2
        && b[j - 2].is_newline()))
}

/// Whether a run that ends before tokens `i` of `a` and `j` of `b` may take them
/// in: the two are the same and are a newline, or a blank that does not begin a line.
pub open spec fn forth_ok(a: Seq<Token>, b: Seq<Token>, ahi: int, bhi: int, i: int, j: int) -> bool {
    &&& i < ahi
    &&& j < bhi
    &&& a[i] == b[j]
    &&& (a[i].is_newline() || (!a[i - 1].is_newline() && a[i].is_blank()))
}

/// The number of blanks that `tokens` holds from `j` on without a break, among `n`
/// tokens at most.
pub open spec fn blanks_from(tokens: Seq<Token>, j: int, n: int) -> nat
    decreases n,
{
    if n <= 0 || j < 0 || j >= tokens.len() || !tokens[j].is_blank() {
        0
    } else {
        1 + blanks_from(tokens, j + 1, n - 1)
    }
}

/// The number of blanks that `tokens` holds before `e` without a break, among `n`
/// tokens at most.
pub open spec fn blanks_before(tokens: Seq<Token>, e: int, n: int) -> nat
    decreases n,
{
    if n <= 0 || e <= 0 || e > tokens.len() || !tokens[e - 1].is_blank() {
        0
    } else {
        1 + blanks_before(tokens, e - 1, n - 1)
    }
}

/// The number of bytes of the words `from..to` of `words`.
pub open spec fn total_bytes(words: Seq<Seq<u8>>, from: int, to: int) -> nat
    decreases to - from,
{
    if to <= from || to > words.len() || from < 0 {
        0
    } else {
        total_bytes(words, from, to - 1) + words[to - 1].len()
    }
}

/// `n`, or the largest number where `n` is beyond it.
pub open spec fn capped(n: nat) -> int {
    if n <= usize::MAX {
        n as int
    } else {
        usize::MAX as int
    }
}

/// `a - b` or `b - a`, whichever is not below zero.
pub open spec fn distance(a: int, b: int) -> int {
    if a <= b {
        b - a
    } else {
        a - b
    }
}

/// A run of equal words: where it begins on each side, its length, and what
/// ranks it among other runs.
#[derive(Clone, Copy, Debug)]
pub struct DiffMatch {
    pub left: usize,
    pub right: usize,
    pub length: usize,
    /// How far the line of the run is from the line it was expected on.
    pub lineno_dist: usize,
    /// Whether that line was expected because a run was found on it before.
    pub lineno_dist_strong: bool,
    /// The length without the blanks at either end.
    pub non_ws_length: usize,
    /// The number of bytes in the words without the blanks at either end.
    pub char_length: usize,
}

/// The lengths that `m` holds are those of its run: its length without the blanks
/// at either end, and the bytes of those words.
#[verifier::opaque]
pub open spec fn measured(bm: &BlockMaker, m: DiffMatch) -> bool {
    let tokens = bm.side(1).tokens@;
    let lead = blanks_from(tokens, m.right as int, m.length as int);
    let trail = blanks_before(tokens, m.right + m.length, m.length - lead);
    &&& m.non_ws_length == m.length - lead - trail
    &&& m.char_length == capped(
        total_bytes(bm.side(0).word_seq(), m.left + lead, m.left + m.length - trail),
    )
}

/// The run `m` lies within the two ranges, holds the same tokens on both sides
/// and at least one, does not begin with a newline, and its lengths are those
/// of the run.
pub open spec fn valid_run(bm: &BlockMaker, m: DiffMatch, alo: int, ahi: int, blo: int, bhi: int) -> bool {
    &&& m.length >= 1
    &&& !bm.side(0).tokens@[m.left as int].is_newline()
    &&& common_run(
        bm.side(0).tokens@,
        bm.side(1).tokens@,
        alo,
        ahi,
        blo,
        bhi,
        m.left as int,
        m.right as int,
        m.length as int,
    )
    &&& measured(bm, m)
}

/// All runs of `ms` are runs of the two ranges.
pub open spec fn all_valid(bm: &BlockMaker, ms: Seq<DiffMatch>, alo: int, ahi: int, blo: int, bhi: int) -> bool {
    forall|n: int| 0 <= n < ms.len() ==> valid_run(bm, #[trigger] ms[n], alo, ahi, blo, bhi)
}

/// A run of the two inner ranges is a run of the two outer ranges.
pub proof fn lemma_valid_wider(
    bm: &BlockMaker,
    m: DiffMatch,
    alo: int,
    ahi: int,
    blo: int,
    bhi: int,
    alo2: int,
    ahi2: int,
    blo2: int,
    bhi2: int,
)
    requires
        valid_run(bm, m, alo2, ahi2, blo2, bhi2),
        0 <= alo <= alo2,
        ahi2 <= ahi <= bm.side(0).tokens@.len(),
        0 <= blo <= blo2,
        bhi2 <= bhi <= bm.side(1).tokens@.len(),
    ensures
        valid_run(bm, m, alo, ahi, blo, bhi),
{
}

/// No other run of `ms` begins where `m` begins, on either side.
pub open spec fn lone(ms: Seq<DiffMatch>, m: DiffMatch) -> bool {
    forall|n: int, n2: int|
        0 <= n < n2 < ms.len() ==> !((#[trigger] ms[n]).left == m.left && (#[trigger] ms[n2]).left
            == m.left) && !(ms[n].right == m.right && ms[n2].right == m.right)
}

/// The run lies on the very line that was expected from a run found before.
pub open spec fn on_expected_line(m: DiffMatch) -> bool {
    m.lineno_dist_strong && m.lineno_dist == 0
}

/// `a` ranks before `b`: it lies nearer to its expected line, or as near and
/// holds more bytes.
pub open spec fn ranks_before(a: DiffMatch, b: DiffMatch) -> bool {
    a.lineno_dist < b.lineno_dist || (a.lineno_dist == b.lineno_dist && a.char_length
        > b.char_length)
}

impl DiffMatch {
    /// What runs are ranked by, the smaller the better.
    pub fn sort_key(&self) -> (r: (usize, usize))
        ensures
            r.0 == self.lineno_dist,
            r.1 == usize::MAX - self.char_length,
    {
        (self.lineno_dist, usize::MAX - self.char_length)
    }
}

/// The first of the runs that no other ranks before.
fn pick_best(matches: &Vec<DiffMatch>) -> (r: (usize, DiffMatch))
    requires
        matches@.len() > 0,
    ensures
        r.0 < matches@.len(),
        r.1 == matches@[r.0 as int],
        r.1 == best_of(matches@),
        forall|n: int| 0 <= n < matches@.len() ==> !ranks_before(#[trigger] matches@[n], r.1),
        forall|n: int| 0 <= n < r.0 ==> ranks_before(r.1, #[trigger] matches@[n]),
{
    let mut best: usize = 0;
    let mut n: usize = 1;
    while n < matches.len()
        invariant
            best < n <= matches@.len(),
            best == best_index(matches@, n as int),
            forall|x: int| 0 <= x < n ==> !ranks_before(#[trigger] matches@[x], matches@[best as int]),
            forall|x: int| 0 <= x < best ==> ranks_before(matches@[best as int], #[trigger] matches@[x]),
        decreases matches@.len() - n,
    {
        let key = matches[n].sort_key();
        let best_key = matches[best].sort_key();
        if key.0 < best_key.0 || (key.0 == best_key.0 && key.1 < best_key.1) {
            best = n;
        }
        n += 1;
    }
    (best, matches[best])
}

/// The differ of the words of a hunk.
pub struct WordDiffer<'a> {
    pub parent: &'a BlockMaker,
    /// For each word of the right side, whether a run may hold it as a word that
    /// was found again: indentation may not.
    pub anchors: Vec<bool>,
    /// For each line of the left side, the line of the right side that the first
    /// run found on it lies on.
    pub matched_left: Vec<Option<usize>>,
    /// The same for each line of the right side.
    pub matched_right: Vec<Option<usize>>,
}

impl<'a> WordDiffer<'a> {
    /// The tokens of the words of side `i`.
    pub open spec fn toks(&self, i: int) -> Seq<Token> {
        self.parent.side(i).tokens@
    }

    /// The anchors are the words of the right side that are no indentation, and the memo has a cell for each line.
    pub open spec fn wf(&self) -> bool {
        &&& self.parent.wf()
        &&& self.anchors@.len() == self.parent.nwords(1)
        &&& forall|j: int|
            0 <= j < self.anchors@.len() ==> #[trigger] self.anchors@[j] == !indent(self.toks(1), j)
        &&& self.matched_left@.len() == self.parent.nlines(0)
        &&& self.matched_right@.len() == self.parent.nlines(1)
    }

    /// A differ over the words of `parent` that has matched no line yet.
    pub fn new(parent: &'a BlockMaker) -> (r: WordDiffer<'a>)
        requires
            parent.wf(),
        ensures
            r.wf(),
            r.parent == parent,
            forall|l: int| 0 <= l < r.matched_left@.len() ==> (#[trigger] r.matched_left@[l]).is_none(),
            forall|l: int| 0 <= l < r.matched_right@.len() ==> (#[trigger] r.matched_right@[l]).is_none(),
    {
        let tokens = &parent.sides.right.tokens;
        let mut anchors: Vec<bool> = Vec::new();
        let mut line_start = true;
        let mut j: usize = 0;
        while j < tokens.len()
            invariant
                *tokens == parent.side(1).tokens,
                j <= tokens@.len(),
                anchors@.len() == j,
                forall|x: int| 0 <= x < j ==> #[trigger] anchors@[x] == !indent(tokens@, x),
                line_start == (j == 0 || tokens@[j - 1].is_newline() || indent(tokens@, j - 1)),
            decreases tokens@.len() - j,
        {
            let tok = tokens[j];
            if !(line_start && tok.is_ascii_whitespace()) {
                anchors.push(true);
                line_start = tok.0 == Token::NEWLINE;
            } else {
                anchors.push(false);
            }
            j += 1;
        }
        let mut matched_left: Vec<Option<usize>> = Vec::new();
        let mut l: usize = 0;
        while l < parent.line_count(0)
            invariant
                parent.wf(),
                l <= parent.nlines(0),
                matched_left@.len() == l,
                forall|x: int| 0 <= x < l ==> (#[trigger] matched_left@[x]).is_none(),
            decreases parent.nlines(0) - l,
        {
            matched_left.push(None);
            l += 1;
        }
        let mut matched_right: Vec<Option<usize>> = Vec::new();
        let mut l: usize = 0;
        while l < parent.line_count(1)
            invariant
                parent.wf(),
                l <= parent.nlines(1),
                matched_right@.len() == l,
                forall|x: int| 0 <= x < l ==> (#[trigger] matched_right@[x]).is_none(),
            decreases parent.nlines(1) - l,
        {
            matched_right.push(None);
            l += 1;
        }
        WordDiffer { parent, anchors, matched_left, matched_right }
    }

    /// Lengthens the run `(i, j, k)` to the front over blanks and the newlines of
    /// empty lines, and to the back over a newline and over blanks within a line,
    /// as far as both sides agree and the two ranges reach.
    pub fn extend_match(
        &self,
        run: (usize, usize, usize),
        alo: usize,
        ahi: usize,
        blo: usize,
        bhi: usize,
    ) -> (r: (usize, usize, usize))
        requires
            self.parent.wf(),
            run.2 >= 1,
            alo <= run.0,
            run.0 + run.2 <= ahi <= self.parent.nwords(0),
            blo <= run.1,
            run.1 + run.2 <= bhi <= self.parent.nwords(1),
        ensures
            alo <= r.0 <= run.0,
            blo <= r.1 <= run.1,
            run.0 - r.0 == run.1 - r.1,
            run.0 + run.2 <= r.0 + r.2 <= ahi,
            r.1 + r.2 <= bhi,
            forall|t: int|
                r.0 < t <= run.0 ==> back_ok(
                    self.toks(0),
                    self.toks(1),
                    alo as int,
                    blo as int,
                    t,
                    #[trigger] (t - run.0 + run.1),
                ),
            !back_ok(self.toks(0), self.toks(1), alo as int, blo as int, r.0 as int, r.1 as int),
            forall|t: int|
                run.0 + run.2 <= t < r.0 + r.2 ==> forth_ok(
                    self.toks(0),
                    self.toks(1),
                    ahi as int,
                    bhi as int,
                    t,
                    #[trigger] (t - run.0 + run.1),
                ),
            !forth_ok(
                self.toks(0),
                self.toks(1),
                ahi as int,
                bhi as int,
                r.0 + r.2,
                r.1 + r.2,
            ),
            r == extended(self.parent, run, alo as int, ahi as int, blo as int, bhi as int),
    {
        let left = &self.parent.sides.left.tokens;
        let right = &self.parent.sides.right.tokens;
        let (mut i, mut j, mut k) = run;
        let ghost a = self.toks(0);
        let ghost b = self.toks(1);
        while i > alo && j > blo && left[i - 1] == right[j - 1] && (isjunk(left[i - 1]) || (left[i
            - 1].0 == Token::NEWLINE && i >= 2 && left[i - 2].0 == Token::NEWLINE && j >= 2 && right[j
            - 2].0 == Token::NEWLINE))
            invariant
                self.parent.wf(),
                *left == self.parent.side(0).tokens,
                *right == self.parent.side(1).tokens,
                alo <= i <= run.0,
                blo <= j <= run.1,
                run.0 - i == run.1 - j,
                i + k == run.0 + run.2,
                run.0 + run.2 <= ahi <= self.parent.nwords(0),
                run.1 + run.2 <= bhi <= self.parent.nwords(1),
                forall|t: int|
                    i < t <= run.0 ==> back_ok(
                        self.toks(0),
                        self.toks(1),
                        alo as int,
                        blo as int,
                        t,
                        #[trigger] (t - run.0 + run.1),
                    ),
                a == self.toks(0),
                b == self.toks(1),
                back_steps(a, b, alo as int, blo as int, run.0 as int, run.1 as int) == (run.0 - i) + back_steps(
                    a,
                    b,
                    alo as int,
                    blo as int,
                    i as int,
                    j as int,
                ),
            decreases i,
        {
            i -= 1;
            j -= 1;
            k += 1;
        }
        let ghost k0 = k;
        assert(back_steps(a, b, alo as int, blo as int, i as int, j as int) == 0);
        while i + k < ahi && j + k < bhi && left[i + k] == right[j + k] && (left[i + k].0
            == Token::NEWLINE || (left[i + k - 1].0 != Token::NEWLINE && isjunk(left[i + k])))
            invariant
                self.parent.wf(),
                *left == self.parent.side(0).tokens,
                *right == self.parent.side(1).tokens,
                run.0 - i == run.1 - j,
                k >= 1,
                k0 <= k,
                i + k0 == run.0 + run.2,
                i + k <= ahi <= self.parent.nwords(0),
                j + k <= bhi <= self.parent.nwords(1),
                forall|t: int|
                    run.0 + run.2 <= t < i + k ==> forth_ok(
                        self.toks(0),
                        self.toks(1),
                        ahi as int,
                        bhi as int,
                        t,
                        #[trigger] (t - run.0 + run.1),
                    ),
                a == self.toks(0),
                b == self.toks(1),
                forth_steps(a, b, ahi as int, bhi as int, run.0 + run.2, run.1 + run.2) == (k - k0) + forth_steps(
                    a,
                    b,
                    ahi as int,
                    bhi as int,
                    i + k,
                    j + k,
                ),
            decreases ahi - (i + k),
        {
            k += 1;
        }
        assert(forth_steps(a, b, ahi as int, bhi as int, i + k, j + k) == 0);
        (i, j, k)
    }

    /// The run `m` lies within the two ranges, holds the same tokens on both sides
    /// and at least one, and its lengths are those of the run.
    pub open spec fn valid_match(&self, m: DiffMatch, alo: int, ahi: int, blo: int, bhi: int) -> bool {
        valid_run(self.parent, m, alo, ahi, blo, bhi)
    }

    /// A run that is weighed ends with word `i` of the left side and word `j` of
    /// the right: see `ends_run`.
    pub open spec fn anchor_at(&self, alo: int, blo: int, i: int, j: int) -> bool {
        ends_run(self.parent, alo, blo, i, j)
    }

    /// Some word of the left range that is not blank occurs in the right range
    /// where it is not indentation, and the run that ends with it does not begin
    /// with a newline.
    pub open spec fn has_anchor(&self, alo: int, ahi: int, blo: int, bhi: int) -> bool {
        exists|i: int, j: int| alo <= i < ahi && blo <= j < bhi && #[trigger] self.anchor_at(alo, blo, i, j)
    }

    /// The lines that are held as matched with each other.
    pub open spec fn memo(&self) -> Memo {
        Memo { left: self.matched_left@, right: self.matched_right@ }
    }

    fn line_dist(&self, line_a: usize, line_b: usize, first_a: usize, first_b: usize) -> (r: (
        usize,
        bool,
    ))
        requires
            self.wf(),
            first_a <= line_a < self.parent.nlines(0),
            first_b <= line_b < self.parent.nlines(1),
        ensures
            (r.0 as int, r.1) == line_dist_of(
                self.memo(),
                line_a as int,
                line_b as int,
                first_a as int,
                first_b as int,
            ),
    {
        match self.matched_left[line_a] {
            Some(expected) => (gap(expected, line_b), true),
            None => match self.matched_right[line_b] {
                Some(expected) => (gap(expected, line_a), true),
                None => (gap(line_a - first_a, line_b - first_b), false),
            },
        }
    }

    /// The run of `k` equal words that ends with word `i` of the left side and
    /// word `j` of the right.
    fn candidate(
        &self,
        i: usize,
        j: usize,
        k: usize,
        first_a: usize,
        first_b: usize,
        Ghost(alo): Ghost<int>,
        Ghost(blo): Ghost<int>,
    ) -> (m: DiffMatch)
        requires
            self.wf(),
            1 <= k <= i + 1,
            k <= j + 1,
            i < self.parent.nwords(0),
            j < self.parent.nwords(1),
            first_a == self.parent.line_of(0, alo),
            first_b == self.parent.line_of(1, blo),
            first_a <= self.parent.line_of(0, i as int),
            first_b <= self.parent.line_of(1, j + 1 - k),
            common_run(self.toks(0), self.toks(1), i + 1 - k, i + 1, j + 1 - k, j + 1, i + 1 - k, j + 1 - k, k as int),
            !self.toks(0)[i + 1 - k].is_newline(),
        ensures
            m.left == i + 1 - k,
            m.right == j + 1 - k,
            m.length == k,
            self.valid_match(m, m.left as int, i + 1, m.right as int, j + 1),
            m == candidate_of(self.parent, self.memo(), i as int, j as int, k as int, alo, blo),
    {
        let right = &self.parent.sides.right.tokens;
        let words = &self.parent.sides.left.words;
        let i0 = i + 1 - k;
        let j0 = j + 1 - k;
        let mut lead: usize = 0;
        while lead < k && isjunk(right[j0 + lead])
            invariant
                self.wf(),
                *right == self.parent.side(1).tokens,
                j0 + k <= right@.len(),
                lead <= k,
                blanks_from(right@, j0 as int, k as int) == lead + blanks_from(right@, j0 + lead, k - lead),
            decreases k - lead,
        {
            lead += 1;
        }
        let mut trail: usize = 0;
        while trail < k - lead && isjunk(right[j0 + k - 1 - trail])
            invariant
                self.wf(),
                *right == self.parent.side(1).tokens,
                j0 + k <= right@.len(),
                lead <= k,
                trail <= k - lead,
                blanks_before(right@, j0 + k, k - lead) == trail + blanks_before(
                    right@,
                    j0 + k - trail,
                    k - lead - trail,
                ),
            decreases k - lead - trail,
        {
            trail += 1;
        }
        let mut bytes: usize = 0;
        let mut w: usize = i0 + lead;
        let end = i0 + k - trail;
        while w < end
            invariant
                self.wf(),
                *words == self.parent.side(0).words,
                i0 + lead <= w <= end <= words@.len(),
                bytes == capped(total_bytes(views(words@), i0 + lead, w as int)),
            decreases end - w,
        {
            bytes = bytes.saturating_add(words[w].len());
            w += 1;
        }
        let line_a = self.parent.line_index(0, i);
        let line_b = self.parent.line_index(1, j0);
        let (lineno_dist, lineno_dist_strong) = self.line_dist(line_a, line_b, first_a, first_b);
        let m = DiffMatch {
            left: i0,
            right: j0,
            length: k,
            lineno_dist,
            lineno_dist_strong,
            non_ws_length: k - lead - trail,
            char_length: bytes,
        };
        proof {
            assert(self.parent.side(1).tokens@ == right@);
            assert(self.parent.side(0).word_seq() == views(words@));
            assert(lead == blanks_from(right@, j0 as int, k as int));
            assert(trail == blanks_before(right@, j0 + k, k - lead));
            assert(measured(self.parent, m)) by {
                reveal(measured);
            }
        }
        m
    }

    /// The runs of equal words of the two ranges that end in a word that is not
    /// blank and do not begin with a newline, as far as none found before or
    /// after is longer without its blanks.
    fn scan(&self, alo: usize, ahi: usize, blo: usize, bhi: usize) -> (matches: Vec<DiffMatch>)
        requires
            self.wf(),
            alo <= ahi <= self.parent.nwords(0),
            blo <= bhi <= self.parent.nwords(1),
        ensures
            all_valid(self.parent, matches@, alo as int, ahi as int, blo as int, bhi as int),
            forall|n: int, n2: int|
                0 <= n < matches@.len() && 0 <= n2 < matches@.len() ==> (#[trigger] matches@[n]).non_ws_length
                    == (#[trigger] matches@[n2]).non_ws_length,
            (matches@.len() > 0) == self.has_anchor(alo as int, ahi as int, blo as int, bhi as int),
            matches@ == scan_spec(self.parent, self.memo(), alo as int, ahi as int, blo as int, bhi as int),
    {
        let left = &self.parent.sides.left.tokens;
        let right = &self.parent.sides.right.tokens;
        let ghost a = left@;
        let ghost b = right@;
        let mut best_non_ws: usize = 0;
        let mut matches: Vec<DiffMatch> = Vec::new();
        let first_a = self.parent.line_index(0, alo);
        let first_b = self.parent.line_index(1, blo);
        let mut j2len: Vec<usize> = vec![0usize; right.len()];
        let mut newj2len: Vec<usize> = vec![0usize; right.len()];
        let mut i: usize = alo;
        while i < ahi
            invariant
                self.wf(),
                a == self.toks(0),
                b == self.toks(1),
                a == left@,
                b == right@,
                alo <= i <= ahi <= a.len(),
                blo <= bhi <= b.len(),
                first_a == self.parent.line_of(0, alo as int),
                first_b == self.parent.line_of(1, blo as int),
                j2len@.len() == b.len(),
                newj2len@.len() == b.len(),
                forall|c: int|
                    blo <= c < bhi ==> #[trigger] j2len@[c] <= suffix_len(a, b, alo as int, blo as int, i - 1, c),
                forall|c: int|
                    blo <= c < bhi ==> #[trigger] j2len@[c] == run_after(self.parent, alo as int, blo as int, i - 1, c),
                forall|c: int| 0 <= c < blo ==> #[trigger] j2len@[c] == 0,
                forall|c: int| 0 <= c < blo ==> #[trigger] newj2len@[c] == 0,
                forall|n: int|
                    0 <= n < matches@.len() ==> self.valid_match(
                        #[trigger] matches@[n],
                        alo as int,
                        ahi as int,
                        blo as int,
                        bhi as int,
                    ) && matches@[n].non_ws_length == best_non_ws,
                best_non_ws > 0 ==> matches@.len() > 0,
                matches@.len() > 0 ==> self.has_anchor(alo as int, ahi as int, blo as int, bhi as int),
                matches@.len() == 0 ==> forall|r: int, c: int|
                    alo <= r < i && blo <= c < bhi ==> !#[trigger] self.anchor_at(alo as int, blo as int, r, c),
                (matches@, best_non_ws) == scan_to(self.parent, self.memo(), alo as int, blo as int, bhi as int, i as int, blo as int),
            decreases ahi - i,
        {
            let tok = left[i];
            let junk = isjunk(tok);
            let mut j: usize = blo;
            while j < bhi
                invariant
                    self.wf(),
                    a == self.toks(0),
                    b == self.toks(1),
                    a == left@,
                    b == right@,
                    tok == a[i as int],
                    junk == tok.is_blank(),
                    alo <= i < ahi <= a.len(),
                    blo <= j <= bhi <= b.len(),
                    first_a == self.parent.line_of(0, alo as int),
                    first_b == self.parent.line_of(1, blo as int),
                    j2len@.len() == b.len(),
                    newj2len@.len() == b.len(),
                    forall|c: int|
                        blo <= c < bhi ==> #[trigger] j2len@[c] <= suffix_len(a, b, alo as int, blo as int, i - 1, c),
                    forall|c: int|
                        blo <= c < bhi ==> #[trigger] j2len@[c] == run_after(self.parent, alo as int, blo as int, i - 1, c),
                    forall|c: int| 0 <= c < blo ==> #[trigger] j2len@[c] == 0,
                    forall|c: int| 0 <= c < blo ==> #[trigger] newj2len@[c] == 0,
                    forall|c: int|
                        blo <= c < j ==> #[trigger] newj2len@[c] <= suffix_len(a, b, alo as int, blo as int, i as int, c),
                    forall|c: int|
                        blo <= c < j ==> #[trigger] newj2len@[c] == run_after(self.parent, alo as int, blo as int, i as int, c),
                    (matches@, best_non_ws) == scan_to(self.parent, self.memo(), alo as int, blo as int, bhi as int, i as int, j as int),
                    forall|n: int|
                        0 <= n < matches@.len() ==> self.valid_match(
                            #[trigger] matches@[n],
                            alo as int,
                            ahi as int,
                            blo as int,
                            bhi as int,
                        ) && matches@[n].non_ws_length == best_non_ws,
                    best_non_ws > 0 ==> matches@.len() > 0,
                    matches@.len() > 0 ==> self.has_anchor(alo as int, ahi as int, blo as int, bhi as int),
                    matches@.len() == 0 ==> forall|r: int, c: int|
                        ((alo <= r < i && blo <= c < bhi) || (r == i && blo <= c < j)) ==> !#[trigger] self.anchor_at(alo as int, blo as int, r, c),
                decreases bhi - j,
            {
                if right[j] == tok && self.anchors[j] {
                    let prev: usize = if j == 0 {
                        0
                    } else {
                        j2len[j - 1]
                    };
                    proof {
                        lemma_suffix_is_run(a, b, alo as int, blo as int, i as int, j as int);
                        lemma_suffix_is_run(a, b, alo as int, blo as int, i - 1, j - 1);
                        assert(prev <= suffix_len(a, b, alo as int, blo as int, i - 1, j - 1));
                    }
                    let k: usize = prev + 1;
                    proof {
                        assert(agrees(self.parent, i as int, j as int));
                        assert(prev == run_after(self.parent, alo as int, blo as int, i - 1, j - 1));
                        assert(k == cell_run(self.parent, alo as int, blo as int, i as int, j as int));
                    }
                    newj2len[j] = if tok.0 == Token::NEWLINE {
                        0
                    } else {
                        k
                    };
                    if !junk && !(tok.0 == Token::NEWLINE && k == 1) {
                        proof {
                            lemma_run_start(self.parent, alo as int, blo as int, i - 1, j - 1);
                            let s = suffix_len(a, b, alo as int, blo as int, i as int, j as int);
                            let i0 = i + 1 - k;
                            let j0 = j + 1 - k;
                            assert forall|t: int| 0 <= t < k implies #[trigger] a[i0 + t] == b[j0 + t] by {
                                assert(a[i - s + 1 + (s - k + t)] == b[j - s + 1 + (s - k + t)]);
                            }
                            assert(common_run(a, b, i0, i + 1, j0, j + 1, i0, j0, k as int));
                            self.parent.lemma_line_monotone(0, alo as int, i as int);
                            self.parent.lemma_line_monotone(1, blo as int, j + 1 - k);
                            assert(self.anchor_at(alo as int, blo as int, i as int, j as int));
                        }
                        let m = self.candidate(i, j, k, first_a, first_b, Ghost(alo as int), Ghost(blo as int));
                        if m.non_ws_length >= best_non_ws {
                            if m.non_ws_length > best_non_ws {
                                matches.clear();
                            }
                            best_non_ws = m.non_ws_length;
                            matches.push(m);
                        }
                    }
                } else {
                    newj2len[j] = 0;
                    assert(!agrees(self.parent, i as int, j as int));
                }
                j += 1;
            }
            let tmp = j2len;
            j2len = newj2len;
            newj2len = tmp;
            i += 1;
        }
        matches
    }

    /// The later differ has the parent and the anchors of this one, and every line
    /// that this one holds as matched is held by the later one with the same line.
    pub open spec fn memo_kept(&self, later: &WordDiffer<'a>) -> bool {
        &&& later.parent == self.parent
        &&& later.anchors == self.anchors
        &&& later.matched_left@.len() == self.matched_left@.len()
        &&& later.matched_right@.len() == self.matched_right@.len()
        &&& forall|l: int|
            0 <= l < self.matched_left@.len() && (#[trigger] self.matched_left@[l]).is_some()
                ==> later.matched_left@[l] == self.matched_left@[l]
        &&& forall|l: int|
            0 <= l < self.matched_right@.len() && (#[trigger] self.matched_right@[l]).is_some()
                ==> later.matched_right@[l] == self.matched_right@[l]
    }

    /// The runs of `matches` that alone begin where they begin.
    fn lone_starts(matches: &Vec<DiffMatch>) -> (r: Vec<DiffMatch>)
        ensures
            r@ == matches@.filter(|m: DiffMatch| lone(matches@, m)),
    {
        let mut keep: Vec<bool> = Vec::new();
        let mut x: usize = 0;
        while x < matches.len()
            invariant
                x <= matches@.len(),
                keep@.len() == x,
                forall|y: int| 0 <= y < x ==> #[trigger] keep@[y] == lone(matches@, matches@[y]),
            decreases matches@.len() - x,
        {
            let m = matches[x];
            let mut alone = true;
            let mut n: usize = 0;
            while n < matches.len()
                invariant
                    n <= matches@.len(),
                    x < matches@.len(),
                    m == matches@[x as int],
                    alone == (forall|y: int|
                        0 <= y < n && y != x ==> (#[trigger] matches@[y]).left != m.left && matches@[y].right
                            != m.right),
                decreases matches@.len() - n,
            {
                if n != x && (matches[n].left == m.left || matches[n].right == m.right) {
                    alone = false;
                }
                n += 1;
            }
            proof {
                if alone {
                    assert forall|n: int, n2: int| 0 <= n < n2 < matches@.len() implies !((
                    #[trigger] matches@[n]).left == m.left && (#[trigger] matches@[n2]).left == m.left)
                        && !(matches@[n].right == m.right && matches@[n2].right == m.right) by {
                        if n != x {
                            assert(matches@[n].left != m.left && matches@[n].right != m.right);
                        }
                        if n2 != x {
                            assert(matches@[n2].left != m.left && matches@[n2].right != m.right);
                        }
                    }
                } else {
                    let y = choose|y: int|
                        0 <= y < matches@.len() && y != x && !((#[trigger] matches@[y]).left != m.left
                            && matches@[y].right != m.right);
                    if y < x {
                        assert(!(!((#[trigger] matches@[y]).left == m.left && (
                        #[trigger] matches@[x as int]).left == m.left) && !(matches@[y].right == m.right
                            && matches@[x as int].right == m.right)));
                    } else {
                        assert(!(!((#[trigger] matches@[x as int]).left == m.left && (
                        #[trigger] matches@[y]).left == m.left) && !(matches@[x as int].right == m.right
                            && matches@[y].right == m.right)));
                    }
                }
            }
            keep.push(alone);
            x += 1;
        }
        select(matches, &keep, Ghost(|m: DiffMatch| lone(matches@, m)))
    }

    /// The runs of `matches` that lie on the line that was expected of them.
    fn exact_lines(matches: &Vec<DiffMatch>) -> (r: Vec<DiffMatch>)
        ensures
            r@ == matches@.filter(|m: DiffMatch| on_expected_line(m)),
    {
        let mut keep: Vec<bool> = Vec::new();
        let mut x: usize = 0;
        while x < matches.len()
            invariant
                x <= matches@.len(),
                keep@.len() == x,
                forall|y: int| 0 <= y < x ==> #[trigger] keep@[y] == on_expected_line(matches@[y]),
            decreases matches@.len() - x,
        {
            keep.push(matches[x].lineno_dist_strong && matches[x].lineno_dist == 0);
            x += 1;
        }
        select(matches, &keep, Ghost(|m: DiffMatch| on_expected_line(m)))
    }

    /// The runs of `matches` that are longest without their blanks.
    fn longest_only(matches: &Vec<DiffMatch>) -> (r: (Vec<DiffMatch>, usize))
        requires
            matches@.len() > 0,
        ensures
            r.0@.len() > 0,
            forall|n: int| 0 <= n < matches@.len() ==> (#[trigger] matches@[n]).non_ws_length <= r.1,
            r.0@ == matches@.filter(|m: DiffMatch| m.non_ws_length == r.1),
            r.1 == top_length(matches@, matches@.len() as int),
            r.0@ == longest_of(matches@),
    {
        let mut top: usize = 0;
        let mut at: usize = 0;
        let mut x: usize = 0;
        while x < matches.len()
            invariant
                x <= matches@.len(),
                at < matches@.len(),
                forall|y: int| 0 <= y < x ==> (#[trigger] matches@[y]).non_ws_length <= top,
                x > 0 ==> matches@[at as int].non_ws_length == top,
                x > 0 ==> top == top_length(matches@, x as int),
            decreases matches@.len() - x,
        {
            if x == 0 || matches[x].non_ws_length > top {
                top = matches[x].non_ws_length;
                at = x;
            }
            x += 1;
        }
        let mut keep: Vec<bool> = Vec::new();
        let mut x: usize = 0;
        while x < matches.len()
            invariant
                x <= matches@.len(),
                keep@.len() == x,
                forall|y: int| 0 <= y < x ==> #[trigger] keep@[y] == (matches@[y].non_ws_length == top),
            decreases matches@.len() - x,
        {
            keep.push(matches[x].non_ws_length == top);
            x += 1;
        }
        let r = select(matches, &keep, Ghost(|m: DiffMatch| m.non_ws_length == top));
        proof {
            lemma_filter_from(matches@, |m: DiffMatch| m.non_ws_length == top);
            assert(matches@[at as int].non_ws_length == top);
        }
        (r, top)
    }

    /// Where the runs of `matches` begin first and end last, on both sides.
    fn extent(matches: &Vec<DiffMatch>) -> (r: (usize, usize, usize, usize))
        requires
            matches@.len() > 0,
            forall|n: int|
                0 <= n < matches@.len() ==> (#[trigger] matches@[n]).left + matches@[n].length <= usize::MAX
                    && matches@[n].right + matches@[n].length <= usize::MAX,
        ensures
            forall|n: int|
                0 <= n < matches@.len() ==> {
                    let m = #[trigger] matches@[n];
                    r.0 <= m.left && m.left + m.length <= r.1 && r.2 <= m.right && m.right + m.length
                        <= r.3
                },
            exists|n: int| 0 <= n < matches@.len() && (#[trigger] matches@[n]).left == r.0,
            exists|n: int| 0 <= n < matches@.len() && (#[trigger] matches@[n]).left + matches@[n].length == r.1,
            exists|n: int| 0 <= n < matches@.len() && (#[trigger] matches@[n]).right == r.2,
            exists|n: int| 0 <= n < matches@.len() && (#[trigger] matches@[n]).right + matches@[n].length == r.3,
            r.0 == min_left(matches@, matches@.len() as int),
            r.1 == max_left(matches@, matches@.len() as int),
            r.2 == min_right(matches@, matches@.len() as int),
            r.3 == max_right(matches@, matches@.len() as int),
    {
        let first = matches[0];
        let mut mini = first.left;
        let mut maxi = first.left + first.length;
        let mut minj = first.right;
        let mut maxj = first.right + first.length;
        let mut x: usize = 1;
        while x < matches.len()
            invariant
                1 <= x <= matches@.len(),
                forall|n: int|
                    0 <= n < matches@.len() ==> (#[trigger] matches@[n]).left + matches@[n].length
                        <= usize::MAX && matches@[n].right + matches@[n].length <= usize::MAX,
                forall|n: int|
                    0 <= n < x ==> {
                        let m = #[trigger] matches@[n];
                        mini <= m.left && m.left + m.length <= maxi && minj <= m.right && m.right
                            + m.length <= maxj
                    },
                exists|n: int| 0 <= n < x && (#[trigger] matches@[n]).left == mini,
                exists|n: int| 0 <= n < x && (#[trigger] matches@[n]).left + matches@[n].length == maxi,
                exists|n: int| 0 <= n < x && (#[trigger] matches@[n]).right == minj,
                exists|n: int| 0 <= n < x && (#[trigger] matches@[n]).right + matches@[n].length == maxj,
                mini == min_left(matches@, x as int),
                maxi == max_left(matches@, x as int),
                minj == min_right(matches@, x as int),
                maxj == max_right(matches@, x as int),
            decreases matches@.len() - x,
        {
            let m = matches[x];
            if m.left < mini {
                mini = m.left;
            }
            if m.left + m.length > maxi {
                maxi = m.left + m.length;
            }
            if m.right < minj {
                minj = m.right;
            }
            if m.right + m.length > maxj {
                maxj = m.right + m.length;
            }
            x += 1;
        }
        (mini, maxi, minj, maxj)
    }

    /// Whether all runs begin at one place on the left side, and whether on the right.
    fn single_starts(matches: &Vec<DiffMatch>) -> (r: (bool, bool))
        requires
            matches@.len() > 0,
        ensures
            r.0 == one_left(matches@),
            r.1 == one_right(matches@),
    {
        let mut left = true;
        let mut right = true;
        let mut x: usize = 0;
        while x < matches.len()
            invariant
                x <= matches@.len(),
                matches@.len() > 0,
                left == (forall|n: int| 0 <= n < x ==> (#[trigger] matches@[n]).left == matches@[0].left),
                right == (forall|n: int| 0 <= n < x ==> (#[trigger] matches@[n]).right == matches@[0].right),
            decreases matches@.len() - x,
        {
            if matches[x].left != matches[0].left {
                left = false;
            }
            if matches[x].right != matches[0].right {
                right = false;
            }
            x += 1;
        }
        (left, right)
    }

    /// The best runs of the ranges that lie between the runs of `matches`, on the
    /// left side and on the right: those that lie before `hi` or after `lo` and
    /// are more than a newline.
    fn search_between(
        &mut self,
        matches: &Vec<DiffMatch>,
        alo: usize,
        ahi: usize,
        blo: usize,
        bhi: usize,
        lo: (usize, usize),
        hi: (usize, usize),
    ) -> (found: Vec<DiffMatch>)
        requires
            old(self).wf(),
            alo <= ahi <= old(self).parent.nwords(0),
            blo <= bhi <= old(self).parent.nwords(1),
            matches@.len() > 0,
            all_valid(old(self).parent, matches@, alo as int, ahi as int, blo as int, bhi as int),
        ensures
            final(self).wf(),
            old(self).memo_kept(final(self)),
            final(self).matched_left == old(self).matched_left,
            final(self).matched_right == old(self).matched_right,
            all_valid(final(self).parent, found@, alo as int, ahi as int, blo as int, bhi as int),
            found@ == search_to(
                old(self).parent,
                old(self).memo(),
                matches@,
                alo as int,
                ahi as int,
                blo as int,
                bhi as int,
                (lo.0 as int, lo.1 as int),
                (hi.0 as int, hi.1 as int),
                matches@.len() as int + 1,
                0,
            ),
        decreases (ahi - alo) + (bhi - blo), 1int, 0int, 0int,
    {
        let ghost bm = self.parent;
        let ghost memo = self.memo();
        let ghost ms = matches@;
        let ghost lo2 = (lo.0 as int, lo.1 as int);
        let ghost hi2 = (hi.0 as int, hi.1 as int);
        let count = matches.len();
        let mut found: Vec<DiffMatch> = Vec::new();
        let mut x: usize = 0;
        let mut rows_done = false;
        while !rows_done
            invariant
                self.wf(),
                self.parent == bm,
                old(self).parent == bm,
                old(self).memo_kept(self),
                self.matched_left == old(self).matched_left,
                self.matched_right == old(self).matched_right,
                memo == self.memo(),
                ms == matches@,
                lo2 == (lo.0 as int, lo.1 as int),
                hi2 == (hi.0 as int, hi.1 as int),
                alo <= ahi <= bm.nwords(0),
                blo <= bhi <= bm.nwords(1),
                count == matches@.len(),
                count > 0,
                x <= count,
                rows_done ==> x == count,
                all_valid(bm, ms, alo as int, ahi as int, blo as int, bhi as int),
                all_valid(bm, found@, alo as int, ahi as int, blo as int, bhi as int),
                found@ == search_to(bm, memo, ms, alo as int, ahi as int, blo as int, bhi as int, lo2, hi2, if rows_done {
                    count + 1
                } else {
                    x as int
                }, 0),
            decreases count - x + if rows_done {
                0int
            } else {
                1int
            },
        {
            let sub_alo = if x == 0 {
                alo
            } else {
                assert(valid_run(bm, matches@[x - 1], alo as int, ahi as int, blo as int, bhi as int));
                matches[x - 1].left + matches[x - 1].length
            };
            let sub_ahi = if x == count {
                ahi
            } else {
                assert(valid_run(bm, matches@[x as int], alo as int, ahi as int, blo as int, bhi as int));
                matches[x].left
            };
            assert(sub_alo == between_from(ms, x as int, alo as int));
            assert(sub_ahi == between_to(ms, x as int, ahi as int));
            assert(found@ == search_to(bm, memo, ms, alo as int, ahi as int, blo as int, bhi as int, lo2, hi2, x as int, 0));
            if sub_alo < sub_ahi {
                found = self.search_row(matches, found, alo, ahi, blo, bhi, lo, hi, x, sub_alo, sub_ahi);
            } else {
                proof {
                    lemma_row_skipped(bm, memo, ms, alo as int, ahi as int, blo as int, bhi as int, lo2, hi2, x as int, count + 1);
                }
            }
            proof {
                assert(found@ == search_to(bm, memo, ms, alo as int, ahi as int, blo as int, bhi as int, lo2, hi2, x as int, count + 1));
                assert(search_to(bm, memo, ms, alo as int, ahi as int, blo as int, bhi as int, lo2, hi2, x + 1, 0)
                    == search_to(bm, memo, ms, alo as int, ahi as int, blo as int, bhi as int, lo2, hi2, x as int, count + 1));
            }
            if x == count {
                rows_done = true;
            } else {
                x += 1;
            }
        }
        found
    }

    /// The search of `search_between` for one range of the left side.
    fn search_row(
        &mut self,
        matches: &Vec<DiffMatch>,
        start: Vec<DiffMatch>,
        alo: usize,
        ahi: usize,
        blo: usize,
        bhi: usize,
        lo: (usize, usize),
        hi: (usize, usize),
        x: usize,
        sub_alo: usize,
        sub_ahi: usize,
    ) -> (found: Vec<DiffMatch>)
        requires
            old(self).wf(),
            alo <= sub_alo < sub_ahi <= ahi <= old(self).parent.nwords(0),
            (ahi - alo) > (sub_ahi - sub_alo),
            blo <= bhi <= old(self).parent.nwords(1),
            matches@.len() > 0,
            x <= matches@.len(),
            sub_alo == between_from(matches@, x as int, alo as int),
            sub_ahi == between_to(matches@, x as int, ahi as int),
            all_valid(old(self).parent, matches@, alo as int, ahi as int, blo as int, bhi as int),
            all_valid(old(self).parent, start@, alo as int, ahi as int, blo as int, bhi as int),
            start@ == search_to(
                old(self).parent,
                old(self).memo(),
                matches@,
                alo as int,
                ahi as int,
                blo as int,
                bhi as int,
                (lo.0 as int, lo.1 as int),
                (hi.0 as int, hi.1 as int),
                x as int,
                0,
            ),
        ensures
            final(self).wf(),
            old(self).memo_kept(final(self)),
            final(self).matched_left == old(self).matched_left,
            final(self).matched_right == old(self).matched_right,
            all_valid(final(self).parent, found@, alo as int, ahi as int, blo as int, bhi as int),
            found@ == search_to(
                old(self).parent,
                old(self).memo(),
                matches@,
                alo as int,
                ahi as int,
                blo as int,
                bhi as int,
                (lo.0 as int, lo.1 as int),
                (hi.0 as int, hi.1 as int),
                x as int,
                matches@.len() as int + 1,
            ),
        decreases (ahi - alo) + (bhi - blo), 0int, 1int, 0int,
    {
        let ghost bm = self.parent;
        let ghost memo = self.memo();
        let ghost ms = matches@;
        let ghost lo2 = (lo.0 as int, lo.1 as int);
        let ghost hi2 = (hi.0 as int, hi.1 as int);
        let count = matches.len();
        let mut found = start;
        let mut y: usize = 0;
        let mut done = false;
        while !done
            invariant
                self.wf(),
                self.parent == bm,
                old(self).parent == bm,
                old(self).memo_kept(self),
                self.matched_left == old(self).matched_left,
                self.matched_right == old(self).matched_right,
                memo == self.memo(),
                ms == matches@,
                lo2 == (lo.0 as int, lo.1 as int),
                hi2 == (hi.0 as int, hi.1 as int),
                alo <= sub_alo < sub_ahi <= ahi <= bm.nwords(0),
                (ahi - alo) > (sub_ahi - sub_alo),
                blo <= bhi <= bm.nwords(1),
                count == matches@.len(),
                count > 0,
                x <= count,
                y <= count,
                done ==> y == count,
                sub_alo == between_from(ms, x as int, alo as int),
                sub_ahi == between_to(ms, x as int, ahi as int),
                all_valid(bm, ms, alo as int, ahi as int, blo as int, bhi as int),
                all_valid(bm, found@, alo as int, ahi as int, blo as int, bhi as int),
                found@ == search_to(bm, memo, ms, alo as int, ahi as int, blo as int, bhi as int, lo2, hi2, x as int, if done {
                    count + 1
                } else {
                    y as int
                }),
            decreases count - y + if done {
                0int
            } else {
                1int
            },
        {
            let sub_blo = if y == 0 {
                blo
            } else {
                assert(valid_run(bm, matches@[y - 1], alo as int, ahi as int, blo as int, bhi as int));
                matches[y - 1].right + matches[y - 1].length
            };
            let sub_bhi = if y == count {
                bhi
            } else {
                assert(valid_run(bm, matches@[y as int], alo as int, ahi as int, blo as int, bhi as int));
                matches[y].right
            };
            assert(sub_blo == beside_from(ms, y as int, blo as int));
            assert(sub_bhi == beside_to(ms, y as int, bhi as int));
            let ghost before_all = found@;
            let ghost next = search_to(bm, memo, ms, alo as int, ahi as int, blo as int, bhi as int, lo2, hi2, x as int, y + 1);
            let ghost best = find_spec(bm, memo, sub_alo as int, sub_ahi as int, sub_blo as int, sub_bhi as int, false).1;
            proof {
                assert(before_all == search_to(bm, memo, ms, alo as int, ahi as int, blo as int, bhi as int, lo2, hi2, x as int, y as int));
                if sub_blo < sub_bhi {
                    assert(next == if best.is_some() && wanted(bm, best.unwrap(), lo2, hi2) {
                        before_all.push(best.unwrap())
                    } else {
                        before_all
                    });
                } else {
                    assert(next == before_all);
                }
            }
            if sub_blo < sub_bhi {
                match self.find_longest_match(sub_alo, sub_ahi, sub_blo, sub_bhi, false) {
                    Some(m) => {
                        proof {
                            lemma_valid_wider(
                                bm,
                                m,
                                alo as int,
                                ahi as int,
                                blo as int,
                                bhi as int,
                                sub_alo as int,
                                sub_ahi as int,
                                sub_blo as int,
                                sub_bhi as int,
                            );
                        }
                        if ((m.left < hi.0 && m.right < hi.1) || (m.left > lo.0 && m.right > lo.1))
                            && !self.bare_newline(m) {
                            let ghost before = found@;
                            found.push(m);
                            assert forall|n: int| 0 <= n < found@.len() implies valid_run(
                                bm,
                                #[trigger] found@[n],
                                alo as int,
                                ahi as int,
                                blo as int,
                                bhi as int,
                            ) by {
                                if n < before.len() {
                                    assert(found@[n] == before[n]);
                                }
                            }
                        }
                    },
                    None => {},
                }
            }
            assert(found@ == next);
            if y == count {
                done = true;
            } else {
                y += 1;
            }
        }
        found
    }

    /// Whether the run is one newline and no more.
    fn bare_newline(&self, m: DiffMatch) -> (r: bool)
        requires
            self.wf(),
            m.left < self.parent.nwords(0),
        ensures
            r == bare_newline(self.parent, m),
    {
        m.length == 1 && self.parent.sides.left.tokens[m.left].0 == Token::NEWLINE
    }

    /// Narrows several runs that are equally long: to those that alone begin where
    /// they begin; else to those on the line expected of them; else, where all
    /// begin at one place on one side, to the longest runs found between them;
    /// else hands back a run found before the first or after the last of them.
    /// With `None`, `matches` holds the runs to choose from.
    pub fn handle_multiple_matches(
        &mut self,
        matches: &mut Vec<DiffMatch>,
        alo: usize,
        ahi: usize,
        blo: usize,
        bhi: usize,
        write: bool,
    ) -> (r: Option<DiffMatch>)
        requires
            old(self).wf(),
            alo <= ahi <= old(self).parent.nwords(0),
            blo <= bhi <= old(self).parent.nwords(1),
            old(matches)@.len() > 0,
            all_valid(old(self).parent, old(matches)@, alo as int, ahi as int, blo as int, bhi as int),
        ensures
            final(self).wf(),
            old(self).memo_kept(final(self)),
            !write ==> final(self).matched_left == old(self).matched_left && final(self).matched_right
                == old(self).matched_right,
            match r {
                Some(m) => final(self).valid_match(m, alo as int, ahi as int, blo as int, bhi as int),
                None => final(matches)@.len() > 0 && all_valid(
                    final(self).parent,
                    final(matches)@,
                    alo as int,
                    ahi as int,
                    blo as int,
                    bhi as int,
                ),
            },
            (final(self).memo(), r, final(matches)@) == handle_spec(
                old(self).parent,
                old(self).memo(),
                old(matches)@,
                alo as int,
                ahi as int,
                blo as int,
                bhi as int,
                write,
            ),
        decreases (ahi - alo) + (bhi - blo), 2int, 0int, 0int,
    {
        let ghost bm = self.parent;
        let alone = Self::lone_starts(matches);
        if alone.len() > 0 {
            proof {
                lemma_filter_from(matches@, |m: DiffMatch| lone(matches@, m));
                lemma_kept_valid(bm, matches@, alone@, alo as int, ahi as int, blo as int, bhi as int);
            }
            *matches = alone;
            return None;
        }
        let exact = Self::exact_lines(matches);
        if exact.len() > 0 {
            proof {
                lemma_filter_from(matches@, |m: DiffMatch| on_expected_line(m));
                lemma_kept_valid(bm, matches@, exact@, alo as int, ahi as int, blo as int, bhi as int);
            }
            *matches = exact;
            return None;
        }
        assert forall|n: int| 0 <= n < matches@.len() implies (#[trigger] matches@[n]).left + matches@[n].length
            <= usize::MAX && matches@[n].right + matches@[n].length <= usize::MAX by {
            assert(valid_run(bm, matches@[n], alo as int, ahi as int, blo as int, bhi as int));
        }
        let (mini, maxi, minj, maxj) = Self::extent(matches);
        let (left_single, right_single) = Self::single_starts(matches);
        proof {
            let n0 = choose|n: int| 0 <= n < matches@.len() && (#[trigger] matches@[n]).left == mini;
            assert(valid_run(bm, matches@[n0], alo as int, ahi as int, blo as int, bhi as int));
            let n1 = choose|n: int|
                0 <= n < matches@.len() && (#[trigger] matches@[n]).left + matches@[n].length == maxi;
            assert(valid_run(bm, matches@[n1], alo as int, ahi as int, blo as int, bhi as int));
            let n2 = choose|n: int| 0 <= n < matches@.len() && (#[trigger] matches@[n]).right == minj;
            assert(valid_run(bm, matches@[n2], alo as int, ahi as int, blo as int, bhi as int));
            let n3 = choose|n: int|
                0 <= n < matches@.len() && (#[trigger] matches@[n]).right + matches@[n].length == maxj;
            assert(valid_run(bm, matches@[n3], alo as int, ahi as int, blo as int, bhi as int));
        }
        if left_single || right_single {
            let pivot = (matches[0].left, matches[0].right);
            let lo = if left_single {
                pivot
            } else {
                (mini, minj)
            };
            let hi = if left_single {
                pivot
            } else {
                (maxi, maxj)
            };
            let found = self.search_between(matches, alo, ahi, blo, bhi, lo, hi);
            if found.len() > 0 {
                let (longest, top) = Self::longest_only(&found);
                proof {
                    lemma_filter_from(found@, |m: DiffMatch| m.non_ws_length == top);
                    lemma_kept_valid(bm, found@, longest@, alo as int, ahi as int, blo as int, bhi as int);
                }
                *matches = longest;
                return None;
            }
        }
        if alo < mini && blo < minj {
            match self.find_longest_match(alo, mini, blo, minj, write) {
                Some(m) => {
                    if !self.bare_newline(m) {
                        proof {
                            lemma_valid_wider(bm, m, alo as int, ahi as int, blo as int, bhi as int, alo as int, mini as int, blo as int, minj as int);
                        }
                        return Some(m);
                    }
                },
                None => {},
            }
        }
        if maxi < ahi && maxj < bhi {
            match self.find_longest_match(maxi, ahi, maxj, bhi, write) {
                Some(m) => {
                    if !self.bare_newline(m) {
                        proof {
                            lemma_valid_wider(bm, m, alo as int, ahi as int, blo as int, bhi as int, maxi as int, ahi as int, maxj as int, bhi as int);
                        }
                        return Some(m);
                    }
                },
                None => {},
            }
        }
        None
    }

    /// The best run of equal words of the two ranges: the longest without its
    /// blanks; of several, the one that lies nearest to the line expected of it;
    /// of those, the one with the most bytes. With `write`, the lines of the run
    /// are held as matched with each other, unless they are held already.
    pub fn find_longest_match(&mut self, alo: usize, ahi: usize, blo: usize, bhi: usize, write: bool) -> (r:
        Option<DiffMatch>)
        requires
            old(self).wf(),
            alo <= ahi <= old(self).parent.nwords(0),
            blo <= bhi <= old(self).parent.nwords(1),
        ensures
            final(self).wf(),
            old(self).memo_kept(final(self)),
            !write ==> final(self).matched_left == old(self).matched_left && final(self).matched_right
                == old(self).matched_right,
            r.is_some() == old(self).has_anchor(alo as int, ahi as int, blo as int, bhi as int),
            match r {
                Some(m) => final(self).valid_match(m, alo as int, ahi as int, blo as int, bhi as int)
                    && !final(self).parent.tok(0, m.left as int).is_newline(),
                None => true,
            },
            (final(self).memo(), r) == find_spec(
                old(self).parent,
                old(self).memo(),
                alo as int,
                ahi as int,
                blo as int,
                bhi as int,
                write,
            ),
        decreases (ahi - alo) + (bhi - blo), 3int, 0int, 0int,
    {
        let mut matches = self.scan(alo, ahi, blo, bhi);
        if matches.len() == 0 {
            return None;
        }
        if matches.len() > 1 {
            let m = self.handle_multiple_matches(&mut matches, alo, ahi, blo, bhi, write);
            if m.is_some() {
                return m;
            }
        }
        let (_at, best) = pick_best(&matches);
        assert(valid_run(self.parent, best, alo as int, ahi as int, blo as int, bhi as int));
        if write {
            let left_line = self.parent.line_index(0, best.left);
            let right_line = self.parent.line_index(1, best.right);
            let ghost before = self.memo();
            if self.matched_left[left_line].is_none() {
                self.matched_left[left_line] = Some(right_line);
            }
            if self.matched_right[right_line].is_none() {
                self.matched_right[right_line] = Some(left_line);
            }
            assert(self.memo() == recorded(self.parent, before, best));
        }
        Some(best)
    }

    /// What is kept from one differ to a second and from that to a third is kept
    /// from the first to the third.
    pub proof fn lemma_memo_trans(&self, second: &WordDiffer<'a>, third: &WordDiffer<'a>)
        requires
            self.memo_kept(second),
            second.memo_kept(third),
        ensures
            self.memo_kept(third),
    {
        assert forall|l: int|
            0 <= l < self.matched_left@.len() && (#[trigger] self.matched_left@[l]).is_some()
                implies third.matched_left@[l] == self.matched_left@[l] by {
            assert(second.matched_left@[l].is_some());
        }
        assert forall|l: int|
            0 <= l < self.matched_right@.len() && (#[trigger] self.matched_right@[l]).is_some()
                implies third.matched_right@[l] == self.matched_right@[l] by {
            assert(second.matched_right@[l].is_some());
        }
    }

    /// The run lengthened as `extend_match` does; what comes back is a run of the
    /// two ranges again.
    fn extend_run(&self, run: (usize, usize, usize), alo: usize, ahi: usize, blo: usize, bhi: usize) -> (r: (
        usize,
        usize,
        usize,
    ))
        requires
            self.parent.wf(),
            run.2 >= 1,
            common_run(self.toks(0), self.toks(1), alo as int, ahi as int, blo as int, bhi as int, run.0 as int, run.1 as int, run.2 as int),
            ahi <= self.parent.nwords(0),
            bhi <= self.parent.nwords(1),
        ensures
            common_run(self.toks(0), self.toks(1), alo as int, ahi as int, blo as int, bhi as int, r.0 as int, r.1 as int, r.2 as int),
            r.0 <= run.0,
            run.0 - r.0 == run.1 - r.1,
            run.0 + run.2 <= r.0 + r.2,
            r == extended(self.parent, run, alo as int, ahi as int, blo as int, bhi as int),
    {
        let r = self.extend_match(run, alo, ahi, blo, bhi);
        proof {
            let a = self.toks(0);
            let b = self.toks(1);
            assert forall|t: int| 0 <= t < r.2 implies #[trigger] a[r.0 + t] == b[r.1 + t] by {
                if r.0 + t < run.0 {
                    assert(back_ok(a, b, alo as int, blo as int, r.0 + t + 1, (r.0 + t + 1) - run.0 + run.1));
                } else if r.0 + t < run.0 + run.2 {
                    assert(a[run.0 + (r.0 + t - run.0)] == b[run.1 + (r.0 + t - run.0)]);
                } else {
                    assert(forth_ok(a, b, ahi as int, bhi as int, r.0 + t, (r.0 + t) - run.0 + run.1));
                }
            }
        }
        r
    }

    /// The runs that are found by taking the best run of the two ranges,
    /// lengthening it, and doing the same after it and then before it. They come
    /// in the order of their places.
    fn collect(&mut self, alo: usize, ahi: usize, blo: usize, bhi: usize) -> (runs: Vec<(usize, usize, usize)>)
        requires
            old(self).wf(),
            alo <= ahi <= old(self).parent.nwords(0),
            blo <= bhi <= old(self).parent.nwords(1),
        ensures
            final(self).wf(),
            old(self).memo_kept(final(self)),
            runs_in_order(final(self).toks(0), final(self).toks(1), runs@, alo as int, ahi as int, blo as int, bhi as int),
            (final(self).memo(), runs@) == collect_spec(
                old(self).parent,
                old(self).memo(),
                alo as int,
                ahi as int,
                blo as int,
                bhi as int,
            ),
        decreases ahi - alo,
    {
        let ghost a = self.toks(0);
        let ghost b = self.toks(1);
        let found = self.find_longest_match(alo, ahi, blo, bhi, true);
        let ghost first = *self;
        match found {
            Some(m) => {
                let (i, j, k) = self.extend_run((m.left, m.right, m.length), alo, ahi, blo, bhi);
                let mut after: Vec<(usize, usize, usize)> = if i + k < ahi && j + k < bhi {
                    self.collect(i + k, ahi, j + k, bhi)
                } else {
                    Vec::new()
                };
                let ghost second = *self;
                let mut runs: Vec<(usize, usize, usize)> = if alo < i && blo < j {
                    self.collect(alo, i, blo, j)
                } else {
                    Vec::new()
                };
                let ghost before = runs@;
                let ghost rest = after@;
                runs.push((i, j, k));
                runs.append(&mut after);
                proof {
                    assert(runs_in_order(a, b, rest, i + k, ahi as int, j + k, bhi as int));
                    assert(runs_in_order(a, b, before, alo as int, i as int, blo as int, j as int));
                    lemma_runs_join(a, b, before, rest, (i, j, k), alo as int, ahi as int, blo as int, bhi as int);
                    assert(runs@ =~= before.push((i, j, k)) + rest);
                    old(self).lemma_memo_trans(&first, &second);
                    old(self).lemma_memo_trans(&second, self);
                }
                runs
            },
            None => Vec::new(),
        }
    }

    /// The part that matches over the run `block`.
    fn run_part(&self, block: (usize, usize, usize)) -> (part: Part<'a>)
        requires
            self.parent.wf(),
            block.2 >= 1,
            common_run(self.toks(0), self.toks(1), 0, self.parent.nwords(0), 0, self.parent.nwords(1), block.0 as int, block.1 as int, block.2 as int),
        ensures
            part.wf(),
            part.parent == self.parent,
            part.matches,
            part.sound(),
            part.slices.left == (Span { start: block.0, end: (block.0 + block.2) as usize }),
            part.slices.right == (Span { start: block.1, end: (block.1 + block.2) as usize }),
            part == run_part(self.parent, block),
    {
        let part = Part {
            parent: self.parent,
            matches: true,
            slices: crate::pair::Pair {
                left: Span::new(block.0, block.0 + block.2),
                right: Span::new(block.1, block.1 + block.2),
            },
        };
        proof {
            let a = self.toks(0);
            let b = self.toks(1);
            assert(part.token_seq(0) =~= part.token_seq(1)) by {
                assert forall|t: int| 0 <= t < block.2 implies #[trigger] part.token_seq(0)[t] == part.token_seq(1)[t] by {
                    assert(a[block.0 + t] == b[block.1 + t]);
                }
            }
            part.lemma_same_tokens();
        }
        part
    }

    /// The runs of equal words of the two ranges as parts that match, in the
    /// order of their places. Each is lengthened once more between its
    /// neighbours, and those that then touch on both sides become one: no two
    /// parts that come back touch on both sides.
    pub fn get_matching_blocks(&mut self, alo: usize, ahi: usize, blo: usize, bhi: usize) -> (r: Vec<Part<'a>>)
        requires
            old(self).wf(),
            alo <= ahi <= old(self).parent.nwords(0),
            blo <= bhi <= old(self).parent.nwords(1),
        ensures
            final(self).wf(),
            old(self).memo_kept(final(self)),
            matched_chain(r@, final(self).parent, alo as int, ahi as int, blo as int, bhi as int),
            none_touch(r@),
            (final(self).memo(), r@) == matching_spec(
                old(self).parent,
                old(self).memo(),
                alo as int,
                ahi as int,
                blo as int,
                bhi as int,
            ),
    {
        let runs = self.collect(alo, ahi, blo, bhi);
        let ghost a = self.toks(0);
        let ghost b = self.toks(1);
        let ghost parent = self.parent;
        let mut parts: Vec<Part<'a>> = Vec::new();
        let mut open: (usize, usize, usize) = (alo, blo, 0);
        let mut has_open = false;
        let mut n: usize = 0;
        while n < runs.len()
            invariant
                self.wf(),
                parent == self.parent,
                a == self.toks(0),
                b == self.toks(1),
                alo <= ahi <= parent.nwords(0),
                blo <= bhi <= parent.nwords(1),
                runs_in_order(a, b, runs@, alo as int, ahi as int, blo as int, bhi as int),
                n <= runs@.len(),
                alo <= open.0,
                blo <= open.1,
                open.0 + open.2 <= ahi,
                open.1 + open.2 <= bhi,
                has_open ==> open.2 >= 1 && common_run(
                    a,
                    b,
                    0,
                    parent.nwords(0),
                    0,
                    parent.nwords(1),
                    open.0 as int,
                    open.1 as int,
                    open.2 as int,
                ),
                n < runs@.len() ==> open.0 + open.2 <= runs@[n as int].0 && open.1 + open.2 <= runs@[n as int].1,
                matched_chain(parts@, parent, alo as int, open.0 as int, blo as int, open.1 as int),
                none_touch(parts@),
                has_open && parts@.len() > 0 ==> !touch(parts@.last(), run_part(parent, open)),
                (parts@, open, has_open) == fuse_fold(
                    parent,
                    runs@,
                    alo as int,
                    ahi as int,
                    blo as int,
                    bhi as int,
                    n as int,
                ),
            decreases runs@.len() - n,
        {
            let run = runs[n];
            assert(common_run(a, b, alo as int, ahi as int, blo as int, bhi as int, run.0 as int, run.1 as int, run.2 as int));
            proof {
                if n + 1 < runs@.len() {
                    let next = runs@[n + 1];
                    assert(common_run(a, b, alo as int, ahi as int, blo as int, bhi as int, next.0 as int, next.1 as int, next.2 as int));
                }
            }
            let next: (usize, usize, usize) = if n + 1 < runs.len() {
                runs[n + 1]
            } else {
                (ahi, bhi, 0)
            };
            let end_i = open.0 + open.2;
            let end_j = open.1 + open.2;
            let longer = self.extend_run(run, end_i, next.0, end_j, next.1);
            if has_open && longer.0 == end_i && longer.1 == end_j {
                proof {
                    assert forall|t: int| 0 <= t < open.2 + longer.2 implies #[trigger] a[open.0 + t] == b[open.1
                        + t] by {
                        if t >= open.2 {
                            assert(a[longer.0 + (t - open.2)] == b[longer.1 + (t - open.2)]);
                        }
                    }
                }
                open = (open.0, open.1, open.2 + longer.2);
            } else {
                if has_open {
                    let part = self.run_part(open);
                    proof {
                        lemma_chain_push(
                            parts@,
                            part,
                            parent,
                            alo as int,
                            open.0 as int,
                            blo as int,
                            open.1 as int,
                            longer.0 as int,
                            longer.1 as int,
                        );
                        lemma_touch_push(parts@, part);
                    }
                    parts.push(part);
                } else {
                    proof {
                        lemma_chain_wider(
                            parts@,
                            parent,
                            alo as int,
                            open.0 as int,
                            blo as int,
                            open.1 as int,
                            longer.0 as int,
                            longer.1 as int,
                        );
                    }
                }
                open = longer;
                has_open = true;
            }
            n += 1;
        }
        if has_open {
            let part = self.run_part(open);
            proof {
                lemma_chain_push(
                    parts@,
                    part,
                    parent,
                    alo as int,
                    open.0 as int,
                    blo as int,
                    open.1 as int,
                    ahi as int,
                    bhi as int,
                );
                lemma_touch_push(parts@, part);
            }
            parts.push(part);
        } else {
            proof {
                lemma_chain_wider(
                    parts@,
                    parent,
                    alo as int,
                    open.0 as int,
                    blo as int,
                    open.1 as int,
                    ahi as int,
                    bhi as int,
                );
            }
        }
        parts
    }
}

/// Whether `q` begins on both sides where `p` ends.
pub open spec fn touch(p: Part<'_>, q: Part<'_>) -> bool {
    p.slices.left.end == q.slices.left.start && p.slices.right.end == q.slices.right.start
}

/// No part begins on both sides where the part before it ends.
pub open spec fn none_touch(parts: Seq<Part<'_>>) -> bool {
    forall|n: int| 0 <= n < parts.len() - 1 ==> !touch(#[trigger] parts[n], parts[n + 1])
}

/// Parts of which none touches the next, and a part that the last of them does
/// not touch, are such parts.
pub proof fn lemma_touch_push(parts: Seq<Part<'_>>, p: Part<'_>)
    requires
        none_touch(parts),
        parts.len() > 0 ==> !touch(parts.last(), p),
    ensures
        none_touch(parts.push(p)),
{
    let all = parts.push(p);
    assert forall|n: int| 0 <= n < all.len() - 1 implies !touch(#[trigger] all[n], all[n + 1]) by {
        assert(all[n] == parts[n]);
        if n + 1 < parts.len() {
            assert(all[n + 1] == parts[n + 1]);
        }
    }
}

/// Parts of `bm` that match and hold the same words on both sides, at least one
/// word each, in order within `l0..l1` and `r0..r1`.
pub open spec fn matched_chain(parts: Seq<Part<'_>>, bm: &BlockMaker, l0: int, l1: int, r0: int, r1: int) -> bool {
    &&& parts_of(parts, bm)
    &&& ascending(parts, l0, l1, r0, r1)
    &&& all_sound(parts)
    &&& forall|n: int|
        0 <= n < parts.len() ==> {
            let p = #[trigger] parts[n];
            &&& p.matches
            &&& p.slices.left.start < p.slices.left.end
            &&& p.slices.left.end - p.slices.left.start == p.slices.right.end - p.slices.right.start
        }
}

/// A chain and a part of that kind that begins no earlier than the chain ends
/// are a chain.
pub proof fn lemma_chain_push(
    parts: Seq<Part<'_>>,
    p: Part<'_>,
    bm: &BlockMaker,
    l0: int,
    l1: int,
    r0: int,
    r1: int,
    l2: int,
    r2: int,
)
    requires
        matched_chain(parts, bm, l0, l1, r0, r1),
        l0 <= l1,
        r0 <= r1,
        p.wf(),
        p.parent == bm,
        p.matches,
        p.sound(),
        l1 <= p.slices.left.start < p.slices.left.end <= l2,
        r1 <= p.slices.right.start,
        p.slices.right.end <= r2,
        p.slices.left.end - p.slices.left.start == p.slices.right.end - p.slices.right.start,
    ensures
        matched_chain(parts.push(p), bm, l0, l2, r0, r2),
{
    let all = parts.push(p);
    assert forall|n: int| 0 <= n < all.len() implies (#[trigger] all[n]).wf() && all[n].parent == bm by {
        if n < parts.len() {
            assert(all[n] == parts[n]);
        }
    }
    assert forall|n: int| 0 <= n < all.len() implies (#[trigger] all[n]).sound() by {
        if n < parts.len() {
            assert(all[n] == parts[n]);
        }
    }
    assert forall|n: int| 0 <= n < all.len() implies {
        let q = #[trigger] all[n];
        &&& q.matches
        &&& q.slices.left.start < q.slices.left.end
        &&& q.slices.left.end - q.slices.left.start == q.slices.right.end - q.slices.right.start
        &&& l0 <= q.slices.left.start && q.slices.left.end <= l2 && r0 <= q.slices.right.start
            && q.slices.right.end <= r2
    } by {
        if n < parts.len() {
            assert(all[n] == parts[n]);
        }
    }
    assert forall|n: int| 0 <= n < all.len() - 1 implies (#[trigger] all[n]).slices.left.end <= all[n
        + 1].slices.left.start && all[n].slices.right.end <= all[n + 1].slices.right.start by {
        assert(all[n] == parts[n]);
        if n + 1 < parts.len() {
            assert(all[n + 1] == parts[n + 1]);
        }
    }
}

/// A chain within two ranges is a chain within wider ranges.
pub proof fn lemma_chain_wider(
    parts: Seq<Part<'_>>,
    bm: &BlockMaker,
    l0: int,
    l1: int,
    r0: int,
    r1: int,
    l2: int,
    r2: int,
)
    requires
        matched_chain(parts, bm, l0, l1, r0, r1),
        l1 <= l2,
        r1 <= r2,
    ensures
        matched_chain(parts, bm, l0, l2, r0, r2),
{
}

/// A range of the left side that holds no word adds nothing to the search.
pub proof fn lemma_row_skipped(
    bm: &BlockMaker,
    memo: Memo,
    ms: Seq<DiffMatch>,
    alo: int,
    ahi: int,
    blo: int,
    bhi: int,
    lo: (int, int),
    hi: (int, int),
    x: int,
    y: int,
)
    requires
        0 <= x,
        0 <= y,
        !(between_from(ms, x, alo) < between_to(ms, x, ahi)),
    ensures
        search_to(bm, memo, ms, alo, ahi, blo, bhi, lo, hi, x, y) == search_to(
            bm,
            memo,
            ms,
            alo,
            ahi,
            blo,
            bhi,
            lo,
            hi,
            x,
            0,
        ),
    decreases y,
{
    if y > 0 {
        lemma_row_skipped(bm, memo, ms, alo, ahi, blo, bhi, lo, hi, x, y - 1);
    }
}

/// Runs that are kept from valid runs are valid.
pub proof fn lemma_kept_valid(
    bm: &BlockMaker,
    ms: Seq<DiffMatch>,
    kept: Seq<DiffMatch>,
    alo: int,
    ahi: int,
    blo: int,
    bhi: int,
)
    requires
        all_valid(bm, ms, alo, ahi, blo, bhi),
        forall|n: int| 0 <= n < kept.len() ==> ms.contains(#[trigger] kept[n]),
    ensures
        all_valid(bm, kept, alo, ahi, blo, bhi),
{
    assert forall|n: int| 0 <= n < kept.len() implies valid_run(bm, #[trigger] kept[n], alo, ahi, blo, bhi) by {
        assert(ms.contains(kept[n]));
        let x = choose|x: int| 0 <= x < ms.len() && ms[x] == kept[n];
        assert(valid_run(bm, ms[x], alo, ahi, blo, bhi));
    }
}

/// How far `a` and `b` lie apart.
fn gap(a: usize, b: usize) -> (r: usize)
    ensures
        r == distance(a as int, b as int),
{
    if a <= b {
        b - a
    } else {
        a - b
    }
}

} // verus!
