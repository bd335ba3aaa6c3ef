//! The longest runs of equal lines of the two sides.

use crate::block_maker::BlockMaker;
use crate::pair::Span;
use crate::tokeniser::Token;
use vstd::prelude::*;

verus! {

/// The number of equal tokens that end at `a[i]` and `b[j]` and begin no earlier
/// than `a[alo]` and `b[blo]`.
pub open spec fn suffix_len(a: Seq<Token>, b: Seq<Token>, alo: int, blo: int, i: int, j: int) -> nat
    decreases i + 1,
{
    if i < 0 {
        0
    } else if i < alo || j < blo || j < 0 || i >= a.len() || j >= b.len() || a[i] != b[j] {
        0
    } else {
        1 + suffix_len(a, b, alo, blo, i - 1, j - 1)
    }
}

/// The `k` tokens of `a` from `i` on are those of `b` from `j` on, and both runs
/// lie within `alo..ahi` and `blo..bhi`.
pub open spec fn common_run(
    a: Seq<Token>,
    b: Seq<Token>,
    alo: int,
    ahi: int,
    blo: int,
    bhi: int,
    i: int,
    j: int,
    k: int,
) -> bool {
    &&& 0 <= alo <= i
    &&& 0 <= blo <= j
    &&& 0 <= k
    &&& i + k <= ahi <= a.len()
    &&& j + k <= bhi <= b.len()
    &&& forall|t: int| 0 <= t < k ==> #[trigger] a[i + t] == b[j + t]
}

/// `(i, j, k)` is the longest common run of the two ranges; of several, the one
/// that begins first in `a`, and of those the one that begins first in `b`.
pub open spec fn longest_run(
    a: Seq<Token>,
    b: Seq<Token>,
    alo: int,
    ahi: int,
    blo: int,
    bhi: int,
    i: int,
    j: int,
    k: int,
) -> bool {
    &&& common_run(a, b, alo, ahi, blo, bhi, i, j, k)
    &&& forall|i2: int, j2: int, k2: int| #[trigger]
        common_run(a, b, alo, ahi, blo, bhi, i2, j2, k2) ==> {
            &&& k2 <= k
            &&& k2 == k && k > 0 ==> i < i2 || (i == i2 && j <= j2)
        }
}

/// The equal lines that end at `i` and `j` form a run within the bounds.
pub proof fn lemma_suffix_is_run(a: Seq<Token>, b: Seq<Token>, alo: int, blo: int, i: int, j: int)
    requires
        0 <= alo,
        0 <= blo,
    ensures
        suffix_len(a, b, alo, blo, i, j) <= i - alo + 1 || suffix_len(a, b, alo, blo, i, j) == 0,
        suffix_len(a, b, alo, blo, i, j) <= j - blo + 1 || suffix_len(a, b, alo, blo, i, j) == 0,
        forall|t: int|
            0 <= t < suffix_len(a, b, alo, blo, i, j) ==> #[trigger] a[i - suffix_len(
                a,
                b,
                alo,
                blo,
                i,
                j,
            ) + 1 + t] == b[j - suffix_len(a, b, alo, blo, i, j) + 1 + t],
        suffix_len(a, b, alo, blo, i, j) > 0 ==> i < a.len() && j < b.len(),
    decreases i + 1,
{
    let k = suffix_len(a, b, alo, blo, i, j);
    if i >= 0 && k > 0 {
        lemma_suffix_is_run(a, b, alo, blo, i - 1, j - 1);
        let k1 = suffix_len(a, b, alo, blo, i - 1, j - 1);
        assert(k == k1 + 1);
        assert forall|t: int| 0 <= t < k implies #[trigger] a[i - k + 1 + t] == b[j - k + 1 + t] by {
            if t < k1 {
                assert(a[(i - 1) - k1 + 1 + t] == b[(j - 1) - k1 + 1 + t]);
            }
        }
    }
}

/// A run within the bounds is part of the equal lines that end where it ends.
pub proof fn lemma_run_in_suffix(
    a: Seq<Token>,
    b: Seq<Token>,
    alo: int,
    ahi: int,
    blo: int,
    bhi: int,
    i: int,
    j: int,
    k: int,
)
    requires
        common_run(a, b, alo, ahi, blo, bhi, i, j, k),
        k > 0,
    ensures
        suffix_len(a, b, alo, blo, i + k - 1, j + k - 1) >= k,
    decreases k,
{
    assert(a[i + (k - 1)] == b[j + (k - 1)]);
    if k > 1 {
        assert forall|t: int| 0 <= t < k - 1 implies #[trigger] a[i + t] == b[j + t] by {}
        lemma_run_in_suffix(a, b, alo, ahi, blo, bhi, i, j, k - 1);
    }
}

/// Two longest runs of the same ranges are the same run.
pub proof fn lemma_longest_unique(
    a: Seq<Token>,
    b: Seq<Token>,
    alo: int,
    ahi: int,
    blo: int,
    bhi: int,
    m: (int, int, int),
    n: (int, int, int),
)
    requires
        longest_run(a, b, alo, ahi, blo, bhi, m.0, m.1, m.2),
        longest_run(a, b, alo, ahi, blo, bhi, n.0, n.1, n.2),
        m.2 > 0,
    ensures
        m == n,
{
    assert(common_run(a, b, alo, ahi, blo, bhi, m.0, m.1, m.2));
    assert(common_run(a, b, alo, ahi, blo, bhi, n.0, n.1, n.2));
}

/// The longest run of the two ranges, where there is one.
pub open spec fn best_run(a: Seq<Token>, b: Seq<Token>, alo: int, ahi: int, blo: int, bhi: int) -> (
    int,
    int,
    int,
) {
    choose|m: (int, int, int)| longest_run(a, b, alo, ahi, blo, bhi, m.0, m.1, m.2)
}

/// The runs of at least two equal tokens that are found by taking the longest run
/// of the two ranges, then doing the same before it and after it. They come in
/// the order of their places.
pub open spec fn long_runs(a: Seq<Token>, b: Seq<Token>, alo: int, ahi: int, blo: int, bhi: int) -> Seq<
    (usize, usize, usize),
>
    decreases ahi - alo,
{
    let m = best_run(a, b, alo, ahi, blo, bhi);
    if longest_run(a, b, alo, ahi, blo, bhi, m.0, m.1, m.2) && m.2 >= 2 {
        let before = if alo < m.0 && blo < m.1 {
            long_runs(a, b, alo, m.0, blo, m.1)
        } else {
            Seq::empty()
        };
        let after = if m.0 + m.2 < ahi && m.1 + m.2 < bhi {
            long_runs(a, b, m.0 + m.2, ahi, m.1 + m.2, bhi)
        } else {
            Seq::empty()
        };
        before.push((m.0 as usize, m.1 as usize, m.2 as usize)) + after
    } else {
        Seq::empty()
    }
}

/// The runs of `ms` lie within the two ranges, one after the other on both sides,
/// and each holds the same tokens on both sides.
pub open spec fn runs_in_order(
    a: Seq<Token>,
    b: Seq<Token>,
    ms: Seq<(usize, usize, usize)>,
    alo: int,
    ahi: int,
    blo: int,
    bhi: int,
) -> bool {
    &&& forall|n: int|
        0 <= n < ms.len() ==> {
            let m = #[trigger] ms[n];
            common_run(a, b, alo, ahi, blo, bhi, m.0 as int, m.1 as int, m.2 as int) && m.2 >= 1
        }
    &&& forall|n: int|
        0 <= n < ms.len() - 1 ==> {
            let m = #[trigger] ms[n];
            m.0 + m.2 <= ms[n + 1].0 && m.1 + m.2 <= ms[n + 1].1
        }
}

/// Runs in order before a run, the run, and runs in order after it are runs in order.
pub proof fn lemma_runs_join(
    a: Seq<Token>,
    b: Seq<Token>,
    before: Seq<(usize, usize, usize)>,
    after: Seq<(usize, usize, usize)>,
    m: (usize, usize, usize),
    alo: int,
    ahi: int,
    blo: int,
    bhi: int,
)
    requires
        runs_in_order(a, b, before, alo, m.0 as int, blo, m.1 as int),
        runs_in_order(a, b, after, m.0 + m.2, ahi, m.1 + m.2, bhi),
        common_run(a, b, alo, ahi, blo, bhi, m.0 as int, m.1 as int, m.2 as int),
        m.2 >= 1,
    ensures
        runs_in_order(a, b, before.push(m) + after, alo, ahi, blo, bhi),
{
    let all = before.push(m) + after;
    assert forall|n: int| 0 <= n < all.len() implies {
        let x = #[trigger] all[n];
        common_run(a, b, alo, ahi, blo, bhi, x.0 as int, x.1 as int, x.2 as int) && x.2 >= 1
    } by {
        if n < before.len() {
            assert(all[n] == before[n]);
            let x = before[n];
            assert(common_run(a, b, alo, m.0 as int, blo, m.1 as int, x.0 as int, x.1 as int, x.2 as int));
        } else if n > before.len() {
            assert(all[n] == after[n - before.len() - 1]);
            let x = after[n - before.len() - 1];
            assert(common_run(a, b, m.0 + m.2, ahi, m.1 + m.2, bhi, x.0 as int, x.1 as int, x.2 as int));
        } else {
            assert(all[n] == m);
        }
    }
    assert forall|n: int| 0 <= n < all.len() - 1 implies {
        let x = #[trigger] all[n];
        x.0 + x.2 <= all[n + 1].0 && x.1 + x.2 <= all[n + 1].1
    } by {
        if n + 1 < before.len() {
            assert(all[n] == before[n]);
            assert(all[n + 1] == before[n + 1]);
        } else if n + 1 == before.len() {
            assert(all[n] == before[n]);
            assert(all[n + 1] == m);
            let x = before[n];
            assert(common_run(a, b, alo, m.0 as int, blo, m.1 as int, x.0 as int, x.1 as int, x.2 as int));
        } else if n == before.len() {
            assert(all[n] == m);
            assert(all[n + 1] == after[0]);
            let x = after[0];
            assert(common_run(a, b, m.0 + m.2, ahi, m.1 + m.2, bhi, x.0 as int, x.1 as int, x.2 as int));
        } else {
            assert(all[n] == after[n - before.len() - 1]);
            assert(all[n + 1] == after[n - before.len()]);
        }
    }
}

/// The long runs lie within the two ranges, in order.
pub proof fn lemma_long_runs(a: Seq<Token>, b: Seq<Token>, alo: int, ahi: int, blo: int, bhi: int)
    requires
        0 <= alo <= ahi <= a.len() <= usize::MAX,
        0 <= blo <= bhi <= b.len() <= usize::MAX,
    ensures
        runs_in_order(a, b, long_runs(a, b, alo, ahi, blo, bhi), alo, ahi, blo, bhi),
    decreases ahi - alo,
{
    let m = best_run(a, b, alo, ahi, blo, bhi);
    if longest_run(a, b, alo, ahi, blo, bhi, m.0, m.1, m.2) && m.2 >= 2 {
        let before = if alo < m.0 && blo < m.1 {
            long_runs(a, b, alo, m.0, blo, m.1)
        } else {
            Seq::empty()
        };
        let after = if m.0 + m.2 < ahi && m.1 + m.2 < bhi {
            long_runs(a, b, m.0 + m.2, ahi, m.1 + m.2, bhi)
        } else {
            Seq::empty()
        };
        if alo < m.0 && blo < m.1 {
            lemma_long_runs(a, b, alo, m.0, blo, m.1);
        }
        if m.0 + m.2 < ahi && m.1 + m.2 < bhi {
            lemma_long_runs(a, b, m.0 + m.2, ahi, m.1 + m.2, bhi);
        }
        let me = (m.0 as usize, m.1 as usize, m.2 as usize);
        lemma_runs_join(a, b, before, after, me, alo, ahi, blo, bhi);
    }
}

/// A range of no tokens holds no long run.
pub proof fn lemma_no_runs(a: Seq<Token>, b: Seq<Token>, alo: int, blo: int, bhi: int)
    ensures
        long_runs(a, b, alo, alo, blo, bhi).len() == 0,
{
    let m = best_run(a, b, alo, alo, blo, bhi);
    if longest_run(a, b, alo, alo, blo, bhi, m.0, m.1, m.2) {
        assert(common_run(a, b, alo, alo, blo, bhi, m.0, m.1, m.2));
    }
}

/// Two or more tokens that are the same on both sides are one long run.
pub proof fn lemma_whole_run(a: Seq<Token>)
    requires
        2 <= a.len() <= usize::MAX,
    ensures
        long_runs(a, a, 0, a.len() as int, 0, a.len() as int) == seq![(0usize, 0usize, a.len() as usize)],
{
    let n = a.len() as int;
    assert(common_run(a, a, 0, n, 0, n, 0, 0, n));
    assert(longest_run(a, a, 0, n, 0, n, 0, 0, n)) by {
        assert forall|i2: int, j2: int, k2: int| #[trigger] common_run(a, a, 0, n, 0, n, i2, j2, k2) implies {
            &&& k2 <= n
            &&& k2 == n && n > 0 ==> 0 < i2 || (0 == i2 && 0 <= j2)
        } by {}
    }
    let w = (0int, 0int, n);
    assert(longest_run(a, a, 0, n, 0, n, w.0, w.1, w.2));
    let m = best_run(a, a, 0, n, 0, n);
    assert(longest_run(a, a, 0, n, 0, n, m.0, m.1, m.2));
    lemma_longest_unique(a, a, 0, n, 0, n, w, m);
    let runs = long_runs(a, a, 0, n, 0, n);
    assert(runs =~= seq![(0usize, 0usize, n as usize)]);
}

/// The differ of the lines of a hunk.
pub struct LineDiffer<'a> {
    pub parent: &'a BlockMaker,
}

impl<'a> LineDiffer<'a> {
    /// The tokens of the lines of side `i`.
    pub open spec fn lines(&self, i: int) -> Seq<Token> {
        self.parent.side(i).line_tokens@
    }

    /// A differ over the lines of `parent`.
    pub fn new(parent: &'a BlockMaker) -> (r: LineDiffer<'a>)
        ensures
            r.parent == parent,
    {
        LineDiffer { parent }
    }

    /// The longest run of at least two equal lines in the two ranges.
    pub fn find_longest_match(&self, alo: usize, ahi: usize, blo: usize, bhi: usize) -> (r: Option<
        (usize, usize, usize),
    >)
        requires
            self.parent.wf(),
            alo <= ahi <= self.parent.nlines(0),
            blo <= bhi <= self.parent.nlines(1),
        ensures
            match r {
                Some((i, j, k)) => k >= 2 && longest_run(
                    self.lines(0),
                    self.lines(1),
                    alo as int,
                    ahi as int,
                    blo as int,
                    bhi as int,
                    i as int,
                    j as int,
                    k as int,
                ),
                None => forall|i: int, j: int, k: int| #[trigger]
                    common_run(
                        self.lines(0),
                        self.lines(1),
                        alo as int,
                        ahi as int,
                        blo as int,
                        bhi as int,
                        i,
                        j,
                        k,
                    ) ==> k <= 1,
            },
    {
        let left = &self.parent.sides.left.line_tokens;
        let right = &self.parent.sides.right.line_tokens;
        let ghost a = left@;
        let ghost b = right@;
        let mut besti: usize = alo;
        let mut bestj: usize = blo;
        let mut bestsize: usize = 0;
        let mut j2len: Vec<usize> = vec![0usize; right.len()];
        let mut newj2len: Vec<usize> = vec![0usize; right.len()];
        let mut i: usize = alo;
        while i < ahi
            invariant
                a == self.lines(0),
                b == self.lines(1),
                a == left@,
                b == right@,
                alo <= i <= ahi <= a.len(),
                blo <= bhi <= b.len(),
                j2len@.len() == b.len(),
                newj2len@.len() == b.len(),
                forall|c: int| blo <= c < bhi ==> #[trigger] j2len@[c] == suffix_len(a, b, alo as int, blo as int, i - 1, c),
                forall|c: int| 0 <= c < blo ==> #[trigger] j2len@[c] == 0,
                forall|c: int| 0 <= c < blo ==> #[trigger] newj2len@[c] == 0,
                forall|r: int, c: int|
                    alo <= r < i && blo <= c < bhi ==> #[trigger] suffix_len(a, b, alo as int, blo as int, r, c) <= bestsize,
                forall|r: int, c: int|
                    alo <= r < i && blo <= c < bhi && #[trigger] suffix_len(a, b, alo as int, blo as int, r, c) == bestsize
                        && bestsize > 0 ==> besti + bestsize - 1 < r || (besti + bestsize - 1 == r && bestj + bestsize - 1 <= c),
                bestsize > 0 ==> common_run(a, b, alo as int, ahi as int, blo as int, bhi as int, besti as int, bestj as int, bestsize as int)
                    && besti + bestsize - 1 < i,
                bestsize == 0 ==> besti == alo && bestj == blo,
            decreases ahi - i,
        {
            let value = left[i];
            let mut j: usize = blo;
            while j < bhi
                invariant
                    a == left@,
                    b == right@,
                    value == a[i as int],
                    alo <= i < ahi <= a.len(),
                    blo <= j <= bhi <= b.len(),
                    j2len@.len() == b.len(),
                    newj2len@.len() == b.len(),
                    forall|c: int| blo <= c < bhi ==> #[trigger] j2len@[c] == suffix_len(a, b, alo as int, blo as int, i - 1, c),
                    forall|c: int| 0 <= c < blo ==> #[trigger] j2len@[c] == 0,
                    forall|c: int| 0 <= c < blo ==> #[trigger] newj2len@[c] == 0,
                    forall|c: int| blo <= c < j ==> #[trigger] newj2len@[c] == suffix_len(a, b, alo as int, blo as int, i as int, c),
                    forall|r: int, c: int|
                        ((alo <= r < i && blo <= c < bhi) || (r == i && blo <= c < j)) ==> #[trigger] suffix_len(a, b, alo as int, blo as int, r, c) <= bestsize,
                    forall|r: int, c: int|
                        ((alo <= r < i && blo <= c < bhi) || (r == i && blo <= c < j)) && #[trigger] suffix_len(a, b, alo as int, blo as int, r, c) == bestsize
                            && bestsize > 0 ==> besti + bestsize - 1 < r || (besti + bestsize - 1 == r && bestj + bestsize - 1 <= c),
                    bestsize > 0 ==> common_run(a, b, alo as int, ahi as int, blo as int, bhi as int, besti as int, bestj as int, bestsize as int)
                        && (besti + bestsize - 1 < i || (besti + bestsize - 1 == i && bestj + bestsize - 1 < j)),
                    bestsize == 0 ==> besti == alo && bestj == blo,
                decreases bhi - j,
            {
                proof {
                    lemma_suffix_is_run(a, b, alo as int, blo as int, i as int, j as int);
                    lemma_suffix_is_run(a, b, alo as int, blo as int, i - 1, j - 1);
                }
                if right[j] == value {
                    let prev: usize = if j == 0 {
                        0
                    } else {
                        j2len[j - 1]
                    };
                    let k: usize = prev + 1;
                    assert(k == suffix_len(a, b, alo as int, blo as int, i as int, j as int));
                    newj2len[j] = k;
                    if k > bestsize {
                        besti = i + 1 - k;
                        bestj = j + 1 - k;
                        bestsize = k;
                        assert forall|t: int| 0 <= t < k implies #[trigger] a[besti + t] == b[bestj + t] by {
                            assert(a[i - k + 1 + t] == b[j - k + 1 + t]);
                        }
                    }
                } else {
                    newj2len[j] = 0;
                }
                j += 1;
            }
            let tmp = j2len;
            j2len = newj2len;
            newj2len = tmp;
            i += 1;
        }
        proof {
            assert forall|i2: int, j2: int, k2: int| #[trigger]
                common_run(a, b, alo as int, ahi as int, blo as int, bhi as int, i2, j2, k2) implies {
                &&& k2 <= bestsize
                &&& k2 == bestsize && bestsize > 0 ==> besti < i2 || (besti == i2 && bestj <= j2)
            } by {
                if k2 > 0 {
                    lemma_run_in_suffix(a, b, alo as int, ahi as int, blo as int, bhi as int, i2, j2, k2);
                    let s = suffix_len(a, b, alo as int, blo as int, i2 + k2 - 1, j2 + k2 - 1);
                    assert(s <= bestsize);
                }
            }
        }
        if bestsize <= 1 {
            return None;
        }
        Some((besti, bestj, bestsize))
    }

    /// Appends to `out` the long runs of the two ranges.
    fn collect(&self, alo: usize, ahi: usize, blo: usize, bhi: usize, out: &mut Vec<(usize, usize, usize)>)
        requires
            self.parent.wf(),
            alo <= ahi <= self.parent.nlines(0),
            blo <= bhi <= self.parent.nlines(1),
        ensures
            final(out)@ == old(out)@ + long_runs(
                self.lines(0),
                self.lines(1),
                alo as int,
                ahi as int,
                blo as int,
                bhi as int,
            ),
        decreases ahi - alo,
    {
        let ghost a = self.lines(0);
        let ghost b = self.lines(1);
        let ghost m = best_run(a, b, alo as int, ahi as int, blo as int, bhi as int);
        match self.find_longest_match(alo, ahi, blo, bhi) {
            Some((i, j, k)) => {
                proof {
                    assert(longest_run(a, b, alo as int, ahi as int, blo as int, bhi as int, m.0, m.1, m.2));
                    lemma_longest_unique(
                        a,
                        b,
                        alo as int,
                        ahi as int,
                        blo as int,
                        bhi as int,
                        (i as int, j as int, k as int),
                        m,
                    );
                    assert(common_run(a, b, alo as int, ahi as int, blo as int, bhi as int, m.0, m.1, m.2));
                }
                let ghost start = out@;
                if alo < i && blo < j {
                    self.collect(alo, i, blo, j, out);
                }
                let ghost before = out@;
                out.push((i, j, k));
                if i + k < ahi && j + k < bhi {
                    self.collect(i + k, ahi, j + k, bhi, out);
                }
                proof {
                    let runs = long_runs(a, b, alo as int, ahi as int, blo as int, bhi as int);
                    assert(out@ =~= start + runs);
                }
            },
            None => {
                proof {
                    if longest_run(a, b, alo as int, ahi as int, blo as int, bhi as int, m.0, m.1, m.2) {
                        assert(common_run(a, b, alo as int, ahi as int, blo as int, bhi as int, m.0, m.1, m.2));
                    }
                    assert(out@ =~= old(out)@ + Seq::<(usize, usize, usize)>::empty());
                }
            },
        }
    }

    /// The range of words of each long run of equal lines, on both sides, in order.
    pub fn get_matching_blocks(&self) -> (r: Vec<(Span, Span)>)
        requires
            self.parent.wf(),
        ensures
            r@.len() == self.runs().len(),
            forall|n: int|
                0 <= n < r@.len() ==> #[trigger] r@[n] == self.word_spans(self.runs()[n]),
    {
        let mut runs: Vec<(usize, usize, usize)> = Vec::new();
        let na = self.parent.line_count(0);
        let nb = self.parent.line_count(1);
        self.collect(0, na, 0, nb, &mut runs);
        proof {
            assert(runs@ =~= self.runs());
            lemma_long_runs(self.lines(0), self.lines(1), 0, na as int, 0, nb as int);
        }
        let mut r: Vec<(Span, Span)> = Vec::new();
        let mut n: usize = 0;
        while n < runs.len()
            invariant
                self.parent.wf(),
                runs@ == self.runs(),
                runs_in_order(self.lines(0), self.lines(1), runs@, 0, self.parent.nlines(0), 0, self.parent.nlines(1)),
                n <= runs@.len(),
                r@.len() == n,
                forall|x: int| 0 <= x < n ==> #[trigger] r@[x] == self.word_spans(runs@[x]),
            decreases runs@.len() - n,
        {
            let (i, j, k) = runs[n];
            assert(common_run(self.lines(0), self.lines(1), 0, self.parent.nlines(0), 0, self.parent.nlines(1), i as int, j as int, k as int));
            let left = Span::new(self.parent.first_word(0, i), self.parent.first_word(0, i + k));
            let right = Span::new(self.parent.first_word(1, j), self.parent.first_word(1, j + k));
            r.push((left, right));
            n += 1;
        }
        r
    }

    /// The long runs of equal lines of the two sides, as lines.
    pub open spec fn runs(&self) -> Seq<(usize, usize, usize)> {
        long_runs(self.lines(0), self.lines(1), 0, self.parent.nlines(0), 0, self.parent.nlines(1))
    }

    /// The words of the lines of a run, on both sides.
    pub open spec fn word_spans(&self, m: (usize, usize, usize)) -> (Span, Span) {
        (
            Span {
                start: self.parent.line_start(0, m.0 as int) as usize,
                end: self.parent.line_start(0, m.0 + m.2) as usize,
            },
            Span {
                start: self.parent.line_start(1, m.1 as int) as usize,
                end: self.parent.line_start(1, m.1 + m.2) as usize,
            },
        )
    }
}

} // verus!
