//! Moving insertions and deletions to the places where they read best.

use crate::block::{chain, keeps_extent};
use crate::block_maker::BlockMaker;
use crate::pair::{Pair, Span};
use crate::part::{all_sound, chained, parts_of, shifted, Part};
use crate::whitespace::bytes_eq;
use vstd::prelude::*;

verus! {

/// The score for words at the ends of lines.
pub const NEWLINE: usize = 0;

/// The score for a comma, a semicolon or a colon at the end.
pub const GOOD_SUFFIX: usize = 1;

/// The score for white space at the end.
pub const WHITESPACE_SUFFIX: usize = 3;

/// The score for white space before the start.
pub const WHITESPACE_PREFIX: usize = 4;

/// The score for a closing bracket at the end.
pub const OTHER_SUFFIX: usize = 5;

/// The score for an opening bracket at the start.
pub const OTHER_PREFIX: usize = 6;

/// The number of scores.
pub const NUM_SCORES: usize = 7;

/// Whether `w` begins with an opening bracket.
pub open spec fn opens(w: Seq<u8>) -> bool {
    w.len() > 0 && (w[0] == 123 || w[0] == 91 || w[0] == 40)
}

/// The score that a word at the end counts for, by its first byte: a newline,
/// white space, a comma or semicolon, a closing bracket; `-1` for any other word.
pub open spec fn suffix_class(w: Seq<u8>) -> int {
    if w.len() == 0 {
        -1
    } else if w[0] == 10 {
        0
    } else if w[0] == 32 || w[0] == 9 {
        3
    } else if w[0] == 44 || w[0] == 59 {
        1
    } else if w[0] == 125 || w[0] == 93 || w[0] == 41 {
        5
    } else {
        -1
    }
}

/// Two for each opening bracket that `words` begins with.
pub open spec fn lead_score(words: Seq<Seq<u8>>) -> nat
    decreases words.len(),
{
    if words.len() == 0 || !opens(words[0]) {
        0
    } else {
        2 + lead_score(words.drop_first())
    }
}

/// Two for each word of class `ix` among the words that `words` ends with and
/// that have a class.
pub open spec fn tail_score(words: Seq<Seq<u8>>, ix: int) -> nat
    decreases words.len(),
{
    if words.len() == 0 || suffix_class(words.last()) < 0 {
        0
    } else {
        tail_score(words.drop_last(), ix) + if suffix_class(words.last()) == ix {
            2nat
        } else {
            0nat
        }
    }
}

/// The score that the word before `from` counts for: that of a newline where
/// the words begin a line or with a newline; else that of a space or an opening
/// bracket where the word before is one; `-1` where it counts for nothing.
pub open spec fn before_class(bm: &BlockMaker, i: int, from: int) -> int {
    if bm.word(i, from) == seq![10u8] || from == 0 {
        0
    } else {
        let ext = bm.word(i, from - 1);
        if ext == seq![10u8] {
            0
        } else if ext == seq![32u8] {
            4
        } else if ext == seq![40u8] || ext == seq![123u8] || ext == seq![91u8] {
            6
        } else {
            -1
        }
    }
}

/// The score that the word at `to` counts for: that of a newline where the
/// words end a line or the text; else that of a space, a colon or a closing
/// bracket where the word after is one; `-1` where it counts for nothing.
pub open spec fn after_class(bm: &BlockMaker, i: int, to: int) -> int {
    if bm.word(i, to - 1) == seq![10u8] || to == bm.nwords(i) {
        0
    } else {
        let ext = bm.word(i, to);
        if ext == seq![10u8] {
            0
        } else if ext == seq![32u8] {
            3
        } else if ext == seq![58u8] {
            1
        } else if ext == seq![41u8] || ext == seq![125u8] || ext == seq![93u8] {
            5
        } else {
            -1
        }
    }
}

/// Score `ix` of the words `from..to` of side `i`.
pub open spec fn words_score(bm: &BlockMaker, i: int, from: int, to: int, ix: int) -> nat {
    let words = bm.side(i).word_seq().subrange(from, to);
    let lead = if ix == 6 {
        lead_score(words)
    } else {
        0
    };
    let before: nat = if before_class(bm, i, from) == ix {
        1
    } else {
        0
    };
    let after: nat = if after_class(bm, i, to) == ix {
        1
    } else {
        0
    };
    lead + tail_score(words, ix) + before + after
}

/// Only four of the scores count words at the end, and none counts more than two a word.
pub proof fn lemma_tail_score(words: Seq<Seq<u8>>, ix: int)
    ensures
        tail_score(words, ix) <= 2 * words.len(),
        ix != 0 && ix != 1 && ix != 3 && ix != 5 ==> tail_score(words, ix) == 0,
    decreases words.len(),
{
    if words.len() > 0 {
        lemma_tail_score(words.drop_last(), ix);
    }
}

/// Whether `word` is the one byte `byte`.
fn is_byte(word: &Vec<u8>, byte: u8) -> (r: bool)
    ensures
        r == (word@ == seq![byte]),
{
    let r = word.len() == 1 && word[0] == byte;
    proof {
        if r {
            assert(word@ =~= seq![byte]);
        } else if word@.len() == 1 {
            assert(seq![byte][0] == byte);
        } else {
            assert(seq![byte].len() == 1);
        }
    }
    r
}

fn class_before(bm: &BlockMaker, i: usize, from: usize) -> (r: Option<usize>)
    requires
        bm.wf(),
        from < bm.nwords(i as int),
    ensures
        match r {
            Some(ix) => ix == before_class(bm, i as int, from as int),
            None => before_class(bm, i as int, from as int) == -1,
        },
{
    let words = &bm.sides.index(i).words;
    if is_byte(&words[from], 10) || from == 0 {
        return Some(NEWLINE);
    }
    let ext = &words[from - 1];
    if is_byte(ext, 10) {
        Some(NEWLINE)
    } else if is_byte(ext, 32) {
        Some(WHITESPACE_PREFIX)
    } else if is_byte(ext, 40) || is_byte(ext, 123) || is_byte(ext, 91) {
        Some(OTHER_PREFIX)
    } else {
        None
    }
}

fn class_after(bm: &BlockMaker, i: usize, to: usize) -> (r: Option<usize>)
    requires
        bm.wf(),
        0 < to <= bm.nwords(i as int),
    ensures
        match r {
            Some(ix) => ix == after_class(bm, i as int, to as int),
            None => after_class(bm, i as int, to as int) == -1,
        },
{
    let words = &bm.sides.index(i).words;
    if is_byte(&words[to - 1], 10) || to == words.len() {
        return Some(NEWLINE);
    }
    let ext = &words[to];
    if is_byte(ext, 10) {
        Some(NEWLINE)
    } else if is_byte(ext, 32) {
        Some(WHITESPACE_SUFFIX)
    } else if is_byte(ext, 58) {
        Some(GOOD_SUFFIX)
    } else if is_byte(ext, 41) || is_byte(ext, 125) || is_byte(ext, 93) {
        Some(OTHER_SUFFIX)
    } else {
        None
    }
}

fn class_of(word: &Vec<u8>) -> (r: Option<usize>)
    ensures
        match r {
            Some(ix) => ix == suffix_class(word@),
            None => suffix_class(word@) == -1,
        },
{
    if word.len() == 0 {
        return None;
    }
    let c = word[0];
    if c == 10 {
        Some(NEWLINE)
    } else if c == 32 || c == 9 {
        Some(WHITESPACE_SUFFIX)
    } else if c == 44 || c == 59 {
        Some(GOOD_SUFFIX)
    } else if c == 125 || c == 93 || c == 41 {
        Some(OTHER_SUFFIX)
    } else {
        None
    }
}

/// Two for each opening bracket that the words `from..to` of side `i` begin with.
fn lead_of(bm: &BlockMaker, i: usize, from: usize, to: usize) -> (lead: u128)
    requires
        bm.wf(),
        from <= to <= bm.nwords(i as int),
    ensures
        lead == lead_score(bm.side(i as int).word_seq().subrange(from as int, to as int)),
        lead <= 2 * (to - from),
{
    let words = &bm.sides.index(i).words;
    let ghost w = bm.side(i as int).word_seq().subrange(from as int, to as int);
    let n = to - from;
    let mut lead: u128 = 0;
    let mut k: usize = 0;
    proof {
        assert(w.subrange(0, n as int) =~= w);
    }
    while k < n && (words[from + k].len() > 0 && (words[from + k][0] == 123 || words[from + k][0] == 91
        || words[from + k][0] == 40))
        invariant
            bm.wf(),
            *words == bm.side(i as int).words,
            from + n == to,
            to <= bm.nwords(i as int),
            k <= n,
            w == bm.side(i as int).word_seq().subrange(from as int, to as int),
            lead == 2 * k,
            lead_score(w) == lead + lead_score(w.subrange(k as int, n as int)),
        decreases n - k,
    {
        proof {
            assert(w.subrange(k as int, n as int).drop_first() =~= w.subrange(k + 1, n as int));
            assert(w.subrange(k as int, n as int)[0] == words@[from + k]@);
        }
        lead = lead + 2;
        k += 1;
    }
    proof {
        if k < n {
            assert(w.subrange(k as int, n as int)[0] == words@[from + k]@);
        }
    }
    lead
}

/// The scores of the words that the words `from..to` of side `i` end with: those
/// of a newline, of a comma, of white space and of a closing bracket.
fn tail_of(bm: &BlockMaker, i: usize, from: usize, to: usize) -> (r: (u128, u128, u128, u128))
    requires
        bm.wf(),
        from <= to <= bm.nwords(i as int),
    ensures
        r.0 == tail_score(bm.side(i as int).word_seq().subrange(from as int, to as int), 0),
        r.1 == tail_score(bm.side(i as int).word_seq().subrange(from as int, to as int), 1),
        r.2 == tail_score(bm.side(i as int).word_seq().subrange(from as int, to as int), 3),
        r.3 == tail_score(bm.side(i as int).word_seq().subrange(from as int, to as int), 5),
        r.0 + r.1 + r.2 + r.3 <= 2 * (to - from),
{
    let words = &bm.sides.index(i).words;
    let ghost w = bm.side(i as int).word_seq().subrange(from as int, to as int);
    let n = to - from;
    let mut nl: u128 = 0;
    let mut good: u128 = 0;
    let mut blank: u128 = 0;
    let mut closing: u128 = 0;
    let mut k: usize = 0;
    let mut done = false;
    proof {
        assert(w.subrange(0, n as int) =~= w);
    }
    while k < n && !done
        invariant
            bm.wf(),
            *words == bm.side(i as int).words,
            from + n == to,
            to <= bm.nwords(i as int),
            k <= n,
            w == bm.side(i as int).word_seq().subrange(from as int, to as int),
            nl + good + blank + closing == 2 * k,
            tail_score(w, 0) == nl + if done {
                0
            } else {
                tail_score(w.subrange(0, n - k), 0)
            },
            tail_score(w, 1) == good + if done {
                0
            } else {
                tail_score(w.subrange(0, n - k), 1)
            },
            tail_score(w, 3) == blank + if done {
                0
            } else {
                tail_score(w.subrange(0, n - k), 3)
            },
            tail_score(w, 5) == closing + if done {
                0
            } else {
                tail_score(w.subrange(0, n - k), 5)
            },
        decreases n - k + if done {
            0int
        } else {
            1int
        },
    {
        proof {
            assert(w.subrange(0, n - k).drop_last() =~= w.subrange(0, n - k - 1));
            assert(w.subrange(0, n - k).last() == words@[to - 1 - k]@);
        }
        match class_of(&words[to - 1 - k]) {
            Some(ix) => {
                if ix == NEWLINE {
                    nl = nl + 2;
                } else if ix == GOOD_SUFFIX {
                    good = good + 2;
                } else if ix == WHITESPACE_SUFFIX {
                    blank = blank + 2;
                } else {
                    closing = closing + 2;
                }
                k += 1;
            },
            None => {
                done = true;
            },
        }
    }
    proof {
        assert(w.subrange(0, 0) =~= Seq::<Seq<u8>>::empty());
    }
    (nl, good, blank, closing)
}

/// The scores of the words of side `i` of `part`, moved by `shift` words: how
/// well they begin and end where words should.
pub fn score_words(part: &Part<'_>, i: usize, shift: isize) -> (r: [u128; 7])
    requires
        part.parent.wf(),
        0 <= part.span(i as int).start + shift,
        part.span(i as int).start < part.span(i as int).end,
        part.span(i as int).end + shift <= part.parent.nwords(i as int),
    ensures
        forall|ix: int|
            0 <= ix < 7 ==> #[trigger] r[ix] == words_score(
                part.parent,
                i as int,
                part.span(i as int).start + shift,
                part.span(i as int).end + shift,
                ix,
            ),
{
    let bm = part.parent;
    let span = *part.slices.index(i);
    let from = shifted(span.start, shift);
    let to = shifted(span.end, shift);
    let lead = lead_of(bm, i, from, to);
    let (tail_nl, tail_good, tail_blank, tail_closing) = tail_of(bm, i, from, to);
    let before = class_before(bm, i, from);
    let after = class_after(bm, i, to);
    let ghost w = bm.side(i as int).word_seq().subrange(from as int, to as int);
    proof {
        lemma_tail_score(w, 2);
        lemma_tail_score(w, 4);
        lemma_tail_score(w, 6);
    }
    let nl = tail_nl + hit(before, NEWLINE) + hit(after, NEWLINE);
    let good = tail_good + hit(after, GOOD_SUFFIX);
    let blank = tail_blank + hit(after, WHITESPACE_SUFFIX);
    let blank_before = hit(before, WHITESPACE_PREFIX);
    let closing = tail_closing + hit(after, OTHER_SUFFIX);
    let opening = lead + hit(before, OTHER_PREFIX);
    [nl, good, 0, blank, blank_before, closing, opening]
}

/// One where `class` is `ix`.
fn hit(class: Option<usize>, ix: usize) -> (r: u128)
    ensures
        r == if class == Some(ix) {
            1int
        } else {
            0int
        },
{
    match class {
        Some(c) => if c == ix {
            1
        } else {
            0
        },
        None => 0,
    }
}

/// How many words the words `from..to` of side `i` can move towards the front,
/// `limit` at most and counted from `t` on: as long as the word that comes in at
/// the front is the word that goes out at the back.
pub open spec fn reach_back(bm: &BlockMaker, i: int, from: int, to: int, limit: int, t: int) -> int
    decreases limit - t,
{
    if t < limit && 0 <= from - 1 - t && to - 1 - t < bm.nwords(i) && bm.word(i, from - 1 - t) == bm.word(
        i,
        to - 1 - t,
    ) {
        reach_back(bm, i, from, to, limit, t + 1)
    } else {
        t
    }
}

/// How many words the words `from..to` of side `i` can move towards the back,
/// `limit` at most and counted from `t` on: as long as the word that comes in at
/// the back is the word that goes out at the front.
pub open spec fn reach_forth(bm: &BlockMaker, i: int, from: int, to: int, limit: int, t: int) -> int
    decreases limit - t,
{
    if t < limit && 0 <= from + t && to + t < bm.nwords(i) && bm.word(i, from + t) == bm.word(i, to + t) {
        reach_forth(bm, i, from, to, limit, t + 1)
    } else {
        t
    }
}

/// The word that lies `x + 1` words before `from` is the word that lies as far
/// before `to`.
pub open spec fn same_before(bm: &BlockMaker, i: int, from: int, to: int, x: int) -> bool {
    0 <= from - 1 - x && to - 1 - x < bm.nwords(i) && bm.word(i, from - 1 - x) == bm.word(i, to - 1 - x)
}

/// The word that lies `x` words after `from` is the word that lies as far after `to`.
pub open spec fn same_after(bm: &BlockMaker, i: int, from: int, to: int, x: int) -> bool {
    0 <= from + x && to + x < bm.nwords(i) && bm.word(i, from + x) == bm.word(i, to + x)
}

/// Words move to the front only past words that are the words they leave behind.
pub proof fn lemma_reach_back(bm: &BlockMaker, i: int, from: int, to: int, limit: int, t: int)
    requires
        0 <= t,
    ensures
        t <= reach_back(bm, i, from, to, limit, t),
        reach_back(bm, i, from, to, limit, t) <= limit || reach_back(bm, i, from, to, limit, t) == t,
        forall|x: int|
            t <= x < reach_back(bm, i, from, to, limit, t) ==> #[trigger] same_before(bm, i, from, to, x),
    decreases limit - t,
{
    if t < limit && 0 <= from - 1 - t && to - 1 - t < bm.nwords(i) && bm.word(i, from - 1 - t) == bm.word(
        i,
        to - 1 - t,
    ) {
        lemma_reach_back(bm, i, from, to, limit, t + 1);
        assert(same_before(bm, i, from, to, t));
    }
}

/// Words move to the back only past words that are the words they leave behind.
pub proof fn lemma_reach_forth(bm: &BlockMaker, i: int, from: int, to: int, limit: int, t: int)
    requires
        0 <= t,
    ensures
        t <= reach_forth(bm, i, from, to, limit, t),
        reach_forth(bm, i, from, to, limit, t) <= limit || reach_forth(bm, i, from, to, limit, t) == t,
        forall|x: int|
            t <= x < reach_forth(bm, i, from, to, limit, t) ==> #[trigger] same_after(bm, i, from, to, x),
    decreases limit - t,
{
    if t < limit && 0 <= from + t && to + t < bm.nwords(i) && bm.word(i, from + t) == bm.word(i, to + t) {
        lemma_reach_forth(bm, i, from, to, limit, t + 1);
        assert(same_after(bm, i, from, to, t));
    }
}

/// The smaller of the lengths of the two sides of `p`, and no more than the
/// largest shift.
pub open spec fn room(p: Part<'_>) -> int {
    let l = p.slices.left.end - p.slices.left.start;
    let r = p.slices.right.end - p.slices.right.start;
    let m = if l < r {
        l
    } else {
        r
    };
    if m < isize::MAX {
        m
    } else {
        isize::MAX as int
    }
}

/// How far part `k` of `parts` can move to the front on side `i`: through the
/// part before it, if that matches, as far as the words agree.
pub open spec fn back_room(parts: Seq<Part<'_>>, k: int, i: int) -> int {
    if k > 0 && parts[k - 1].matches {
        reach_back(
            parts[k].parent,
            i,
            parts[k].span(i).start as int,
            parts[k].span(i).end as int,
            room(parts[k - 1]),
            0,
        )
    } else {
        0
    }
}

/// How far part `k` of `parts` can move to the back on side `i`: through the part
/// after it, if that matches, as far as the words agree.
pub open spec fn forth_room(parts: Seq<Part<'_>>, k: int, i: int) -> int {
    if k + 1 < parts.len() && parts[k + 1].matches {
        reach_forth(
            parts[k].parent,
            i,
            parts[k].span(i).start as int,
            parts[k].span(i).end as int,
            room(parts[k + 1]),
            0,
        )
    } else {
        0
    }
}

/// A shift of part `k` by `s` words on side `i` moves the part through a part
/// that matches only, no further than that part reaches on either side, and
/// only past words that are the words it leaves behind.
pub open spec fn clear_path(parts: Seq<Part<'_>>, k: int, i: int, s: int) -> bool {
    let bm = parts[k].parent;
    let from = parts[k].span(i).start as int;
    let to = parts[k].span(i).end as int;
    if s > 0 {
        &&& k + 1 < parts.len()
        &&& parts[k + 1].matches
        &&& s <= room(parts[k + 1])
        &&& forall|t: int| 0 <= t < s ==> #[trigger] same_after(bm, i, from, to, t)
    } else if s < 0 {
        &&& k > 0
        &&& parts[k - 1].matches
        &&& -s <= room(parts[k - 1])
        &&& forall|t: int| 0 <= t < -s ==> #[trigger] same_before(bm, i, from, to, t)
    } else {
        true
    }
}

/// No shift that is tried for a part moves a boundary past a word of the part
/// next to it that is not the word that the part leaves behind.
pub proof fn lemma_candidates_clear(parts: Seq<Part<'_>>, k: int, i: int, n: int)
    requires
        0 <= k < parts.len(),
        0 <= n <= back_room(parts, k, i) + forth_room(parts, k, i),
    ensures
        clear_path(parts, k, i, shift_at(back_room(parts, k, i), n)),
{
    let bm = parts[k].parent;
    let from = parts[k].span(i).start as int;
    let to = parts[k].span(i).end as int;
    if k > 0 && parts[k - 1].matches {
        lemma_reach_back(bm, i, from, to, room(parts[k - 1]), 0);
    }
    if k + 1 < parts.len() && parts[k + 1].matches {
        lemma_reach_forth(bm, i, from, to, room(parts[k + 1]), 0);
    }
}

/// The shift that candidate `n` stands for: none, then those to the front from
/// one word on, then those to the back.
pub open spec fn shift_at(back: int, n: int) -> int {
    if n == 0 {
        0
    } else if n <= back {
        -n
    } else {
        n - back
    }
}

fn room_of(p: &Part<'_>) -> (r: usize)
    requires
        p.wf(),
    ensures
        r == room(*p),
{
    let l = p.slices.left.end - p.slices.left.start;
    let r = p.slices.right.end - p.slices.right.start;
    let m = if l < r {
        l
    } else {
        r
    };
    if m < isize::MAX as usize {
        m
    } else {
        isize::MAX as usize
    }
}

/// The scores of part `parti` on side `i` where it is, then moved to the front by
/// one word and more through the part before it, then moved to the back through
/// the part after it; each with its shift. A part moves through a part that
/// matches only, no further than that part reaches on either side, and only as
/// long as the word that comes in at one end is the word that goes out at the other.
pub fn score_part_shift(parts: &Vec<Part<'_>>, parti: usize, i: usize) -> (r: Vec<([u128; 7], isize)>)
    requires
        parti < parts@.len(),
        parts_of(parts@, parts@[parti as int].parent),
        crate::part::chained(parts@),
        parts@[parti as int].span(i as int).start < parts@[parti as int].span(i as int).end,
    ensures
        r@.len() == 1 + back_room(parts@, parti as int, i as int) + forth_room(parts@, parti as int, i as int),
        back_room(parts@, parti as int, i as int) >= 0,
        forth_room(parts@, parti as int, i as int) >= 0,
        forall|n: int| 0 <= n < r@.len() ==> clear_path(parts@, parti as int, i as int, (#[trigger] r@[n]).1 as int),
        forall|n: int|
            0 <= n < r@.len() ==> {
                let shift = shift_at(back_room(parts@, parti as int, i as int), n);
                &&& (#[trigger] r@[n]).1 == shift
                &&& 0 <= parts@[parti as int].span(i as int).start + shift
                &&& parts@[parti as int].span(i as int).end + shift <= parts@[parti as int].parent.nwords(i as int)
                &&& forall|ix: int|
                    0 <= ix < 7 ==> #[trigger] r@[n].0[ix] == words_score(
                        parts@[parti as int].parent,
                        i as int,
                        parts@[parti as int].span(i as int).start + shift,
                        parts@[parti as int].span(i as int).end + shift,
                        ix,
                    )
            },
{
    let part = &parts[parti];
    let bm = part.parent;
    let span = *part.slices.index(i);
    let from = span.start;
    let to = span.end;
    let words = &bm.sides.index(i).words;
    let mut scores: Vec<([u128; 7], isize)> = Vec::new();
    scores.push((score_words(part, i, 0), 0));
    let mut back: usize = 0;
    if parti > 0 && parts[parti - 1].matches {
        let prev = &parts[parti - 1];
        let limit = room_of(prev);
        assert(prev.span(i as int).end == from);
        while back < limit && bytes_eq(words[from - 1 - back].as_slice(), words[to - 1 - back].as_slice())
            invariant
                bm.wf(),
                *words == bm.side(i as int).words,
                part.parent == bm,
                span == part.span(i as int),
                from == span.start,
                to == span.end,
                from < to <= bm.nwords(i as int),
                limit <= from,
                limit <= isize::MAX,
                back <= limit,
                reach_back(bm, i as int, from as int, to as int, limit as int, 0) == reach_back(
                    bm,
                    i as int,
                    from as int,
                    to as int,
                    limit as int,
                    back as int,
                ),
                scores@.len() == 1 + back,
                forall|n: int|
                    0 <= n < scores@.len() ==> {
                        let shift = -n;
                        &&& (#[trigger] scores@[n]).1 == shift
                        &&& forall|ix: int|
                            0 <= ix < 7 ==> #[trigger] scores@[n].0[ix] == words_score(
                                bm,
                                i as int,
                                from + shift,
                                to + shift,
                                ix,
                            )
                    },
            decreases limit - back,
        {
            back += 1;
            let shift: isize = -(back as isize);
            scores.push((score_words(part, i, shift), shift));
        }
    }
    let ghost reached = back as int;
    let mut forth: usize = 0;
    if parti < parts.len() - 1 && parts[parti + 1].matches {
        let next = &parts[parti + 1];
        let limit = room_of(next);
        assert(next.span(i as int).start == to);
        while forth < limit && bytes_eq(words[from + forth].as_slice(), words[to + forth].as_slice())
            invariant
                bm.wf(),
                *words == bm.side(i as int).words,
                part.parent == bm,
                span == part.span(i as int),
                from == span.start,
                to == span.end,
                from < to,
                to + limit <= bm.nwords(i as int),
                limit <= isize::MAX,
                forth <= limit,
                reach_forth(bm, i as int, from as int, to as int, limit as int, 0) == reach_forth(
                    bm,
                    i as int,
                    from as int,
                    to as int,
                    limit as int,
                    forth as int,
                ),
                scores@.len() == 1 + reached + forth,
                0 <= reached <= from,
                forall|n: int|
                    0 <= n < scores@.len() ==> {
                        let shift = shift_at(reached, n);
                        &&& (#[trigger] scores@[n]).1 == shift
                        &&& 0 <= from + shift
                        &&& to + shift <= bm.nwords(i as int)
                        &&& forall|ix: int|
                            0 <= ix < 7 ==> #[trigger] scores@[n].0[ix] == words_score(
                                bm,
                                i as int,
                                from + shift,
                                to + shift,
                                ix,
                            )
                    },
            decreases limit - forth,
        {
            forth += 1;
            let shift: isize = forth as isize;
            scores.push((score_words(part, i, shift), shift));
        }
    }
    proof {
        assert forall|n: int| 0 <= n < scores@.len() implies clear_path(
            parts@,
            parti as int,
            i as int,
            (#[trigger] scores@[n]).1 as int,
        ) by {
            lemma_candidates_clear(parts@, parti as int, i as int, n);
        }
    }
    scores
}

/// The score that is compared in place `k`: first that for the ends of lines,
/// then that for a comma or semicolon at the end, then that for closing
/// brackets, then those for white space at the end and before the start, then
/// that for opening brackets.
pub open spec fn rank(k: int) -> int {
    if k == 2 {
        5
    } else if k == 5 {
        6
    } else if k == 6 {
        2
    } else {
        k
    }
}

/// The score that is compared in place `k`.
fn rank_of(k: usize) -> (r: usize)
    requires
        k < 7,
    ensures
        r == rank(k as int),
        r < 7,
{
    if k == 2 {
        OTHER_SUFFIX
    } else if k == 5 {
        OTHER_PREFIX
    } else if k == 6 {
        2
    } else {
        k
    }
}

/// How two lists of scores stand to each other from place `k` on, the scores
/// taken in the order of `rank`: `-1` where the first to differ is smaller in
/// `a`, `1` where it is larger, `0` where none differs.
pub open spec fn lex_order(a: [u128; 7], b: [u128; 7], k: int) -> int
    decreases 7 - k,
{
    if k < 0 || k >= 7 {
        0
    } else if a[rank(k)] < b[rank(k)] {
        -1
    } else if a[rank(k)] > b[rank(k)] {
        1
    } else {
        lex_order(a, b, k + 1)
    }
}

/// The size of a shift.
pub open spec fn magnitude(shift: int) -> int {
    if shift < 0 {
        -shift
    } else {
        shift
    }
}

/// Candidate `a` is preferred to candidate `b`: its scores are better; or they
/// are the same and its shift is smaller; or as large, and to the back.
pub open spec fn preferred(a: ([u128; 7], isize), b: ([u128; 7], isize)) -> bool {
    ||| lex_order(a.0, b.0, 0) > 0
    ||| (lex_order(a.0, b.0, 0) == 0 && magnitude(a.1 as int) < magnitude(b.1 as int))
    ||| (lex_order(a.0, b.0, 0) == 0 && magnitude(a.1 as int) == magnitude(b.1 as int) && a.1 > b.1)
}

fn order_of(a: &[u128; 7], b: &[u128; 7]) -> (r: i8)
    ensures
        r == lex_order(*a, *b, 0),
{
    let mut k: usize = 0;
    while k < 7
        invariant
            k <= 7,
            lex_order(*a, *b, 0) == lex_order(*a, *b, k as int),
        decreases 7 - k,
    {
        let ix = rank_of(k);
        if a[ix] < b[ix] {
            return -1;
        }
        if a[ix] > b[ix] {
            return 1;
        }
        k += 1;
    }
    0
}

fn size_of(shift: isize) -> (r: usize)
    ensures
        r == magnitude(shift as int),
{
    if shift >= 0 {
        shift as usize
    } else if shift == isize::MIN {
        (isize::MAX as usize) + 1
    } else {
        (-shift) as usize
    }
}

/// The best of the first `n` candidates: the first, unless a later one is
/// preferred to the best before it.
pub open spec fn pick_fold(cands: Seq<([u128; 7], isize)>, n: int) -> int
    decreases n,
{
    if n <= 1 {
        0
    } else {
        let best = pick_fold(cands, n - 1);
        if preferred(cands[n - 1], cands[best]) {
            n - 1
        } else {
            best
        }
    }
}

/// The candidate to which no other is preferred.
fn pick(cands: &Vec<([u128; 7], isize)>) -> (r: usize)
    requires
        cands@.len() > 0,
    ensures
        r < cands@.len(),
        r == pick_fold(cands@, cands@.len() as int),
        forall|n: int| 0 <= n < cands@.len() ==> !preferred(#[trigger] cands@[n], cands@[r as int]),
{
    let mut best: usize = 0;
    let mut n: usize = 1;
    proof {
        lemma_lex_refl(cands@[0].0, 0);
    }
    while n < cands.len()
        invariant
            best < n <= cands@.len(),
            best == pick_fold(cands@, n as int),
            forall|x: int| 0 <= x < n ==> !preferred(#[trigger] cands@[x], cands@[best as int]),
        decreases cands@.len() - n,
    {
        let order = order_of(&cands[n].0, &cands[best].0);
        let size = size_of(cands[n].1);
        let best_size = size_of(cands[best].1);
        if order > 0 || (order == 0 && (size < best_size || (size == best_size && cands[n].1
            > cands[best].1))) {
            proof {
                lemma_preferred_trans(cands@, best as int, n as int);
            }
            best = n;
        }
        n += 1;
    }
    best
}

/// Where no candidate before `n` is preferred to candidate `best` and candidate
/// `n` is preferred to it, no candidate before `n` is preferred to candidate `n`.
proof fn lemma_preferred_trans(cands: Seq<([u128; 7], isize)>, best: int, n: int)
    requires
        0 <= best < n < cands.len(),
        forall|x: int| 0 <= x < n ==> !preferred(#[trigger] cands[x], cands[best]),
        preferred(cands[n], cands[best]),
    ensures
        forall|x: int| 0 <= x <= n ==> !preferred(#[trigger] cands[x], cands[n]),
{
    assert forall|x: int| 0 <= x <= n implies !preferred(#[trigger] cands[x], cands[n]) by {
        lemma_lex_refl(cands[n].0, 0);
        if x < n {
            assert(!preferred(cands[x], cands[best]));
            lemma_lex_trans(cands[x].0, cands[n].0, cands[best].0, 0);
        }
    }
}

proof fn lemma_lex_refl(a: [u128; 7], k: int)
    ensures
        lex_order(a, a, k) == 0,
    decreases 7 - k,
{
    if 0 <= k < 7 {
        lemma_lex_refl(a, k + 1);
    }
}

/// Where `a` stands to `b` no worse than even and `b` to `c` too, `a` stands to
/// `c` as the first of the two that is not even, or even.
proof fn lemma_lex_trans(a: [u128; 7], b: [u128; 7], c: [u128; 7], k: int)
    ensures
        lex_order(a, b, k) >= 0 && lex_order(b, c, k) >= 0 ==> lex_order(a, c, k) >= 0,
        lex_order(a, b, k) > 0 && lex_order(b, c, k) >= 0 ==> lex_order(a, c, k) > 0,
        lex_order(a, b, k) >= 0 && lex_order(b, c, k) > 0 ==> lex_order(a, c, k) > 0,
        lex_order(a, b, k) == 0 && lex_order(b, c, k) == 0 ==> lex_order(a, c, k) == 0,
        lex_order(a, b, k) == 0 ==> lex_order(a, c, k) == lex_order(b, c, k),
    decreases 7 - k,
{
    if 0 <= k < 7 {
        lemma_lex_trans(a, b, c, k + 1);
    }
}

/// `p` with `a` added to the starts of both ranges and `b` to their ends.
pub open spec fn moved<'a>(p: Part<'a>, a: int, b: int) -> Part<'a> {
    Part {
        parent: p.parent,
        matches: p.matches,
        slices: Pair {
            left: Span { start: (p.slices.left.start + a) as usize, end: (p.slices.left.end + b) as usize },
            right: Span {
                start: (p.slices.right.start + a) as usize,
                end: (p.slices.right.end + b) as usize,
            },
        },
    }
}

/// The part that matches, begins where `p` begins and is `s` words long on both sides.
pub open spec fn front_anchor<'a>(p: Part<'a>, s: int) -> Part<'a> {
    Part {
        parent: p.parent,
        matches: true,
        slices: Pair {
            left: Span { start: p.slices.left.start, end: (p.slices.left.start + s) as usize },
            right: Span { start: p.slices.right.start, end: (p.slices.right.start + s) as usize },
        },
    }
}

/// The part that matches, ends where `p` ends and is `s` words long on both sides.
pub open spec fn back_anchor<'a>(p: Part<'a>, s: int) -> Part<'a> {
    Part {
        parent: p.parent,
        matches: true,
        slices: Pair {
            left: Span { start: (p.slices.left.end - s) as usize, end: p.slices.left.end },
            right: Span { start: (p.slices.right.end - s) as usize, end: p.slices.right.end },
        },
    }
}

/// Part `k` is an insertion or a deletion: it does not match, is empty on the
/// side other than `i` and not empty on side `i`.
pub open spec fn one_sided(parts: Seq<Part<'_>>, k: int, i: int) -> bool {
    &&& 0 <= k < parts.len()
    &&& (i == 0 || i == 1)
    &&& !parts[k].matches
    &&& parts[k].span(i).start < parts[k].span(i).end
    &&& parts[k].span(1 - i).start == parts[k].span(1 - i).end
}

/// The `s` words that lie at the start of side `i` of part `k` are the `s` words
/// with which the part after it begins on the other side.
proof fn lemma_words_after(parts: Seq<Part<'_>>, k: int, i: int, s: int, bm: &BlockMaker)
    requires
        parts_of(parts, bm),
        chained(parts),
        one_sided(parts, k, i),
        k + 1 < parts.len(),
        parts[k + 1].matches,
        parts[k + 1].same_words(),
        0 <= s <= room(parts[k + 1]),
        forall|t: int|
            0 <= t < s ==> #[trigger] same_after(
                bm,
                i,
                parts[k].span(i).start as int,
                parts[k].span(i).end as int,
                t,
            ),
    ensures
        forall|t: int|
            0 <= t < s ==> #[trigger] bm.word(i, parts[k].span(i).start + t) == bm.word(
                1 - i,
                parts[k].span(1 - i).start + t,
            ),
{
    let part = parts[k];
    let next = parts[k + 1];
    assert(part.wf() && next.wf());
    assert forall|t: int| 0 <= t < s implies #[trigger] bm.word(i, part.span(i).start + t) == bm.word(
        1 - i,
        part.span(1 - i).start + t,
    ) by {
        assert(same_after(bm, i, part.span(i).start as int, part.span(i).end as int, t));
        assert(next.content(0)[t] == next.content(1)[t]);
        assert(next.content(i)[t] == bm.word(i, next.span(i).start + t));
        assert(next.content(1 - i)[t] == bm.word(1 - i, next.span(1 - i).start + t));
    }
}

/// The `s` words that lie at the end of side `i` of part `k` are the `s` words
/// with which the part before it ends on the other side.
proof fn lemma_words_before(parts: Seq<Part<'_>>, k: int, i: int, s: int, bm: &BlockMaker)
    requires
        parts_of(parts, bm),
        chained(parts),
        one_sided(parts, k, i),
        k > 0,
        parts[k - 1].matches,
        parts[k - 1].same_words(),
        0 <= s <= room(parts[k - 1]),
        forall|t: int|
            0 <= t < s ==> #[trigger] same_before(
                bm,
                i,
                parts[k].span(i).start as int,
                parts[k].span(i).end as int,
                t,
            ),
    ensures
        forall|t: int|
            0 <= t < s ==> #[trigger] bm.word(i, parts[k].span(i).end - 1 - t) == bm.word(
                1 - i,
                parts[k].span(1 - i).end - 1 - t,
            ),
{
    let part = parts[k];
    let prev = parts[k - 1];
    assert(part.wf() && prev.wf());
    let n = prev.slices.left.end - prev.slices.left.start;
    assert(prev.content(0).len() == n);
    assert(prev.content(1).len() == prev.slices.right.end - prev.slices.right.start);
    assert forall|t: int| 0 <= t < s implies #[trigger] bm.word(i, part.span(i).end - 1 - t) == bm.word(
        1 - i,
        part.span(1 - i).end - 1 - t,
    ) by {
        assert(same_before(bm, i, part.span(i).start as int, part.span(i).end as int, t));
        assert(prev.content(0)[n - 1 - t] == prev.content(1)[n - 1 - t]);
        assert(prev.content(i)[n - 1 - t] == bm.word(i, prev.span(i).end - 1 - t));
        assert(prev.content(1 - i)[n - 1 - t] == bm.word(1 - i, prev.span(1 - i).end - 1 - t));
    }
}

/// A part that is lengthened at its end by the same words on both sides holds
/// the same words on both sides if it did.
proof fn lemma_longer_back(p: Part<'_>, q: Part<'_>, s: int, bm: &BlockMaker)
    requires
        p.wf(),
        q.wf(),
        p.parent == bm,
        q.parent == bm,
        p.same_words(),
        0 <= s,
        p.slices.left.end + s <= bm.nwords(0),
        p.slices.right.end + s <= bm.nwords(1),
        q == moved(p, 0, s),
        forall|t: int|
            0 <= t < s ==> #[trigger] bm.word(0, p.slices.left.end + t) == bm.word(1, p.slices.right.end + t),
    ensures
        q.same_words(),
{
    let n = p.slices.left.end - p.slices.left.start;
    assert(p.content(0).len() == n);
    assert(p.content(1).len() == p.slices.right.end - p.slices.right.start);
    assert(q.content(0).len() == n + s);
    assert(q.content(1).len() == n + s);
    assert forall|t: int| 0 <= t < n + s implies #[trigger] q.content(0)[t] == q.content(1)[t] by {
        if t < n {
            assert(p.content(0)[t] == p.content(1)[t]);
        } else {
            assert(bm.word(0, p.slices.left.end + (t - n)) == bm.word(1, p.slices.right.end + (t - n)));
        }
    }
    assert(q.content(0) =~= q.content(1));
}

/// A part that is lengthened at its start by the same words on both sides holds
/// the same words on both sides if it did.
proof fn lemma_longer_front(p: Part<'_>, q: Part<'_>, s: int, bm: &BlockMaker)
    requires
        p.wf(),
        q.wf(),
        p.parent == bm,
        q.parent == bm,
        p.same_words(),
        0 <= s <= p.slices.left.start,
        s <= p.slices.right.start,
        q == moved(p, -s, 0),
        forall|t: int|
            0 <= t < s ==> #[trigger] bm.word(0, p.slices.left.start - 1 - t) == bm.word(
                1,
                p.slices.right.start - 1 - t,
            ),
    ensures
        q.same_words(),
{
    let n = p.slices.left.end - p.slices.left.start;
    assert(p.content(0).len() == n);
    assert(p.content(1).len() == p.slices.right.end - p.slices.right.start);
    assert(q.content(0).len() == n + s);
    assert(q.content(1).len() == n + s);
    assert forall|t: int| 0 <= t < n + s implies #[trigger] q.content(0)[t] == q.content(1)[t] by {
        if t >= s {
            assert(p.content(0)[t - s] == p.content(1)[t - s]);
        } else {
            assert(bm.word(0, p.slices.left.start - 1 - (s - 1 - t)) == bm.word(
                1,
                p.slices.right.start - 1 - (s - 1 - t),
            ));
        }
    }
    assert(q.content(0) =~= q.content(1));
}

/// Moves part `k`, an insertion or a deletion, `s` words to the back through the
/// part after it: the part before it is lengthened by these words, the part
/// after it shortened. Where part `k` is the first, what would lengthen the part
/// before it is handed back as a part of its own.
fn move_forth<'a>(parts: &mut Vec<Part<'a>>, k: usize, s: usize, i: usize, Ghost(bm): Ghost<&BlockMaker>) -> (anchor:
    Option<Part<'a>>)
    requires
        parts_of(old(parts)@, bm),
        chained(old(parts)@),
        one_sided(old(parts)@, k as int, i as int),
        k + 1 < old(parts)@.len(),
        old(parts)@[k + 1].matches,
        1 <= s <= room(old(parts)@[k + 1]),
        forall|t: int|
            0 <= t < s ==> #[trigger] same_after(
                bm,
                i as int,
                old(parts)@[k as int].span(i as int).start as int,
                old(parts)@[k as int].span(i as int).end as int,
                t,
            ),
    ensures
        final(parts)@.len() == old(parts)@.len(),
        parts_of(final(parts)@, bm),
        chained(final(parts)@),
        final(parts)@.last().slices.left.end == old(parts)@.last().slices.left.end,
        final(parts)@.last().slices.right.end == old(parts)@.last().slices.right.end,
        final(parts)@[k as int] == moved(old(parts)@[k as int], s as int, s as int),
        final(parts)@[k + 1] == moved(old(parts)@[k + 1], s as int, 0),
        k > 0 ==> anchor.is_none() && final(parts)@[k - 1] == moved(old(parts)@[k - 1], 0, s as int)
            && final(parts)@[0].slices.left.start == old(parts)@[0].slices.left.start && final(parts)@[0].slices.right.start == old(parts)@[0].slices.right.start,
        k == 0 ==> anchor == Some(front_anchor(old(parts)@[0], s as int)) && anchor.unwrap().wf(),
        forall|x: int|
            0 <= x < old(parts)@.len() && x != k - 1 && x != k && x != k + 1 ==> #[trigger] final(parts)@[x]
                == old(parts)@[x],
        all_sound(old(parts)@) ==> all_sound(final(parts)@) && (k == 0 ==> anchor.unwrap().sound()),
        (final(parts)@, anchor, None::<Part<'a>>) == step_forth(old(parts)@, k as int, s as int),
{
    let ghost before = parts@;
    let count = parts.len();
    let part = parts[k];
    let next = parts[k + 1];
    assert(part.wf() && next.wf());
    let new_part = Part {
        parent: part.parent,
        matches: part.matches,
        slices: Pair {
            left: Span::new(part.slices.left.start + s, part.slices.left.end + s),
            right: Span::new(part.slices.right.start + s, part.slices.right.end + s),
        },
    };
    let new_next = Part {
        parent: next.parent,
        matches: next.matches,
        slices: Pair {
            left: Span::new(next.slices.left.start + s, next.slices.left.end),
            right: Span::new(next.slices.right.start + s, next.slices.right.end),
        },
    };
    let ghost sound = all_sound(before);
    proof {
        if sound {
            assert(next.sound());
            let n = next.slices.left.end - next.slices.left.start;
            assert(next.content(0).len() == n);
            assert(next.content(1).len() == next.slices.right.end - next.slices.right.start);
            next.lemma_piece_sound(new_next, s as int, n);
            lemma_words_after(before, k as int, i as int, s as int, bm);
        }
    }
    let anchor = if k > 0 {
        let prev = parts[k - 1];
        assert(prev.wf());
        let new_prev = Part {
            parent: prev.parent,
            matches: prev.matches,
            slices: Pair {
                left: Span::new(prev.slices.left.start, prev.slices.left.end + s),
                right: Span::new(prev.slices.right.start, prev.slices.right.end + s),
            },
        };
        proof {
            if sound && prev.matches {
                assert(prev.sound());
                lemma_longer_back(prev, new_prev, s as int, bm);
            }
        }
        parts[k - 1] = new_prev;
        None
    } else {
        let first = Part {
            parent: part.parent,
            matches: true,
            slices: Pair {
                left: Span::new(part.slices.left.start, part.slices.left.start + s),
                right: Span::new(part.slices.right.start, part.slices.right.start + s),
            },
        };
        proof {
            if sound {
                let empty = front_anchor(part, 0);
                assert(empty.content(0) =~= empty.content(1));
                assert(first == moved(empty, 0, s as int));
                lemma_longer_back(empty, first, s as int, bm);
            }
        }
        Some(first)
    };
    parts[k] = new_part;
    parts[k + 1] = new_next;
    proof {
        if sound {
            assert forall|x: int| 0 <= x < parts@.len() implies (#[trigger] parts@[x]).sound() by {
                if x != k - 1 && x != k && x != k + 1 {
                    assert(before[x].sound());
                } else if x == k - 1 {
                    assert(before[x].sound());
                }
            }
        }
        assert(parts@ =~= step_forth(before, k as int, s as int).0);
    }
    anchor
}

/// Moves part `k`, an insertion or a deletion, `s` words to the front through
/// the part before it: the part after it is lengthened by these words, the part
/// before it shortened. Where part `k` is the last, what would lengthen the part
/// after it is handed back as a part of its own.
fn move_back<'a>(parts: &mut Vec<Part<'a>>, k: usize, s: usize, i: usize, Ghost(bm): Ghost<&BlockMaker>) -> (anchor:
    Option<Part<'a>>)
    requires
        parts_of(old(parts)@, bm),
        chained(old(parts)@),
        one_sided(old(parts)@, k as int, i as int),
        k > 0,
        old(parts)@[k - 1].matches,
        1 <= s <= room(old(parts)@[k - 1]),
        forall|t: int|
            0 <= t < s ==> #[trigger] same_before(
                bm,
                i as int,
                old(parts)@[k as int].span(i as int).start as int,
                old(parts)@[k as int].span(i as int).end as int,
                t,
            ),
    ensures
        final(parts)@.len() == old(parts)@.len(),
        parts_of(final(parts)@, bm),
        chained(final(parts)@),
        final(parts)@[0].slices.left.start == old(parts)@[0].slices.left.start,
        final(parts)@[0].slices.right.start == old(parts)@[0].slices.right.start,
        final(parts)@[k as int] == moved(old(parts)@[k as int], -s, -s),
        final(parts)@[k - 1] == moved(old(parts)@[k - 1], 0, -s),
        k + 1 < old(parts)@.len() ==> anchor.is_none() && final(parts)@[k + 1] == moved(
            old(parts)@[k + 1],
            -s,
            0,
        ) && final(parts)@.last().slices.left.end == old(parts)@.last().slices.left.end && final(parts)@.last().slices.right.end == old(parts)@.last().slices.right.end,
        k + 1 == old(parts)@.len() ==> anchor == Some(back_anchor(old(parts)@[k as int], s as int))
            && anchor.unwrap().wf(),
        forall|x: int|
            0 <= x < old(parts)@.len() && x != k - 1 && x != k && x != k + 1 ==> #[trigger] final(parts)@[x]
                == old(parts)@[x],
        all_sound(old(parts)@) ==> all_sound(final(parts)@) && (k + 1 == old(parts)@.len()
            ==> anchor.unwrap().sound()),
        (final(parts)@, None::<Part<'a>>, anchor) == step_back(old(parts)@, k as int, s as int),
{
    let ghost before = parts@;
    let part = parts[k];
    let prev = parts[k - 1];
    assert(part.wf() && prev.wf());
    let new_part = Part {
        parent: part.parent,
        matches: part.matches,
        slices: Pair {
            left: Span::new(part.slices.left.start - s, part.slices.left.end - s),
            right: Span::new(part.slices.right.start - s, part.slices.right.end - s),
        },
    };
    let new_prev = Part {
        parent: prev.parent,
        matches: prev.matches,
        slices: Pair {
            left: Span::new(prev.slices.left.start, prev.slices.left.end - s),
            right: Span::new(prev.slices.right.start, prev.slices.right.end - s),
        },
    };
    let ghost sound = all_sound(before);
    proof {
        if sound {
            assert(prev.sound());
            let n = prev.slices.left.end - prev.slices.left.start;
            assert(prev.content(0).len() == n);
            assert(prev.content(1).len() == prev.slices.right.end - prev.slices.right.start);
            prev.lemma_piece_sound(new_prev, 0, n - s);
            lemma_words_before(before, k as int, i as int, s as int, bm);
        }
    }
    let anchor = if k < parts.len() - 1 {
        let next = parts[k + 1];
        assert(next.wf());
        let new_next = Part {
            parent: next.parent,
            matches: next.matches,
            slices: Pair {
                left: Span::new(next.slices.left.start - s, next.slices.left.end),
                right: Span::new(next.slices.right.start - s, next.slices.right.end),
            },
        };
        proof {
            if sound && next.matches {
                assert(next.sound());
                lemma_longer_front(next, new_next, s as int, bm);
            }
        }
        parts[k + 1] = new_next;
        None
    } else {
        let last = Part {
            parent: part.parent,
            matches: true,
            slices: Pair {
                left: Span::new(part.slices.left.end - s, part.slices.left.end),
                right: Span::new(part.slices.right.end - s, part.slices.right.end),
            },
        };
        proof {
            if sound {
                let empty = back_anchor(part, 0);
                assert(empty.content(0) =~= empty.content(1));
                assert(last == moved(empty, -s, 0));
                lemma_longer_front(empty, last, s as int, bm);
            }
        }
        Some(last)
    };
    parts[k] = new_part;
    parts[k - 1] = new_prev;
    proof {
        if sound {
            assert forall|x: int| 0 <= x < parts@.len() implies (#[trigger] parts@[x]).sound() by {
                if x != k - 1 && x != k && x != k + 1 {
                    assert(before[x].sound());
                } else if x == k + 1 {
                    assert(before[x].sound());
                }
            }
        }
        assert(parts@ =~= step_back(before, k as int, s as int).0);
    }
    anchor
}

/// `first`, then `parts`, then `last`, as far as they are there.
pub open spec fn with_anchors<'a>(first: Option<Part<'a>>, parts: Seq<Part<'a>>, last: Option<Part<'a>>) -> Seq<
    Part<'a>,
> {
    let head = match first {
        Some(a) => seq![a],
        None => Seq::empty(),
    };
    let tail = match last {
        Some(b) => seq![b],
        None => Seq::empty(),
    };
    head + parts + tail
}

/// An anchor that ends where the parts begin, the parts, and an anchor that begins
/// where they end are parts of which each begins where the one before it ends.
proof fn lemma_with_anchors<'a>(first: Option<Part<'a>>, parts: Seq<Part<'a>>, last: Option<Part<'a>>, bm: &BlockMaker)
    requires
        parts.len() > 0,
        parts_of(parts, bm),
        chained(parts),
        match first {
            Some(a) => a.wf() && a.parent == bm && a.slices.left.end == parts[0].slices.left.start
                && a.slices.right.end == parts[0].slices.right.start,
            None => true,
        },
        match last {
            Some(b) => b.wf() && b.parent == bm && b.slices.left.start == parts.last().slices.left.end
                && b.slices.right.start == parts.last().slices.right.end,
            None => true,
        },
    ensures
        parts_of(with_anchors(first, parts, last), bm),
        chained(with_anchors(first, parts, last)),
        with_anchors(first, parts, last).len() > 0,
        with_anchors(first, parts, last)[0] == match first {
            Some(a) => a,
            None => parts[0],
        },
        with_anchors(first, parts, last).last() == match last {
            Some(b) => b,
            None => parts.last(),
        },
        all_sound(parts) && (first.is_some() ==> first.unwrap().sound()) && (last.is_some()
            ==> last.unwrap().sound()) ==> all_sound(with_anchors(first, parts, last)),
{
    let all = with_anchors(first, parts, last);
    let h: int = if first.is_some() {
        1
    } else {
        0
    };
    assert forall|n: int| 0 <= n < all.len() implies (#[trigger] all[n]).wf() && all[n].parent == bm by {
        if n < h {
        } else if n < h + parts.len() {
            assert(all[n] == parts[n - h]);
        } else {
        }
    }
    assert forall|n: int| 0 <= n < all.len() - 1 implies (#[trigger] all[n]).slices.left.end == all[n
        + 1].slices.left.start && all[n].slices.right.end == all[n + 1].slices.right.start by {
        if n < h {
            assert(all[n + 1] == parts[0]);
        } else if n + 1 < h + parts.len() {
            assert(all[n] == parts[n - h]);
            assert(all[n + 1] == parts[n + 1 - h]);
        } else {
            assert(all[n] == parts[n - h]);
        }
    }
    if all_sound(parts) && (first.is_some() ==> first.unwrap().sound()) && (last.is_some()
        ==> last.unwrap().sound()) {
        assert forall|n: int| 0 <= n < all.len() implies (#[trigger] all[n]).sound() by {
            if n < h {
            } else if n < h + parts.len() {
                assert(all[n] == parts[n - h]);
            } else {
            }
        }
    }
    if first.is_none() {
        assert(all[0] == parts[0]);
    }
    if last.is_none() {
        assert(all[all.len() - 1] == parts[parts.len() - 1]);
    }
}

/// How the scores of the words `from..to` of side `i` moved by `one` stand to
/// their scores moved by `other`, from place `k` on, in the order of `rank`.
pub open spec fn score_order(bm: &BlockMaker, i: int, from: int, to: int, one: int, other: int, k: int) -> int
    decreases 7 - k,
{
    if k < 0 || k >= 7 {
        0
    } else if words_score(bm, i, from + one, to + one, rank(k)) < words_score(
        bm,
        i,
        from + other,
        to + other,
        rank(k),
    ) {
        -1
    } else if words_score(bm, i, from + one, to + one, rank(k)) > words_score(
        bm,
        i,
        from + other,
        to + other,
        rank(k),
    ) {
        1
    } else {
        score_order(bm, i, from, to, one, other, k + 1)
    }
}

/// The shift `one` is preferred to the shift `other`: its scores are better; or they
/// are the same and it is smaller; or as large, and to the back.
pub open spec fn shift_preferred(bm: &BlockMaker, i: int, from: int, to: int, one: int, other: int) -> bool {
    ||| score_order(bm, i, from, to, one, other, 0) > 0
    ||| (score_order(bm, i, from, to, one, other, 0) == 0 && magnitude(one) < magnitude(other))
    ||| (score_order(bm, i, from, to, one, other, 0) == 0 && magnitude(one) == magnitude(other) && one > other)
}

/// The best of the first `n` shifts that are tried for part `k` on side `i`.
pub open spec fn best_candidate(parts: Seq<Part<'_>>, k: int, i: int, n: int) -> int
    decreases n,
{
    if n <= 1 {
        0
    } else {
        let best = best_candidate(parts, k, i, n - 1);
        let back = back_room(parts, k, i);
        if shift_preferred(
            parts[k].parent,
            i,
            parts[k].span(i).start as int,
            parts[k].span(i).end as int,
            shift_at(back, n - 1),
            shift_at(back, best),
        ) {
            n - 1
        } else {
            best
        }
    }
}

/// The shift by which part `k` scores best on side `i`.
pub open spec fn best_shift(parts: Seq<Part<'_>>, k: int, i: int) -> int {
    shift_at(
        back_room(parts, k, i),
        best_candidate(parts, k, i, 1 + back_room(parts, k, i) + forth_room(parts, k, i)),
    )
}

/// The best of the first `n` shifts is one of them.
pub proof fn lemma_best_candidate(parts: Seq<Part<'_>>, k: int, i: int, n: int)
    requires
        1 <= n,
    ensures
        0 <= best_candidate(parts, k, i, n) < n,
    decreases n,
{
    if n > 1 {
        lemma_best_candidate(parts, k, i, n - 1);
    }
}

/// The shift that is chosen for a part is one of the shifts that are tried: it
/// moves the part through a part that matches only, and past no word that is
/// not the word that the part leaves behind.
pub proof fn lemma_best_shift_clear(parts: Seq<Part<'_>>, k: int, i: int)
    requires
        0 <= k < parts.len(),
    ensures
        clear_path(parts, k, i, best_shift(parts, k, i)),
{
    let bm = parts[k].parent;
    let from = parts[k].span(i).start as int;
    let to = parts[k].span(i).end as int;
    if k > 0 && parts[k - 1].matches {
        lemma_reach_back(bm, i, from, to, room(parts[k - 1]), 0);
    }
    if k + 1 < parts.len() && parts[k + 1].matches {
        lemma_reach_forth(bm, i, from, to, room(parts[k + 1]), 0);
    }
    let back = back_room(parts, k, i);
    let forth = forth_room(parts, k, i);
    if back >= 0 && forth >= 0 {
        lemma_best_candidate(parts, k, i, 1 + back + forth);
        lemma_candidates_clear(parts, k, i, best_candidate(parts, k, i, 1 + back + forth));
    }
}

/// The scores of two candidates stand to each other as the scores of their shifts.
proof fn lemma_orders_agree(
    bm: &BlockMaker,
    i: int,
    from: int,
    to: int,
    a: ([u128; 7], isize),
    b: ([u128; 7], isize),
    k: int,
)
    requires
        forall|ix: int| 0 <= ix < 7 ==> #[trigger] a.0[ix] == words_score(bm, i, from + a.1, to + a.1, ix),
        forall|ix: int| 0 <= ix < 7 ==> #[trigger] b.0[ix] == words_score(bm, i, from + b.1, to + b.1, ix),
    ensures
        lex_order(a.0, b.0, k) == score_order(bm, i, from, to, a.1 as int, b.1 as int, k),
    decreases 7 - k,
{
    if 0 <= k < 7 {
        assert(a.0[rank(k)] == words_score(bm, i, from + a.1, to + a.1, rank(k)));
        assert(b.0[rank(k)] == words_score(bm, i, from + b.1, to + b.1, rank(k)));
        lemma_orders_agree(bm, i, from, to, a, b, k + 1);
    }
}

/// The best of candidates that hold the scores of their shifts is the best shift.
proof fn lemma_pick_is_best(parts: Seq<Part<'_>>, k: int, i: int, cands: Seq<([u128; 7], isize)>, n: int)
    requires
        0 <= k < parts.len(),
        1 <= n <= cands.len(),
        forall|x: int|
            0 <= x < cands.len() ==> {
                let shift = shift_at(back_room(parts, k, i), x);
                &&& (#[trigger] cands[x]).1 == shift
                &&& forall|ix: int|
                    0 <= ix < 7 ==> #[trigger] cands[x].0[ix] == words_score(
                        parts[k].parent,
                        i,
                        parts[k].span(i).start + shift,
                        parts[k].span(i).end + shift,
                        ix,
                    )
            },
    ensures
        pick_fold(cands, n) == best_candidate(parts, k, i, n),
        0 <= pick_fold(cands, n) < n,
    decreases n,
{
    if n > 1 {
        lemma_pick_is_best(parts, k, i, cands, n - 1);
        let best = pick_fold(cands, n - 1);
        let bm = parts[k].parent;
        let from = parts[k].span(i).start as int;
        let to = parts[k].span(i).end as int;
        let a = cands[n - 1];
        let b = cands[best];
        lemma_orders_agree(bm, i, from, to, a, b, 0);
    }
}

/// Part `k` is an insertion or a deletion: it does not match and is empty on one
/// side only.
pub open spec fn shiftable(part: Part<'_>) -> bool {
    !part.matches && (part.spec_is_empty(0) != part.spec_is_empty(1))
}

/// The side on which an insertion or a deletion holds words.
pub open spec fn filled_side(part: Part<'_>) -> int {
    if part.spec_is_empty(0) {
        1
    } else {
        0
    }
}

/// The parts once part `k` is moved `s` words to the back: the part after it
/// loses these words, and the part before it gains them, or, where there is
/// none, they become a part of their own.
pub open spec fn step_forth<'a>(parts: Seq<Part<'a>>, k: int, s: int) -> (
    Seq<Part<'a>>,
    Option<Part<'a>>,
    Option<Part<'a>>,
) {
    let moved_on = parts.update(k, moved(parts[k], s, s)).update(k + 1, moved(parts[k + 1], s, 0));
    if k > 0 {
        (moved_on.update(k - 1, moved(parts[k - 1], 0, s)), None, None)
    } else {
        (moved_on, Some(front_anchor(parts[k], s)), None)
    }
}

/// The parts once part `k` is moved `s` words to the front: the part before it
/// loses these words, and the part after it gains them, or, where there is
/// none, they become a part of their own.
pub open spec fn step_back<'a>(parts: Seq<Part<'a>>, k: int, s: int) -> (
    Seq<Part<'a>>,
    Option<Part<'a>>,
    Option<Part<'a>>,
) {
    let moved_on = parts.update(k, moved(parts[k], -s, -s)).update(k - 1, moved(parts[k - 1], 0, -s));
    if k + 1 < parts.len() {
        (moved_on.update(k + 1, moved(parts[k + 1], -s, 0)), None, None)
    } else {
        (moved_on, None, Some(back_anchor(parts[k], s)))
    }
}

/// The parts once part `k` is moved to where it scores best, with what it leaves
/// behind at the very start and at the very end.
pub open spec fn shift_step<'a>(parts: Seq<Part<'a>>, k: int) -> (Seq<Part<'a>>, Option<Part<'a>>, Option<Part<'a>>) {
    let part = parts[k];
    let s = best_shift(parts, k, filled_side(part));
    if shiftable(part) && s > 0 {
        step_forth(parts, k, s)
    } else if shiftable(part) && s < 0 {
        step_back(parts, k, -s)
    } else {
        (parts, None, None)
    }
}

/// The parts once the first `n` of them are moved, one after the other.
pub open spec fn shift_fold<'a>(parts: Seq<Part<'a>>, n: int) -> (Seq<Part<'a>>, Option<Part<'a>>, Option<Part<'a>>)
    decreases n,
{
    if n <= 0 {
        (parts, None, None)
    } else {
        let before = shift_fold(parts, n - 1);
        let step = shift_step(before.0, n - 1);
        (
            step.0,
            if step.1.is_some() {
                step.1
            } else {
                before.1
            },
            if step.2.is_some() {
                step.2
            } else {
                before.2
            },
        )
    }
}

/// Moving the first `n` parts leaves the parts as many as they were, each with
/// the flag that it had; what is left behind at the very start or at the very
/// end matches.
pub proof fn lemma_shift_fold_keeps(parts: Seq<Part<'_>>, n: int)
    requires
        0 <= n <= parts.len(),
    ensures
        shift_fold(parts, n).0.len() == parts.len(),
        forall|k: int| 0 <= k < parts.len() ==> (#[trigger] shift_fold(parts, n).0[k]).matches == parts[k].matches,
        shift_fold(parts, n).1.is_some() ==> shift_fold(parts, n).1.unwrap().matches,
        shift_fold(parts, n).2.is_some() ==> shift_fold(parts, n).2.unwrap().matches,
    decreases n,
{
    if n > 0 {
        lemma_shift_fold_keeps(parts, n - 1);
        let before = shift_fold(parts, n - 1);
        let k = n - 1;
        let part = before.0[k];
        lemma_best_shift_clear(before.0, k, filled_side(part));
        let step = shift_step(before.0, k);
        assert(step.0.len() == parts.len());
        assert forall|x: int| 0 <= x < parts.len() implies (#[trigger] step.0[x]).matches == parts[x].matches by {
            assert(before.0[x].matches == parts[x].matches);
        }
    }
}

/// Moving the insertions and deletions keeps the parts in their order, each
/// with the flag that it had, and adds no more than a part that matches at
/// the very start and one at the very end.
pub proof fn lemma_shifted_keeps(parts: Seq<Part<'_>>)
    requires
        parts.len() >= 2,
    ensures
        spec_shifted(parts) == with_anchors(
            shift_fold(parts, parts.len() as int).1,
            shift_fold(parts, parts.len() as int).0,
            shift_fold(parts, parts.len() as int).2,
        ),
        shift_fold(parts, parts.len() as int).0.len() == parts.len(),
        forall|k: int|
            0 <= k < parts.len() ==> (#[trigger] shift_fold(parts, parts.len() as int).0[k]).matches
                == parts[k].matches,
        parts.len() <= spec_shifted(parts).len() <= parts.len() + 2,
{
    lemma_shift_fold_keeps(parts, parts.len() as int);
}

/// The parts once every insertion and deletion is moved to where it scores
/// best; fewer than two parts stay as they are.
pub open spec fn spec_shifted<'a>(parts: Seq<Part<'a>>) -> Seq<Part<'a>> {
    if parts.len() < 2 {
        parts
    } else {
        let moved_on = shift_fold(parts, parts.len() as int);
        with_anchors(moved_on.1, moved_on.0, moved_on.2)
    }
}

/// An anchor that stands for the start of `before`: it begins where `before`
/// begins and ends where `after` begins; without one, `after` begins where
/// `before` begins.
pub open spec fn front_ok<'a>(anchor: Option<Part<'a>>, before: Seq<Part<'a>>, after: Seq<Part<'a>>, bm: &BlockMaker) -> bool {
    match anchor {
        Some(a) => {
            &&& a.wf()
            &&& a.parent == bm
            &&& a.slices.left.start == before[0].slices.left.start
            &&& a.slices.right.start == before[0].slices.right.start
            &&& a.slices.left.end == after[0].slices.left.start
            &&& a.slices.right.end == after[0].slices.right.start
        },
        None => {
            &&& after[0].slices.left.start == before[0].slices.left.start
            &&& after[0].slices.right.start == before[0].slices.right.start
        },
    }
}

/// The same for the end.
pub open spec fn back_ok<'a>(anchor: Option<Part<'a>>, before: Seq<Part<'a>>, after: Seq<Part<'a>>, bm: &BlockMaker) -> bool {
    match anchor {
        Some(b) => {
            &&& b.wf()
            &&& b.parent == bm
            &&& b.slices.left.end == before.last().slices.left.end
            &&& b.slices.right.end == before.last().slices.right.end
            &&& b.slices.left.start == after.last().slices.left.end
            &&& b.slices.right.start == after.last().slices.right.end
        },
        None => {
            &&& after.last().slices.left.end == before.last().slices.left.end
            &&& after.last().slices.right.end == before.last().slices.right.end
        },
    }
}

/// The shift by which part `k`, an insertion or a deletion, scores best.
fn choose_shift<'a>(parts: &Vec<Part<'a>>, k: usize, side: usize, Ghost(bm): Ghost<&BlockMaker>) -> (shift: isize)
    requires
        parts_of(parts@, bm),
        chained(parts@),
        one_sided(parts@, k as int, side as int),
    ensures
        shift == best_shift(parts@, k as int, side as int),
        clear_path(parts@, k as int, side as int, shift as int),
{
    let cands = score_part_shift(parts, k, side);
    let best = pick(&cands);
    proof {
        lemma_pick_is_best(parts@, k as int, side as int, cands@, cands@.len() as int);
    }
    cands[best].1
}

/// Moves part `k` to where it scores best, if it is an insertion or a deletion.
/// What it leaves behind at the very start or end is handed back.
fn shift_one<'a>(parts: &mut Vec<Part<'a>>, k: usize, Ghost(bm): Ghost<&BlockMaker>) -> (r: (
    Option<Part<'a>>,
    Option<Part<'a>>,
))
    requires
        parts_of(old(parts)@, bm),
        chained(old(parts)@),
        k < old(parts)@.len(),
    ensures
        final(parts)@.len() == old(parts)@.len(),
        parts_of(final(parts)@, bm),
        chained(final(parts)@),
        all_sound(old(parts)@) ==> all_sound(final(parts)@) && (r.0.is_some() ==> r.0.unwrap().sound())
            && (r.1.is_some() ==> r.1.unwrap().sound()),
        front_ok(r.0, old(parts)@, final(parts)@, bm),
        back_ok(r.1, old(parts)@, final(parts)@, bm),
        r.0.is_some() ==> k == 0,
        r.1.is_some() ==> k == old(parts)@.len() - 1,
        (final(parts)@, r.0, r.1) == shift_step(old(parts)@, k as int),
{
    let part = parts[k];
    assert(part.wf() && part.parent == bm);
    if !part.matches && (part.is_empty(0) != part.is_empty(1)) {
        let side: usize = if part.is_empty(0) {
            1
        } else {
            0
        };
        let shift = choose_shift(parts, k, side, Ghost(bm));
        if shift > 0 {
            let anchor = move_forth(parts, k, shift as usize, side, Ghost(bm));
            return (anchor, None);
        } else if shift < 0 {
            let anchor = move_back(parts, k, size_of(shift), side, Ghost(bm));
            return (None, anchor);
        }
    }
    (None, None)
}

/// Moves each insertion and each deletion through the parts that match before
/// and after it to the place where it scores best; of places that score alike,
/// to the nearest, and of two as near, to the one further back. What an
/// insertion at the very start or end leaves behind becomes a part of its own.
/// The parts cover what they covered, and a part that holds the same words on
/// both sides still does.
pub fn shift_parts<'a>(parts: &mut Vec<Part<'a>>)
    requires
        old(parts)@.len() > 0 ==> parts_of(old(parts)@, old(parts)@[0].parent),
        chained(old(parts)@),
    ensures
        old(parts)@.len() > 0 ==> parts_of(final(parts)@, old(parts)@[0].parent),
        chained(final(parts)@),
        (final(parts)@.len() == 0) == (old(parts)@.len() == 0),
        old(parts)@.len() > 0 ==> {
            &&& final(parts)@[0].slices.left.start == old(parts)@[0].slices.left.start
            &&& final(parts)@[0].slices.right.start == old(parts)@[0].slices.right.start
            &&& final(parts)@.last().slices.left.end == old(parts)@.last().slices.left.end
            &&& final(parts)@.last().slices.right.end == old(parts)@.last().slices.right.end
        },
        all_sound(old(parts)@) ==> all_sound(final(parts)@),
        old(parts)@.len() > 0 ==> keeps_extent(old(parts)@, final(parts)@, old(parts)@[0].parent),
        final(parts)@ == spec_shifted(old(parts)@),
{
    if parts.len() > 0 {
        let ghost bm = parts@[0].parent;
        shift_within(parts, Ghost(bm));
    }
}

/// Shifts the parts, which are parts of `bm`.
pub(crate) fn shift_within<'a>(parts: &mut Vec<Part<'a>>, Ghost(bm): Ghost<&BlockMaker>)
    requires
        parts_of(old(parts)@, bm),
        chained(old(parts)@),
    ensures
        parts_of(final(parts)@, bm),
        chained(final(parts)@),
        (final(parts)@.len() == 0) == (old(parts)@.len() == 0),
        old(parts)@.len() > 0 ==> {
            &&& final(parts)@[0].slices.left.start == old(parts)@[0].slices.left.start
            &&& final(parts)@[0].slices.right.start == old(parts)@[0].slices.right.start
            &&& final(parts)@.last().slices.left.end == old(parts)@.last().slices.left.end
            &&& final(parts)@.last().slices.right.end == old(parts)@.last().slices.right.end
        },
        all_sound(old(parts)@) ==> all_sound(final(parts)@),
        keeps_extent(old(parts)@, final(parts)@, bm),
        final(parts)@ == spec_shifted(old(parts)@),
{
    let count = parts.len();
    if count < 2 {
        return ;
    }
    let ghost start = parts@;
    let ghost sound = all_sound(start);
    let mut insert_start: Option<Part<'a>> = None;
    let mut insert_end: Option<Part<'a>> = None;
    let mut k: usize = 0;
    while k < count
        invariant
            count == parts@.len(),
            count == start.len(),
            count >= 2,
            k <= count,
            parts_of(parts@, bm),
            chained(parts@),
            sound ==> all_sound(parts@),
            sound && insert_start.is_some() ==> insert_start.unwrap().sound(),
            sound && insert_end.is_some() ==> insert_end.unwrap().sound(),
            front_ok(insert_start, start, parts@, bm),
            back_ok(insert_end, start, parts@, bm),
            insert_start.is_some() ==> k > 0,
            insert_end.is_some() ==> k == count,
            (parts@, insert_start, insert_end) == shift_fold(start, k as int),
        decreases count - k,
    {
        let ghost before = parts@;
        let (front, back) = shift_one(parts, k, Ghost(bm));
        if front.is_some() {
            insert_start = front;
        }
        if back.is_some() {
            insert_end = back;
        }
        k += 1;
    }
    let ghost moved_parts = parts@;
    proof {
        lemma_with_anchors(insert_start, moved_parts, insert_end, bm);
    }
    let mut out: Vec<Part<'a>> = Vec::new();
    match insert_start {
        Some(a) => {
            out.push(a);
        },
        None => {},
    }
    crate::block::append_parts(&mut out, parts);
    match insert_end {
        Some(b) => {
            out.push(b);
        },
        None => {},
    }
    assert(out@ =~= with_anchors(insert_start, moved_parts, insert_end));
    *parts = out;
    proof {
        let l0 = start[0].slices.left.start as int;
        let l1 = start.last().slices.left.end as int;
        let r0 = start[0].slices.right.start as int;
        let r1 = start.last().slices.right.end as int;
        assert forall|a0: int, a1: int, b0: int, b1: int| #[trigger]
            chain(start, bm, a0, a1, b0, b1) implies chain(parts@, bm, a0, a1, b0, b1) by {
            assert(a0 == l0 && a1 == l1 && b0 == r0 && b1 == r1);
        }
    }
}

} // verus!
