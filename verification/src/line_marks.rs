//! The line numbers that stand before the lines of the output: they never fall,
//! and each is the number of the line that its word lies on, that of the other
//! side too where it is shown.

use crate::block::Block;
use crate::block_maker::BlockMaker;
use crate::part::{all_sound, chained, parts_of, Part};
use crate::render::{mark_at, spec_all_context, Cursor, Drawn, Mark, MergeMarkers, Numbering, Painter};
use crate::style::Style;
use crate::style_opts::StyleOpts;
use vstd::prelude::*;

verus! {

/// The number of the line of word `w` of side `i`.
pub open spec fn lineno(bm: &BlockMaker, i: int, w: int) -> int {
    bm.line_of(i, w) + bm.line_numbers.side(i)
}

/// The line number of side `i` that the cursor holds is the number of the line of
/// word `x`, if there is such a word.
pub open spec fn tracks(bm: &BlockMaker, c: Cursor, i: int, x: int) -> bool {
    x < bm.nwords(i) ==> c.line(i) == lineno(bm, i, x)
}

/// The mark stands before a word of its side, and its line number of that side
/// is the number of the line of the word. Where the line number of the other
/// side is shown too, it is the number of the line of the word of that side.
pub open spec fn mark_agrees(bm: &BlockMaker, m: Mark) -> bool {
    &&& m.side == 0 || m.side == 1
    &&& 0 <= m.word < bm.nwords(m.side)
    &&& m.line(m.side) == lineno(bm, m.side, m.word)
    &&& match m.other {
        Some(v) => 0 <= v < bm.nwords(1 - m.side) && m.line(1 - m.side) == lineno(bm, 1 - m.side, v),
        None => true,
    }
}

/// Every mark agrees with the line of its word.
pub open spec fn marks_agree(bm: &BlockMaker, marks: Seq<Mark>) -> bool {
    forall|n: int| 0 <= n < marks.len() ==> mark_agrees(bm, #[trigger] marks[n])
}

/// The line numbers of `a` are no higher than those of `b`.
pub open spec fn no_later(a: Cursor, b: Cursor) -> bool {
    a.left <= b.left && a.right <= b.right
}

/// The line numbers of the marks never fall, and lie between those of `lo` and `hi`.
pub open spec fn marks_ascend(marks: Seq<Mark>, lo: Cursor, hi: Cursor) -> bool {
    &&& forall|n: int|
        0 <= n < marks.len() ==> lo.left <= (#[trigger] marks[n]).left <= hi.left && lo.right
            <= marks[n].right <= hi.right
    &&& forall|n: int, m: int|
        0 <= n <= m < marks.len() ==> (#[trigger] marks[n]).left <= (#[trigger] marks[m]).left
            && marks[n].right <= marks[m].right
}

/// Marks that ascend up to a cursor and marks that ascend from it on ascend
/// when they follow each other.
pub proof fn lemma_ascend_join(a: Seq<Mark>, b: Seq<Mark>, lo: Cursor, mid: Cursor, hi: Cursor)
    requires
        marks_ascend(a, lo, mid),
        marks_ascend(b, mid, hi),
        no_later(lo, mid),
        no_later(mid, hi),
    ensures
        marks_ascend(a + b, lo, hi),
{
    let all = a + b;
    assert forall|n: int| 0 <= n < all.len() implies lo.left <= (#[trigger] all[n]).left <= hi.left
        && lo.right <= all[n].right <= hi.right by {
        if n < a.len() {
            assert(all[n] == a[n]);
        } else {
            assert(all[n] == b[n - a.len()]);
        }
    }
    assert forall|n: int, m: int| 0 <= n <= m < all.len() implies (#[trigger] all[n]).left <= (
    #[trigger] all[m]).left && all[n].right <= all[m].right by {
        if m < a.len() {
            assert(all[n] == a[n]);
            assert(all[m] == a[m]);
        } else if n >= a.len() {
            assert(all[n] == b[n - a.len()]);
            assert(all[m] == b[m - a.len()]);
        } else {
            assert(all[n] == a[n]);
            assert(all[m] == b[m - a.len()]);
        }
    }
}

/// Marks that agree and marks that agree agree when they follow each other.
pub proof fn lemma_agree_join(bm: &BlockMaker, a: Seq<Mark>, b: Seq<Mark>)
    requires
        marks_agree(bm, a),
        marks_agree(bm, b),
    ensures
        marks_agree(bm, a + b),
{
    let all = a + b;
    assert forall|n: int| 0 <= n < all.len() implies mark_agrees(bm, #[trigger] all[n]) by {
        if n < a.len() {
            assert(all[n] == a[n]);
        } else {
            assert(all[n] == b[n - a.len()]);
        }
    }
}

/// After word `w` of side `i` the line number of the side is that of the next word.
pub proof fn lemma_step(bm: &BlockMaker, c: Cursor, i: int, w: int, both: bool)
    requires
        bm.wf(),
        bm.line_delimited(),
        i == 0 || i == 1,
        0 <= w < bm.nwords(i),
        tracks(bm, c, i, w),
    ensures
        tracks(bm, c.after_word(i, bm.word(i, w) == seq![10u8], both), i, w + 1),
{
    bm.lemma_newline_token(i, w);
    if w + 1 < bm.nwords(i) {
        bm.lemma_next_line(i, w);
        assert(bm.side(i).wf());
    }
}

/// After a word of side `i` that is also word `v` of the other side, with the
/// line numbers of both sides going on, the line number of the other side is
/// that of the word after `v`.
pub proof fn lemma_step_other(bm: &BlockMaker, c: Cursor, i: int, w: int, v: int)
    requires
        bm.wf(),
        bm.line_delimited(),
        i == 0 || i == 1,
        0 <= w < bm.nwords(i),
        0 <= v < bm.nwords(1 - i),
        bm.tok(i, w) == bm.tok(1 - i, v),
        tracks(bm, c, 1 - i, v),
    ensures
        tracks(bm, c.after_word(i, bm.word(i, w) == seq![10u8], true), 1 - i, v + 1),
{
    bm.lemma_newline_token(i, w);
    bm.lemma_newline_token(1 - i, v);
    if v + 1 < bm.nwords(1 - i) {
        bm.lemma_next_line(1 - i, v);
        assert(bm.side(1 - i).wf());
    }
}

/// The words of side `i` of a part from word `j` on: the marks agree, and after
/// them the line number of the side is that of the word after the part. Where
/// both line numbers go on, the part holds the same words on both sides, and the
/// same holds of the other side; else the other line number stays.
pub proof fn lemma_diff_words_agree(p: &Painter, bm: &BlockMaker, c: Cursor, part: Part, i: int, j: int)
    requires
        bm.wf(),
        bm.line_delimited(),
        part.wf(),
        part.parent == bm,
        i == 0 || i == 1,
        0 <= j <= part.content(i).len(),
        tracks(bm, c, i, part.span(i).start + j),
        p.inline && part.matches ==> part.same_words() && tracks(bm, c, 1 - i, part.span(1 - i).start + j),
    ensures
        ({
            let d = p.diff_words(c, part, i, j);
            &&& marks_agree(bm, d.marks)
            &&& tracks(bm, d.cursor, i, part.span(i).end as int)
            &&& p.inline && part.matches ==> tracks(bm, d.cursor, 1 - i, part.span(1 - i).end as int)
            &&& !(p.inline && part.matches) ==> d.cursor.line(1 - i) == c.line(1 - i)
        }),
    decreases part.content(i).len() - j,
{
    let len = part.content(i).len() as int;
    assert(len == part.span(i).end - part.span(i).start);
    if j < len {
        let w = part.span(i).start + j;
        let both = p.inline && part.matches;
        let first = p.diff_word(c, part, i, j);
        assert(part.content(i)[j] == bm.word(i, w));
        assert(first.cursor == c.after_word(i, bm.word(i, w) == seq![10u8], both));
        lemma_step(bm, c, i, w, both);
        if both {
            part.lemma_same_words();
            let v = part.span(1 - i).start + j;
            assert(part.token_seq(0).len() == part.slices.left.end - part.slices.left.start);
            assert(part.token_seq(1).len() == part.slices.right.end - part.slices.right.start);
            assert(part.token_seq(0)[j] == part.token_seq(1)[j]);
            assert(part.token_seq(i)[j] == bm.tok(i, w));
            assert(part.token_seq(1 - i)[j] == bm.tok(1 - i, v));
            lemma_step_other(bm, c, i, w, v);
        }
        lemma_diff_words_agree(p, bm, first.cursor, part, i, j + 1);
        let rest = p.diff_words(first.cursor, part, i, j + 1);
        assert(marks_agree(bm, first.marks)) by {
            assert forall|n: int| 0 <= n < first.marks.len() implies mark_agrees(bm, #[trigger] first.marks[n]) by {
                assert(first.marks == mark_at(
                    c,
                    i,
                    w,
                    if both {
                        Some(part.span(1 - i).start + j)
                    } else {
                        None
                    },
                ));
            }
        }
        lemma_agree_join(bm, first.marks, rest.marks);
    }
}

/// The words of a part that matches from word `j` on, shown as context: the
/// marks agree, and after them the line numbers of both sides are those of the
/// words after the part.
pub proof fn lemma_context_words_agree(p: &Painter, bm: &BlockMaker, c: Cursor, part: Part, j: int)
    requires
        bm.wf(),
        bm.line_delimited(),
        part.wf(),
        part.parent == bm,
        part.same_words(),
        0 <= j <= part.content(0).len(),
        tracks(bm, c, 0, part.slices.left.start + j),
        tracks(bm, c, 1, part.slices.right.start + j),
    ensures
        ({
            let d = p.context_words(c, part, j);
            &&& marks_agree(bm, d.marks)
            &&& tracks(bm, d.cursor, 0, part.slices.left.end as int)
            &&& tracks(bm, d.cursor, 1, part.slices.right.end as int)
        }),
    decreases part.content(0).len() - j,
{
    let len = part.content(0).len() as int;
    assert(len == part.slices.left.end - part.slices.left.start);
    part.lemma_same_words();
    assert(part.token_seq(0).len() == part.slices.left.end - part.slices.left.start);
    assert(part.token_seq(1).len() == part.slices.right.end - part.slices.right.start);
    if j < len {
        let w = part.slices.left.start + j;
        let v = part.slices.right.start + j;
        let first = p.context_word(c, part, j);
        assert(part.content(0)[j] == bm.word(0, w));
        assert(first.cursor == c.after_word(0, bm.word(0, w) == seq![10u8], true));
        lemma_step(bm, c, 0, w, true);
        assert(part.token_seq(0)[j] == part.token_seq(1)[j]);
        assert(part.token_seq(0)[j] == bm.tok(0, w));
        assert(part.token_seq(1)[j] == bm.tok(1, v));
        lemma_step_other(bm, c, 0, w, v);
        lemma_context_words_agree(p, bm, first.cursor, part, j + 1);
        let rest = p.context_words(first.cursor, part, j + 1);
        assert(marks_agree(bm, first.marks)) by {
            assert forall|n: int| 0 <= n < first.marks.len() implies mark_agrees(bm, #[trigger] first.marks[n]) by {
                assert(first.marks == mark_at(c, 0, w, Some(v)));
            }
        }
        lemma_agree_join(bm, first.marks, rest.marks);
    }
}

/// The parts from part `k` on, shown as context: the marks agree.
pub proof fn lemma_context_parts_agree(p: &Painter, bm: &BlockMaker, c: Cursor, k: int)
    requires
        bm.wf(),
        bm.line_delimited(),
        parts_of(p.parts@, bm),
        chained(p.parts@),
        all_sound(p.parts@),
        spec_all_context(p.parts@),
        0 <= k <= p.parts@.len(),
        k < p.parts@.len() ==> tracks(bm, c, 0, p.parts@[k].slices.left.start as int) && tracks(
            bm,
            c,
            1,
            p.parts@[k].slices.right.start as int,
        ),
    ensures
        marks_agree(bm, p.context_parts(c, k).marks),
    decreases p.parts@.len() - k,
{
    if k < p.parts@.len() {
        let part = p.parts@[k];
        assert(part.wf() && part.parent == bm);
        assert(part.sound());
        let first = if part.matches {
            p.context_words(c, part, 0)
        } else {
            Drawn::nothing(c)
        };
        if part.matches {
            lemma_context_words_agree(p, bm, c, part, 0);
        } else {
            assert(part.both_empty());
        }
        if k + 1 < p.parts@.len() {
            assert(p.parts@[k].slices.left.end == p.parts@[k + 1].slices.left.start);
        }
        lemma_context_parts_agree(p, bm, first.cursor, k + 1);
        lemma_agree_join(bm, first.marks, p.context_parts(first.cursor, k + 1).marks);
    }
}

/// The parts from part `k` on with both sides in one line: the marks agree.
pub proof fn lemma_inline_parts_agree(p: &Painter, bm: &BlockMaker, c: Cursor, k: int)
    requires
        bm.wf(),
        bm.line_delimited(),
        parts_of(p.parts@, bm),
        chained(p.parts@),
        all_sound(p.parts@),
        p.inline,
        0 <= k <= p.parts@.len(),
        k < p.parts@.len() ==> tracks(bm, c, 0, p.parts@[k].slices.left.start as int) && tracks(
            bm,
            c,
            1,
            p.parts@[k].slices.right.start as int,
        ),
    ensures
        marks_agree(bm, p.diff_parts(c, 0, k).marks),
    decreases p.parts@.len() - k,
{
    if k < p.parts@.len() {
        let part = p.parts@[k];
        assert(part.wf() && part.parent == bm);
        assert(part.sound());
        let first = p.diff_part(c, part, 0);
        if part.matches {
            lemma_diff_words_agree(p, bm, c, part, 0, 0);
        } else {
            lemma_diff_words_agree(p, bm, c, part, 0, 0);
            let left = p.diff_side(c, part, 0);
            lemma_diff_words_agree(p, bm, left.cursor, part, 1, 0);
            lemma_agree_join(bm, left.marks, p.diff_side(left.cursor, part, 1).marks);
        }
        if k + 1 < p.parts@.len() {
            assert(p.parts@[k].slices.left.end == p.parts@[k + 1].slices.left.start);
        }
        lemma_inline_parts_agree(p, bm, first.cursor, k + 1);
        lemma_agree_join(bm, first.marks, p.diff_parts(first.cursor, 0, k + 1).marks);
    }
}

/// The parts from part `k` on with side `i` shown by itself: the marks agree, and
/// the line number of the other side stays.
pub proof fn lemma_side_parts_agree(p: &Painter, bm: &BlockMaker, c: Cursor, i: int, k: int)
    requires
        bm.wf(),
        bm.line_delimited(),
        parts_of(p.parts@, bm),
        chained(p.parts@),
        !p.inline,
        i == 0 || i == 1,
        0 <= k <= p.parts@.len(),
        k < p.parts@.len() ==> tracks(bm, c, i, p.parts@[k].span(i).start as int),
    ensures
        marks_agree(bm, p.diff_parts(c, i, k).marks),
        p.diff_parts(c, i, k).cursor.line(1 - i) == c.line(1 - i),
    decreases p.parts@.len() - k,
{
    if k < p.parts@.len() {
        let part = p.parts@[k];
        assert(part.wf() && part.parent == bm);
        let first = p.diff_part(c, part, i);
        if !part.spec_is_empty(i) {
            lemma_diff_words_agree(p, bm, c, part, i, 0);
        }
        if k + 1 < p.parts@.len() {
            assert(p.parts@[k].slices.left.end == p.parts@[k + 1].slices.left.start);
            assert(p.parts@[k].slices.right.end == p.parts@[k + 1].slices.right.start);
        }
        lemma_side_parts_agree(p, bm, first.cursor, i, k + 1);
        lemma_agree_join(bm, first.marks, p.diff_parts(first.cursor, i, k + 1).marks);
    }
}

/// The line numbers that stand before the lines of a block that is shown are the
/// numbers of the lines that the words after them lie on, where newlines
/// delimit the lines of the hunk.
pub proof fn lemma_print_agrees(
    block: &Block,
    markers: Option<&MergeMarkers>,
    style: &Style,
    opts: &StyleOpts,
    numbering: &Numbering,
)
    requires
        block.parts@.len() > 0,
        block.maker().wf(),
        block.maker().line_delimited(),
        block.ok(block.maker()),
    ensures
        marks_agree(block.maker(), block.spec_drawn(markers, style, opts, numbering).marks),
{
    let bm = block.maker();
    let p = block.painter(markers, style, opts, numbering);
    let start = block.start();
    let first = block.parts@[0];
    assert(first.wf() && first.parent == bm);
    assert(bm.side(0).wf());
    assert(bm.side(1).wf());
    assert(tracks(bm, start, 0, first.slices.left.start as int));
    assert(tracks(bm, start, 1, first.slices.right.start as int));
    let fresh = Cursor { newline: true, insert: false, left: start.left, right: start.right };
    if !style.show_both && spec_all_context(block.parts@) {
        lemma_context_parts_agree(&p, bm, start, 0);
    } else if p.inline {
        lemma_inline_parts_agree(&p, bm, fresh, 0);
    } else {
        lemma_side_parts_agree(&p, bm, fresh, 0, 0);
        let left = p.diff_pass(start, 0);
        let again = Cursor { newline: true, insert: false, left: left.cursor.left, right: left.cursor.right };
        lemma_side_parts_agree(&p, bm, again, 1, 0);
        lemma_agree_join(bm, left.marks, p.diff_pass(left.cursor, 1).marks);
    }
}

/// The mark of a word ascends from the cursor before the word to the cursor
/// after it.
pub proof fn lemma_word_ascends(
    c: Cursor,
    side: int,
    word: int,
    other: Option<int>,
    i: int,
    newline: bool,
    both: bool,
)
    ensures
        marks_ascend(mark_at(c, side, word, other), c, c.after_word(i, newline, both)),
        no_later(c, c.after_word(i, newline, both)),
{
}

/// The line numbers before the words of one side of a part never fall.
pub proof fn lemma_diff_words_ascend(p: &Painter, c: Cursor, part: Part, i: int, j: int)
    ensures
        marks_ascend(p.diff_words(c, part, i, j).marks, c, p.diff_words(c, part, i, j).cursor),
        no_later(c, p.diff_words(c, part, i, j).cursor),
    decreases part.content(i).len() - j,
{
    if !(j < 0 || j >= part.content(i).len()) {
        let first = p.diff_word(c, part, i, j);
        lemma_word_ascends(
            c,
            i,
            part.span(i).start + j,
            if p.inline && part.matches {
                Some(part.span(1 - i).start + j)
            } else {
                None
            },
            i,
            part.content(i)[j] == seq![10u8],
            p.inline && part.matches,
        );
        lemma_diff_words_ascend(p, first.cursor, part, i, j + 1);
        let rest = p.diff_words(first.cursor, part, i, j + 1);
        lemma_ascend_join(first.marks, rest.marks, c, first.cursor, rest.cursor);
    }
}

/// The line numbers before the words of a part shown as context never fall.
pub proof fn lemma_context_words_ascend(p: &Painter, c: Cursor, part: Part, j: int)
    ensures
        marks_ascend(p.context_words(c, part, j).marks, c, p.context_words(c, part, j).cursor),
        no_later(c, p.context_words(c, part, j).cursor),
    decreases part.content(0).len() - j,
{
    if !(j < 0 || j >= part.content(0).len()) {
        let first = p.context_word(c, part, j);
        lemma_word_ascends(
            c,
            0,
            part.slices.left.start + j,
            Some(part.slices.right.start + j),
            0,
            part.content(0)[j] == seq![10u8],
            true,
        );
        lemma_context_words_ascend(p, first.cursor, part, j + 1);
        let rest = p.context_words(first.cursor, part, j + 1);
        lemma_ascend_join(first.marks, rest.marks, c, first.cursor, rest.cursor);
    }
}

/// The line numbers before the lines of parts shown as context never fall.
pub proof fn lemma_context_parts_ascend(p: &Painter, c: Cursor, k: int)
    ensures
        marks_ascend(p.context_parts(c, k).marks, c, p.context_parts(c, k).cursor),
        no_later(c, p.context_parts(c, k).cursor),
    decreases p.parts@.len() - k,
{
    if !(k < 0 || k >= p.parts@.len()) {
        let part = p.parts@[k];
        let first = if part.matches {
            p.context_words(c, part, 0)
        } else {
            Drawn::nothing(c)
        };
        if part.matches {
            lemma_context_words_ascend(p, c, part, 0);
        }
        lemma_context_parts_ascend(p, first.cursor, k + 1);
        let rest = p.context_parts(first.cursor, k + 1);
        lemma_ascend_join(first.marks, rest.marks, c, first.cursor, rest.cursor);
    }
}

/// The line numbers before the lines of a part never fall.
pub proof fn lemma_diff_part_ascends(p: &Painter, c: Cursor, part: Part, i: int)
    ensures
        marks_ascend(p.diff_part(c, part, i).marks, c, p.diff_part(c, part, i).cursor),
        no_later(c, p.diff_part(c, part, i).cursor),
{
    if !p.inline && part.spec_is_empty(i) {
    } else if p.inline && !part.matches {
        lemma_diff_words_ascend(p, c, part, 0, 0);
        let left = p.diff_side(c, part, 0);
        lemma_diff_words_ascend(p, left.cursor, part, 1, 0);
        let right = p.diff_side(left.cursor, part, 1);
        lemma_ascend_join(left.marks, right.marks, c, left.cursor, right.cursor);
    } else {
        lemma_diff_words_ascend(p, c, part, i, 0);
    }
}

/// The line numbers before the lines of the parts never fall.
pub proof fn lemma_diff_parts_ascend(p: &Painter, c: Cursor, i: int, k: int)
    ensures
        marks_ascend(p.diff_parts(c, i, k).marks, c, p.diff_parts(c, i, k).cursor),
        no_later(c, p.diff_parts(c, i, k).cursor),
    decreases p.parts@.len() - k,
{
    if !(k < 0 || k >= p.parts@.len()) {
        let first = p.diff_part(c, p.parts@[k], i);
        lemma_diff_part_ascends(p, c, p.parts@[k], i);
        lemma_diff_parts_ascend(p, first.cursor, i, k + 1);
        let rest = p.diff_parts(first.cursor, i, k + 1);
        lemma_ascend_join(first.marks, rest.marks, c, first.cursor, rest.cursor);
    }
}

/// The line numbers that stand before the lines of a block that is shown never
/// fall, on either side, and are no lower than the line numbers of the first part.
pub proof fn lemma_print_ascends(
    block: &Block,
    markers: Option<&MergeMarkers>,
    style: &Style,
    opts: &StyleOpts,
    numbering: &Numbering,
)
    ensures
        marks_ascend(
            block.spec_drawn(markers, style, opts, numbering).marks,
            block.start(),
            block.spec_drawn(markers, style, opts, numbering).cursor,
        ),
{
    let p = block.painter(markers, style, opts, numbering);
    let start = block.start();
    let fresh = Cursor { newline: true, insert: false, left: start.left, right: start.right };
    if block.parts@.len() == 0 {
    } else if !style.show_both && spec_all_context(block.parts@) {
        lemma_context_parts_ascend(&p, start, 0);
    } else if p.inline {
        lemma_diff_parts_ascend(&p, fresh, 0, 0);
    } else {
        lemma_diff_parts_ascend(&p, fresh, 0, 0);
        let left = p.diff_pass(start, 0);
        let again = Cursor { newline: true, insert: false, left: left.cursor.left, right: left.cursor.right };
        lemma_diff_parts_ascend(&p, again, 1, 0);
        let right = p.diff_pass(left.cursor, 1);
        lemma_ascend_join(left.marks, right.marks, start, left.cursor, right.cursor);
    }
}

/// Every line of the left side holds a word.
pub open spec fn lines_filled(bm: &BlockMaker) -> bool {
    forall|l: int| 0 <= l < bm.nlines(0) ==> #[trigger] bm.line_start(0, l) < bm.line_start(0, l + 1)
}

/// The first line that begins at word `j` of the left side or after it: the line
/// of word `j` where a line begins with it, else the line after that of the word
/// before it.
pub open spec fn line_from(bm: &BlockMaker, fresh: bool, j: int) -> int {
    if fresh {
        bm.line_of(0, j)
    } else {
        bm.line_of(0, j - 1) + 1
    }
}

/// The last word lies on the last line, where every line holds a word.
proof fn lemma_last_word(bm: &BlockMaker)
    requires
        bm.wf(),
        lines_filled(bm),
        bm.nwords(0) > 0,
    ensures
        bm.nlines(0) >= 1,
        bm.line_of(0, bm.nwords(0) - 1) == bm.nlines(0) - 1,
        bm.line_of(0, bm.nwords(0)) == bm.nlines(0),
{
    assert(bm.side(0).wf());
    let last = bm.nlines(0) - 1;
    if bm.nlines(0) >= 1 {
        assert(bm.line_start(0, last) < bm.line_start(0, last + 1));
        bm.lemma_line_unique(0, bm.nwords(0) - 1, last);
    }
}

/// All words of the left side from word `j` on, shown as context: a line of the
/// output begins with the first word of each line of the hunk from there on,
/// and with no other word; both line numbers are shown.
#[verifier::spinoff_prover]
#[verifier::rlimit(100)]
pub proof fn lemma_context_lines(p: &Painter, bm: &BlockMaker, c: Cursor, j: int)
    requires
        bm.wf(),
        bm.line_delimited(),
        lines_filled(bm),
        bm.nwords(0) > 0,
        0 <= j <= bm.nwords(0),
        c.newline == (j == 0 || bm.tok(0, j - 1).is_newline()),
    ensures
        ({
            let d = p.context_words(c, bm.whole_part(true), j);
            let from = line_from(bm, c.newline, j);
            &&& d.marks.len() == bm.nlines(0) - from
            &&& forall|t: int|
                0 <= t < d.marks.len() ==> (#[trigger] d.marks[t]).word == bm.line_start(0, from + t)
                    && d.marks[t].other == Some(d.marks[t].word) && d.marks[t].side == 0
        }),
    decreases bm.nwords(0) - j,
{
    let part = bm.whole_part(true);
    let n = bm.nwords(0);
    assert(bm.side(0).wf());
    assert(part.content(0).len() == n);
    lemma_last_word(bm);
    let d = p.context_words(c, part, j);
    let from = line_from(bm, c.newline, j);
    if j < n {
        let first = p.context_word(c, part, j);
        assert(part.content(0)[j] == bm.word(0, j));
        bm.lemma_newline_token(0, j);
        let next = first.cursor;
        assert(next.newline == bm.tok(0, j).is_newline());
        lemma_context_lines(p, bm, next, j + 1);
        let rest = p.context_words(next, part, j + 1);
        let after = line_from(bm, next.newline, j + 1);
        if j + 1 < n {
            bm.lemma_next_line(0, j);
        }
        if j >= 1 {
            bm.lemma_next_line(0, j - 1);
        }
        bm.lemma_line_begin(0, j);
        if c.newline {
            assert(bm.line_start(0, bm.line_of(0, j)) == j);
            assert(after == from + 1);
            assert(first.marks.len() == 1);
            assert(d.marks =~= first.marks + rest.marks);
            assert forall|t: int| 0 <= t < d.marks.len() implies (#[trigger] d.marks[t]).word == bm.line_start(
                0,
                from + t,
            ) && d.marks[t].other == Some(d.marks[t].word) && d.marks[t].side == 0 by {
                if t > 0 {
                    assert(d.marks[t] == rest.marks[t - 1]);
                }
            }
        } else {
            assert(after == from);
            assert(first.marks.len() == 0);
            assert(d.marks =~= rest.marks);
        }
    }
}

/// Where both sides hold the same lines, each with a word, and newlines delimit
/// them, the one part in which all words match is shown as context with one
/// pair of line numbers for each line: before line `k` of the hunk stand the
/// numbers of the first lines of the two sides and `k`.
pub proof fn lemma_same_lines_numbers(
    bm: &BlockMaker,
    block: &Block,
    markers: Option<&MergeMarkers>,
    style: &Style,
    opts: &StyleOpts,
    numbering: &Numbering,
)
    requires
        bm.wf(),
        bm.line_delimited(),
        lines_filled(bm),
        bm.nwords(0) > 0,
        bm.side(0).line_tokens@ == bm.side(1).line_tokens@,
        block.parts@ == seq![bm.whole_part(true)],
        !style.show_both,
    ensures
        ({
            let marks = block.spec_drawn(markers, style, opts, numbering).marks;
            &&& marks.len() == bm.nlines(0)
            &&& forall|k: int|
                0 <= k < marks.len() ==> {
                    &&& (#[trigger] marks[k]).word == bm.line_start(0, k)
                    &&& marks[k].left == bm.line_numbers.left + k
                    &&& marks[k].right == bm.line_numbers.right + k
                }
        }),
{
    let p = block.painter(markers, style, opts, numbering);
    let whole = bm.whole_part(true);
    let start = block.start();
    assert(bm.side(0).wf());
    assert(bm.side(1).wf());
    bm.lemma_whole_part(true);
    crate::whole::lemma_same_lines_split(bm);
    assert(block.parts@[0] == whole);
    assert(block.maker() == bm);
    assert(block.ok(bm));
    lemma_last_word(bm);
    assert(bm.line_start(0, 0) < bm.line_start(0, 0int + 1));
    bm.lemma_line_unique(0, 0, 0);
    lemma_context_lines(&p, bm, start, 0);
    lemma_print_agrees(block, markers, style, opts, numbering);
    let words = p.context_words(start, whole, 0);
    let rest = p.context_parts(words.cursor, 1);
    assert(rest.marks =~= Seq::<Mark>::empty());
    let marks = block.spec_drawn(markers, style, opts, numbering).marks;
    assert(marks =~= words.marks);
    assert forall|k: int| 0 <= k < marks.len() implies {
        &&& (#[trigger] marks[k]).word == bm.line_start(0, k)
        &&& marks[k].left == bm.line_numbers.left + k
        &&& marks[k].right == bm.line_numbers.right + k
    } by {
        assert(mark_agrees(bm, marks[k]));
        assert(bm.line_start(0, k) < bm.line_start(0, k + 1));
        bm.lemma_line_starts(0, k + 1, bm.nlines(0));
        bm.lemma_line_unique(0, bm.line_start(0, k), k);
        assert(bm.side(0).line_tokens@.len() == bm.nlines(0));
        assert(bm.side(1).line_tokens@.len() == bm.nlines(1));
        bm.lemma_lines_same_words(0, 0, k);
        bm.lemma_lines_same_words(0, 0, k + 1);
        let left = bm.side(0).word_seq();
        let right = bm.side(1).word_seq();
        assert(left.subrange(bm.line_start(0, 0), bm.line_start(0, k)).len() == right.subrange(
            bm.line_start(1, 0),
            bm.line_start(1, k),
        ).len());
        assert(left.subrange(bm.line_start(0, 0), bm.line_start(0, k + 1)).len() == right.subrange(
            bm.line_start(1, 0),
            bm.line_start(1, k + 1),
        ).len());
        bm.lemma_line_unique(1, bm.line_start(0, k), k);
    }
}

} // verus!
