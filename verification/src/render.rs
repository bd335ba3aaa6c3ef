//! Showing a block: its words in their styles, line by line, with line numbers.

use crate::block::{all_wf, Block};
use crate::part::Part;
use crate::style;
use crate::style::{put, spec_format_lineno, Style};
use crate::style_opts::StyleOpts;
use crate::whitespace::{all_space, views, CheckAllWhitespace};
use vstd::prelude::*;
use vstd::string::StringSliceAdditionalSpecFns;

verus! {

/// The bars that stand for the sides of a merge: for a side and a line number
/// the bar that is drawn after the number.
#[derive(Debug)]
pub struct MergeMarkers {
    pub entries: Vec<(usize, usize, Vec<u8>)>,
}

/// The bar that was set last for `side` and `lineno`.
pub open spec fn lookup(entries: Seq<(usize, usize, Vec<u8>)>, side: int, lineno: int) -> Option<Seq<u8>>
    decreases entries.len(),
{
    if entries.len() == 0 {
        None
    } else if entries.last().0 == side && entries.last().1 == lineno {
        Some(entries.last().2@)
    } else {
        lookup(entries.drop_last(), side, lineno)
    }
}

impl MergeMarkers {
    /// No bars.
    pub fn new() -> (r: MergeMarkers)
        ensures
            r.entries@.len() == 0,
    {
        MergeMarkers { entries: Vec::new() }
    }

    /// Sets the bar of `side` and `lineno`.
    pub fn insert(&mut self, side: usize, lineno: usize, bar: Vec<u8>)
        ensures
            final(self).entries@ == old(self).entries@.push((side, lineno, bar)),
            lookup(final(self).entries@, side as int, lineno as int) == Some(bar@),
    {
        let ghost before = self.entries@;
        self.entries.push((side, lineno, bar));
        assert(self.entries@.last() == (side, lineno, bar));
    }

    /// The bar of `side` and `lineno`.
    pub fn get(&self, side: usize, lineno: usize) -> (r: Option<&Vec<u8>>)
        ensures
            match r {
                Some(bar) => lookup(self.entries@, side as int, lineno as int) == Some(bar@),
                None => lookup(self.entries@, side as int, lineno as int).is_none(),
            },
    {
        let mut n: usize = self.entries.len();
        proof {
            assert(self.entries@.take(n as int) =~= self.entries@);
        }
        while n > 0
            invariant
                n <= self.entries@.len(),
                lookup(self.entries@, side as int, lineno as int) == lookup(
                    self.entries@.take(n as int),
                    side as int,
                    lineno as int,
                ),
            decreases n,
        {
            n -= 1;
            proof {
                assert(self.entries@.take(n + 1).drop_last() =~= self.entries@.take(n as int));
                assert(self.entries@.take(n + 1).last() == self.entries@[n as int]);
            }
            if self.entries[n].0 == side && self.entries[n].1 == lineno {
                return Some(&self.entries[n].2);
            }
        }
        None
    }
}

/// Whether word `j` of side `i` of `part` is white space at the end of its line.
fn marked(part: &Part<'_>, i: usize, j: usize) -> (r: bool)
    requires
        part.wf(),
        j < part.content(i as int).len(),
    ensures
        r == is_trailing(part.parent.side(i as int).word_seq(), part.span(i as int).start + j),
{
    let words = &part.parent.sides.index(i).words;
    let start = part.slices.index(i).start;
    assert(part.parent.side(i as int).wf());
    trailing(words.as_slice(), start + j)
}

/// What stands before a line: the line numbers, or a label for the side.
#[derive(Debug)]
pub enum Numbering {
    /// The line numbers of both sides: see `spec_format_lineno`.
    Numbers,
    /// A label: `left` where only the left side is shown, `right` where only the
    /// right side is, `both` where both are.
    Labels { left: Vec<u8>, right: Vec<u8>, both: Vec<u8> },
}

impl Numbering {
    /// What stands before a line with these two numbers.
    pub open spec fn spec_render(
        &self,
        left: nat,
        right: nat,
        left_style: Option<Seq<u8>>,
        right_style: Option<Seq<u8>>,
        bar_style: Option<Seq<u8>>,
    ) -> Seq<u8> {
        match self {
            Numbering::Numbers => spec_format_lineno(left, right, left_style, right_style, bar_style),
            Numbering::Labels { left: l, right: r, both: b } => if right == 0 {
                l@
            } else if left == 0 {
                r@
            } else {
                b@
            },
        }
    }

    /// What stands before a line with these two numbers.
    pub fn render(
        &self,
        nums: [usize; 2],
        left_style: Option<&[u8]>,
        right_style: Option<&[u8]>,
        bar_style: Option<&[u8]>,
    ) -> (r: Vec<u8>)
        ensures
            r@ == self.spec_render(
                nums[0] as nat,
                nums[1] as nat,
                match left_style {
                    Some(s) => Some(s@),
                    None => None,
                },
                match right_style {
                    Some(s) => Some(s@),
                    None => None,
                },
                match bar_style {
                    Some(s) => Some(s@),
                    None => None,
                },
            ),
    {
        match self {
            Numbering::Numbers => style::format_lineno(nums, left_style, right_style, bar_style),
            Numbering::Labels { left, right, both } => {
                let label = if nums[1] == 0 {
                    left
                } else if nums[0] == 0 {
                    right
                } else {
                    both
                };
                vstd::slice::slice_to_vec(label.as_slice())
            },
        }
    }
}

/// Where the output stands: whether a line begins, whether an insertion is to be
/// marked at the next word, and the line numbers of both sides.
#[derive(Clone, Copy, Debug)]
pub struct Cursor {
    pub newline: bool,
    pub insert: bool,
    pub left: usize,
    pub right: usize,
}

/// The next line number.
pub open spec fn bump(n: usize) -> usize {
    if n < usize::MAX {
        (n + 1) as usize
    } else {
        n
    }
}

/// Whether `word` is a newline and no more.
fn is_newline(word: &Vec<u8>) -> (r: bool)
    ensures
        r == (word@ == seq![10u8]),
{
    let r = word.len() == 1 && word[0] == 10;
    proof {
        if r {
            assert(word@ =~= seq![10u8]);
        } else if word@.len() == 1 {
            assert(seq![10u8][0] == 10u8);
        } else {
            assert(seq![10u8].len() == 1);
        }
    }
    r
}

fn bumped(n: usize) -> (r: usize)
    ensures
        r == bump(n),
{
    if n < usize::MAX {
        n + 1
    } else {
        n
    }
}

impl Cursor {
    /// The line number of side `i`.
    pub open spec fn line(self, i: int) -> usize {
        if i == 0 {
            self.left
        } else {
            self.right
        }
    }

    /// The cursor after a word of side `i`: after a newline a line begins and the
    /// line number of the side goes up, and with `both` that of the other side too.
    pub open spec fn after_word(self, i: int, newline: bool, both: bool) -> Cursor {
        Cursor {
            newline: newline,
            insert: false,
            left: if newline && (i == 0 || both) {
                bump(self.left)
            } else {
                self.left
            },
            right: if newline && (i != 0 || both) {
                bump(self.right)
            } else {
                self.right
            },
        }
    }
}

/// The line numbers that stand before a line of the output, and the word that
/// the line begins with: word `word` of side `side`. Where the line number of
/// the other side is shown too, `other` is the word of the other side that the
/// line begins with.
pub struct Mark {
    pub side: int,
    pub word: int,
    pub other: Option<int>,
    pub left: usize,
    pub right: usize,
}

impl Mark {
    /// The line number of side `i`.
    pub open spec fn line(self, i: int) -> usize {
        if i == 0 {
            self.left
        } else {
            self.right
        }
    }
}

/// What was drawn, the lines that were begun, and where the output stands after it.
pub struct Drawn {
    pub bytes: Seq<u8>,
    pub marks: Seq<Mark>,
    pub cursor: Cursor,
}

impl Drawn {
    /// Nothing drawn.
    pub open spec fn nothing(c: Cursor) -> Drawn {
        Drawn { bytes: Seq::empty(), marks: Seq::empty(), cursor: c }
    }

    /// What is drawn by `self` and then by `next`.
    pub open spec fn and(self, next: Drawn) -> Drawn {
        Drawn { bytes: self.bytes + next.bytes, marks: self.marks + next.marks, cursor: next.cursor }
    }
}

/// The mark of a line that begins with word `word` of side `side`, if one begins.
pub open spec fn mark_at(c: Cursor, side: int, word: int, other: Option<int>) -> Seq<Mark> {
    if c.newline {
        seq![Mark { side, word, other, left: c.left, right: c.right }]
    } else {
        Seq::empty()
    }
}

/// Whether the words of `words` from `j` on are white space up to a newline.
pub open spec fn blank_to_newline(words: Seq<Seq<u8>>, j: int) -> bool
    decreases words.len() - j,
{
    if j < 0 || j >= words.len() {
        false
    } else if words[j] == seq![10u8] {
        true
    } else if all_space(words[j]) {
        blank_to_newline(words, j + 1)
    } else {
        false
    }
}

/// Whether word `j` of `words` is white space at the end of a line: it is white
/// space and no newline, and white space alone follows it up to the newline of
/// its line.
pub open spec fn is_trailing(words: Seq<Seq<u8>>, j: int) -> bool {
    &&& 0 <= j < words.len()
    &&& words[j] != seq![10u8]
    &&& all_space(words[j])
    &&& blank_to_newline(words, j + 1)
}

fn trailing(words: &[Vec<u8>], j: usize) -> (r: bool)
    requires
        j < words@.len(),
    ensures
        r == is_trailing(views(words@), j as int),
{
    if is_newline(&words[j]) || !words[j].is_ascii_whitespace() {
        return false;
    }
    assert(views(words@)[j as int] == words@[j as int]@);
    let mut k: usize = j + 1;
    while k < words.len()
        invariant
            j < k <= words@.len(),
            views(words@)[j as int] != seq![10u8],
            all_space(views(words@)[j as int]),
            blank_to_newline(views(words@), j + 1) == blank_to_newline(views(words@), k as int),
        decreases words@.len() - k,
    {
        assert(views(words@)[k as int] == words@[k as int]@);
        if is_newline(&words[k]) {
            assert(blank_to_newline(views(words@), k as int));
            return true;
        }
        if !words[k].is_ascii_whitespace() {
            assert(!blank_to_newline(views(words@), k as int));
            return false;
        }
        assert(blank_to_newline(views(words@), k as int) == blank_to_newline(views(words@), k + 1));
        k += 1;
    }
    false
}

/// All that is needed to show a block.
pub struct Painter<'p, 'a> {
    pub parts: &'p Vec<Part<'a>>,
    pub markers: Option<&'p MergeMarkers>,
    pub style: &'p Style,
    pub opts: &'p StyleOpts,
    pub numbering: &'p Numbering,
    /// Whether both sides are shown in one line.
    pub inline: bool,
    /// Whether the place of a part that is empty on the side shown is marked.
    pub marks_inserts: bool,
}

impl<'p, 'a> Painter<'p, 'a> {
    /// Every part lies within its sides.
    pub open spec fn wf(&self) -> bool {
        all_wf(self.parts@)
    }

    /// What begins a line of context: the line numbers, the sign, the style.
    pub open spec fn context_head(&self, c: Cursor) -> Seq<u8> {
        let numbers = if self.style.line_numbers {
            self.numbering.spec_render(
                c.left as nat,
                c.right as nat,
                Some(self.opts.lineno@),
                Some(self.opts.lineno@),
                None,
            )
        } else {
            Seq::empty()
        };
        let sign = if self.style.signs {
            style::SIGN_BOTH.spec_bytes()
        } else {
            Seq::empty()
        };
        numbers + sign + self.opts.diff_context@
    }

    /// Word `j` of the left side of `part` as context.
    pub open spec fn context_word(&self, c: Cursor, part: Part<'a>, j: int) -> Drawn {
        let words = part.content(0);
        let head = if c.newline {
            self.context_head(c)
        } else {
            Seq::empty()
        };
        let mark = if is_trailing(part.parent.side(0).word_seq(), part.slices.left.start + j) {
            self.opts.diff_trailing_ws@
        } else {
            Seq::empty()
        };
        Drawn {
            bytes: head + mark + words[j],
            marks: mark_at(c, 0, part.slices.left.start + j, Some(part.slices.right.start + j)),
            cursor: c.after_word(0, words[j] == seq![10u8], true),
        }
    }

    /// The words of the left side of `part` from word `j` on as context.
    pub open spec fn context_words(&self, c: Cursor, part: Part<'a>, j: int) -> Drawn
        decreases part.content(0).len() - j,
    {
        if j < 0 || j >= part.content(0).len() {
            Drawn::nothing(c)
        } else {
            let first = self.context_word(c, part, j);
            first.and(self.context_words(first.cursor, part, j + 1))
        }
    }

    /// The parts from part `k` on as context: the left side of those that match.
    pub open spec fn context_parts(&self, c: Cursor, k: int) -> Drawn
        decreases self.parts@.len() - k,
    {
        if k < 0 || k >= self.parts@.len() {
            Drawn::nothing(c)
        } else {
            let first = if self.parts@[k].matches {
                self.context_words(c, self.parts@[k], 0)
            } else {
                Drawn::nothing(c)
            };
            first.and(self.context_parts(first.cursor, k + 1))
        }
    }

    fn put_context_word(&self, out: &mut Vec<u8>, c: Cursor, part: &Part<'a>, j: usize) -> (r: Cursor)
        requires
            part.wf(),
            j < part.content(0).len(),
        ensures
            final(out)@ == old(out)@ + self.context_word(c, *part, j as int).bytes,
            r == self.context_word(c, *part, j as int).cursor,
    {
        let ghost start = out@;
        let words = part.get(0);
        if c.newline {
            if self.style.line_numbers {
                let numbers = self.numbering.render(
                    [c.left, c.right],
                    Some(self.opts.lineno.as_slice()),
                    Some(self.opts.lineno.as_slice()),
                    None,
                );
                put(out, numbers.as_slice());
            }
            if self.style.signs {
                put(out, style::SIGN_BOTH.as_bytes());
            }
            put(out, self.opts.diff_context.as_slice());
        }
        if marked(part, 0, j) {
            put(out, self.opts.diff_trailing_ws.as_slice());
        }
        put(out, words[j].as_slice());
        let newline = is_newline(&words[j]);
        proof {
            assert(words@[j as int]@ == part.content(0)[j as int]);
            assert(out@ =~= start + self.context_word(c, *part, j as int).bytes);
        }
        Cursor {
            newline,
            insert: false,
            left: if newline {
                bumped(c.left)
            } else {
                c.left
            },
            right: if newline {
                bumped(c.right)
            } else {
                c.right
            },
        }
    }

    fn put_context_words(&self, out: &mut Vec<u8>, c: Cursor, part: &Part<'a>) -> (r: Cursor)
        requires
            part.wf(),
        ensures
            final(out)@ == old(out)@ + self.context_words(c, *part, 0).bytes,
            r == self.context_words(c, *part, 0).cursor,
    {
        let ghost all = self.context_words(c, *part, 0);
        let count = part.get(0).len();
        let mut cur = c;
        let mut j: usize = 0;
        while j < count
            invariant
                part.wf(),
                count == part.content(0).len(),
                j <= count,
                old(out)@ + all.bytes == out@ + self.context_words(cur, *part, j as int).bytes,
                all.cursor == self.context_words(cur, *part, j as int).cursor,
            decreases count - j,
        {
            let ghost before = out@;
            let ghost first = self.context_word(cur, *part, j as int);
            cur = self.put_context_word(out, cur, part, j);
            proof {
                let after = self.context_words(cur, *part, j + 1);
                assert(out@ + after.bytes =~= before + (first.bytes + after.bytes));
            }
            j += 1;
        }
        proof {
            assert(out@ + Seq::<u8>::empty() =~= out@);
        }
        cur
    }

    fn put_context_parts(&self, out: &mut Vec<u8>, c: Cursor) -> (r: Cursor)
        requires
            self.wf(),
        ensures
            final(out)@ == old(out)@ + self.context_parts(c, 0).bytes,
            r == self.context_parts(c, 0).cursor,
    {
        let ghost all = self.context_parts(c, 0);
        let mut cur = c;
        let mut k: usize = 0;
        while k < self.parts.len()
            invariant
                self.wf(),
                k <= self.parts@.len(),
                old(out)@ + all.bytes == out@ + self.context_parts(cur, k as int).bytes,
                all.cursor == self.context_parts(cur, k as int).cursor,
            decreases self.parts@.len() - k,
        {
            let part = &self.parts[k];
            let ghost before = out@;
            let ghost rest = self.context_parts(cur, k as int);
            if part.matches {
                let ghost first = self.context_words(cur, *part, 0);
                cur = self.put_context_words(out, cur, part);
                proof {
                    let after = self.context_parts(cur, k + 1);
                    assert(out@ + after.bytes =~= before + (first.bytes + after.bytes));
                }
            } else {
                proof {
                    let after = self.context_parts(cur, k + 1);
                    assert(out@ + after.bytes =~= before + (Seq::<u8>::empty() + after.bytes));
                }
            }
            k += 1;
        }
        proof {
            assert(out@ + Seq::<u8>::empty() =~= out@);
        }
        cur
    }

    /// The style of side `i` of `part`.
    pub open spec fn highlight(&self, part: Part<'a>, i: int) -> Seq<u8> {
        if !part.matches {
            self.style.diff_non_matching.side(i)@
        } else if self.inline {
            self.style.diff_matching_inline@
        } else {
            self.style.diff_matching.side(i)@
        }
    }

    /// Whether a part that is not empty on side `i` lies on the line `lineno`.
    pub open spec fn covered(&self, i: int, lineno: int) -> bool {
        exists|k: int|
            0 <= k < self.parts@.len() && !(#[trigger] self.parts@[k]).spec_is_empty(i) && self.parts@[k].first_line(
                i,
            ) + self.parts@[k].parent.line_numbers.side(i) <= lineno <= self.parts@[k].last_line(i)
                + self.parts@[k].parent.line_numbers.side(i)
    }

    /// The bar of side `i` and the line `lineno`.
    pub open spec fn marker(&self, i: int, lineno: int) -> Option<Seq<u8>> {
        match self.markers {
            Some(m) => lookup(m.entries@, i, lineno),
            None => None,
        }
    }

    /// The sign of side `i`.
    pub open spec fn sign(i: int) -> Seq<u8> {
        if i == 0 {
            style::SIGN_LEFT.spec_bytes()
        } else {
            style::SIGN_RIGHT.spec_bytes()
        }
    }

    /// The style that marks an insertion on side `i`.
    pub open spec fn insert_style(&self, i: int) -> Seq<u8> {
        if i == 0 {
            self.opts.diff_insert_left@
        } else {
            self.opts.diff_insert_right@
        }
    }

    /// What begins a line of side `i` within `part`: the line number of the side,
    /// and that of the other side where both are shown in one line and a part
    /// lies on that line; the sign; the style.
    pub open spec fn diff_head(&self, c: Cursor, part: Part<'a>, i: int) -> Seq<u8> {
        let both = self.inline && self.covered(1 - i, c.line(1 - i) as int);
        let left: nat = if i == 0 || both {
            c.left as nat
        } else {
            0
        };
        let right: nat = if i != 0 || both {
            c.right as nat
        } else {
            0
        };
        let numbers = if self.style.line_numbers {
            self.numbering.spec_render(left, right, None, None, self.marker(i, c.line(i) as int))
        } else {
            Seq::empty()
        };
        let sign = if self.style.signs {
            Self::sign(i)
        } else {
            Seq::empty()
        };
        numbers + sign + self.highlight(part, i)
    }

    /// Word `j` of side `i` of `part`.
    pub open spec fn diff_word(&self, c: Cursor, part: Part<'a>, i: int, j: int) -> Drawn {
        let words = part.content(i);
        let head = if c.newline {
            self.diff_head(c, part, i)
        } else {
            Seq::empty()
        };
        Drawn {
            bytes: head + self.word_body(
                c.insert,
                is_trailing(part.parent.side(i).word_seq(), part.span(i).start + j),
                part,
                i,
                words[j],
            ),
            marks: mark_at(
                c,
                i,
                part.span(i).start + j,
                if self.inline && part.matches {
                    Some(part.span(1 - i).start + j)
                } else {
                    None
                },
            ),
            cursor: c.after_word(i, words[j] == seq![10u8], self.inline && part.matches),
        }
    }

    /// A word of side `i` of `part`: behind the mark of white space at the end of
    /// a line where `trailing` says so; and where an insertion is to be marked,
    /// with its first byte in the style of an insertion.
    pub open spec fn word_body(&self, insert: bool, trailing: bool, part: Part<'a>, i: int, word: Seq<u8>) -> Seq<
        u8,
    > {
        let mark = if trailing {
            self.opts.diff_trailing_ws@
        } else {
            Seq::empty()
        };
        if insert {
            self.insert_style(i) + mark + word.take(1) + mark + self.highlight(part, i) + word.skip(1)
        } else {
            mark + word
        }
    }

    /// The words of side `i` of `part` from word `j` on.
    pub open spec fn diff_words(&self, c: Cursor, part: Part<'a>, i: int, j: int) -> Drawn
        decreases part.content(i).len() - j,
    {
        if j < 0 || j >= part.content(i).len() {
            Drawn::nothing(c)
        } else {
            let first = self.diff_word(c, part, i, j);
            first.and(self.diff_words(first.cursor, part, i, j + 1))
        }
    }

    /// Side `i` of `part`: its style, then its words.
    pub open spec fn diff_side(&self, c: Cursor, part: Part<'a>, i: int) -> Drawn {
        let words = self.diff_words(c, part, i, 0);
        Drawn { bytes: self.highlight(part, i) + words.bytes, marks: words.marks, cursor: words.cursor }
    }

    /// `part` while side `i` is shown. Where each side is shown by itself, a part
    /// that is empty on side `i` shows nothing, but its place is marked at the next
    /// word. Where both sides are shown in one line, a part that does not match
    /// shows its left side and then its right side.
    pub open spec fn diff_part(&self, c: Cursor, part: Part<'a>, i: int) -> Drawn {
        if !self.inline && part.spec_is_empty(i) {
            Drawn::nothing(
                Cursor { newline: c.newline, insert: self.marks_inserts, left: c.left, right: c.right },
            )
        } else if self.inline && !part.matches {
            let first = self.diff_side(c, part, 0);
            first.and(self.diff_side(first.cursor, part, 1))
        } else {
            self.diff_side(c, part, i)
        }
    }

    /// The parts from part `k` on while side `i` is shown.
    pub open spec fn diff_parts(&self, c: Cursor, i: int, k: int) -> Drawn
        decreases self.parts@.len() - k,
    {
        if k < 0 || k >= self.parts@.len() {
            Drawn::nothing(c)
        } else {
            let first = self.diff_part(c, self.parts@[k], i);
            first.and(self.diff_parts(first.cursor, i, k + 1))
        }
    }

    /// All parts while side `i` is shown, from the start of a line.
    pub open spec fn diff_pass(&self, c: Cursor, i: int) -> Drawn {
        self.diff_parts(Cursor { newline: true, insert: false, left: c.left, right: c.right }, i, 0)
    }

    fn is_covered(&self, i: usize, lineno: usize) -> (r: bool)
        requires
            self.wf(),
        ensures
            r == self.covered(i as int, lineno as int),
    {
        let mut k: usize = 0;
        while k < self.parts.len()
            invariant
                self.wf(),
                k <= self.parts@.len(),
                forall|x: int|
                    0 <= x < k ==> !(!(#[trigger] self.parts@[x]).spec_is_empty(i as int) && self.parts@[x].first_line(
                        i as int,
                    ) + self.parts@[x].parent.line_numbers.side(i as int) <= lineno <= self.parts@[x].last_line(
                        i as int,
                    ) + self.parts@[x].parent.line_numbers.side(i as int)),
            decreases self.parts@.len() - k,
        {
            let part = &self.parts[k];
            if !part.is_empty(i) && part.first_lineno(i) <= lineno && lineno <= part.last_lineno(i) {
                return true;
            }
            k += 1;
        }
        false
    }

    fn highlight_of(&self, part: &Part<'a>, i: usize) -> (r: &Vec<u8>)
        ensures
            r@ == self.highlight(*part, i as int),
    {
        if !part.matches {
            self.style.diff_non_matching.index(i)
        } else if self.inline {
            &self.style.diff_matching_inline
        } else {
            self.style.diff_matching.index(i)
        }
    }

    fn put_diff_head(&self, out: &mut Vec<u8>, c: Cursor, part: &Part<'a>, i: usize)
        requires
            self.wf(),
            i < 2,
        ensures
            final(out)@ == old(out)@ + self.diff_head(c, *part, i as int),
    {
        let ghost start = out@;
        if self.style.line_numbers {
            let other_line = if i == 0 {
                c.right
            } else {
                c.left
            };
            let this_line = if i == 0 {
                c.left
            } else {
                c.right
            };
            let both = self.inline && self.is_covered(1 - i, other_line);
            let left = if i == 0 || both {
                c.left
            } else {
                0
            };
            let right = if i != 0 || both {
                c.right
            } else {
                0
            };
            let bar: Option<&[u8]> = match self.markers {
                Some(m) => match m.get(i, this_line) {
                    Some(b) => Some(b.as_slice()),
                    None => None,
                },
                None => None,
            };
            let numbers = self.numbering.render([left, right], None, None, bar);
            put(out, numbers.as_slice());
        }
        if self.style.signs {
            if i == 0 {
                put(out, style::SIGN_LEFT.as_bytes());
            } else {
                put(out, style::SIGN_RIGHT.as_bytes());
            }
        }
        put(out, self.highlight_of(part, i).as_slice());
        assert(out@ =~= start + self.diff_head(c, *part, i as int));
    }

    fn put_body(&self, out: &mut Vec<u8>, insert: bool, mark: bool, part: &Part<'a>, i: usize, word: &Vec<u8>)
        requires
            i < 2,
            word@.len() > 0,
        ensures
            final(out)@ == old(out)@ + self.word_body(insert, mark, *part, i as int, word@),
    {
        let ghost start = out@;
        if insert {
            if i == 0 {
                put(out, self.opts.diff_insert_left.as_slice());
            } else {
                put(out, self.opts.diff_insert_right.as_slice());
            }
            if mark {
                put(out, self.opts.diff_trailing_ws.as_slice());
            }
            out.push(word[0]);
            if mark {
                put(out, self.opts.diff_trailing_ws.as_slice());
            }
            put(out, self.highlight_of(part, i).as_slice());
            let ghost before = out@;
            let mut k: usize = 1;
            while k < word.len()
                invariant
                    1 <= k <= word@.len(),
                    out@ == before + word@.subrange(1, k as int),
                decreases word@.len() - k,
            {
                out.push(word[k]);
                assert(word@.subrange(1, k + 1) =~= word@.subrange(1, k as int).push(word@[k as int]));
                k += 1;
            }
            proof {
                assert(word@.subrange(1, word@.len() as int) =~= word@.skip(1));
                assert(word@.take(1) =~= seq![word@[0]]);
                assert(out@ =~= start + self.word_body(insert, mark, *part, i as int, word@));
            }
        } else {
            if mark {
                put(out, self.opts.diff_trailing_ws.as_slice());
            }
            put(out, word.as_slice());
            assert(out@ =~= start + self.word_body(insert, mark, *part, i as int, word@));
        }
    }

    /// Writes word `j` of side `i` of `part`.
    #[verifier::rlimit(100)]
    fn put_diff_bytes(&self, out: &mut Vec<u8>, c: Cursor, part: &Part<'a>, i: usize, j: usize)
        requires
            self.wf(),
            part.wf(),
            i < 2,
            j < part.content(i as int).len(),
        ensures
            final(out)@ == old(out)@ + self.diff_word(c, *part, i as int, j as int).bytes,
    {
        let ghost start = out@;
        let words = part.get(i);
        let word = &words[j];
        proof {
            assert(word@ == part.content(i as int)[j as int]);
            part.lemma_word_filled(i as int, j as int);
        }
        if c.newline {
            self.put_diff_head(out, c, part, i);
        }
        let ghost head = if c.newline {
            self.diff_head(c, *part, i as int)
        } else {
            Seq::<u8>::empty()
        };
        assert(out@ =~= start + head);
        let mark = marked(part, i, j);
        self.put_body(out, c.insert, mark, part, i, word);
        let ghost body = self.word_body(c.insert, mark, *part, i as int, word@);
        assert(out@ =~= start + (head + body));
    }

    /// The cursor after word `j` of side `i` of `part`.
    fn after_diff_word(&self, c: Cursor, part: &Part<'a>, i: usize, j: usize) -> (r: Cursor)
        requires
            part.wf(),
            j < part.content(i as int).len(),
        ensures
            r == self.diff_word(c, *part, i as int, j as int).cursor,
    {
        let words = part.get(i);
        assert(words@[j as int]@ == part.content(i as int)[j as int]);
        let newline = is_newline(&words[j]);
        let both = self.inline && part.matches;
        Cursor {
            newline,
            insert: false,
            left: if newline && (i == 0 || both) {
                bumped(c.left)
            } else {
                c.left
            },
            right: if newline && (i != 0 || both) {
                bumped(c.right)
            } else {
                c.right
            },
        }
    }

    fn put_diff_word(&self, out: &mut Vec<u8>, c: Cursor, part: &Part<'a>, i: usize, j: usize) -> (r: Cursor)
        requires
            self.wf(),
            part.wf(),
            i < 2,
            j < part.content(i as int).len(),
        ensures
            final(out)@ == old(out)@ + self.diff_word(c, *part, i as int, j as int).bytes,
            r == self.diff_word(c, *part, i as int, j as int).cursor,
    {
        self.put_diff_bytes(out, c, part, i, j);
        self.after_diff_word(c, part, i, j)
    }

    fn put_diff_side(&self, out: &mut Vec<u8>, c: Cursor, part: &Part<'a>, i: usize) -> (r: Cursor)
        requires
            self.wf(),
            part.wf(),
            i < 2,
        ensures
            final(out)@ == old(out)@ + self.diff_side(c, *part, i as int).bytes,
            r == self.diff_side(c, *part, i as int).cursor,
    {
        let ghost all = self.diff_words(c, *part, i as int, 0);
        put(out, self.highlight_of(part, i).as_slice());
        let ghost base = out@;
        let count = part.get(i).len();
        let mut cur = c;
        let mut j: usize = 0;
        while j < count
            invariant
                self.wf(),
                part.wf(),
                i < 2,
                count == part.content(i as int).len(),
                j <= count,
                base + all.bytes == out@ + self.diff_words(cur, *part, i as int, j as int).bytes,
                all.cursor == self.diff_words(cur, *part, i as int, j as int).cursor,
            decreases count - j,
        {
            let ghost before = out@;
            let ghost first = self.diff_word(cur, *part, i as int, j as int);
            cur = self.put_diff_word(out, cur, part, i, j);
            proof {
                let after = self.diff_words(cur, *part, i as int, j + 1);
                assert(out@ + after.bytes =~= before + (first.bytes + after.bytes));
            }
            j += 1;
        }
        proof {
            assert(out@ + Seq::<u8>::empty() =~= out@);
            assert(out@ =~= old(out)@ + (self.highlight(*part, i as int) + all.bytes));
        }
        cur
    }

    fn put_diff_part(&self, out: &mut Vec<u8>, c: Cursor, part: &Part<'a>, i: usize) -> (r: Cursor)
        requires
            self.wf(),
            part.wf(),
            i < 2,
        ensures
            final(out)@ == old(out)@ + self.diff_part(c, *part, i as int).bytes,
            r == self.diff_part(c, *part, i as int).cursor,
    {
        if !self.inline && part.is_empty(i) {
            assert(out@ =~= old(out)@ + Seq::<u8>::empty());
            Cursor { newline: c.newline, insert: self.marks_inserts, left: c.left, right: c.right }
        } else if self.inline && !part.matches {
            let ghost first = self.diff_side(c, *part, 0);
            let mid = self.put_diff_side(out, c, part, 0);
            let ghost before = out@;
            let ghost second = self.diff_side(mid, *part, 1);
            let r = self.put_diff_side(out, mid, part, 1);
            assert(out@ =~= old(out)@ + (first.bytes + second.bytes));
            r
        } else {
            self.put_diff_side(out, c, part, i)
        }
    }

    fn put_diff_pass(&self, out: &mut Vec<u8>, c: Cursor, i: usize) -> (r: Cursor)
        requires
            self.wf(),
            i < 2,
        ensures
            final(out)@ == old(out)@ + self.diff_pass(c, i as int).bytes,
            r == self.diff_pass(c, i as int).cursor,
    {
        let first = Cursor { newline: true, insert: false, left: c.left, right: c.right };
        let ghost all = self.diff_parts(first, i as int, 0);
        let mut cur = first;
        let mut k: usize = 0;
        while k < self.parts.len()
            invariant
                self.wf(),
                i < 2,
                k <= self.parts@.len(),
                old(out)@ + all.bytes == out@ + self.diff_parts(cur, i as int, k as int).bytes,
                all.cursor == self.diff_parts(cur, i as int, k as int).cursor,
            decreases self.parts@.len() - k,
        {
            let part = &self.parts[k];
            let ghost before = out@;
            let ghost piece = self.diff_part(cur, *part, i as int);
            cur = self.put_diff_part(out, cur, part, i);
            proof {
                let after = self.diff_parts(cur, i as int, k + 1);
                assert(out@ + after.bytes =~= before + (piece.bytes + after.bytes));
            }
            k += 1;
        }
        proof {
            assert(out@ + Seq::<u8>::empty() =~= out@);
        }
        cur
    }
}

/// Every part matches or is empty on both sides.
pub open spec fn spec_all_context(parts: Seq<Part<'_>>) -> bool {
    forall|n: int| 0 <= n < parts.len() ==> (#[trigger] parts[n]).matches || parts[n].both_empty()
}

/// Every part can be shown within a line.
pub open spec fn spec_all_inlineable(parts: Seq<Part<'_>>) -> bool {
    forall|n: int| 0 <= n < parts.len() ==> (#[trigger] parts[n]).spec_inlineable()
}

impl<'a> Block<'a> {
    /// The painter of the block: both sides go into one line where the style asks
    /// for it and the block scores above the cutoff or every part can be shown
    /// within a line; the place of an insertion is marked unless the block
    /// scores zero.
    pub open spec fn painter<'p>(
        &'p self,
        markers: Option<&'p MergeMarkers>,
        style: &'p Style,
        opts: &'p StyleOpts,
        numbering: &'p Numbering,
    ) -> Painter<'p, 'a> {
        let score = crate::block::spec_score(self.parts@);
        Painter {
            parts: &self.parts,
            markers,
            style,
            opts,
            numbering,
            inline: style.inline && (score.spec_above_cutoff() || spec_all_inlineable(self.parts@)),
            marks_inserts: !score.spec_is_zero(),
        }
    }

    /// What is shown of the block. A block of parts that match is shown as
    /// context, unless both sides are to be shown. Any other block is shown
    /// with both sides in one line, or else first its left side and then its
    /// right side.
    pub open spec fn spec_print(
        &self,
        markers: Option<&MergeMarkers>,
        style: &Style,
        opts: &StyleOpts,
        numbering: &Numbering,
    ) -> Seq<u8> {
        self.spec_drawn(markers, style, opts, numbering).bytes
    }

    /// Where the output stands before the block: at the start of a line, with the
    /// line numbers of the first part.
    pub open spec fn start(&self) -> Cursor {
        Cursor {
            newline: true,
            insert: false,
            left: (self.parts@[0].first_line(0) + self.parts@[0].parent.line_numbers.left) as usize,
            right: (self.parts@[0].first_line(1) + self.parts@[0].parent.line_numbers.right) as usize,
        }
    }

    /// What is shown of the block, with the lines that are begun.
    pub open spec fn spec_drawn(
        &self,
        markers: Option<&MergeMarkers>,
        style: &Style,
        opts: &StyleOpts,
        numbering: &Numbering,
    ) -> Drawn {
        if self.parts@.len() == 0 {
            Drawn::nothing(self.start())
        } else {
            let painter = self.painter(markers, style, opts, numbering);
            if !style.show_both && spec_all_context(self.parts@) {
                painter.context_parts(self.start(), 0)
            } else if painter.inline {
                painter.diff_pass(self.start(), 0)
            } else {
                let left = painter.diff_pass(self.start(), 0);
                left.and(painter.diff_pass(left.cursor, 1))
            }
        }
    }

    fn all_context(&self) -> (r: bool)
        ensures
            r == spec_all_context(self.parts@),
    {
        let mut n: usize = 0;
        while n < self.parts.len()
            invariant
                n <= self.parts@.len(),
                forall|x: int| 0 <= x < n ==> (#[trigger] self.parts@[x]).matches || self.parts@[x].both_empty(),
            decreases self.parts@.len() - n,
        {
            let part = &self.parts[n];
            if !(part.matches || (part.is_empty(0) && part.is_empty(1))) {
                return false;
            }
            n += 1;
        }
        true
    }

    fn all_inlineable(&self) -> (r: bool)
        requires
            all_wf(self.parts@),
        ensures
            r == spec_all_inlineable(self.parts@),
    {
        let mut n: usize = 0;
        while n < self.parts.len()
            invariant
                all_wf(self.parts@),
                n <= self.parts@.len(),
                forall|x: int| 0 <= x < n ==> (#[trigger] self.parts@[x]).spec_inlineable(),
            decreases self.parts@.len() - n,
        {
            if !self.parts[n].inlineable() {
                return false;
            }
            n += 1;
        }
        true
    }

    /// Appends to `out` what is shown of the block: see `spec_print`.
    pub fn print(
        &self,
        out: &mut Vec<u8>,
        merge_markers: Option<&MergeMarkers>,
        style: &Style,
        style_opts: &StyleOpts,
        numbering: &Numbering,
    )
        requires
            all_wf(self.parts@),
        ensures
            final(out)@ == old(out)@ + self.spec_print(merge_markers, style, style_opts, numbering),
    {
        if self.parts.len() == 0 {
            assert(out@ =~= old(out)@ + Seq::<u8>::empty());
            return ;
        }
        let first = &self.parts[0];
        assert(first.wf());
        let start = Cursor {
            newline: true,
            insert: false,
            left: first.first_lineno(0),
            right: first.first_lineno(1),
        };
        let score = self.score();
        let inline = style.inline && (score.above_cutoff() || self.all_inlineable());
        let painter = Painter {
            parts: &self.parts,
            markers: merge_markers,
            style,
            opts: style_opts,
            numbering,
            inline,
            marks_inserts: !score.is_zero(),
        };
        assert(painter == self.painter(merge_markers, style, style_opts, numbering));
        if !style.show_both && self.all_context() {
            painter.put_context_parts(out, start);
        } else if inline {
            painter.put_diff_pass(out, start, 0);
        } else {
            let ghost left = painter.diff_pass(start, 0);
            let mid = painter.put_diff_pass(out, start, 0);
            let ghost right = painter.diff_pass(mid, 1);
            painter.put_diff_pass(out, mid, 1);
            assert(out@ =~= old(out)@ + (left.bytes + right.bytes));
        }
    }
}

} // verus!
