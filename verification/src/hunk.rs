//! The two sides of a hunk, line by line.

use crate::block::{all_wf, part_lists, split_spec, Block};
use crate::block_maker::{intern_all, requests, BlockMaker};
use crate::pair::Pair;
use crate::render::{MergeMarkers, Numbering};
use crate::style::Style;
use crate::style_opts::StyleOpts;
use crate::tokeniser::{extends, Tokeniser};
use crate::whitespace::views;
use vstd::prelude::*;

verus! {

/// The lines of the old text and of the new text of one hunk.
#[derive(Debug)]
pub struct Hunk {
    pub left: Vec<Vec<u8>>,
    pub right: Vec<Vec<u8>>,
}

impl Hunk {
    /// The lines of side `i` as byte strings.
    pub open spec fn lines(&self, i: int) -> Seq<Seq<u8>> {
        if i == 0 {
            views(self.left@)
        } else {
            views(self.right@)
        }
    }

    /// A hunk without lines.
    pub fn new() -> (r: Hunk)
        ensures
            r.left@.len() == 0,
            r.right@.len() == 0,
    {
        Hunk { left: Vec::new(), right: Vec::new() }
    }

    /// The lines of side `i`.
    pub fn get(&self, i: usize) -> (r: &Vec<Vec<u8>>)
        ensures
            views(r@) == self.lines(i as int),
            i == 0 ==> *r == self.left,
            i != 0 ==> *r == self.right,
    {
        if i == 0 {
            &self.left
        } else {
            &self.right
        }
    }

    /// The lines of side `i`, to be changed.
    pub fn get_mut(&mut self, i: usize) -> (r: &mut Vec<Vec<u8>>)
        ensures
            i == 0 ==> *r == old(self).left && final(self).left == *final(r) && final(self).right
                == old(self).right,
            i != 0 ==> *r == old(self).right && final(self).right == *final(r) && final(self).left
                == old(self).left,
    {
        if i == 0 {
            &mut self.left
        } else {
            &mut self.right
        }
    }

    /// Whether neither side has a line.
    pub fn is_empty(&self) -> (r: bool)
        ensures
            r == (self.left@.len() == 0 && self.right@.len() == 0),
    {
        self.left.len() == 0 && self.right.len() == 0
    }

    /// Appends to `out` what is shown of the hunk: its blocks, one after the
    /// other. The words and the lines of the hunk are interned. Nothing is shown
    /// of a hunk without lines.
    pub fn print(
        &mut self,
        out: &mut Vec<u8>,
        tokeniser: &mut Tokeniser,
        line_numbers: [usize; 2],
        merge_markers: Option<&MergeMarkers>,
        style: &Style,
        style_opts: &StyleOpts,
    )
        requires
            old(tokeniser).wf(),
            line_numbers[0] + old(self).left@.len() <= usize::MAX,
            line_numbers[1] + old(self).right@.len() <= usize::MAX,
        ensures
            *final(self) == *old(self),
            final(tokeniser).wf(),
            extends(old(tokeniser)@, final(tokeniser)@),
            old(self).left@.len() == 0 && old(self).right@.len() == 0 ==> {
                &&& final(out)@ == old(out)@
                &&& final(tokeniser)@ == old(tokeniser)@
            },
            !(old(self).left@.len() == 0 && old(self).right@.len() == 0) ==> final(tokeniser)@ == intern_all(
                intern_all(old(tokeniser)@, requests(old(self).lines(0))),
                requests(old(self).lines(1)),
            ),
            old(out)@.len() <= final(out)@.len(),
            final(out)@.subrange(0, old(out)@.len() as int) == old(out)@,
            !(old(self).left@.len() == 0 && old(self).right@.len() == 0) ==> hunk_shown(
                old(self).lines(0),
                old(self).lines(1),
                line_numbers[0] as int,
                line_numbers[1] as int,
                final(tokeniser)@,
                merge_markers,
                style,
                style_opts,
                &Numbering::Numbers,
                final(out)@.subrange(old(out)@.len() as int, final(out)@.len() as int),
            ),
    {
        if !self.is_empty() {
            show(self, out, tokeniser, line_numbers, merge_markers, style, style_opts, &Numbering::Numbers);
        } else {
            assert(out@.subrange(0, old(out)@.len() as int) =~= old(out)@);
        }
    }

    /// Appends to `out` the names of the two files as a hunk of one line on each
    /// side, each line with the label of its side before it, in the styles of
    /// file names. A name that is not given is empty.
    pub fn print_filename(
        out: &mut Vec<u8>,
        tokeniser: &mut Tokeniser,
        left: Option<&[u8]>,
        right: Option<&[u8]>,
        prefix: (&[u8], &[u8], &[u8]),
        style: &Style,
        style_opts: &StyleOpts,
    )
        requires
            old(tokeniser).wf(),
        ensures
            final(tokeniser).wf(),
            extends(old(tokeniser)@, final(tokeniser)@),
            final(tokeniser)@ == names_interned(old(tokeniser)@, given(left), given(right)),
            old(out)@.len() <= final(out)@.len(),
            final(out)@.subrange(0, old(out)@.len() as int) == old(out)@,
            names_drawn(
                given(left),
                given(right),
                (prefix.0@, prefix.1@, prefix.2@),
                final(tokeniser)@,
                style,
                style_opts,
                final(out)@.subrange(old(out)@.len() as int, final(out)@.len() as int),
            ),
    {
        let mut hunk = Hunk::new();
        hunk.left.push(line_of_name(left));
        hunk.right.push(line_of_name(right));
        let names = style_of_names(style, style_opts);
        let labels = labels_of(prefix);
        proof {
            assert(hunk.lines(0) =~= seq![name_line(given(left))]);
            assert(hunk.lines(1) =~= seq![name_line(given(right))]);
        }
        show(&hunk, out, tokeniser, [1, 1], None, &names, style_opts, &labels);
        proof {
            let bytes = out@.subrange(old(out)@.len() as int, out@.len() as int);
            reveal(names_drawn);
            assert(names_shown(
                &names,
                &labels,
                given(left),
                given(right),
                (prefix.0@, prefix.1@, prefix.2@),
                tokeniser@,
                style,
                style_opts,
                bytes,
            ));
        }
    }
}

/// Appends to `out` what is shown of the lines of `hunk`.
fn show(
    hunk: &Hunk,
    out: &mut Vec<u8>,
    tokeniser: &mut Tokeniser,
    line_numbers: [usize; 2],
    markers: Option<&MergeMarkers>,
    style: &Style,
    opts: &StyleOpts,
    numbering: &Numbering,
)
    requires
        old(tokeniser).wf(),
        line_numbers[0] + hunk.left@.len() <= usize::MAX,
        line_numbers[1] + hunk.right@.len() <= usize::MAX,
    ensures
        final(tokeniser).wf(),
        extends(old(tokeniser)@, final(tokeniser)@),
        final(tokeniser)@ == intern_all(
            intern_all(old(tokeniser)@, requests(hunk.lines(0))),
            requests(hunk.lines(1)),
        ),
        old(out)@.len() <= final(out)@.len(),
        final(out)@.subrange(0, old(out)@.len() as int) == old(out)@,
        hunk_shown(
            hunk.lines(0),
            hunk.lines(1),
            line_numbers[0] as int,
            line_numbers[1] as int,
            final(tokeniser)@,
            markers,
            style,
            opts,
            numbering,
            final(out)@.subrange(old(out)@.len() as int, final(out)@.len() as int),
        ),
{
    let maker = BlockMaker::new(hunk, line_numbers, tokeniser);
    let blocks = maker.make_block().split_block();
    print_blocks(&blocks, out, markers, style, opts, numbering);
    proof {
        let bytes = out@.subrange(old(out)@.len() as int, out@.len() as int);
        assert(out@.subrange(0, old(out)@.len() as int) =~= old(out)@);
        assert(bytes =~= shown(blocks@, 0, markers, style, opts, numbering));
        reveal(hunk_shown);
        assert(drawn_from(
            &maker,
            blocks@,
            hunk.lines(0),
            hunk.lines(1),
            line_numbers[0] as int,
            line_numbers[1] as int,
            tokeniser@,
            markers,
            style,
            opts,
            numbering,
            bytes,
        ));
    }
}

/// The style in which the names of files are shown.
fn style_of_names(style: &Style, opts: &StyleOpts) -> (r: Style)
    ensures
        names_style(&r, style, opts),
{
    Style {
        line_numbers: true,
        signs: false,
        show_both: true,
        inline: style.inline,
        diff_matching: Pair { left: opts.filename_header_left.clone(), right: opts.filename_header_right.clone() },
        diff_matching_inline: opts.filename_rename.clone(),
        diff_non_matching: Pair {
            left: opts.filename_non_matching_left.clone(),
            right: opts.filename_non_matching_right.clone(),
        },
    }
}

/// The labels that stand where the line numbers stand.
fn labels_of(prefix: (&[u8], &[u8], &[u8])) -> (r: Numbering)
    ensures
        labelled(&r, (prefix.0@, prefix.1@, prefix.2@)),
{
    Numbering::Labels {
        left: vstd::slice::slice_to_vec(prefix.0),
        right: vstd::slice::slice_to_vec(prefix.1),
        both: vstd::slice::slice_to_vec(prefix.2),
    }
}

/// Whether `labels` holds the three labels of `prefix`.
pub open spec fn labelled(labels: &Numbering, prefix: (Seq<u8>, Seq<u8>, Seq<u8>)) -> bool {
    match labels {
        Numbering::Labels { left: l, right: r, both: b } => l@ == prefix.0 && r@ == prefix.1 && b@ == prefix.2,
        Numbering::Numbers => false,
    }
}

/// Whether `names` is the style in which the names of files are shown: with
/// the label of the side where the line numbers stand, without signs, both
/// sides below each other unless `style` shows them in one line, in the styles
/// that `opts` has for the names of files.
pub open spec fn names_style(names: &Style, style: &Style, opts: &StyleOpts) -> bool {
    &&& names.line_numbers
    &&& !names.signs
    &&& names.show_both
    &&& names.inline == style.inline
    &&& names.diff_matching.left@ == opts.filename_header_left@
    &&& names.diff_matching.right@ == opts.filename_header_right@
    &&& names.diff_matching_inline@ == opts.filename_rename@
    &&& names.diff_non_matching.left@ == opts.filename_non_matching_left@
    &&& names.diff_non_matching.right@ == opts.filename_non_matching_right@
}

/// Whether `bytes` is what is shown of the two names: the hunk of the one line
/// that each name makes, in the style `names` of the names of files, with the
/// labels `labels` of `prefix` in place of the line numbers.
pub open spec fn names_shown(
    names: &Style,
    labels: &Numbering,
    left: Option<Seq<u8>>,
    right: Option<Seq<u8>>,
    prefix: (Seq<u8>, Seq<u8>, Seq<u8>),
    table: Seq<Seq<u8>>,
    style: &Style,
    opts: &StyleOpts,
    bytes: Seq<u8>,
) -> bool {
    &&& names_style(names, style, opts)
    &&& labelled(labels, prefix)
    &&& hunk_shown(seq![name_line(left)], seq![name_line(right)], 1, 1, table, None, names, opts, labels, bytes)
}

/// Whether `bytes` is what is shown of the two names with the labels `prefix`
/// for the left side, the right side and both.
#[verifier::opaque]
pub open spec fn names_drawn(
    left: Option<Seq<u8>>,
    right: Option<Seq<u8>>,
    prefix: (Seq<u8>, Seq<u8>, Seq<u8>),
    table: Seq<Seq<u8>>,
    style: &Style,
    opts: &StyleOpts,
    bytes: Seq<u8>,
) -> bool {
    exists|names: Style, labels: Numbering| #[trigger]
        names_shown(&names, &labels, left, right, prefix, table, style, opts, bytes)
}

/// The table once the words and the lines of the two names are interned.
pub open spec fn names_interned(table: Seq<Seq<u8>>, left: Option<Seq<u8>>, right: Option<Seq<u8>>) -> Seq<
    Seq<u8>,
> {
    intern_all(intern_all(table, requests(seq![name_line(left)])), requests(seq![name_line(right)]))
}

/// The bytes of a name that is given.
pub open spec fn given(name: Option<&[u8]>) -> Option<Seq<u8>> {
    match name {
        Some(n) => Some(n@),
        None => None,
    }
}

/// The line that a file name makes: the name, with a newline after it unless it
/// ends in one; a newline alone for a name that is not given.
pub open spec fn name_line(name: Option<Seq<u8>>) -> Seq<u8> {
    let bytes = match name {
        Some(n) => n,
        None => Seq::empty(),
    };
    if bytes.len() > 0 && bytes.last() == 10u8 {
        bytes
    } else {
        bytes.push(10u8)
    }
}

fn line_of_name(name: Option<&[u8]>) -> (r: Vec<u8>)
    ensures
        r@ == name_line(given(name)),
{
    let mut line: Vec<u8> = match name {
        Some(n) => vstd::slice::slice_to_vec(n),
        None => Vec::new(),
    };
    if !(line.len() > 0 && line[line.len() - 1] == 10) {
        line.push(10);
    }
    line
}

/// What is shown of `blocks` from block `n` on.
pub open spec fn shown(
    blocks: Seq<Block<'_>>,
    n: int,
    markers: Option<&MergeMarkers>,
    style: &Style,
    opts: &StyleOpts,
    numbering: &Numbering,
) -> Seq<u8>
    decreases blocks.len() - n,
{
    if n < 0 || n >= blocks.len() {
        Seq::empty()
    } else {
        blocks[n].spec_print(markers, style, opts, numbering) + shown(blocks, n + 1, markers, style, opts, numbering)
    }
}

/// Whether `blocks` are the blocks that `maker` gives for the lines `left` and
/// `right`, and `bytes` is what is shown of them.
pub open spec fn drawn_from(
    maker: &BlockMaker,
    blocks: Seq<Block<'_>>,
    left: Seq<Seq<u8>>,
    right: Seq<Seq<u8>>,
    first_left: int,
    first_right: int,
    table: Seq<Seq<u8>>,
    markers: Option<&MergeMarkers>,
    style: &Style,
    opts: &StyleOpts,
    numbering: &Numbering,
    bytes: Seq<u8>,
) -> bool {
    &&& maker.made_of(left, right, first_left, first_right, table)
    &&& part_lists(blocks) == split_spec(maker.block_spec())
    &&& bytes == shown(blocks, 0, markers, style, opts, numbering)
}

/// Whether `bytes` is what is shown of the hunk of the lines `left` and `right`:
/// the lines are cut into words under the tokens of `table`, the words are
/// compared, the parts that come of it are split into blocks, and the blocks are
/// shown one after the other.
#[verifier::opaque]
pub open spec fn hunk_shown(
    left: Seq<Seq<u8>>,
    right: Seq<Seq<u8>>,
    first_left: int,
    first_right: int,
    table: Seq<Seq<u8>>,
    markers: Option<&MergeMarkers>,
    style: &Style,
    opts: &StyleOpts,
    numbering: &Numbering,
    bytes: Seq<u8>,
) -> bool {
    exists|maker: BlockMaker, blocks: Seq<Block<'_>>| #[trigger]
        drawn_from(
            &maker,
            blocks,
            left,
            right,
            first_left,
            first_right,
            table,
            markers,
            style,
            opts,
            numbering,
            bytes,
        )
}

/// Appends to `out` what is shown of each block of `blocks`.
pub fn print_blocks(
    blocks: &Vec<Block<'_>>,
    out: &mut Vec<u8>,
    markers: Option<&MergeMarkers>,
    style: &Style,
    opts: &StyleOpts,
    numbering: &Numbering,
)
    requires
        forall|n: int| 0 <= n < blocks@.len() ==> all_wf((#[trigger] blocks@[n]).parts@),
    ensures
        final(out)@ == old(out)@ + shown(blocks@, 0, markers, style, opts, numbering),
{
    let mut n: usize = 0;
    while n < blocks.len()
        invariant
            n <= blocks@.len(),
            forall|x: int| 0 <= x < blocks@.len() ==> all_wf((#[trigger] blocks@[x]).parts@),
            old(out)@ + shown(blocks@, 0, markers, style, opts, numbering) == out@ + shown(
                blocks@,
                n as int,
                markers,
                style,
                opts,
                numbering,
            ),
        decreases blocks@.len() - n,
    {
        let ghost before = out@;
        let ghost piece = blocks@[n as int].spec_print(markers, style, opts, numbering);
        blocks[n].print(out, markers, style, opts, numbering);
        proof {
            let rest = shown(blocks@, n + 1, markers, style, opts, numbering);
            assert(out@ + rest =~= before + (piece + rest));
        }
        n += 1;
    }
    assert(out@ + Seq::<u8>::empty() =~= out@);
}

} // verus!
