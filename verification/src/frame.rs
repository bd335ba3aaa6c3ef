//! What a line of a diff is to a framer, what the framer holds after it, and
//! what is shown for it, over plain values.

use crate::block_maker::{intern_all, requests};
use crate::framer::{
    FrameError, COMBINED_HEADER, COMBINED_LINE, COMMIT_LINE, DIFF_HEADER, EMPTY_LINE, FILE_NAME, GIT_HEADER,
    INDEX_LINE, LABEL_RENAME_BOTH, LABEL_RENAME_FROM, LABEL_RENAME_TO, NO_NEWLINE, NO_NEWLINE_BARE,
    OLD_FILE_SIGN, PLUS_SIGN, RENAME_FROM, RENAME_LINE, RIGHT_SIGN, SEPARATOR, TRADITIONAL_HEADER,
    TRADITIONAL_LINE, TRAILING_SPACE, UNIFIED_HEADER, UNIFIED_LINE, WHOLE_MATCH,
};
use crate::hunk::{hunk_shown, names_drawn, names_interned, Hunk};
use crate::pair::Pair;
use crate::render::{MergeMarkers, Numbering};
use crate::style;
use crate::style::{spec_format_lineno, Style};
use crate::style_opts::StyleOpts;
use crate::text::{
    all_digits, decimal_value, escaped, pattern_groups, pattern_replaced, spec_group, STYLE_PATTERN,
};
use vstd::prelude::*;
use vstd::string::StringSliceAdditionalSpecFns;

verus! {

/// What a framer holds between two lines.
pub struct Frame {
    /// The lines of the two sides of the hunk that is gathered.
    pub lines: Option<(Seq<Seq<u8>>, Seq<Seq<u8>>)>,
    /// The numbers of the first lines of the hunk.
    pub numbers: (usize, usize),
    /// Whether the diff is unified.
    pub unified: bool,
    /// The bars of a combined diff: side, line number and bar, in the order in
    /// which they were set.
    pub bars: Option<Seq<(usize, usize, Seq<u8>)>>,
    /// The name of the old file.
    pub filename: Option<Seq<u8>>,
    /// The side of the line that came last.
    pub side: usize,
}

/// What a line is to a framer. Where a pattern decides, the groups of its match
/// come with the kind.
pub enum Line {
    /// The header of a hunk of a unified diff.
    UnifiedHeader(Seq<Option<(usize, usize)>>),
    /// The header of a hunk of a combined diff.
    CombinedHeader(Seq<Option<(usize, usize)>>),
    /// The header of a hunk of a traditional diff.
    TraditionalHeader(Seq<Option<(usize, usize)>>),
    /// The header of the diff of two files, with the groups that hold the second
    /// name and the rest of the line.
    DiffHeader(Seq<Option<(usize, usize)>>, int, int),
    /// The name of a file, before any hunk.
    FileName(Seq<Option<(usize, usize)>>),
    /// The line that names a commit, before any hunk.
    Commit,
    /// Any other line before any hunk.
    Loose,
    /// A line of a hunk of a combined diff.
    CombinedLine(Seq<Option<(usize, usize)>>),
    /// A line of context that is shown as it comes.
    Context,
    /// The old or the new name of a file that was renamed.
    Rename(Seq<Option<(usize, usize)>>),
    /// The line that says that the line before it does not end in a newline.
    NoNewline,
    /// A line of one side of a hunk: the side and the line.
    Sided(usize, Seq<u8>),
    /// A line of context that is gathered on both sides.
    Shared,
    /// The line between the two sides of a hunk of a traditional diff.
    Separator,
    /// An empty line, which ends the hunk.
    Blank,
    /// The line that names the blobs of a file, which ends the hunk.
    Index,
    /// Any other line within a hunk: the hunk ends and another begins.
    Stray,
}

/// What group `k` holds; nothing where it holds nothing.
pub open spec fn held_in(text: Seq<u8>, groups: Seq<Option<(usize, usize)>>, k: int) -> Seq<u8> {
    match spec_group(text, groups, k) {
        Some(s) => s,
        None => Seq::empty(),
    }
}

/// The number that group `k` holds, where it holds a decimal number that is not
/// beyond the largest number.
pub open spec fn number_of(text: Seq<u8>, groups: Seq<Option<(usize, usize)>>, k: int) -> Option<usize> {
    match spec_group(text, groups, k) {
        Some(s) => if all_digits(s) && decimal_value(s, s.len() as int) <= usize::MAX {
            Some(decimal_value(s, s.len() as int) as usize)
        } else {
            None
        },
        None => None,
    }
}

/// Whether the line begins with a space.
pub open spec fn indented(s: Seq<u8>) -> bool {
    s.len() > 0 && s[0] == 32
}

/// The kind of header that the line is, if it is one. The patterns are tried in
/// this order: unified, combined, traditional, two files, two files of git.
pub open spec fn header_kind(s: Seq<u8>) -> Option<Line> {
    match pattern_groups(UNIFIED_HEADER@, s) {
        Some(g) => Some(Line::UnifiedHeader(g)),
        None => match pattern_groups(COMBINED_HEADER@, s) {
            Some(g) => Some(Line::CombinedHeader(g)),
            None => match pattern_groups(TRADITIONAL_HEADER@, s) {
                Some(g) => Some(Line::TraditionalHeader(g)),
                None => match pattern_groups(DIFF_HEADER@, s) {
                    Some(g) => Some(Line::DiffHeader(g, 5, 7)),
                    None => match pattern_groups(GIT_HEADER@, s) {
                        Some(g) => Some(Line::DiffHeader(g, 4, 5)),
                        None => None,
                    },
                },
            },
        },
    }
}

/// The kind of a line that is no header and comes before any hunk.
pub open spec fn loose_kind(s: Seq<u8>) -> Line {
    match pattern_groups(FILE_NAME@, s) {
        Some(g) => Line::FileName(g),
        None => if pattern_groups(COMMIT_LINE@, s).is_some() {
            Line::Commit
        } else {
            Line::Loose
        },
    }
}

/// The kind of a line that ends a hunk.
pub open spec fn ending_kind(buf: Seq<u8>, s: Seq<u8>) -> Line {
    if buf == EMPTY_LINE.spec_bytes() {
        Line::Blank
    } else if pattern_groups(INDEX_LINE@, s).is_some() {
        Line::Index
    } else {
        Line::Stray
    }
}

/// The side of a line of a hunk by its sign: the right side for `right`, else
/// the left side.
pub open spec fn sided(s: Seq<u8>, g: Seq<Option<(usize, usize)>>, right: Seq<u8>) -> Line {
    Line::Sided(
        if held_in(s, g, 1) == right {
            1
        } else {
            0
        },
        held_in(s, g, 2),
    )
}

/// The kind of a line within a hunk that is a line of the hunk by its sign, or
/// ends the hunk.
pub open spec fn signed_kind(unified: bool, exact: bool, buf: Seq<u8>, s: Seq<u8>) -> Line {
    if unified {
        match pattern_groups(UNIFIED_LINE@, s) {
            Some(g) => sided(s, g, PLUS_SIGN.spec_bytes()),
            None => if !exact && indented(s) {
                Line::Shared
            } else {
                ending_kind(buf, s)
            },
        }
    } else if s == SEPARATOR.spec_bytes() {
        Line::Separator
    } else {
        match pattern_groups(TRADITIONAL_LINE@, s) {
            Some(g) => sided(s, g, RIGHT_SIGN.spec_bytes()),
            None => ending_kind(buf, s),
        }
    }
}

/// Whether the hunk that is gathered holds no line.
pub open spec fn nothing_gathered(frame: Frame) -> bool {
    match frame.lines {
        Some((left, right)) => left.len() == 0 && right.len() == 0,
        None => true,
    }
}

/// The kind of a line that is no header and comes within a hunk.
pub open spec fn inner_kind(frame: Frame, exact: bool, buf: Seq<u8>, s: Seq<u8>) -> Line {
    let combined = if frame.unified && frame.bars.is_some() {
        pattern_groups(COMBINED_LINE@, s)
    } else {
        None
    };
    let rename = if nothing_gathered(frame) {
        pattern_groups(RENAME_LINE@, s)
    } else {
        None
    };
    match combined {
        Some(g) => Line::CombinedLine(g),
        None => if exact && indented(s) {
            Line::Context
        } else {
            match rename {
                Some(g) => Line::Rename(g),
                None => if s == NO_NEWLINE.spec_bytes() || s == NO_NEWLINE_BARE.spec_bytes() {
                    Line::NoNewline
                } else {
                    signed_kind(frame.unified, exact, buf, s)
                },
            }
        },
    }
}

/// The kind of the line `buf`, which is `s` without its styles.
pub open spec fn kind(frame: Frame, exact: bool, buf: Seq<u8>, s: Seq<u8>) -> Line {
    match header_kind(s) {
        Some(line) => line,
        None => if frame.lines.is_none() {
            loose_kind(s)
        } else {
            inner_kind(frame, exact, buf, s)
        },
    }
}

/// Whether the hunk that is gathered ends with the line.
pub open spec fn ends_hunk(line: Line) -> bool {
    match line {
        Line::UnifiedHeader(_) => true,
        Line::CombinedHeader(_) => true,
        Line::TraditionalHeader(_) => true,
        Line::DiffHeader(_, _, _) => true,
        Line::Context => true,
        Line::Blank => true,
        Line::Index => true,
        Line::Stray => true,
        _ => false,
    }
}

/// Whether the numbers of the lines that are gathered go beyond the largest
/// number.
pub open spec fn overflows(frame: Frame) -> bool {
    match frame.lines {
        Some((left, right)) => frame.numbers.0 + left.len() > usize::MAX || frame.numbers.1 + right.len()
            > usize::MAX,
        None => false,
    }
}

/// The side of a line of a combined diff: the right side where the sign holds a
/// plus.
pub open spec fn combined_side(sign: Seq<u8>) -> usize {
    if sign.contains(43u8) {
        1
    } else {
        0
    }
}

/// The number of the line that comes next on `side`.
pub open spec fn next_number(frame: Frame, side: usize) -> int {
    match frame.lines {
        Some((left, right)) => if side == 0 {
            frame.numbers.0 + left.len()
        } else {
            frame.numbers.1 + right.len()
        },
        None => 0,
    }
}

/// Why the line cannot be taken in, if it cannot: the numbers of the hunk that
/// ends with it go beyond the largest number, or a number of its header is no
/// decimal number or beyond the largest number, or the number of the line itself
/// is.
pub open spec fn failure(frame: Frame, line: Line, s: Seq<u8>) -> Option<FrameError> {
    if ends_hunk(line) && overflows(frame) {
        Some(FrameError::TooManyLines)
    } else {
        match line {
            Line::UnifiedHeader(g) => if number_of(s, g, 3).is_none() || number_of(s, g, 5).is_none() {
                Some(FrameError::BadNumber)
            } else {
                None
            },
            Line::CombinedHeader(g) => if number_of(s, g, 3).is_none() || number_of(s, g, 7).is_none() {
                Some(FrameError::BadNumber)
            } else {
                None
            },
            Line::TraditionalHeader(g) => if number_of(s, g, 1).is_none() || number_of(s, g, 3).is_none() {
                Some(FrameError::BadNumber)
            } else {
                None
            },
            Line::CombinedLine(g) => if next_number(frame, combined_side(held_in(s, g, 1))) > usize::MAX {
                Some(FrameError::TooManyLines)
            } else {
                None
            },
            Line::Context => if frame.numbers.0 == usize::MAX || frame.numbers.1 == usize::MAX {
                Some(FrameError::TooManyLines)
            } else {
                None
            },
            _ => None,
        }
    }
}

/// The two sides with `line` at the end of `side`.
pub open spec fn with_line(lines: (Seq<Seq<u8>>, Seq<Seq<u8>>), side: usize, line: Seq<u8>) -> (
    Seq<Seq<u8>>,
    Seq<Seq<u8>>,
) {
    if side == 0 {
        (lines.0.push(line), lines.1)
    } else {
        (lines.0, lines.1.push(line))
    }
}

/// The lines without the newline at the end of the last of them.
pub open spec fn unterminated(lines: Seq<Seq<u8>>) -> Seq<Seq<u8>> {
    if lines.len() > 0 && lines.last().len() > 0 && lines.last().last() == 10u8 {
        lines.update(lines.len() - 1, lines.last().drop_last())
    } else {
        lines
    }
}

/// The bar of a line of a combined diff by its sign: the bar of our side where
/// a space follows the sign, the bar of their side where a space comes before
/// it, else the bar of both.
pub open spec fn bar_of(sign: Seq<u8>, opts: &StyleOpts) -> Seq<u8> {
    if sign.len() > 1 && sign[1] == 32 {
        opts.lineno_our_bar@
    } else if sign.len() > 0 && sign[0] == 32 {
        opts.lineno_their_bar@
    } else {
        opts.lineno_merge_bar@
    }
}

/// A hunk without lines.
pub open spec fn no_lines() -> Option<(Seq<Seq<u8>>, Seq<Seq<u8>>)> {
    Some((Seq::empty(), Seq::empty()))
}

/// The two sides, or none where no hunk is gathered.
pub open spec fn sides(frame: Frame) -> (Seq<Seq<u8>>, Seq<Seq<u8>>) {
    match frame.lines {
        Some(lines) => lines,
        None => (Seq::empty(), Seq::empty()),
    }
}

/// What the framer holds after a line that begins a hunk with the numbers in
/// the groups `minus` and `plus`.
pub open spec fn begun(
    frame: Frame,
    s: Seq<u8>,
    g: Seq<Option<(usize, usize)>>,
    minus: int,
    plus: int,
    unified: bool,
    bars: Option<Seq<(usize, usize, Seq<u8>)>>,
) -> Frame {
    Frame {
        lines: no_lines(),
        numbers: (
            match number_of(s, g, minus) {
                Some(n) => n,
                None => 0,
            },
            match number_of(s, g, plus) {
                Some(n) => n,
                None => 0,
            },
        ),
        unified,
        bars,
        filename: frame.filename,
        side: frame.side,
    }
}

/// What the framer holds after a line of a combined diff.
pub open spec fn combined(frame: Frame, s: Seq<u8>, g: Seq<Option<(usize, usize)>>, opts: &StyleOpts) -> Frame {
    let sign = held_in(s, g, 1);
    let side = combined_side(sign);
    Frame {
        lines: Some(with_line(sides(frame), side, held_in(s, g, 2))),
        numbers: frame.numbers,
        unified: frame.unified,
        bars: match frame.bars {
            Some(bars) => Some(bars.push((side, next_number(frame, side) as usize, bar_of(sign, opts)))),
            None => None,
        },
        filename: frame.filename,
        side,
    }
}

/// The frame with other lines.
pub open spec fn with_lines(frame: Frame, lines: Option<(Seq<Seq<u8>>, Seq<Seq<u8>>)>) -> Frame {
    Frame {
        lines,
        numbers: frame.numbers,
        unified: frame.unified,
        bars: frame.bars,
        filename: frame.filename,
        side: frame.side,
    }
}

/// The frame with another name of the old file.
pub open spec fn with_name(frame: Frame, name: Seq<u8>) -> Frame {
    Frame {
        lines: frame.lines,
        numbers: frame.numbers,
        unified: frame.unified,
        bars: frame.bars,
        filename: Some(name),
        side: frame.side,
    }
}

/// What the framer holds after a line that it could take in.
pub open spec fn next(frame: Frame, line: Line, s: Seq<u8>, opts: &StyleOpts) -> Frame {
    match line {
        Line::UnifiedHeader(g) => begun(frame, s, g, 3, 5, true, None),
        Line::CombinedHeader(g) => begun(frame, s, g, 3, 7, true, Some(Seq::empty())),
        Line::TraditionalHeader(g) => begun(frame, s, g, 1, 3, false, None),
        Line::DiffHeader(_, _, _) => with_lines(frame, no_lines()),
        Line::FileName(g) => if held_in(s, g, 1) == OLD_FILE_SIGN.spec_bytes() {
            with_name(frame, held_in(s, g, 3))
        } else {
            frame
        },
        Line::Commit => frame,
        Line::Loose => frame,
        Line::CombinedLine(g) => combined(frame, s, g, opts),
        Line::Context => Frame {
            lines: no_lines(),
            numbers: ((frame.numbers.0 + 1) as usize, (frame.numbers.1 + 1) as usize),
            unified: frame.unified,
            bars: frame.bars,
            filename: frame.filename,
            side: frame.side,
        },
        Line::Rename(g) => if held_in(s, g, 1) == RENAME_FROM.spec_bytes() {
            with_name(frame, held_in(s, g, 2))
        } else {
            frame
        },
        Line::NoNewline => with_lines(
            frame,
            Some(
                if frame.side == 0 {
                    (unterminated(sides(frame).0), sides(frame).1)
                } else {
                    (sides(frame).0, unterminated(sides(frame).1))
                },
            ),
        ),
        Line::Sided(side, text) => Frame {
            lines: Some(with_line(sides(frame), side, text)),
            numbers: frame.numbers,
            unified: frame.unified,
            bars: frame.bars,
            filename: frame.filename,
            side,
        },
        Line::Shared => with_lines(
            frame,
            Some(
                (
                    sides(frame).0.push(s.subrange(1, s.len() as int)),
                    sides(frame).1.push(s.subrange(1, s.len() as int)),
                ),
            ),
        ),
        Line::Separator => frame,
        Line::Blank => with_lines(frame, None),
        Line::Index => with_lines(frame, None),
        Line::Stray => with_lines(frame, no_lines()),
    }
}

/// The header of a hunk as it is shown: the background, the header in its
/// style, after a space the context in its style, the reset and a newline.
/// Without `always`, an empty context and the space before it are left out.
pub open spec fn hunk_header_text(opts: &StyleOpts, header: Seq<u8>, context: Seq<u8>, always: bool) -> Seq<u8> {
    opts.backdrop() + opts.header@ + header + (if always || context.len() > 0 {
        seq![32u8] + opts.context@ + context
    } else {
        Seq::empty()
    }) + style::RESET.spec_bytes() + seq![10u8]
}

/// The header of the diff of two files as it is shown: the background, the
/// header in its style, and each of the two names in the style of its side,
/// then the reset, the rest of the line and a newline.
pub open spec fn diff_header_text(
    opts: &StyleOpts,
    s: Seq<u8>,
    g: Seq<Option<(usize, usize)>>,
    second: int,
    trailer: int,
) -> Seq<u8> {
    opts.backdrop() + style::DIFF_HEADER.spec_bytes() + held_in(s, g, 1) + seq![32u8]
        + style::RESET.spec_bytes() + opts.filename_header_left@ + held_in(s, g, 3) + seq![32u8]
        + opts.filename_header_right@ + held_in(s, g, second) + style::RESET.spec_bytes() + held_in(
        s,
        g,
        trailer,
    ) + seq![10u8]
}

/// A line of context as it is shown when it comes: the background, the line
/// numbers, the sign, and in the style of context the line without its first
/// byte, with the style of white space at the end of a line before such white
/// space.
pub open spec fn context_text(frame: Frame, s: Seq<u8>, style: &Style, opts: &StyleOpts) -> Seq<u8> {
    opts.backdrop() + (if style.line_numbers {
        spec_format_lineno(
            frame.numbers.0 as nat,
            frame.numbers.1 as nat,
            Some(opts.lineno@),
            Some(opts.lineno@),
            None,
        )
    } else {
        Seq::empty()
    }) + (if style.signs {
        style::SIGN_BOTH.spec_bytes()
    } else {
        Seq::empty()
    }) + opts.diff_context@ + pattern_replaced(
        TRAILING_SPACE@,
        s.subrange(1, s.len() as int),
        escaped(opts.diff_trailing_ws@) + WHOLE_MATCH.spec_bytes(),
    )
}

/// What is shown for the line itself, after the hunk that ends with it.
pub open spec fn text(frame: Frame, line: Line, buf: Seq<u8>, s: Seq<u8>, style: &Style, opts: &StyleOpts) -> Seq<
    u8,
> {
    match line {
        Line::UnifiedHeader(g) => hunk_header_text(opts, held_in(s, g, 2), held_in(s, g, 7), false),
        Line::CombinedHeader(g) => hunk_header_text(opts, held_in(s, g, 2), held_in(s, g, 9), true),
        Line::TraditionalHeader(_) => opts.backdrop() + opts.header@ + buf + style::RESET.spec_bytes(),
        Line::DiffHeader(g, second, trailer) => diff_header_text(opts, s, g, second, trailer),
        Line::Commit => opts.backdrop() + opts.commit@ + pattern_replaced(
            STYLE_PATTERN@,
            buf,
            WHOLE_MATCH.spec_bytes() + opts.commit@,
        ) + style::RESET.spec_bytes(),
        Line::Loose => opts.backdrop() + buf,
        Line::Context => context_text(frame, s, style, opts),
        Line::Index => opts.backdrop() + pattern_replaced(
            STYLE_PATTERN@,
            buf,
            WHOLE_MATCH.spec_bytes() + style::DIFF_HEADER.spec_bytes(),
        ),
        Line::Stray => s,
        _ => Seq::empty(),
    }
}

/// The bars as plain values.
pub open spec fn bars_of(entries: Seq<(usize, usize, Vec<u8>)>) -> Seq<(usize, usize, Seq<u8>)> {
    Seq::new(entries.len(), |k: int| (entries[k].0, entries[k].1, entries[k].2@))
}

/// The bars that are given.
pub open spec fn bars_in(markers: &Option<MergeMarkers>) -> Option<&MergeMarkers> {
    match markers {
        Some(m) => Some(m),
        None => None,
    }
}

/// Whether `bytes` is what is shown of the hunk that was gathered, and `after`
/// the table once its words are interned. Nothing is shown of a hunk without
/// lines, and the table stays.
pub open spec fn flushed(
    hunk: &Option<Hunk>,
    numbers: Pair<usize>,
    markers: Option<&MergeMarkers>,
    style: &Style,
    opts: &StyleOpts,
    table: Seq<Seq<u8>>,
    after: Seq<Seq<u8>>,
    bytes: Seq<u8>,
) -> bool {
    match hunk {
        Some(h) => if h.left@.len() == 0 && h.right@.len() == 0 {
            bytes.len() == 0 && after == table
        } else {
            &&& after == intern_all(intern_all(table, requests(h.lines(0))), requests(h.lines(1)))
            &&& hunk_shown(
                h.lines(0),
                h.lines(1),
                numbers.left as int,
                numbers.right as int,
                after,
                markers,
                style,
                opts,
                &Numbering::Numbers,
                bytes,
            )
        },
        None => bytes.len() == 0 && after == table,
    }
}

/// Whether `bytes` is what is shown of the old name `filename` and the new name
/// `name` of a file with the labels `prefix`, and `after` the table once their
/// words are interned.
pub open spec fn named(
    filename: Option<Seq<u8>>,
    name: Seq<u8>,
    prefix: (Seq<u8>, Seq<u8>, Seq<u8>),
    style: &Style,
    opts: &StyleOpts,
    table: Seq<Seq<u8>>,
    after: Seq<Seq<u8>>,
    bytes: Seq<u8>,
) -> bool {
    &&& after == names_interned(table, filename, Some(name))
    &&& names_drawn(filename, Some(name), prefix, after, style, opts, bytes)
}

/// The labels of the two names of a file that was renamed.
pub open spec fn rename_labels() -> (Seq<u8>, Seq<u8>, Seq<u8>) {
    (LABEL_RENAME_FROM.spec_bytes(), LABEL_RENAME_TO.spec_bytes(), LABEL_RENAME_BOTH.spec_bytes())
}

/// The labels of the two names of a file.
pub open spec fn name_labels(opts: &StyleOpts) -> (Seq<u8>, Seq<u8>, Seq<u8>) {
    (opts.filename_sign_left@, opts.filename_sign_right@, opts.filename_sign@)
}

} // verus!
