//! The lines of a diff, one by one: headers are shown as they come, the lines of
//! a hunk are gathered, and a hunk is shown when it ends.

use crate::frame::{
    bar_of, bars_in, bars_of, combined_side, context_text, diff_header_text, ending_kind, flushed,
    header_kind, held_in, hunk_header_text, inner_kind, kind, loose_kind, name_labels, named, next,
    nothing_gathered, number_of, overflows, rename_labels, sided, signed_kind, unterminated, with_line, Frame,
    Line,
};
use crate::handling::{
    handled, lemma_context, lemma_ending, lemma_failed, lemma_gathered, lemma_hunk_header, lemma_name,
    lemma_passed, lemma_seen, lemma_traditional_header, took,
};
use crate::hunk::Hunk;
use crate::pair::Pair;
use crate::render::MergeMarkers;
use crate::style;
use crate::style::{format_lineno, put, Style};
use crate::style_opts::StyleOpts;
use crate::text::{
    captures, escape, group, parse_number, pattern_replaced, replace_matches, strip_style, STYLE_PATTERN,
};
use crate::tokeniser::{extends, Tokeniser};
use crate::whitespace::views;
use vstd::prelude::*;
use vstd::string::StringSliceAdditionalSpecFns;

verus! {

/// The header of a hunk of a unified diff.
pub const UNIFIED_HEADER: &'static str =
    "^((?<header>@@ -(?<line_minus>\\d+)(,\\d+)? \\+(?<line_plus>\\d+)(,\\d+)? @@)\\s*)(?<context>.*)";

/// The header of a hunk of a combined diff.
pub const COMBINED_HEADER: &'static str =
    "^((?<header>@@@ -(?<our_line_minus>\\d+)(,\\d+)? -(?<their_line_minus>\\d+)(,\\d+)? \\+(?<line_plus>\\d+)(,\\d+)? @@@)\\s*)(?<context>.*)";

/// The header of a hunk of a traditional diff.
pub const TRADITIONAL_HEADER: &'static str = "^(?<line_minus>\\d+)(,\\d+)?[acd](?<line_plus>\\d+)(,\\d+)?";

/// The header of the diff of two files.
pub const DIFF_HEADER: &'static str =
    "^(?<header>diff( -r| --recursive)?) (?<filename1>[^\"\\s-][^\"\\s]+|\"(\\\\.|.)*\") (?<filename2>[^\"\\s]+|\"(\\\\.|.)*\")(?<trailer>.*)";

/// The header of the diff of two files as git writes it.
pub const GIT_HEADER: &'static str =
    "^(?<header>diff( --git| --cc)) (?<filename1>a/.*) (?<filename2>b/.*)(?<trailer>.*)";

/// The name of a file of the diff.
pub const FILE_NAME: &'static str = "^(?<sign>---|\\+\\+\\+) ([ab]/)?(?<filename>[^\\t]*)(?<trailer>\\t.*)?";

/// The line that names a commit.
pub const COMMIT_LINE: &'static str = "^commit [0-9a-f]+";

/// A line of a hunk of a combined diff.
pub const COMBINED_LINE: &'static str = "^(?<sign>[-+] | [-+]|[-+]{2})(?<line>.*\\n)";

/// White space at the end of a line.
pub const TRAILING_SPACE: &'static str = "\\s+\\n";

/// The old or the new name of a file that was renamed.
pub const RENAME_LINE: &'static str = "^rename (?<sign>to|from)[ \\t](?<filename>.*\\n)";

/// A line of a hunk of a unified diff.
pub const UNIFIED_LINE: &'static str = "^(?<sign>[-+])(?<line>.*\\n)";

/// A line of a hunk of a traditional diff.
pub const TRADITIONAL_LINE: &'static str = "^(?<sign>[<>]) (?<line>.*\\n)";

/// The line that names the blobs of a file.
pub const INDEX_LINE: &'static str = "^index ";

/// The line that says that the line before it does not end in a newline.
pub const NO_NEWLINE: &'static str = "\\ No newline at end of file\n";

/// The same line where it does not end in a newline itself.
pub const NO_NEWLINE_BARE: &'static str = "\\ No newline at end of file";

/// The sign before the name of the old file.
pub const OLD_FILE_SIGN: &'static str = "---";

/// The sign of a line of the right side of a unified diff.
pub const PLUS_SIGN: &'static str = "+";

/// The sign of a line of the right side of a traditional diff.
pub const RIGHT_SIGN: &'static str = ">";

/// The word before the old name of a file that was renamed.
pub const RENAME_FROM: &'static str = "from";

/// The line between the two sides of a hunk of a traditional diff.
pub const SEPARATOR: &'static str = "---\n";

/// A line that holds a newline alone.
pub const EMPTY_LINE: &'static str = "\n";

/// What stands for the whole match in a replacement.
pub const WHOLE_MATCH: &'static str = "$0";

/// The label of the old name of a file that was renamed.
pub const LABEL_RENAME_FROM: &'static str = "rename from\t";

/// The label of the new name of a file that was renamed.
pub const LABEL_RENAME_TO: &'static str = "rename to\t";

/// The label of the two names of a file that was renamed, in one line.
pub const LABEL_RENAME_BOTH: &'static str = "rename from/to\t";

/// Why a line could not be taken in.
#[derive(Debug, Clone, Copy, PartialEq, Eq, Structural)]
pub enum FrameError {
    /// A line number of a header is not a decimal number, or is beyond the
    /// largest number.
    BadNumber,
    /// The line numbers of a hunk go beyond the largest number.
    TooManyLines,
}

/// What the lines of a diff have come to so far.
pub struct Framer {
    /// The hunk whose lines are gathered.
    pub hunk: Option<Hunk>,
    /// The numbers of the first lines of the hunk.
    pub line_numbers: Pair<usize>,
    /// Whether the diff is unified.
    pub unified: bool,
    /// The bars of a combined diff.
    pub merge_markers: Option<MergeMarkers>,
    /// The name of the old file, until the name of the new file comes.
    pub filename: Option<Vec<u8>>,
    /// The side of the line that came last.
    pub side: usize,
    /// Whether any line has come.
    pub seen: bool,
    /// Whether lines go out as they come.
    pub plain: bool,
    /// Whether lines of context are shown as they come.
    pub exact: bool,
    pub style: Style,
    pub opts: StyleOpts,
}

/// The group that a match must hold; the empty string where it does not.
fn held<'t>(text: &'t [u8], groups: &Vec<Option<(usize, usize)>>, k: usize) -> (r: &'t [u8])
    ensures
        r@ == held_in(text@, groups@, k as int),
{
    match group(text, groups, k) {
        Some(s) => s,
        None => vstd::slice::slice_subrange(text, 0, 0),
    }
}

/// The line number in group `k`.
pub fn number_in(text: &[u8], groups: &Vec<Option<(usize, usize)>>, k: usize) -> (r: Result<usize, FrameError>)
    ensures
        r == match number_of(text@, groups@, k as int) {
            Some(n) => Ok::<usize, FrameError>(n),
            None => Err::<usize, FrameError>(FrameError::BadNumber),
        },
{
    match group(text, groups, k) {
        Some(s) => match parse_number(s) {
            Some(n) => Ok(n),
            None => Err(FrameError::BadNumber),
        },
        None => Err(FrameError::BadNumber),
    }
}

/// Whether `a` holds the bytes of `b`.
fn same_bytes(a: &[u8], b: &str) -> (r: bool)
    ensures
        r == (a@ == b.spec_bytes()),
{
    crate::whitespace::bytes_eq(a, b.as_bytes())
}

/// Whether `now` begins with `before`.
pub open spec fn kept(before: Seq<u8>, now: Seq<u8>) -> bool {
    before.len() <= now.len() && now.subrange(0, before.len() as int) == before
}

/// What `now` holds after `before`.
pub open spec fn added(before: Seq<u8>, now: Seq<u8>) -> Seq<u8> {
    now.subrange(before.len() as int, now.len() as int)
}

impl Framer {
    /// The side of the line that came last is one of the two.
    pub open spec fn wf(&self) -> bool {
        self.side < 2
    }

    /// What the framer holds, as plain values.
    pub open spec fn frame(&self) -> Frame {
        Frame {
            lines: match self.hunk {
                Some(h) => Some((h.lines(0), h.lines(1))),
                None => None,
            },
            numbers: (self.line_numbers.left, self.line_numbers.right),
            unified: self.unified,
            bars: match self.merge_markers {
                Some(m) => Some(bars_of(m.entries@)),
                None => None,
            },
            filename: match self.filename {
                Some(f) => Some(f@),
                None => None,
            },
            side: self.side,
        }
    }

    /// A framer before the first line.
    pub fn new(plain: bool, exact: bool, style: Style, opts: StyleOpts) -> (r: Framer)
        ensures
            r.wf(),
            r.hunk.is_none(),
            !r.seen,
            r.plain == plain,
            r.exact == exact,
            r.style == style,
            r.opts == opts,
            r.merge_markers.is_none(),
            r.filename.is_none(),
            !r.unified,
    {
        Framer {
            hunk: None,
            line_numbers: Pair { left: 0, right: 0 },
            unified: false,
            merge_markers: None,
            filename: None,
            side: 0,
            seen: false,
            plain,
            exact,
            style,
            opts,
        }
    }

    /// The setting stays: whether lines go out as they come, whether lines of
    /// context do, and the styles.
    pub open spec fn same_setting(&self, later: &Framer) -> bool {
        &&& later.plain == self.plain
        &&& later.exact == self.exact
        &&& later.style == self.style
        &&& later.opts == self.opts
    }

    /// Shows the hunk, if there is one with lines.
    fn show_hunk(&mut self, out: &mut Vec<u8>, tokeniser: &mut Tokeniser) -> (r: Result<(), FrameError>)
        requires
            old(tokeniser).wf(),
        ensures
            *final(self) == *old(self),
            final(tokeniser).wf(),
            extends(old(tokeniser)@, final(tokeniser)@),
            kept(old(out)@, final(out)@),
            r == (if overflows(old(self).frame()) {
                Err::<(), FrameError>(FrameError::TooManyLines)
            } else {
                Ok::<(), FrameError>(())
            }),
            r is Ok ==> flushed(
                &old(self).hunk,
                old(self).line_numbers,
                bars_in(&old(self).merge_markers),
                &old(self).style,
                &old(self).opts,
                old(tokeniser)@,
                final(tokeniser)@,
                added(old(out)@, final(out)@),
            ),
    {
        let numbers = [self.line_numbers.left, self.line_numbers.right];
        match &mut self.hunk {
            Some(hunk) => {
                if numbers[0] > usize::MAX - hunk.left.len() || numbers[1] > usize::MAX - hunk.right.len() {
                    assert(out@.subrange(0, old(out)@.len() as int) =~= old(out)@);
                    return Err(FrameError::TooManyLines);
                }
                let markers = match &self.merge_markers {
                    Some(m) => Some(m),
                    None => None,
                };
                hunk.print(out, tokeniser, numbers, markers, &self.style, &self.opts);
            },
            None => {
                assert(out@.subrange(0, old(out)@.len() as int) =~= old(out)@);
            },
        }
        Ok(())
    }

    /// Writes the header of a hunk.
    fn put_hunk_header(&self, out: &mut Vec<u8>, header: &[u8], context: &[u8], always: bool)
        ensures
            final(out)@ == old(out)@ + hunk_header_text(&self.opts, header@, context@, always),
    {
        self.opts.print_background(out);
        put(out, self.opts.header.as_slice());
        put(out, header);
        if always || context.len() > 0 {
            out.push(32);
            put(out, self.opts.context.as_slice());
            put(out, context);
        }
        put(out, style::RESET.as_bytes());
        out.push(10);
        assert(out@ =~= old(out)@ + hunk_header_text(&self.opts, header@, context@, always));
    }

    /// Writes the header of the diff of two files.
    fn put_diff_header(
        &self,
        out: &mut Vec<u8>,
        stripped: &[u8],
        groups: &Vec<Option<(usize, usize)>>,
        second: usize,
        trailer: usize,
    )
        ensures
            final(out)@ == old(out)@ + diff_header_text(
                &self.opts,
                stripped@,
                groups@,
                second as int,
                trailer as int,
            ),
    {
        self.opts.print_background(out);
        put(out, style::DIFF_HEADER.as_bytes());
        put(out, held(stripped, groups, 1));
        out.push(32);
        put(out, style::RESET.as_bytes());
        let ghost first = self.opts.backdrop() + style::DIFF_HEADER.spec_bytes() + held_in(stripped@, groups@, 1)
            + seq![32u8] + style::RESET.spec_bytes();
        assert(out@ =~= old(out)@ + first);
        put(out, self.opts.filename_header_left.as_slice());
        put(out, held(stripped, groups, 3));
        out.push(32);
        put(out, self.opts.filename_header_right.as_slice());
        let ghost second_part = first + self.opts.filename_header_left@ + held_in(stripped@, groups@, 3) + seq![32u8]
            + self.opts.filename_header_right@;
        assert(out@ =~= old(out)@ + second_part);
        put(out, held(stripped, groups, second));
        put(out, style::RESET.as_bytes());
        put(out, held(stripped, groups, trailer));
        out.push(10);
        let ghost whole = second_part + held_in(stripped@, groups@, second as int) + style::RESET.spec_bytes()
            + held_in(stripped@, groups@, trailer as int) + seq![10u8];
        assert(out@ =~= old(out)@ + whole);
        assert(whole =~= diff_header_text(&self.opts, stripped@, groups@, second as int, trailer as int));
    }

    /// Begins a hunk whose first lines have the numbers in the groups `minus`
    /// and `plus`.
    fn open_hunk(
        &mut self,
        stripped: &[u8],
        groups: &Vec<Option<(usize, usize)>>,
        minus: usize,
        plus: usize,
    ) -> (r: Result<(), FrameError>)
        ensures
            old(self).same_setting(final(self)),
            final(self).seen == old(self).seen,
            final(self).unified == old(self).unified,
            final(self).merge_markers == old(self).merge_markers,
            final(self).filename == old(self).filename,
            final(self).side == old(self).side,
            r is Ok <==> number_of(stripped@, groups@, minus as int).is_some() && number_of(
                stripped@,
                groups@,
                plus as int,
            ).is_some(),
            r is Err ==> r == Err::<(), FrameError>(FrameError::BadNumber),
            r is Ok ==> {
                &&& final(self).line_numbers.left == number_of(stripped@, groups@, minus as int).unwrap()
                &&& final(self).line_numbers.right == number_of(stripped@, groups@, plus as int).unwrap()
                &&& final(self).hunk matches Some(h) && h.left@.len() == 0 && h.right@.len() == 0
            },
    {
        self.hunk = Some(Hunk::new());
        let minus = number_in(stripped, groups, minus)?;
        let plus = number_in(stripped, groups, plus)?;
        self.line_numbers = Pair { left: minus, right: plus };
        Ok(())
    }

    /// Takes in the header of a hunk of a unified diff or, with `bars`, of a
    /// combined diff: what was gathered is shown with its bars, then the header,
    /// and a hunk begins.
    fn take_hunk_header(
        &mut self,
        Ghost(buf): Ghost<Seq<u8>>,
        stripped: &[u8],
        groups: &Vec<Option<(usize, usize)>>,
        bars: bool,
        out: &mut Vec<u8>,
        tokeniser: &mut Tokeniser,
    ) -> (r: Result<(), FrameError>)
        requires
            old(self).wf(),
            old(tokeniser).wf(),
            old(out)@.len() == 0,
        ensures
            final(self).wf(),
            old(self).same_setting(final(self)),
            final(self).seen == old(self).seen,
            final(tokeniser).wf(),
            extends(old(tokeniser)@, final(tokeniser)@),
            handled(
                old(self),
                final(self),
                if bars {
                    Line::CombinedHeader(groups@)
                } else {
                    Line::UnifiedHeader(groups@)
                },
                buf,
                stripped@,
                old(tokeniser)@,
                final(tokeniser)@,
                final(out)@,
                r,
            ),
    {
        let ghost line = if bars {
            Line::CombinedHeader(groups@)
        } else {
            Line::UnifiedHeader(groups@)
        };
        let flush = self.show_hunk(out, tokeniser);
        if let Err(e) = flush {
            proof {
                lemma_failed(&*old(self), &*self, line, buf, stripped@, old(tokeniser)@, tokeniser@, out@, e);
            }
            return Err(e);
        }
        let ghost shown = out@;
        self.unified = true;
        self.merge_markers = if bars {
            Some(MergeMarkers::new())
        } else {
            None
        };
        let context = held(stripped, groups, if bars {
            9
        } else {
            7
        });
        self.put_hunk_header(out, held(stripped, groups, 2), context, bars);
        let r = self.open_hunk(stripped, groups, 3, if bars {
            7
        } else {
            5
        });
        proof {
            assert(added(old(out)@, shown) =~= shown);
            lemma_hunk_header(
                &*old(self),
                &*self,
                bars,
                groups@,
                buf,
                stripped@,
                old(tokeniser)@,
                tokeniser@,
                shown,
                out@,
                r,
            );
        }
        r
    }

    /// Takes in the header of a hunk of a traditional diff.
    fn take_traditional_header(
        &mut self,
        buf: &[u8],
        stripped: &[u8],
        groups: &Vec<Option<(usize, usize)>>,
        out: &mut Vec<u8>,
        tokeniser: &mut Tokeniser,
    ) -> (r: Result<(), FrameError>)
        requires
            old(self).wf(),
            old(tokeniser).wf(),
            old(out)@.len() == 0,
        ensures
            final(self).wf(),
            old(self).same_setting(final(self)),
            final(self).seen == old(self).seen,
            final(tokeniser).wf(),
            extends(old(tokeniser)@, final(tokeniser)@),
            handled(
                old(self),
                final(self),
                Line::TraditionalHeader(groups@),
                buf@,
                stripped@,
                old(tokeniser)@,
                final(tokeniser)@,
                final(out)@,
                r,
            ),
    {
        let flush = self.show_hunk(out, tokeniser);
        if let Err(e) = flush {
            proof {
                lemma_failed(
                    &*old(self),
                    &*self,
                    Line::TraditionalHeader(groups@),
                    buf@,
                    stripped@,
                    old(tokeniser)@,
                    tokeniser@,
                    out@,
                    e,
                );
            }
            return Err(e);
        }
        let ghost shown = out@;
        self.unified = false;
        self.merge_markers = None;
        self.opts.print_background(out);
        put(out, self.opts.header.as_slice());
        put(out, buf);
        put(out, style::RESET.as_bytes());
        let r = self.open_hunk(stripped, groups, 1, 3);
        proof {
            let own = self.opts.backdrop() + self.opts.header@ + buf@ + style::RESET.spec_bytes();
            assert(out@ =~= shown + own);
            assert(added(old(out)@, shown) =~= shown);
            lemma_traditional_header(
                &*old(self),
                &*self,
                groups@,
                buf@,
                stripped@,
                old(tokeniser)@,
                tokeniser@,
                shown,
                out@,
                r,
            );
        }
        r
    }

    /// Takes in the header of the diff of two files.
    fn take_diff_header(
        &mut self,
        Ghost(buf): Ghost<Seq<u8>>,
        stripped: &[u8],
        groups: &Vec<Option<(usize, usize)>>,
        second: usize,
        trailer: usize,
        out: &mut Vec<u8>,
        tokeniser: &mut Tokeniser,
    ) -> (r: Result<(), FrameError>)
        requires
            old(self).wf(),
            old(tokeniser).wf(),
            old(out)@.len() == 0,
        ensures
            final(self).wf(),
            old(self).same_setting(final(self)),
            final(self).seen == old(self).seen,
            final(tokeniser).wf(),
            extends(old(tokeniser)@, final(tokeniser)@),
            handled(
                old(self),
                final(self),
                Line::DiffHeader(groups@, second as int, trailer as int),
                buf,
                stripped@,
                old(tokeniser)@,
                final(tokeniser)@,
                final(out)@,
                r,
            ),
    {
        let ghost line = Line::DiffHeader(groups@, second as int, trailer as int);
        let flush = self.show_hunk(out, tokeniser);
        if let Err(e) = flush {
            proof {
                lemma_failed(&*old(self), &*self, line, buf, stripped@, old(tokeniser)@, tokeniser@, out@, e);
            }
            return Err(e);
        }
        let ghost shown = out@;
        self.put_diff_header(out, stripped, groups, second, trailer);
        self.hunk = Some(Hunk::new());
        proof {
            assert(added(old(out)@, shown) =~= shown);
            lemma_ending(&*old(self), &*self, line, buf, stripped@, old(tokeniser)@, tokeniser@, shown, out@);
        }
        Ok(())
    }

    /// Takes the line in if it is the header of a hunk or of the diff of two
    /// files. Hands back whether the line was such a header.
    fn take_header(&mut self, buf: &[u8], stripped: &[u8], out: &mut Vec<u8>, tokeniser: &mut Tokeniser) -> (r:
        Option<Result<(), FrameError>>)
        requires
            old(self).wf(),
            old(tokeniser).wf(),
            old(out)@.len() == 0,
        ensures
            final(self).wf(),
            old(self).same_setting(final(self)),
            final(self).seen == old(self).seen,
            final(tokeniser).wf(),
            extends(old(tokeniser)@, final(tokeniser)@),
            match header_kind(stripped@) {
                Some(line) => r matches Some(done) && handled(
                    old(self),
                    final(self),
                    line,
                    buf@,
                    stripped@,
                    old(tokeniser)@,
                    final(tokeniser)@,
                    final(out)@,
                    done,
                ),
                None => r.is_none() && *final(self) == *old(self) && final(tokeniser)@ == old(tokeniser)@
                    && final(out)@ == old(out)@,
            },
    {
        match captures(UNIFIED_HEADER, stripped) {
            Some(groups) => {
                return Some(self.take_hunk_header(Ghost(buf@), stripped, &groups, false, out, tokeniser));
            },
            None => {},
        }
        match captures(COMBINED_HEADER, stripped) {
            Some(groups) => {
                return Some(self.take_hunk_header(Ghost(buf@), stripped, &groups, true, out, tokeniser));
            },
            None => {},
        }
        match captures(TRADITIONAL_HEADER, stripped) {
            Some(groups) => {
                return Some(self.take_traditional_header(buf, stripped, &groups, out, tokeniser));
            },
            None => {},
        }
        match captures(DIFF_HEADER, stripped) {
            Some(groups) => {
                return Some(self.take_diff_header(Ghost(buf@), stripped, &groups, 5, 7, out, tokeniser));
            },
            None => {},
        }
        match captures(GIT_HEADER, stripped) {
            Some(groups) => Some(self.take_diff_header(Ghost(buf@), stripped, &groups, 4, 5, out, tokeniser)),
            None => None,
        }
    }

    /// Keeps the name of the old file, or shows the old and the new name with
    /// the labels of a name or, with `rename`, of a file that was renamed.
    fn take_name(
        &mut self,
        name: &[u8],
        old_name: bool,
        rename: bool,
        out: &mut Vec<u8>,
        tokeniser: &mut Tokeniser,
    )
        requires
            old(self).wf(),
            old(tokeniser).wf(),
            old(out)@.len() == 0,
        ensures
            final(self).wf(),
            old(self).same_setting(final(self)),
            final(self).seen == old(self).seen,
            final(self).hunk == old(self).hunk,
            final(self).line_numbers == old(self).line_numbers,
            final(self).unified == old(self).unified,
            final(self).merge_markers == old(self).merge_markers,
            final(self).side == old(self).side,
            final(tokeniser).wf(),
            extends(old(tokeniser)@, final(tokeniser)@),
            old_name ==> {
                &&& final(self).frame().filename == Some(name@)
                &&& final(out)@.len() == 0
                &&& final(tokeniser)@ == old(tokeniser)@
            },
            !old_name ==> final(self).filename == old(self).filename && named(
                old(self).frame().filename,
                name@,
                if rename {
                    rename_labels()
                } else {
                    name_labels(&old(self).opts)
                },
                &old(self).style,
                &old(self).opts,
                old(tokeniser)@,
                final(tokeniser)@,
                final(out)@,
            ),
    {
        if old_name {
            self.filename = Some(vstd::slice::slice_to_vec(name));
        } else {
            let old_name: Option<&[u8]> = match &self.filename {
                Some(f) => Some(f.as_slice()),
                None => None,
            };
            let prefix = if rename {
                (LABEL_RENAME_FROM.as_bytes(), LABEL_RENAME_TO.as_bytes(), LABEL_RENAME_BOTH.as_bytes())
            } else {
                (
                    self.opts.filename_sign_left.as_slice(),
                    self.opts.filename_sign_right.as_slice(),
                    self.opts.filename_sign.as_slice(),
                )
            };
            Hunk::print_filename(out, tokeniser, old_name, Some(name), prefix, &self.style, &self.opts);
            assert(added(old(out)@, out@) =~= out@);
        }
    }

    /// Takes in a line that is no header and comes where no hunk has begun: the
    /// name of a file is kept or shown together with the name kept before; the
    /// line of a commit is shown in its style; any other line is shown as it is.
    fn take_outside(&mut self, buf: &[u8], stripped: &[u8], out: &mut Vec<u8>, tokeniser: &mut Tokeniser)
        requires
            old(self).wf(),
            old(tokeniser).wf(),
            old(out)@.len() == 0,
        ensures
            final(self).wf(),
            old(self).same_setting(final(self)),
            final(self).seen == old(self).seen,
            final(tokeniser).wf(),
            extends(old(tokeniser)@, final(tokeniser)@),
            handled(
                old(self),
                final(self),
                loose_kind(stripped@),
                buf@,
                stripped@,
                old(tokeniser)@,
                final(tokeniser)@,
                final(out)@,
                Ok::<(), FrameError>(()),
            ),
    {
        match captures(FILE_NAME, stripped) {
            Some(groups) => {
                let old_name = same_bytes(held(stripped, &groups, 1), OLD_FILE_SIGN);
                self.take_name(held(stripped, &groups, 3), old_name, false, out, tokeniser);
                proof {
                    lemma_name(
                        &*old(self),
                        &*self,
                        false,
                        groups@,
                        buf@,
                        stripped@,
                        old(tokeniser)@,
                        tokeniser@,
                        out@,
                    );
                }
                return ;
            },
            None => {},
        }
        self.opts.print_background(out);
        if captures(COMMIT_LINE, stripped).is_some() {
            put(out, self.opts.commit.as_slice());
            let mut replacement: Vec<u8> = Vec::new();
            put(&mut replacement, WHOLE_MATCH.as_bytes());
            put(&mut replacement, self.opts.commit.as_slice());
            let styled = strip_style(buf, replacement.as_slice());
            put(out, styled.as_slice());
            put(out, style::RESET.as_bytes());
            proof {
                assert(replacement@ =~= WHOLE_MATCH.spec_bytes() + self.opts.commit@);
                assert(out@ =~= self.opts.backdrop() + self.opts.commit@ + styled@ + style::RESET.spec_bytes());
                lemma_passed(&*old(self), &*self, Line::Commit, buf@, stripped@, tokeniser@, out@);
            }
        } else {
            put(out, buf);
            proof {
                assert(out@ =~= self.opts.backdrop() + buf@);
                lemma_passed(&*old(self), &*self, Line::Loose, buf@, stripped@, tokeniser@, out@);
            }
        }
    }

    /// Appends `line` to side `side` of the hunk.
    fn push_line(&mut self, side: usize, line: &[u8])
        requires
            old(self).wf(),
            old(self).hunk.is_some(),
            side < 2,
        ensures
            final(self).wf(),
            old(self).same_setting(final(self)),
            final(self).seen == old(self).seen,
            final(self).line_numbers == old(self).line_numbers,
            final(self).unified == old(self).unified,
            final(self).merge_markers == old(self).merge_markers,
            final(self).filename == old(self).filename,
            final(self).side == side,
            final(self).frame().lines == Some(with_line(old(self).frame().lines.unwrap(), side, line@)),
    {
        self.side = side;
        match &mut self.hunk {
            Some(hunk) => {
                if side == 0 {
                    hunk.left.push(vstd::slice::slice_to_vec(line));
                } else {
                    hunk.right.push(vstd::slice::slice_to_vec(line));
                }
            },
            None => {},
        }
        assert(self.frame().lines.unwrap() =~~= with_line(old(self).frame().lines.unwrap(), side, line@));
    }

    /// The number of lines of side `side` of the hunk.
    fn line_count(&self, side: usize) -> (r: usize)
        ensures
            r == (match self.frame().lines {
                Some((left, right)) => if side == 0 {
                    left.len()
                } else {
                    right.len()
                },
                None => 0,
            }),
    {
        match &self.hunk {
            Some(hunk) => if side == 0 {
                hunk.left.len()
            } else {
                hunk.right.len()
            },
            None => 0,
        }
    }

    /// Whether the hunk holds no line.
    fn hunk_is_empty(&self) -> (r: bool)
        ensures
            r == nothing_gathered(self.frame()),
    {
        match &self.hunk {
            Some(hunk) => hunk.is_empty(),
            None => true,
        }
    }

    /// The side of a line of a combined diff by its sign.
    fn side_of(sign: &[u8]) -> (r: usize)
        ensures
            r == combined_side(sign@),
    {
        let mut side: usize = 0;
        let mut k: usize = 0;
        while k < sign.len()
            invariant
                k <= sign@.len(),
                side == combined_side(sign@.take(k as int)),
            decreases sign@.len() - k,
        {
            proof {
                let before = sign@.take(k as int);
                let now = sign@.take(k + 1);
                assert(now =~= before.push(sign@[k as int]));
                if before.contains(43u8) {
                    let at = choose|at: int| 0 <= at < before.len() && before[at] == 43u8;
                    assert(now[at] == 43u8);
                }
                if sign@[k as int] == 43u8 {
                    assert(now[k as int] == 43u8);
                }
            }
            if sign[k] == 43 {
                side = 1;
            }
            k += 1;
        }
        assert(sign@.take(k as int) =~= sign@);
        side
    }

    /// The bar of a line of a combined diff by its sign.
    fn bar_for(&self, sign: &[u8]) -> (r: Vec<u8>)
        ensures
            r@ == bar_of(sign@, &self.opts),
    {
        if sign.len() > 1 && sign[1] == 32 {
            self.opts.lineno_our_bar.clone()
        } else if sign.len() > 0 && sign[0] == 32 {
            self.opts.lineno_their_bar.clone()
        } else {
            self.opts.lineno_merge_bar.clone()
        }
    }

    /// Takes in a line of a hunk of a combined diff: the line goes to the side of
    /// its sign, and the bar of its line number is set by its sign.
    fn take_combined(
        &mut self,
        Ghost(buf): Ghost<Seq<u8>>,
        stripped: &[u8],
        groups: &Vec<Option<(usize, usize)>>,
        Ghost(table): Ghost<Seq<Seq<u8>>>,
    ) -> (r: Result<(), FrameError>)
        requires
            old(self).wf(),
            old(self).hunk.is_some(),
            old(self).merge_markers.is_some(),
        ensures
            final(self).wf(),
            old(self).same_setting(final(self)),
            final(self).seen == old(self).seen,
            handled(
                old(self),
                final(self),
                Line::CombinedLine(groups@),
                buf,
                stripped@,
                table,
                table,
                Seq::empty(),
                r,
            ),
    {
        let sign = held(stripped, groups, 1);
        let side = Self::side_of(sign);
        let base = if side == 0 {
            self.line_numbers.left
        } else {
            self.line_numbers.right
        };
        let count = self.line_count(side);
        if base > usize::MAX - count {
            proof {
                lemma_failed(
                    &*old(self),
                    &*self,
                    Line::CombinedLine(groups@),
                    buf,
                    stripped@,
                    table,
                    table,
                    Seq::empty(),
                    FrameError::TooManyLines,
                );
            }
            return Err(FrameError::TooManyLines);
        }
        let lineno = base + count;
        self.push_line(side, held(stripped, groups, 2));
        let bar = self.bar_for(sign);
        match &mut self.merge_markers {
            Some(markers) => {
                markers.insert(side, lineno, bar);
            },
            None => {},
        }
        proof {
            assert(self.frame().bars.unwrap() =~~= old(self).frame().bars.unwrap().push(
                (side, lineno, bar@),
            ));
            assert(self.frame() =~~= next(
                old(self).frame(),
                Line::CombinedLine(groups@),
                stripped@,
                &old(self).opts,
            ));
            lemma_gathered(&*old(self), &*self, Line::CombinedLine(groups@), buf, stripped@, table);
        }
        Ok(())
    }

    /// Writes a line of context as it comes.
    fn put_context(&self, out: &mut Vec<u8>, stripped: &[u8])
        requires
            stripped@.len() > 0,
        ensures
            final(out)@ == old(out)@ + context_text(self.frame(), stripped@, &self.style, &self.opts),
    {
        self.opts.print_background(out);
        if self.style.line_numbers {
            let numbers = format_lineno(
                [self.line_numbers.left, self.line_numbers.right],
                Some(self.opts.lineno.as_slice()),
                Some(self.opts.lineno.as_slice()),
                None,
            );
            put(out, numbers.as_slice());
        }
        if self.style.signs {
            put(out, style::SIGN_BOTH.as_bytes());
        }
        put(out, self.opts.diff_context.as_slice());
        let mut replacement = escape(self.opts.diff_trailing_ws.as_slice());
        put(&mut replacement, WHOLE_MATCH.as_bytes());
        let rest = vstd::slice::slice_subrange(stripped, 1, stripped.len());
        let marked = replace_matches(TRAILING_SPACE, rest, replacement.as_slice());
        put(out, marked.as_slice());
        assert(out@ =~= old(out)@ + context_text(self.frame(), stripped@, &self.style, &self.opts));
    }

    /// Shows a line of context as it comes: what was gathered is shown, then the
    /// line with its line numbers, and a new hunk begins after it.
    fn take_exact(
        &mut self,
        Ghost(buf): Ghost<Seq<u8>>,
        stripped: &[u8],
        out: &mut Vec<u8>,
        tokeniser: &mut Tokeniser,
    ) -> (r: Result<(), FrameError>)
        requires
            old(self).wf(),
            old(self).hunk.is_some(),
            old(tokeniser).wf(),
            old(out)@.len() == 0,
            stripped@.len() > 0,
        ensures
            final(self).wf(),
            old(self).same_setting(final(self)),
            final(self).seen == old(self).seen,
            final(tokeniser).wf(),
            extends(old(tokeniser)@, final(tokeniser)@),
            handled(
                old(self),
                final(self),
                Line::Context,
                buf,
                stripped@,
                old(tokeniser)@,
                final(tokeniser)@,
                final(out)@,
                r,
            ),
    {
        let flush = self.show_hunk(out, tokeniser);
        if let Err(e) = flush {
            proof {
                lemma_failed(
                    &*old(self),
                    &*self,
                    Line::Context,
                    buf,
                    stripped@,
                    old(tokeniser)@,
                    tokeniser@,
                    out@,
                    e,
                );
            }
            return Err(e);
        }
        let ghost shown = out@;
        self.put_context(out, stripped);
        self.hunk = Some(Hunk::new());
        if self.line_numbers.left == usize::MAX || self.line_numbers.right == usize::MAX {
            proof {
                lemma_failed(
                    &*old(self),
                    &*self,
                    Line::Context,
                    buf,
                    stripped@,
                    old(tokeniser)@,
                    tokeniser@,
                    out@,
                    FrameError::TooManyLines,
                );
            }
            return Err(FrameError::TooManyLines);
        }
        self.line_numbers = Pair { left: self.line_numbers.left + 1, right: self.line_numbers.right + 1 };
        proof {
            assert(added(old(out)@, shown) =~= shown);
            lemma_context(&*old(self), &*self, buf, stripped@, old(tokeniser)@, tokeniser@, shown, out@);
        }
        Ok(())
    }

    /// The line without the newline at its end, if it ends in one.
    fn without_newline(line: &Vec<u8>) -> (r: Vec<u8>)
        requires
            line@.len() > 0,
            line@.last() == 10u8,
        ensures
            r@ == line@.drop_last(),
    {
        let mut r: Vec<u8> = Vec::new();
        let mut k: usize = 0;
        while k < line.len() - 1
            invariant
                line@.len() > 0,
                k <= line@.len() - 1,
                r@ == line@.take(k as int),
            decreases line@.len() - 1 - k,
        {
            r.push(line[k]);
            assert(line@.take(k + 1) =~= line@.take(k as int).push(line@[k as int]));
            k += 1;
        }
        assert(line@.take(k as int) =~= line@.drop_last());
        r
    }

    /// Takes the newline from the end of the last of `lines`.
    fn cut_newline(lines: &mut Vec<Vec<u8>>)
        ensures
            views(final(lines)@) == unterminated(views(old(lines)@)),
    {
        let count = lines.len();
        if count > 0 {
            let last = count - 1;
            let len = lines[last].len();
            if len > 0 && lines[last][len - 1] == 10 {
                let line = Self::without_newline(&lines[last]);
                lines[last] = line;
            }
        }
        assert(views(lines@) =~~= unterminated(views(old(lines)@)));
    }

    /// Takes the newline from the end of the last line of the side that the last
    /// line went to.
    fn drop_newline(
        &mut self,
        Ghost(buf): Ghost<Seq<u8>>,
        Ghost(stripped): Ghost<Seq<u8>>,
        Ghost(table): Ghost<Seq<Seq<u8>>>,
    )
        requires
            old(self).wf(),
            old(self).hunk.is_some(),
        ensures
            final(self).wf(),
            old(self).same_setting(final(self)),
            final(self).seen == old(self).seen,
            handled(
                old(self),
                final(self),
                Line::NoNewline,
                buf,
                stripped,
                table,
                table,
                Seq::empty(),
                Ok::<(), FrameError>(()),
            ),
    {
        let side = self.side;
        match &mut self.hunk {
            Some(hunk) => {
                if side == 0 {
                    Self::cut_newline(&mut hunk.left);
                } else {
                    Self::cut_newline(&mut hunk.right);
                }
            },
            None => {},
        }
        proof {
            assert(self.frame() =~~= next(old(self).frame(), Line::NoNewline, stripped, &old(self).opts));
            lemma_gathered(&*old(self), &*self, Line::NoNewline, buf, stripped, table);
        }
    }

    /// Takes in a line of one side of a hunk.
    fn take_sided(
        &mut self,
        Ghost(buf): Ghost<Seq<u8>>,
        stripped: &[u8],
        groups: &Vec<Option<(usize, usize)>>,
        right: &str,
        Ghost(table): Ghost<Seq<Seq<u8>>>,
    )
        requires
            old(self).wf(),
            old(self).hunk.is_some(),
        ensures
            final(self).wf(),
            old(self).same_setting(final(self)),
            final(self).seen == old(self).seen,
            handled(
                old(self),
                final(self),
                sided(stripped@, groups@, right.spec_bytes()),
                buf,
                stripped@,
                table,
                table,
                Seq::empty(),
                Ok::<(), FrameError>(()),
            ),
    {
        let side: usize = if same_bytes(held(stripped, groups, 1), right) {
            1
        } else {
            0
        };
        self.push_line(side, held(stripped, groups, 2));
        proof {
            let line = sided(stripped@, groups@, right.spec_bytes());
            assert(self.frame() =~~= next(old(self).frame(), line, stripped@, &old(self).opts));
            lemma_gathered(&*old(self), &*self, line, buf, stripped@, table);
        }
    }

    /// Takes in a line of context on both sides.
    fn take_shared(&mut self, Ghost(buf): Ghost<Seq<u8>>, stripped: &[u8], Ghost(table): Ghost<Seq<Seq<u8>>>)
        requires
            old(self).wf(),
            old(self).hunk.is_some(),
            stripped@.len() > 0,
        ensures
            final(self).wf(),
            old(self).same_setting(final(self)),
            final(self).seen == old(self).seen,
            handled(
                old(self),
                final(self),
                Line::Shared,
                buf,
                stripped@,
                table,
                table,
                Seq::empty(),
                Ok::<(), FrameError>(()),
            ),
    {
        let rest = vstd::slice::slice_subrange(stripped, 1, stripped.len());
        let side = self.side;
        self.push_line(0, rest);
        self.push_line(1, rest);
        self.side = side;
        proof {
            assert(self.frame() =~~= next(old(self).frame(), Line::Shared, stripped@, &old(self).opts));
            lemma_gathered(&*old(self), &*self, Line::Shared, buf, stripped@, table);
        }
    }

    /// Takes in a line that ends the hunk: the hunk is shown; after an empty
    /// line and after the line of the blobs no hunk is gathered, after any other
    /// line a new one.
    fn take_ending(&mut self, buf: &[u8], stripped: &[u8], out: &mut Vec<u8>, tokeniser: &mut Tokeniser) -> (r:
        Result<(), FrameError>)
        requires
            old(self).wf(),
            old(self).hunk.is_some(),
            old(tokeniser).wf(),
            old(out)@.len() == 0,
        ensures
            final(self).wf(),
            old(self).same_setting(final(self)),
            final(self).seen == old(self).seen,
            final(tokeniser).wf(),
            extends(old(tokeniser)@, final(tokeniser)@),
            handled(
                old(self),
                final(self),
                ending_kind(buf@, stripped@),
                buf@,
                stripped@,
                old(tokeniser)@,
                final(tokeniser)@,
                final(out)@,
                r,
            ),
    {
        let ghost line = ending_kind(buf@, stripped@);
        let flush = self.show_hunk(out, tokeniser);
        if let Err(e) = flush {
            proof {
                lemma_failed(&*old(self), &*self, line, buf@, stripped@, old(tokeniser)@, tokeniser@, out@, e);
            }
            return Err(e);
        }
        let ghost shown = out@;
        assert(added(old(out)@, shown) =~= shown);
        if same_bytes(buf, EMPTY_LINE) {
            self.hunk = None;
            proof {
                assert(out@ =~= shown + Seq::<u8>::empty());
                lemma_ending(&*old(self), &*self, line, buf@, stripped@, old(tokeniser)@, tokeniser@, shown, out@);
            }
            return Ok(());
        }
        if captures(INDEX_LINE, stripped).is_some() {
            self.opts.print_background(out);
            let mut replacement: Vec<u8> = Vec::new();
            put(&mut replacement, WHOLE_MATCH.as_bytes());
            put(&mut replacement, style::DIFF_HEADER.as_bytes());
            let styled = strip_style(buf, replacement.as_slice());
            put(out, styled.as_slice());
            self.hunk = None;
            proof {
                assert(replacement@ =~= WHOLE_MATCH.spec_bytes() + style::DIFF_HEADER.spec_bytes());
                assert(out@ =~= shown + (self.opts.backdrop() + styled@));
                lemma_ending(&*old(self), &*self, line, buf@, stripped@, old(tokeniser)@, tokeniser@, shown, out@);
            }
            return Ok(());
        }
        self.hunk = Some(Hunk::new());
        put(out, stripped);
        proof {
            lemma_ending(&*old(self), &*self, line, buf@, stripped@, old(tokeniser)@, tokeniser@, shown, out@);
        }
        Ok(())
    }

    /// Takes in a line of a hunk by its sign, or a line that ends the hunk.
    fn take_signed(&mut self, buf: &[u8], stripped: &[u8], out: &mut Vec<u8>, tokeniser: &mut Tokeniser) -> (r:
        Result<(), FrameError>)
        requires
            old(self).wf(),
            old(self).hunk.is_some(),
            old(tokeniser).wf(),
            old(out)@.len() == 0,
        ensures
            final(self).wf(),
            old(self).same_setting(final(self)),
            final(self).seen == old(self).seen,
            final(tokeniser).wf(),
            extends(old(tokeniser)@, final(tokeniser)@),
            handled(
                old(self),
                final(self),
                signed_kind(old(self).unified, old(self).exact, buf@, stripped@),
                buf@,
                stripped@,
                old(tokeniser)@,
                final(tokeniser)@,
                final(out)@,
                r,
            ),
    {
        if self.unified {
            match captures(UNIFIED_LINE, stripped) {
                Some(groups) => {
                    self.take_sided(Ghost(buf@), stripped, &groups, PLUS_SIGN, Ghost(tokeniser@));
                    assert(out@ =~= Seq::<u8>::empty());
                    return Ok(());
                },
                None => {},
            }
            if !self.exact && stripped.len() > 0 && stripped[0] == 32 {
                self.take_shared(Ghost(buf@), stripped, Ghost(tokeniser@));
                assert(out@ =~= Seq::<u8>::empty());
                return Ok(());
            }
        } else {
            if same_bytes(stripped, SEPARATOR) {
                proof {
                    assert(out@ =~= Seq::<u8>::empty());
                    lemma_passed(&*old(self), &*self, Line::Separator, buf@, stripped@, tokeniser@, out@);
                }
                return Ok(());
            }
            match captures(TRADITIONAL_LINE, stripped) {
                Some(groups) => {
                    self.take_sided(Ghost(buf@), stripped, &groups, RIGHT_SIGN, Ghost(tokeniser@));
                    assert(out@ =~= Seq::<u8>::empty());
                    return Ok(());
                },
                None => {},
            }
        }
        self.take_ending(buf, stripped, out, tokeniser)
    }

    /// Takes in a line that is no header and comes within a hunk.
    fn take_inside(&mut self, buf: &[u8], stripped: &[u8], out: &mut Vec<u8>, tokeniser: &mut Tokeniser) -> (r:
        Result<(), FrameError>)
        requires
            old(self).wf(),
            old(self).hunk.is_some(),
            old(tokeniser).wf(),
            old(out)@.len() == 0,
        ensures
            final(self).wf(),
            old(self).same_setting(final(self)),
            final(self).seen == old(self).seen,
            final(tokeniser).wf(),
            extends(old(tokeniser)@, final(tokeniser)@),
            handled(
                old(self),
                final(self),
                inner_kind(old(self).frame(), old(self).exact, buf@, stripped@),
                buf@,
                stripped@,
                old(tokeniser)@,
                final(tokeniser)@,
                final(out)@,
                r,
            ),
    {
        if self.unified && self.merge_markers.is_some() {
            match captures(COMBINED_LINE, stripped) {
                Some(groups) => {
                    assert(out@ =~= Seq::<u8>::empty());
                    return self.take_combined(Ghost(buf@), stripped, &groups, Ghost(tokeniser@));
                },
                None => {},
            }
        }
        if self.exact && stripped.len() > 0 && stripped[0] == 32 {
            return self.take_exact(Ghost(buf@), stripped, out, tokeniser);
        }
        if self.hunk_is_empty() {
            match captures(RENAME_LINE, stripped) {
                Some(groups) => {
                    let old_name = same_bytes(held(stripped, &groups, 1), RENAME_FROM);
                    self.take_name(held(stripped, &groups, 2), old_name, true, out, tokeniser);
                    proof {
                        lemma_name(
                            &*old(self),
                            &*self,
                            true,
                            groups@,
                            buf@,
                            stripped@,
                            old(tokeniser)@,
                            tokeniser@,
                            out@,
                        );
                    }
                    return Ok(());
                },
                None => {},
            }
        }
        if same_bytes(stripped, NO_NEWLINE) || same_bytes(stripped, NO_NEWLINE_BARE) {
            self.drop_newline(Ghost(buf@), Ghost(stripped@), Ghost(tokeniser@));
            assert(out@ =~= Seq::<u8>::empty());
            return Ok(());
        }
        self.take_signed(buf, stripped, out, tokeniser)
    }

    /// Takes in a line whose styles are to be read.
    fn take(&mut self, buf: &[u8], out: &mut Vec<u8>, tokeniser: &mut Tokeniser) -> (r: Result<(), FrameError>)
        requires
            old(self).wf(),
            old(tokeniser).wf(),
            old(out)@.len() == 0,
        ensures
            final(self).wf(),
            old(self).same_setting(final(self)),
            final(self).seen == old(self).seen,
            final(tokeniser).wf(),
            extends(old(tokeniser)@, final(tokeniser)@),
            took(old(self), final(self), buf@, old(tokeniser)@, final(tokeniser)@, final(out)@, r),
    {
        let empty: Vec<u8> = Vec::new();
        let stripped = strip_style(buf, empty.as_slice());
        assert(empty@ =~= Seq::<u8>::empty());
        match self.take_header(buf, stripped.as_slice(), out, tokeniser) {
            Some(done) => {
                return done;
            },
            None => {},
        }
        if self.hunk.is_none() {
            self.take_outside(buf, stripped.as_slice(), out, tokeniser);
            return Ok(());
        }
        self.take_inside(buf, stripped.as_slice(), out, tokeniser)
    }

    /// Takes in the line `buf` and appends to `out` what is to be shown for it.
    /// Where lines go out as they come, the line is appended as it is. Else the
    /// styles are taken from the line; a header is shown and begins a new hunk;
    /// a line of a hunk is gathered; and any other line ends the hunk, which is
    /// then shown. What was appended before an error stays.
    pub fn feed(&mut self, buf: &[u8], tokeniser: &mut Tokeniser, out: &mut Vec<u8>) -> (r: Result<
        (),
        FrameError,
    >)
        requires
            old(self).wf(),
            old(tokeniser).wf(),
        ensures
            final(self).wf(),
            old(self).same_setting(final(self)),
            final(self).seen,
            final(tokeniser).wf(),
            extends(old(tokeniser)@, final(tokeniser)@),
            kept(old(out)@, final(out)@),
            old(self).plain ==> {
                &&& r is Ok
                &&& added(old(out)@, final(out)@) == buf@
                &&& final(tokeniser)@ == old(tokeniser)@
                &&& final(self).frame() == old(self).frame()
            },
            !old(self).plain ==> took(
                old(self),
                final(self),
                buf@,
                old(tokeniser)@,
                final(tokeniser)@,
                added(old(out)@, final(out)@),
                r,
            ),
    {
        self.seen = true;
        if self.plain {
            put(out, buf);
            assert(out@.subrange(0, old(out)@.len() as int) =~= old(out)@);
            assert(added(old(out)@, out@) =~= buf@);
            return Ok(());
        }
        let mut local: Vec<u8> = Vec::new();
        let ghost begun = *self;
        let r = self.take(buf, &mut local, tokeniser);
        put(out, local.as_slice());
        proof {
            assert(out@.subrange(0, old(out)@.len() as int) =~= old(out)@);
            assert(added(old(out)@, out@) =~= local@);
            let s = pattern_replaced(STYLE_PATTERN@, buf@, Seq::empty());
            lemma_seen(
                &begun,
                &*old(self),
                &*self,
                kind(begun.frame(), begun.exact, buf@, s),
                buf@,
                s,
                old(tokeniser)@,
                tokeniser@,
                local@,
                r,
            );
        }
        r
    }

    /// Shows what was gathered once the last line has come.
    pub fn finish(&mut self, tokeniser: &mut Tokeniser, out: &mut Vec<u8>) -> (r: Result<(), FrameError>)
        requires
            old(self).wf(),
            old(tokeniser).wf(),
        ensures
            *final(self) == *old(self),
            final(tokeniser).wf(),
            extends(old(tokeniser)@, final(tokeniser)@),
            kept(old(out)@, final(out)@),
            r == (if overflows(old(self).frame()) {
                Err::<(), FrameError>(FrameError::TooManyLines)
            } else {
                Ok::<(), FrameError>(())
            }),
            r is Ok ==> flushed(
                &old(self).hunk,
                old(self).line_numbers,
                bars_in(&old(self).merge_markers),
                &old(self).style,
                &old(self).opts,
                old(tokeniser)@,
                final(tokeniser)@,
                added(old(out)@, final(out)@),
            ),
    {
        self.show_hunk(out, tokeniser)
    }
}

} // verus!
