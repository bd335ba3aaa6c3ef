//! What comes of a line by its kind, and why.

use crate::frame::{
    bars_in, bars_of, context_text, ends_hunk, failure, flushed, held_in, hunk_header_text, kind, name_labels,
    named, next, no_lines, number_of, overflows, rename_labels, text, Line,
};
use crate::framer::{FrameError, Framer, OLD_FILE_SIGN, RENAME_FROM};
use crate::style;
use crate::text::{pattern_replaced, STYLE_PATTERN};
use vstd::prelude::*;
use vstd::string::StringSliceAdditionalSpecFns;

verus! {

/// Whether `bytes` is what is shown for `line`, and `after` the table after it.
/// For a line that ends the hunk: what is shown of the hunk with the bars that
/// it was gathered with, then the text of the line. For the new name of a file: the old and the new name as a hunk of
/// their own. For the old name: nothing. Else the text of the line.
pub open spec fn written(
    pre: &Framer,
    post: &Framer,
    line: Line,
    buf: Seq<u8>,
    s: Seq<u8>,
    table: Seq<Seq<u8>>,
    after: Seq<Seq<u8>>,
    bytes: Seq<u8>,
) -> bool {
    let frame = pre.frame();
    let own = text(frame, line, buf, s, &pre.style, &pre.opts);
    match line {
        Line::FileName(g) => if held_in(s, g, 1) == OLD_FILE_SIGN.spec_bytes() {
            bytes.len() == 0 && after == table
        } else {
            named(
                frame.filename,
                held_in(s, g, 3),
                name_labels(&pre.opts),
                &pre.style,
                &pre.opts,
                table,
                after,
                bytes,
            )
        },
        Line::Rename(g) => if held_in(s, g, 1) == RENAME_FROM.spec_bytes() {
            bytes.len() == 0 && after == table
        } else {
            named(frame.filename, held_in(s, g, 2), rename_labels(), &pre.style, &pre.opts, table, after, bytes)
        },
        _ => if ends_hunk(line) {
            &&& own.len() <= bytes.len()
            &&& bytes.subrange(bytes.len() - own.len(), bytes.len() as int) == own
            &&& flushed(
                &pre.hunk,
                pre.line_numbers,
                bars_in(&pre.merge_markers),
                &pre.style,
                &pre.opts,
                table,
                after,
                bytes.subrange(0, bytes.len() - own.len()),
            )
        } else {
            bytes == own && after == table
        },
    }
}

/// Whether `post`, `after`, `bytes` and `r` are what comes of the line `line`:
/// the error where the line cannot be taken in, else what the framer holds
/// after it and what is shown for it.
#[verifier::opaque]
pub open spec fn handled(
    pre: &Framer,
    post: &Framer,
    line: Line,
    buf: Seq<u8>,
    s: Seq<u8>,
    table: Seq<Seq<u8>>,
    after: Seq<Seq<u8>>,
    bytes: Seq<u8>,
    r: Result<(), FrameError>,
) -> bool {
    match failure(pre.frame(), line, s) {
        Some(e) => r == Err::<(), FrameError>(e),
        None => {
            &&& r is Ok
            &&& post.frame() == next(pre.frame(), line, s, &pre.opts)
            &&& written(pre, post, line, buf, s, table, after, bytes)
        },
    }
}

/// Whether `post`, `after`, `bytes` and `r` are what comes of the line `buf`:
/// the styles are taken from the line, its kind is told, and the line is
/// handled by its kind.
pub open spec fn took(
    pre: &Framer,
    post: &Framer,
    buf: Seq<u8>,
    table: Seq<Seq<u8>>,
    after: Seq<Seq<u8>>,
    bytes: Seq<u8>,
    r: Result<(), FrameError>,
) -> bool {
    let s = pattern_replaced(STYLE_PATTERN@, buf, Seq::empty());
    handled(pre, post, kind(pre.frame(), pre.exact, buf, s), buf, s, table, after, bytes, r)
}

/// Whether all that the framer holds but the hunk is the same.
pub open spec fn rest_stays(pre: &Framer, post: &Framer) -> bool {
    &&& post.line_numbers == pre.line_numbers
    &&& post.unified == pre.unified
    &&& post.merge_markers == pre.merge_markers
    &&& post.filename == pre.filename
    &&& post.side == pre.side
}

/// Whether a hunk without lines is gathered.
pub open spec fn begins_hunk(f: &Framer) -> bool {
    f.hunk matches Some(h) && h.left@.len() == 0 && h.right@.len() == 0
}

/// Whether the two framers hold the same, whether or not a line has come.
pub open spec fn same_but_seen(a: &Framer, b: &Framer) -> bool {
    &&& a.hunk == b.hunk
    &&& rest_stays(a, b)
    &&& a.plain == b.plain
    &&& a.exact == b.exact
    &&& a.style == b.style
    &&& a.opts == b.opts
}

/// What comes of a line does not depend on whether a line has come before.
pub proof fn lemma_seen(
    pre: &Framer,
    before: &Framer,
    post: &Framer,
    line: Line,
    buf: Seq<u8>,
    s: Seq<u8>,
    table: Seq<Seq<u8>>,
    after: Seq<Seq<u8>>,
    bytes: Seq<u8>,
    r: Result<(), FrameError>,
)
    requires
        handled(pre, post, line, buf, s, table, after, bytes, r),
        same_but_seen(pre, before),
    ensures
        handled(before, post, line, buf, s, table, after, bytes, r),
{
    reveal(handled);
}

/// A framer that begins a hunk holds no lines.
pub proof fn lemma_begins(f: &Framer)
    requires
        begins_hunk(f),
    ensures
        f.frame().lines == no_lines(),
{
    let h = f.hunk.unwrap();
    assert(h.lines(0) =~= Seq::<Seq<u8>>::empty());
    assert(h.lines(1) =~= Seq::<Seq<u8>>::empty());
}

/// A line that cannot be taken in gives its error.
pub proof fn lemma_failed(
    pre: &Framer,
    post: &Framer,
    line: Line,
    buf: Seq<u8>,
    s: Seq<u8>,
    table: Seq<Seq<u8>>,
    after: Seq<Seq<u8>>,
    bytes: Seq<u8>,
    e: FrameError,
)
    requires
        failure(pre.frame(), line, s) == Some(e),
    ensures
        handled(pre, post, line, buf, s, table, after, bytes, Err::<(), FrameError>(e)),
{
    reveal(handled);
}

/// What comes of the header of a hunk of a unified diff or, with `bars`, of a
/// combined diff.
pub proof fn lemma_hunk_header(
    pre: &Framer,
    post: &Framer,
    bars: bool,
    g: Seq<Option<(usize, usize)>>,
    buf: Seq<u8>,
    s: Seq<u8>,
    table: Seq<Seq<u8>>,
    after: Seq<Seq<u8>>,
    shown: Seq<u8>,
    bytes: Seq<u8>,
    r: Result<(), FrameError>,
)
    requires
        !overflows(pre.frame()),
        post.unified,
        bars ==> (post.merge_markers matches Some(m) && m.entries@.len() == 0),
        !bars ==> post.merge_markers is None,
        post.filename == pre.filename,
        post.side == pre.side,
        r is Ok <==> number_of(s, g, 3).is_some() && number_of(
            s,
            g,
            if bars {
                7
            } else {
                5
            },
        ).is_some(),
        r is Err ==> r == Err::<(), FrameError>(FrameError::BadNumber),
        r is Ok ==> {
            &&& begins_hunk(post)
            &&& post.line_numbers.left == number_of(s, g, 3).unwrap()
            &&& post.line_numbers.right == number_of(
                s,
                g,
                if bars {
                    7
                } else {
                    5
                },
            ).unwrap()
            &&& flushed(
                &pre.hunk,
                pre.line_numbers,
                bars_in(&pre.merge_markers),
                &pre.style,
                &pre.opts,
                table,
                after,
                shown,
            )
            &&& bytes == shown + hunk_header_text(
                &pre.opts,
                held_in(s, g, 2),
                held_in(
                    s,
                    g,
                    if bars {
                        9
                    } else {
                        7
                    },
                ),
                bars,
            )
        },
    ensures
        handled(
            pre,
            post,
            if bars {
                Line::CombinedHeader(g)
            } else {
                Line::UnifiedHeader(g)
            },
            buf,
            s,
            table,
            after,
            bytes,
            r,
        ),
{
    reveal(handled);
    let line = if bars {
        Line::CombinedHeader(g)
    } else {
        Line::UnifiedHeader(g)
    };
    if r is Ok {
        lemma_begins(post);
        let own = text(pre.frame(), line, buf, s, &pre.style, &pre.opts);
        assert(bytes.subrange(bytes.len() - own.len(), bytes.len() as int) =~= own);
        assert(bytes.subrange(0, bytes.len() - own.len()) =~= shown);
        if bars {
            assert(bars_of(post.merge_markers.unwrap().entries@) =~= Seq::<(usize, usize, Seq<u8>)>::empty());
        }
        assert(post.frame() == next(pre.frame(), line, s, &pre.opts));
    }
}

/// What comes of the header of a hunk of a traditional diff.
pub proof fn lemma_traditional_header(
    pre: &Framer,
    post: &Framer,
    g: Seq<Option<(usize, usize)>>,
    buf: Seq<u8>,
    s: Seq<u8>,
    table: Seq<Seq<u8>>,
    after: Seq<Seq<u8>>,
    shown: Seq<u8>,
    bytes: Seq<u8>,
    r: Result<(), FrameError>,
)
    requires
        !overflows(pre.frame()),
        !post.unified,
        post.merge_markers is None,
        post.filename == pre.filename,
        post.side == pre.side,
        r is Ok <==> number_of(s, g, 1).is_some() && number_of(s, g, 3).is_some(),
        r is Err ==> r == Err::<(), FrameError>(FrameError::BadNumber),
        r is Ok ==> {
            &&& begins_hunk(post)
            &&& post.line_numbers.left == number_of(s, g, 1).unwrap()
            &&& post.line_numbers.right == number_of(s, g, 3).unwrap()
            &&& flushed(
                &pre.hunk,
                pre.line_numbers,
                bars_in(&pre.merge_markers),
                &pre.style,
                &pre.opts,
                table,
                after,
                shown,
            )
            &&& bytes == shown + (pre.opts.backdrop() + pre.opts.header@ + buf + style::RESET.spec_bytes())
        },
    ensures
        handled(pre, post, Line::TraditionalHeader(g), buf, s, table, after, bytes, r),
{
    reveal(handled);
    let line = Line::TraditionalHeader(g);
    if r is Ok {
        lemma_begins(post);
        let own = text(pre.frame(), line, buf, s, &pre.style, &pre.opts);
        assert(bytes.subrange(bytes.len() - own.len(), bytes.len() as int) =~= own);
        assert(bytes.subrange(0, bytes.len() - own.len()) =~= shown);
        assert(post.frame() == next(pre.frame(), line, s, &pre.opts));
    }
}

/// What comes of a line that ends the hunk and is no header of a hunk: the
/// hunk is shown, then the text of the line; `gathers` says whether a hunk is
/// gathered after it.
pub proof fn lemma_ending(
    pre: &Framer,
    post: &Framer,
    line: Line,
    buf: Seq<u8>,
    s: Seq<u8>,
    table: Seq<Seq<u8>>,
    after: Seq<Seq<u8>>,
    shown: Seq<u8>,
    bytes: Seq<u8>,
)
    requires
        line is DiffHeader || line is Blank || line is Index || line is Stray,
        !overflows(pre.frame()),
        rest_stays(pre, post),
        line is Blank || line is Index ==> post.hunk is None,
        line is DiffHeader || line is Stray ==> begins_hunk(post),
        flushed(
            &pre.hunk,
            pre.line_numbers,
            bars_in(&pre.merge_markers),
            &pre.style,
            &pre.opts,
            table,
            after,
            shown,
        ),
        bytes == shown + text(pre.frame(), line, buf, s, &pre.style, &pre.opts),
    ensures
        handled(pre, post, line, buf, s, table, after, bytes, Ok::<(), FrameError>(())),
{
    reveal(handled);
    if begins_hunk(post) {
        lemma_begins(post);
    }
    let own = text(pre.frame(), line, buf, s, &pre.style, &pre.opts);
    assert(bytes.subrange(bytes.len() - own.len(), bytes.len() as int) =~= own);
    assert(bytes.subrange(0, bytes.len() - own.len()) =~= shown);
    assert(post.frame() == next(pre.frame(), line, s, &pre.opts));
}

/// What comes of a line of context that is shown as it comes.
pub proof fn lemma_context(
    pre: &Framer,
    post: &Framer,
    buf: Seq<u8>,
    s: Seq<u8>,
    table: Seq<Seq<u8>>,
    after: Seq<Seq<u8>>,
    shown: Seq<u8>,
    bytes: Seq<u8>,
)
    requires
        !overflows(pre.frame()),
        pre.line_numbers.left < usize::MAX,
        pre.line_numbers.right < usize::MAX,
        post.line_numbers.left == pre.line_numbers.left + 1,
        post.line_numbers.right == pre.line_numbers.right + 1,
        post.unified == pre.unified,
        post.merge_markers == pre.merge_markers,
        post.filename == pre.filename,
        post.side == pre.side,
        begins_hunk(post),
        flushed(
            &pre.hunk,
            pre.line_numbers,
            bars_in(&pre.merge_markers),
            &pre.style,
            &pre.opts,
            table,
            after,
            shown,
        ),
        bytes == shown + context_text(pre.frame(), s, &pre.style, &pre.opts),
    ensures
        handled(pre, post, Line::Context, buf, s, table, after, bytes, Ok::<(), FrameError>(())),
{
    reveal(handled);
    lemma_begins(post);
    let own = context_text(pre.frame(), s, &pre.style, &pre.opts);
    assert(bytes.subrange(bytes.len() - own.len(), bytes.len() as int) =~= own);
    assert(bytes.subrange(0, bytes.len() - own.len()) =~= shown);
    assert(post.frame() == next(pre.frame(), Line::Context, s, &pre.opts));
}

/// What comes of the name of a file, or with `rename` of the name of a file
/// that was renamed: the old name is kept; the new name is shown together with
/// the old one.
pub proof fn lemma_name(
    pre: &Framer,
    post: &Framer,
    rename: bool,
    g: Seq<Option<(usize, usize)>>,
    buf: Seq<u8>,
    s: Seq<u8>,
    table: Seq<Seq<u8>>,
    after: Seq<Seq<u8>>,
    bytes: Seq<u8>,
)
    requires
        post.hunk == pre.hunk,
        post.line_numbers == pre.line_numbers,
        post.unified == pre.unified,
        post.merge_markers == pre.merge_markers,
        post.side == pre.side,
        ({
            let old_name = if rename {
                held_in(s, g, 1) == RENAME_FROM.spec_bytes()
            } else {
                held_in(s, g, 1) == OLD_FILE_SIGN.spec_bytes()
            };
            let name = held_in(
                s,
                g,
                if rename {
                    2
                } else {
                    3
                },
            );
            &&& old_name ==> post.frame().filename == Some(name) && bytes.len() == 0 && after == table
            &&& !old_name ==> post.filename == pre.filename && named(
                pre.frame().filename,
                name,
                if rename {
                    rename_labels()
                } else {
                    name_labels(&pre.opts)
                },
                &pre.style,
                &pre.opts,
                table,
                after,
                bytes,
            )
        }),
    ensures
        handled(
            pre,
            post,
            if rename {
                Line::Rename(g)
            } else {
                Line::FileName(g)
            },
            buf,
            s,
            table,
            after,
            bytes,
            Ok::<(), FrameError>(()),
        ),
{
    reveal(handled);
    let line = if rename {
        Line::Rename(g)
    } else {
        Line::FileName(g)
    };
    assert(post.frame() == next(pre.frame(), line, s, &pre.opts));
}

/// What comes of a line for which the framer holds what it held: the text of
/// the line is shown.
pub proof fn lemma_passed(
    pre: &Framer,
    post: &Framer,
    line: Line,
    buf: Seq<u8>,
    s: Seq<u8>,
    table: Seq<Seq<u8>>,
    bytes: Seq<u8>,
)
    requires
        line is Commit || line is Loose || line is Separator,
        post.hunk == pre.hunk,
        rest_stays(pre, post),
        bytes == text(pre.frame(), line, buf, s, &pre.style, &pre.opts),
    ensures
        handled(pre, post, line, buf, s, table, table, bytes, Ok::<(), FrameError>(())),
{
    reveal(handled);
    assert(post.frame() == next(pre.frame(), line, s, &pre.opts));
}

/// What comes of a line that is gathered: nothing is shown, and the framer
/// holds what `next` says.
pub proof fn lemma_gathered(
    pre: &Framer,
    post: &Framer,
    line: Line,
    buf: Seq<u8>,
    s: Seq<u8>,
    table: Seq<Seq<u8>>,
)
    requires
        line is CombinedLine || line is NoNewline || line is Sided || line is Shared,
        failure(pre.frame(), line, s).is_none(),
        post.frame() == next(pre.frame(), line, s, &pre.opts),
    ensures
        handled(pre, post, line, buf, s, table, table, Seq::empty(), Ok::<(), FrameError>(())),
{
    reveal(handled);
}

} // verus!
