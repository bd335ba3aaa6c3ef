//! The palette: the style of every kind of output, each of which can be set.

use crate::style;
use crate::style::{bytes_of, put};
use crate::text::{replace_all, replaced};
use vstd::prelude::*;
use vstd::string::StringSliceAdditionalSpecFns;

verus! {

/// The mark of a style that begins by resetting all styles.
pub const RESET_PREFIX: &'static str = "\x1b[0;";

/// The start of a style.
pub const STYLE_START: &'static str = "\x1b[";

/// What takes the place of the mark once a background is set: the reset, the
/// background, the painting of the line, and the start of a style.
pub open spec fn background_prefix(background: Seq<u8>) -> Seq<u8> {
    style::RESET.spec_bytes() + background + style::PAINT_RIGHT.spec_bytes() + STYLE_START.spec_bytes()
}

/// `entry` with the background set wherever the entry resets all styles.
pub open spec fn tinted(entry: Seq<u8>, background: Seq<u8>) -> Seq<u8> {
    if background.len() == 0 || RESET_PREFIX.spec_bytes().len() == 0 {
        entry
    } else {
        replaced(entry, RESET_PREFIX.spec_bytes(), background_prefix(background))
    }
}

/// The style of every kind of output.
#[derive(Clone, Debug)]
pub struct StyleOpts {
    pub background: Vec<u8>,
    pub header: Vec<u8>,
    pub commit: Vec<u8>,
    pub context: Vec<u8>,
    pub lineno: Vec<u8>,
    pub lineno_left: Vec<u8>,
    pub lineno_right: Vec<u8>,
    pub lineno_bar: Vec<u8>,
    pub lineno_our_bar: Vec<u8>,
    pub lineno_their_bar: Vec<u8>,
    pub lineno_merge_bar: Vec<u8>,
    pub filename: Vec<u8>,
    pub filename_left: Vec<u8>,
    pub filename_right: Vec<u8>,
    pub filename_rename: Vec<u8>,
    pub filename_header_left: Vec<u8>,
    pub filename_header_right: Vec<u8>,
    pub filename_sign: Vec<u8>,
    pub filename_sign_left: Vec<u8>,
    pub filename_sign_right: Vec<u8>,
    pub filename_non_matching_left: Vec<u8>,
    pub filename_non_matching_right: Vec<u8>,
    pub diff_matching_left: Vec<u8>,
    pub diff_matching_right: Vec<u8>,
    pub diff_non_matching_left: Vec<u8>,
    pub diff_non_matching_right: Vec<u8>,
    pub diff_insert_left: Vec<u8>,
    pub diff_insert_right: Vec<u8>,
    pub diff_matching_inline: Vec<u8>,
    pub diff_context: Vec<u8>,
    pub diff_trailing_ws: Vec<u8>,
}

impl StyleOpts {
    /// The palette of the styles that are used unless others are set.
    pub fn new() -> (r: StyleOpts)
        ensures
            r.background@ == style::BACKGROUND.spec_bytes(),
            r.header@ == style::HEADER.spec_bytes(),
            r.commit@ == style::COMMIT.spec_bytes(),
            r.context@ == style::CONTEXT.spec_bytes(),
            r.lineno@ == style::LINENO.spec_bytes(),
            r.lineno_left@ == style::DIFF_LEFT.spec_bytes(),
            r.lineno_right@ == style::DIFF_RIGHT.spec_bytes(),
            r.lineno_bar@ == style::LINENO_BAR.spec_bytes(),
            r.lineno_our_bar@ == style::LINENO_OUR_BAR.spec_bytes(),
            r.lineno_their_bar@ == style::LINENO_THEIR_BAR.spec_bytes(),
            r.lineno_merge_bar@ == style::LINENO_MERGE_BAR.spec_bytes(),
            r.filename@ == style::FILENAME_BOTH.spec_bytes(),
            r.filename_left@ == style::FILENAME_LEFT.spec_bytes(),
            r.filename_right@ == style::FILENAME_RIGHT.spec_bytes(),
            r.filename_rename@ == style::FILENAME_RENAME.spec_bytes(),
            r.filename_header_left@ == style::FILENAME_HEADER_LEFT.spec_bytes(),
            r.filename_header_right@ == style::FILENAME_HEADER_RIGHT.spec_bytes(),
            r.filename_sign@ == style::FILENAME_SIGN_BOTH.spec_bytes(),
            r.filename_sign_left@ == style::FILENAME_SIGN_LEFT.spec_bytes(),
            r.filename_sign_right@ == style::FILENAME_SIGN_RIGHT.spec_bytes(),
            r.filename_non_matching_left@ == style::FILENAME_NON_MATCHING_LEFT.spec_bytes(),
            r.filename_non_matching_right@ == style::FILENAME_NON_MATCHING_RIGHT.spec_bytes(),
            r.diff_matching_left@ == style::DIFF_MATCHING_LEFT.spec_bytes(),
            r.diff_matching_right@ == style::DIFF_MATCHING_RIGHT.spec_bytes(),
            r.diff_non_matching_left@ == style::DIFF_NON_MATCHING_LEFT.spec_bytes(),
            r.diff_non_matching_right@ == style::DIFF_NON_MATCHING_RIGHT.spec_bytes(),
            r.diff_insert_left@ == style::DIFF_INSERT_LEFT.spec_bytes(),
            r.diff_insert_right@ == style::DIFF_INSERT_RIGHT.spec_bytes(),
            r.diff_matching_inline@ == style::DIFF_MATCHING_INLINE.spec_bytes(),
            r.diff_context@ == style::DIFF_CONTEXT.spec_bytes(),
            r.diff_trailing_ws@ == style::DIFF_TRAILING_WS.spec_bytes(),
    {
        StyleOpts {
            background: bytes_of(style::BACKGROUND),
            header: bytes_of(style::HEADER),
            commit: bytes_of(style::COMMIT),
            context: bytes_of(style::CONTEXT),
            lineno: bytes_of(style::LINENO),
            lineno_left: bytes_of(style::DIFF_LEFT),
            lineno_right: bytes_of(style::DIFF_RIGHT),
            lineno_bar: bytes_of(style::LINENO_BAR),
            lineno_our_bar: bytes_of(style::LINENO_OUR_BAR),
            lineno_their_bar: bytes_of(style::LINENO_THEIR_BAR),
            lineno_merge_bar: bytes_of(style::LINENO_MERGE_BAR),
            filename: bytes_of(style::FILENAME_BOTH),
            filename_left: bytes_of(style::FILENAME_LEFT),
            filename_right: bytes_of(style::FILENAME_RIGHT),
            filename_rename: bytes_of(style::FILENAME_RENAME),
            filename_header_left: bytes_of(style::FILENAME_HEADER_LEFT),
            filename_header_right: bytes_of(style::FILENAME_HEADER_RIGHT),
            filename_sign: bytes_of(style::FILENAME_SIGN_BOTH),
            filename_sign_left: bytes_of(style::FILENAME_SIGN_LEFT),
            filename_sign_right: bytes_of(style::FILENAME_SIGN_RIGHT),
            filename_non_matching_left: bytes_of(style::FILENAME_NON_MATCHING_LEFT),
            filename_non_matching_right: bytes_of(style::FILENAME_NON_MATCHING_RIGHT),
            diff_matching_left: bytes_of(style::DIFF_MATCHING_LEFT),
            diff_matching_right: bytes_of(style::DIFF_MATCHING_RIGHT),
            diff_non_matching_left: bytes_of(style::DIFF_NON_MATCHING_LEFT),
            diff_non_matching_right: bytes_of(style::DIFF_NON_MATCHING_RIGHT),
            diff_insert_left: bytes_of(style::DIFF_INSERT_LEFT),
            diff_insert_right: bytes_of(style::DIFF_INSERT_RIGHT),
            diff_matching_inline: bytes_of(style::DIFF_MATCHING_INLINE),
            diff_context: bytes_of(style::DIFF_CONTEXT),
            diff_trailing_ws: bytes_of(style::DIFF_TRAILING_WS),
        }
    }

    /// Sets the background in every entry but the background itself: wherever an
    /// entry resets all styles, the background follows the reset. Without a
    /// background nothing changes.
    pub fn insert_background(&mut self)
        ensures
            final(self).background@ == old(self).background@,
            final(self).header@ == tinted(old(self).header@, old(self).background@),
            final(self).commit@ == tinted(old(self).commit@, old(self).background@),
            final(self).context@ == tinted(old(self).context@, old(self).background@),
            final(self).lineno@ == tinted(old(self).lineno@, old(self).background@),
            final(self).lineno_left@ == tinted(old(self).lineno_left@, old(self).background@),
            final(self).lineno_right@ == tinted(old(self).lineno_right@, old(self).background@),
            final(self).lineno_bar@ == tinted(old(self).lineno_bar@, old(self).background@),
            final(self).lineno_our_bar@ == tinted(old(self).lineno_our_bar@, old(self).background@),
            final(self).lineno_their_bar@ == tinted(old(self).lineno_their_bar@, old(self).background@),
            final(self).lineno_merge_bar@ == tinted(old(self).lineno_merge_bar@, old(self).background@),
            final(self).filename@ == tinted(old(self).filename@, old(self).background@),
            final(self).filename_left@ == tinted(old(self).filename_left@, old(self).background@),
            final(self).filename_right@ == tinted(old(self).filename_right@, old(self).background@),
            final(self).filename_rename@ == tinted(old(self).filename_rename@, old(self).background@),
            final(self).filename_header_left@ == tinted(old(self).filename_header_left@, old(self).background@),
            final(self).filename_header_right@ == tinted(old(self).filename_header_right@, old(self).background@),
            final(self).filename_sign@ == tinted(old(self).filename_sign@, old(self).background@),
            final(self).filename_sign_left@ == tinted(old(self).filename_sign_left@, old(self).background@),
            final(self).filename_sign_right@ == tinted(old(self).filename_sign_right@, old(self).background@),
            final(self).filename_non_matching_left@ == tinted(old(self).filename_non_matching_left@, old(self).background@),
            final(self).filename_non_matching_right@ == tinted(old(self).filename_non_matching_right@, old(self).background@),
            final(self).diff_matching_left@ == tinted(old(self).diff_matching_left@, old(self).background@),
            final(self).diff_matching_right@ == tinted(old(self).diff_matching_right@, old(self).background@),
            final(self).diff_non_matching_left@ == tinted(old(self).diff_non_matching_left@, old(self).background@),
            final(self).diff_non_matching_right@ == tinted(old(self).diff_non_matching_right@, old(self).background@),
            final(self).diff_insert_left@ == tinted(old(self).diff_insert_left@, old(self).background@),
            final(self).diff_insert_right@ == tinted(old(self).diff_insert_right@, old(self).background@),
            final(self).diff_matching_inline@ == tinted(old(self).diff_matching_inline@, old(self).background@),
            final(self).diff_context@ == tinted(old(self).diff_context@, old(self).background@),
            final(self).diff_trailing_ws@ == tinted(old(self).diff_trailing_ws@, old(self).background@),
    {
        if self.background.len() == 0 || RESET_PREFIX.as_bytes().len() == 0 {
            return ;
        }
        let mut prefix: Vec<u8> = Vec::new();
        put(&mut prefix, style::RESET.as_bytes());
        put(&mut prefix, self.background.as_slice());
        put(&mut prefix, style::PAINT_RIGHT.as_bytes());
        put(&mut prefix, STYLE_START.as_bytes());
        let mark = RESET_PREFIX.as_bytes();
        self.header = replace_all(self.header.as_slice(), mark, prefix.as_slice());
        self.commit = replace_all(self.commit.as_slice(), mark, prefix.as_slice());
        self.context = replace_all(self.context.as_slice(), mark, prefix.as_slice());
        self.lineno = replace_all(self.lineno.as_slice(), mark, prefix.as_slice());
        self.lineno_left = replace_all(self.lineno_left.as_slice(), mark, prefix.as_slice());
        self.lineno_right = replace_all(self.lineno_right.as_slice(), mark, prefix.as_slice());
        self.lineno_bar = replace_all(self.lineno_bar.as_slice(), mark, prefix.as_slice());
        self.lineno_our_bar = replace_all(self.lineno_our_bar.as_slice(), mark, prefix.as_slice());
        self.lineno_their_bar = replace_all(self.lineno_their_bar.as_slice(), mark, prefix.as_slice());
        self.lineno_merge_bar = replace_all(self.lineno_merge_bar.as_slice(), mark, prefix.as_slice());
        self.filename = replace_all(self.filename.as_slice(), mark, prefix.as_slice());
        self.filename_left = replace_all(self.filename_left.as_slice(), mark, prefix.as_slice());
        self.filename_right = replace_all(self.filename_right.as_slice(), mark, prefix.as_slice());
        self.filename_rename = replace_all(self.filename_rename.as_slice(), mark, prefix.as_slice());
        self.filename_header_left = replace_all(self.filename_header_left.as_slice(), mark, prefix.as_slice());
        self.filename_header_right = replace_all(self.filename_header_right.as_slice(), mark, prefix.as_slice());
        self.filename_sign = replace_all(self.filename_sign.as_slice(), mark, prefix.as_slice());
        self.filename_sign_left = replace_all(self.filename_sign_left.as_slice(), mark, prefix.as_slice());
        self.filename_sign_right = replace_all(self.filename_sign_right.as_slice(), mark, prefix.as_slice());
        self.filename_non_matching_left = replace_all(self.filename_non_matching_left.as_slice(), mark, prefix.as_slice());
        self.filename_non_matching_right = replace_all(self.filename_non_matching_right.as_slice(), mark, prefix.as_slice());
        self.diff_matching_left = replace_all(self.diff_matching_left.as_slice(), mark, prefix.as_slice());
        self.diff_matching_right = replace_all(self.diff_matching_right.as_slice(), mark, prefix.as_slice());
        self.diff_non_matching_left = replace_all(self.diff_non_matching_left.as_slice(), mark, prefix.as_slice());
        self.diff_non_matching_right = replace_all(self.diff_non_matching_right.as_slice(), mark, prefix.as_slice());
        self.diff_insert_left = replace_all(self.diff_insert_left.as_slice(), mark, prefix.as_slice());
        self.diff_insert_right = replace_all(self.diff_insert_right.as_slice(), mark, prefix.as_slice());
        self.diff_matching_inline = replace_all(self.diff_matching_inline.as_slice(), mark, prefix.as_slice());
        self.diff_context = replace_all(self.diff_context.as_slice(), mark, prefix.as_slice());
        self.diff_trailing_ws = replace_all(self.diff_trailing_ws.as_slice(), mark, prefix.as_slice());
    }

    /// What sets the background for a line: the background and the painting of
    /// the line; nothing without a background.
    pub open spec fn backdrop(&self) -> Seq<u8> {
        if self.background@.len() == 0 {
            Seq::<u8>::empty()
        } else {
            self.background@ + style::PAINT_RIGHT.spec_bytes()
        }
    }

    /// Appends to `out` what sets the background for a line: the background and
    /// the painting of the line; nothing without a background.
    pub fn print_background(&self, out: &mut Vec<u8>)
        ensures
            final(out)@ == old(out)@ + self.backdrop(),
    {
        if self.background.len() != 0 {
            put(out, self.background.as_slice());
            put(out, style::PAINT_RIGHT.as_bytes());
        } else {
            assert(out@ =~= old(out)@ + Seq::<u8>::empty());
        }
    }
}

} // verus!
