//! The styles of the output and the line numbers before each line.

use crate::pair::Pair;
use vstd::prelude::*;
use vstd::string::StringSliceAdditionalSpecFns;

verus! {

pub const RESET: &'static str = "\x1b[0m";

pub const BOLD: &'static str = "\x1b[1m";

pub const HEADER: &'static str = "\x1b[0;36m";

pub const COMMIT: &'static str = "\x1b[1;48;5;24m";

pub const CONTEXT: &'static str = "\x1b[0;1;33;48;5;236m";

pub const DIFF_HEADER: &'static str = "\x1b[1m";

/// No background unless one is asked for.
pub const BACKGROUND: &'static str = "";

/// Paints the rest of the line in the background that is set.
pub const PAINT_RIGHT: &'static str = "\x1b[K";

pub const SIGN_LEFT: &'static str = "\x1b[0m\x1b[0;31m-";

pub const SIGN_RIGHT: &'static str = "\x1b[0m\x1b[0;32m+";

pub const SIGN_BOTH: &'static str = "\x1b[0m ";

pub const DIFF_LEFT: &'static str = "\x1b[0;31m";

pub const DIFF_RIGHT: &'static str = "\x1b[0;32m";

pub const LINENO: &'static str = "\x1b[0;38;5;242m";

pub const LINENO_BAR: &'static str = "\x1b[0;38;5;242m▏";

pub const LINENO_OUR_BAR: &'static str = "\x1b[0;38;5;187m(";

pub const LINENO_THEIR_BAR: &'static str = "\x1b[0;38;5;117m)";

pub const LINENO_MERGE_BAR: &'static str = "\x1b[0;38;5;13;1m|";

pub const FILENAME_LEFT: &'static str = "\x1b[0;31m";

pub const FILENAME_RIGHT: &'static str = "\x1b[0;32m";

pub const FILENAME_BOTH: &'static str = "";

pub const FILENAME_RENAME: &'static str = "\x1b[0m\x1b[48;5;238m";

pub const FILENAME_HEADER_LEFT: &'static str = "\x1b[0;31m\x1b[1m\x1b[48;5;238m";

pub const FILENAME_HEADER_RIGHT: &'static str = "\x1b[0;32m\x1b[1m\x1b[48;5;238m";

pub const FILENAME_SIGN_LEFT: &'static str = "\x1b[0;31m\x1b[48;5;238m\x1b[7m---\x1b[27m ";

pub const FILENAME_SIGN_RIGHT: &'static str = "\x1b[0;32m\x1b[48;5;238m\x1b[7m+++\x1b[27m ";

pub const FILENAME_SIGN_BOTH: &'static str = "\x1b[48;5;238m\x1b[7m###\x1b[27m ";

pub const FILENAME_NON_MATCHING_LEFT: &'static str =
    "\x1b[0;31m\x1b[1;48;2;80;30;30m\x1b[48;5;238m\x1b[1m";

pub const FILENAME_NON_MATCHING_RIGHT: &'static str =
    "\x1b[0;32m\x1b[1;48;2;25;80;25m\x1b[48;5;238m\x1b[1m";

pub const DIFF_MATCHING_LEFT: &'static str = "\x1b[0;38;2;220;190;210;48;2;35;20;20m";

pub const DIFF_MATCHING_RIGHT: &'static str = "\x1b[0;38;2;190;220;210;48;2;20;35;20m";

pub const DIFF_NON_MATCHING_LEFT: &'static str = "\x1b[0;31m\x1b[1;48;2;80;30;30m";

pub const DIFF_NON_MATCHING_RIGHT: &'static str = "\x1b[0;32m\x1b[1;48;2;25;80;25m";

pub const DIFF_INSERT_LEFT: &'static str = "\x1b[4:3:58:5:10m";

pub const DIFF_INSERT_RIGHT: &'static str = "\x1b[4:3;58;5;9m";

pub const DIFF_MATCHING_INLINE: &'static str = "\x1b[0;38;5;252m";

pub const DIFF_CONTEXT: &'static str = "\x1b[0;38;5;242m";

pub const DIFF_TRAILING_WS: &'static str = "\x1b[2;7m";

/// The bytes of `s`.
pub fn bytes_of(s: &str) -> (r: Vec<u8>)
    ensures
        r@ == s.spec_bytes(),
{
    vstd::slice::slice_to_vec(s.as_bytes())
}

/// Appends `bytes` to `out`.
pub fn put(out: &mut Vec<u8>, bytes: &[u8])
    ensures
        final(out)@ == old(out)@ + bytes@,
{
    let mut k: usize = 0;
    while k < bytes.len()
        invariant
            k <= bytes@.len(),
            out@ == old(out)@ + bytes@.take(k as int),
        decreases bytes@.len() - k,
    {
        out.push(bytes[k]);
        assert(bytes@.take(k + 1) =~= bytes@.take(k as int).push(bytes@[k as int]));
        k += 1;
    }
    assert(bytes@.take(k as int) =~= bytes@);
}

/// How a diff is shown.
#[derive(Clone, Debug)]
pub struct Style {
    pub line_numbers: bool,
    pub signs: bool,
    pub show_both: bool,
    pub inline: bool,
    /// The style of what matches, on each side.
    pub diff_matching: Pair<Vec<u8>>,
    /// The style of what matches where both sides are shown in one line.
    pub diff_matching_inline: Vec<u8>,
    /// The style of what does not match, on each side.
    pub diff_non_matching: Pair<Vec<u8>>,
}

impl Default for Style {
    fn default() -> (r: Style)
        ensures
            r.line_numbers,
            !r.signs,
            !r.show_both,
            !r.inline,
            r.diff_matching.left@ == DIFF_MATCHING_LEFT.spec_bytes(),
            r.diff_matching.right@ == DIFF_MATCHING_RIGHT.spec_bytes(),
            r.diff_matching_inline@ == DIFF_MATCHING_INLINE.spec_bytes(),
            r.diff_non_matching.left@ == DIFF_NON_MATCHING_LEFT.spec_bytes(),
            r.diff_non_matching.right@ == DIFF_NON_MATCHING_RIGHT.spec_bytes(),
    {
        Style {
            line_numbers: true,
            signs: false,
            show_both: false,
            inline: false,
            diff_matching: Pair { left: bytes_of(DIFF_MATCHING_LEFT), right: bytes_of(DIFF_MATCHING_RIGHT) },
            diff_matching_inline: bytes_of(DIFF_MATCHING_INLINE),
            diff_non_matching: Pair {
                left: bytes_of(DIFF_NON_MATCHING_LEFT),
                right: bytes_of(DIFF_NON_MATCHING_RIGHT),
            },
        }
    }
}

/// The digits of `n` in base ten.
pub open spec fn decimal(n: nat) -> Seq<u8>
    decreases n,
{
    if n < 10 {
        seq![(48 + n) as u8]
    } else {
        decimal(n / 10).push((48 + n % 10) as u8)
    }
}

/// `s`, followed by as many spaces as it lacks to `width` bytes.
pub open spec fn padded(s: Seq<u8>, width: nat) -> Seq<u8>
    decreases width - s.len(),
{
    if s.len() >= width {
        s
    } else {
        padded(s.push(32u8), width)
    }
}

/// The digits of a line number, or nothing for zero, in a field of four bytes.
pub open spec fn number_field(n: nat) -> Seq<u8> {
    if n == 0 {
        padded(Seq::empty(), 4)
    } else {
        padded(decimal(n), 4)
    }
}

/// The line numbers of both sides, each in its style and followed by the bar, and
/// a space. A number of zero is left out. Styles that are not given are the
/// styles of the two sides and the plain bar.
pub open spec fn spec_format_lineno(
    left: nat,
    right: nat,
    left_style: Option<Seq<u8>>,
    right_style: Option<Seq<u8>>,
    bar_style: Option<Seq<u8>>,
) -> Seq<u8> {
    let bar = match bar_style {
        Some(b) => b,
        None => LINENO_BAR.spec_bytes(),
    };
    let ls = match left_style {
        Some(s) => s,
        None => DIFF_LEFT.spec_bytes(),
    };
    let rs = match right_style {
        Some(s) => s,
        None => DIFF_RIGHT.spec_bytes(),
    };
    ls + number_field(left) + bar + rs + number_field(right) + bar + seq![32u8]
}

/// The digits of `n` in base ten.
pub fn digits(n: usize) -> (r: Vec<u8>)
    ensures
        r@ == decimal(n as nat),
{
    let mut reversed: Vec<u8> = Vec::new();
    let mut rest = n;
    let ghost mut tail: Seq<u8> = Seq::empty();
    while rest >= 10
        invariant
            decimal(n as nat) == decimal(rest as nat) + tail,
            reversed@.len() == tail.len(),
            forall|k: int| 0 <= k < tail.len() ==> #[trigger] reversed@[k] == tail[tail.len() - 1 - k],
        decreases rest,
    {
        let d = (rest % 10) as u8 + 48;
        proof {
            let new_tail = seq![d] + tail;
            assert(decimal(rest as nat) == decimal((rest / 10) as nat).push(d));
            assert(decimal((rest / 10) as nat).push(d) + tail =~= decimal((rest / 10) as nat) + new_tail);
            tail = new_tail;
        }
        reversed.push(d);
        rest = rest / 10;
    }
    let mut r: Vec<u8> = Vec::new();
    r.push(rest as u8 + 48);
    let mut k: usize = reversed.len();
    while k > 0
        invariant
            k <= reversed@.len(),
            reversed@.len() == tail.len(),
            forall|x: int| 0 <= x < tail.len() ==> #[trigger] reversed@[x] == tail[tail.len() - 1 - x],
            r@ == decimal(rest as nat) + tail.take(tail.len() - k),
            rest < 10,
        decreases k,
    {
        k -= 1;
        r.push(reversed[k]);
        assert(tail.take(tail.len() - k) =~= tail.take(tail.len() - k - 1).push(tail[tail.len() - k - 1]));
    }
    assert(tail.take(tail.len() as int) =~= tail);
    r
}

fn put_field(out: &mut Vec<u8>, n: usize)
    ensures
        final(out)@ == old(out)@ + number_field(n as nat),
{
    let mut field: Vec<u8> = if n == 0 {
        Vec::new()
    } else {
        digits(n)
    };
    while field.len() < 4
        invariant
            padded(field@, 4) == number_field(n as nat),
        decreases 4 - field@.len(),
    {
        field.push(32);
    }
    put(out, field.as_slice());
}

/// The bytes that come before a line: see `spec_format_lineno`.
pub fn format_lineno(
    nums: [usize; 2],
    left_style: Option<&[u8]>,
    right_style: Option<&[u8]>,
    bar_style: Option<&[u8]>,
) -> (r: Vec<u8>)
    ensures
        r@ == spec_format_lineno(
            nums[0] as nat,
            nums[1] as nat,
            match left_style {
                Some(s) => Some(s@),
                None => None,
            },
            match right_style {
                Some(s) => Some(s@),
                None => None,
            },
            match bar_style {
                Some(s) => Some(s@),
                None => None,
            },
        ),
{
    let mut r: Vec<u8> = Vec::new();
    match left_style {
        Some(s) => put(&mut r, s),
        None => put(&mut r, DIFF_LEFT.as_bytes()),
    }
    put_field(&mut r, nums[0]);
    match bar_style {
        Some(s) => put(&mut r, s),
        None => put(&mut r, LINENO_BAR.as_bytes()),
    }
    match right_style {
        Some(s) => put(&mut r, s),
        None => put(&mut r, DIFF_RIGHT.as_bytes()),
    }
    put_field(&mut r, nums[1]);
    match bar_style {
        Some(s) => put(&mut r, s),
        None => put(&mut r, LINENO_BAR.as_bytes()),
    }
    r.push(32);
    r
}

} // verus!
