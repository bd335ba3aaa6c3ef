//! Replacing and quoting in byte strings.

use vstd::prelude::*;

verus! {

/// Whether `s` begins with `pat`.
pub open spec fn starts_with(s: Seq<u8>, pat: Seq<u8>) -> bool {
    pat.len() <= s.len() && s.subrange(0, pat.len() as int) == pat
}

/// `s` with `rep` in place of `pat` wherever `pat` occurs, from left to right;
/// what has taken the place of `pat` is not searched again.
pub open spec fn replaced(s: Seq<u8>, pat: Seq<u8>, rep: Seq<u8>) -> Seq<u8>
    decreases s.len(),
{
    if s.len() == 0 || pat.len() == 0 {
        s
    } else if starts_with(s, pat) {
        rep + replaced(s.subrange(pat.len() as int, s.len() as int), pat, rep)
    } else {
        seq![s[0]] + replaced(s.drop_first(), pat, rep)
    }
}

/// Whether `pat` occurs in `s` at `at`.
fn occurs_at(s: &[u8], at: usize, pat: &[u8]) -> (r: bool)
    requires
        at <= s@.len(),
    ensures
        r == starts_with(s@.subrange(at as int, s@.len() as int), pat@),
{
    let ghost rest = s@.subrange(at as int, s@.len() as int);
    if pat.len() > s.len() - at {
        return false;
    }
    let total = s.len();
    let mut k: usize = 0;
    while k < pat.len()
        invariant
            k <= pat@.len(),
            at + pat@.len() <= s@.len(),
            total == s@.len(),
            rest == s@.subrange(at as int, s@.len() as int),
            forall|x: int| 0 <= x < k ==> #[trigger] rest[x] == pat@[x],
        decreases pat@.len() - k,
    {
        if s[at + k] != pat[k] {
            assert(rest.subrange(0, pat@.len() as int)[k as int] != pat@[k as int]);
            return false;
        }
        k += 1;
    }
    assert(rest.subrange(0, pat@.len() as int) =~= pat@);
    true
}

/// `s` with `rep` in place of `pat` wherever `pat` occurs.
pub fn replace_all(s: &[u8], pat: &[u8], rep: &[u8]) -> (r: Vec<u8>)
    ensures
        r@ == replaced(s@, pat@, rep@),
{
    let mut out: Vec<u8> = Vec::new();
    if pat.len() == 0 {
        let mut k: usize = 0;
        while k < s.len()
            invariant
                k <= s@.len(),
                out@ == s@.take(k as int),
            decreases s@.len() - k,
        {
            out.push(s[k]);
            assert(s@.take(k + 1) =~= s@.take(k as int).push(s@[k as int]));
            k += 1;
        }
        assert(s@.take(k as int) =~= s@);
        return out;
    }
    let mut k: usize = 0;
    proof {
        assert(s@.subrange(0, s@.len() as int) =~= s@);
    }
    while k < s.len()
        invariant
            k <= s@.len(),
            pat@.len() > 0,
            replaced(s@, pat@, rep@) == out@ + replaced(s@.subrange(k as int, s@.len() as int), pat@, rep@),
        decreases s@.len() - k,
    {
        let ghost rest = s@.subrange(k as int, s@.len() as int);
        let ghost before = out@;
        if occurs_at(s, k, pat) {
            let mut x: usize = 0;
            while x < rep.len()
                invariant
                    x <= rep@.len(),
                    out@ == before + rep@.take(x as int),
                decreases rep@.len() - x,
            {
                out.push(rep[x]);
                assert(rep@.take(x + 1) =~= rep@.take(x as int).push(rep@[x as int]));
                x += 1;
            }
            proof {
                assert(rep@.take(x as int) =~= rep@);
                assert(rest.subrange(pat@.len() as int, rest.len() as int) =~= s@.subrange(
                    k + pat@.len(),
                    s@.len() as int,
                ));
                assert(out@ + replaced(s@.subrange(k + pat@.len(), s@.len() as int), pat@, rep@) =~= before
                    + replaced(rest, pat@, rep@));
            }
            k += pat.len();
        } else {
            out.push(s[k]);
            proof {
                assert(rest.drop_first() =~= s@.subrange(k + 1, s@.len() as int));
                assert(out@ + replaced(s@.subrange(k + 1, s@.len() as int), pat@, rep@) =~= before
                    + replaced(rest, pat@, rep@));
            }
            k += 1;
        }
    }
    proof {
        assert(s@.subrange(s@.len() as int, s@.len() as int) =~= Seq::<u8>::empty());
        assert(out@ + Seq::<u8>::empty() =~= out@);
    }
    out
}

/// `val` between single quotes, each single quote in it written as a quote that
/// ends, a quote with a backslash before it, and a quote that begins.
pub open spec fn quoted(val: Seq<u8>) -> Seq<u8> {
    seq![39u8] + replaced(val, seq![39u8], seq![39u8, 92u8, 39u8, 39u8]) + seq![39u8]
}

/// `val` as one word of a shell command.
pub fn shell_quote(val: &[u8]) -> (r: Vec<u8>)
    ensures
        r@ == quoted(val@),
{
    let mut pat: Vec<u8> = Vec::new();
    pat.push(39);
    let mut rep: Vec<u8> = Vec::new();
    rep.push(39);
    rep.push(92);
    rep.push(39);
    rep.push(39);
    assert(pat@ =~= seq![39u8]);
    assert(rep@ =~= seq![39u8, 92u8, 39u8, 39u8]);
    let inner = replace_all(val, pat.as_slice(), rep.as_slice());
    let mut r: Vec<u8> = Vec::new();
    r.push(39);
    crate::style::put(&mut r, inner.as_slice());
    r.push(39);
    assert(r@ =~= quoted(val@));
    r
}

/// The pattern of a style: the escape, a bracket, digits and semicolons, and `m`.
pub const STYLE_PATTERN: &'static str = "\\x1b\\[[\\d;]*m";

/// `text` with `replacement` in place of every match of the regular expression
/// `pattern`; in `replacement`, a dollar sign and a number or name stand for
/// what a group of the match holds.
pub uninterp spec fn pattern_replaced(pattern: Seq<char>, text: Seq<u8>, replacement: Seq<u8>) -> Seq<u8>;

/// Compiles `pattern` with `regex::bytes::Regex::new` and hands back what
/// `regex::bytes::Regex::replace_all` makes of `text` and `replacement`. The
/// result depends on these three alone; nothing more is claimed of it. For a
/// pattern that does not compile the text is handed back.
#[verifier::external_body]
pub(crate) fn replace_matches(pattern: &str, text: &[u8], replacement: &[u8]) -> (r: Vec<u8>)
    ensures
        r@ == pattern_replaced(pattern@, text@, replacement@),
{
    match regex::bytes::Regex::new(pattern) {
        Ok(re) => re.replace_all(text, replacement).into_owned(),
        Err(_) => text.to_vec(),
    }
}

/// `string` with `replace` in place of every style in it.
pub fn strip_style(string: &[u8], replace: &[u8]) -> (r: Vec<u8>)
    ensures
        r@ == pattern_replaced(STYLE_PATTERN@, string@, replace@),
{
    replace_matches(STYLE_PATTERN, string, replace)
}

/// The start and the end of what each group of the regular expression `pattern`
/// holds in its first match in `text`, the whole match first; `None` for a
/// group that holds nothing, and `None` for all where there is no match.
pub uninterp spec fn pattern_groups(pattern: Seq<char>, text: Seq<u8>) -> Option<Seq<Option<(usize, usize)>>>;

/// Compiles `pattern` with `regex::bytes::Regex::new`, takes its first match in
/// `text` with `regex::bytes::Regex::captures`, and hands back the start and
/// the end of what each group holds, in the order of `regex::bytes::Captures::iter`.
/// The result depends on the pattern and the text alone; nothing more is
/// claimed of it. A pattern that does not compile matches nothing.
#[verifier::external_body]
pub(crate) fn captures(pattern: &str, text: &[u8]) -> (r: Option<Vec<Option<(usize, usize)>>>)
    ensures
        match r {
            Some(groups) => pattern_groups(pattern@, text@) == Some(groups@),
            None => pattern_groups(pattern@, text@).is_none(),
        },
{
    match regex::bytes::Regex::new(pattern) {
        Ok(re) => re.captures(text).map(|c| c.iter().map(|m| m.map(|m| (m.start(), m.end()))).collect()),
        Err(_) => None,
    }
}

/// Whether the byte has a meaning in a regular expression: one of
/// `\ . + * ? ( ) | [ ] { } ^ $ # & - ~`.
pub open spec fn is_meta(b: u8) -> bool {
    ||| b == 92 || b == 46 || b == 43 || b == 42 || b == 63 || b == 40
    ||| b == 41 || b == 124 || b == 91 || b == 93 || b == 123 || b == 125
    ||| b == 94 || b == 36 || b == 35 || b == 38 || b == 45 || b == 126
}

/// `text` with a backslash before every byte that has a meaning in a regular
/// expression: what stands for `text` itself in a pattern.
pub open spec fn escaped(text: Seq<u8>) -> Seq<u8>
    decreases text.len(),
{
    if text.len() == 0 {
        Seq::empty()
    } else if is_meta(text.last()) {
        escaped(text.drop_last()).push(92u8).push(text.last())
    } else {
        escaped(text.drop_last()).push(text.last())
    }
}

/// Whether the byte has a meaning in a regular expression.
fn byte_is_meta(b: u8) -> (r: bool)
    ensures
        r == is_meta(b),
{
    b == 92 || b == 46 || b == 43 || b == 42 || b == 63 || b == 40 || b == 41 || b == 124 || b == 91 || b == 93
        || b == 123 || b == 125 || b == 94 || b == 36 || b == 35 || b == 38 || b == 45 || b == 126
}

/// `text` as it stands for itself in a pattern.
pub fn escape(text: &[u8]) -> (r: Vec<u8>)
    ensures
        r@ == escaped(text@),
{
    let mut r: Vec<u8> = Vec::new();
    let mut k: usize = 0;
    assert(text@.take(0) =~= Seq::<u8>::empty());
    while k < text.len()
        invariant
            k <= text@.len(),
            r@ == escaped(text@.take(k as int)),
        decreases text@.len() - k,
    {
        proof {
            assert(text@.take(k + 1).drop_last() =~= text@.take(k as int));
            assert(text@.take(k + 1).last() == text@[k as int]);
        }
        if byte_is_meta(text[k]) {
            r.push(92);
        }
        r.push(text[k]);
        k += 1;
    }
    assert(text@.take(k as int) =~= text@);
    r
}

/// What group `k` of `groups` holds in `text`; nothing where there is no such
/// group, where it holds nothing, or where it does not lie within the text.
pub open spec fn spec_group(text: Seq<u8>, groups: Seq<Option<(usize, usize)>>, k: int) -> Option<Seq<u8>> {
    if 0 <= k < groups.len() {
        match groups[k] {
            Some((from, to)) => if from <= to <= text.len() {
                Some(text.subrange(from as int, to as int))
            } else {
                None
            },
            None => None,
        }
    } else {
        None
    }
}

/// What group `k` of `groups` holds in `text`.
pub fn group<'t>(text: &'t [u8], groups: &Vec<Option<(usize, usize)>>, k: usize) -> (r: Option<&'t [u8]>)
    ensures
        match r {
            Some(held) => spec_group(text@, groups@, k as int) == Some(held@),
            None => spec_group(text@, groups@, k as int).is_none(),
        },
{
    if k < groups.len() {
        match groups[k] {
            Some((from, to)) => if from <= to && to <= text.len() {
                Some(vstd::slice::slice_subrange(text, from, to))
            } else {
                None
            },
            None => None,
        }
    } else {
        None
    }
}

/// The number that the decimal digits `digits` stand for, from the first `n` of them.
pub open spec fn decimal_value(digits: Seq<u8>, n: int) -> nat
    decreases n,
{
    if n <= 0 {
        0
    } else {
        decimal_value(digits, n - 1) * 10 + (digits[n - 1] - 48) as nat
    }
}

/// Every byte is a decimal digit, and there is one at least.
pub open spec fn all_digits(digits: Seq<u8>) -> bool {
    &&& digits.len() > 0
    &&& forall|k: int| 0 <= k < digits.len() ==> 48 <= #[trigger] digits[k] <= 57
}

/// The number that `digits` stands for: `None` unless it is made of decimal
/// digits alone and the number is within reach.
pub fn parse_number(digits: &[u8]) -> (r: Option<usize>)
    ensures
        match r {
            Some(n) => all_digits(digits@) && n == decimal_value(digits@, digits@.len() as int),
            None => !all_digits(digits@) || decimal_value(digits@, digits@.len() as int) > usize::MAX,
        },
{
    if digits.len() == 0 {
        return None;
    }
    let mut value: usize = 0;
    let mut k: usize = 0;
    while k < digits.len()
        invariant
            k <= digits@.len(),
            forall|x: int| 0 <= x < k ==> 48 <= #[trigger] digits@[x] <= 57,
            value == decimal_value(digits@, k as int),
        decreases digits@.len() - k,
    {
        let c = digits[k];
        if c < 48 || c > 57 {
            return None;
        }
        let d = (c - 48) as usize;
        if value > (usize::MAX - d) / 10 {
            proof {
                if all_digits(digits@) {
                    lemma_decimal_grows(digits@, k + 1, digits@.len() as int);
                    assert(decimal_value(digits@, k + 1) == value * 10 + d);
                }
            }
            return None;
        }
        value = value * 10 + d;
        k += 1;
    }
    Some(value)
}

/// More digits stand for no smaller a number.
pub proof fn lemma_decimal_grows(digits: Seq<u8>, n: int, m: int)
    requires
        0 <= n <= m <= digits.len(),
        forall|k: int| n <= k < m ==> 48 <= #[trigger] digits[k],
    ensures
        decimal_value(digits, n) <= decimal_value(digits, m),
    decreases m - n,
{
    if n < m {
        lemma_decimal_grows(digits, n, m - 1);
    }
}

} // verus!
