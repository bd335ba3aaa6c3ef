//! The words of a hunk, side by side, with their tokens and their lines.

use crate::block::{covering, lemma_covering_push, without_empty, Block};
use crate::hunk::Hunk;
use crate::line_differ::{common_run, lemma_long_runs, runs_in_order, LineDiffer};
use crate::pair::{Pair, Span};
use crate::part::Part;
use crate::tokeniser::{extends, intern, lemma_extends_trans, reserved_word, Token, Tokeniser};
use crate::whitespace::{all_space, bytes_eq, views, CheckAllWhitespace};
use crate::line_differ::long_runs;
use crate::word_differ::{matched_chain, WordDiffer};
use crate::word_spec::{matching_spec, Memo};
use vstd::prelude::*;

verus! {

/// The pattern of a word: an upper-case name, a capitalised or lower-case word, a
/// number, one white-space character, a two-byte operator, a run of multi-byte
/// characters, any other character, or a newline.
pub const WORD_PATTERN: &'static str =
    "[A-Z][A-Z_]*[A-Z]\\d*|[A-Z][a-z0-9]*[a-z]|[a-z0-9]+[a-z]|\\d+|\\s|[-!=~+]=|(?:(?:[\\xc0-\\xdf][\\x80-\\xbf])|(?:[\\xe0-\\xef][\\x80-\\xbf][\\x80-\\xbf])|(?:[\\xf0-\\xf7][\\x80-\\xbf][\\x80-\\xbf][\\x80-\\xbf]))+|.|\n";

/// The start and the end of each match of the regular expression `pattern` in
/// `line`, in order.
pub uninterp spec fn pattern_matches(pattern: Seq<char>, line: Seq<u8>) -> Seq<(usize, usize)>;

/// Compiles `pattern` with `regex::bytes::Regex::new`, runs
/// `regex::bytes::Regex::find_iter` over `line` and hands back the start and the
/// end of each match, in the order of the iterator. The matches depend on the
/// pattern and the line alone; nothing more is claimed of them. For a pattern that
/// does not compile no match is handed back.
#[verifier::external_body]
fn find_matches(pattern: &str, line: &[u8]) -> (spans: Vec<(usize, usize)>)
    ensures
        spans@ == pattern_matches(pattern@, line@),
{
    match regex::bytes::Regex::new(pattern) {
        Ok(re) => re.find_iter(line).map(|m| (m.start(), m.end())).collect(),
        Err(_) => Vec::new(),
    }
}

/// The pieces of `line` at those of `spans` that are not empty and lie within it.
pub open spec fn cut(line: Seq<u8>, spans: Seq<(usize, usize)>) -> Seq<Seq<u8>>
    decreases spans.len(),
{
    if spans.len() == 0 {
        Seq::empty()
    } else {
        let s = spans.last();
        let rest = cut(line, spans.drop_last());
        if s.0 < s.1 && s.1 <= line.len() {
            rest.push(line.subrange(s.0 as int, s.1 as int))
        } else {
            rest
        }
    }
}

/// The words of `line`.
pub open spec fn words_of(line: Seq<u8>) -> Seq<Seq<u8>> {
    cut(line, pattern_matches(WORD_PATTERN@, line))
}

/// `table` after interning `words` one after the other.
pub open spec fn intern_all(table: Seq<Seq<u8>>, words: Seq<Seq<u8>>) -> Seq<Seq<u8>>
    decreases words.len(),
{
    if words.len() == 0 {
        table
    } else {
        intern(intern_all(table, words.drop_last()), words.last())
    }
}

/// What is interned for `lines`, in order: for each line its words, then the line itself.
pub open spec fn requests(lines: Seq<Seq<u8>>) -> Seq<Seq<u8>>
    decreases lines.len(),
{
    if lines.len() == 0 {
        Seq::empty()
    } else {
        requests(lines.drop_last()) + words_of(lines.last()).push(lines.last())
    }
}

/// A copy of the bytes `from..to` of `line`.
fn copy_range(line: &[u8], from: usize, to: usize) -> (r: Vec<u8>)
    requires
        from <= to <= line@.len(),
    ensures
        r@ == line@.subrange(from as int, to as int),
{
    let mut r: Vec<u8> = Vec::new();
    let mut i: usize = from;
    while i < to
        invariant
            from <= i <= to <= line@.len(),
            r@ == line@.subrange(from as int, i as int),
        decreases to - i,
    {
        r.push(line[i]);
        assert(r@ =~= line@.subrange(from as int, i + 1));
        i += 1;
    }
    r
}

/// The words of one side of a hunk.
#[derive(Debug)]
pub struct Side {
    /// The words of all lines, in order.
    pub words: Vec<Vec<u8>>,
    /// The token of each word.
    pub tokens: Vec<Token>,
    /// The token of each whole line.
    pub line_tokens: Vec<Token>,
    /// For each word the index of its line; one entry more, the number of lines.
    pub word_to_line: Vec<usize>,
    /// For each line the index of its first word; one entry more, the number of words.
    pub line_to_word: Vec<usize>,
}

impl Side {
    /// The number of words.
    pub open spec fn nwords(&self) -> int {
        self.words@.len() as int
    }

    /// The number of lines.
    pub open spec fn nlines(&self) -> int {
        self.line_tokens@.len() as int
    }

    /// The words as byte strings.
    pub open spec fn word_seq(&self) -> Seq<Seq<u8>> {
        views(self.words@)
    }

    /// The words of line `l`.
    pub open spec fn line_words(&self, l: int) -> Seq<Seq<u8>> {
        self.word_seq().subrange(self.line_to_word@[l] as int, self.line_to_word@[l + 1] as int)
    }

    /// The two indices agree with each other and with the words.
    pub open spec fn wf(&self) -> bool {
        &&& self.tokens@.len() == self.nwords()
        &&& self.word_to_line@.len() == self.nwords() + 1
        &&& self.line_to_word@.len() == self.nlines() + 1
        &&& self.line_to_word@[0] == 0
        &&& self.line_to_word@[self.nlines()] == self.nwords()
        &&& forall|l: int, m: int|
            0 <= l <= m <= self.nlines() ==> #[trigger] self.line_to_word@[l]
                <= #[trigger] self.line_to_word@[m]
        &&& forall|w: int|
            0 <= w < self.nwords() ==> {
                let l = #[trigger] self.word_to_line@[w];
                &&& l < self.nlines()
                &&& self.line_to_word@[l as int] <= w < self.line_to_word@[l + 1]
            }
        &&& self.word_to_line@[self.nwords()] == self.nlines()
        &&& forall|w: int| 0 <= w < self.nwords() ==> (#[trigger] self.words@[w])@.len() > 0
    }

    /// Line `l` holds a word, and its last word is a newline.
    pub open spec fn ends_in_newline(&self, l: int) -> bool {
        &&& self.line_to_word@[l] < self.line_to_word@[l + 1]
        &&& self.tokens@[self.line_to_word@[l + 1] - 1].is_newline()
    }

    /// Newline tokens delimit the lines: a newline is the last word of its line, and
    /// every line but the last ends in one.
    pub open spec fn line_delimited(&self) -> bool {
        &&& forall|w: int|
            0 <= w < self.nwords() && (#[trigger] self.tokens@[w]).is_newline() ==> w + 1
                == self.line_to_word@[self.word_to_line@[w] + 1]
        &&& forall|l: int| 0 <= l < self.nlines() - 1 ==> #[trigger] self.ends_in_newline(l)
    }
}

/// Interning words one after the other is interning the first of them and then
/// the rest.
pub proof fn lemma_intern_all_concat(table: Seq<Seq<u8>>, a: Seq<Seq<u8>>, b: Seq<Seq<u8>>)
    ensures
        intern_all(table, a + b) == intern_all(intern_all(table, a), b),
    decreases b.len(),
{
    if b.len() == 0 {
        assert(a + b =~= a);
    } else {
        lemma_intern_all_concat(table, a, b.drop_last());
        assert((a + b).drop_last() =~= a + b.drop_last());
        assert((a + b).last() == b.last());
    }
}

/// Every token of `tokens` is the place of its word in `table`.
pub open spec fn tokens_in(table: Seq<Seq<u8>>, words: Seq<Vec<u8>>, tokens: Seq<Token>) -> bool {
    &&& tokens.len() == words.len()
    &&& forall|w: int|
        0 <= w < words.len() ==> (#[trigger] tokens[w]).0 < table.len() && table[tokens[w].0 as int]
            == words[w]@
}

/// Tokens that are in a table are in every table that begins with it.
pub proof fn lemma_tokens_stay(table: Seq<Seq<u8>>, later: Seq<Seq<u8>>, words: Seq<Vec<u8>>, tokens: Seq<Token>)
    requires
        tokens_in(table, words, tokens),
        extends(table, later),
    ensures
        tokens_in(later, words, tokens),
{
    assert forall|w: int| 0 <= w < words.len() implies (#[trigger] tokens[w]).0 < later.len()
        && later[tokens[w].0 as int] == words[w]@ by {
        assert(later[tokens[w].0 as int] == table[tokens[w].0 as int]);
    }
}

/// Appends the words of `line` to `words` and their tokens to `tokens`, and for
/// each the line `lineno` to `word_to_line`.
fn push_words(
    line: &[u8],
    lineno: usize,
    words: &mut Vec<Vec<u8>>,
    tokens: &mut Vec<Token>,
    word_to_line: &mut Vec<usize>,
    tokeniser: &mut Tokeniser,
)
    requires
        old(tokeniser).wf(),
        tokens_in(old(tokeniser)@, old(words)@, old(tokens)@),
        old(word_to_line)@.len() == old(words)@.len(),
        forall|w: int| 0 <= w < old(words)@.len() ==> (#[trigger] old(words)@[w])@.len() > 0,
    ensures
        final(tokeniser).wf(),
        extends(old(tokeniser)@, final(tokeniser)@),
        final(tokeniser)@ == intern_all(old(tokeniser)@, words_of(line@)),
        tokens_in(final(tokeniser)@, final(words)@, final(tokens)@),
        views(final(words)@) == views(old(words)@) + words_of(line@),
        final(word_to_line)@.len() == final(words)@.len(),
        final(words)@.len() >= old(words)@.len(),
        forall|w: int| 0 <= w < old(words)@.len() ==> #[trigger] final(word_to_line)@[w] == old(word_to_line)@[w],
        forall|w: int|
            old(words)@.len() <= w < final(words)@.len() ==> #[trigger] final(word_to_line)@[w] == lineno,
        forall|w: int| 0 <= w < final(words)@.len() ==> (#[trigger] final(words)@[w])@.len() > 0,
{
    let spans = find_matches(WORD_PATTERN, line);
    let ghost start = views(words@);
    let ghost table = tokeniser@;
    let ghost count = words@.len();
    let mut k: usize = 0;
    proof {
        assert(spans@.take(0) =~= Seq::<(usize, usize)>::empty());
        assert(start + cut(line@, spans@.take(0)) =~= start);
    }
    while k < spans.len()
        invariant
            k <= spans@.len(),
            spans@ == pattern_matches(WORD_PATTERN@, line@),
            tokeniser.wf(),
            extends(table, tokeniser@),
            tokeniser@ == intern_all(table, cut(line@, spans@.take(k as int))),
            tokens_in(tokeniser@, words@, tokens@),
            views(words@) == start + cut(line@, spans@.take(k as int)),
            start.len() == count,
            word_to_line@.len() == words@.len(),
            words@.len() >= count,
            count == old(words)@.len(),
            forall|w: int| 0 <= w < count ==> #[trigger] word_to_line@[w] == old(word_to_line)@[w],
            forall|w: int| count <= w < words@.len() ==> #[trigger] word_to_line@[w] == lineno,
            forall|w: int| 0 <= w < words@.len() ==> (#[trigger] words@[w])@.len() > 0,
        decreases spans@.len() - k,
    {
        let (from, to) = spans[k];
        proof {
            assert(spans@.take(k + 1).drop_last() =~= spans@.take(k as int));
            assert(spans@.take(k + 1).last() == spans@[k as int]);
        }
        if from < to && to <= line.len() {
            let word = copy_range(line, from, to);
            let ghost before = tokeniser@;
            let ghost words_before = words@;
            let ghost tokens_before = tokens@;
            let ghost done = cut(line@, spans@.take(k as int));
            let token = tokeniser.map(word.as_slice());
            proof {
                lemma_tokens_stay(before, tokeniser@, words_before, tokens_before);
                lemma_extends_trans(table, before, tokeniser@);
            }
            let ghost views_before = views(words@);
            words.push(word);
            tokens.push(token);
            word_to_line.push(lineno);
            proof {
                let w = line@.subrange(from as int, to as int);
                assert(cut(line@, spans@.take(k + 1)) == done.push(w));
                assert(views(words@) =~= views_before.push(w));
                assert(views(words@) =~= start + done.push(w));
                assert(done.push(w).drop_last() =~= done);
                assert(intern_all(table, done.push(w)) == intern(intern_all(table, done), w));
            }
        }
        k += 1;
    }
    proof {
        assert(spans@.take(k as int) =~= spans@);
    }
}

/// The words and the two indices of the first `n` lines of `lines` agree: every
/// word lies on the line that holds it, the lines begin in order, and each line
/// holds its words.
pub open spec fn built(
    words: Seq<Vec<u8>>,
    word_to_line: Seq<usize>,
    line_to_word: Seq<usize>,
    lines: Seq<Vec<u8>>,
    n: int,
) -> bool {
    &&& word_to_line.len() == words.len()
    &&& line_to_word.len() == n
    &&& n > 0 ==> line_to_word[0] == 0
    &&& n == 0 ==> words.len() == 0
    &&& forall|l: int| 0 <= l < n ==> #[trigger] line_to_word[l] <= words.len()
    &&& forall|l: int, m: int| 0 <= l <= m < n ==> #[trigger] line_to_word[l] <= #[trigger] line_to_word[m]
    &&& forall|w: int|
        0 <= w < words.len() ==> {
            let l = #[trigger] word_to_line[w];
            &&& l < n
            &&& line_to_word[l as int] <= w
            &&& l + 1 < n ==> w < line_to_word[l + 1]
        }
    &&& forall|w: int| 0 <= w < words.len() ==> (#[trigger] words[w])@.len() > 0
    &&& forall|l: int|
        0 <= l < n ==> views(words).subrange(
            #[trigger] line_to_word[l] as int,
            if l + 1 < n {
                line_to_word[l + 1] as int
            } else {
                words.len() as int
            },
        ) == words_of(lines[l]@)
}

/// Every token of the first `n` lines is the place of its line in `table`.
pub open spec fn line_tokens_in(table: Seq<Seq<u8>>, lines: Seq<Vec<u8>>, line_tokens: Seq<Token>, n: int) -> bool {
    &&& line_tokens.len() == n
    &&& forall|l: int|
        0 <= l < n ==> (#[trigger] line_tokens[l]).0 < table.len() && table[line_tokens[l].0 as int]
            == lines[l]@
}

/// What is built of `n` lines is built of one line more once the words of line
/// `n` are appended, each with its line, and the line begins where they begin.
#[verifier::spinoff_prover]
pub proof fn lemma_built_next(
    w0: Seq<Vec<u8>>,
    wtl0: Seq<usize>,
    ltw0: Seq<usize>,
    w1: Seq<Vec<u8>>,
    wtl1: Seq<usize>,
    ltw1: Seq<usize>,
    lines: Seq<Vec<u8>>,
    n: int,
)
    requires
        0 <= n < lines.len(),
        n < usize::MAX,
        w0.len() <= usize::MAX,
        built(w0, wtl0, ltw0, lines, n),
        ltw1 == ltw0.push(w0.len() as usize),
        views(w1) == views(w0) + words_of(lines[n]@),
        wtl1.len() == w1.len(),
        forall|w: int| 0 <= w < w0.len() ==> #[trigger] wtl1[w] == wtl0[w],
        forall|w: int| w0.len() <= w < w1.len() ==> #[trigger] wtl1[w] == n,
        forall|w: int| 0 <= w < w1.len() ==> (#[trigger] w1[w])@.len() > 0,
    ensures
        built(w1, wtl1, ltw1, lines, n + 1),
{
    let m = n + 1;
    let old_len = w0.len() as int;
    assert(views(w1).len() == views(w0).len() + words_of(lines[n]@).len());
    assert(w1.len() >= w0.len());
    assert forall|l: int| 0 <= l < m implies #[trigger] ltw1[l] <= w1.len() by {
        if l < n {
            assert(ltw1[l] == ltw0[l]);
        }
    }
    assert forall|l: int, k: int| 0 <= l <= k < m implies #[trigger] ltw1[l] <= #[trigger] ltw1[k] by {
        if k < n {
            assert(ltw1[l] == ltw0[l]);
            assert(ltw1[k] == ltw0[k]);
        } else if l < n {
            assert(ltw1[l] == ltw0[l]);
        }
    }
    assert forall|w: int| 0 <= w < w1.len() implies {
        let l = #[trigger] wtl1[w];
        &&& l < m
        &&& ltw1[l as int] <= w
        &&& l + 1 < m ==> w < ltw1[l + 1]
    } by {
        if w < old_len {
            assert(wtl1[w] == wtl0[w]);
            let l = wtl0[w];
            assert(ltw1[l as int] == ltw0[l as int]);
            if l + 1 < n {
                assert(ltw1[l + 1] == ltw0[l + 1]);
            }
        }
    }
    assert forall|l: int| 0 <= l < m implies views(w1).subrange(
        #[trigger] ltw1[l] as int,
        if l + 1 < m {
            ltw1[l + 1] as int
        } else {
            w1.len() as int
        },
    ) == words_of(lines[l]@) by {
        if l < n {
            let hi = if l + 1 < n {
                ltw0[l + 1] as int
            } else {
                old_len
            };
            assert(ltw1[l] == ltw0[l]);
            if l + 1 < n {
                assert(ltw1[l + 1] == ltw0[l + 1]);
            }
            assert(ltw0[l] <= old_len);
            assert(views(w1).subrange(ltw0[l] as int, hi) =~= views(w0).subrange(ltw0[l] as int, hi));
        } else {
            assert(views(w1).subrange(old_len, w1.len() as int) =~= words_of(lines[n]@));
        }
    }
    if n > 0 {
        assert(ltw1[0] == ltw0[0]);
    }
}

/// Takes in line `lineno` of `lines`: its words, their tokens, and its own token.
#[verifier::spinoff_prover]
fn add_line(
    lines: &Vec<Vec<u8>>,
    lineno: usize,
    words: &mut Vec<Vec<u8>>,
    tokens: &mut Vec<Token>,
    line_tokens: &mut Vec<Token>,
    word_to_line: &mut Vec<usize>,
    line_to_word: &mut Vec<usize>,
    tokeniser: &mut Tokeniser,
)
    requires
        lineno < lines@.len(),
        old(tokeniser).wf(),
        built(old(words)@, old(word_to_line)@, old(line_to_word)@, lines@, lineno as int),
        tokens_in(old(tokeniser)@, old(words)@, old(tokens)@),
        line_tokens_in(old(tokeniser)@, lines@, old(line_tokens)@, lineno as int),
    ensures
        final(tokeniser).wf(),
        extends(old(tokeniser)@, final(tokeniser)@),
        final(tokeniser)@ == intern_all(old(tokeniser)@, words_of(lines@[lineno as int]@).push(lines@[lineno as int]@)),
        built(final(words)@, final(word_to_line)@, final(line_to_word)@, lines@, lineno + 1),
        tokens_in(final(tokeniser)@, final(words)@, final(tokens)@),
        line_tokens_in(final(tokeniser)@, lines@, final(line_tokens)@, lineno + 1),
{
    let total = lines.len();
    let line = lines[lineno].as_slice();
    let oldlen = words.len();
    let ghost w0 = words@;
    let ghost ltw0 = line_to_word@;
    let ghost wtl0 = word_to_line@;
    let ghost lt_before = line_tokens@;
    let ghost table0 = tokeniser@;
    line_to_word.push(oldlen);
    push_words(line, lineno, words, tokens, word_to_line, tokeniser);
    let ghost table1 = tokeniser@;
    let ghost words_mid = words@;
    let ghost tokens_mid = tokens@;
    let line_token = tokeniser.map(line);
    line_tokens.push(line_token);
    proof {
        lemma_tokens_stay(table1, tokeniser@, words_mid, tokens_mid);
        lemma_extends_trans(table0, table1, tokeniser@);
        let added = words_of(line@).push(line@);
        assert(added.drop_last() =~= words_of(line@));
        assert(intern_all(table0, added) == intern(intern_all(table0, words_of(line@)), line@));
        assert forall|l: int| 0 <= l < lineno + 1 implies (#[trigger] line_tokens@[l]).0 < tokeniser@.len()
            && tokeniser@[line_tokens@[l].0 as int] == lines@[l]@ by {
            if l < lineno {
                assert(line_tokens@[l] == lt_before[l]);
                assert(table0[lt_before[l].0 as int] == lines@[l]@);
            }
        }
        lemma_built_next(w0, wtl0, ltw0, words@, word_to_line@, line_to_word@, lines@, lineno as int);
    }
}

/// The words of `lines`, tokenised with `tokeniser`.
fn build_side(lines: &Vec<Vec<u8>>, tokeniser: &mut Tokeniser) -> (side: Side)
    requires
        old(tokeniser).wf(),
    ensures
        final(tokeniser).wf(),
        extends(old(tokeniser)@, final(tokeniser)@),
        final(tokeniser)@ == intern_all(old(tokeniser)@, requests(views(lines@))),
        side.wf(),
        side.nlines() == lines@.len(),
        forall|l: int| 0 <= l < side.nlines() ==> #[trigger] side.line_words(l) == words_of(lines@[l]@),
        forall|w: int|
            0 <= w < side.nwords() ==> (#[trigger] side.tokens@[w]).0 < final(tokeniser)@.len()
                && final(tokeniser)@[side.tokens@[w].0 as int] == side.words@[w]@,
        forall|l: int|
            0 <= l < side.nlines() ==> (#[trigger] side.line_tokens@[l]).0 < final(tokeniser)@.len()
                && final(tokeniser)@[side.line_tokens@[l].0 as int] == lines@[l]@,
{
    let mut words: Vec<Vec<u8>> = Vec::new();
    let mut tokens: Vec<Token> = Vec::new();
    let mut line_tokens: Vec<Token> = Vec::new();
    let mut word_to_line: Vec<usize> = Vec::new();
    let mut line_to_word: Vec<usize> = Vec::new();
    let mut lineno: usize = 0;
    proof {
        assert(views(lines@).take(0) =~= Seq::<Seq<u8>>::empty());
    }
    while lineno < lines.len()
        invariant
            lineno <= lines@.len(),
            tokeniser.wf(),
            extends(old(tokeniser)@, tokeniser@),
            tokeniser@ == intern_all(old(tokeniser)@, requests(views(lines@).take(lineno as int))),
            built(words@, word_to_line@, line_to_word@, lines@, lineno as int),
            tokens_in(tokeniser@, words@, tokens@),
            line_tokens_in(tokeniser@, lines@, line_tokens@, lineno as int),
        decreases lines@.len() - lineno,
    {
        let ghost table0 = tokeniser@;
        let ghost reqs = requests(views(lines@).take(lineno as int));
        add_line(
            lines,
            lineno,
            &mut words,
            &mut tokens,
            &mut line_tokens,
            &mut word_to_line,
            &mut line_to_word,
            tokeniser,
        );
        proof {
            let line = lines@[lineno as int]@;
            lemma_extends_trans(old(tokeniser)@, table0, tokeniser@);
            let taken = views(lines@).take(lineno + 1);
            assert(taken.drop_last() =~= views(lines@).take(lineno as int));
            assert(taken.last() == line);
            let added = words_of(line).push(line);
            assert(requests(taken) == reqs + added);
            lemma_intern_all_concat(old(tokeniser)@, reqs, added);
        }
        lineno += 1;
    }
    let ghost ltw_before = line_to_word@;
    let ghost wtl_before = word_to_line@;
    word_to_line.push(lineno);
    line_to_word.push(words.len());
    let side = Side { words, tokens, line_tokens, word_to_line, line_to_word };
    proof {
        assert(views(lines@).take(lineno as int) =~= views(lines@));
        let n = lineno as int;
        assert forall|l: int, m: int| 0 <= l <= m <= side.nlines() implies #[trigger] side.line_to_word@[l]
            <= #[trigger] side.line_to_word@[m] by {
            if m < n {
                assert(side.line_to_word@[l] == ltw_before[l]);
                assert(side.line_to_word@[m] == ltw_before[m]);
            } else if l < n {
                assert(side.line_to_word@[l] == ltw_before[l]);
            }
        }
        assert forall|w: int| 0 <= w < side.nwords() implies {
            let l = #[trigger] side.word_to_line@[w];
            &&& l < side.nlines()
            &&& side.line_to_word@[l as int] <= w < side.line_to_word@[l + 1]
        } by {
            assert(side.word_to_line@[w] == wtl_before[w]);
            let l = wtl_before[w];
            assert(side.line_to_word@[l as int] == ltw_before[l as int]);
            if l + 1 < n {
                assert(side.line_to_word@[l + 1] == ltw_before[l + 1]);
            }
        }
        assert forall|l: int| 0 <= l < side.nlines() implies #[trigger] side.line_words(l) == words_of(
            lines@[l]@,
        ) by {
            assert(side.line_to_word@[l] == ltw_before[l]);
            if l + 1 < n {
                assert(side.line_to_word@[l + 1] == ltw_before[l + 1]);
            }
        }
        if n > 0 {
            assert(side.line_to_word@[0] == ltw_before[0]);
        }
    }
    side
}

/// The words of both sides of a hunk, with the indices that the differs and the
/// parts read.
#[derive(Debug)]
pub struct BlockMaker {
    /// The number of the first line of each side.
    pub line_numbers: Pair<usize>,
    pub sides: Pair<Side>,
    /// A bound above every token of either side.
    pub max_token: usize,
}

impl BlockMaker {
    /// Side `i`: the left one for 0, the right one otherwise.
    pub open spec fn side(&self, i: int) -> Side {
        self.sides.side(i)
    }

    /// The number of words of side `i`.
    pub open spec fn nwords(&self, i: int) -> int {
        self.side(i).nwords()
    }

    /// The number of lines of side `i`.
    pub open spec fn nlines(&self, i: int) -> int {
        self.side(i).nlines()
    }

    /// The token of word `w` of side `i`.
    pub open spec fn tok(&self, i: int, w: int) -> Token {
        self.side(i).tokens@[w]
    }

    /// Word `w` of side `i`.
    pub open spec fn word(&self, i: int, w: int) -> Seq<u8> {
        self.side(i).words@[w]@
    }

    /// The index of the line of word `w` of side `i`.
    pub open spec fn line_of(&self, i: int, w: int) -> int {
        self.side(i).word_to_line@[w] as int
    }

    /// The index of the first word of line `l` of side `i`; the number of words for a
    /// line past the last.
    pub open spec fn line_start(&self, i: int, l: int) -> int {
        if 0 <= l <= self.nlines(i) {
            self.side(i).line_to_word@[l] as int
        } else {
            self.nwords(i)
        }
    }

    /// Equal words have equal tokens and the other way round, within a side and
    /// across the two.
    #[verifier::opaque]
    pub open spec fn tokens_agree(&self, s: int, t: int) -> bool {
        forall|a: int, b: int|
            0 <= a < self.nwords(s) && 0 <= b < self.nwords(t) ==> ((#[trigger] self.tok(s, a)
                == #[trigger] self.tok(t, b)) <==> self.word(s, a) == self.word(t, b))
    }

    /// Lines with equal tokens hold the same words.
    #[verifier::opaque]
    pub open spec fn lines_agree(&self, s: int, t: int) -> bool {
        forall|l: int, m: int|
            0 <= l < self.nlines(s) && 0 <= m < self.nlines(t) && #[trigger] self.side(
                s,
            ).line_tokens@[l] == #[trigger] self.side(t).line_tokens@[m] ==> self.side(s).line_words(l)
                == self.side(t).line_words(m)
    }

    /// A token is reserved exactly where the word is the reserved word.
    #[verifier::opaque]
    pub open spec fn reserved_agree(&self, s: int) -> bool {
        forall|a: int|
            0 <= a < self.nwords(s) ==> {
                let t = #[trigger] self.tok(s, a);
                &&& t.0 < self.max_token
                &&& t.0 < 5 ==> self.word(s, a) == reserved_word(t.0 as int)
                &&& forall|k: int| 0 <= k < 5 && self.word(s, a) == reserved_word(k) ==> t.0 == k
            }
    }

    /// Both sides are sound, their tokens and lines agree, and the line numbers fit.
    pub open spec fn wf(&self) -> bool {
        &&& self.sides.left.wf()
        &&& self.sides.right.wf()
        &&& self.line_numbers.left + self.sides.left.nlines() <= usize::MAX
        &&& self.line_numbers.right + self.sides.right.nlines() <= usize::MAX
        &&& self.tokens_agree(0, 0)
        &&& self.tokens_agree(0, 1)
        &&& self.tokens_agree(1, 1)
        &&& self.lines_agree(0, 1)
        &&& self.reserved_agree(0)
        &&& self.reserved_agree(1)
        &&& forall|l: int|
            0 <= l < self.sides.left.nlines() ==> (#[trigger] self.sides.left.line_tokens@[l]).0
                < self.max_token
        &&& forall|l: int|
            0 <= l < self.sides.right.nlines() ==> (#[trigger] self.sides.right.line_tokens@[l]).0
                < self.max_token
    }

    /// Newline tokens delimit the lines of both sides.
    pub open spec fn line_delimited(&self) -> bool {
        &&& self.sides.left.line_delimited()
        &&& self.sides.right.line_delimited()
    }

    /// The maker holds the lines `left` and `right`, cut into words, with the token
    /// that `table` has for each word and for each line, and numbers its lines from
    /// `first_left` and `first_right`.
    pub open spec fn made_of(
        &self,
        left: Seq<Seq<u8>>,
        right: Seq<Seq<u8>>,
        first_left: int,
        first_right: int,
        table: Seq<Seq<u8>>,
    ) -> bool {
        let lines = seq![left, right];
        &&& self.wf()
        &&& self.line_numbers.left == first_left
        &&& self.line_numbers.right == first_right
        &&& self.max_token == table.len()
        &&& forall|i: int| 0 <= i < 2 ==> self.nlines(i) == (#[trigger] lines[i]).len()
        &&& forall|i: int, l: int|
            0 <= i < 2 && 0 <= l < self.nlines(i) ==> {
                &&& #[trigger] self.side(i).line_words(l) == words_of(lines[i][l])
                &&& table[self.side(i).line_tokens@[l].0 as int] == lines[i][l]
            }
        &&& forall|i: int, w: int|
            0 <= i < 2 && 0 <= w < self.nwords(i) ==> table[(#[trigger] self.tok(i, w)).0 as int]
                == self.word(i, w)
    }

    /// Tokenises the lines of `hunk`, interning every word and then every line, the
    /// left side first.
    pub fn new(hunk: &Hunk, line_numbers: [usize; 2], tokeniser: &mut Tokeniser) -> (r: BlockMaker)
        requires
            old(tokeniser).wf(),
            line_numbers[0] + hunk.left@.len() <= usize::MAX,
            line_numbers[1] + hunk.right@.len() <= usize::MAX,
        ensures
            r.made_of(
                hunk.lines(0),
                hunk.lines(1),
                line_numbers[0] as int,
                line_numbers[1] as int,
                final(tokeniser)@,
            ),
            final(tokeniser).wf(),
            extends(old(tokeniser)@, final(tokeniser)@),
            final(tokeniser)@ == intern_all(
                intern_all(old(tokeniser)@, requests(hunk.lines(0))),
                requests(hunk.lines(1)),
            ),
            hunk.lines(0) == hunk.lines(1) ==> r.side(0).line_tokens@ == r.side(1).line_tokens@,
    {
        let left = build_side(&hunk.left, tokeniser);
        let ghost mid = tokeniser@;
        let right = build_side(&hunk.right, tokeniser);
        let max_token = tokeniser.max_token().0;
        let r = BlockMaker {
            line_numbers: Pair { left: line_numbers[0], right: line_numbers[1] },
            sides: Pair { left, right },
            max_token,
        };
        proof {
            reveal(BlockMaker::tokens_agree);
            reveal(BlockMaker::lines_agree);
            reveal(BlockMaker::reserved_agree);
            let table = tokeniser@;
            assert(r.side(0) == r.sides.left);
            assert(r.side(1) == r.sides.right);
            assert forall|i: int, w: int| 0 <= i < 2 && 0 <= w < r.nwords(i) implies (#[trigger] r.tok(
                i,
                w,
            )).0 < table.len() && table[r.tok(i, w).0 as int] == r.word(i, w) by {
                if i == 0 {
                    assert(mid[r.tok(0, w).0 as int] == r.word(0, w));
                }
            }
            assert forall|i: int, l: int| 0 <= i < 2 && 0 <= l < r.nlines(i) implies (#[trigger] r.side(
                i,
            ).line_tokens@[l]).0 < table.len() && table[r.side(i).line_tokens@[l].0 as int]
                == hunk.lines(i)[l] by {
                if i == 0 {
                    assert(mid[r.side(0).line_tokens@[l].0 as int] == hunk.left@[l]@);
                }
            }
            assert forall|s: int, t: int| 0 <= s < 2 && 0 <= t < 2 implies r.tokens_agree(s, t) by {
                assert forall|a: int, b: int| 0 <= a < r.nwords(s) && 0 <= b < r.nwords(t) implies ((
                #[trigger] r.tok(s, a) == #[trigger] r.tok(t, b)) <==> r.word(s, a) == r.word(t, b)) by {
                    assert(table[r.tok(s, a).0 as int] == r.word(s, a));
                    assert(table[r.tok(t, b).0 as int] == r.word(t, b));
                }
            }
            assert(r.lines_agree(0, 1)) by {
                assert forall|l: int, m: int|
                    0 <= l < r.nlines(0) && 0 <= m < r.nlines(1) && #[trigger] r.side(0).line_tokens@[l]
                        == #[trigger] r.side(1).line_tokens@[m] implies r.side(0).line_words(l) == r.side(
                    1,
                ).line_words(m) by {
                    assert(table[r.side(0).line_tokens@[l].0 as int] == hunk.lines(0)[l]);
                    assert(table[r.side(1).line_tokens@[m].0 as int] == hunk.lines(1)[m]);
                }
            }
            if hunk.lines(0) == hunk.lines(1) {
                assert forall|l: int| 0 <= l < r.nlines(0) implies #[trigger] r.side(0).line_tokens@[l]
                    == r.side(1).line_tokens@[l] by {
                    assert(table[r.side(0).line_tokens@[l].0 as int] == hunk.lines(0)[l]);
                    assert(table[r.side(1).line_tokens@[l].0 as int] == hunk.lines(1)[l]);
                }
                assert(r.side(0).line_tokens@ =~= r.side(1).line_tokens@);
            }
            assert forall|s: int| 0 <= s < 2 implies r.reserved_agree(s) by {
                assert forall|a: int| 0 <= a < r.nwords(s) implies {
                    let t = #[trigger] r.tok(s, a);
                    &&& t.0 < r.max_token
                    &&& t.0 < 5 ==> r.word(s, a) == reserved_word(t.0 as int)
                    &&& forall|k: int| 0 <= k < 5 && r.word(s, a) == reserved_word(k) ==> t.0 == k
                } by {
                    let t = r.tok(s, a);
                    assert(table[t.0 as int] == r.word(s, a));
                    assert forall|k: int| 0 <= k < 5 && r.word(s, a) == reserved_word(k) implies t.0
                        == k by {
                        assert(table[k] == reserved_word(k));
                    }
                }
            }
        }
        r
    }

    /// The number of words of side `i`.
    pub fn word_count(&self, i: usize) -> (r: usize)
        requires
            self.wf(),
        ensures
            r == self.nwords(i as int),
    {
        self.sides.index(i).words.len()
    }

    /// The number of lines of side `i`.
    pub fn line_count(&self, i: usize) -> (r: usize)
        requires
            self.wf(),
        ensures
            r == self.nlines(i as int),
    {
        self.sides.index(i).line_tokens.len()
    }

    /// The index of the line of word `wordno`; the number of lines for the place
    /// past the last word.
    pub fn line_index(&self, i: usize, wordno: usize) -> (r: usize)
        requires
            self.wf(),
            wordno <= self.nwords(i as int),
        ensures
            r == self.line_of(i as int, wordno as int),
            r <= self.nlines(i as int),
            r < usize::MAX,
            wordno < self.nwords(i as int) ==> r < self.nlines(i as int) && self.line_start(
                i as int,
                r as int,
            ) <= wordno < self.line_start(i as int, r + 1),
    {
        let side = self.sides.index(i);
        assert(side.line_to_word@.len() == side.nlines() + 1);
        let bound = side.line_to_word.len();
        side.word_to_line[wordno]
    }

    /// The index of the first word of the line with index `line`; the number of
    /// words for a line past the last.
    pub fn first_word(&self, i: usize, line: usize) -> (r: usize)
        requires
            self.wf(),
        ensures
            r == self.line_start(i as int, line as int),
            r <= self.nwords(i as int),
    {
        let side = self.sides.index(i);
        if line < side.line_to_word.len() {
            proof {
                self.lemma_line_starts(i as int, line as int, side.nlines());
            }
            side.line_to_word[line]
        } else {
            side.words.len()
        }
    }

    /// The first words of the lines come in order.
    pub proof fn lemma_line_order(&self, i: int, l: int, m: int)
        requires
            self.wf(),
            0 <= l <= m <= self.nlines(i),
        ensures
            self.line_start(i, l) <= self.line_start(i, m),
    {
        assert(self.side(i).wf());
    }

    /// The first words of the lines come in order, from no word to the number of words.
    pub proof fn lemma_line_starts(&self, i: int, l: int, m: int)
        requires
            self.wf(),
            0 <= l <= m <= self.nlines(i),
        ensures
            0 <= self.line_start(i, l) <= self.line_start(i, m) <= self.nwords(i),
    {
        self.lemma_line_order(i, l, m);
        self.lemma_line_order(i, m, self.nlines(i));
    }

    /// Later words lie on later lines, or on the same.
    pub proof fn lemma_line_monotone(&self, i: int, v: int, w: int)
        requires
            self.wf(),
            0 <= v <= w <= self.nwords(i),
        ensures
            0 <= self.line_of(i, v) <= self.line_of(i, w) <= self.nlines(i),
    {
        let side = self.side(i);
        assert(side.wf());
        if w < self.nwords(i) {
            let l1 = self.line_of(i, v);
            let l2 = self.line_of(i, w);
            assert(side.line_to_word@[l1] <= v);
            assert(w < side.line_to_word@[l2 + 1]);
            if l1 > l2 {
                self.lemma_line_order(i, l2 + 1, l1);
            }
        } else if v < self.nwords(i) {
            let l1 = side.word_to_line@[v];
            assert(l1 < side.nlines());
        }
    }

    /// A word lies on the one line that begins no later and ends later than it.
    pub proof fn lemma_line_unique(&self, i: int, w: int, l: int)
        requires
            self.wf(),
            0 <= l < self.nlines(i),
            self.line_start(i, l) <= w < self.line_start(i, l + 1),
        ensures
            self.line_of(i, w) == l,
    {
        let side = self.side(i);
        assert(side.wf());
        self.lemma_line_starts(i, l + 1, self.nlines(i));
        let k = self.line_of(i, w);
        assert(side.line_to_word@[k] <= w < side.line_to_word@[k + 1]);
        if k < l {
            self.lemma_line_order(i, k + 1, l);
        } else if k > l {
            self.lemma_line_order(i, l + 1, k);
        }
    }

    /// Where newlines delimit the lines, no word from `w` to the last but one of
    /// its line is a newline, and a line that does not end in one is the last.
    pub proof fn lemma_line_end(&self, i: int, w: int)
        requires
            self.wf(),
            self.line_delimited(),
            0 <= w < self.nwords(i),
        ensures
            ({
                let e = self.line_start(i, self.line_of(i, w) + 1);
                &&& w < e <= self.nwords(i)
                &&& forall|x: int| w <= x < e - 1 ==> !(#[trigger] self.tok(i, x)).is_newline()
                &&& !self.tok(i, e - 1).is_newline() ==> e == self.nwords(i)
            }),
    {
        let side = self.side(i);
        assert(side.wf());
        assert(side.line_delimited());
        let l = self.line_of(i, w);
        assert(side.line_to_word@[l] <= w < side.line_to_word@[l + 1]);
        let e = self.line_start(i, l + 1);
        self.lemma_line_starts(i, l + 1, self.nlines(i));
        assert forall|x: int| w <= x < e - 1 implies !(#[trigger] self.tok(i, x)).is_newline() by {
            if self.tok(i, x).is_newline() {
                self.lemma_line_unique(i, x, l);
                assert(side.tokens@[x].is_newline());
                assert(x + 1 == side.line_to_word@[side.word_to_line@[x] + 1]);
            }
        }
        if l < self.nlines(i) - 1 {
            assert(side.ends_in_newline(l));
        }
    }

    /// Where newlines delimit the lines, no word from the first of the line of `w`
    /// to `w` is a newline, and the word before that first word is one.
    pub proof fn lemma_line_begin(&self, i: int, w: int)
        requires
            self.wf(),
            self.line_delimited(),
            0 <= w < self.nwords(i),
        ensures
            ({
                let b = self.line_start(i, self.line_of(i, w));
                &&& 0 <= b <= w
                &&& forall|x: int| b <= x < w ==> !(#[trigger] self.tok(i, x)).is_newline()
                &&& b > 0 ==> self.tok(i, b - 1).is_newline()
            }),
    {
        let side = self.side(i);
        assert(side.wf());
        assert(side.line_delimited());
        let l = self.line_of(i, w);
        assert(side.line_to_word@[l] <= w < side.line_to_word@[l + 1]);
        let b = self.line_start(i, l);
        assert forall|x: int| b <= x < w implies !(#[trigger] self.tok(i, x)).is_newline() by {
            if self.tok(i, x).is_newline() {
                self.lemma_line_unique(i, x, l);
                assert(side.tokens@[x].is_newline());
                assert(x + 1 == side.line_to_word@[side.word_to_line@[x] + 1]);
            }
        }
        if b > 0 {
            assert(l >= 1);
            assert(side.ends_in_newline(l - 1));
        }
    }

    /// Where newlines delimit the lines, the word after a newline lies on the next
    /// line, and the word after any other word on the same line.
    pub proof fn lemma_next_line(&self, i: int, w: int)
        requires
            self.wf(),
            self.line_delimited(),
            0 <= w,
            w + 1 < self.nwords(i),
        ensures
            self.line_of(i, w + 1) == self.line_of(i, w) + if self.tok(i, w).is_newline() {
                1int
            } else {
                0int
            },
            self.line_of(i, w + 1) < self.nlines(i),
    {
        let side = self.side(i);
        assert(side.wf());
        assert(side.line_delimited());
        let l = self.line_of(i, w);
        let e = self.line_start(i, l + 1);
        self.lemma_line_end(i, w);
        self.lemma_line_starts(i, l + 1, self.nlines(i));
        if self.tok(i, w).is_newline() {
            assert(w == e - 1);
            assert(l + 1 < self.nlines(i));
            if l + 1 < self.nlines(i) - 1 {
                assert(side.ends_in_newline(l + 1));
            }
            self.lemma_line_unique(i, w + 1, l + 1);
        } else {
            assert(w + 1 < e);
            self.lemma_line_unique(i, w + 1, l);
        }
    }

    /// The newline token is the token of the newline word and of no other.
    pub proof fn lemma_newline_token(&self, i: int, w: int)
        requires
            self.wf(),
            0 <= w < self.nwords(i),
        ensures
            self.tok(i, w).is_newline() <==> self.word(i, w) == seq![10u8],
    {
        let j: int = if i == 0 {
            0
        } else {
            1
        };
        reveal(BlockMaker::reserved_agree);
        assert(self.side(i) == self.side(j));
        assert(self.reserved_agree(j));
        let t = self.tok(j, w);
        assert(reserved_word(0) == seq![10u8]);
        if self.word(j, w) == seq![10u8] {
            assert(self.word(j, w) == reserved_word(0));
        }
    }

    /// The number of the line of word `wordno`.
    pub fn get_lineno(&self, i: usize, wordno: usize) -> (r: usize)
        requires
            self.wf(),
            wordno <= self.nwords(i as int),
        ensures
            r == self.line_of(i as int, wordno as int) + self.line_numbers.side(i as int),
    {
        self.line_index(i, wordno) + *self.line_numbers.index(i)
    }

    /// The index of the first word of the line with number `lineno`.
    pub fn get_wordno(&self, i: usize, lineno: usize) -> (r: usize)
        requires
            self.wf(),
            self.line_numbers.side(i as int) <= lineno <= self.line_numbers.side(i as int)
                + self.nlines(i as int),
        ensures
            r == self.line_start(i as int, lineno - self.line_numbers.side(i as int)),
    {
        self.first_word(i, lineno - *self.line_numbers.index(i))
    }

    /// The part with the given flag over the words `left` and `right`.
    pub fn make_part(&self, matches: bool, left: Span, right: Span) -> (r: Part<'_>)
        ensures
            *r.parent == *self,
            r.matches == matches,
            r.slices.left == left,
            r.slices.right == right,
    {
        Part { parent: self, matches, slices: Pair { left, right } }
    }

    /// Whether newline tokens delimit the lines of both sides.
    pub fn is_line_delimited(&self) -> (r: bool)
        requires
            self.wf(),
        ensures
            r == self.line_delimited(),
    {
        side_is_delimited(&self.sides.left) && side_is_delimited(&self.sides.right)
    }

    /// The lines of a run of lines with equal tokens hold the same words on both sides.
    pub proof fn lemma_lines_same_words(&self, i: int, j: int, k: int)
        requires
            self.wf(),
            common_run(
                self.side(0).line_tokens@,
                self.side(1).line_tokens@,
                0,
                self.nlines(0),
                0,
                self.nlines(1),
                i,
                j,
                k,
            ),
        ensures
            self.line_start(0, i) <= self.line_start(0, i + k) <= self.nwords(0),
            self.line_start(1, j) <= self.line_start(1, j + k) <= self.nwords(1),
            self.side(0).word_seq().subrange(self.line_start(0, i), self.line_start(0, i + k))
                == self.side(1).word_seq().subrange(self.line_start(1, j), self.line_start(1, j + k)),
        decreases k,
    {
        self.lemma_line_starts(0, i, i + k);
        self.lemma_line_starts(1, j, j + k);
        let w0 = self.side(0).word_seq();
        let w1 = self.side(1).word_seq();
        if k > 0 {
            assert forall|t: int| 0 <= t < k - 1 implies #[trigger] self.side(0).line_tokens@[i + t]
                == self.side(1).line_tokens@[j + t] by {}
            self.lemma_lines_same_words(i, j, k - 1);
            self.lemma_line_starts(0, i + k - 1, i + k);
            self.lemma_line_starts(1, j + k - 1, j + k);
            assert(self.side(0).line_tokens@[i + (k - 1)] == self.side(1).line_tokens@[j + (k - 1)]);
            reveal(BlockMaker::lines_agree);
            assert(self.lines_agree(0, 1));
            assert(self.side(0).line_words(i + k - 1) == self.side(1).line_words(j + k - 1));
            let a0 = self.line_start(0, i);
            let b0 = self.line_start(0, i + k - 1);
            let c0 = self.line_start(0, i + k);
            let a1 = self.line_start(1, j);
            let b1 = self.line_start(1, j + k - 1);
            let c1 = self.line_start(1, j + k);
            assert(w0.subrange(a0, c0) =~= w0.subrange(a0, b0) + w0.subrange(b0, c0));
            assert(w1.subrange(a1, c1) =~= w1.subrange(a1, b1) + w1.subrange(b1, c1));
            assert(w0.subrange(b0, c0) == self.side(0).line_words(i + k - 1));
            assert(w1.subrange(b1, c1) == self.side(1).line_words(j + k - 1));
        } else {
            assert(w0.subrange(self.line_start(0, i), self.line_start(0, i)) =~= w1.subrange(
                self.line_start(1, j),
                self.line_start(1, j),
            ));
        }
    }

    /// The first word from `from` on that is not white space alone, or `to` where
    /// there is none before it.
    pub open spec fn first_solid(&self, i: int, from: int, to: int) -> int
        decreases to - from,
    {
        if from >= to {
            to
        } else if !all_space(self.word(i, from)) {
            from
        } else {
            self.first_solid(i, from + 1, to)
        }
    }

    /// Where line `l` of side `i` begins once the white space before its first
    /// other word is left out; a line of white space alone begins where it begins.
    pub open spec fn trim_start(&self, i: int, l: int) -> int {
        let from = self.line_start(i, l);
        let to = self.line_start(i, l + 1);
        if self.first_solid(i, from, to) < to {
            self.first_solid(i, from, to)
        } else {
            from
        }
    }

    /// The words of line `l` of side `i` without the white space before the first
    /// other word.
    pub open spec fn trimmed(&self, i: int, l: int) -> Seq<Seq<u8>> {
        self.side(i).word_seq().subrange(self.trim_start(i, l), self.line_start(i, l + 1))
    }

    fn trimmed_start(&self, i: usize, line: usize) -> (r: usize)
        requires
            self.wf(),
            line < self.nlines(i as int),
        ensures
            r == self.trim_start(i as int, line as int),
            self.line_start(i as int, line as int) <= r <= self.line_start(i as int, line + 1),
    {
        let from = self.first_word(i, line);
        let to = self.first_word(i, line + 1);
        proof {
            self.lemma_line_starts(i as int, line as int, line + 1);
        }
        let words = &self.sides.index(i).words;
        let mut w: usize = from;
        while w < to
            invariant
                self.wf(),
                *words == self.side(i as int).words,
                from <= w <= to <= self.nwords(i as int),
                from == self.line_start(i as int, line as int),
                to == self.line_start(i as int, line + 1),
                self.first_solid(i as int, from as int, to as int) == self.first_solid(
                    i as int,
                    w as int,
                    to as int,
                ),
            decreases to - w,
        {
            if !words[w].is_ascii_whitespace() {
                return w;
            }
            w += 1;
        }
        from
    }

    /// Whether the words `from_i..to_i` of side `i` are the words `from_j..to_j` of side `j`.
    pub(crate) fn same_stretch(
        &self,
        i: usize,
        from_i: usize,
        to_i: usize,
        j: usize,
        from_j: usize,
        to_j: usize,
    ) -> (r: bool)
        requires
            self.wf(),
            from_i <= to_i <= self.nwords(i as int),
            from_j <= to_j <= self.nwords(j as int),
        ensures
            r == (self.side(i as int).word_seq().subrange(from_i as int, to_i as int) == self.side(
                j as int,
            ).word_seq().subrange(from_j as int, to_j as int)),
    {
        let ghost a = self.side(i as int).word_seq().subrange(from_i as int, to_i as int);
        let ghost b = self.side(j as int).word_seq().subrange(from_j as int, to_j as int);
        if to_i - from_i != to_j - from_j {
            assert(a.len() != b.len());
            return false;
        }
        let left = &self.sides.index(i).words;
        let right = &self.sides.index(j).words;
        let mut t: usize = 0;
        while t < to_i - from_i
            invariant
                self.wf(),
                *left == self.side(i as int).words,
                *right == self.side(j as int).words,
                from_i <= to_i <= self.nwords(i as int),
                from_j <= to_j <= self.nwords(j as int),
                to_i - from_i == to_j - from_j,
                t <= to_i - from_i,
                a == self.side(i as int).word_seq().subrange(from_i as int, to_i as int),
                b == self.side(j as int).word_seq().subrange(from_j as int, to_j as int),
                forall|x: int| 0 <= x < t ==> #[trigger] a[x] == b[x],
            decreases to_i - from_i - t,
        {
            if !bytes_eq(left[from_i + t].as_slice(), right[from_j + t].as_slice()) {
                assert(a[t as int] != b[t as int]);
                return false;
            }
            t += 1;
        }
        assert(a =~= b);
        true
    }

    fn same_trimmed(&self, i: usize, l: usize, j: usize, m: usize) -> (r: bool)
        requires
            self.wf(),
            l < self.nlines(i as int),
            m < self.nlines(j as int),
        ensures
            r == (self.trimmed(i as int, l as int) == self.trimmed(j as int, m as int)),
    {
        let from_i = self.trimmed_start(i, l);
        let to_i = self.first_word(i, l + 1);
        let from_j = self.trimmed_start(j, m);
        let to_j = self.first_word(j, m + 1);
        self.same_stretch(i, from_i, to_i, j, from_j, to_j)
    }

    /// Whether the lines of the left range are all one line but for the white space
    /// they begin with, and that line is also the line before the range on one
    /// side and the line after it on the other.
    pub open spec fn spec_reindented(&self, left: Span, right: Span) -> bool {
        let first = self.line_of(0, left.start as int);
        let past = self.line_of(0, left.end as int);
        let line = self.trimmed(0, first);
        &&& 1 <= first < self.nlines(0)
        &&& past < self.nlines(0)
        &&& 1 <= right.start
        &&& right.end < self.nwords(1)
        &&& forall|l: int| first < l < past ==> #[trigger] self.trimmed(0, l) == line
        &&& {
            ||| (self.trimmed(0, first - 1) == self.trimmed(1, self.line_of(1, right.end as int))
                && self.trimmed(0, first - 1) == line)
            ||| (self.trimmed(1, self.line_of(1, right.start - 1)) == self.trimmed(0, past)
                && self.trimmed(1, self.line_of(1, right.start - 1)) == line)
        }
    }

    /// Whether the run of equal lines over the words `left` and `right` is a line that
    /// was only indented anew: see `spec_reindented`.
    pub fn reindented(&self, left: Span, right: Span) -> (r: bool)
        requires
            self.wf(),
            left.start <= left.end <= self.nwords(0),
            right.start <= right.end <= self.nwords(1),
        ensures
            r == self.spec_reindented(left, right),
    {
        let first = self.line_index(0, left.start);
        let past = self.line_index(0, left.end);
        if first < 1 || first >= self.line_count(0) || past >= self.line_count(0) || right.start < 1
            || right.end >= self.word_count(1) {
            return false;
        }
        let mut l: usize = first + 1;
        while l < past
            invariant
                self.wf(),
                first < l,
                first < self.nlines(0),
                past < self.nlines(0),
                first == self.line_of(0, left.start as int),
                past == self.line_of(0, left.end as int),
                forall|x: int| first < x < l && x < past ==> #[trigger] self.trimmed(0, x) == self.trimmed(0, first as int),
            decreases past - l,
        {
            if !self.same_trimmed(0, l, 0, first) {
                return false;
            }
            l += 1;
        }
        let after_right = self.line_index(1, right.end);
        let before_right = self.line_index(1, right.start - 1);
        (self.same_trimmed(0, first - 1, 1, after_right) && self.same_trimmed(0, first - 1, 0, first))
            || (self.same_trimmed(1, before_right, 0, past) && self.same_trimmed(1, before_right, 0, first))
    }

    /// Splits `part` and appends to `parts` what it falls into, but for what is
    /// empty on both sides.
    fn add_split<'a>(&'a self, parts: &mut Vec<Part<'a>>, part: Part<'a>)
        requires
            covering(old(parts)@, self, part.slices.left.start as int, part.slices.right.start as int),
            part.wf(),
            part.parent == self,
            part.sound(),
        ensures
            covering(final(parts)@, self, part.slices.left.end as int, part.slices.right.end as int),
            final(parts)@ == old(parts)@ + without_empty(part.spec_split()),
    {
        let pieces = part.split();
        let ghost s = part.spec_split();
        let ghost start = parts@;
        proof {
            reveal(Seq::filter);
            assert(s.take(0) =~= Seq::<Part<'a>>::empty());
            assert(start + without_empty(s.take(0)) =~= start);
        }
        proof {
            part.lemma_split_tiles();
            {
                part.lemma_split_sound();
            }
        }
        let mut k: usize = 0;
        while k < 3
            invariant
                k <= 3,
                s == part.spec_split(),
                part.splits_into(s),
                part.parent == self,
                crate::part::all_sound(s),
                crate::part::holds(pieces, s),
                k < s.len() ==> covering(
                    parts@,
                    self,
                    s[k as int].slices.left.start as int,
                    s[k as int].slices.right.start as int,
                ),
                k >= s.len() ==> covering(
                    parts@,
                    self,
                    part.slices.left.end as int,
                    part.slices.right.end as int,
                ),
                parts@ == start + without_empty(s.take(if k < s.len() {
                    k as int
                } else {
                    s.len() as int
                })),
            decreases 3 - k,
        {
            match pieces[k] {
                Some(piece) => {
                    assert(piece == s[k as int]);
                    proof {
                        reveal(Seq::filter);
                        assert(s.take(k + 1).drop_last() =~= s.take(k as int));
                        assert(s.take(k + 1).last() == piece);
                        lemma_covering_push(
                            parts@,
                            piece,
                            self,
                            piece.slices.left.start as int,
                            piece.slices.right.start as int,
                        );
                        if k + 1 < s.len() {
                            assert(s[k as int].slices.left.end == s[k + 1].slices.left.start);
                        }
                    }
                    let ghost before = parts@;
                    if !(piece.is_empty(0) && piece.is_empty(1)) {
                        parts.push(piece);
                        assert(parts@ =~= start + without_empty(s.take(k + 1)));
                    } else {
                        assert(parts@ =~= start + without_empty(s.take(k + 1)));
                    }
                },
                None => {},
            }
            k += 1;
        }
        proof {
            assert(s.take(s.len() as int) =~= s);
        }
    }

    /// Both sides hold the same lines, two at least, and some word.
    pub open spec fn same_lines(&self) -> bool {
        &&& self.side(0).line_tokens@ == self.side(1).line_tokens@
        &&& self.nlines(0) >= 2
        &&& self.nwords(0) > 0
    }

    /// The part that does not match over the words `left` and `right`.
    pub open spec fn gap(&self, left: Span, right: Span) -> Part<'_> {
        Part { parent: self, matches: false, slices: Pair { left, right } }
    }

    /// The part over all words of both sides.
    pub open spec fn whole_part(&self, matches: bool) -> Part<'_> {
        Part {
            parent: self,
            matches,
            slices: Pair {
                left: Span { start: 0, end: self.nwords(0) as usize },
                right: Span { start: 0, end: self.nwords(1) as usize },
            },
        }
    }

    /// The part over all words of both sides is made of whole lines, and is split
    /// into nothing but itself.
    pub proof fn lemma_whole_part(&self, matches: bool)
        requires
            self.wf(),
        ensures
            self.whole_part(matches).wf(),
            self.whole_part(matches).spec_whole_line(),
            self.whole_part(matches).spec_split() == seq![self.whole_part(matches)],
            !self.whole_part(matches).both_empty() ==> without_empty(seq![self.whole_part(matches)])
                == seq![self.whole_part(matches)],
    {
        let p = self.whole_part(matches);
        assert(self.side(0).wf());
        assert(self.side(1).wf());
        assert(p.spec_starts_line(0)) by {
            if self.nwords(0) > 0 {
                let l = self.line_of(0, 0);
                assert(self.side(0).line_to_word@[l] <= 0);
            }
        }
        assert(p.spec_starts_line(1)) by {
            if self.nwords(1) > 0 {
                let l = self.line_of(1, 0);
                assert(self.side(1).line_to_word@[l] <= 0);
            }
        }
        if !p.both_empty() {
            reveal(Seq::filter);
            let one = seq![p];
            assert(one.drop_last() =~= Seq::<Part<'_>>::empty());
            assert(without_empty(one) =~= seq![p]);
        }
    }

    /// Appends to `parts` the parts of the two ranges: the runs of equal words that
    /// the word differ finds, and between them what does not match, each split.
    #[verifier::spinoff_prover]
    fn fill_gap<'a>(&'a self, differ: &mut WordDiffer<'a>, parts: &mut Vec<Part<'a>>, left: Span, right: Span)
        requires
            self.wf(),
            old(differ).wf(),
            old(differ).parent == self,
            left.start <= left.end <= self.nwords(0),
            right.start <= right.end <= self.nwords(1),
            covering(old(parts)@, self, left.start as int, right.start as int),
        ensures
            final(differ).wf(),
            final(differ).parent == self,
            covering(final(parts)@, self, left.end as int, right.end as int),
            left.start == left.end && right.start < right.end ==> final(parts)@ == old(parts)@ + without_empty(
                self.gap(left, right).spec_split(),
            ),
            (final(differ).memo(), final(parts)@) == self.filled(old(parts)@, old(differ).memo(), left, right),
    {
        let ghost start = parts@;
        let found = differ.get_matching_blocks(left.start, left.end, right.start, right.end);
        proof {
            if left.start == left.end && found@.len() > 0 {
                let p = found@[0];
                assert(p.slices.left.start < p.slices.left.end);
            }
        }
        let mut previ = left.start;
        let mut prevj = right.start;
        let mut n: usize = 0;
        while n < found.len()
            invariant
                self.wf(),
                n <= found@.len(),
                matched_chain(found@, self, left.start as int, left.end as int, right.start as int, right.end as int),
                left.start <= previ <= left.end <= self.nwords(0),
                right.start <= prevj <= right.end <= self.nwords(1),
                n < found@.len() ==> previ <= found@[n as int].slices.left.start && prevj
                    <= found@[n as int].slices.right.start,
                covering(parts@, self, previ as int, prevj as int),
                (parts@, previ as int, prevj as int) == self.gap_fold(start, found@, left, right, n as int),
            decreases found@.len() - n,
        {
            let part = found[n];
            self.put_found(parts, previ, prevj, part);
            previ = part.slices.left.end;
            prevj = part.slices.right.end;
            n += 1;
        }
        self.put_gap(parts, previ, prevj, left.end, right.end);
    }

    /// No line is held as matched.
    pub open spec fn fresh_memo(&self) -> Memo {
        Memo {
            left: Seq::new(self.nlines(0) as nat, |l: int| None::<usize>),
            right: Seq::new(self.nlines(1) as nat, |l: int| None::<usize>),
        }
    }

    /// The parts with what lies between the places `(previ, prevj)` and `(i, j)`
    /// after them, as a part that does not match, split: if anything lies there.
    pub open spec fn with_gap<'a>(&'a self, parts: Seq<Part<'a>>, previ: int, prevj: int, i: int, j: int) -> Seq<
        Part<'a>,
    > {
        if previ < i || prevj < j {
            parts + without_empty(
                self.gap(
                    Span { start: previ as usize, end: i as usize },
                    Span { start: prevj as usize, end: j as usize },
                ).spec_split(),
            )
        } else {
            parts
        }
    }

    /// The parts, with where they end, once the run of equal words `part` is taken
    /// in: what lies before it is appended as a part that does not match,
    /// split, and then the run, split.
    pub open spec fn gap_step<'a>(&'a self, acc: (Seq<Part<'a>>, int, int), part: Part<'a>) -> (
        Seq<Part<'a>>,
        int,
        int,
    ) {
        (
            self.with_gap(acc.0, acc.1, acc.2, part.slices.left.start as int, part.slices.right.start as int)
                + without_empty(part.spec_split()),
            part.slices.left.end as int,
            part.slices.right.end as int,
        )
    }

    /// The parts `start` with the first `n` runs of `found` taken in.
    pub open spec fn gap_fold<'a>(
        &'a self,
        start: Seq<Part<'a>>,
        found: Seq<Part<'a>>,
        left: Span,
        right: Span,
        n: int,
    ) -> (Seq<Part<'a>>, int, int)
        decreases n,
    {
        if n <= 0 {
            (start, left.start as int, right.start as int)
        } else {
            self.gap_step(self.gap_fold(start, found, left, right, n - 1), found[n - 1])
        }
    }

    /// The parts `start` with the parts of the two ranges after them: the runs of
    /// equal words that the word differ finds, and what lies between them and
    /// after them; with the lines that are held as matched after that.
    pub open spec fn filled<'a>(&'a self, start: Seq<Part<'a>>, memo: Memo, left: Span, right: Span) -> (
        Memo,
        Seq<Part<'a>>,
    ) {
        let found = matching_spec(
            self,
            memo,
            left.start as int,
            left.end as int,
            right.start as int,
            right.end as int,
        );
        let parts = self.gap_fold(start, found.1, left, right, found.1.len() as int);
        (found.0, self.with_gap(parts.0, parts.1, parts.2, left.end as int, right.end as int))
    }

    /// The words of the lines of a run of lines, on both sides.
    pub open spec fn run_spans(&self, run: (usize, usize, usize)) -> (Span, Span) {
        (
            Span { start: self.line_start(0, run.0 as int) as usize, end: self.line_start(0, run.0 + run.2) as usize },
            Span { start: self.line_start(1, run.1 as int) as usize, end: self.line_start(1, run.1 + run.2) as usize },
        )
    }

    /// Whether the run of equal lines over the words `left` and `right` is left
    /// out: it lies in the middle, after the place `(previ, prevj)` and before
    /// the end of both sides, and is a line that was only indented anew.
    pub open spec fn rejected(&self, previ: int, prevj: int, left: Span, right: Span) -> bool {
        &&& previ < left.start
        &&& prevj < right.start
        &&& left.end < self.nwords(0)
        &&& right.end < self.nwords(1)
        &&& self.spec_reindented(left, right)
    }

    /// The parts, the lines that are held as matched, and where the parts end, once
    /// the run of equal lines over the words `left` and `right` is taken in:
    /// unless it is left out, the parts of what lies before it are appended, and
    /// then the run as a part that matches, if it holds a word.
    #[verifier::opaque]
    pub open spec fn block_step<'a>(&'a self, acc: (Seq<Part<'a>>, Memo, int, int), left: Span, right: Span) -> (
        Seq<Part<'a>>,
        Memo,
        int,
        int,
    ) {
        if self.rejected(acc.2, acc.3, left, right) {
            acc
        } else {
            let before = if acc.2 < left.start || acc.3 < right.start {
                self.filled(
                    acc.0,
                    acc.1,
                    Span { start: acc.2 as usize, end: left.start },
                    Span { start: acc.3 as usize, end: right.start },
                )
            } else {
                (acc.1, acc.0)
            };
            let part = Part { parent: self, matches: true, slices: Pair { left, right } };
            (
                if part.both_empty() {
                    before.1
                } else {
                    before.1.push(part)
                },
                before.0,
                left.end as int,
                right.end as int,
            )
        }
    }

    /// The parts once the first `n` runs of equal lines are taken in.
    pub open spec fn block_fold<'a>(&'a self, runs: Seq<(usize, usize, usize)>, n: int) -> (
        Seq<Part<'a>>,
        Memo,
        int,
        int,
    )
        decreases n,
    {
        if n <= 0 {
            (Seq::empty(), self.fresh_memo(), 0, 0)
        } else {
            let spans = self.run_spans(runs[n - 1]);
            self.block_step(self.block_fold(runs, n - 1), spans.0, spans.1)
        }
    }

    /// The parts of the hunk: the long runs of equal lines are taken in one after
    /// the other, and then what lies after the last of them.
    pub open spec fn block_spec<'a>(&'a self) -> Seq<Part<'a>> {
        let runs = long_runs(
            self.side(0).line_tokens@,
            self.side(1).line_tokens@,
            0,
            self.nlines(0),
            0,
            self.nlines(1),
        );
        let parts = self.block_fold(runs, runs.len() as int);
        if parts.2 < self.nwords(0) || parts.3 < self.nwords(1) {
            self.filled(
                parts.0,
                parts.1,
                Span { start: parts.2 as usize, end: self.nwords(0) as usize },
                Span { start: parts.3 as usize, end: self.nwords(1) as usize },
            ).1
        } else {
            parts.0
        }
    }

    /// Appends to `parts` what lies between the places `(previ, prevj)` and
    /// `(i, j)` as a part that does not match, split: if anything lies there.
    fn put_gap<'a>(&'a self, parts: &mut Vec<Part<'a>>, previ: usize, prevj: usize, i: usize, j: usize)
        requires
            self.wf(),
            covering(old(parts)@, self, previ as int, prevj as int),
            previ <= i <= self.nwords(0),
            prevj <= j <= self.nwords(1),
        ensures
            covering(final(parts)@, self, i as int, j as int),
            final(parts)@ == self.with_gap(old(parts)@, previ as int, prevj as int, i as int, j as int),
    {
        if previ < i || prevj < j {
            let gap = self.make_part(false, Span::new(previ, i), Span::new(prevj, j));
            assert(gap == self.gap(Span { start: previ, end: i }, Span { start: prevj, end: j }));
            self.add_split(parts, gap);
        }
    }

    /// Takes the run of equal words `part` in: see `gap_step`.
    fn put_found<'a>(&'a self, parts: &mut Vec<Part<'a>>, previ: usize, prevj: usize, part: Part<'a>)
        requires
            self.wf(),
            covering(old(parts)@, self, previ as int, prevj as int),
            part.wf(),
            part.parent == self,
            part.sound(),
            previ <= part.slices.left.start,
            prevj <= part.slices.right.start,
        ensures
            covering(final(parts)@, self, part.slices.left.end as int, part.slices.right.end as int),
            (final(parts)@, part.slices.left.end as int, part.slices.right.end as int) == self.gap_step(
                (old(parts)@, previ as int, prevj as int),
                part,
            ),
    {
        self.put_gap(parts, previ, prevj, part.slices.left.start, part.slices.right.start);
        self.add_split(parts, part);
    }

    /// The parts of the hunk: the long runs of equal lines as parts that match,
    /// unless such a run lies in the middle and is a line that was only indented
    /// anew; between them the runs of equal words that the word differ finds; and
    /// between those what does not match. Nothing is left out, and nothing is
    /// empty on both sides.
    pub fn make_block(&self) -> (block: Block<'_>)
        requires
            self.wf(),
        ensures
            covering(block.parts@, self, self.nwords(0), self.nwords(1)),
            block.parts@ == self.block_spec(),
    {
        let lines = LineDiffer::new(self);
        let matches = lines.get_matching_blocks();
        let mut parts: Vec<Part<'_>> = Vec::new();
        let mut differ = WordDiffer::new(self);
        proof {
            assert(differ.memo().left =~= self.fresh_memo().left);
            assert(differ.memo().right =~= self.fresh_memo().right);
        }
        let (previ, prevj) = self.take_runs(&lines, &matches, &mut differ, &mut parts);
        self.finish_block(&mut differ, &mut parts, previ, prevj, Ghost(lines.runs()));
        Block { parts }
    }

    /// Takes the runs of equal lines in, one after the other: see `block_fold`.
    /// Hands back where the parts end.
    #[verifier::spinoff_prover]
    #[verifier::rlimit(100)]
    fn take_runs<'a>(
        &'a self,
        lines: &LineDiffer<'a>,
        matches: &Vec<(Span, Span)>,
        differ: &mut WordDiffer<'a>,
        parts: &mut Vec<Part<'a>>,
    ) -> (r: (usize, usize))
        requires
            self.wf(),
            lines.parent == self,
            matches@.len() == lines.runs().len(),
            forall|x: int| 0 <= x < matches@.len() ==> #[trigger] matches@[x] == lines.word_spans(lines.runs()[x]),
            old(differ).wf(),
            old(differ).parent == self,
            old(differ).memo() == self.fresh_memo(),
            old(parts)@.len() == 0,
        ensures
            final(differ).wf(),
            final(differ).parent == self,
            covering(final(parts)@, self, r.0 as int, r.1 as int),
            r.0 <= self.nwords(0),
            r.1 <= self.nwords(1),
            (final(parts)@, final(differ).memo(), r.0 as int, r.1 as int) == self.block_fold(
                lines.runs(),
                lines.runs().len() as int,
            ),
    {
        let ghost runs = lines.runs();
        let ghost a = self.side(0).line_tokens@;
        let ghost b = self.side(1).line_tokens@;
        proof {
            lemma_long_runs(a, b, 0, self.nlines(0), 0, self.nlines(1));
            assert(self.side(0).wf());
            assert(self.side(1).wf());
            assert(parts@ =~= Seq::<Part<'a>>::empty());
        }
        let mut previ: usize = 0;
        let mut prevj: usize = 0;
        let ghost mut line_i: int = 0;
        let ghost mut line_j: int = 0;
        let mut n: usize = 0;
        while n < matches.len()
            invariant
                self.wf(),
                differ.wf(),
                differ.parent == self,
                lines.parent == self,
                a == self.side(0).line_tokens@,
                b == self.side(1).line_tokens@,
                runs == lines.runs(),
                runs_in_order(a, b, runs, 0, self.nlines(0), 0, self.nlines(1)),
                matches@.len() == runs.len(),
                forall|x: int| 0 <= x < matches@.len() ==> #[trigger] matches@[x] == lines.word_spans(runs[x]),
                n <= matches@.len(),
                0 <= line_i <= self.nlines(0),
                0 <= line_j <= self.nlines(1),
                previ == self.line_start(0, line_i),
                prevj == self.line_start(1, line_j),
                previ <= self.nwords(0),
                prevj <= self.nwords(1),
                n < runs.len() ==> line_i <= runs[n as int].0 && line_j <= runs[n as int].1,
                covering(parts@, self, previ as int, prevj as int),
                (parts@, differ.memo(), previ as int, prevj as int) == self.block_fold(runs, n as int),
            decreases matches@.len() - n,
        {
            let (left, right) = matches[n];
            let ghost run = runs[n as int];
            proof {
                assert(matches@[n as int] == lines.word_spans(run));
                assert((left, right) == self.run_spans(run));
                assert(common_run(a, b, 0, self.nlines(0), 0, self.nlines(1), run.0 as int, run.1 as int, run.2 as int));
                self.lemma_lines_same_words(run.0 as int, run.1 as int, run.2 as int);
                self.lemma_line_starts(0, line_i, run.0 as int);
                self.lemma_line_starts(1, line_j, run.1 as int);
                if n + 1 < runs.len() {
                    let next = runs[n + 1];
                    assert(common_run(a, b, 0, self.nlines(0), 0, self.nlines(1), next.0 as int, next.1 as int, next.2 as int));
                }
            }
            let taken = self.take_run(differ, parts, previ, prevj, left, right);
            if taken {
                previ = left.end;
                prevj = right.end;
                proof {
                    line_i = run.0 + run.2;
                    line_j = run.1 + run.2;
                }
            }
            n += 1;
        }
        (previ, prevj)
    }

    /// Appends to `parts` the parts of what lies after the last run of equal lines.
    fn finish_block<'a>(
        &'a self,
        differ: &mut WordDiffer<'a>,
        parts: &mut Vec<Part<'a>>,
        previ: usize,
        prevj: usize,
        Ghost(runs): Ghost<Seq<(usize, usize, usize)>>,
    )
        requires
            self.wf(),
            old(differ).wf(),
            old(differ).parent == self,
            covering(old(parts)@, self, previ as int, prevj as int),
            previ <= self.nwords(0),
            prevj <= self.nwords(1),
            runs == long_runs(
                self.side(0).line_tokens@,
                self.side(1).line_tokens@,
                0,
                self.nlines(0),
                0,
                self.nlines(1),
            ),
            (old(parts)@, old(differ).memo(), previ as int, prevj as int) == self.block_fold(runs, runs.len() as int),
        ensures
            covering(final(parts)@, self, self.nwords(0), self.nwords(1)),
            final(parts)@ == self.block_spec(),
    {
        let maxi = self.word_count(0);
        let maxj = self.word_count(1);
        if previ < maxi || prevj < maxj {
            self.fill_gap(differ, parts, Span::new(previ, maxi), Span::new(prevj, maxj));
        }
    }

    /// Takes the run of equal lines over the words `left` and `right` in: see
    /// `block_step`. Hands back whether it was taken in or left out.
    #[verifier::spinoff_prover]
    fn take_run<'a>(
        &'a self,
        differ: &mut WordDiffer<'a>,
        parts: &mut Vec<Part<'a>>,
        previ: usize,
        prevj: usize,
        left: Span,
        right: Span,
    ) -> (taken: bool)
        requires
            self.wf(),
            old(differ).wf(),
            old(differ).parent == self,
            covering(old(parts)@, self, previ as int, prevj as int),
            previ <= left.start <= left.end <= self.nwords(0),
            prevj <= right.start <= right.end <= self.nwords(1),
            self.side(0).word_seq().subrange(left.start as int, left.end as int) == self.side(1).word_seq().subrange(
                right.start as int,
                right.end as int,
            ),
        ensures
            final(differ).wf(),
            final(differ).parent == self,
            taken == !self.rejected(previ as int, prevj as int, left, right),
            taken ==> covering(final(parts)@, self, left.end as int, right.end as int),
            !taken ==> final(parts)@ == old(parts)@ && final(differ).memo() == old(differ).memo(),
            (final(parts)@, final(differ).memo(), if taken {
                left.end as int
            } else {
                previ as int
            }, if taken {
                right.end as int
            } else {
                prevj as int
            }) == self.block_step((old(parts)@, old(differ).memo(), previ as int, prevj as int), left, right),
    {
        proof {
            reveal(BlockMaker::block_step);
        }
        let maxi = self.word_count(0);
        let maxj = self.word_count(1);
        let rejected = previ < left.start && prevj < right.start && left.end < maxi && right.end < maxj
            && self.reindented(left, right);
        if rejected {
            return false;
        }
        if previ < left.start || prevj < right.start {
            self.fill_gap(differ, parts, Span::new(previ, left.start), Span::new(prevj, right.start));
        }
        let part = self.make_part(true, left, right);
        proof {
            assert(part.content(0) == part.content(1));
            lemma_covering_push(parts@, part, self, left.start as int, right.start as int);
        }
        if !(part.is_empty(0) && part.is_empty(1)) {
            parts.push(part);
        }
        true
    }
}

/// Whether newline tokens delimit the lines of `side`.
fn side_is_delimited(side: &Side) -> (r: bool)
    requires
        side.wf(),
    ensures
        r == side.line_delimited(),
{
    let words = side.tokens.len();
    let mut w: usize = 0;
    while w < words
        invariant
            side.wf(),
            words == side.nwords(),
            w <= words,
            forall|x: int|
                0 <= x < w && (#[trigger] side.tokens@[x]).is_newline() ==> x + 1
                    == side.line_to_word@[side.word_to_line@[x] + 1],
        decreases words - w,
    {
        if side.tokens[w].0 == Token::NEWLINE {
            let line = side.word_to_line[w];
            if w + 1 != side.line_to_word[line + 1] {
                return false;
            }
        }
        w += 1;
    }
    let lines = side.line_tokens.len();
    if lines == 0 {
        return true;
    }
    let mut l: usize = 0;
    while l < lines - 1
        invariant
            side.wf(),
            lines == side.nlines(),
            lines > 0,
            forall|x: int|
                0 <= x < side.nwords() && (#[trigger] side.tokens@[x]).is_newline() ==> x + 1
                    == side.line_to_word@[side.word_to_line@[x] + 1],
            forall|x: int| 0 <= x < l && x < lines - 1 ==> #[trigger] side.ends_in_newline(x),
        decreases lines - l,
    {
        let from = side.line_to_word[l];
        let to = side.line_to_word[l + 1];
        if !(from < to && side.tokens[to - 1].0 == Token::NEWLINE) {
            assert(!side.ends_in_newline(l as int));
            return false;
        }
        l += 1;
    }
    true
}

} // verus!
