//! Interning of words as small integer tokens.

use crate::whitespace::{bytes_eq, views};
use vstd::prelude::*;

verus! {

/// The identifier of an interned word.
#[derive(Debug, Clone, Copy, PartialEq, Eq, Structural, Hash)]
pub struct Token(pub usize);

/// The byte string that a reserved token stands for.
pub open spec fn reserved_word(id: int) -> Seq<u8> {
    if id == 0 {
        seq![10u8]
    } else if id == 1 {
        seq![32u8]
    } else if id == 2 {
        seq![9u8]
    } else if id == 3 {
        seq![12u8]
    } else {
        seq![13u8]
    }
}

impl Token {
    pub const NEWLINE: usize = 0;

    pub const SPACE: usize = 1;

    pub const TAB: usize = 2;

    pub const FORM_FEED: usize = 3;

    pub const CARRIAGE_RETURN: usize = 4;

    /// The number of reserved tokens.
    pub const RESERVED: usize = 5;

    /// Whether the token is the newline token.
    pub open spec fn is_newline(self) -> bool {
        self.0 == 0
    }

    /// Whether the token is one of the four blank tokens; a newline is not.
    pub open spec fn is_blank(self) -> bool {
        1 <= self.0 <= 4
    }

    /// Whether the token is one of the four blank tokens; a newline is not.
    pub fn is_ascii_whitespace(self) -> (r: bool)
        ensures
            r == self.is_blank(),
    {
        1 <= self.0 && self.0 <= 4
    }
}

/// The table of interned words: the token of a word is its index.
#[derive(Debug)]
pub struct Tokeniser {
    words: Vec<Vec<u8>>,
}

impl View for Tokeniser {
    type V = Seq<Seq<u8>>;

    closed spec fn view(&self) -> Seq<Seq<u8>> {
        views(self.words@)
    }
}

/// No byte string occurs twice in `table`.
pub open spec fn no_duplicates(table: Seq<Seq<u8>>) -> bool {
    forall|i: int, j: int|
        0 <= i < table.len() && 0 <= j < table.len() && #[trigger] table[i] == #[trigger] table[j]
            ==> i == j
}

/// `table` begins with the five reserved words.
pub open spec fn starts_reserved(table: Seq<Seq<u8>>) -> bool {
    &&& table.len() >= 5
    &&& forall|i: int| 0 <= i < 5 ==> #[trigger] table[i] == reserved_word(i)
}

/// The index of `word` in `table`, or the length of `table` where it is not there.
pub open spec fn position(table: Seq<Seq<u8>>, word: Seq<u8>) -> int
    decreases table.len(),
{
    if table.len() == 0 {
        0
    } else if table.first() == word {
        0
    } else {
        1 + position(table.drop_first(), word)
    }
}

/// The position is that of the first occurrence, or the length where there is none.
pub proof fn lemma_position(table: Seq<Seq<u8>>, word: Seq<u8>)
    ensures
        0 <= position(table, word) <= table.len(),
        position(table, word) < table.len() ==> table[position(table, word)] == word,
        forall|i: int| 0 <= i < position(table, word) ==> #[trigger] table[i] != word,
    decreases table.len(),
{
    if table.len() != 0 && table.first() != word {
        let rest = table.drop_first();
        lemma_position(rest, word);
        assert forall|i: int| 0 <= i < position(table, word) implies #[trigger] table[i] != word by {
            if i > 0 {
                assert(table[i] == rest[i - 1]);
            }
        }
    }
}

/// `table` with `word` appended unless it is there already.
pub open spec fn intern(table: Seq<Seq<u8>>, word: Seq<u8>) -> Seq<Seq<u8>> {
    if position(table, word) < table.len() {
        table
    } else {
        table.push(word)
    }
}

/// `a` is the beginning of `b`.
pub open spec fn extends(a: Seq<Seq<u8>>, b: Seq<Seq<u8>>) -> bool {
    &&& a.len() <= b.len()
    &&& forall|k: int| 0 <= k < a.len() ==> #[trigger] b[k] == a[k]
}

/// The beginning of the beginning of a table is a beginning of the table.
pub proof fn lemma_extends_trans(a: Seq<Seq<u8>>, b: Seq<Seq<u8>>, c: Seq<Seq<u8>>)
    requires
        extends(a, b),
        extends(b, c),
    ensures
        extends(a, c),
{
    assert forall|k: int| 0 <= k < a.len() implies #[trigger] c[k] == a[k] by {
        assert(b[k] == a[k]);
    }
}

impl Tokeniser {
    /// The table is well formed: it begins with the reserved words and holds nothing twice.
    pub open spec fn wf(&self) -> bool {
        &&& starts_reserved(self@)
        &&& no_duplicates(self@)
    }

    /// A table that holds the five reserved words.
    pub fn new() -> (r: Tokeniser)
        ensures
            r.wf(),
            r@.len() == 5,
    {
        let mut words: Vec<Vec<u8>> = Vec::new();
        words.push(vec![10u8]);
        words.push(vec![32u8]);
        words.push(vec![9u8]);
        words.push(vec![12u8]);
        words.push(vec![13u8]);
        let r = Tokeniser { words };
        proof {
            assert(r@.len() == 5);
            assert(r@[0] =~= seq![10u8]);
            assert(r@[1] =~= seq![32u8]);
            assert(r@[2] =~= seq![9u8]);
            assert(r@[3] =~= seq![12u8]);
            assert(r@[4] =~= seq![13u8]);
            assert(r@[0][0] == 10u8);
            assert(r@[1][0] == 32u8);
            assert(r@[2][0] == 9u8);
            assert(r@[3][0] == 12u8);
            assert(r@[4][0] == 13u8);
        }
        r
    }

    /// The token that the next new word will get.
    pub fn max_token(&self) -> (r: Token)
        ensures
            r.0 == self@.len(),
    {
        Token(self.words.len())
    }

    /// The token of `word`: the one it has, or else a fresh one, the table's length so far.
    pub fn map(&mut self, word: &[u8]) -> (t: Token)
        requires
            old(self).wf(),
        ensures
            final(self).wf(),
            t.0 == position(old(self)@, word@),
            final(self)@ == intern(old(self)@, word@),
            extends(old(self)@, final(self)@),
            t.0 < final(self)@.len(),
            final(self)@[t.0 as int] == word@,
    {
        let n = self.words.len();
        let mut i: usize = 0;
        proof {
            lemma_position(self@, word@);
        }
        while i < n
            invariant
                n == self.words@.len(),
                self@ == old(self)@,
                old(self).wf(),
                0 <= position(self@, word@) <= n,
                position(self@, word@) < n ==> self@[position(self@, word@)] == word@,
                forall|k: int| 0 <= k < position(self@, word@) ==> #[trigger] self@[k] != word@,
                self@.len() == n,
                i <= n,
                forall|k: int| 0 <= k < i ==> #[trigger] self@[k] != word@,
            decreases n - i,
        {
            if bytes_eq(self.words[i].as_slice(), word) {
                assert(self@[i as int] == word@);
                return Token(i);
            }
            i += 1;
        }
        let ghost before = self@;
        self.words.push(vstd::slice::slice_to_vec(word));
        proof {
            assert(self@ =~= before.push(word@));
            assert forall|a: int, b: int|
                0 <= a < self@.len() && 0 <= b < self@.len() && #[trigger] self@[a] == #[trigger] self@[b]
                implies a == b by {
                if a < n && b < n {
                    assert(before[a] == before[b]);
                }
            }
        }
        Token(n)
    }
}

} // verus!
