//! ASCII white space in byte strings.

use vstd::prelude::*;

verus! {

/// Space, tab, line feed, form feed or carriage return.
pub open spec fn is_space_byte(c: u8) -> bool {
    c == 32 || c == 9 || c == 10 || c == 12 || c == 13
}

/// Every byte of `s` is ASCII white space; true of the empty string.
pub open spec fn all_space(s: Seq<u8>) -> bool {
    forall|i: int| 0 <= i < s.len() ==> is_space_byte(#[trigger] s[i])
}

/// The byte strings that the vectors of `v` hold, in order.
pub open spec fn views(v: Seq<Vec<u8>>) -> Seq<Seq<u8>> {
    Seq::new(v.len(), |i: int| v[i]@)
}

/// Whether the byte is ASCII white space.
pub fn byte_is_space(c: u8) -> (r: bool)
    ensures
        r == is_space_byte(c),
{
    c == 32 || c == 9 || c == 10 || c == 12 || c == 13
}

/// Whether two byte strings are the same.
pub fn bytes_eq(a: &[u8], b: &[u8]) -> (r: bool)
    ensures
        r == (a@ == b@),
{
    if a.len() != b.len() {
        return false;
    }
    let mut i: usize = 0;
    while i < a.len()
        invariant
            a@.len() == b@.len(),
            i <= a@.len(),
            forall|k: int| 0 <= k < i ==> a@[k] == b@[k],
        decreases a@.len() - i,
    {
        if a[i] != b[i] {
            return false;
        }
        i += 1;
    }
    assert(a@ =~= b@);
    true
}

/// Values that can say whether they hold white space alone.
pub trait CheckAllWhitespace {
    /// The bytes that the value holds.
    spec fn bytes(&self) -> Seq<u8>;

    /// Whether the value holds nothing but ASCII white space.
    fn is_ascii_whitespace(&self) -> (r: bool)
        ensures
            r == all_space(self.bytes()),
    ;
}

impl CheckAllWhitespace for [u8] {
    open spec fn bytes(&self) -> Seq<u8> {
        self@
    }

    fn is_ascii_whitespace(&self) -> (r: bool) {
        let mut i: usize = 0;
        while i < self.len()
            invariant
                i <= self@.len(),
                forall|k: int| 0 <= k < i ==> is_space_byte(#[trigger] self@[k]),
            decreases self@.len() - i,
        {
            if !byte_is_space(self[i]) {
                return false;
            }
            i += 1;
        }
        true
    }
}

impl CheckAllWhitespace for Vec<u8> {
    open spec fn bytes(&self) -> Seq<u8> {
        self@
    }

    fn is_ascii_whitespace(&self) -> (r: bool) {
        self.as_slice().is_ascii_whitespace()
    }
}

} // verus!
