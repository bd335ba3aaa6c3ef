//! Keeping the items of a list that meet a condition.

use vstd::prelude::*;

verus! {

/// The items of `items` whose flag in `keep` is set, in order.
pub(crate) fn select<T: Copy>(items: &Vec<T>, keep: &Vec<bool>, Ghost(pred): Ghost<spec_fn(T) -> bool>) -> (r:
    Vec<T>)
    requires
        keep@.len() == items@.len(),
        forall|n: int| 0 <= n < items@.len() ==> #[trigger] keep@[n] == pred(items@[n]),
    ensures
        r@ == items@.filter(pred),
{
    let mut r: Vec<T> = Vec::new();
    let mut n: usize = 0;
    proof {
        reveal(Seq::filter);
        assert(items@.take(0) =~= Seq::<T>::empty());
    }
    while n < items.len()
        invariant
            n <= items@.len(),
            keep@.len() == items@.len(),
            forall|x: int| 0 <= x < items@.len() ==> #[trigger] keep@[x] == pred(items@[x]),
            r@ == items@.take(n as int).filter(pred),
        decreases items@.len() - n,
    {
        proof {
            reveal(Seq::filter);
            assert(items@.take(n + 1).drop_last() =~= items@.take(n as int));
            assert(items@.take(n + 1).last() == items@[n as int]);
        }
        if keep[n] {
            r.push(items[n]);
        }
        n += 1;
    }
    proof {
        assert(items@.take(n as int) =~= items@);
    }
    r
}

/// What `filter` keeps is in the list, in the order of the list, and meets the
/// condition; and a list that holds an item that meets it keeps something.
pub proof fn lemma_filter_from<T>(s: Seq<T>, pred: spec_fn(T) -> bool)
    ensures
        forall|n: int|
            0 <= n < s.filter(pred).len() ==> pred(#[trigger] s.filter(pred)[n]) && s.contains(
                s.filter(pred)[n],
            ),
        forall|n: int| 0 <= n < s.len() && pred(#[trigger] s[n]) ==> s.filter(pred).len() > 0,
        s.filter(pred).len() <= s.len(),
    decreases s.len(),
{
    reveal(Seq::filter);
    if s.len() > 0 {
        let rest = s.drop_last();
        lemma_filter_from(rest, pred);
        let out = s.filter(pred);
        assert forall|n: int| 0 <= n < out.len() implies pred(#[trigger] out[n]) && s.contains(
            out[n],
        ) by {
            if n < rest.filter(pred).len() {
                assert(out[n] == rest.filter(pred)[n]);
                assert(rest.contains(out[n]));
                let x = choose|x: int| 0 <= x < rest.len() && rest[x] == out[n];
                assert(s[x] == out[n]);
            } else {
                assert(out[n] == s.last());
                assert(s[s.len() - 1] == out[n]);
            }
        }
        assert forall|n: int| 0 <= n < s.len() && pred(#[trigger] s[n]) implies out.len() > 0 by {
            if n < rest.len() {
                assert(rest[n] == s[n]);
            }
        }
    }
}

} // verus!
