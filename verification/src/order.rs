//! Putting things in order by a key of two integers.

use vstd::prelude::*;

verus! {

/// Whether the key `a` does not come after the key `b`: keys are ordered by
/// their first part and, where that is the same, by their second.
pub open spec fn key_le(a: (u8, u128), b: (u8, u128)) -> bool {
    a.0 < b.0 || (a.0 == b.0 && a.1 <= b.1)
}

/// A thing that has a place in an order.
pub trait Keyed: Sized {
    /// The key by which the thing is ordered.
    spec fn sort_key(&self) -> (u8, u128);

    /// The key by which the thing is ordered.
    fn key(&self) -> (r: (u8, u128))
        ensures
            r == self.sort_key(),
    ;
}

/// No item stands before one with a lower key.
pub open spec fn in_key_order<T: Keyed>(items: Seq<T>) -> bool {
    forall|i: int, j: int|
        0 <= i < j < items.len() ==> key_le(
            (#[trigger] items[i]).sort_key(),
            (#[trigger] items[j]).sort_key(),
        )
}

/// Puts the items into the order of their keys, by `sort_unstable_by_key` of
/// std's slices. The key is a pair of integers, which std orders by its first
/// part and then by its second. Afterwards the same items stand there, each
/// as often as before, and none stands before one with a lower key; items
/// with the same key may stand in any order.
#[verifier::external_body]
pub(crate) fn sort_by_key<T: Keyed>(items: &mut Vec<T>)
    ensures
        final(items)@.to_multiset() == old(items)@.to_multiset(),
        in_key_order(final(items)@),
{
    items.sort_unstable_by_key(|item| item.key());
}

} // verus!
