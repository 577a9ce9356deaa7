use vstd::prelude::*;
use rand::seq::{IndexedRandom, SliceRandom};

verus! {

/// Calls `rand::seq::SliceRandom::shuffle` with the thread-local generator.
/// Claimed: the result holds the same cards, each as often as before (the
/// shuffle only swaps elements). Which order comes out is left open.
#[verifier::external_body]
pub(crate) fn shuffle_cards(deck: &mut Vec<u8>)
    ensures
        final(deck)@.to_multiset() == old(deck)@.to_multiset(),
{
    deck.shuffle(&mut rand::rng());
}

/// Calls `rand::seq::IndexedRandom::choose` with the thread-local generator.
/// Claimed: `None` exactly for an empty slice, otherwise one of its elements.
/// Which element comes out is left open.
#[verifier::external_body]
pub(crate) fn choose_one(items: &[u8]) -> (r: Option<u8>)
    ensures
        r is None <==> items@.len() == 0,
        r matches Some(x) ==> items@.contains(x),
{
    items.choose(&mut rand::rng()).copied()
}

/// Calls `rand::seq::index::sample` with the thread-local generator.
/// Claimed: exactly `amount` distinct indices below `length` (the function
/// panics when `amount > length`, which `requires` rules out). Which indices,
/// and their order, are left open.
#[verifier::external_body]
pub(crate) fn sample_indices(length: usize, amount: usize) -> (r: Vec<usize>)
    requires
        amount <= length,
    ensures
        r@.len() == amount,
        r@.no_duplicates(),
        forall|i: int| 0 <= i < r@.len() ==> #[trigger] r@[i] < length,
{
    rand::seq::index::sample(&mut rand::rng(), length, amount).into_vec()
}

} // verus!
