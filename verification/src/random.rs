//! What the library asks of the random-number generator.

use crate::sequence_cards::Card;
use rand::rngs::ThreadRng;
use rand::seq::SliceRandom;
use rand::Rng;
use vstd::prelude::*;

verus! {

/// The thread-local generator of the `rand` crate.
#[verifier::external_type_specification]
#[verifier::external_body]
pub struct ExThreadRng(ThreadRng);

/// Calls `SliceRandom::shuffle` of the `rand` crate, which only swaps items
/// of the slice: whatever the generator gives, the cards are the same cards
/// in some order.
#[verifier::external_body]
pub(crate) fn shuffle_cards(cards: &mut Vec<Card>, rng: &mut ThreadRng)
    ensures
        final(cards)@.to_multiset() == old(cards)@.to_multiset(),
{
    cards.shuffle(rng);
}

/// Calls `Rng::gen_range` of the `rand` crate on the range from 0 up to, and
/// without, `n`. The range must not be empty, and the number returned lies
/// in it.
#[verifier::external_body]
pub(crate) fn random_below(n: u8, rng: &mut ThreadRng) -> (res: u8)
    requires
        n > 0,
    ensures
        res < n,
{
    rng.gen_range(0..n)
}

} // verus!
