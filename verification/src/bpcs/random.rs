//! The two sources of randomness: the generator seeded with the key, which
//! decides where planes are placed, and the thread's own generator, which
//! supplies bits that carry no meaning.
//!
//! Everything in this file is taken on trust from the `rand` crate.

use rand::rngs::StdRng;
use rand::seq::SliceRandom;
use rand::Rng;
use rand::SeedableRng;
use vstd::prelude::*;

verus! {

/// `rand::rngs::StdRng`, the generator that is seeded with the key.
#[verifier::external_type_specification]
#[verifier::external_body]
pub struct ExStdRng(StdRng);

/// The state of a generator: what decides everything it will produce.
pub uninterp spec fn rng_state(rng: StdRng) -> Seq<u8>;

/// The state of the generator that `StdRng::from_seed` makes from `seed`.
pub uninterp spec fn seeded_state(seed: Seq<u8>) -> Seq<u8>;

/// What `shuffle` does to a slice of `len` items with a generator in `state`:
/// position `i` of the shuffled slice receives the item that stood at
/// position `.0[i]`, and the generator is left in state `.1`.
pub uninterp spec fn shuffle_outcome(state: Seq<u8>, len: nat) -> (Seq<int>, Seq<u8>);

/// `order` lists each of the positions `0..n` exactly once.
pub open spec fn is_permutation(order: Seq<int>, n: nat) -> bool {
    &&& order.len() == n
    &&& forall|i: int| 0 <= i < n ==> 0 <= #[trigger] order[i] < n
    &&& forall|i: int, j: int| 0 <= i < j < n ==> #[trigger] order[i] != #[trigger] order[j]
}

/// `items` rearranged so that position `i` holds `items[order[i]]`.
pub open spec fn permuted<T>(items: Seq<T>, order: Seq<int>) -> Seq<T> {
    Seq::new(order.len(), |i: int| items[order[i]])
}

/// `after` is `before` rearranged by `order`, which is a permutation.
pub open spec fn rearranged<T>(before: Seq<T>, after: Seq<T>, order: Seq<int>) -> bool {
    is_permutation(order, before.len()) && after == permuted(before, order)
}

/// `StdRng::from_seed`: the generator whose state the seed alone decides.
#[verifier::external_body]
pub(crate) fn rng_from_seed(seed: [u8; 32]) -> (rng: StdRng)
    ensures
        rng_state(rng) == seeded_state(seed@),
{
    StdRng::from_seed(seed)
}

/// `SliceRandom::shuffle` with an `StdRng`: rearranges `items` in place by a
/// permutation that the generator's state and the number of items decide,
/// whatever the items are, and advances the generator to a state that those
/// two decide as well.
#[verifier::external_body]
pub(crate) fn shuffle_items<T>(items: &mut Vec<T>, rng: &mut StdRng)
    ensures
        rearranged(
            old(items)@,
            final(items)@,
            shuffle_outcome(rng_state(*old(rng)), old(items)@.len()).0,
        ),
        rng_state(*final(rng)) == shuffle_outcome(rng_state(*old(rng)), old(items)@.len()).1,
{
    items.shuffle(rng);
}

/// `Rng::random::<bool>` on the thread's generator: a bit of which nothing is
/// known.
#[verifier::external_body]
pub(crate) fn random_bit() -> bool {
    rand::rng().random::<bool>()
}

/// `Rng::random_range(0..255)` on the thread's generator: a byte below 255 of
/// which nothing else is known.
#[verifier::external_body]
pub(crate) fn random_filler_byte() -> (byte: u8)
    ensures
        byte < 255,
{
    rand::rng().random_range(0u8..0b11111111u8)
}

} // verus!
