//! Sources of randomness: what a generator of permutations asks of one,
//! and the random number generators of `rand` that serve as one.

use rand::rngs::{SmallRng, StdRng};
use rand::seq::SliceRandom;
use rand::Rng;
use vstd::prelude::*;

verus! {

/// A source of randomness: it gives pseudo-random 32-bit words, one after
/// the other, and shuffles a slice in place.
pub trait RandomSource {
    /// The next pseudo-random 32-bit word.
    fn next_word(&mut self) -> (word: u32);

    /// Shuffles `items` in place: the slice holds afterwards what it held
    /// before, each item as often, in a random order.
    fn shuffle(&mut self, items: &mut [u8])
        ensures
            final(items)@.to_multiset() == old(items)@.to_multiset(),
    ;
}

/// The small, fast generator of `rand`.
#[verifier::external_type_specification]
#[verifier::external_body]
pub struct ExSmallRng(SmallRng);

/// The standard generator of `rand`.
#[verifier::external_type_specification]
#[verifier::external_body]
pub struct ExStdRng(StdRng);

/// The next 32-bit word of a generator of `rand`, by `RngCore::next_u32`.
/// The word is random: nothing is claimed of it.
#[verifier::external_body]
fn next_u32<R: Rng>(rng: &mut R) -> (word: u32) {
    rng.next_u32()
}

/// Shuffles `items` in place with a generator of `rand`, by
/// `SliceRandom::shuffle`. The shuffle does nothing but swap items of the
/// slice, so the slice holds afterwards what it held before, each item as
/// often, in an order that the generator decides.
#[verifier::external_body]
fn shuffle_slice<R: Rng>(items: &mut [u8], rng: &mut R)
    ensures
        final(items)@.to_multiset() == old(items)@.to_multiset(),
{
    items.shuffle(rng)
}

impl RandomSource for SmallRng {
    fn next_word(&mut self) -> (word: u32) {
        next_u32(self)
    }

    fn shuffle(&mut self, items: &mut [u8]) {
        shuffle_slice(items, self)
    }
}

impl RandomSource for StdRng {
    fn next_word(&mut self) -> (word: u32) {
        next_u32(self)
    }

    fn shuffle(&mut self, items: &mut [u8]) {
        shuffle_slice(items, self)
    }
}

impl<R: RandomSource + ?Sized> RandomSource for &mut R {
    fn next_word(&mut self) -> (word: u32) {
        (**self).next_word()
    }

    fn shuffle(&mut self, items: &mut [u8]) {
        (**self).shuffle(items)
    }
}

} // verus!
