//! Random permutations of small index sets `{0, .., n - 1}`, `n` at most 64,
//! by four interchangeable generators, and the bit primitives, *deposit*
//! and *select*, that the fastest of them is built on.

use vstd::prelude::*;

pub mod bit_scatter;
pub mod bits;
pub mod mask;
pub mod permutation;
pub mod random;
pub mod select64;
pub mod shuffle;

pub use bit_scatter::BitScatter;
pub use mask::fill_mask;
pub use permutation::{Iter, SmallIndexPermutations};
pub use shuffle::{Shuffle, ShuffleArray, ShuffleArrayIncremental};

verus! {

/// The largest period that a generator can have.
pub const MAX_PERIOD: u8 = 64;

} // verus!
