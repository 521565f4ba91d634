//! Permutations by sampling without replacement from a bit mask: each draw
//! selects one of the set bits of the mask of the indices not yet drawn.

use vstd::prelude::*;
use crate::bits::{
    is_set, lemma_clear_bit, lemma_no_ones, lemma_nth_one, nth_one, popcount,
};
use crate::mask::{fastmap, fastmap32, index_mask, lemma_fastmap_range, lemma_low_bits, low_bits};
use crate::permutation::{advance, indices, SmallIndexPermutations};
use crate::random::RandomSource;
use crate::select64::select64;
use crate::MAX_PERIOD;

verus! {

/// The indices below `n` whose bit is clear in `mask`.
pub open spec fn unset_below(mask: u64, n: nat) -> Set<u8> {
    Set::new(|i: u8| (i as nat) < n && !is_set(mask, i as int))
}

/// Permutations by selecting, with each draw, a random one of the indices
/// not yet drawn, which a bit mask holds.
pub struct BitScatter<R> {
    rng: R,
    unchosen_mask: u64,
    n: u8,
    // the number of indices that remain: the number of set bits of the mask
    m: u8,
}

impl<R> BitScatter<R> {
    /// The period.
    pub closed spec fn len(&self) -> nat {
        self.n as nat
    }

    /// The mask of the indices that this cycle has not drawn.
    pub closed spec fn unchosen(&self) -> u64 {
        self.unchosen_mask
    }

    /// How many indices this cycle has yet to give.
    pub closed spec fn remaining(&self) -> nat {
        self.m as nat
    }

    /// The source of randomness, in the state it is in.
    pub closed spec fn source(&self) -> R {
        self.rng
    }

    /// The mask that the next draw selects from: that of the indices not
    /// yet drawn or, where none is left, that of all the indices.
    pub open spec fn pool(&self) -> u64 {
        if self.remaining() == 0 {
            low_bits(self.len() as int)
        } else {
            self.unchosen()
        }
    }

    /// The number of indices that the next draw selects from.
    pub open spec fn pool_size(&self) -> nat {
        if self.remaining() == 0 {
            self.len()
        } else {
            self.remaining()
        }
    }

    /// `next` and `i` are the state and the draw that the word `word` leads
    /// to: the word, reduced to the size of the pool, is the number of a
    /// set bit of the pool; the position of that bit is drawn and leaves
    /// the mask.
    pub open spec fn steps_to(&self, word: u32, next: &Self, i: u8) -> bool {
        &&& next.len() == self.len()
        &&& i as int == nth_one(self.pool(), fastmap(word, self.pool_size() as u32) as nat)
        &&& next.unchosen() == self.pool() & !(1u64 << (i as u64))
        &&& next.remaining() == self.pool_size() - 1
    }

    /// The state and the word decide the draw: two generators in one
    /// state that step by one word give one draw and are in one state
    /// again.
    pub proof fn lemma_word_decides(&self, other: &Self, word: u32, a: (&Self, u8), b: (&Self, u8))
        requires
            self.len() == other.len(),
            self.unchosen() == other.unchosen(),
            self.remaining() == other.remaining(),
            self.steps_to(word, a.0, a.1),
            other.steps_to(word, b.0, b.1),
        ensures
            a.1 == b.1,
            a.0.len() == b.0.len(),
            a.0.unchosen() == b.0.unchosen(),
            a.0.remaining() == b.0.remaining(),
    {
    }
}

impl<R: RandomSource> BitScatter<R> {
    /// A generator of period `n` that draws its randomness from `rng`.
    pub fn new(rng: R, n: u8) -> (s: Self)
        requires
            0 < n <= MAX_PERIOD,
        ensures
            s.wf(),
            s.span() == n,
            s.drawn() == Set::<u8>::empty(),
            s.unchosen() == low_bits(n as int),
            s.remaining() == n,
            s.source() == rng,
    {
        let s = Self { rng, unchosen_mask: index_mask(n as u32), n, m: n };
        proof {
            assert(s.drawn() =~= Set::<u8>::empty());
        }
        s
    }

    /// The draw that the random word `word` decides.
    pub fn next_index_with(&mut self, word: u32) -> (i: u8)
        requires
            (*old(self)).wf(),
        ensures
            (*final(self)).wf(),
            old(self).steps_to(word, &*final(self), i),
            final(self).source() == old(self).source(),
            i < old(self).len(),
            !(*old(self)).drawn().contains(i),
            (*final(self)).drawn() == advance((*old(self)).drawn(), i, old(self).len()),
    {
        if self.m == 0 {
            self.reset();
        }
        let ghost n = self.len();
        let ghost pool = self.unchosen();
        proof {
            lemma_low_bits(n as int);
            lemma_fastmap_range(word, self.m as u32);
            assert((*old(self)).drawn() =~= unset_below(pool, n));
        }
        // map sample to an index in [0, m)
        let idx_mspace: u8 = fastmap32(word, self.m as u32) as u8;
        // get the index in [0, n) of the corresponding 1-bit in the unchosen mask
        let idx_nspace: u8 = select64(idx_mspace, self.unchosen_mask);
        // unset the newly sampled index
        self.unchosen_mask &= !(1_u64 << (idx_nspace as u32));
        self.m -= 1;
        proof {
            let left = self.unchosen();
            lemma_clear_bit(pool, idx_nspace as int);
            assert(unset_below(left, n) =~= unset_below(pool, n).insert(idx_nspace));
            if self.m == 0 {
                assert(unset_below(left, n) =~= indices(n)) by {
                    assert forall|j: u8| (j as nat) < n implies !is_set(left, j as int) by {
                        lemma_no_ones(left, 64, j as int);
                    }
                }
            } else {
                lemma_nth_one(left, 0);
                let q = nth_one(left, 0);
                assert(indices(n).contains(q as u8));
                assert(!unset_below(left, n).contains(q as u8));
            }
        }
        idx_nspace
    }
}

impl<R: RandomSource> SmallIndexPermutations for BitScatter<R> {
    open spec fn wf(&self) -> bool {
        &&& 1 <= self.len() <= 64
        &&& self.remaining() <= self.len()
        &&& popcount(self.unchosen()) == self.remaining()
        &&& forall|p: int| is_set(self.unchosen(), p) ==> p < self.len()
    }

    open spec fn span(&self) -> nat {
        self.len()
    }

    open spec fn drawn(&self) -> Set<u8> {
        if self.remaining() == 0 {
            Set::empty()
        } else {
            unset_below(self.unchosen(), self.len())
        }
    }

    proof fn lemma_drawn(&self) {
        let n = self.len();
        if self.remaining() == 0 {
            assert(indices(n).contains(0u8));
        } else {
            lemma_nth_one(self.unchosen(), 0);
            let q = nth_one(self.unchosen(), 0);
            assert(indices(n).contains(q as u8));
            assert(!unset_below(self.unchosen(), n).contains(q as u8));
        }
    }

    fn period(&self) -> (n: u8) {
        self.n
    }

    fn reset(&mut self)
        ensures
            final(self).remaining() == old(self).len(),
            final(self).unchosen() == low_bits(old(self).len() as int),
            final(self).source() == old(self).source(),
    {
        self.m = self.n;
        self.unchosen_mask = index_mask(self.n as u32);
    }

    fn next_index(&mut self) -> (i: u8)
        ensures
            exists|word: u32| old(self).steps_to(word, &*final(self), i),
    {
        let word: u32 = self.rng.next_word();
        let i: u8 = self.next_index_with(word);
        proof {
            assert(old(self).steps_to(word, &*final(self), i));
        }
        i
    }
}

} // verus!
