//! Bit masks that stand for sets of indices, and the reduction of a random
//! word to a range.

use vstd::prelude::*;
use vstd::std_specs::iter::IteratorSpec;
use crate::bits::{is_set, lemma_ones_below_full, lemma_ones_below_gap, ones_below, popcount};

verus! {

/// The word with its `n` lowest bits set and the others clear.
pub open spec fn low_bits(n: int) -> u64 {
    if n <= 0 {
        0
    } else if n >= 64 {
        u64::MAX
    } else {
        ((1u64 << (n as u64)) - 1) as u64
    }
}

/// The bits of `low_bits(n)` are the positions below `n`, and there are `n`
/// of them.
pub proof fn lemma_low_bits(n: int)
    requires
        0 <= n <= 64,
    ensures
        forall|p: int| #[trigger] is_set(low_bits(n), p) <==> 0 <= p < n,
        forall|p: int| 0 <= p <= n ==> #[trigger] ones_below(low_bits(n), p) == p,
        popcount(low_bits(n)) == n,
{
    let m = low_bits(n);
    let k = n as u64;
    assert forall|p: int| #[trigger] is_set(m, p) <==> 0 <= p < n by {
        if 0 <= p < 64 {
            let q = p as u64;
            if n == 0 {
                assert((0u64 >> q) & 1 != 1) by (bit_vector);
            } else if n == 64 {
                assert((0xFFFF_FFFF_FFFF_FFFFu64 >> q) & 1 == 1) by (bit_vector)
                    requires
                        q < 64,
                ;
            } else {
                assert(1u64 << k >= 1 && (((((1u64 << k) - 1) as u64) >> q) & 1 == 1 <==> q < k))
                    by (bit_vector)
                    requires
                        k < 64,
                        q < 64,
                ;
            }
        }
    }
    assert forall|p: int| 0 <= p <= n implies #[trigger] ones_below(m, p) == p by {
        lemma_ones_below_full(m, p);
    }
    lemma_ones_below_gap(m, n, 64);
}

/// The mask of the indices below `idx`: its `idx` lowest bits are set.
pub fn index_mask(idx: u32) -> (mask: u64)
    requires
        1 <= idx <= 64,
    ensures
        mask == low_bits(idx as int),
        forall|p: int| #[trigger] is_set(mask, p) <==> 0 <= p < idx,
        popcount(mask) == idx,
{
    proof {
        lemma_low_bits(idx as int);
        if idx < 64 {
            assert(0xFFFF_FFFF_FFFF_FFFFu64 >> ((64 - idx) as u32) == ((1u64 << (idx as u64))
                - 1) as u64) by (bit_vector)
                requires
                    1 <= idx < 64,
            ;
        } else {
            assert(0xFFFF_FFFF_FFFF_FFFFu64 >> 0u32 == 0xFFFF_FFFF_FFFF_FFFFu64) by (bit_vector);
        }
    }
    u64::MAX >> (64 - idx)
}

/// The value that [`fastmap32`] computes: `x * n / 2^32`, rounded down.
pub open spec fn fastmap(x: u32, n: u32) -> int {
    (x as int * n as int) / 0x1_0000_0000
}

/// The reduction lands in the range: `fastmap(x, n)` is below `n`, for a
/// range that is not empty.
pub proof fn lemma_fastmap_range(x: u32, n: u32)
    ensures
        0 <= fastmap(x, n) <= u32::MAX,
        n > 0 ==> fastmap(x, n) < n,
        n == 0 ==> fastmap(x, n) == 0,
{
    assert(0 <= (x as int * n as int) / 0x1_0000_0000 <= 0xFFFF_FFFF && (n > 0 ==> (x as int
        * n as int) / 0x1_0000_0000 < n) && (n == 0 ==> (x as int * n as int) / 0x1_0000_0000 == 0))
        by (nonlinear_arith)
        requires
            0 <= x <= 0xFFFF_FFFF,
            0 <= n <= 0xFFFF_FFFF,
    ;
}

/// Maps the word `x` into the range `0..n` by a multiplication and a shift:
/// the high half of the 64-bit product `x * n`. The map is monotone in `x`
/// and favours some values of the range slightly where `n` is no power of
/// two.
pub fn fastmap32(x: u32, n: u32) -> (r: u32)
    ensures
        r as int == fastmap(x, n),
        n > 0 ==> r < n,
{
    proof {
        lemma_fastmap_range(x, n);
        assert(x as nat * n as nat <= 0xFFFF_FFFF * 0xFFFF_FFFF) by (nonlinear_arith)
            requires
                x <= 0xFFFF_FFFF,
                n <= 0xFFFF_FFFF,
        ;
    }
    let mul: u64 = (x as u64).wrapping_mul(n as u64);
    proof {
        assert(mul == x as int * n as int);
        assert(mul >> 32 == mul / 0x1_0000_0000) by (bit_vector);
    }
    (mul >> 32) as u32
}

/// The word whose set bits are the positions that `idxs` names.
pub open spec fn mask_of(idxs: Seq<u8>) -> u64
    decreases idxs.len(),
{
    if idxs.len() == 0 {
        0
    } else {
        mask_of(idxs.drop_last()) | (1u64 << (idxs.last() as u64))
    }
}

/// Bit `p` of `mask_of(idxs)` is set exactly when `idxs` names `p`.
pub proof fn lemma_mask_of(idxs: Seq<u8>, p: int)
    requires
        forall|i: int| 0 <= i < idxs.len() ==> idxs[i] < 64,
    ensures
        is_set(mask_of(idxs), p) <==> 0 <= p < 64 && idxs.contains(p as u8),
    decreases idxs.len(),
{
    if idxs.len() == 0 {
        if 0 <= p < 64 {
            let q = p as u64;
            assert((0u64 >> q) & 1 != 1) by (bit_vector);
        }
    } else {
        let front = idxs.drop_last();
        lemma_mask_of(front, p);
        if 0 <= p < 64 {
            let low = mask_of(front);
            let q = p as u64;
            let h = idxs.last() as u64;
            assert(((low | (1u64 << h)) >> q) & 1 == 1 <==> (low >> q) & 1 == 1 || q == h)
                by (bit_vector)
                requires
                    q < 64,
                    h < 64,
            ;
            if front.contains(p as u8) {
                let i = choose|i: int| 0 <= i < front.len() && front[i] == p as u8;
                assert(idxs[i] == p as u8);
            }
            if idxs.contains(p as u8) && idxs.last() != p as u8 {
                let i = choose|i: int| 0 <= i < idxs.len() && idxs[i] == p as u8;
                assert(front[i] == p as u8);
            }
        }
    }
}

/// Folds a run of indices into the mask of the indices it names, and counts
/// the run.
pub fn fill_mask<I: Iterator<Item = u8>>(idxs: I) -> (r: (u64, u8))
    requires
        idxs.obeys_prophetic_iter_laws(),
        idxs.decrease() is Some,
        idxs.remaining().len() <= 255,
        forall|i: int| 0 <= i < idxs.remaining().len() ==> idxs.remaining()[i] < 64,
    ensures
        r.0 == mask_of(idxs.remaining()),
        r.1 == idxs.remaining().len(),
        forall|p: int|
            #[trigger] is_set(r.0, p) <==> 0 <= p < 64 && idxs.remaining().contains(p as u8),
{
    let mut mask: u64 = 0;
    let mut count: u8 = 0;
    let mut idxs = idxs;
    let ghost all = idxs.remaining();
    loop
        invariant
            idxs.obeys_prophetic_iter_laws(),
            idxs.decrease() is Some,
            all.len() <= 255,
            forall|i: int| 0 <= i < all.len() ==> all[i] < 64,
            count <= all.len(),
            idxs.remaining() == all.subrange(count as int, all.len() as int),
            mask == mask_of(all.subrange(0, count as int)),
        ensures
            count == all.len(),
            mask == mask_of(all),
        decreases idxs.decrease()->0,
    {
        match idxs.next() {
            Some(idx) => {
                assert(idx == all[count as int]);
                assert(all.subrange(0, count + 1).drop_last() == all.subrange(0, count as int));
                mask |= 1 << (idx as u64);
                count += 1;
            },
            None => {
                assert(all.subrange(0, count as int) == all);
                break ;
            },
        }
    }
    proof {
        assert forall|p: int|
            #[trigger] is_set(mask, p) <==> 0 <= p < 64 && all.contains(p as u8) by {
            lemma_mask_of(all, p);
        }
    }
    (mask, count)
}

} // verus!
