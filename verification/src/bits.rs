//! A model of the bits of a 64-bit word: which positions are set, how many
//! set bits lie below a position, and where the n-th set bit is.

use vstd::prelude::*;

verus! {

/// Whether bit `i` of `x` is set. Positions outside `0..64` hold no bit.
pub open spec fn is_set(x: u64, i: int) -> bool {
    0 <= i < 64 && (x >> (i as u64)) & 1 == 1
}

/// The number of set bits of `x` at positions below `hi`.
pub open spec fn ones_below(x: u64, hi: int) -> nat
    decreases hi,
{
    if hi <= 0 {
        0
    } else {
        ones_below(x, hi - 1) + if is_set(x, hi - 1) {
            1nat
        } else {
            0nat
        }
    }
}

/// The number of set bits of `x` at positions `lo <= i < hi`.
pub open spec fn ones_in(x: u64, lo: int, hi: int) -> int {
    ones_below(x, hi) - ones_below(x, lo)
}

/// The number of set bits of `x`.
pub open spec fn popcount(x: u64) -> nat {
    ones_below(x, 64)
}

/// `p` is the position of the `idx`-th set bit of `x`, counting set bits
/// from the least significant one and starting at zero.
pub open spec fn is_nth_one(x: u64, idx: nat, p: int) -> bool {
    is_set(x, p) && ones_below(x, p) == idx
}

/// The position of the `idx`-th set bit of `x`. It is meaningful when
/// `idx < popcount(x)`; see [`lemma_nth_one`].
pub open spec fn nth_one(x: u64, idx: nat) -> int {
    choose|p: int| is_nth_one(x, idx, p)
}

/// Counting set bits is monotone in the bound.
pub proof fn lemma_ones_below_monotone(x: u64, lo: int, hi: int)
    requires
        lo <= hi,
    ensures
        ones_below(x, lo) <= ones_below(x, hi),
    decreases hi - lo,
{
    if lo < hi {
        lemma_ones_below_monotone(x, lo, hi - 1);
    }
}

/// No more than `hi` set bits lie below `hi`, and none below zero.
pub proof fn lemma_ones_below_bound(x: u64, hi: int)
    ensures
        ones_below(x, hi) <= if hi <= 0 { 0 } else { hi },
        hi >= 64 ==> ones_below(x, hi) == popcount(x),
    decreases hi,
{
    if hi > 0 {
        lemma_ones_below_bound(x, hi - 1);
    }
}

/// A word has at most one `idx`-th set bit.
pub proof fn lemma_nth_one_unique(x: u64, idx: nat, p: int, q: int)
    requires
        is_nth_one(x, idx, p),
        is_nth_one(x, idx, q),
    ensures
        p == q,
{
    if p < q {
        lemma_ones_below_monotone(x, p + 1, q);
    } else if q < p {
        lemma_ones_below_monotone(x, q + 1, p);
    }
}

/// A position that is the `idx`-th set bit is the one that `nth_one` names.
pub proof fn lemma_nth_one_is(x: u64, idx: nat, p: int)
    requires
        is_nth_one(x, idx, p),
    ensures
        nth_one(x, idx) == p,
{
    lemma_nth_one_unique(x, idx, p, nth_one(x, idx));
}

/// A word with more than `idx` set bits below `hi` has its `idx`-th set
/// bit below `hi`.
proof fn lemma_nth_one_below(x: u64, idx: nat, hi: int)
    requires
        idx < ones_below(x, hi),
    ensures
        exists|p: int| p < hi && is_nth_one(x, idx, p),
    decreases hi,
{
    if hi > 0 {
        if idx < ones_below(x, hi - 1) {
            lemma_nth_one_below(x, idx, hi - 1);
        } else {
            assert(is_nth_one(x, idx, hi - 1));
        }
    }
}

/// A word with more than `idx` set bits has an `idx`-th set bit, and
/// `nth_one` is its position.
pub proof fn lemma_nth_one(x: u64, idx: nat)
    requires
        idx < popcount(x),
    ensures
        is_nth_one(x, idx, nth_one(x, idx)),
        0 <= nth_one(x, idx) < 64,
{
    lemma_nth_one_below(x, idx, 64);
}

/// Where no bit is set between two bounds, the counts below them agree.
pub proof fn lemma_ones_below_gap(x: u64, lo: int, hi: int)
    requires
        lo <= hi,
        forall|j: int| lo <= j < hi ==> !is_set(x, j),
    ensures
        ones_below(x, hi) == ones_below(x, lo),
    decreases hi - lo,
{
    if lo < hi {
        lemma_ones_below_gap(x, lo, hi - 1);
    }
}

/// Counting through a window: where `y` shows at each position `p` below
/// `hi` what `x` shows at `p + by`, the set bits of `y` below `hi` are as
/// many as those of `x` from `by` to `by + hi`.
pub proof fn lemma_ones_below_window(x: u64, y: u64, by: int, hi: int)
    requires
        0 <= by,
        0 <= hi,
        forall|p: int| 0 <= p < hi ==> is_set(y, p) == is_set(x, p + by),
    ensures
        ones_below(y, hi) == ones_in(x, by, by + hi),
    decreases hi,
{
    if hi > 0 {
        lemma_ones_below_window(x, y, by, hi - 1);
    }
}

/// Two words that agree on the positions from `lo` to `hi` have as many
/// set bits there.
pub proof fn lemma_ones_in_agree(x: u64, y: u64, lo: int, hi: int)
    requires
        lo <= hi,
        forall|j: int| lo <= j < hi ==> is_set(x, j) == is_set(y, j),
    ensures
        ones_in(x, lo, hi) == ones_in(y, lo, hi),
    decreases hi - lo,
{
    if lo < hi {
        lemma_ones_in_agree(x, y, lo, hi - 1);
    }
}

/// Where every bit below `hi` is set, `hi` set bits lie below `hi`.
pub proof fn lemma_ones_below_full(x: u64, hi: int)
    requires
        0 <= hi,
        forall|p: int| 0 <= p < hi ==> is_set(x, p),
    ensures
        ones_below(x, hi) == hi,
    decreases hi,
{
    if hi > 0 {
        lemma_ones_below_full(x, hi - 1);
    }
}

/// A word without set bits below `hi` has no bit set there.
pub proof fn lemma_no_ones(x: u64, hi: int, p: int)
    requires
        ones_below(x, hi) == 0,
        p < hi,
    ensures
        !is_set(x, p),
{
    if is_set(x, p) {
        lemma_ones_below_monotone(x, p + 1, hi);
    }
}

/// Clearing a set bit: the other bits stay, and the word has one set bit
/// fewer.
pub proof fn lemma_clear_bit(x: u64, p: int)
    requires
        is_set(x, p),
    ensures
        forall|j: int|
            #[trigger] is_set(x & !(1u64 << (p as u64)), j) <==> is_set(x, j) && j != p,
        popcount(x & !(1u64 << (p as u64))) + 1 == popcount(x),
{
    let k = p as u64;
    let y = x & !(1u64 << k);
    assert forall|j: int| #[trigger] is_set(y, j) <==> is_set(x, j) && j != p by {
        if 0 <= j < 64 {
            let q = j as u64;
            assert(((x & !(1u64 << k)) >> q) & 1 == 1 <==> (x >> q) & 1 == 1 && q != k)
                by (bit_vector)
                requires
                    k < 64,
                    q < 64,
            ;
        }
    }
    lemma_ones_in_agree(x, y, 0, p);
    lemma_ones_in_agree(x, y, p + 1, 64);
}

/// `u32::count_ones`: the number of ones in the binary representation of
/// the word, as the standard library documents it.
pub assume_specification[ u32::count_ones ](x: u32) -> (n: u32)
    ensures
        n == popcount(x as u64),
;

/// `u32::wrapping_neg`: the negation of the word modulo `2^32`, as the
/// standard library documents it.
pub assume_specification[ u32::wrapping_neg ](x: u32) -> (n: u32)
    ensures
        n as int == if x == 0 { 0 } else { 0x1_0000_0000 - x },
;

} // verus!
