//! The bit primitives: *select*, the position of the n-th set bit of a
//! word, and *deposit*, the scattering of the low bits of a word to the set
//! positions of a mask. Each comes in more than one implementation, and
//! all of one primitive give the same result.

use vstd::prelude::*;
use crate::bits::{
    is_nth_one, is_set, lemma_nth_one, lemma_nth_one_is, lemma_ones_below_bound,
    lemma_ones_below_full, lemma_ones_below_gap, lemma_ones_below_window, nth_one, ones_below,
    ones_in, popcount,
};

verus! {

// The partial sums of the population count network: the `k`-th of them
// holds, in each field of `2^k` bits, the number of set bits of `x` in that
// field.

/// The counts of the set bits of `x` in its fields of two bits.
spec fn sums1(x: u64) -> u64 {
    ((x & 0x5555_5555_5555_5555) + ((x >> 1) & 0x5555_5555_5555_5555)) as u64
}

/// The counts of the set bits of `x` in its fields of four bits.
spec fn sums2(x: u64) -> u64 {
    ((sums1(x) & 0x3333_3333_3333_3333) + ((sums1(x) >> 2) & 0x3333_3333_3333_3333)) as u64
}

/// The counts of the set bits of `x` in its bytes.
spec fn sums3(x: u64) -> u64 {
    ((sums2(x) + (sums2(x) >> 4)) as u64) & 0x0F0F_0F0F_0F0F_0F0F
}

/// The counts of the set bits of `x` in its fields of 16 bits.
spec fn sums4(x: u64) -> u64 {
    ((sums3(x) + (sums3(x) >> 8)) as u64) & 0x00FF_00FF_00FF_00FF
}

/// The counts of the set bits of `x` in its two halves.
spec fn sums5(x: u64) -> u64 {
    ((sums4(x) + (sums4(x) >> 16)) as u64) & 0x0000_FFFF_0000_FFFF
}

/// The field of `2^k` bits that starts at bit `r` of the `k`-th partial sum.
spec fn field(x: u64, k: int, r: u64) -> u64 {
    if k == 0 {
        (x >> r) & 0x1
    } else if k == 1 {
        (sums1(x) >> r) & 0x3
    } else if k == 2 {
        (sums2(x) >> r) & 0xF
    } else if k == 3 {
        (sums3(x) >> r) & 0xFF
    } else if k == 4 {
        (sums4(x) >> r) & 0xFFFF
    } else {
        (sums5(x) >> r) & 0xFFFF_FFFF
    }
}

/// The width `2^k` of the fields of the `k`-th partial sum.
spec fn width(k: int) -> int {
    if k == 0 {
        1
    } else if k == 1 {
        2
    } else if k == 2 {
        4
    } else if k == 3 {
        8
    } else if k == 4 {
        16
    } else {
        32
    }
}

/// The additions that build the partial sums do not overflow.
proof fn lemma_sums_fit(x: u64)
    ensures
        (x & 0x5555_5555_5555_5555) + ((x >> 1) & 0x5555_5555_5555_5555) <= u64::MAX,
        (sums1(x) & 0x3333_3333_3333_3333) + ((sums1(x) >> 2) & 0x3333_3333_3333_3333) <= u64::MAX,
        sums2(x) + (sums2(x) >> 4) <= u64::MAX,
        sums3(x) + (sums3(x) >> 8) <= u64::MAX,
        sums4(x) + (sums4(x) >> 16) <= u64::MAX,
{
    let s1 = sums1(x);
    let s2 = sums2(x);
    let s3 = sums3(x);
    let s4 = sums4(x);
    assert((x & 0x5555_5555_5555_5555) + ((x >> 1) & 0x5555_5555_5555_5555)
        <= 0xFFFF_FFFF_FFFF_FFFF) by (bit_vector);
    assert((s1 & 0x3333_3333_3333_3333) + ((s1 >> 2) & 0x3333_3333_3333_3333)
        <= 0x6666_6666_6666_6666) by (bit_vector);
    assert(s2 <= 0x6666_6666_6666_6666 ==> s2 + (s2 >> 4) <= 0xFFFF_FFFF_FFFF_FFFF)
        by (bit_vector);
    assert(s3 == (((s2 + (s2 >> 4)) as u64) & 0x0F0F_0F0F_0F0F_0F0F));
    assert(s3 & 0xF0F0_F0F0_F0F0_F0F0 == 0) by (bit_vector)
        requires
            s3 == (((s2 + (s2 >> 4)) as u64) & 0x0F0F_0F0F_0F0F_0F0F),
    ;
    assert(s3 & 0xF0F0_F0F0_F0F0_F0F0 == 0 ==> s3 + (s3 >> 8) <= 0xFFFF_FFFF_FFFF_FFFF)
        by (bit_vector);
    assert(s4 & 0xFF00_FF00_FF00_FF00 == 0) by (bit_vector)
        requires
            s4 == (((s3 + (s3 >> 8)) as u64) & 0x00FF_00FF_00FF_00FF),
    ;
    assert(s4 & 0xFF00_FF00_FF00_FF00 == 0 ==> s4 + (s4 >> 16) <= 0xFFFF_FFFF_FFFF_FFFF)
        by (bit_vector);
}

/// A field of a partial sum is the sum of its two halves, which are fields
/// of the partial sum below it.
proof fn lemma_field_halves(x: u64, k: int, r: u64)
    requires
        1 <= k <= 5,
        r < 64,
        r as int % width(k) == 0,
    ensures
        field(x, k, r) == field(x, k - 1, r) + field(x, k - 1, (r + width(k - 1)) as u64),
{
    lemma_sums_fit(x);
    let s1 = sums1(x);
    let s2 = sums2(x);
    let s3 = sums3(x);
    let s4 = sums4(x);
    let s5 = sums5(x);
    if k == 1 {
        let t = (r + 1) as u64;
        assert((s1 >> r) & 0x3 == ((x >> r) & 0x1) + ((x >> t) & 0x1)) by (bit_vector)
            requires
                s1 == (x & 0x5555_5555_5555_5555) + ((x >> 1) & 0x5555_5555_5555_5555),
                r < 64,
                r % 2 == 0,
                t == r + 1,
        ;
    } else if k == 2 {
        let t = (r + 2) as u64;
        assert((s2 >> r) & 0xF == ((s1 >> r) & 0x3) + ((s1 >> t) & 0x3)) by (bit_vector)
            requires
                s2 == (s1 & 0x3333_3333_3333_3333) + ((s1 >> 2) & 0x3333_3333_3333_3333),
                r < 64,
                r % 4 == 0,
                t == r + 2,
        ;
    } else if k == 3 {
        let t = (r + 4) as u64;
        assert(s2 & 0x8888_8888_8888_8888 == 0) by (bit_vector)
            requires
                s2 == (s1 & 0x3333_3333_3333_3333) + ((s1 >> 2) & 0x3333_3333_3333_3333),
        ;
        let w = (s2 + (s2 >> 4)) as u64;
        assert((s3 >> r) & 0xFF == ((s2 >> r) & 0xF) + ((s2 >> t) & 0xF)) by (bit_vector)
            requires
                s2 & 0x8888_8888_8888_8888 == 0,
                w == s2 + (s2 >> 4),
                s3 == w & 0x0F0F_0F0F_0F0F_0F0F,
                r < 64,
                r % 8 == 0,
                t == r + 4,
        ;
    } else if k == 4 {
        let t = (r + 8) as u64;
        let v = (s2 + (s2 >> 4)) as u64;
        assert(s3 & 0xF0F0_F0F0_F0F0_F0F0 == 0) by (bit_vector)
            requires
                s3 == v & 0x0F0F_0F0F_0F0F_0F0F,
        ;
        let w = (s3 + (s3 >> 8)) as u64;
        assert((s4 >> r) & 0xFFFF == ((s3 >> r) & 0xFF) + ((s3 >> t) & 0xFF)) by (bit_vector)
            requires
                s3 & 0xF0F0_F0F0_F0F0_F0F0 == 0,
                w == s3 + (s3 >> 8),
                s4 == w & 0x00FF_00FF_00FF_00FF,
                r < 64,
                r % 16 == 0,
                t == r + 8,
        ;
    } else {
        let t = (r + 16) as u64;
        let v = (s3 + (s3 >> 8)) as u64;
        assert(s4 & 0xFF00_FF00_FF00_FF00 == 0) by (bit_vector)
            requires
                s4 == v & 0x00FF_00FF_00FF_00FF,
        ;
        let w = (s4 + (s4 >> 16)) as u64;
        assert((s5 >> r) & 0xFFFF_FFFF == ((s4 >> r) & 0xFFFF) + ((s4 >> t) & 0xFFFF))
            by (bit_vector)
            requires
                s4 & 0xFF00_FF00_FF00_FF00 == 0,
                w == s4 + (s4 >> 16),
                s5 == w & 0x0000_FFFF_0000_FFFF,
                r < 64,
                r % 32 == 0,
                t == r + 16,
        ;
    }
}

/// Each field of a partial sum counts the set bits of `x` in that field.
proof fn lemma_field_counts(x: u64, k: int, r: u64)
    requires
        0 <= k <= 5,
        r < 64,
        r as int % width(k) == 0,
    ensures
        field(x, k, r) == ones_in(x, r as int, r + width(k)),
    decreases k,
{
    if k == 0 {
        assert((x >> r) & 0x1 == 0 || (x >> r) & 0x1 == 1) by (bit_vector);
    } else {
        lemma_field_halves(x, k, r);
        lemma_field_counts(x, k - 1, r);
        lemma_field_counts(x, k - 1, (r + width(k - 1)) as u64);
    }
}

/// Select by bit arithmetic alone: the position of the `idx`-th set bit of
/// `mask`, found by a binary descent over the partial sums of the
/// population count. Where `mask` has no such bit, the result is some
/// position all the same.
pub fn select64_fallback(idx: u8, mask: u64) -> (r: u8)
    ensures
        r < 64,
        idx < popcount(mask) ==> is_nth_one(mask, idx as nat, r as int),
        idx < popcount(mask) ==> r as int == nth_one(mask, idx as nat),
{
    proof {
        lemma_sums_fit(mask);
        lemma_ones_below_bound(mask, 64);
    }
    let ghost target = idx;
    let b0: u64 = mask;
    let b1: u64 = (b0 & 0x5555_5555_5555_5555) + ((b0 >> 1) & 0x5555_5555_5555_5555);
    let b2: u64 = (b1 & 0x3333_3333_3333_3333) + ((b1 >> 2) & 0x3333_3333_3333_3333);
    let b3: u64 = (b2 + (b2 >> 4)) & 0x0F0F_0F0F_0F0F_0F0F;
    let b4: u64 = (b3 + (b3 >> 8)) & 0x00FF_00FF_00FF_00FF;
    let b5: u64 = (b4 + (b4 >> 16)) & 0x0000_FFFF_0000_FFFF;
    assert(b1 == sums1(mask) && b2 == sums2(mask) && b3 == sums3(mask) && b4 == sums4(mask) && b5
        == sums5(mask));

    let mut idx: u64 = idx as u64;
    let mut r: u8 = 0;

    proof {
        lemma_field_counts(mask, 5, r as u64);
    }
    let b: u64 = (b5 >> r) & 0xFFFF_FFFF;
    if idx >= b {
        idx -= b;
        r += 32;
    }
    proof {
        lemma_field_counts(mask, 4, r as u64);
    }
    let b: u64 = (b4 >> r) & 0xFFFF;
    if idx >= b {
        idx -= b;
        r += 16;
    }
    proof {
        lemma_field_counts(mask, 3, r as u64);
    }
    let b: u64 = (b3 >> r) & 0xFF;
    if idx >= b {
        idx -= b;
        r += 8;
    }
    proof {
        lemma_field_counts(mask, 2, r as u64);
    }
    let b: u64 = (b2 >> r) & 0xF;
    if idx >= b {
        idx -= b;
        r += 4;
    }
    proof {
        lemma_field_counts(mask, 1, r as u64);
    }
    let b: u64 = (b1 >> r) & 0x3;
    if idx >= b {
        idx -= b;
        r += 2;
    }
    proof {
        lemma_field_counts(mask, 0, r as u64);
        lemma_field_counts(mask, 0, (r + 1) as u64);
    }
    let b: u64 = (b0 >> r) & 0x1;
    if idx >= b {
        r += 1;
    }
    proof {
        if target < popcount(mask) {
            lemma_nth_one_is(mask, target as nat, r as int);
        }
    }
    r
}

/// Parallel bit deposit, restricted to the positions of `mask` below `hi`:
/// the bit of `src` whose number is the count of set bits of `mask` below
/// a set position `p` of `mask` lands at `p`.
pub open spec fn deposit_below(src: u64, mask: u64, hi: int) -> u64
    decreases hi,
{
    if hi <= 0 {
        0
    } else if is_set(mask, hi - 1) && is_set(src, ones_below(mask, hi - 1) as int) {
        deposit_below(src, mask, hi - 1) | (1u64 << ((hi - 1) as u64))
    } else {
        deposit_below(src, mask, hi - 1)
    }
}

/// Parallel bit deposit: the low bits of `src` scattered, in order, to the
/// set positions of `mask`.
pub open spec fn deposit(src: u64, mask: u64) -> u64 {
    deposit_below(src, mask, 64)
}

/// Bit `p` of a deposit is set exactly when `p` is a set position of `mask`
/// below the bound and the bit of `src` that belongs to it is set.
pub proof fn lemma_deposit_below_bit(src: u64, mask: u64, hi: int, p: int)
    requires
        hi <= 64,
    ensures
        is_set(deposit_below(src, mask, hi), p) <==> p < hi && is_set(mask, p) && is_set(
            src,
            ones_below(mask, p) as int,
        ),
    decreases hi,
{
    if hi <= 0 {
        if 0 <= p < 64 {
            let q = p as u64;
            assert((0u64 >> q) & 1 != 1) by (bit_vector);
        }
    } else {
        lemma_deposit_below_bit(src, mask, hi - 1, p);
        if 0 <= p < 64 {
            let low = deposit_below(src, mask, hi - 1);
            let q = p as u64;
            let h = (hi - 1) as u64;
            assert(((low | (1u64 << h)) >> q) & 1 == 1 <==> (low >> q) & 1 == 1 || q == h)
                by (bit_vector)
                requires
                    q < 64,
                    h < 64,
            ;
        }
    }
}

/// Bit `p` of a deposit is set exactly when `p` is a set position of `mask`
/// and the bit of `src` that belongs to it is set.
pub proof fn lemma_deposit_bit(src: u64, mask: u64, p: int)
    ensures
        is_set(deposit(src, mask), p) <==> is_set(mask, p) && is_set(src, ones_below(mask, p) as int),
{
    lemma_deposit_below_bit(src, mask, 64, p);
}

/// Where `mask` has no set bit between two bounds, the deposits below them
/// agree.
proof fn lemma_deposit_below_gap(src: u64, mask: u64, lo: int, hi: int)
    requires
        lo <= hi,
        forall|j: int| lo <= j < hi ==> !is_set(mask, j),
    ensures
        deposit_below(src, mask, hi) == deposit_below(src, mask, lo),
    decreases hi - lo,
{
    if lo < hi {
        lemma_deposit_below_gap(src, mask, lo, hi - 1);
    }
}

/// What the lowest set bit of the rest of a mask says of the whole mask.
/// `rest` holds the bits of `full` from position `done` up, and is not
/// zero. Its lowest set bit, at `p`, is the lowest set bit of `full` from
/// `done` up; isolating it gives `1 << p`, and clearing it leaves the bits
/// of `full` from `p + 1` up.
proof fn lemma_lowest_one(full: u64, done: int, rest: u32)
    requires
        0 <= done <= 32,
        rest != 0,
        rest as u64 == (full >> (done as u64)) << (done as u64),
    ensures
        ({
            let p = vstd::std_specs::bits::u32_trailing_zeros(rest);
            &&& done <= p < 32
            &&& is_set(full, p as int)
            &&& forall|j: int| done <= j < p ==> !is_set(full, j)
            &&& rest & ((0x1_0000_0000 - rest) as u32) == 1u32 << p
            &&& rest >= 1
            &&& (rest & ((rest - 1) as u32)) as u64 == (full >> ((p + 1) as u64)) << ((p + 1) as u64)
        }),
{
    let p = vstd::std_specs::bits::u32_trailing_zeros(rest);
    vstd::std_specs::bits::axiom_u32_trailing_zeros(rest);
    let d = done as u64;
    let sh = (32 - p) as u32;
    assert(rest << sh == 0);
    assert(d <= p) by (bit_vector)
        requires
            rest as u64 == (full >> d) << d,
            d <= 32,
            p < 32,
            (rest >> p) & 1 == 1,
    ;
    assert((full >> (p as u64)) & 1 == 1) by (bit_vector)
        requires
            rest as u64 == (full >> d) << d,
            d <= p,
            p < 32,
            (rest >> p) & 1 == 1,
    ;
    assert forall|j: int| done <= j < p implies !is_set(full, j) by {
        let i = j as u32;
        assert((rest >> i) & 1 == 0);
        assert((full >> (i as u64)) & 1 == 0) by (bit_vector)
            requires
                rest as u64 == (full >> d) << d,
                d <= i,
                i < 32,
                (rest >> i) & 1 == 0,
        ;
    }
    let neg = (0x1_0000_0000 - rest) as u32;
    assert(rest & neg == 1u32 << p) by (bit_vector)
        requires
            rest != 0,
            neg == 0x1_0000_0000 - rest,
            p < 32,
            sh == 32 - p,
            (rest >> p) & 1 == 1,
            rest << sh == 0,
    ;
    let q = (p + 1) as u64;
    assert((rest & ((rest - 1) as u32)) as u64 == (full >> q) << q) by (bit_vector)
        requires
            rest != 0,
            rest as u64 == (full >> d) << d,
            d <= p,
            p < 32,
            q == p + 1,
            sh == 32 - p,
            (rest >> p) & 1 == 1,
            rest << sh == 0,
    ;
}

/// Parallel bit deposit by bit arithmetic alone: walks the set bits of
/// `mask` from the least significant one up, and copies the next bit of
/// `src` to each.
pub fn pdep32_fallback(src: u32, mask: u32) -> (r: u32)
    ensures
        r as u64 == deposit(src as u64, mask as u64),
        forall|p: int|
            #[trigger] is_set(r as u64, p) <==> is_set(mask as u64, p) && is_set(
                src as u64,
                ones_below(mask as u64, p) as int,
            ),
{
    let ghost full = mask as u64;
    let ghost from = src as u64;
    let ghost mut done: int = 0;
    let mut mask: u32 = mask;
    // iterate bit from lsb -> msb
    let mut bit: u32 = 1;
    let mut r: u32 = 0;
    proof {
        assert(mask as u64 == (full >> 0u64) << 0u64) by (bit_vector)
            requires
                full == mask as u64,
        ;
        assert(bit == 1u32 << 0u32) by (bit_vector)
            requires
                bit == 1u32,
        ;
    }
    while mask != 0
        invariant
            0 <= done <= 32,
            from == src as u64,
            mask as u64 == (full >> (done as u64)) << (done as u64),
            ones_below(full, done) < 32 ==> bit == 1u32 << (ones_below(full, done) as u32),
            r as u64 == deposit_below(from, full, done),
        decreases 32 - done,
    {
        let ghost p = vstd::std_specs::bits::u32_trailing_zeros(mask);
        let ghost k = ones_below(full, done) as u32;
        proof {
            lemma_lowest_one(full, done, mask);
            lemma_ones_below_gap(full, done, p as int);
            lemma_deposit_below_gap(from, full, done, p as int);
            lemma_ones_below_bound(full, p as int);
            assert((src & bit != 0) <==> ((src as u64) >> (k as u64)) & 1 == 1) by (bit_vector)
                requires
                    bit == 1u32 << k,
                    k < 32,
            ;
        }
        if src & bit != 0 {
            // add the lsb from mask to r
            let ghost before = r;
            r |= mask & mask.wrapping_neg();
            proof {
                assert(r as u64 == (before as u64) | (1u64 << (p as u64))) by (bit_vector)
                    requires
                        r == before | (1u32 << p),
                        p < 32,
                ;
            }
        }
        // clear lsb
        mask &= mask - 1;
        bit <<= 1;
        proof {
            if k + 1 < 32 {
                let k1 = (k + 1) as u32;
                assert((1u32 << k) << 1 == 1u32 << k1) by (bit_vector)
                    requires
                        k1 == k + 1,
                        k1 < 32,
                ;
            }
            done = p + 1;
        }
    }
    proof {
        let d = done as u64;
        assert forall|j: int| done <= j < 64 implies !is_set(full, j) by {
            let i = j as u64;
            assert((full >> i) & 1 == 0) by (bit_vector)
                requires
                    (full >> d) << d == 0,
                    d <= i,
                    i < 64,
            ;
        }
        lemma_deposit_below_gap(from, full, done, 64);
        assert forall|p: int|
            #[trigger] is_set(r as u64, p) <==> is_set(full, p) && is_set(
                from,
                ones_below(full, p) as int,
            ) by {
            lemma_deposit_bit(from, full, p);
        }
    }
    r
}

/// Parallel bit deposit on 32-bit words: the low bits of `src` scattered,
/// in order, to the set positions of `mask`.
pub fn pdep32(src: u32, mask: u32) -> (r: u32)
    ensures
        r as u64 == deposit(src as u64, mask as u64),
        forall|p: int|
            #[trigger] is_set(r as u64, p) <==> is_set(mask as u64, p) && is_set(
                src as u64,
                ones_below(mask as u64, p) as int,
            ),
{
    pdep32_fallback(src, mask)
}

/// The two halves of a word: what each shows and how its set bits count.
proof fn lemma_halves(mask: u64, lo: u32, hi: u32)
    requires
        lo == #[verifier::truncate] (mask as u32),
        hi == (mask >> 32) as u32,
    ensures
        forall|p: int| #[trigger] is_set(lo as u64, p) <==> p < 32 && is_set(mask, p),
        forall|p: int| #[trigger] is_set(hi as u64, p) <==> 0 <= p < 32 && is_set(mask, p + 32),
        forall|p: int|
            0 <= p <= 32 ==> #[trigger] ones_below(lo as u64, p) == ones_below(mask, p),
        forall|p: int|
            0 <= p <= 32 ==> #[trigger] ones_below(hi as u64, p) + ones_below(mask, 32)
                == ones_below(mask, p + 32),
        popcount(lo as u64) == ones_below(mask, 32),
        popcount(hi as u64) + ones_below(mask, 32) == popcount(mask),
{
    let l = lo as u64;
    let h = hi as u64;
    assert forall|p: int| #[trigger] is_set(l, p) <==> p < 32 && is_set(mask, p) by {
        if 0 <= p < 64 {
            let q = p as u64;
            assert((l >> q) & 1 == 1 <==> q < 32 && (mask >> q) & 1 == 1) by (bit_vector)
                requires
                    lo == mask as u32,
                    l == lo as u64,
                    q < 64,
            ;
        }
    }
    assert forall|p: int| #[trigger] is_set(h, p) <==> 0 <= p < 32 && is_set(mask, p + 32) by {
        if 0 <= p < 64 {
            let q = p as u64;
            let t = if p < 32 { (p + 32) as u64 } else { 0 };
            assert((h >> q) & 1 == 1 <==> q < 32 && (mask >> t) & 1 == 1) by (bit_vector)
                requires
                    hi == (mask >> 32) as u32,
                    h == hi as u64,
                    q < 64,
                    q < 32 ==> t == q + 32,
            ;
        }
    }
    assert forall|p: int| 0 <= p <= 32 implies #[trigger] ones_below(l, p) == ones_below(
        mask,
        p,
    ) by {
        lemma_ones_below_window(mask, l, 0, p);
    }
    assert forall|p: int| 0 <= p <= 32 implies #[trigger] ones_below(h, p) + ones_below(mask, 32)
        == ones_below(mask, p + 32) by {
        lemma_ones_below_window(mask, h, 32, p);
    }
    lemma_ones_below_gap(l, 32, 64);
    lemma_ones_below_gap(h, 32, 64);
}

/// A deposit of the single bit `idx` has its one set bit at the `idx`-th
/// set position of the mask.
proof fn lemma_deposit_one(idx: u32, mask: u32, d: u32, p: int)
    requires
        idx < 32,
        forall|p: int|
            #[trigger] is_set(d as u64, p) <==> is_set(mask as u64, p) && is_set(
                (1u32 << idx) as u64,
                ones_below(mask as u64, p) as int,
            ),
    ensures
        is_set(d as u64, p) <==> is_nth_one(mask as u64, idx as nat, p),
{
    let j = ones_below(mask as u64, p);
    assert(is_set(d as u64, p) <==> is_set(mask as u64, p) && is_set((1u32 << idx) as u64, j as int));
    if 0 <= j < 64 {
        let q = j as u64;
        assert(((((1u32 << idx) as u64) >> q) & 1 == 1) <==> q == idx) by (bit_vector)
            requires
                idx < 32,
                q < 64,
        ;
    }
}

/// Select by two 32-bit deposits: the single bit `idx`, or `idx` less the
/// set bits of the low half, is deposited through the half of `mask` that
/// holds the bit sought, and lands at its position.
pub fn select64_via_pdep32(idx: u8, mask: u64) -> (r: u8)
    requires
        idx < popcount(mask),
    ensures
        is_nth_one(mask, idx as nat, r as int),
        r as int == nth_one(mask, idx as nat),
{
    let mask_hi: u32 = (mask >> 32) as u32;
    let mask_lo: u32 = #[verifier::truncate] (mask as u32);
    let num_bits_lo: u32 = mask_lo.count_ones();
    let idx: u32 = idx as u32;
    proof {
        lemma_halves(mask, mask_lo, mask_hi);
        lemma_ones_below_bound(mask, 32);
        lemma_ones_below_bound(mask_hi as u64, 32);
    }
    if idx < num_bits_lo {
        let d: u32 = pdep32(1 << idx, mask_lo);
        let t: u32 = d.trailing_zeros();
        proof {
            let q = nth_one(mask_lo as u64, idx as nat);
            lemma_nth_one(mask_lo as u64, idx as nat);
            lemma_deposit_one(idx, mask_lo, d, q);
            let k = q as u64;
            assert(d != 0) by (bit_vector)
                requires
                    ((d as u64) >> k) & 1 == 1,
            ;
            vstd::std_specs::bits::axiom_u32_trailing_zeros(d);
            assert(((d as u64) >> (t as u64)) & 1 == 1) by (bit_vector)
                requires
                    t < 32,
                    (d >> t) & 1 == 1,
            ;
            lemma_deposit_one(idx, mask_lo, d, t as int);
            lemma_nth_one_is(mask, idx as nat, t as int);
        }
        t as u8
    } else {
        let d: u32 = pdep32(1 << (idx - num_bits_lo), mask_hi);
        let t: u32 = (d as u64).trailing_zeros();
        proof {
            let rest = (idx - num_bits_lo) as u32;
            let q = nth_one(mask_hi as u64, rest as nat);
            lemma_nth_one(mask_hi as u64, rest as nat);
            lemma_deposit_one(rest, mask_hi, d, q);
            let k = q as u64;
            assert(d as u64 != 0) by (bit_vector)
                requires
                    ((d as u64) >> k) & 1 == 1,
            ;
            vstd::std_specs::bits::axiom_u64_trailing_zeros(d as u64);
            lemma_deposit_one(rest, mask_hi, d, t as int);
            lemma_nth_one_is(mask, idx as nat, t + 32);
        }
        t as u8 + 32
    }
}

/// Select: the position of the `idx`-th set bit of `mask`, counting set
/// bits from the least significant one and starting at zero.
pub fn select64(idx: u8, mask: u64) -> (r: u8)
    requires
        idx < popcount(mask),
    ensures
        is_nth_one(mask, idx as nat, r as int),
        r as int == nth_one(mask, idx as nat),
{
    select64_fallback(idx, mask)
}

/// The three implementations of select agree: on a mask with more than
/// `idx` set bits, whatever `select64`, `select64_via_pdep32` and
/// `select64_fallback` return is one and the same position, that of the
/// `idx`-th set bit.
pub proof fn lemma_select_implementations_agree(idx: u8, mask: u64, a: u8, b: u8, c: u8)
    requires
        idx < popcount(mask),
        call_ensures(select64, (idx, mask), a),
        call_ensures(select64_via_pdep32, (idx, mask), b),
        call_ensures(select64_fallback, (idx, mask), c),
    ensures
        a == b,
        b == c,
        a as int == nth_one(mask, idx as nat),
{
}

/// The two implementations of the 32-bit deposit agree: whatever `pdep32`
/// and `pdep32_fallback` return for one source and one mask is the same
/// word.
pub proof fn lemma_pdep32_implementations_agree(src: u32, mask: u32, a: u32, b: u32)
    requires
        call_ensures(pdep32, (src, mask), a),
        call_ensures(pdep32_fallback, (src, mask), b),
    ensures
        a == b,
        a as u64 == deposit(src as u64, mask as u64),
{
}

/// In the mask with all 64 bits set, the `idx`-th set bit is at `idx`.
pub proof fn lemma_select_full_mask(idx: nat)
    requires
        idx < 64,
    ensures
        popcount(u64::MAX) == 64,
        nth_one(u64::MAX, idx) == idx,
{
    assert forall|p: int| 0 <= p < 64 implies is_set(u64::MAX, p) by {
        let q = p as u64;
        assert((0xFFFF_FFFF_FFFF_FFFFu64 >> q) & 1 == 1) by (bit_vector)
            requires
                q < 64,
        ;
    }
    lemma_ones_below_full(u64::MAX, 64);
    lemma_ones_below_full(u64::MAX, idx as int);
    lemma_nth_one_is(u64::MAX, idx, idx as int);
}

/// In a mask with exactly one set bit, at position `p`, the set bit
/// number zero is at `p`.
pub proof fn lemma_select_single_bit(p: nat)
    requires
        p < 64,
    ensures
        popcount(1u64 << (p as u64)) == 1,
        nth_one(1u64 << (p as u64), 0) == p,
{
    let mask = 1u64 << (p as u64);
    let k = p as u64;
    assert forall|j: int| is_set(mask, j) <==> j == p by {
        if 0 <= j < 64 {
            let q = j as u64;
            assert(((1u64 << k) >> q) & 1 == 1 <==> q == k) by (bit_vector)
                requires
                    k < 64,
                    q < 64,
            ;
        }
    }
    lemma_ones_below_gap(mask, 0, p as int);
    lemma_ones_below_gap(mask, p as int + 1, 64);
    lemma_nth_one_is(mask, 0, p as int);
}

} // verus!
