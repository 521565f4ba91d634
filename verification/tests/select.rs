use fastperm::mask::{fastmap32, fill_mask, index_mask};
use fastperm::select64::{
    pdep32, pdep32_fallback, select64, select64_fallback, select64_via_pdep32,
};

fn assert_select64(out_idx: u8, in_idx: u8, mask: u64) {
    assert_eq!(out_idx, select64(in_idx, mask));
    assert_eq!(out_idx, select64_via_pdep32(in_idx, mask));
    assert_eq!(out_idx, select64_fallback(in_idx, mask));
}

/// The deposit, bit by bit: the k-th set bit of the mask gets bit k of the source.
fn deposit_by_definition(src: u32, mask: u32) -> u32 {
    let mut r = 0u32;
    let mut k = 0u32;
    for p in 0..32u32 {
        if (mask >> p) & 1 == 1 {
            if (src >> k) & 1 == 1 {
                r |= 1 << p;
            }
            k += 1;
        }
    }
    r
}

/// Select, bit by bit: the position of the set bit with `idx` set bits below it.
fn select_by_definition(idx: u8, mask: u64) -> u8 {
    let mut seen = 0u8;
    for p in 0..64u8 {
        if (mask >> p) & 1 == 1 {
            if seen == idx {
                return p;
            }
            seen += 1;
        }
    }
    panic!("the mask has no such set bit")
}

/// A small generator of test words.
fn next_test_word(state: &mut u64) -> u64 {
    *state ^= *state << 13;
    *state ^= *state >> 7;
    *state ^= *state << 17;
    *state
}

#[test]
fn test_index_mask() {
    assert_eq!(0b0000_0001, index_mask(1));
    assert_eq!(0b0001_1111, index_mask(5));
    assert_eq!(u64::MAX, index_mask(64));
}

#[test]
fn test_select64() {
    let mask = 0b1101001100001101;
    assert_select64(0, 0, mask);
    assert_select64(2, 1, mask);
    assert_select64(3, 2, mask);
    assert_select64(8, 3, mask);
    assert_select64(9, 4, mask);
    assert_select64(12, 5, mask);
    assert_select64(14, 6, mask);
    assert_select64(15, 7, mask);
}

#[test]
fn test_select64_max_mask() {
    for idx in 0..64_u8 {
        assert_select64(idx, idx, u64::MAX);
    }
}

#[test]
fn test_select64_one_idx() {
    for idx in 0..64_u8 {
        assert_select64(idx, 0, 1 << (idx as u64));
    }
}

#[test]
fn test_select64_one_idx_smear_high() {
    for idx in 0..64_u8 {
        assert_select64(idx, 0, (1_u64 << (idx as u64)).wrapping_neg());
    }
}

#[test]
fn select64_small_mask() {
    assert_eq!(1, select64(0, 0b10110));
    assert_eq!(2, select64(1, 0b10110));
    assert_eq!(4, select64(2, 0b10110));
    assert_select64(1, 0, 0b10110);
    assert_select64(2, 1, 0b10110);
    assert_select64(4, 2, 0b10110);
}

#[test]
fn select64_high_half() {
    let mask = 0x8000_0001_0000_0003_u64;
    assert_select64(0, 0, mask);
    assert_select64(1, 1, mask);
    assert_select64(32, 2, mask);
    assert_select64(63, 3, mask);
    assert_select64(63, 0, 1 << 63);
    assert_select64(32, 0, 0xFFFF_FFFF_0000_0000);
    assert_select64(63, 31, 0xFFFF_FFFF_0000_0000);
}

#[test]
fn select64_implementations_agree() {
    let mut state = 0x9E37_79B9_7F4A_7C15_u64;
    for round in 0..2000 {
        let mut mask = next_test_word(&mut state);
        if round % 3 == 0 {
            mask &= next_test_word(&mut state);
        }
        if round % 7 == 0 {
            mask |= next_test_word(&mut state);
        }
        if mask == 0 {
            continue;
        }
        let ones = mask.count_ones() as u64;
        let idx = (next_test_word(&mut state) % ones) as u8;
        let expected = select_by_definition(idx, mask);
        assert_select64(expected, idx, mask);
    }
}

#[test]
fn select64_every_index_of_a_mask() {
    let mask = 0xF0F0_1234_8000_00FF_u64;
    for idx in 0..mask.count_ones() as u8 {
        assert_select64(select_by_definition(idx, mask), idx, mask);
    }
}

#[test]
fn pdep32_fallback_values() {
    assert_eq!(0b10010, pdep32_fallback(0b101, 0b11010));
    assert_eq!(0b01000, pdep32_fallback(0b010, 0b11010));
    assert_eq!(0b11010, pdep32_fallback(0b111, 0b11010));
    assert_eq!(0b11010, pdep32_fallback(u32::MAX, 0b11010));
    assert_eq!(0, pdep32_fallback(0b1000, 0b11010));
    assert_eq!(0, pdep32_fallback(u32::MAX, 0));
    assert_eq!(0, pdep32_fallback(0, u32::MAX));
    assert_eq!(0xDEAD_BEEF, pdep32_fallback(0xDEAD_BEEF, u32::MAX));
    assert_eq!(0x8000_0000, pdep32_fallback(1, 0x8000_0000));
    assert_eq!(0x8000_0001, pdep32_fallback(0b11, 0x8000_0001));
}

#[test]
fn pdep32_is_pdep32_fallback() {
    let mut state = 0x0123_4567_89AB_CDEF_u64;
    for _ in 0..2000 {
        let src = next_test_word(&mut state) as u32;
        let mask = next_test_word(&mut state) as u32;
        let expected = deposit_by_definition(src, mask);
        assert_eq!(expected, pdep32(src, mask));
        assert_eq!(expected, pdep32_fallback(src, mask));
    }
}

#[test]
fn pdep32_single_bit_lands_on_selected_position() {
    let mask = 0b1101_0011_0000_1101_u32;
    for idx in 0..mask.count_ones() {
        let d = pdep32(1 << idx, mask);
        assert_eq!(1, d.count_ones());
        assert_eq!(select64(idx as u8, mask as u64) as u32, d.trailing_zeros());
    }
}

#[test]
fn fastmap32_values() {
    assert_eq!(0, fastmap32(0, 64));
    assert_eq!(63, fastmap32(u32::MAX, 64));
    assert_eq!(32, fastmap32(0x8000_0000, 64));
    assert_eq!(5, fastmap32(0x8000_0000, 10));
    assert_eq!(9, fastmap32(u32::MAX, 10));
    assert_eq!(0, fastmap32(u32::MAX, 1));
    assert_eq!(0, fastmap32(u32::MAX, 0));
    assert_eq!(0xFFFF_FFFE, fastmap32(u32::MAX, u32::MAX));
    assert_eq!(2, fastmap32(0xC000_0000, 3));
    assert_eq!(1, fastmap32(0x5555_5556, 3));
    assert_eq!(0, fastmap32(0x5555_5555, 3));
}

#[test]
fn fastmap32_stays_in_range() {
    let mut state = 0x1357_9BDF_0246_8ACE_u64;
    for _ in 0..2000 {
        let x = next_test_word(&mut state) as u32;
        for n in 1..=64u32 {
            let r = fastmap32(x, n);
            assert!(r < n);
            assert_eq!(((x as u64 * n as u64) >> 32) as u32, r);
        }
    }
}

#[test]
fn index_mask_every_width() {
    for n in 1..=64u32 {
        let mask = index_mask(n);
        assert_eq!(n, mask.count_ones());
        assert_eq!(n, mask.trailing_ones());
    }
}

#[test]
fn fill_mask_values() {
    assert_eq!((0, 0), fill_mask(Vec::<u8>::new().into_iter()));
    assert_eq!((0b101010, 3), fill_mask(vec![1u8, 3, 5].into_iter()));
    assert_eq!((0b101010, 3), fill_mask(vec![5u8, 1, 3].into_iter()));
    assert_eq!((0b1000, 2), fill_mask(vec![3u8, 3].into_iter()));
    assert_eq!((1 << 63 | 1, 2), fill_mask(vec![63u8, 0].into_iter()));
    assert_eq!((u64::MAX, 64), fill_mask(0..64u8));
}

#[test]
fn select64_fallback_without_such_a_bit() {
    assert!(select64_fallback(0, 0) < 64);
    assert!(select64_fallback(9, 0) < 64);
    assert!(select64_fallback(255, 0) < 64);
    assert!(select64_fallback(3, 0b111) < 64);
    assert!(select64_fallback(64, u64::MAX) < 64);
    assert!(select64_fallback(255, u64::MAX) < 64);
    let mut state = 0x0F0F_1234_5678_9ABC_u64;
    for _ in 0..2000 {
        let mask = next_test_word(&mut state) & next_test_word(&mut state);
        let idx = next_test_word(&mut state) as u8;
        let r = select64_fallback(idx, mask);
        assert!(r < 64);
        if (idx as u32) < mask.count_ones() {
            assert_eq!(select_by_definition(idx, mask), r);
        }
    }
}
