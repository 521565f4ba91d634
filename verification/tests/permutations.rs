use fastperm::mask::{fill_mask, index_mask};
use fastperm::random::RandomSource;
use fastperm::{
    BitScatter, Iter, Shuffle, ShuffleArray, ShuffleArrayIncremental, SmallIndexPermutations,
    MAX_PERIOD,
};
use rand::rngs::{SmallRng, StdRng};
use rand::SeedableRng;

fn small_rng() -> SmallRng {
    SmallRng::seed_from_u64(0xDEAD_BEEF_F000_BA55)
}

fn assert_permutation(n: u8, idxs: impl Iterator<Item = u8>) {
    let (mask, count) = fill_mask(idxs);
    assert_eq!(count, n);

    let expected_mask: u64 = index_mask(n as u32);
    assert_eq!(mask, expected_mask);
}

fn sorted(mut idxs: Vec<u8>) -> Vec<u8> {
    idxs.sort_unstable();
    idxs
}

/// Draws `cycles` cycles one index at a time and holds each to be a permutation.
fn assert_cycles<P: SmallIndexPermutations>(perm: &mut P, cycles: usize) {
    let n = perm.period();
    for _ in 0..cycles {
        let mut draws = Vec::new();
        for _ in 0..n {
            let i = perm.next_index();
            assert!(i < n);
            draws.push(i);
        }
        assert_eq!((0..n).collect::<Vec<_>>(), sorted(draws));
    }
}

#[test]
fn test_shuffle() {
    let n = 10;
    let mut s = Shuffle::new(small_rng(), n);
    let idxs = s.iter_period();
    assert_permutation(n, idxs.into_iter());
}

#[test]
fn test_shuffle_array() {
    let n = 10;
    let mut s = ShuffleArray::new(small_rng(), n);
    let idxs = s.iter_period();
    assert_permutation(n, idxs.into_iter());
}

#[test]
fn test_shuffle_array_incremental() {
    let n = 10;
    let mut s = ShuffleArrayIncremental::new(small_rng(), n);
    let idxs = s.iter_period();
    assert_permutation(n, idxs.into_iter());
}

#[test]
fn test_bit_scatter() {
    let n = 10;
    let mut s = BitScatter::new(small_rng(), n);
    let idxs = s.iter_period();
    assert_permutation(n, idxs.into_iter());
}

#[test]
fn sorted_shuffle_eq_range() {
    for n in 1..=MAX_PERIOD {
        for seed in 0..20u64 {
            let mut shuffle = Shuffle::new(SmallRng::seed_from_u64(seed), n);
            assert_eq!((0..n).collect::<Vec<_>>(), sorted(shuffle.iter_period()));
            assert_permutation(n, shuffle.iter_period().into_iter());
        }
    }
}

#[test]
fn sorted_shuffle_array_eq_range() {
    for n in 1..=MAX_PERIOD {
        for seed in 0..20u64 {
            let mut shuffle = ShuffleArray::new(SmallRng::seed_from_u64(seed), n);
            assert_eq!((0..n).collect::<Vec<_>>(), sorted(shuffle.iter_period()));
            assert_permutation(n, shuffle.iter_period().into_iter());
        }
    }
}

#[test]
fn sorted_shuffle_array_incremental_eq_range() {
    for n in 1..=MAX_PERIOD {
        for seed in 0..20u64 {
            let mut shuffle = ShuffleArrayIncremental::new(SmallRng::seed_from_u64(seed), n);
            assert_eq!((0..n).collect::<Vec<_>>(), sorted(shuffle.iter_period()));
            assert_permutation(n, shuffle.iter_period().into_iter());
        }
    }
}

#[test]
fn sorted_bit_scatter_eq_range() {
    for n in 1..=MAX_PERIOD {
        for seed in 0..20u64 {
            let mut bit_scatter = BitScatter::new(SmallRng::seed_from_u64(seed), n);
            assert_eq!((0..n).collect::<Vec<_>>(), sorted(bit_scatter.iter_period()));
            assert_permutation(n, bit_scatter.iter_period().into_iter());
        }
    }
}

#[test]
fn every_cycle_is_a_permutation() {
    for n in [1u8, 2, 3, 10, 63, 64] {
        assert_cycles(&mut Shuffle::new(small_rng(), n), 5);
        assert_cycles(&mut ShuffleArray::new(small_rng(), n), 5);
        assert_cycles(&mut ShuffleArrayIncremental::new(small_rng(), n), 5);
        assert_cycles(&mut BitScatter::new(small_rng(), n), 5);
    }
}

#[test]
fn shuffle_eleventh_draw_starts_a_fresh_cycle() {
    let mut s = Shuffle::new(small_rng(), 10);
    let first: Vec<u8> = (0..10).map(|_| s.next_index()).collect();
    assert_eq!((0..10).collect::<Vec<u8>>(), sorted(first));
    let second: Vec<u8> = (0..10).map(|_| s.next_index()).collect();
    assert_eq!((0..10).collect::<Vec<u8>>(), sorted(second));
}

#[test]
fn reset_in_mid_cycle_starts_a_fresh_cycle() {
    for n in [2u8, 10, 64] {
        let mut a = Shuffle::new(small_rng(), n);
        let mut b = ShuffleArray::new(small_rng(), n);
        let mut c = ShuffleArrayIncremental::new(small_rng(), n);
        let mut d = BitScatter::new(small_rng(), n);
        a.next_index();
        b.next_index();
        c.next_index();
        d.next_index();
        a.reset();
        b.reset();
        c.reset();
        d.reset();
        assert_cycles(&mut a, 2);
        assert_cycles(&mut b, 2);
        assert_cycles(&mut c, 2);
        assert_cycles(&mut d, 2);
    }
}

#[test]
fn period_is_the_period() {
    for n in 1..=MAX_PERIOD {
        assert_eq!(n, Shuffle::new(small_rng(), n).period());
        assert_eq!(n, ShuffleArray::new(small_rng(), n).period());
        assert_eq!(n, ShuffleArrayIncremental::new(small_rng(), n).period());
        assert_eq!(n, BitScatter::new(small_rng(), n).period());
    }
}

#[test]
fn period_one_gives_zero() {
    let mut a = Shuffle::new(small_rng(), 1);
    let mut b = ShuffleArray::new(small_rng(), 1);
    let mut c = ShuffleArrayIncremental::new(small_rng(), 1);
    let mut d = BitScatter::new(small_rng(), 1);
    for _ in 0..4 {
        assert_eq!(0, a.next_index());
        assert_eq!(0, b.next_index());
        assert_eq!(0, c.next_index());
        assert_eq!(0, d.next_index());
    }
}

#[test]
fn same_seed_same_draws() {
    for n in [7u8, 64] {
        let mut a = Shuffle::new(SmallRng::seed_from_u64(42), n);
        let mut b = Shuffle::new(SmallRng::seed_from_u64(42), n);
        let mut c = ShuffleArray::new(SmallRng::seed_from_u64(42), n);
        let mut d = ShuffleArray::new(SmallRng::seed_from_u64(42), n);
        let mut e = ShuffleArrayIncremental::new(SmallRng::seed_from_u64(42), n);
        let mut f = ShuffleArrayIncremental::new(SmallRng::seed_from_u64(42), n);
        let mut g = BitScatter::new(SmallRng::seed_from_u64(42), n);
        let mut h = BitScatter::new(SmallRng::seed_from_u64(42), n);
        for _ in 0..200 {
            assert_eq!(a.next_index(), b.next_index());
            assert_eq!(c.next_index(), d.next_index());
            assert_eq!(e.next_index(), f.next_index());
            assert_eq!(g.next_index(), h.next_index());
        }
    }
}

#[test]
fn shuffle_and_shuffle_array_give_the_same_draws() {
    let mut a = Shuffle::new(SmallRng::seed_from_u64(7), 33);
    let mut b = ShuffleArray::new(SmallRng::seed_from_u64(7), 33);
    for _ in 0..200 {
        assert_eq!(a.next_index(), b.next_index());
    }
}

#[test]
fn shuffle_changes_the_order() {
    let identity: Vec<u8> = (0..64).collect();
    let mut changed = 0;
    for seed in 0..10u64 {
        let mut a = Shuffle::new(SmallRng::seed_from_u64(seed), 64);
        let mut b = ShuffleArray::new(SmallRng::seed_from_u64(seed), 64);
        let da = a.iter_period();
        let db = b.iter_period();
        assert_eq!(da, db);
        if da != identity {
            changed += 1;
        }
    }
    assert_eq!(10, changed);
}

#[test]
fn shuffle_array_leaves_the_slots_beyond_the_period_alone() {
    let mut s = ShuffleArray::new(small_rng(), 5);
    for _ in 0..50 {
        assert!(s.next_index() < 5);
    }
}

#[test]
fn bit_scatter_draws_by_the_word() {
    let mut s = BitScatter::new(small_rng(), 8);
    // the pool is 0b1111_1111: word 0 is set bit 0
    assert_eq!(0, s.next_index_with(0));
    // the pool is 0b1111_1110, of 7: the largest word is set bit 6, at 7
    assert_eq!(7, s.next_index_with(u32::MAX));
    // the pool is 0b0111_1110, of 6: the word in the middle is set bit 3, at 4
    assert_eq!(4, s.next_index_with(0x8000_0000));
    // the pool is 0b0110_1110, of 5: word 0 is set bit 0, at 1
    assert_eq!(1, s.next_index_with(0));
    assert_eq!(2, s.next_index_with(0));
    assert_eq!(3, s.next_index_with(0));
    assert_eq!(6, s.next_index_with(u32::MAX));
    assert_eq!(5, s.next_index_with(u32::MAX));
    // the cycle is over: the pool is full again
    assert_eq!(7, s.next_index_with(u32::MAX));
    assert_eq!(0, s.next_index_with(0));
}

#[test]
fn shuffle_array_incremental_draws_by_the_word() {
    let mut s = ShuffleArrayIncremental::new(small_rng(), 4);
    // slots 0 1 2 3, cursor 0: the largest word picks slot 3
    assert_eq!(3, s.next_index_with(u32::MAX));
    // slots 3 1 2 0, cursor 1: word 0 picks slot 1
    assert_eq!(1, s.next_index_with(0));
    // slots 3 1 2 0, cursor 2: the largest word picks slot 3
    assert_eq!(0, s.next_index_with(u32::MAX));
    // slots 3 1 0 2, cursor 3: the one slot left
    assert_eq!(2, s.next_index_with(0x1234_5678));
    // the cursor is back at 0: slots 3 1 0 2, the word in the middle picks slot 2
    assert_eq!(0, s.next_index_with(0x8000_0000));
    // slots 0 1 3 2, cursor 1: word 0 picks slot 1
    assert_eq!(1, s.next_index_with(0));
}

#[test]
fn draws_by_the_word_are_permutations() {
    let mut state = 0x2545_F491_4F6C_DD1D_u64;
    for n in [1u8, 5, 64] {
        let mut a = BitScatter::new(small_rng(), n);
        let mut b = ShuffleArrayIncremental::new(small_rng(), n);
        for _ in 0..4 {
            let mut da = Vec::new();
            let mut db = Vec::new();
            for _ in 0..n {
                state ^= state << 13;
                state ^= state >> 7;
                state ^= state << 17;
                da.push(a.next_index_with(state as u32));
                db.push(b.next_index_with((state >> 32) as u32));
            }
            assert_eq!((0..n).collect::<Vec<_>>(), sorted(da));
            assert_eq!((0..n).collect::<Vec<_>>(), sorted(db));
        }
    }
}

#[test]
fn iteration_never_ends() {
    let mut it = BitScatter::new(small_rng(), 3).into_iter();
    let mut draws = Vec::new();
    for _ in 0..9 {
        match it.next() {
            Some(i) => draws.push(i),
            None => panic!("the iteration gave nothing"),
        }
    }
    assert_eq!(vec![0, 1, 2], sorted(draws[0..3].to_vec()));
    assert_eq!(vec![0, 1, 2], sorted(draws[3..6].to_vec()));
    assert_eq!(vec![0, 1, 2], sorted(draws[6..9].to_vec()));
}

#[test]
fn iteration_on_loan() {
    let mut s = ShuffleArrayIncremental::new(small_rng(), 6);
    s.next_index();
    let mut it = s.iter();
    let mut draws = Vec::new();
    for _ in 0..6 {
        draws.push(it.next().unwrap());
    }
    assert_eq!(vec![0, 1, 2, 3, 4, 5], sorted(draws));
    // the generator is at the start of a cycle again
    assert_cycles(&mut s, 1);
}

#[test]
fn iteration_starts_with_a_reset() {
    let mut s = Shuffle::new(small_rng(), 8);
    s.next_index();
    s.next_index();
    let mut it = Iter::new(s);
    let mut draws = Vec::new();
    for _ in 0..8 {
        draws.push(it.next().unwrap());
    }
    assert_eq!((0..8).collect::<Vec<u8>>(), sorted(draws));
}

#[test]
fn into_iter_period_is_a_permutation() {
    for n in [1u8, 10, 64] {
        assert_permutation(n, Shuffle::new(small_rng(), n).into_iter_period().into_iter());
        assert_permutation(n, ShuffleArray::new(small_rng(), n).into_iter_period().into_iter());
        assert_permutation(
            n,
            ShuffleArrayIncremental::new(small_rng(), n).into_iter_period().into_iter(),
        );
        assert_permutation(n, BitScatter::new(small_rng(), n).into_iter_period().into_iter());
    }
}

#[test]
fn generator_on_a_borrowed_source() {
    let mut rng = small_rng();
    let mut first = BitScatter::new(&mut rng, 64);
    let draws = first.iter_period();
    assert_permutation(64, draws.into_iter());
    let mut second = Shuffle::new(&mut rng, 64);
    assert_permutation(64, second.iter_period().into_iter());
}

#[test]
fn generator_on_the_standard_source() {
    let mut s = Shuffle::new(StdRng::seed_from_u64(1), 20);
    assert_permutation(20, s.iter_period().into_iter());
    let mut b = BitScatter::new(StdRng::seed_from_u64(1), 20);
    assert_permutation(20, b.iter_period().into_iter());
}

#[test]
fn generator_on_a_borrowed_generator() {
    let mut s = BitScatter::new(small_rng(), 12);
    let mut lent = &mut s;
    assert_eq!(12, SmallIndexPermutations::period(&lent));
    assert_cycles(&mut lent, 2);
    lent.reset();
    assert_cycles(&mut s, 1);
}

#[test]
fn source_gives_words_and_shuffles() {
    let mut rng = small_rng();
    let a = RandomSource::next_word(&mut rng);
    let b = RandomSource::next_word(&mut rng);
    let mut again = small_rng();
    assert_eq!(a, RandomSource::next_word(&mut again));
    assert_eq!(b, RandomSource::next_word(&mut again));
    assert_ne!(a, b);
    let mut items: Vec<u8> = (0..64).collect();
    RandomSource::shuffle(&mut rng, &mut items[..]);
    assert_ne!((0..64).collect::<Vec<u8>>(), items);
    assert_eq!((0..64).collect::<Vec<u8>>(), sorted(items));
}
