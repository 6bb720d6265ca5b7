use moser_tardos::random_space::{
    random_random_space, random_space_of_nbits, InfiniteRandomSpace, LimitedRandomSpace, RandomSpace,
};

#[test]
fn limited_source_replays_the_pattern_lowest_bit_first() {
    let mut space = LimitedRandomSpace::new(0b1011001, 7);
    let expected = [true, false, false, true, true, false, true];
    for bit in expected {
        assert_eq!(space.fetch_random_bit(), Some(bit));
    }
    assert_eq!(space.fetch_random_bit(), None);
    assert_eq!(space.fetch_random_bit(), None);
    assert_eq!(space.size(), 7);
}

#[test]
fn limited_source_stops_at_its_limit() {
    let mut space = LimitedRandomSpace::new(usize::MAX, 3);
    assert_eq!(space.fetch_random_bit(), Some(true));
    assert_eq!(space.fetch_random_bit(), Some(true));
    assert_eq!(space.fetch_random_bit(), Some(true));
    assert_eq!(space.fetch_random_bit(), None);
    let mut empty = LimitedRandomSpace::new(5, 0);
    assert_eq!(empty.fetch_random_bit(), None);
}

#[test]
fn bits_beyond_the_word_are_zero() {
    let width = usize::BITS as usize;
    let mut space = LimitedRandomSpace::new(usize::MAX, width + 2);
    for _ in 0..width {
        assert_eq!(space.fetch_random_bit(), Some(true));
    }
    assert_eq!(space.fetch_random_bit(), Some(false));
    assert_eq!(space.fetch_random_bit(), Some(false));
    assert_eq!(space.fetch_random_bit(), None);
}

#[test]
fn to_bits_gives_all_bits_whatever_was_fetched() {
    let mut space = LimitedRandomSpace::new(6, 4);
    space.fetch_random_bit();
    assert_eq!(space.to_bits(), vec![false, true, true, false]);
}

#[test]
fn iterator_walks_through_all_patterns_in_order() {
    let mut it = random_space_of_nbits(3);
    let mut seen = Vec::new();
    while let Some(space) = it.next() {
        assert_eq!(space.size(), 3);
        seen.push(space.to_bits());
    }
    assert_eq!(seen.len(), 8);
    assert_eq!(seen[0], vec![false, false, false]);
    assert_eq!(seen[1], vec![true, false, false]);
    assert_eq!(seen[6], vec![false, true, true]);
    assert_eq!(seen[7], vec![true, true, true]);
    assert!(it.next().is_none());
}

#[test]
fn iterator_of_no_bits_has_one_pattern() {
    let mut it = random_space_of_nbits(0);
    let mut first = it.next().unwrap();
    assert_eq!(first.fetch_random_bit(), None);
    assert!(it.next().is_none());
}

#[test]
fn infinite_source_never_ends() {
    let mut space = InfiniteRandomSpace::new(42);
    let mut ones = 0;
    for _ in 0..2000 {
        if space.fetch_random_bit().unwrap() {
            ones += 1;
        }
    }
    assert!(ones > 0 && ones < 2000);
    assert_eq!(space.size(), 2147483647);
}

#[test]
fn infinite_source_is_determined_by_its_seed() {
    let mut a = InfiniteRandomSpace::new(7);
    let mut b = InfiniteRandomSpace::new(7);
    for _ in 0..200 {
        assert_eq!(a.fetch_random_bit(), b.fetch_random_bit());
    }
}

#[test]
fn random_source_hands_out_bits() {
    let mut space = random_random_space();
    for _ in 0..100 {
        assert!(space.fetch_random_bit().is_some());
    }
}
