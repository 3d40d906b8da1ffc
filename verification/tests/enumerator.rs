use palindrome_products::ProductRange;

fn table(min: u64, max: u64) -> Vec<u64> {
    let mut all: Vec<u64> = Vec::new();
    for a in min..=max {
        for b in a..=max {
            all.push(a * b);
        }
    }
    all.sort();
    all.dedup();
    all
}

#[test]
fn ascending_steps() {
    let mut range = ProductRange::new(1, 3);
    assert_eq!(range.next(), Some(1));
    assert_eq!(range.next(), Some(2));
    assert_eq!(range.next(), Some(3));
    assert_eq!(range.next(), Some(4));
    assert_eq!(range.next(), Some(6));
    assert_eq!(range.next(), Some(9));
    assert_eq!(range.next(), None);
    assert_eq!(range.next(), None);
}

#[test]
fn descending_steps() {
    let mut range = ProductRange::new(1, 3);
    assert_eq!(range.next_back(), Some(9));
    assert_eq!(range.next_back(), Some(6));
    assert_eq!(range.next_back(), Some(4));
    assert_eq!(range.next_back(), Some(3));
    assert_eq!(range.next_back(), Some(2));
    assert_eq!(range.next_back(), Some(1));
    assert_eq!(range.next_back(), None);
    assert_eq!(range.next_back(), None);
}

#[test]
fn a_product_of_several_pairs_comes_once() {
    let mut range = ProductRange::new(2, 6);
    assert_eq!(
        range.drain(),
        vec![4, 6, 8, 9, 10, 12, 15, 16, 18, 20, 24, 25, 30, 36]
    );
}

#[test]
fn empty_range_gives_nothing() {
    let mut range = ProductRange::new(5, 4);
    assert_eq!(range.next(), None);
    assert_eq!(range.next_back(), None);
    assert_eq!(range.drain(), Vec::<u64>::new());
    assert_eq!(range.drain_back(), Vec::<u64>::new());
}

#[test]
fn single_factor() {
    let mut range = ProductRange::new(7, 7);
    assert_eq!(range.next(), Some(49));
    assert_eq!(range.next(), None);
    let mut range = ProductRange::new(7, 7);
    assert_eq!(range.next_back(), Some(49));
    assert_eq!(range.next_back(), None);
}

#[test]
fn zero_comes_once_from_the_low_end() {
    let mut range = ProductRange::new(0, 3);
    assert_eq!(range.drain(), vec![0, 1, 2, 3, 4, 6, 9]);
    assert_eq!(range.next(), None);
}

#[test]
fn zero_comes_once_from_the_high_end() {
    let mut range = ProductRange::new(0, 3);
    assert_eq!(range.drain_back(), vec![9, 6, 4, 3, 2, 1, 0]);
    assert_eq!(range.next_back(), None);
}

#[test]
fn range_of_zero_alone() {
    let mut range = ProductRange::new(0, 0);
    assert_eq!(range.next(), Some(0));
    assert_eq!(range.next(), None);
    let mut range = ProductRange::new(0, 0);
    assert_eq!(range.next_back(), Some(0));
    assert_eq!(range.next_back(), None);
}

#[test]
fn ascending_drain_is_the_sorted_table() {
    for (min, max) in [(1u64, 9u64), (10, 40), (0, 15), (97, 113), (3, 3)] {
        let mut range = ProductRange::new(min, max);
        assert_eq!(range.drain(), table(min, max));
    }
}

#[test]
fn ascending_values_are_products_in_strict_order() {
    let (min, max) = (6u64, 31u64);
    let mut range = ProductRange::new(min, max);
    let mut last: Option<u64> = None;
    while let Some(v) = range.next() {
        assert!((min..=max).any(|a| v % a == 0 && (min..=max).contains(&(v / a))));
        if let Some(l) = last {
            assert!(l < v);
        }
        last = Some(v);
    }
    assert_eq!(last, Some(max * max));
}

#[test]
fn descending_drain_reversed_is_the_ascending_drain() {
    for (min, max) in [(1u64, 9u64), (10, 40), (0, 15), (97, 113), (3, 3), (9, 2)] {
        let up = ProductRange::new(min, max).drain();
        let mut down = ProductRange::new(min, max).drain_back();
        down.reverse();
        assert_eq!(down, up);
    }
}

#[test]
fn both_ends_meet_in_the_middle() {
    let mut range = ProductRange::new(1, 4);
    assert_eq!(range.next(), Some(1));
    assert_eq!(range.next_back(), Some(16));
    assert_eq!(range.next(), Some(2));
    assert_eq!(range.next_back(), Some(12));
    assert_eq!(range.next(), Some(3));
    assert_eq!(range.next_back(), Some(9));
    assert_eq!(range.next(), Some(4));
    assert_eq!(range.next_back(), Some(8));
    assert_eq!(range.next(), Some(6));
    assert_eq!(range.next_back(), None);
    assert_eq!(range.next(), None);
}

#[test]
fn both_ends_share_the_table() {
    for (min, max) in [(1u64, 12u64), (0, 9), (5, 23), (30, 41)] {
        let all = table(min, max);
        for turns in 0..all.len() + 1 {
            let mut range = ProductRange::new(min, max);
            let mut front: Vec<u64> = Vec::new();
            for _ in 0..turns {
                front.push(range.next().unwrap());
            }
            let mut back = range.drain_back();
            back.reverse();
            front.extend(back);
            assert_eq!(front, all);
        }
    }
}

#[test]
fn alternating_ends_share_the_table() {
    for (min, max) in [(1u64, 12u64), (0, 9), (5, 23), (30, 41)] {
        let all = table(min, max);
        for pattern in 1u64..8 {
            let mut range = ProductRange::new(min, max);
            let mut front: Vec<u64> = Vec::new();
            let mut back: Vec<u64> = Vec::new();
            let mut turn: u64 = 0;
            loop {
                let from_low = (turn % (pattern + 1)) != 0;
                turn += 1;
                let got = if from_low { range.next() } else { range.next_back() };
                match got {
                    Some(v) => {
                        if from_low {
                            front.push(v);
                        } else {
                            back.push(v);
                        }
                    }
                    None => break,
                }
            }
            assert_eq!(range.next(), None);
            assert_eq!(range.next_back(), None);
            back.reverse();
            front.extend(back);
            assert_eq!(front, all);
        }
    }
}

#[test]
fn find_keys_names_the_rows_at_a_value() {
    let mut range = ProductRange::new(1, 4);
    assert_eq!(range.find_keys(4), vec![2]);
    assert_eq!(range.find_keys(16), vec![4]);
    assert_eq!(range.find_keys(5), Vec::<u64>::new());
    assert_eq!(range.next(), Some(1));
    assert_eq!(range.next(), Some(2));
    assert_eq!(range.next(), Some(3));
    let mut keys = range.find_keys(4);
    keys.sort();
    assert_eq!(keys, vec![1, 2]);
    assert_eq!(range.next(), Some(4));
    assert_eq!(range.find_keys(4), Vec::<u64>::new());
    assert_eq!(range.find_keys(6), vec![2]);
}

#[test]
fn squares_up_to_the_width_of_the_values() {
    let top: u64 = u32::MAX as u64;
    let mut range = ProductRange::new(top - 1, top);
    assert_eq!(
        range.drain(),
        vec![(top - 1) * (top - 1), (top - 1) * top, top * top]
    );
    let mut range = ProductRange::new(top - 1, top);
    assert_eq!(
        range.drain_back(),
        vec![top * top, (top - 1) * top, (top - 1) * (top - 1)]
    );
}
