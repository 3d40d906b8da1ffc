use palindrome_products::{palindrome_products, Palindrome};

fn values(found: Option<(Palindrome, Palindrome)>) -> Option<(u64, u64)> {
    found.map(|(smallest, largest)| (smallest.into_inner(), largest.into_inner()))
}

#[test]
fn single_digit_factors() {
    assert_eq!(values(palindrome_products(1, 9)), Some((1, 9)));
}

#[test]
fn double_digit_factors() {
    assert_eq!(values(palindrome_products(10, 99)), Some((121, 9009)));
}

#[test]
fn triple_digit_factors() {
    assert_eq!(values(palindrome_products(100, 999)), Some((10201, 906609)));
}

#[test]
fn min_above_max_has_no_product() {
    assert_eq!(values(palindrome_products(100, 10)), None);
    assert_eq!(values(palindrome_products(2, 1)), None);
    assert_eq!(values(palindrome_products(u64::MAX, 0)), None);
}

#[test]
fn single_factor_one() {
    assert_eq!(values(palindrome_products(1, 1)), Some((1, 1)));
}

#[test]
fn single_factor_zero() {
    assert_eq!(values(palindrome_products(0, 0)), Some((0, 0)));
}

#[test]
fn range_from_zero() {
    assert_eq!(values(palindrome_products(0, 3)), Some((0, 9)));
    assert_eq!(values(palindrome_products(0, 12)), Some((0, 121)));
}

#[test]
fn range_without_palindromic_product() {
    assert_eq!(values(palindrome_products(10, 10)), None);
    assert_eq!(values(palindrome_products(4, 7)), None);
    assert_eq!(values(palindrome_products(990, 999)), None);
}

#[test]
fn smallest_and_largest_coincide() {
    assert_eq!(values(palindrome_products(11, 13)), Some((121, 121)));
    assert_eq!(values(palindrome_products(15, 17)), Some((272, 272)));
}

#[test]
fn smallest_and_largest_differ() {
    assert_eq!(values(palindrome_products(2, 5)), Some((4, 9)));
    assert_eq!(values(palindrome_products(1, 4)), Some((1, 9)));
}

#[test]
fn largest_factors_whose_square_fits() {
    let top: u64 = u32::MAX as u64;
    let found = values(palindrome_products(top, top));
    let square = top * top;
    let text = square.to_string();
    let backwards: String = text.chars().rev().collect();
    if text == backwards {
        assert_eq!(found, Some((square, square)));
    } else {
        assert_eq!(found, None);
    }
}

#[test]
fn results_are_palindromes_in_order() {
    for (min, max) in [(1u64, 30u64), (7, 45), (20, 60), (0, 25)] {
        if let Some((smallest, largest)) = palindrome_products(min, max) {
            assert!(smallest <= largest);
            assert!(Palindrome::new(smallest.into_inner()).is_some());
            assert!(Palindrome::new(largest.into_inner()).is_some());
        }
    }
}

#[test]
fn agrees_with_the_multiplication_table() {
    for min in 0u64..12 {
        for max in min..(min + 12) {
            let mut smallest: Option<u64> = None;
            let mut largest: Option<u64> = None;
            for a in min..=max {
                for b in a..=max {
                    let p = a * b;
                    let text = p.to_string();
                    let backwards: String = text.chars().rev().collect();
                    if text == backwards {
                        smallest = Some(smallest.map_or(p, |s| s.min(p)));
                        largest = Some(largest.map_or(p, |l| l.max(p)));
                    }
                }
            }
            let expected = match (smallest, largest) {
                (Some(s), Some(l)) => Some((s, l)),
                _ => None,
            };
            assert_eq!(values(palindrome_products(min, max)), expected);
        }
    }
}
