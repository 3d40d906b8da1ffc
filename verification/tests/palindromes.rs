use palindrome_products::digits::{is_palindromic, reversed_digits};
use palindrome_products::Palindrome;

#[test]
fn values_below_ten_are_palindromes() {
    for value in 0u64..10 {
        let p = Palindrome::new(value);
        assert!(p.is_some());
        assert_eq!(p.unwrap().into_inner(), value);
    }
}

#[test]
fn ten_is_no_palindrome() {
    assert!(Palindrome::new(10).is_none());
}

#[test]
fn accepts_palindromes() {
    for value in [11u64, 22, 101, 121, 1221, 9009, 12321, 906609, 1234567890987654321] {
        let p = Palindrome::new(value);
        assert!(p.is_some());
        assert_eq!(p.unwrap().into_inner(), value);
    }
}

#[test]
fn refuses_other_numbers() {
    for value in [12u64, 100, 123, 1231, 9010, 10010, 1000000, u64::MAX] {
        assert!(Palindrome::new(value).is_none());
    }
}

#[test]
fn trailing_zero_is_no_leading_zero() {
    assert!(Palindrome::new(110).is_none());
    assert!(Palindrome::new(1210).is_none());
    assert!(Palindrome::new(1000).is_none());
}

#[test]
fn into_inner_gives_the_value_back() {
    assert_eq!(Palindrome::new(9009).unwrap().into_inner(), 9009);
}

#[test]
fn palindromes_compare_by_value() {
    let small = Palindrome::new(121).unwrap();
    let large = Palindrome::new(9009).unwrap();
    assert!(small < large);
    assert_eq!(small, Palindrome::new(121).unwrap());
    assert_ne!(small, large);
    let copy = small;
    assert_eq!(copy, small);
    assert_eq!(format!("{:?}", small), "Palindrome(121)");
}

#[test]
fn agrees_with_the_decimal_text() {
    for value in 0u64..20000 {
        let text = value.to_string();
        let backwards: String = text.chars().rev().collect();
        assert_eq!(Palindrome::new(value).is_some(), text == backwards);
        assert_eq!(is_palindromic(value), text == backwards);
    }
}

#[test]
fn digits_come_least_significant_first() {
    assert_eq!(reversed_digits(0), vec![0]);
    assert_eq!(reversed_digits(7), vec![7]);
    assert_eq!(reversed_digits(10), vec![0, 1]);
    assert_eq!(reversed_digits(1203), vec![3, 0, 2, 1]);
    assert_eq!(
        reversed_digits(u64::MAX),
        vec![5, 1, 6, 1, 5, 5, 9, 0, 7, 3, 7, 0, 4, 4, 7, 6, 4, 4, 8, 1]
    );
}
