use segtrs::numt::factors_of;
use segtrs::numt::is_palindrome;
use segtrs::numt::is_prime;
use segtrs::numt::triangular_number;
use segtrs::numt::NumtError;

#[test]
fn below_2_are_not_prime() {
    assert!(!is_prime(0));
    assert!(!is_prime(1));
}

#[test]
fn primes_below_20() {
    assert!(is_prime(2));
    assert!(is_prime(3));
    assert!(is_prime(5));
    assert!(is_prime(7));
    assert!(is_prime(11));
    assert!(is_prime(13));
    assert!(is_prime(17));
    assert!(is_prime(19));
}

#[test]
fn composites_below_20() {
    for n in [4u64, 6, 8, 9, 10, 12, 14, 15, 16, 18] {
        assert!(!is_prime(n));
    }
}

#[test]
fn palindrome_one_casing() {
    assert!(is_palindrome("tacocat"));
}

#[test]
fn palindrome_case_insensitive() {
    assert!(is_palindrome("TacoCat"));
}

#[test]
fn palindrome_with_spaces() {
    assert!(is_palindrome("taco cat"));
}

#[test]
fn palindrome_numbers() {
    assert!(is_palindrome("1234321"));
}

#[test]
fn not_a_palindrome() {
    assert!(!is_palindrome("kyoto"));
    assert!(!is_palindrome("12 34"));
}

#[test]
fn triangular_small() {
    assert_eq!(0, triangular_number(0).unwrap());
    assert_eq!(1, triangular_number(1).unwrap());
    assert_eq!(3, triangular_number(2).unwrap());
    assert_eq!(6, triangular_number(3).unwrap());
    assert_eq!(10, triangular_number(4).unwrap());
    assert_eq!(15, triangular_number(5).unwrap());
}

#[test]
fn triangular_overflow() -> Result<(), String> {
    let result = triangular_number(u64::MAX);
    if result.is_err() {
        Ok(())
    } else {
        Err(String::from("large triangular numbers should overflow"))
    }
}

#[test]
fn triangular_overflow_error_kind() {
    assert_eq!(Err(NumtError::Overflow), triangular_number(u64::MAX));
    assert_eq!(Err(NumtError::Overflow), triangular_number(u64::MAX - 1));
}

#[test]
fn factors_of_zero_and_one() {
    assert_eq!(vec![0], factors_of(0));
    assert_eq!(vec![1], factors_of(1));
}

#[test]
fn factors_non_square() {
    let result = factors_of(28);
    assert_eq!(vec![1, 2, 4, 7, 14, 28], result);
}

#[test]
fn factors_of_a_square() {
    let result = factors_of(64);
    assert_eq!(vec![1, 2, 4, 8, 16, 32, 64], result);
}

#[test]
fn factors_of_a_prime() {
    assert_eq!(vec![1, 97], factors_of(97));
}
