use segtrs::bigint::u64_to_digits;
use segtrs::BigInt;
use segtrs::BigIntError;

#[test]
fn bigint_with_invalid_decimal_digits() {
    let result = BigInt::new(vec![7, 8, 9, 10]);
    assert_eq!(Err(BigIntError::InvalidDigit), result.map(|b| b.digits().clone()));
}

#[test]
fn bigint_removes_extra_zeros() {
    let bigint = BigInt::new(vec![7, 8, 9, 0, 0, 0]).unwrap();
    assert_eq!(&vec![7, 8, 9], bigint.digits());
}

#[test]
fn big_all_zeros_equals_one_zero() {
    let bigint = BigInt::new(vec![0, 0, 0]).unwrap();
    assert_eq!(&vec![0], bigint.digits());
}

#[test]
fn bigint_add_two() {
    // Add 25 and 98 to get 123
    let a = BigInt::new(vec![5, 2]).unwrap();
    let b = BigInt::new(vec![8, 9]).unwrap();
    let sum = a.add(&b);

    assert_eq!(&vec![3, 2, 1], sum.digits());
}

#[test]
fn bigint_add_leaves_operands_unchanged() {
    // Add 31 and 987 to get 1018
    let a = BigInt::new(vec![1, 3, 0]).unwrap();
    let b = BigInt::new(vec![7, 8, 9, 1]).unwrap();
    let sum = a.add(&b);

    assert_eq!(&vec![1, 3], a.digits());
    assert_eq!(&vec![7, 8, 9, 1], b.digits());
    assert_eq!(&vec![8, 1, 0, 2], sum.digits());
}

#[test]
fn bigint_add_is_commutative() {
    let a = BigInt::new(vec![9, 9, 9, 9, 1]).unwrap();
    let b = BigInt::new(vec![3, 7]).unwrap();
    assert_eq!(a.add(&b).digits(), b.add(&a).digits());
}

#[test]
fn bigint_add_zero_is_identity() {
    let a = BigInt::new(vec![4, 1, 3]).unwrap();
    let zero = BigInt::new(vec![0]).unwrap();
    assert_eq!(&vec![4, 1, 3], a.add(&zero).digits());
    assert_eq!(&vec![4, 1, 3], zero.add(&a).digits());
}

#[test]
fn bigint_multiply_single_digit() {
    let a = BigInt::new(vec![3]).unwrap();
    let b = BigInt::new(vec![2]).unwrap();
    let product = a.multiply(&b);

    assert_eq!(&vec![6], product.digits());
}

#[test]
fn bigint_multiply_multi_digit() {
    // 12 multiplied by 345 is 4140
    let a = BigInt::new(vec![2, 1]).unwrap();
    let b = BigInt::new(vec![5, 4, 3]).unwrap();
    let product = a.multiply(&b);

    assert_eq!(&vec![0, 4, 1, 4], product.digits());
}

#[test]
fn bigint_multiply_is_commutative() {
    let a = BigInt::new(vec![7, 6, 5]).unwrap();
    let b = BigInt::new(vec![9, 8]).unwrap();
    assert_eq!(a.multiply(&b).digits(), b.multiply(&a).digits());
}

#[test]
fn bigint_multiply_by_zero_is_zero() {
    let a = BigInt::new(vec![7, 6, 5]).unwrap();
    let zero = BigInt::new(vec![0]).unwrap();
    assert_eq!(&vec![0], a.multiply(&zero).digits());
    assert_eq!(&vec![0], zero.multiply(&a).digits());
}

#[test]
fn bigint_u64_round_trip() {
    for n in [0u64, 1, 9, 10, 314, 987654321, u64::MAX] {
        let digits = u64_to_digits(n);
        let bigint = BigInt::new(digits.clone()).unwrap();
        assert_eq!(&digits, bigint.digits());
    }
    assert_eq!(vec![4, 1, 3], u64_to_digits(314));
    assert_eq!(vec![0], u64_to_digits(0));
}
