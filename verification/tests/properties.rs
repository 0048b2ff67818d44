use naturals::{Natural, NaturalError};

#[test]
fn round_trip_plain() {
    assert_eq!(Natural::parse("10203").unwrap().format(), "10203");
}

#[test]
fn round_trip_single_zero() {
    assert_eq!(Natural::parse("0").unwrap().format(), "0");
}

#[test]
fn round_trip_keeps_padding() {
    // Parsing does not strip leading zeros and formatting prints them
    // back, so even padded text survives the round trip.
    assert_eq!(Natural::parse("007").unwrap().format(), "007");
}

#[test]
fn add_commutative() {
    let a = Natural::parse("987654321").unwrap();
    let b = Natural::parse("12345").unwrap();
    assert_eq!(a.add(&b), b.add(&a));
    assert_eq!(a.add(&b).format(), b.add(&a).format());
}

#[test]
fn add_associative() {
    let a = Natural::parse("999").unwrap();
    let b = Natural::parse("1").unwrap();
    let c = Natural::parse("8765").unwrap();
    assert_eq!(a.add(&b).add(&c), a.add(&b.add(&c)));
    assert_eq!(a.add(&b).add(&c).format(), a.add(&b.add(&c)).format());
}

#[test]
fn add_zero_identity() {
    let a = Natural::parse("9081726354").unwrap();
    let sum = a.add(&Natural::zero());
    assert_eq!(sum, a);
    // The identity holds digit for digit, not merely by value.
    assert_eq!(sum.format(), a.format());
}

#[test]
fn multiply_commutative() {
    let a = Natural::parse("7809").unwrap();
    let b = Natural::parse("4567").unwrap();
    assert_eq!(a.multiply(&b), b.multiply(&a));
    assert_eq!(a.multiply(&b).format(), b.multiply(&a).format());
}

#[test]
fn multiply_one_identity() {
    let a = Natural::parse("420690").unwrap();
    let prod = a.multiply(&Natural::one());
    assert_eq!(prod, a);
    assert_eq!(prod.format(), a.format());
}

#[test]
fn subtract_add_inverse() {
    let a = Natural::parse("1000000").unwrap();
    let b = Natural::parse("3").unwrap();
    assert_eq!(a.subtract(&b).unwrap().add(&b), a);
}

#[test]
fn divide_multiply_relation() {
    let a = Natural::parse("1234").unwrap();
    let b = Natural::parse("7").unwrap();
    let q = a.divide(&b).unwrap();
    assert_eq!(q.format(), "176");
    assert!(q.multiply(&b) <= a);
    assert!(a < q.add(&Natural::one()).multiply(&b));
}

#[test]
fn ordering_consistent_with_value() {
    let small = Natural::parse("99").unwrap();
    let big = Natural::parse("100").unwrap();
    assert!(small < big);
    assert!(big > small);
    assert!(!(small < small.clone()));
    assert_eq!(small, small.clone());
}

#[test]
fn padded_values_compare_equal() {
    // Comparison goes by numeric value: leading zero padding from parse
    // does not make a different number.
    let padded = Natural::parse("007").unwrap();
    let plain = Natural::parse("7").unwrap();
    assert_eq!(padded, plain);
    assert!(Natural::parse("010").unwrap() > Natural::parse("9").unwrap());
}

#[test]
fn two_to_the_sixty_fifth() {
    // 2 squared six times is 2^64; one more factor of two gives 2^65.
    let two = Natural::parse("2").unwrap();
    let mut x = two.clone();
    for _ in 0..6 {
        x = x.clone().multiply(&x);
    }
    let x = x.multiply(&two);
    assert_eq!(x.format(), "36893488147419103232");
}

#[test]
fn carry_ripples_through_nines() {
    let mut a = Natural::parse("99999").unwrap();
    a.increment();
    assert_eq!(a.format(), "100000");
}

#[test]
fn borrow_ripples_through_zeros() {
    let a = Natural::parse("100000").unwrap();
    let b = Natural::parse("1").unwrap();
    assert_eq!(a.subtract(&b).unwrap().format(), "99999");
}

#[test]
fn subtract_to_zero_trims() {
    let a = Natural::parse("555").unwrap();
    assert_eq!(a.subtract(&a).unwrap().format(), "0");
}

#[test]
fn parse_empty_is_rejected() {
    assert_eq!(Natural::parse(""), Err(NaturalError::EmptyNumber));
}

#[test]
fn parse_non_digit_is_rejected() {
    assert_eq!(Natural::parse("12a4"), Err(NaturalError::InvalidDigit));
    assert_eq!(Natural::parse("-5"), Err(NaturalError::InvalidDigit));
    assert_eq!(Natural::parse(" 5"), Err(NaturalError::InvalidDigit));
}

#[test]
fn divide_by_zero_is_rejected() {
    let a = Natural::parse("5").unwrap();
    assert_eq!(a.divide(&Natural::zero()), Err(NaturalError::DivisionByZero));
    // A padded zero is still zero.
    let padded_zero = Natural::parse("000").unwrap();
    assert_eq!(a.divide(&padded_zero), Err(NaturalError::DivisionByZero));
}

#[test]
fn subtract_underflow_is_rejected() {
    let a = Natural::parse("5").unwrap();
    let b = Natural::parse("6").unwrap();
    assert_eq!(a.subtract(&b), Err(NaturalError::Underflow));
    let big = Natural::parse("10000").unwrap();
    assert_eq!(a.subtract(&big), Err(NaturalError::Underflow));
}

#[test]
fn division_truncates() {
    let a = Natural::parse("17").unwrap();
    let b = Natural::parse("5").unwrap();
    assert_eq!(a.divide(&b).unwrap().format(), "3");
    assert_eq!(b.divide(&a).unwrap().format(), "0");
    assert_eq!(a.divide(&Natural::one()).unwrap().format(), "17");
}

#[test]
fn zero_and_one_render() {
    assert_eq!(Natural::zero().format(), "0");
    assert_eq!(Natural::one().format(), "1");
    assert!(Natural::zero().is_zero());
    assert!(!Natural::one().is_zero());
}
