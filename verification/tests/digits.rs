use naturals::{CarryProduct, CarrySum, Digit, DigitDifference, NaturalError};

#[test]
fn digit_parse_zero() {
    let zero: Digit = Digit::from_char('0').unwrap();
    assert_eq!(zero, Digit::Zero)
}

#[test]
fn digit_parse_00000000() {
    let zero: Digit = Digit::from_u8(0 as u8).unwrap();
    assert_eq!(zero, Digit::Zero)
}

#[test]
fn digit_ordered() {
    assert!(Digit::Zero < Digit::One)
}

#[test]
fn digit_can_add() {
    assert_eq!(
        CarrySum::new(false, Digit::Zero).add_two(Digit::Two, Digit::Three),
        CarrySum::new(false, Digit::Five)
    );
}

#[test]
fn digit_can_carry() {
    assert_eq!(
        CarrySum::new(false, Digit::Zero).add_two(Digit::Nine, Digit::Three),
        CarrySum::new(true, Digit::Two)
    );
}

#[test]
fn can_mul() {
    assert_eq!(
        CarryProduct::new(Digit::Zero, Digit::Zero).mul_two(Digit::Two, Digit::Three),
        CarryProduct::new(Digit::Zero, Digit::Six)
    );
}

#[test]
fn can_mul0() {
    assert_eq!(
        CarryProduct::new(Digit::Zero, Digit::Zero).mul_two(Digit::Two, Digit::Zero),
        CarryProduct::new(Digit::Zero, Digit::Zero)
    );
}

#[test]
fn can_mul1() {
    assert_eq!(
        CarryProduct::new(Digit::Zero, Digit::Zero).mul_two(Digit::Two, Digit::One),
        CarryProduct::new(Digit::Zero, Digit::Two)
    );
}

#[test]
fn can_mul_carry() {
    assert_eq!(
        CarryProduct::new(Digit::Zero, Digit::Zero).mul_two(Digit::Six, Digit::Seven),
        CarryProduct::new(Digit::Four, Digit::Two)
    );
}

#[test]
fn single_parse_zero() {
    let zero: Digit = Digit::from_char('0').unwrap();
    assert_eq!(zero, Digit::Zero)
}

#[test]
fn single_parse_00000000() {
    let zero: Digit = Digit::from_u8(0 as u8).unwrap();
    assert_eq!(zero, Digit::Zero)
}

#[test]
fn single_ordered() {
    assert!(Digit::Zero < Digit::One)
}

#[test]
fn single_can_add() {
    assert_eq!(
        CarrySum::new(false, Digit::Zero).add_two(Digit::Two, Digit::Three),
        CarrySum::new(false, Digit::Five)
    );
}

#[test]
fn single_can_carry() {
    assert_eq!(
        CarrySum::new(false, Digit::Zero).add_two(Digit::Nine, Digit::Three),
        CarrySum::new(true, Digit::Two)
    );
}

#[test]
fn digit_subtract_plain() {
    let r = Digit::Five.subtract(Digit::Three);
    assert_eq!(r, DigitDifference { borrow: false, difference: Digit::Two });
}

#[test]
fn digit_subtract_borrow() {
    let r = Digit::Three.subtract(Digit::Five);
    assert_eq!(r, DigitDifference { borrow: true, difference: Digit::Eight });
}

#[test]
fn digit_from_char_rejects_non_digits() {
    assert_eq!(Digit::from_char('x'), Err(NaturalError::InvalidDigit));
    assert_eq!(Digit::from_char(' '), Err(NaturalError::InvalidDigit));
}

#[test]
fn digit_from_u8_rejects_large_values() {
    assert_eq!(Digit::from_u8(10), Err(NaturalError::InvalidDigit));
    assert_eq!(Digit::from_u8(255), Err(NaturalError::InvalidDigit));
}

#[test]
fn digit_renders_as_char() {
    assert_eq!(Digit::Zero.to_char(), '0');
    assert_eq!(Digit::Nine.to_char(), '9');
    assert_eq!(Digit::Seven.as_u8(), 7);
}
