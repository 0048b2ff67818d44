use naturals::{Digit, Natural};

#[test]
fn lib_ack() {
    let x = Natural::parse("123").unwrap();
    assert_eq!(x.format(), "123");
}

#[test]
fn lib_degree() {
    let x = Natural::parse("123").unwrap();
    assert_eq!(x.degree(), 2);
}

#[test]
fn lib_coefficient() {
    let x = Natural::parse("123").unwrap();
    assert_eq!(x.coefficient(1), Digit::Two);
}

#[test]
fn lib_add() {
    let x = Natural::parse("9").unwrap();
    let y = Natural::parse("99").unwrap();
    assert_eq!(x.add(&y), Natural::parse("108").unwrap());
}

#[test]
fn lib_add_large() {
    let x = Natural::parse("4294967295").unwrap();
    let x64: u64 = 4294967295;
    let y = Natural::parse("8234567891").unwrap();
    let y64: u64 = 8234567891;
    assert_eq!(format!("{}", x.add(&y).format()), format!("{}", x64 + y64));
}

#[test]
fn natural_ack() {
    let x = Natural::parse("123").unwrap();
    assert_eq!(x.format(), "123");
}

#[test]
fn natural_degree() {
    let x = Natural::parse("123").unwrap();
    assert_eq!(x.degree(), 2);
}

#[test]
fn natural_coefficient() {
    let x = Natural::parse("123").unwrap();
    assert_eq!(x.coefficient(1), Digit::Two);
}

#[test]
fn natural_add() {
    let x = Natural::parse("9").unwrap();
    let y = Natural::parse("99").unwrap();
    assert_eq!(x.add(&y), Natural::parse("108").unwrap());
}

#[test]
fn natural_add_large() {
    let x = Natural::parse("4294967295").unwrap();
    let x64: u64 = 4294967295;
    let y = Natural::parse("8234567891").unwrap();
    let y64: u64 = 8234567891;
    assert_eq!(format!("{}", x.add(&y).format()), format!("{}", x64 + y64));
}

#[test]
fn mul() {
    let x = Natural::parse("3").unwrap();
    let y = Natural::parse("45").unwrap();
    assert_eq!(x.multiply(&y), Natural::parse("135").unwrap());
}

#[test]
fn mul_symmetric() {
    let x = Natural::parse("45").unwrap();
    let y = Natural::parse("3").unwrap();
    assert_eq!(x.multiply(&y), Natural::parse("135").unwrap());
}

#[test]
fn mul_80bit() {
    let two_1 = Natural::parse("2").unwrap();
    let two_2 = two_1.clone().multiply(&two_1);
    let two_4 = two_2.clone().multiply(&two_2);
    let two_8 = two_4.clone().multiply(&two_4);
    let two_16 = two_8.clone().multiply(&two_8);
    let two_32 = two_16.clone().multiply(&two_16);
    let two_64 = two_32.clone().multiply(&two_32);
    let two_80 = two_64.multiply(&two_16);
    assert_eq!(&format!("{}", two_80.format()), "1208925819614629174706176");
}

#[test]
fn equal() {
    let a = Natural::parse("1099511627776").unwrap();
    let b = Natural::parse("1099511627776").unwrap();
    assert_eq!(a, b);
}

#[test]
fn unequal() {
    let a = Natural::parse("1099511627776").unwrap();
    let b = Natural::parse("1099512627776").unwrap();
    assert_ne!(a, b);
}

#[test]
fn ordered_tiny() {
    let a = Natural::parse("10").unwrap();
    let b = Natural::parse("9").unwrap();
    assert!(a > b);
}

#[test]
fn ordered_small() {
    let a = Natural::parse("11").unwrap();
    let b = Natural::parse("10").unwrap();
    assert!(a > b);
}

#[test]
fn ordered_large() {
    let a = Natural::parse("1099511627776").unwrap();
    let b = Natural::parse("1099511626000").unwrap();
    assert!(a > b);
}

#[test]
fn subtract() {
    let a = Natural::parse("1099511627776").unwrap();
    let b = Natural::parse("1099511626000").unwrap();
    assert_eq!(a.subtract(&b).unwrap(), Natural::parse("1776").unwrap());
}

#[test]
fn increment() {
    let mut a = Natural::zero();
    a.increment();
    assert_eq!(a, Natural::one());
}

#[test]
fn div() {
    let a = Natural::parse("1099511627776").unwrap();
    let b = Natural::parse("2199023255552").unwrap();
    assert_eq!(b.divide(&a).unwrap(), Natural::parse("2").unwrap());
}

#[test]
fn div2() {
    let a = Natural::parse("1099511627776").unwrap();
    let b = Natural::parse("2199023255552").unwrap();
    assert_eq!(a.divide(&b).unwrap(), Natural::parse("0").unwrap());
}

#[test]
fn div3() {
    let a = Natural::parse("16").unwrap();
    let b = Natural::parse("5").unwrap();
    assert_eq!(a.divide(&b).unwrap(), Natural::parse("3").unwrap());
}

#[test]
fn coefficient_zero_extends() {
    let x = Natural::parse("123").unwrap();
    assert_eq!(x.coefficient(0), Digit::Three);
    assert_eq!(x.coefficient(2), Digit::One);
    assert_eq!(x.coefficient(7), Digit::Zero);
}

#[test]
fn set_coefficient_replaces_a_digit() {
    let mut x = Natural::parse("15").unwrap();
    x.set_coefficient(0, Digit::Nine);
    assert_eq!(x.format(), "19");
    x.set_coefficient(1, Digit::Zero);
    assert_eq!(x.format(), "09");
    assert_eq!(x, Natural::parse("9").unwrap());
}
