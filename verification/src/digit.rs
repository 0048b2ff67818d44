use vstd::prelude::*;

use crate::error::NaturalError;

verus! {

/// One decimal digit, `0` through `9`.
///
/// The closed enumeration makes the `0..=9` range invariant a property of
/// the type itself: no bare integer ever stands for a digit.
#[derive(Clone, Copy, Debug, PartialEq, Eq, PartialOrd, Ord, Structural)]
pub enum Digit {
    Zero,
    One,
    Two,
    Three,
    Four,
    Five,
    Six,
    Seven,
    Eight,
    Nine,
}

/// Does this character stand for a decimal digit?
pub open spec fn is_decimal_digit(c: char) -> bool {
    ||| c == '0'
    ||| c == '1'
    ||| c == '2'
    ||| c == '3'
    ||| c == '4'
    ||| c == '5'
    ||| c == '6'
    ||| c == '7'
    ||| c == '8'
    ||| c == '9'
}

/// The digit a decimal-digit character stands for (unspecified shape for
/// any other character: callers guard with [`is_decimal_digit`]).
pub open spec fn digit_of_char(c: char) -> Digit {
    if c == '0' {
        Digit::Zero
    } else if c == '1' {
        Digit::One
    } else if c == '2' {
        Digit::Two
    } else if c == '3' {
        Digit::Three
    } else if c == '4' {
        Digit::Four
    } else if c == '5' {
        Digit::Five
    } else if c == '6' {
        Digit::Six
    } else if c == '7' {
        Digit::Seven
    } else if c == '8' {
        Digit::Eight
    } else {
        Digit::Nine
    }
}

/// The character a digit renders as.
pub open spec fn char_of_digit(d: Digit) -> char {
    match d {
        Digit::Zero => '0',
        Digit::One => '1',
        Digit::Two => '2',
        Digit::Three => '3',
        Digit::Four => '4',
        Digit::Five => '5',
        Digit::Six => '6',
        Digit::Seven => '7',
        Digit::Eight => '8',
        Digit::Nine => '9',
    }
}

impl Digit {
    /// The numeric value of the digit, for specifications.
    pub open spec fn val(self) -> nat {
        match self {
            Digit::Zero => 0,
            Digit::One => 1,
            Digit::Two => 2,
            Digit::Three => 3,
            Digit::Four => 4,
            Digit::Five => 5,
            Digit::Six => 6,
            Digit::Seven => 7,
            Digit::Eight => 8,
            Digit::Nine => 9,
        }
    }

    /// The digit as a machine integer.
    pub fn as_u8(&self) -> (v: u8)
        ensures
            v as nat == self.val(),
            v <= 9,
    {
        match self {
            Digit::Zero => 0,
            Digit::One => 1,
            Digit::Two => 2,
            Digit::Three => 3,
            Digit::Four => 4,
            Digit::Five => 5,
            Digit::Six => 6,
            Digit::Seven => 7,
            Digit::Eight => 8,
            Digit::Nine => 9,
        }
    }

    /// The digit a character stands for; `InvalidDigit` for any character
    /// outside `'0'..='9'`.
    pub fn from_char(c: char) -> (r: Result<Digit, NaturalError>)
        ensures
            match r {
                Ok(d) => is_decimal_digit(c) && d == digit_of_char(c),
                Err(e) => !is_decimal_digit(c) && e == NaturalError::InvalidDigit,
            },
    {
        match c {
            '0' => Ok(Digit::Zero),
            '1' => Ok(Digit::One),
            '2' => Ok(Digit::Two),
            '3' => Ok(Digit::Three),
            '4' => Ok(Digit::Four),
            '5' => Ok(Digit::Five),
            '6' => Ok(Digit::Six),
            '7' => Ok(Digit::Seven),
            '8' => Ok(Digit::Eight),
            '9' => Ok(Digit::Nine),
            _ => Err(NaturalError::InvalidDigit),
        }
    }

    /// The digit a byte value stands for; `InvalidDigit` for any value
    /// above nine.
    pub fn from_u8(v: u8) -> (r: Result<Digit, NaturalError>)
        ensures
            match r {
                Ok(d) => v <= 9 && d.val() == v as nat,
                Err(e) => v > 9 && e == NaturalError::InvalidDigit,
            },
    {
        if v <= 9 {
            Ok(digit_of_value(v))
        } else {
            Err(NaturalError::InvalidDigit)
        }
    }

    /// The single character the digit renders as.
    pub fn to_char(self) -> (c: char)
        ensures
            c == char_of_digit(self),
            is_decimal_digit(c),
    {
        match self {
            Digit::Zero => '0',
            Digit::One => '1',
            Digit::Two => '2',
            Digit::Three => '3',
            Digit::Four => '4',
            Digit::Five => '5',
            Digit::Six => '6',
            Digit::Seven => '7',
            Digit::Eight => '8',
            Digit::Nine => '9',
        }
    }

    /// Subtract `other` from `self` at a single position: either the plain
    /// difference, or, when `other` is the larger, the difference after
    /// borrowing ten from the next position.
    pub fn subtract(self, other: Digit) -> (r: DigitDifference)
        ensures
            r.borrow == (self.val() < other.val()),
            r.difference.val() + other.val() == self.val() + if r.borrow {
                10nat
            } else {
                0nat
            },
    {
        let a = self.as_u8();
        let b = other.as_u8();
        if a >= b {
            DigitDifference { borrow: false, difference: digit_of_value(a - b) }
        } else {
            DigitDifference { borrow: true, difference: digit_of_value(a + 10 - b) }
        }
    }
}

/// The digit with the given numeric value.
pub(crate) fn digit_of_value(v: u8) -> (d: Digit)
    requires
        v <= 9,
    ensures
        d.val() == v as nat,
{
    match v {
        0 => Digit::Zero,
        1 => Digit::One,
        2 => Digit::Two,
        3 => Digit::Three,
        4 => Digit::Four,
        5 => Digit::Five,
        6 => Digit::Six,
        7 => Digit::Seven,
        8 => Digit::Eight,
        _ => Digit::Nine,
    }
}

/// Two digits have equal numeric values only if they are the same digit.
pub proof fn lemma_digit_val_injective(a: Digit, b: Digit)
    requires
        a.val() == b.val(),
    ensures
        a == b,
{
}

/// Round-trip of the character maps: rendering the digit a decimal
/// character stands for gives that character back.
pub proof fn lemma_char_digit_round_trip(c: char)
    requires
        is_decimal_digit(c),
    ensures
        char_of_digit(digit_of_char(c)) == c,
{
}

/// Round-trip of the character maps the other way: parsing the character
/// a digit renders as gives that digit back.
pub proof fn lemma_digit_char_round_trip(d: Digit)
    ensures
        digit_of_char(char_of_digit(d)) == d,
{
}

/// The result of adding two digits and an incoming carry bit at one
/// position: the sum digit for this position and the carry bit for the
/// next.
#[derive(Clone, Copy, Debug, PartialEq, Eq, Structural)]
pub struct CarrySum {
    pub carry: bool,
    pub sum: Digit,
}

impl CarrySum {
    /// The incoming or outgoing carry as a number: one when set.
    pub open spec fn carry_val(self) -> nat {
        if self.carry {
            1
        } else {
            0
        }
    }

    pub fn new(carry: bool, sum: Digit) -> (r: CarrySum)
        ensures
            r == (CarrySum { carry, sum }),
    {
        CarrySum { carry, sum }
    }

    /// Add two digits plus the carry held in `self`; the total, at most
    /// nineteen, is reduced to a sum digit and a carry bit.
    pub fn add_two(&self, a: Digit, b: Digit) -> (r: CarrySum)
        ensures
            r.sum.val() + 10 * r.carry_val() == a.val() + b.val() + self.carry_val(),
            r.carry == (a.val() + b.val() + self.carry_val() >= 10),
    {
        let mut sum = a.as_u8() + b.as_u8();
        if self.carry {
            sum += 1;
        }
        // The total is at most 9 + 9 + 1 = 19 here.
        if sum <= 9 {
            CarrySum::new(false, digit_of_value(sum))
        } else {
            CarrySum::new(true, digit_of_value(sum - 10))
        }
    }
}

/// The result of multiplying two digits and adding an incoming carry digit
/// at one position: the product digit for this position and the carry
/// digit for the next.
#[derive(Clone, Copy, Debug, PartialEq, Eq, Structural)]
pub struct CarryProduct {
    pub carry: Digit,
    pub product: Digit,
}

impl CarryProduct {
    pub fn new(carry: Digit, product: Digit) -> (r: CarryProduct)
        ensures
            r == (CarryProduct { carry, product }),
    {
        CarryProduct { carry, product }
    }

    /// Multiply two digits and add the carry held in `self`; the total, at
    /// most ninety, is reduced to a product digit and a carry digit.
    pub fn mul_two(&self, a: Digit, b: Digit) -> (r: CarryProduct)
        ensures
            r.product.val() + 10 * r.carry.val() == a.val() * b.val() + self.carry.val(),
    {
        let x = a.as_u8();
        let y = b.as_u8();
        proof {
            assert(x * y <= 81) by (nonlinear_arith)
                requires
                    x <= 9,
                    y <= 9,
            ;
        }
        let mut product = x * y;
        product += self.carry.as_u8();
        // The total is at most 9 * 9 + 9 = 90 here.
        if product <= 9 {
            CarryProduct::new(Digit::Zero, digit_of_value(product))
        } else {
            let remainder: u8 = product % 10;
            let carry: u8 = (product - remainder) / 10;
            proof {
                vstd::arithmetic::div_mod::lemma_fundamental_div_mod(product as int, 10);
                assert(product - remainder == 10 * (product as int / 10));
                vstd::arithmetic::div_mod::lemma_div_multiples_vanish(product as int / 10, 10);
                vstd::arithmetic::div_mod::lemma_div_is_ordered(product as int, 90, 10);
                assert(90int / 10 == 9);
            }
            CarryProduct::new(digit_of_value(carry), digit_of_value(remainder))
        }
    }
}

/// The result of subtracting one digit from another: the difference digit
/// and whether ten had to be borrowed from the next position.
#[derive(Clone, Copy, Debug, PartialEq, Eq, Structural)]
pub struct DigitDifference {
    pub borrow: bool,
    pub difference: Digit,
}

} // verus!
