use vstd::prelude::*;
use vstd::pervasive::VecAdditionalExecFns;
use vstd::string::{StrSliceExecFns, StringExecFns};

use crate::digit::{char_of_digit, digit_of_char, is_decimal_digit, CarryProduct, CarrySum, Digit};
use crate::error::NaturalError;
use crate::value::{
    added_len, coef, digits_of, lemma_added_len, lemma_borrow_decrement, lemma_drop_leading_zero,
    lemma_min_len_bound, lemma_min_len_le, lemma_min_len_mono, lemma_pow10_add, lemma_pow10_mono,
    lemma_pow10_pos, lemma_rest_step, lemma_rest_zero, lemma_seq_is_digits_of,
    lemma_seq_value_bound, lemma_seq_value_head, lemma_seq_value_split, lemma_trimmed_min_len,
    lemma_val_upto_agree, lemma_val_upto_bound, lemma_val_upto_extend, lemma_val_upto_le_value,
    lemma_val_upto_lower, lemma_val_upto_mono, lemma_val_upto_one, lemma_val_upto_zero, max_len,
    min_len, pow10, product_len, rest_value, seq_value, val_upto,
};

verus! {

/// An arbitrary-precision natural number: an ordered, never empty sequence
/// of decimal digits, least significant first, standing for
/// `sum of digits[i] * 10^i`.
///
/// The representation is not forced into a canonical form: parsing keeps
/// leading zero text digits, and addition never trims, so two sequences of
/// different lengths can stand for the same number. Equality and ordering
/// therefore compare numeric values, not raw sequences; subtraction and
/// division do return trimmed results.
#[derive(Debug, Clone)]
pub struct Natural {
    digits: Vec<Digit>,
}

/// How two numbers compare: the ordering of their values.
pub open spec fn value_ordering(va: nat, vb: nat) -> core::cmp::Ordering {
    if va < vb {
        core::cmp::Ordering::Less
    } else if va == vb {
        core::cmp::Ordering::Equal
    } else {
        core::cmp::Ordering::Greater
    }
}

/// The digit sequence a string of decimal characters denotes: the text is
/// most significant first, the sequence least significant first.
pub open spec fn parsed_digits(s: Seq<char>) -> Seq<Digit> {
    Seq::new(s.len(), |j: int| digit_of_char(s[s.len() - 1 - j]))
}

/// The text a digit sequence renders as: the stored digits, highest
/// position first.
pub open spec fn formatted_chars(d: Seq<Digit>) -> Seq<char> {
    Seq::new(d.len(), |j: int| char_of_digit(d[d.len() - 1 - j]))
}

/// Does every character of the text stand for a decimal digit?
pub open spec fn all_decimal(s: Seq<char>) -> bool {
    forall|i: int| 0 <= i < s.len() ==> is_decimal_digit(s[i])
}

/// The number a string of decimal characters denotes, read most
/// significant digit first.
pub open spec fn text_value(s: Seq<char>) -> nat
    decreases s.len(),
{
    if s.len() == 0 {
        0
    } else {
        10 * text_value(s.drop_last()) + digit_of_char(s.last()).val()
    }
}

impl View for Natural {
    type V = Seq<Digit>;

    closed spec fn view(&self) -> Seq<Digit> {
        self.digits@
    }
}

impl Natural {
    /// Well-formedness: the digit sequence is never empty; the value zero
    /// is the single-digit sequence `[0]`.
    pub open spec fn wf(self) -> bool {
        self@.len() >= 1
    }

    /// The number this natural stands for.
    pub open spec fn value(self) -> nat {
        seq_value(self@)
    }

    /// The natural zero, as its canonical single digit.
    pub fn zero() -> (r: Natural)
        ensures
            r.wf(),
            r@.len() == 1,
            r.value() == 0,
    {
        let digits = vec![Digit::Zero];
        proof {
            lemma_val_upto_one(digits@);
        }
        Natural { digits }
    }

    /// The natural one, as its canonical single digit.
    pub fn one() -> (r: Natural)
        ensures
            r.wf(),
            r@.len() == 1,
            r.value() == 1,
    {
        let digits = vec![Digit::One];
        proof {
            lemma_val_upto_one(digits@);
        }
        Natural { digits }
    }

    /// The highest valid position: one less than the stored digit count.
    pub fn degree(&self) -> (d: usize)
        requires
            self.wf(),
        ensures
            d + 1 == self@.len(),
    {
        self.digits.len() - 1
    }

    /// The digit at a power-of-ten position, zero beyond the stored
    /// sequence; the virtual zero extension lets callers treat naturals of
    /// different stored lengths uniformly.
    pub fn coefficient(&self, power: usize) -> (d: Digit)
        requires
            self.wf(),
        ensures
            d.val() == coef(self@, power as int),
    {
        if power > self.degree() {
            return Digit::Zero;
        }
        self.digits[power]
    }

    /// Replace the digit at a stored position.
    pub fn set_coefficient(&mut self, power: usize, coefficient: Digit)
        requires
            old(self).wf(),
            power < old(self)@.len(),
        ensures
            final(self)@ == old(self)@.update(power as int, coefficient),
    {
        self.digits.set(power, coefficient);
    }

    /// Parse a non-empty string of decimal digit characters, most
    /// significant first. No sign, no whitespace, no separators; leading
    /// zeros are kept, not stripped.
    pub fn parse(s: &str) -> (r: Result<Natural, NaturalError>)
        ensures
            match r {
                Ok(n) => {
                    &&& s@.len() >= 1
                    &&& all_decimal(s@)
                    &&& n.wf()
                    &&& n@ == parsed_digits(s@)
                    &&& n.value() == text_value(s@)
                },
                Err(e) => {
                    ||| (s@.len() == 0 && e == NaturalError::EmptyNumber)
                    ||| (!all_decimal(s@) && e == NaturalError::InvalidDigit)
                },
            },
    {
        let len = s.unicode_len();
        let mut digits: Vec<Digit> = Vec::new();
        let mut i: usize = 0;
        while i < len
            invariant
                i <= len,
                len == s@.len(),
                digits@.len() == i as int,
                digits@ =~= parsed_digits(s@.take(i as int)),
                seq_value(digits@) == text_value(s@.take(i as int)),
                forall|j: int| 0 <= j < i ==> is_decimal_digit(s@[j]),
            decreases len - i,
        {
            let c = s.get_char(i);
            let d = match Digit::from_char(c) {
                Ok(d) => d,
                Err(e) => {
                    return Err(e);
                },
            };
            let ghost old_digits = digits@;
            digits.insert(0, d);
            proof {
                let tnew = s@.take(i + 1);
                assert(tnew.drop_last() =~= s@.take(i as int));
                assert(tnew.last() == s@[i as int]);
                assert(digits@ =~= parsed_digits(tnew)) by {
                    assert(digits@ == old_digits.insert(0, d));
                    assert forall|j: int| 0 <= j < i + 1 implies digits@[j] == parsed_digits(
                        tnew,
                    )[j] by {
                        if j == 0 {
                        } else {
                            assert(digits@[j] == old_digits[j - 1]);
                            assert(old_digits[j - 1] == digit_of_char(s@[i - 1 - (j - 1)]));
                        }
                    }
                }
                lemma_seq_value_head(digits@);
                assert(digits@.skip(1) =~= old_digits);
                assert(coef(digits@, 0) == d.val());
                assert(seq_value(digits@) == d.val() + 10 * seq_value(old_digits));
                assert(text_value(tnew) == 10 * text_value(s@.take(i as int)) + digit_of_char(
                    s@[i as int],
                ).val());
            }
            i += 1;
        }
        if digits.len() == 0 {
            return Err(NaturalError::EmptyNumber);
        }
        proof {
            assert(s@.take(len as int) =~= s@);
        }
        Ok(Natural { digits })
    }

    /// Render the stored digits, most significant first; the output length
    /// is exactly the stored digit count, so parse and format round-trip.
    pub fn format(&self) -> (r: String)
        requires
            self.wf(),
        ensures
            r@ == formatted_chars(self@),
            r@.len() == self@.len(),
    {
        let mut out = String::new();
        let mut p = self.digits.len();
        while p > 0
            invariant
                p <= self@.len(),
                out@.len() == self@.len() - p,
                forall|j: int| 0 <= j < out@.len() ==> out@[j] == char_of_digit(
                    self@[self@.len() - 1 - j],
                ),
            decreases p,
        {
            p -= 1;
            let d = self.digits[p];
            let ghost old_out = out@;
            match d {
                Digit::Zero => out.append("0"),
                Digit::One => out.append("1"),
                Digit::Two => out.append("2"),
                Digit::Three => out.append("3"),
                Digit::Four => out.append("4"),
                Digit::Five => out.append("5"),
                Digit::Six => out.append("6"),
                Digit::Seven => out.append("7"),
                Digit::Eight => out.append("8"),
                Digit::Nine => out.append("9"),
            }
            proof {
                reveal_strlit("0");
                reveal_strlit("1");
                reveal_strlit("2");
                reveal_strlit("3");
                reveal_strlit("4");
                reveal_strlit("5");
                reveal_strlit("6");
                reveal_strlit("7");
                reveal_strlit("8");
                reveal_strlit("9");
                assert(out@.len() == old_out.len() + 1);
                assert(out@[out@.len() - 1] == char_of_digit(d));
            }
        }
        proof {
            assert(out@ =~= formatted_chars(self@));
        }
        out
    }

    /// School addition: combine the digits position by position with
    /// [`CarrySum::add_two`], carrying into the next position; a final
    /// carry appends one extra most-significant digit. Total: addition
    /// never fails and never trims, so a leading zero present in an input
    /// can survive into the result.
    pub fn add(&self, other: &Natural) -> (r: Natural)
        requires
            self.wf(),
            other.wf(),
        ensures
            r.wf(),
            r.value() == self.value() + other.value(),
            r@.len() == added_len(self@.len(), other@.len(), self.value() + other.value()),
            r@ == digits_of(self.value() + other.value(), r@.len()),
    {
        let n = if self.digits.len() >= other.digits.len() {
            self.digits.len()
        } else {
            other.digits.len()
        };
        let mut digits: Vec<Digit> = Vec::new();
        let mut cs = CarrySum::new(false, Digit::Zero);
        let mut p: usize = 0;
        while p < n
            invariant
                p <= n,
                n == max_len(self@.len(), other@.len()),
                self.wf(),
                other.wf(),
                digits@.len() == p as int,
                val_upto(self@, p as nat) + val_upto(other@, p as nat) == seq_value(digits@)
                    + cs.carry_val() * pow10(p as nat),
            decreases n - p,
        {
            let a = self.coefficient(p);
            let b = other.coefficient(p);
            let ghost old_digits = digits@;
            let ghost oc = cs.carry_val();
            cs = cs.add_two(a, b);
            digits.push(cs.sum);
            proof {
                let pn = p as nat;
                let pw = pow10(pn);
                let ca = coef(self@, p as int);
                let cb = coef(other@, p as int);
                let s = cs.sum.val();
                let c1 = cs.carry_val();
                assert(forall|i: int| 0 <= i < p ==> coef(digits@, i) == coef(old_digits, i));
                lemma_val_upto_agree(digits@, old_digits, pn);
                assert(val_upto(digits@, pn + 1) == val_upto(digits@, pn) + coef(
                    digits@,
                    pn as int,
                ) * pow10(pn));
                assert(coef(digits@, pn as int) == s);
                assert(seq_value(digits@) == val_upto(digits@, pn + 1));
                assert(val_upto(self@, pn + 1) == val_upto(self@, pn) + ca * pw);
                assert(val_upto(other@, pn + 1) == val_upto(other@, pn) + cb * pw);
                assert(pow10(pn + 1) == 10 * pw);
                assert(ca * pw + cb * pw + oc * pw == s * pw + c1 * (10 * pw)) by (nonlinear_arith)
                    requires
                        ca + cb + oc == s + 10 * c1,
                ;
                assert(val_upto(self@, pn + 1) + val_upto(other@, pn + 1) == seq_value(digits@)
                    + c1 * pow10(pn + 1));
            }
            p += 1;
        }
        proof {
            lemma_val_upto_extend(self@, n as nat);
            lemma_val_upto_extend(other@, n as nat);
            lemma_seq_value_bound(digits@);
        }
        let ghost base = digits@;
        if cs.carry {
            digits.push(Digit::One);
            proof {
                lemma_val_upto_agree(digits@, base, n as nat);
                assert(val_upto(digits@, n as nat + 1) == val_upto(digits@, n as nat) + coef(
                    digits@,
                    n as int,
                ) * pow10(n as nat));
                assert(coef(digits@, n as int) == 1);
                assert(seq_value(digits@) == seq_value(base) + pow10(n as nat));
            }
        }
        let r = Natural { digits };
        proof {
            lemma_seq_value_bound(self@);
            lemma_seq_value_bound(other@);
            lemma_added_len(self@.len(), other@.len(), self.value(), other.value());
            assert(r@.len() == added_len(
                self@.len(),
                other@.len(),
                self.value() + other.value(),
            ));
            lemma_seq_is_digits_of(r@);
        }
        r
    }

    /// Add `other` into `self`, replacing the stored digit sequence with
    /// the sum's.
    pub fn add_assign(&mut self, other: &Natural)
        requires
            old(self).wf(),
            other.wf(),
        ensures
            final(self).wf(),
            final(self).value() == old(self).value() + other.value(),
            final(self)@.len() == added_len(
                old(self)@.len(),
                other@.len(),
                old(self).value() + other.value(),
            ),
            final(self)@ == digits_of(old(self).value() + other.value(), final(self)@.len()),
    {
        let sum = self.add(other);
        *self = sum;
    }

    /// Count `self` one step up: add the natural one in place.
    pub fn increment(&mut self)
        requires
            old(self).wf(),
        ensures
            final(self).wf(),
            final(self).value() == old(self).value() + 1,
            final(self)@.len() == added_len(old(self)@.len(), 1, old(self).value() + 1),
            final(self)@ == digits_of(old(self).value() + 1, final(self)@.len()),
    {
        let one = Natural::one();
        self.add_assign(&one);
    }

    /// School subtraction, `self - other`. At each position the digit
    /// difference is taken; when it needs a borrow, the working copy of
    /// `self` is scanned upward to the first non-zero digit, that digit
    /// goes down by one, and the zeros passed over become nines. The
    /// result is trimmed to its canonical length. When `self < other` the
    /// borrow scan runs out of digits and the subtraction reports
    /// `Underflow`.
    pub fn subtract(&self, other: &Natural) -> (r: Result<Natural, NaturalError>)
        requires
            self.wf(),
            other.wf(),
        ensures
            match r {
                Ok(d) => {
                    &&& self.value() >= other.value()
                    &&& d.wf()
                    &&& d.value() == self.value() - other.value()
                    &&& d@.len() == min_len((self.value() - other.value()) as nat)
                    &&& d@ == digits_of((self.value() - other.value()) as nat, d@.len())
                },
                Err(e) => {
                    &&& e == NaturalError::Underflow
                    &&& self.value() < other.value()
                },
            },
    {
        let mut w = self.digits.clone();
        proof {
            assert(w@ =~= self@);
        }
        let n = if w.len() >= other.digits.len() {
            w.len()
        } else {
            other.digits.len()
        };
        let mut digits: Vec<Digit> = Vec::new();
        proof {
            assert(w@.skip(0) =~= w@);
            assert(pow10(0nat) == 1);
            assert(rest_value(w@, 0nat) == self.value());
            assert(pow10(0nat) * rest_value(w@, 0nat) == self.value()) by (nonlinear_arith)
                requires
                    pow10(0nat) == 1,
                    rest_value(w@, 0nat) == self.value(),
            ;
            assert(seq_value(digits@) == 0);
            assert(val_upto(other@, 0nat) == 0);
        }
        let mut p: usize = 0;
        while p < n
            invariant
                p <= n,
                n == max_len(self@.len(), other@.len()),
                self.wf(),
                other.wf(),
                w@.len() == self@.len(),
                digits@.len() == p as int,
                seq_value(digits@) + pow10(p as nat) * rest_value(w@, p as nat) == self.value()
                    - val_upto(other@, p as nat),
            decreases n - p,
        {
            let a = if p < w.len() {
                w[p]
            } else {
                Digit::Zero
            };
            let b = other.coefficient(p);
            let bd = a.subtract(b);
            let ghost w0 = w@;
            let ghost d0 = digits@;
            let ghost pn = p as nat;
            let ghost pw = pow10(pn);
            let ghost ca = coef(w0, p as int);
            let ghost cb = coef(other@, p as int);
            proof {
                assert(a.val() == ca);
                lemma_rest_step(w0, pn);
                assert(pow10(pn + 1) == 10 * pw);
                assert(val_upto(other@, pn + 1) == val_upto(other@, pn) + cb * pw);
            }
            if bd.borrow {
                // The borrow scan: find the first position above `p`
                // whose working digit is not zero.
                let mut pp = p + 1;
                while pp < w.len() && w[pp].as_u8() == 0
                    invariant
                        p + 1 <= pp,
                        pp <= w@.len() || pp == p + 1,
                        forall|j: int| p < j < pp ==> coef(w@, j) == 0,
                    decreases w@.len() - pp,
                {
                    pp += 1;
                }
                if pp >= w.len() {
                    // Every higher digit of the working copy is zero, so
                    // the minuend is the smaller number.
                    proof {
                        assert(forall|j: int| p < j ==> coef(w0, j) == 0);
                        lemma_rest_zero(w0, pn + 1);
                        assert(rest_value(w0, pn) == ca + 10 * 0);
                        lemma_seq_value_bound(d0);
                        assert(seq_value(d0) < pw) by {
                            assert(pow10(d0.len()) == pw);
                        }
                        assert(ca + 1 <= cb);
                        lemma_pow10_pos(pn);
                        assert(pw * ca + pw <= cb * pw) by (nonlinear_arith)
                            requires
                                ca + 1 <= cb,
                                pw >= 1,
                        ;
                        assert(pw * rest_value(w0, pn) == pw * ca);
                        assert(self.value() == seq_value(d0) + pw * ca + val_upto(other@, pn));
                        assert(self.value() < pw + pw * ca + val_upto(other@, pn));
                        assert(self.value() < cb * pw + val_upto(other@, pn));
                        assert(self.value() < val_upto(other@, pn + 1));
                        lemma_val_upto_le_value(other@, pn + 1);
                        assert(self.value() < other.value());
                    }
                    return Err(NaturalError::Underflow);
                }
                let c = w[pp];
                let cv = c.as_u8();
                w.set(pp, crate::digit::digit_of_value(cv - 1));
                let ghost w1 = w@;
                // Unwind the borrow: the zeros passed over become nines.
                let mut q = p + 1;
                while q < pp
                    invariant
                        p + 1 <= q <= pp,
                        pp < w@.len(),
                        w@.len() == w1.len(),
                        forall|j: int| p < j < q ==> coef(w@, j) == 9,
                        forall|j: int| !(p < j < q) && 0 <= j < w@.len() ==> w@[j] == w1[j],
                    decreases pp - q,
                {
                    let ghost wpre = w@;
                    w.set(q, Digit::Nine);
                    proof {
                        assert(w@ == wpre.update(q as int, Digit::Nine));
                        assert forall|j: int| p < j < q + 1 implies #[trigger] coef(w@, j)
                            == 9 by {
                            if j == q {
                                assert(w@[j] == Digit::Nine);
                            } else {
                                assert(w@[j] == wpre[j]);
                                assert(coef(wpre, j) == 9);
                            }
                        }
                    }
                    q += 1;
                }
                digits.push(bd.difference);
                proof {
                    let w2 = w@;
                    let t0 = w0.skip(pn as int + 1);
                    let t2 = w2.skip(pn as int + 1);
                    let k = (pp - p - 1) as nat;
                    assert(coef(t0, k as int) == coef(w0, pp as int));
                    assert(coef(w0, pp as int) >= 1);
                    assert(forall|j: int| 0 <= j < k ==> coef(t0, j) == coef(w0, pn + 1 + j));
                    assert(forall|j: int| 0 <= j < k ==> coef(t2, j) == coef(w2, pn + 1 + j));
                    assert(forall|j: int|
                        k < j < t0.len() ==> coef(t2, j) == coef(w2, pn + 1 + j) && coef(t0, j)
                            == coef(w0, pn + 1 + j));
                    assert forall|j: int| k < j < t0.len() implies #[trigger] coef(w2, pn + 1 + j)
                        == coef(w0, pn + 1 + j) by {
                        assert(w2[pn + 1 + j] == w1[pn + 1 + j]);
                        assert(w1[pn + 1 + j] == w0[pn + 1 + j]);
                    }
                    assert(coef(t2, k as int) == coef(w2, pp as int));
                    assert(coef(w2, pp as int) == coef(w1, pp as int));
                    assert(coef(w1, pp as int) == coef(w0, pp as int) - 1);
                    lemma_borrow_decrement(t0, t2, k);
                    assert(rest_value(w2, pn + 1) == rest_value(w0, pn + 1) - 1);
                    // The emitted digit and the borrow balance out: one
                    // unit of 10^(p+1) moved down as ten units of 10^p.
                    let d = bd.difference.val();
                    let r1 = rest_value(w0, pn + 1);
                    assert(d == ca + 10 - cb);
                    assert(seq_value(digits@) == seq_value(d0) + d * pw) by {
                        lemma_val_upto_agree(digits@, d0, pn);
                        assert(coef(digits@, pn as int) == d);
                        assert(val_upto(digits@, pn + 1) == val_upto(digits@, pn) + coef(
                            digits@,
                            pn as int,
                        ) * pw);
                    }
                    assert(seq_value(d0) + pw * (ca + 10 * r1) == self.value() - val_upto(
                        other@,
                        pn,
                    ));
                    assert(d * pw + (10 * pw) * (r1 - 1) == pw * (ca + 10 * r1) - cb * pw)
                        by (nonlinear_arith)
                        requires
                            d == ca + 10 - cb,
                    ;
                    assert(seq_value(digits@) + pow10(pn + 1) * rest_value(w2, pn + 1)
                        == self.value() - val_upto(other@, pn + 1));
                }
            } else {
                digits.push(bd.difference);
                proof {
                    let d = bd.difference.val();
                    let r1 = rest_value(w0, pn + 1);
                    assert(d == ca - cb);
                    assert(seq_value(digits@) == seq_value(d0) + d * pw) by {
                        lemma_val_upto_agree(digits@, d0, pn);
                        assert(coef(digits@, pn as int) == d);
                        assert(val_upto(digits@, pn + 1) == val_upto(digits@, pn) + coef(
                            digits@,
                            pn as int,
                        ) * pw);
                    }
                    assert(seq_value(d0) + pw * (ca + 10 * r1) == self.value() - val_upto(
                        other@,
                        pn,
                    ));
                    assert(d * pw + (10 * pw) * r1 == pw * (ca + 10 * r1) - cb * pw)
                        by (nonlinear_arith)
                        requires
                            d == ca - cb,
                    ;
                    assert(seq_value(digits@) + pow10(pn + 1) * rest_value(w@, pn + 1)
                        == self.value() - val_upto(other@, pn + 1));
                }
            }
            p += 1;
        }
        proof {
            lemma_rest_zero(w@, n as nat);
            assert(pow10(n as nat) * rest_value(w@, n as nat) == 0) by (nonlinear_arith)
                requires
                    rest_value(w@, n as nat) == 0,
            ;
            lemma_val_upto_extend(other@, n as nat);
            assert(val_upto(other@, n as nat) == other.value());
            assert(seq_value(digits@) == self.value() - other.value());
        }
        // Remove leading zeros, down to at least one digit.
        while digits.len() > 1 && digits[digits.len() - 1].as_u8() == 0
            invariant
                digits@.len() >= 1,
                seq_value(digits@) == self.value() - other.value(),
            decreases digits@.len(),
        {
            let ghost before = digits@;
            digits.pop();
            proof {
                lemma_drop_leading_zero(before);
            }
        }
        let d = Natural { digits };
        proof {
            lemma_trimmed_min_len(d@);
            lemma_seq_is_digits_of(d@);
        }
        Ok(d)
    }

    /// One row of long multiplication: `a * b * 10^shift`, built as
    /// `shift` zero placeholder digits, then the digits of `b` each
    /// multiplied by `a` with the carry digit threaded through, and the
    /// final carry appended when it is not zero.
    fn partial_product(a: Digit, shift: usize, b: &Natural) -> (r: Natural)
        requires
            b.wf(),
        ensures
            r.wf(),
            r.value() == a.val() * b.value() * pow10(shift as nat),
            r@.len() == shift + max_len(b@.len(), min_len(a.val() * b.value())),
    {
        let ghost av = a.val();
        let ghost vb = b.value();
        let ghost lb = b@.len();
        let ghost ps = pow10(shift as nat);
        let mut digits: Vec<Digit> = Vec::new();
        let mut j: usize = 0;
        while j < shift
            invariant
                j <= shift,
                digits@.len() == j as int,
                forall|t: int| 0 <= t < j ==> coef(digits@, t) == 0,
            decreases shift - j,
        {
            let ghost dpre = digits@;
            digits.push(Digit::Zero);
            proof {
                assert forall|t: int| 0 <= t < j + 1 implies #[trigger] coef(digits@, t) == 0 by {
                    if t == j {
                        assert(digits@[t] == Digit::Zero);
                    } else {
                        assert(digits@[t] == dpre[t]);
                        assert(coef(dpre, t) == 0);
                    }
                }
            }
            j += 1;
        }
        proof {
            lemma_val_upto_zero(digits@, shift as nat);
            assert(seq_value(digits@) == 0);
            assert(av * val_upto(b@, 0) * ps == 0) by (nonlinear_arith)
                requires
                    val_upto(b@, 0nat) == 0,
            ;
        }
        let mut cp = CarryProduct::new(Digit::Zero, Digit::Zero);
        let mut jj: usize = 0;
        while jj < b.digits.len()
            invariant
                jj <= lb,
                lb == b@.len(),
                b.wf(),
                av == a.val(),
                ps == pow10(shift as nat),
                digits@.len() == shift + jj,
                seq_value(digits@) + cp.carry.val() * pow10((shift + jj) as nat) == av * val_upto(
                    b@,
                    jj as nat,
                ) * ps,
            decreases lb - jj,
        {
            let bd = b.digits[jj];
            let ghost d0 = digits@;
            let ghost c0 = cp.carry.val();
            cp = cp.mul_two(a, bd);
            digits.push(cp.product);
            proof {
                let sn = shift as nat;
                let jn = jj as nat;
                let pj = pow10(sn + jn);
                let cbj = coef(b@, jj as int);
                let prod = cp.product.val();
                let c1 = cp.carry.val();
                assert(bd.val() == cbj);
                assert(prod + 10 * c1 == av * cbj + c0);
                lemma_val_upto_agree(digits@, d0, sn + jn);
                assert(coef(digits@, (sn + jn) as int) == prod) by { assert(digits@[(sn + jn) as int] == cp.product); };
                assert(val_upto(digits@, sn + jn + 1) == val_upto(digits@, sn + jn) + prod * pj);
                assert(val_upto(digits@, sn + jn) == seq_value(d0)) by {
                    assert(d0.len() == sn + jn);
                }
                assert(seq_value(digits@) == seq_value(d0) + prod * pj);
                assert(pow10(sn + jn + 1) == 10 * pj);
                lemma_pow10_add(shift as nat, jn);
                assert(pj == ps * pow10(jn));
                assert(val_upto(b@, jn + 1) == val_upto(b@, jn) + cbj * pow10(jn));
                assert(av * val_upto(b@, jn + 1) * ps == av * val_upto(b@, jn) * ps + av * cbj * (
                ps * pow10(jn))) by (nonlinear_arith)
                    requires
                        val_upto(b@, jn + 1) == val_upto(b@, jn) + cbj * pow10(jn),
                ;
                assert(prod * pj + c1 * (10 * pj) == av * cbj * pj + c0 * pj) by (nonlinear_arith)
                    requires
                        prod + 10 * c1 == av * cbj + c0,
                ;
                assert(av * cbj * (ps * pow10(jn)) == av * cbj * pj);
                assert(seq_value(digits@) + c1 * pow10(sn + jn + 1) == av * val_upto(
                    b@,
                    jn + 1,
                ) * ps);
                assert(pow10((shift + (jj + 1)) as nat) == pow10(sn + jn + 1));
            }
            jj += 1;
        }
        proof {
            assert(jj as nat == lb);
            assert((shift + jj) as nat == shift as nat + lb);
            lemma_val_upto_extend(b@, lb);
            assert(av * val_upto(b@, jj as nat) * ps == av * vb * ps);
            assert(seq_value(digits@) + cp.carry.val() * pow10(shift as nat + lb) == av * vb * ps);
            lemma_seq_value_bound(digits@);
            assert(digits@.len() == shift as nat + lb);
            assert(seq_value(digits@) < pow10(shift as nat + lb));
            lemma_pow10_add(shift as nat, lb);
            lemma_pow10_pos(shift as nat);
            lemma_pow10_pos(lb);
            lemma_seq_value_bound(b@);
            assert(av * vb < 10 * pow10(lb)) by (nonlinear_arith)
                requires
                    av <= 9,
                    vb < pow10(lb),
                    pow10(lb) >= 1,
            ;
            assert(pow10(lb + 1) == 10 * pow10(lb));
        }
        let ghost carry_out = cp.carry.val();
        if cp.carry.as_u8() != 0 {
            let ghost d1 = digits@;
            digits.push(cp.carry);
            proof {
                let sn = shift as nat;
                assert(seq_value(d1) + carry_out * pow10(sn + lb) == av * vb * ps);
                lemma_val_upto_agree(digits@, d1, sn + lb);
                assert(coef(digits@, (sn + lb) as int) == carry_out) by { assert(digits@[(sn + lb) as int] == cp.carry); };
                assert(val_upto(digits@, sn + lb + 1) == val_upto(digits@, sn + lb) + carry_out
                    * pow10(sn + lb));
                assert(val_upto(digits@, sn + lb) == seq_value(d1)) by {
                    assert(d1.len() == sn + lb);
                }
                assert(seq_value(digits@) == seq_value(d1) + carry_out * pow10(sn + lb));
                assert(seq_value(digits@) == av * vb * ps);
                // The carry walked off the top, so `a * b` needs one more
                // digit than `b` has.
                assert(av * vb * ps >= pow10(sn + lb)) by (nonlinear_arith)
                    requires
                        av * vb * ps == seq_value(d1) + carry_out * pow10(sn + lb),
                        carry_out >= 1,
                        seq_value(d1) >= 0,
                ;
                assert(pow10(sn + lb) == ps * pow10(lb));
                assert(av * vb >= pow10(lb)) by (nonlinear_arith)
                    requires
                        av * vb * ps >= ps * pow10(lb),
                        ps >= 1,
                ;
                lemma_min_len_le(av * vb, lb + 1);
                if min_len(av * vb) <= lb {
                    lemma_min_len_bound(av * vb);
                    lemma_pow10_mono(min_len(av * vb), lb);
                }
                assert(min_len(av * vb) == lb + 1);
            }
        } else {
            proof {
                let sn = shift as nat;
                assert(seq_value(digits@) == av * vb * ps);
                assert(pow10(sn + lb) == ps * pow10(lb));
                assert(seq_value(digits@) < pow10(sn + lb)) by {
                    assert(digits@.len() == sn + lb);
                }
                assert(av * vb < pow10(lb)) by (nonlinear_arith)
                    requires
                        av * vb * ps < ps * pow10(lb),
                        ps >= 1,
                ;
                lemma_min_len_le(av * vb, lb);
                assert(max_len(lb, min_len(av * vb)) == lb);
            }
        }
        Natural { digits }
    }

    /// Classic long multiplication: one partial product per digit of
    /// `self`, summed with repeated addition starting from zero. No final
    /// trimming beyond what addition itself does.
    pub fn multiply(&self, other: &Natural) -> (r: Natural)
        requires
            self.wf(),
            other.wf(),
        ensures
            r.wf(),
            r.value() == self.value() * other.value(),
            r@.len() == product_len(self@.len(), other@.len(), self.value() * other.value()),
            r@ == digits_of(self.value() * other.value(), r@.len()),
    {
        let ghost la = self@.len();
        let ghost lb = other@.len();
        let ghost vb = other.value();
        let mut total = Natural::zero();
        proof {
            assert(val_upto(self@, 0nat) == 0);
            assert(0nat * vb == 0) by (nonlinear_arith);
        }
        let mut i: usize = 0;
        while i < self.digits.len()
            invariant
                i <= la,
                la == self@.len(),
                lb == other@.len(),
                vb == other.value(),
                self.wf(),
                other.wf(),
                total.wf(),
                total.value() == val_upto(self@, i as nat) * vb,
                i == 0 ==> total@.len() == 1,
                i >= 1 ==> total@.len() == max_len((i + lb - 1) as nat, min_len(total.value())),
            decreases la - i,
        {
            let a = self.digits[i];
            let partial = Self::partial_product(a, i, other);
            let newtotal = total.add(&partial);
            proof {
                let iw = i as nat;
                let ai = coef(self@, i as int);
                let vi = val_upto(self@, iw) * vb;
                let vn = val_upto(self@, iw + 1) * vb;
                let mi = min_len(ai * vb);
                assert(a.val() == ai);
                assert(val_upto(self@, iw + 1) == val_upto(self@, iw) + ai * pow10(iw));
                assert(vn == vi + ai * vb * pow10(iw)) by (nonlinear_arith)
                    requires
                        val_upto(self@, iw + 1) == val_upto(self@, iw) + ai * pow10(iw),
                        vi == val_upto(self@, iw) * vb,
                        vn == val_upto(self@, iw + 1) * vb,
                ;
                assert(newtotal.value() == vn);
                // The length of the running sum keeps the shape
                // `max(digits consumed so far, digits the value needs)`.
                assert(min_len(vi) <= min_len(vn)) by {
                    assert(vi <= vn);
                    lemma_min_len_mono(vi, vn);
                }
                lemma_seq_value_bound(other@);
                lemma_pow10_pos(lb);
                assert(ai * vb < 10 * pow10(lb)) by (nonlinear_arith)
                    requires
                        ai <= 9,
                        vb < pow10(lb),
                        pow10(lb) >= 1,
                ;
                assert(pow10(lb + 1) == 10 * pow10(lb));
                lemma_min_len_le(ai * vb, lb + 1);
                if mi > lb {
                    // A carry digit appeared: the value itself has grown
                    // past `10^(i + lb)`, so the value term dominates.
                    crate::value::lemma_min_len_lower(ai * vb);
                    lemma_pow10_mono(lb, (mi - 1) as nat);
                    assert(ai * vb >= pow10(lb));
                    lemma_val_upto_lower(self@, iw + 1);
                    assert(val_upto(self@, iw + 1) >= ai * pow10(iw));
                    lemma_pow10_pos(iw);
                    assert(ai * vb * pow10(iw) == (ai * pow10(iw)) * vb) by (nonlinear_arith);
                    assert(vn >= ai * vb * pow10(iw)) by (nonlinear_arith)
                        requires
                            val_upto(self@, iw + 1) >= ai * pow10(iw),
                            vn == val_upto(self@, iw + 1) * vb,
                            ai * vb * pow10(iw) == (ai * pow10(iw)) * vb,
                    ;
                    lemma_pow10_add(iw, lb);
                    assert(ai * vb * pow10(iw) >= pow10(lb) * pow10(iw)) by (nonlinear_arith)
                        requires
                            ai * vb >= pow10(lb),
                            pow10(iw) >= 1,
                    ;
                    assert(pow10(iw + lb) == pow10(iw) * pow10(lb));
                    assert(pow10(lb) * pow10(iw) == pow10(iw) * pow10(lb)) by (nonlinear_arith);
                    assert(vn >= pow10(iw + lb));
                    assert(min_len(vn) >= iw + lb + 1) by {
                        if min_len(vn) <= iw + lb {
                            lemma_min_len_bound(vn);
                            lemma_pow10_mono(min_len(vn), iw + lb);
                        }
                    }
                }
                if i == 0 {
                    lemma_val_upto_one(self@);
                    assert(pow10(0nat) == 1);
                    assert(ai * vb * 1 == ai * vb) by (nonlinear_arith);
                    assert(vn == ai * vb) by {
                        assert(val_upto(self@, 0nat) == 0);
                        assert(vi == 0 * vb);
                        assert(0 * vb == 0) by (nonlinear_arith);
                    }
                }
            }
            total = newtotal;
            i += 1;
        }
        proof {
            lemma_val_upto_extend(self@, la);
            assert(total.value() == self.value() * vb);
            assert(total@.len() == product_len(la, lb, self.value() * other.value()));
            lemma_seq_is_digits_of(total@);
        }
        total
    }

    /// Does `self` stand for at least as large a number as `other`?
    fn at_least(&self, other: &Natural) -> (r: bool)
        requires
            self.wf(),
            other.wf(),
        ensures
            r == (self.value() >= other.value()),
    {
        match self.compare(other) {
            core::cmp::Ordering::Less => false,
            _ => true,
        }
    }

    /// Truncating integer division by repeated subtraction: count how
    /// many times `other` fits into `self` by piling up multiples of
    /// `other` until they overshoot. The cost grows with the quotient's
    /// numeric value, not with its digit count — a deliberate limitation
    /// of this engine. Dividing by zero reports `DivisionByZero`.
    pub fn divide(&self, other: &Natural) -> (r: Result<Natural, NaturalError>)
        requires
            self.wf(),
            other.wf(),
        ensures
            match r {
                Ok(q) => {
                    &&& other.value() != 0
                    &&& q.wf()
                    &&& q.value() == self.value() / other.value()
                    &&& q@.len() == min_len(self.value() / other.value())
                    &&& q@ == digits_of(self.value() / other.value(), q@.len())
                },
                Err(e) => {
                    &&& e == NaturalError::DivisionByZero
                    &&& other.value() == 0
                },
            },
    {
        if other.is_zero() {
            return Err(NaturalError::DivisionByZero);
        }
        let ghost va = self.value();
        let ghost vb = other.value();
        let mut n = Natural::one();
        let mut product = Natural::zero().add(other);
        proof {
            assert(product.value() == vb);
            assert(n.value() * vb == vb) by (nonlinear_arith)
                requires
                    n.value() == 1,
            ;
            assert((n.value() - 1) * vb == 0) by (nonlinear_arith)
                requires
                    n.value() == 1,
            ;
        }
        while self.at_least(&product)
            invariant
                self.wf(),
                other.wf(),
                n.wf(),
                product.wf(),
                va == self.value(),
                vb == other.value(),
                vb >= 1,
                n.value() >= 1,
                product.value() == n.value() * vb,
                (n.value() - 1) * vb <= va,
            decreases va + vb - product.value(),
        {
            let ghost n0 = n.value();
            n.increment();
            product.add_assign(other);
            proof {
                assert(product.value() == n0 * vb + vb);
                assert(n0 * vb + vb == (n0 + 1) * vb) by (nonlinear_arith);
                assert((n.value() - 1) * vb == n0 * vb) by (nonlinear_arith)
                    requires
                        n.value() == n0 + 1,
                ;
            }
        }
        proof {
            assert(va < n.value() * vb);
        }
        let one = Natural::one();
        match n.subtract(&one) {
            Ok(q) => {
                proof {
                    let qv = q.value();
                    assert(qv == n.value() - 1);
                    assert(qv * vb <= va) by (nonlinear_arith)
                        requires
                            qv == n.value() - 1,
                            (n.value() - 1) * vb <= va,
                    ;
                    assert(va < qv * vb + vb) by (nonlinear_arith)
                        requires
                            va < n.value() * vb,
                            qv == n.value() - 1,
                    ;
                    // The two bounds pin the quotient exactly.
                    vstd::arithmetic::div_mod::lemma_fundamental_div_mod_converse(
                        va as int,
                        vb as int,
                        qv as int,
                        va as int - (qv * vb) as int,
                    );
                    assert(qv == va / vb);
                }
                Ok(q)
            },
            Err(_) => {
                proof {
                    // `n` counts from one upward, so subtracting one
                    // cannot underflow.
                    assert(false);
                }
                Err(NaturalError::DivisionByZero)
            },
        }
    }

    /// The stored length with leading zero digits ignored: exactly the
    /// digit count the value needs. Nothing is mutated; padding is only
    /// skipped over.
    fn effective_len(&self) -> (l: usize)
        requires
            self.wf(),
        ensures
            1 <= l <= self@.len(),
            l as nat == min_len(self.value()),
            val_upto(self@, l as nat) == self.value(),
    {
        let mut l = self.digits.len();
        while l > 1 && self.digits[l - 1].as_u8() == 0
            invariant
                1 <= l <= self@.len(),
                self.wf(),
                forall|i: int| l <= i < self@.len() ==> coef(self@, i) == 0,
            decreases l,
        {
            l -= 1;
        }
        proof {
            let ln = l as nat;
            let t = self@.skip(l as int);
            assert(forall|j: int| 0 <= j < t.len() ==> coef(t, j) == coef(self@, l + j) && coef(
                self@,
                l + j,
            ) == 0);
            lemma_val_upto_zero(t, t.len());
            lemma_seq_value_split(self@, ln);
            assert(pow10(ln) * seq_value(t) == 0) by (nonlinear_arith)
                requires
                    seq_value(t) == 0,
            ;
            assert(val_upto(self@, ln) == self.value());
            let trimmed = self@.take(l as int);
            assert(forall|i: int| 0 <= i < l ==> coef(trimmed, i) == coef(self@, i));
            lemma_val_upto_agree(trimmed, self@, ln);
            assert(seq_value(trimmed) == self.value());
            assert(trimmed.len() > 1 ==> trimmed[trimmed.len() - 1].val() != 0);
            lemma_trimmed_min_len(trimmed);
        }
        l
    }

    /// Is this the number zero? True exactly when every stored digit is
    /// zero, whatever the stored length.
    pub fn is_zero(&self) -> (r: bool)
        requires
            self.wf(),
        ensures
            r == (self.value() == 0),
    {
        digits_are_zero(&self.digits)
    }

    /// Compare two naturals by numeric value: first by the digit count the
    /// values need (leading zero padding ignored), then digit by digit
    /// from the highest position down; the first differing position
    /// decides.
    pub fn compare(&self, other: &Natural) -> (r: core::cmp::Ordering)
        requires
            self.wf(),
            other.wf(),
        ensures
            r == value_ordering(self.value(), other.value()),
    {
        let la = self.effective_len();
        let lb = other.effective_len();
        if la < lb {
            proof {
                lemma_value_fewer_digits_smaller(self.value(), other.value());
            }
            return core::cmp::Ordering::Less;
        }
        if la > lb {
            proof {
                lemma_value_fewer_digits_smaller(other.value(), self.value());
            }
            return core::cmp::Ordering::Greater;
        }
        let mut p = la;
        while p > 0
            invariant
                p <= la,
                la == lb,
                la <= self@.len(),
                lb <= other@.len(),
                self.wf(),
                other.wf(),
                self.value() - other.value() == val_upto(self@, p as nat) - val_upto(
                    other@,
                    p as nat,
                ),
            decreases p,
        {
            p -= 1;
            let a = self.coefficient(p);
            let b = other.coefficient(p);
            proof {
                let pn = p as nat;
                let pw = pow10(pn);
                let ca = coef(self@, p as int);
                let cb = coef(other@, p as int);
                assert(val_upto(self@, pn + 1) == val_upto(self@, pn) + ca * pw);
                assert(val_upto(other@, pn + 1) == val_upto(other@, pn) + cb * pw);
                lemma_val_upto_bound(self@, pn);
                lemma_val_upto_bound(other@, pn);
                lemma_pow10_pos(pn);
                if ca < cb {
                    assert(ca * pw + pw <= cb * pw) by (nonlinear_arith)
                        requires
                            ca < cb,
                            pw >= 1,
                    ;
                }
                if cb < ca {
                    assert(cb * pw + pw <= ca * pw) by (nonlinear_arith)
                        requires
                            cb < ca,
                            pw >= 1,
                    ;
                }
            }
            let av = a.as_u8();
            let bv = b.as_u8();
            if av < bv {
                return core::cmp::Ordering::Less;
            }
            if av > bv {
                return core::cmp::Ordering::Greater;
            }
        }
        core::cmp::Ordering::Equal
    }
}

/// A value that needs fewer decimal digits is the smaller number.
proof fn lemma_value_fewer_digits_smaller(va: nat, vb: nat)
    requires
        min_len(va) < min_len(vb),
    ensures
        va < vb,
{
    lemma_min_len_bound(va);
    lemma_min_len_bound(vb);
    crate::value::lemma_min_len_lower(vb);
    lemma_pow10_mono(min_len(va), (min_len(vb) - 1) as nat);
}

/// Does a digit vector hold only zero digits (so stand for the number
/// zero)? Total: the empty vector counts as zero too.
fn digits_are_zero(v: &Vec<Digit>) -> (r: bool)
    ensures
        r == (seq_value(v@) == 0),
{
    let mut i: usize = 0;
    while i < v.len()
        invariant
            i <= v@.len(),
            forall|j: int| 0 <= j < i ==> coef(v@, j) == 0,
        decreases v@.len() - i,
    {
        if v[i].as_u8() != 0 {
            proof {
                let iw = i as nat;
                assert(val_upto(v@, iw + 1) == val_upto(v@, iw) + coef(v@, i as int) * pow10(iw));
                lemma_pow10_pos(iw);
                assert(coef(v@, i as int) * pow10(iw) >= 1) by (nonlinear_arith)
                    requires
                        coef(v@, i as int) >= 1,
                        pow10(iw) >= 1,
                ;
                lemma_val_upto_mono(v@, iw + 1, v@.len());
            }
            return false;
        }
        i += 1;
    }
    proof {
        lemma_val_upto_zero(v@, v@.len());
    }
    true
}

impl PartialEq for Natural {
    /// Two naturals are equal when they stand for the same number, even
    /// when their stored digit sequences differ in leading zero padding.
    fn eq(&self, other: &Natural) -> (r: bool) {
        if self.digits.len() == 0 || other.digits.len() == 0 {
            // Never reached through this library, whose naturals always
            // hold at least one digit; an empty sequence stands for zero.
            return digits_are_zero(&self.digits) && digits_are_zero(&other.digits);
        }
        matches!(self.compare(other), core::cmp::Ordering::Equal)
    }
}

impl vstd::std_specs::cmp::PartialEqSpecImpl for Natural {
    open spec fn obeys_eq_spec() -> bool {
        true
    }

    open spec fn eq_spec(&self, other: &Natural) -> bool {
        self.value() == other.value()
    }
}

impl PartialOrd for Natural {
    /// Naturals are totally ordered by numeric value, leading zero
    /// padding ignored.
    fn partial_cmp(&self, other: &Natural) -> (r: Option<core::cmp::Ordering>) {
        if self.digits.len() == 0 || other.digits.len() == 0 {
            // Never reached through this library; an empty sequence
            // stands for zero.
            let za = digits_are_zero(&self.digits);
            let zb = digits_are_zero(&other.digits);
            if za && zb {
                return Some(core::cmp::Ordering::Equal);
            }
            if za {
                return Some(core::cmp::Ordering::Less);
            }
            if zb {
                return Some(core::cmp::Ordering::Greater);
            }
            proof {
                // One side is empty, and an empty sequence counts as
                // zero, so this point cannot be reached.
                assert(false);
            }
            return None;
        }
        Some(self.compare(other))
    }
}

impl vstd::std_specs::cmp::PartialOrdSpecImpl for Natural {
    open spec fn obeys_partial_cmp_spec() -> bool {
        true
    }

    open spec fn partial_cmp_spec(&self, other: &Natural) -> Option<core::cmp::Ordering> {
        Some(value_ordering(self.value(), other.value()))
    }
}

} // verus!
