//! The general laws of the digit engine, each stated over the same spec
//! functions the operations' contracts use, and proved once for all
//! inputs. The `digits_of(value, length)` form names an operation's exact
//! result sequence, as given by its `ensures`.

use vstd::prelude::*;

use crate::digit::{digit_of_char, lemma_char_digit_round_trip, lemma_digit_char_round_trip};
use crate::natural::{all_decimal, formatted_chars, parsed_digits, text_value, value_ordering, Natural};
use crate::value::{
    added_len, digits_of, lemma_digits_of_value, lemma_min_len_bound, lemma_min_len_mono,
    lemma_min_len_of_seq, lemma_pow10_mono, lemma_seq_is_digits_of, max_len, min_len,
    product_len, seq_value,
};

verus! {

/// Round-trip: formatting a parsed string gives the text back unchanged,
/// for every valid decimal string with no leading zero beyond a single
/// `"0"` (in fact the proof never needs the leading digit at all, since
/// parsing keeps padding and formatting prints it back).
pub proof fn lemma_format_parse_round_trip(s: Seq<char>)
    requires
        s.len() >= 1,
        all_decimal(s),
        s.len() > 1 ==> s[0] != '0',
    ensures
        formatted_chars(parsed_digits(s)) == s,
{
    let d = parsed_digits(s);
    assert forall|j: int| 0 <= j < s.len() implies formatted_chars(d)[j] == s[j] by {
        assert(d[s.len() - 1 - j] == digit_of_char(s[j]));
        lemma_char_digit_round_trip(s[j]);
    }
    assert(formatted_chars(d) =~= s);
}

/// Round-trip the other way: parsing a formatted natural gives back the
/// very digit sequence it was formatted from, padding included.
pub proof fn lemma_parse_format_round_trip(d: Seq<crate::digit::Digit>)
    ensures
        all_decimal(formatted_chars(d)),
        parsed_digits(formatted_chars(d)) == d,
{
    let f = formatted_chars(d);
    assert forall|j: int| 0 <= j < d.len() implies parsed_digits(f)[j] == d[j] by {
        assert(f[d.len() - 1 - j] == crate::digit::char_of_digit(d[j]));
        lemma_digit_char_round_trip(d[j]);
    }
    assert(parsed_digits(f) =~= d);
}

/// Formatted text denotes the number it was formatted from: reading the
/// rendered characters as a decimal numeral gives the sequence's value.
pub proof fn lemma_format_denotes_value(d: Seq<crate::digit::Digit>)
    ensures
        text_value(formatted_chars(d)) == seq_value(d),
    decreases d.len(),
{
    let f = formatted_chars(d);
    if d.len() == 0 {
        assert(f.len() == 0);
    } else {
        lemma_format_denotes_value(d.skip(1));
        assert(f.last() == crate::digit::char_of_digit(d[0]));
        lemma_digit_char_round_trip(d[0]);
        assert(f.drop_last() =~= formatted_chars(d.skip(1))) by {
            assert forall|j: int| 0 <= j < d.len() - 1 implies f.drop_last()[j] == formatted_chars(
                d.skip(1),
            )[j] by {
                assert(f[j] == crate::digit::char_of_digit(d[d.len() - 1 - j]));
                assert(d.skip(1)[d.len() - 2 - j] == d[d.len() - 1 - j]);
            }
        }
        assert(text_value(f) == 10 * text_value(f.drop_last()) + digit_of_char(f.last()).val());
        crate::value::lemma_seq_value_head(d);
    }
}

/// Addition is commutative: `add(a, b)` and `add(b, a)` return the very
/// same digit sequence, not merely equal values.
pub proof fn lemma_add_commutative(a: Natural, b: Natural)
    requires
        a.wf(),
        b.wf(),
    ensures
        digits_of(a.value() + b.value(), added_len(a@.len(), b@.len(), a.value() + b.value()))
            == digits_of(
            b.value() + a.value(),
            added_len(b@.len(), a@.len(), b.value() + a.value()),
        ),
{
}

/// Multiplication is commutative: `multiply(a, b)` and `multiply(b, a)`
/// return the very same digit sequence.
pub proof fn lemma_multiply_commutative(a: Natural, b: Natural)
    requires
        a.wf(),
        b.wf(),
    ensures
        digits_of(a.value() * b.value(), product_len(a@.len(), b@.len(), a.value() * b.value()))
            == digits_of(
            b.value() * a.value(),
            product_len(b@.len(), a@.len(), b.value() * a.value()),
        ),
{
    assert(a.value() * b.value() == b.value() * a.value()) by (nonlinear_arith);
}

/// Addition is associative: summing in either grouping returns the very
/// same digit sequence. The stored length agrees because a running sum's
/// length is always the longest input seen so far or the digit count of
/// the value, whichever is larger.
pub proof fn lemma_add_associative(a: Natural, b: Natural, c: Natural)
    requires
        a.wf(),
        b.wf(),
        c.wf(),
    ensures
        digits_of(
            (a.value() + b.value()) + c.value(),
            added_len(
                added_len(a@.len(), b@.len(), a.value() + b.value()),
                c@.len(),
                (a.value() + b.value()) + c.value(),
            ),
        ) == digits_of(
            a.value() + (b.value() + c.value()),
            added_len(
                a@.len(),
                added_len(b@.len(), c@.len(), b.value() + c.value()),
                a.value() + (b.value() + c.value()),
            ),
        ),
{
    let la = a@.len();
    let lb = b@.len();
    let lc = c@.len();
    let s = a.value() + b.value() + c.value();
    lemma_min_len_mono(a.value() + b.value(), s);
    lemma_min_len_mono(b.value() + c.value(), s);
    assert(added_len(added_len(la, lb, a.value() + b.value()), lc, s) == max_len(
        max_len(max_len(la, lb), lc),
        min_len(s),
    ));
    assert(added_len(la, added_len(lb, lc, b.value() + c.value()), s) == max_len(
        max_len(la, max_len(lb, lc)),
        min_len(s),
    ));
}

/// Additive identity: adding zero returns `a`'s digit sequence exactly,
/// padding and all — addition inherits a leading zero but never makes a
/// new one.
pub proof fn lemma_add_zero_identity(a: Natural, z: Natural)
    requires
        a.wf(),
        z.wf(),
        z.value() == 0,
        z@.len() == 1,
    ensures
        digits_of(a.value() + z.value(), added_len(a@.len(), z@.len(), a.value() + z.value()))
            == a@,
{
    lemma_min_len_of_seq(a@);
    assert(added_len(a@.len(), 1, a.value()) == a@.len());
    lemma_seq_is_digits_of(a@);
}

/// Multiplicative identity: multiplying by one returns `a`'s digit
/// sequence exactly.
pub proof fn lemma_multiply_one_identity(a: Natural, o: Natural)
    requires
        a.wf(),
        o.wf(),
        o.value() == 1,
        o@.len() == 1,
    ensures
        digits_of(a.value() * o.value(), product_len(a@.len(), o@.len(), a.value() * o.value()))
            == a@,
{
    assert(a.value() * 1 == a.value()) by (nonlinear_arith);
    lemma_min_len_of_seq(a@);
    assert(product_len(a@.len(), 1, a.value()) == a@.len());
    lemma_seq_is_digits_of(a@);
}

/// Inverse pair: for `a >= b`, adding `b` back onto `subtract(a, b)`
/// gives a natural standing for exactly `a`'s number. (The digit sequence
/// can differ from `a`'s in leading zero padding, which the library's
/// value-based equality ignores.)
pub proof fn lemma_subtract_add_inverse(a: Natural, b: Natural)
    requires
        a.wf(),
        b.wf(),
        b.value() <= a.value(),
    ensures
        (a.value() - b.value()) + b.value() == a.value(),
        seq_value(
            digits_of(
                a.value(),
                added_len(
                    min_len((a.value() - b.value()) as nat),
                    b@.len(),
                    (a.value() - b.value()) as nat + b.value(),
                ),
            ),
        ) == a.value(),
{
    let l = added_len(
        min_len((a.value() - b.value()) as nat),
        b@.len(),
        (a.value() - b.value()) as nat + b.value(),
    );
    assert(l >= min_len(a.value()));
    lemma_min_len_bound(a.value());
    lemma_pow10_mono(min_len(a.value()), l);
    lemma_digits_of_value(a.value(), l);
}

/// Division-multiplication relation: for `b != zero()`, the quotient is
/// the largest multiplier that does not overshoot:
/// `divide(a, b) * b <= a < (divide(a, b) + 1) * b`.
pub proof fn lemma_divide_multiply_bounds(a: Natural, b: Natural)
    requires
        a.wf(),
        b.wf(),
        b.value() != 0,
    ensures
        (a.value() / b.value()) * b.value() <= a.value(),
        a.value() < (a.value() / b.value() + 1) * b.value(),
{
    let va = a.value();
    let vb = b.value();
    vstd::arithmetic::div_mod::lemma_fundamental_div_mod(va as int, vb as int);
    vstd::arithmetic::div_mod::lemma_mod_division_less_than_divisor(va as int, vb as int);
    assert(va == vb * (va / vb) + va % vb);
    assert((va / vb) * vb == vb * (va / vb)) by (nonlinear_arith);
    assert((va / vb + 1) * vb == vb * (va / vb) + vb) by (nonlinear_arith);
}

/// Ordering totality: any two naturals compare in exactly one way, and
/// that way is the ordering of their numeric values.
pub proof fn lemma_ordering_total(a: Natural, b: Natural)
    requires
        a.wf(),
        b.wf(),
    ensures
        (value_ordering(a.value(), b.value()) == core::cmp::Ordering::Less) <==> a.value()
            < b.value(),
        (value_ordering(a.value(), b.value()) == core::cmp::Ordering::Equal) <==> a.value()
            == b.value(),
        (value_ordering(a.value(), b.value()) == core::cmp::Ordering::Greater) <==> a.value()
            > b.value(),
{
}

} // verus!
