//! The mathematical model of a digit sequence: the number it stands for,
//! how many digits a number needs, and the digits a number has at a given
//! stored length. All arithmetic contracts are stated in these terms.

use vstd::prelude::*;

use crate::digit::Digit;

verus! {

/// Ten to the `n`-th power.
pub open spec fn pow10(n: nat) -> nat
    decreases n,
{
    if n == 0 {
        1
    } else {
        10 * pow10((n - 1) as nat)
    }
}

/// The coefficient of `10^i` in a digit sequence: the stored digit inside
/// the sequence, and zero at every position beyond it. The virtual zero
/// extension lets sequences of different stored lengths be combined
/// position by position.
pub open spec fn coef(s: Seq<Digit>, i: int) -> nat {
    if 0 <= i < s.len() {
        s[i].val()
    } else {
        0
    }
}

/// The value contributed by the positions below `p`:
/// `sum of coef(s, i) * 10^i for i < p`.
pub open spec fn val_upto(s: Seq<Digit>, p: nat) -> nat
    decreases p,
{
    if p == 0 {
        0
    } else {
        val_upto(s, (p - 1) as nat) + coef(s, p - 1) * pow10((p - 1) as nat)
    }
}

/// The number a digit sequence stands for, least-significant digit first.
pub open spec fn seq_value(s: Seq<Digit>) -> nat {
    val_upto(s, s.len())
}

/// How many decimal digits the value `v` needs: one for values below ten,
/// one more for each further division by ten. Zero needs one digit.
pub open spec fn min_len(v: nat) -> nat
    decreases v,
{
    if v < 10 {
        1
    } else {
        1 + min_len(v / 10)
    }
}

/// The sequence of `l` digits that stands for the value `v`: digit `i` is
/// the `i`-th decimal digit of `v`.
pub open spec fn digits_of(v: nat, l: nat) -> Seq<Digit> {
    Seq::new(l, |i: int| digit_of_val((v / pow10(i as nat)) % 10))
}

/// The digit with the given value below ten.
pub open spec fn digit_of_val(v: nat) -> Digit {
    if v == 0 {
        Digit::Zero
    } else if v == 1 {
        Digit::One
    } else if v == 2 {
        Digit::Two
    } else if v == 3 {
        Digit::Three
    } else if v == 4 {
        Digit::Four
    } else if v == 5 {
        Digit::Five
    } else if v == 6 {
        Digit::Six
    } else if v == 7 {
        Digit::Seven
    } else if v == 8 {
        Digit::Eight
    } else {
        Digit::Nine
    }
}

/// The larger of two lengths.
pub open spec fn max_len(a: nat, b: nat) -> nat {
    if a >= b {
        a
    } else {
        b
    }
}

/// The stored length of the sum of two sequences of lengths `la` and `lb`
/// whose values add to `v`: the longer input, plus one position when a
/// carry walks off its top.
pub open spec fn added_len(la: nat, lb: nat, v: nat) -> nat {
    max_len(max_len(la, lb), min_len(v))
}

/// The stored length of the product of two sequences of lengths `la` and
/// `lb` whose values multiply to `v`.
pub open spec fn product_len(la: nat, lb: nat, v: nat) -> nat {
    max_len((la + lb - 1) as nat, min_len(v))
}

pub proof fn lemma_pow10_pos(n: nat)
    ensures
        pow10(n) >= 1,
    decreases n,
{
    if n > 0 {
        lemma_pow10_pos((n - 1) as nat);
    }
}

pub proof fn lemma_pow10_add(a: nat, b: nat)
    ensures
        pow10(a + b) == pow10(a) * pow10(b),
    decreases a,
{
    if a == 0 {
        assert(pow10(0 + b) == 1 * pow10(b));
    } else {
        lemma_pow10_add((a - 1) as nat, b);
        assert(pow10((a - 1) as nat + b) == pow10((a - 1) as nat) * pow10(b));
        assert(pow10(a + b) == 10 * pow10(((a + b) - 1) as nat));
        assert(((a + b) - 1) as nat == (a - 1) as nat + b);
        assert(pow10(a) == 10 * pow10((a - 1) as nat));
        assert(10 * (pow10((a - 1) as nat) * pow10(b)) == (10 * pow10((a - 1) as nat)) * pow10(b))
            by (nonlinear_arith);
        assert(pow10(a + b) == pow10(a) * pow10(b));
    }
}

pub proof fn lemma_pow10_mono(a: nat, b: nat)
    requires
        a <= b,
    ensures
        pow10(a) <= pow10(b),
    decreases b,
{
    if a < b {
        lemma_pow10_mono(a, (b - 1) as nat);
        lemma_pow10_pos((b - 1) as nat);
    }
}

/// Every digit is at most nine.
pub proof fn lemma_coef_bound(s: Seq<Digit>, i: int)
    ensures
        coef(s, i) <= 9,
{
}

/// Two sequences that agree on the coefficients below `p` contribute the
/// same value there.
pub proof fn lemma_val_upto_agree(s: Seq<Digit>, t: Seq<Digit>, p: nat)
    requires
        forall|i: int| 0 <= i < p ==> coef(s, i) == coef(t, i),
    ensures
        val_upto(s, p) == val_upto(t, p),
    decreases p,
{
    if p > 0 {
        lemma_val_upto_agree(s, t, (p - 1) as nat);
    }
}

/// Beyond the stored length only zero coefficients remain, so the partial
/// value stops growing.
pub proof fn lemma_val_upto_extend(s: Seq<Digit>, p: nat)
    requires
        p >= s.len(),
    ensures
        val_upto(s, p) == seq_value(s),
    decreases p,
{
    if p > s.len() {
        lemma_val_upto_extend(s, (p - 1) as nat);
        assert(val_upto(s, (p - 1) as nat) == seq_value(s));
        assert(coef(s, p - 1) == 0);
        assert(val_upto(s, p) == val_upto(s, (p - 1) as nat) + coef(s, p - 1) * pow10(
            (p - 1) as nat,
        ));
        assert(val_upto(s, p) == seq_value(s));
    }
}

/// The value contributed below `p` stays below `10^p`.
pub proof fn lemma_val_upto_bound(s: Seq<Digit>, p: nat)
    ensures
        val_upto(s, p) < pow10(p),
    decreases p,
{
    if p > 0 {
        lemma_val_upto_bound(s, (p - 1) as nat);
        assert(val_upto(s, (p - 1) as nat) < pow10((p - 1) as nat));
        lemma_coef_bound(s, p - 1);
        assert(coef(s, p - 1) * pow10((p - 1) as nat) <= 9 * pow10((p - 1) as nat))
            by (nonlinear_arith)
            requires
                coef(s, p - 1) <= 9,
                pow10((p - 1) as nat) >= 0,
        ;
        assert(val_upto(s, p) == val_upto(s, (p - 1) as nat) + coef(s, p - 1) * pow10(
            (p - 1) as nat,
        ));
        assert(pow10(p) == 10 * pow10((p - 1) as nat));
        assert(val_upto(s, p) < pow10(p));
    }
}

/// A whole sequence of length `l` stands for a value below `10^l`.
pub proof fn lemma_seq_value_bound(s: Seq<Digit>)
    ensures
        seq_value(s) < pow10(s.len()),
{
    lemma_val_upto_bound(s, s.len());
}

/// The partial value grows with the number of positions taken in.
pub proof fn lemma_val_upto_mono(s: Seq<Digit>, p: nat, q: nat)
    requires
        p <= q,
    ensures
        val_upto(s, p) <= val_upto(s, q),
    decreases q,
{
    if p < q {
        lemma_val_upto_mono(s, p, (q - 1) as nat);
    }
}

/// Splitting a sequence at position `p` splits its value: the low `p`
/// positions, plus `10^p` times the value of the rest.
pub proof fn lemma_val_upto_skip(s: Seq<Digit>, p: nat, k: nat)
    requires
        p <= s.len(),
    ensures
        val_upto(s, p + k) == val_upto(s, p) + pow10(p) * val_upto(s.skip(p as int), k),
    decreases k,
{
    if k == 0 {
        assert(val_upto(s, p + 0) == val_upto(s, p) + pow10(p) * 0) by {
            assert(val_upto(s.skip(p as int), 0) == 0);
        }
    } else {
        lemma_val_upto_skip(s, p, (k - 1) as nat);
        let t = s.skip(p as int);
        assert(val_upto(s, p + (k - 1) as nat) == val_upto(s, p) + pow10(p) * val_upto(
            t,
            (k - 1) as nat,
        ));
        assert(coef(s, p + k - 1) == coef(t, k - 1));
        lemma_pow10_add(p, (k - 1) as nat);
        assert(pow10((p + k - 1) as nat) == pow10(p) * pow10((k - 1) as nat));
        assert(val_upto(s, p + k) == val_upto(s, (p + k - 1) as nat) + coef(s, p + k - 1) * pow10(
            (p + k - 1) as nat,
        ));
        assert(val_upto(t, k) == val_upto(t, (k - 1) as nat) + coef(t, k - 1) * pow10(
            (k - 1) as nat,
        ));
        assert(coef(t, k - 1) * (pow10(p) * pow10((k - 1) as nat)) == pow10(p) * (coef(t, k - 1)
            * pow10((k - 1) as nat))) by (nonlinear_arith);
        assert(pow10(p) * val_upto(t, (k - 1) as nat) + pow10(p) * (coef(t, k - 1) * pow10(
            (k - 1) as nat,
        )) == pow10(p) * (val_upto(t, (k - 1) as nat) + coef(t, k - 1) * pow10((k - 1) as nat)))
            by (nonlinear_arith);
        assert(val_upto(s, p + k) == val_upto(s, p) + pow10(p) * val_upto(t, k));
    }
}

/// The value of a sequence is its low part below `p` plus `10^p` times the
/// value of what remains above.
pub proof fn lemma_seq_value_split(s: Seq<Digit>, p: nat)
    requires
        p <= s.len(),
    ensures
        seq_value(s) == val_upto(s, p) + pow10(p) * seq_value(s.skip(p as int)),
{
    lemma_val_upto_skip(s, p, (s.len() - p) as nat);
}

/// A sequence whose coefficients below `p` are all zero contributes
/// nothing there.
pub proof fn lemma_val_upto_zero(s: Seq<Digit>, p: nat)
    requires
        forall|i: int| 0 <= i < p ==> coef(s, i) == 0,
    ensures
        val_upto(s, p) == 0,
    decreases p,
{
    if p > 0 {
        lemma_val_upto_zero(s, (p - 1) as nat);
        assert(val_upto(s, (p - 1) as nat) == 0);
        assert(coef(s, p - 1) == 0);
        assert(val_upto(s, p) == val_upto(s, (p - 1) as nat) + coef(s, p - 1) * pow10(
            (p - 1) as nat,
        ));
        assert(val_upto(s, p) == 0);
    }
}

/// A sequence whose coefficients below `p` are all nine contributes
/// exactly `10^p - 1` there.
pub proof fn lemma_val_upto_nines(s: Seq<Digit>, p: nat)
    requires
        forall|i: int| 0 <= i < p ==> coef(s, i) == 9,
    ensures
        val_upto(s, p) == pow10(p) - 1,
    decreases p,
{
    if p > 0 {
        lemma_val_upto_nines(s, (p - 1) as nat);
        assert(val_upto(s, (p - 1) as nat) == pow10((p - 1) as nat) - 1);
        assert(coef(s, p - 1) == 9);
        assert(val_upto(s, p) == val_upto(s, (p - 1) as nat) + coef(s, p - 1) * pow10(
            (p - 1) as nat,
        ));
        assert(pow10(p) == 10 * pow10((p - 1) as nat));
        assert(val_upto(s, p) == pow10(p) - 1);
    }
}

/// The value of the first position alone is its coefficient.
pub proof fn lemma_val_upto_one(s: Seq<Digit>)
    ensures
        val_upto(s, 1) == coef(s, 0),
{
    assert(pow10(0) == 1);
    assert(val_upto(s, 0) == 0);
    assert(val_upto(s, 1) == val_upto(s, (1 - 1) as nat) + coef(s, 1 - 1) * pow10((1 - 1) as nat));
    assert(val_upto(s, 1) == coef(s, 0) * 1);
}

/// A non-empty sequence's value is its lowest digit plus ten times the
/// value of the rest.
pub proof fn lemma_seq_value_head(s: Seq<Digit>)
    requires
        s.len() >= 1,
    ensures
        seq_value(s) == coef(s, 0) + 10 * seq_value(s.skip(1)),
{
    lemma_seq_value_split(s, 1);
    lemma_val_upto_one(s);
    assert(pow10(1nat) == 10 * pow10((1 - 1) as nat));
    assert((1 - 1) as nat == 0nat);
    assert(pow10(0) == 1);
    assert(pow10(1nat) == 10);
    assert(seq_value(s) == val_upto(s, 1) + pow10(1) * seq_value(s.skip(1)));
    assert(pow10(1nat) * seq_value(s.skip(1)) == 10 * seq_value(s.skip(1))) by (nonlinear_arith)
        requires
            pow10(1nat) == 10,
    ;
}

/// The coefficient at `p - 1` contributes at least `coef * 10^(p-1)`.
pub proof fn lemma_val_upto_lower(s: Seq<Digit>, p: nat)
    requires
        p >= 1,
    ensures
        val_upto(s, p) >= coef(s, p - 1) * pow10((p - 1) as nat),
{
    assert(val_upto(s, p) == val_upto(s, (p - 1) as nat) + coef(s, p - 1) * pow10((p - 1) as nat));
}

/// The value of the positions from `p` upward, in units of `10^p`; zero
/// when `p` runs past the stored length.
pub open spec fn rest_value(s: Seq<Digit>, p: nat) -> nat {
    if p <= s.len() {
        seq_value(s.skip(p as int))
    } else {
        0
    }
}

/// A sequence's value splits at any position into the part below and
/// `10^p` times the rest.
pub proof fn lemma_rest_split(s: Seq<Digit>, p: nat)
    ensures
        seq_value(s) == val_upto(s, p) + pow10(p) * rest_value(s, p),
{
    if p <= s.len() {
        lemma_seq_value_split(s, p);
    } else {
        lemma_val_upto_extend(s, p);
        assert(pow10(p) * rest_value(s, p) == 0) by (nonlinear_arith)
            requires
                rest_value(s, p) == 0,
        ;
    }
}

/// Peeling one position off the rest: the digit there plus ten times what
/// remains above.
pub proof fn lemma_rest_step(s: Seq<Digit>, p: nat)
    ensures
        rest_value(s, p) == coef(s, p as int) + 10 * rest_value(s, p + 1),
{
    if p < s.len() {
        let t = s.skip(p as int);
        lemma_seq_value_head(t);
        assert(coef(t, 0) == coef(s, p as int));
        assert(t.skip(1) =~= s.skip(p as int + 1));
    } else if p == s.len() {
        assert(s.skip(p as int) =~= Seq::<Digit>::empty());
        assert(rest_value(s, p) == 0);
        assert(coef(s, p as int) == 0);
    } else {
        assert(coef(s, p as int) == 0);
    }
}

/// Nothing remains above `p` when every coefficient from `p` upward is
/// zero.
pub proof fn lemma_rest_zero(s: Seq<Digit>, p: nat)
    requires
        forall|j: int| p <= j ==> coef(s, j) == 0,
    ensures
        rest_value(s, p) == 0,
{
    if p <= s.len() {
        let t = s.skip(p as int);
        assert(forall|j: int| 0 <= j < t.len() ==> coef(t, j) == coef(s, p + j));
        lemma_val_upto_zero(t, t.len());
    }
}

/// The partial value never exceeds the whole value.
pub proof fn lemma_val_upto_le_value(s: Seq<Digit>, p: nat)
    ensures
        val_upto(s, p) <= seq_value(s),
{
    if p <= s.len() {
        lemma_val_upto_mono(s, p, s.len());
    } else {
        lemma_val_upto_extend(s, p);
    }
}

/// Borrowing one unit out of a digit sequence: the zero digits below the
/// first non-zero one all become nines, that digit goes down by one, and
/// the sequence's value goes down by exactly one.
pub proof fn lemma_borrow_decrement(t0: Seq<Digit>, t2: Seq<Digit>, k: nat)
    requires
        t0.len() == t2.len(),
        k < t0.len(),
        forall|j: int| 0 <= j < k ==> coef(t0, j) == 0,
        coef(t0, k as int) >= 1,
        forall|j: int| 0 <= j < k ==> coef(t2, j) == 9,
        coef(t2, k as int) == coef(t0, k as int) - 1,
        forall|j: int| k < j < t0.len() ==> coef(t2, j) == coef(t0, j),
    ensures
        seq_value(t2) == seq_value(t0) - 1,
{
    lemma_seq_value_split(t0, k + 1);
    lemma_seq_value_split(t2, k + 1);
    lemma_val_upto_zero(t0, k);
    lemma_val_upto_nines(t2, k);
    assert(val_upto(t0, k + 1) == val_upto(t0, k) + coef(t0, k as int) * pow10(k));
    assert(val_upto(t2, k + 1) == val_upto(t2, k) + coef(t2, k as int) * pow10(k));
    assert(coef(t2, k as int) * pow10(k) == coef(t0, k as int) * pow10(k) - pow10(k))
        by (nonlinear_arith)
        requires
            coef(t2, k as int) == coef(t0, k as int) - 1,
    ;
    assert(val_upto(t2, k + 1) == val_upto(t0, k + 1) - 1);
    let r0 = t0.skip(k as int + 1);
    let r2 = t2.skip(k as int + 1);
    assert(forall|j: int| 0 <= j < r0.len() ==> coef(r0, j) == coef(r2, j)) by {
        assert(forall|j: int| 0 <= j < r0.len() ==> coef(r0, j) == coef(t0, k + 1 + j) && coef(
            r2,
            j,
        ) == coef(t2, k + 1 + j));
    }
    lemma_val_upto_agree(r0, r2, r0.len());
    assert(seq_value(r2) == seq_value(r0)) by {
        lemma_val_upto_extend(r2, r0.len());
    }
}

/// Dropping a most-significant zero digit leaves the value unchanged.
pub proof fn lemma_drop_leading_zero(s: Seq<Digit>)
    requires
        s.len() >= 1,
        coef(s, s.len() - 1) == 0,
    ensures
        seq_value(s.subrange(0, s.len() - 1)) == seq_value(s),
{
    let t = s.subrange(0, s.len() - 1);
    assert(seq_value(s) == val_upto(s, s.len()));
    assert(val_upto(s, s.len()) == val_upto(s, (s.len() - 1) as nat) + coef(s, s.len() - 1) * pow10(
        (s.len() - 1) as nat,
    ));
    assert(forall|i: int| 0 <= i < t.len() ==> coef(t, i) == coef(s, i));
    lemma_val_upto_agree(t, s, t.len());
}

/// A value is always below ten to its own digit count.
pub proof fn lemma_min_len_bound(v: nat)
    ensures
        min_len(v) >= 1,
        v < pow10(min_len(v)),
    decreases v,
{
    if v < 10 {
        assert(min_len(v) == 1);
        assert(pow10(1nat) == 10 * pow10(0));
    } else {
        lemma_min_len_bound(v / 10);
        let m = min_len(v / 10);
        assert(v / 10 < pow10(m));
        assert(v == 10 * (v / 10) + v % 10) by {
            vstd::arithmetic::div_mod::lemma_fundamental_div_mod(v as int, 10);
        }
        assert(v % 10 <= 9) by {
            vstd::arithmetic::div_mod::lemma_mod_division_less_than_divisor(v as int, 10);
        }
        assert(10 * (v / 10) + 9 < 10 * pow10(m)) by (nonlinear_arith)
            requires
                v / 10 < pow10(m),
        ;
        assert(min_len(v) == m + 1);
        assert(pow10(m + 1) == 10 * pow10(m));
        assert(v < pow10(min_len(v)));
    }
}

/// `l` digits are enough for every value below `10^l`.
pub proof fn lemma_min_len_le(v: nat, l: nat)
    requires
        l >= 1,
        v < pow10(l),
    ensures
        min_len(v) <= l,
    decreases v,
{
    if v < 10 {
        assert(min_len(v) == 1);
    } else {
        assert(l >= 2) by {
            if l == 1 {
                assert(pow10(1nat) == 10 * pow10((1 - 1) as nat));
                assert(pow10(0nat) == 1);
            }
        }
        assert(pow10(l) == 10 * pow10((l - 1) as nat));
        assert(v / 10 < pow10((l - 1) as nat)) by (nonlinear_arith)
            requires
                v < 10 * pow10((l - 1) as nat),
        ;
        lemma_min_len_le(v / 10, (l - 1) as nat);
        assert(min_len(v) == 1 + min_len(v / 10));
    }
}

/// A value with more than one digit reaches ten to one less than its
/// digit count.
pub proof fn lemma_min_len_lower(v: nat)
    requires
        min_len(v) >= 2,
    ensures
        v >= pow10((min_len(v) - 1) as nat),
{
    if v < pow10((min_len(v) - 1) as nat) {
        lemma_min_len_le(v, (min_len(v) - 1) as nat);
    }
}

/// A larger value never needs fewer digits.
pub proof fn lemma_min_len_mono(u: nat, v: nat)
    requires
        u <= v,
    ensures
        min_len(u) <= min_len(v),
{
    lemma_min_len_bound(v);
    lemma_min_len_le(u, min_len(v));
}

/// The digit count of a sequence's value never exceeds its stored length.
pub proof fn lemma_min_len_of_seq(s: Seq<Digit>)
    requires
        s.len() >= 1,
    ensures
        min_len(seq_value(s)) <= s.len(),
{
    lemma_seq_value_bound(s);
    lemma_min_len_le(seq_value(s), s.len());
}

/// A sequence with no leading zero digit (or a single digit) is exactly as
/// long as its value needs.
pub proof fn lemma_trimmed_min_len(s: Seq<Digit>)
    requires
        s.len() >= 1,
        s.len() > 1 ==> s[s.len() - 1].val() != 0,
    ensures
        s.len() == min_len(seq_value(s)),
{
    lemma_min_len_of_seq(s);
    if s.len() > 1 {
        lemma_val_upto_lower(s, s.len());
        lemma_pow10_pos((s.len() - 1) as nat);
        assert(coef(s, s.len() - 1) * pow10((s.len() - 1) as nat) >= pow10((s.len() - 1) as nat))
            by (nonlinear_arith)
            requires
                coef(s, s.len() - 1) >= 1,
                pow10((s.len() - 1) as nat) >= 1,
        ;
        if min_len(seq_value(s)) < s.len() {
            lemma_min_len_bound(seq_value(s));
            lemma_pow10_mono(min_len(seq_value(s)), (s.len() - 1) as nat);
        }
    }
}

/// Two sequences of the same length that stand for the same value are the
/// same sequence: the base-10 representation at a fixed length is unique.
pub proof fn lemma_digits_unique(s: Seq<Digit>, t: Seq<Digit>)
    requires
        s.len() == t.len(),
        seq_value(s) == seq_value(t),
    ensures
        s == t,
    decreases s.len(),
{
    if s.len() == 0 {
        assert(s =~= t);
    } else {
        lemma_seq_value_head(s);
        lemma_seq_value_head(t);
        let vs = seq_value(s);
        lemma_coef_bound(s, 0);
        lemma_coef_bound(t, 0);
        assert(vs as int == seq_value(s.skip(1)) as int * 10 + coef(s, 0) as int);
        assert(vs as int == seq_value(t.skip(1)) as int * 10 + coef(t, 0) as int);
        // vs == coef(s, 0) + 10 * rest, with coef(s, 0) < 10: the
        // decomposition is the unique one of division by ten.
        vstd::arithmetic::div_mod::lemma_fundamental_div_mod_converse(
            vs as int,
            10,
            seq_value(s.skip(1)) as int,
            coef(s, 0) as int,
        );
        vstd::arithmetic::div_mod::lemma_fundamental_div_mod_converse(
            vs as int,
            10,
            seq_value(t.skip(1)) as int,
            coef(t, 0) as int,
        );
        assert(coef(s, 0) == coef(t, 0));
        crate::digit::lemma_digit_val_injective(s[0], t[0]);
        lemma_digits_unique(s.skip(1), t.skip(1));
        assert forall|i: int| 1 <= i < s.len() implies s[i] == t[i] by {
            assert(s[i] == s.skip(1)[i - 1]);
            assert(t[i] == t.skip(1)[i - 1]);
        }
        assert(s =~= t);
    }
}

/// `digit_of_val` returns the digit of the value it is given.
pub proof fn lemma_digit_of_val(v: nat)
    requires
        v <= 9,
    ensures
        digit_of_val(v).val() == v,
{
}

/// The sequence `digits_of(v, l)` does stand for `v`, whenever `l` digits
/// are enough to hold `v`.
pub proof fn lemma_digits_of_value(v: nat, l: nat)
    requires
        v < pow10(l),
    ensures
        seq_value(digits_of(v, l)) == v,
    decreases l,
{
    let s = digits_of(v, l);
    if l == 0 {
        assert(v == 0);
    } else {
        let rest = digits_of(v / 10, (l - 1) as nat);
        assert(pow10(l) == 10 * pow10((l - 1) as nat));
        assert(v / 10 < pow10((l - 1) as nat)) by (nonlinear_arith)
            requires
                v < 10 * pow10((l - 1) as nat),
        ;
        lemma_digits_of_value(v / 10, (l - 1) as nat);
        assert(s.skip(1) =~= rest) by {
            assert forall|i: int| 0 <= i < l - 1 implies s.skip(1)[i] == rest[i] by {
                assert(s.skip(1)[i] == digit_of_val((v / pow10((i + 1) as nat)) % 10));
                lemma_pow10_pos(i as nat);
                vstd::arithmetic::div_mod::lemma_div_denominator(
                    v as int,
                    10,
                    pow10(i as nat) as int,
                );
                assert(v / 10 / pow10(i as nat) == v / (10 * pow10(i as nat)));
                assert(pow10((i + 1) as nat) == 10 * pow10(i as nat));
            }
        }
        lemma_seq_value_head(s);
        assert(s[0] == digit_of_val((v / pow10(0)) % 10));
        assert(v / pow10(0) == v) by {
            vstd::arithmetic::div_mod::lemma_div_by_self(1);
            assert(pow10(0) == 1);
            assert(v / 1 == v) by (nonlinear_arith);
        }
        lemma_digit_of_val(v % 10);
        assert(seq_value(s) == (v % 10) + 10 * (v / 10));
        assert(v == 10 * (v / 10) + v % 10) by (nonlinear_arith);
    }
}

/// A sequence is the `digits_of` its own value at its own length.
pub proof fn lemma_seq_is_digits_of(s: Seq<Digit>)
    ensures
        s == digits_of(seq_value(s), s.len()),
{
    lemma_seq_value_bound(s);
    lemma_digits_of_value(seq_value(s), s.len());
    lemma_digits_unique(s, digits_of(seq_value(s), s.len()));
}

/// The length rule for addition, as the algorithm sees it: the carry walks
/// off the top exactly when the sum no longer fits in the longer input.
pub proof fn lemma_added_len(la: nat, lb: nat, va: nat, vb: nat)
    requires
        la >= 1,
        lb >= 1,
        va < pow10(la),
        vb < pow10(lb),
    ensures
        added_len(la, lb, va + vb) == if va + vb >= pow10(max_len(la, lb)) {
            max_len(la, lb) + 1
        } else {
            max_len(la, lb)
        },
{
    let m = max_len(la, lb);
    let s = va + vb;
    lemma_pow10_mono(la, m);
    lemma_pow10_mono(lb, m);
    assert(pow10(m + 1) == 10 * pow10(m));
    lemma_pow10_pos(m);
    if s >= pow10(m) {
        lemma_min_len_le(s, m + 1);
        if min_len(s) <= m {
            lemma_min_len_bound(s);
            lemma_pow10_mono(min_len(s), m);
        }
    } else {
        lemma_min_len_le(s, m);
    }
}

} // verus!
