//! The mathematical model of numeral values.
//!
//! A numeral is a most-significant-first sequence of digit symbols; its
//! digit values form a sequence of numbers below 94, and `val_of` folds
//! that sequence into the non-negative integer it denotes. `repr_vals`
//! is the converse direction: the canonical (no leading zero) digit-value
//! sequence of an integer. The lemmas here pin the two down: `val_of` and
//! `repr_vals` invert each other, so canonical representations are
//! unique, and the length-then-lexicographic comparison of canonical
//! sequences agrees with the order of the denoted integers.

use vstd::prelude::*;
use vstd::arithmetic::div_mod::{
    lemma_fundamental_div_mod, lemma_fundamental_div_mod_converse,
};
use vstd::arithmetic::mul::lemma_mul_inequality;
use crate::utils::{all_digits, digit_value, is_digit, lemma_alphabet_bijective, symbol_of};
use core::cmp::Ordering;

verus! {

/// 94 raised to `n`: the weight of a digit `n` places before the last.
pub open spec fn pow94(n: nat) -> nat
    decreases n,
{
    if n == 0 {
        1
    } else {
        94 * pow94((n - 1) as nat)
    }
}

/// Whether every entry of a digit-value sequence is below the radix.
pub open spec fn all_below_base(d: Seq<u8>) -> bool {
    forall|i: int| 0 <= i < d.len() ==> #[trigger] d[i] < 94
}

/// The integer a most-significant-first digit-value sequence denotes.
pub open spec fn val_of(d: Seq<u8>) -> nat
    decreases d.len(),
{
    if d.len() == 0 {
        0
    } else {
        val_of(d.drop_last()) * 94 + (d.last() as nat)
    }
}

/// The digit values of a digit string, symbol by symbol. Characters
/// outside the alphabet are mapped to 255, which no digit value reaches.
pub open spec fn vals(s: Seq<char>) -> Seq<u8> {
    Seq::new(s.len(), |i: int| if is_digit(s[i]) { digit_value(s[i]) as u8 } else { 255u8 })
}

/// The integer a digit string denotes in base 94.
pub open spec fn str_val(s: Seq<char>) -> nat {
    val_of(vals(s))
}

/// A canonical digit-value sequence: at least one digit, and no leading
/// zero unless the whole value is the single digit zero.
pub open spec fn canonical_vals(d: Seq<u8>) -> bool {
    d.len() >= 1 && (d.len() == 1 || d[0] != 0)
}

/// A canonical digit string: at least one digit, and no leading zero
/// symbol unless the whole string is the single zero symbol.
pub open spec fn canonical(s: Seq<char>) -> bool {
    s.len() >= 1 && (s.len() == 1 || s[0] != '0')
}

/// The canonical digit-value sequence of an integer.
pub open spec fn repr_vals(n: nat) -> Seq<u8>
    decreases n,
{
    if n < 94 {
        seq![n as u8]
    } else {
        repr_vals(n / 94).push((n % 94) as u8)
    }
}

/// The canonical digit string of an integer.
pub open spec fn repr(n: nat) -> Seq<char> {
    repr_vals(n).map_values(|v: u8| symbol_of(v as int))
}

/// One digit appended on the right multiplies the value by the radix and
/// adds the digit.
pub proof fn lemma_val_of_push(d: Seq<u8>, x: u8)
    ensures
        val_of(d.push(x)) == val_of(d) * 94 + x,
{
    assert(d.push(x).drop_last() =~= d);
    assert(d.push(x).last() == x);
}

/// A digit-value sequence of length `n` denotes an integer below 94^n.
pub proof fn lemma_val_of_upper(d: Seq<u8>)
    requires
        all_below_base(d),
    ensures
        val_of(d) < pow94(d.len()),
    decreases d.len(),
{
    if d.len() > 0 {
        let dd = d.drop_last();
        assert(all_below_base(dd));
        lemma_val_of_upper(dd);
        lemma_mul_inequality(val_of(dd) as int, pow94(dd.len()) - 1, 94);
    }
}

/// A sequence whose leading digit is non-zero denotes an integer of at
/// least the weight of that leading digit.
pub proof fn lemma_val_of_lower(d: Seq<u8>)
    requires
        d.len() >= 1,
        d[0] >= 1,
    ensures
        val_of(d) >= pow94((d.len() - 1) as nat),
    decreases d.len(),
{
    if d.len() == 1 {
        assert(val_of(d) == val_of(d.drop_last()) * 94 + d.last());
    } else {
        let dd = d.drop_last();
        lemma_val_of_lower(dd);
        lemma_mul_inequality(
            pow94((dd.len() - 1) as nat) as int,
            val_of(dd) as int,
            94,
        );
    }
}

/// Splitting a sequence splits its value: the prefix is weighted by the
/// radix power of the suffix length.
pub proof fn lemma_val_of_split(d: Seq<u8>, i: int)
    requires
        0 <= i <= d.len(),
    ensures
        val_of(d) == val_of(d.take(i)) * pow94((d.len() - i) as nat) + val_of(d.skip(i)),
    decreases d.len(),
{
    if i == d.len() {
        let p = pow94((d.len() - i) as nat);
        assert(p == 1);
        assert(d.take(i) =~= d);
        assert(d.skip(i) =~= Seq::<u8>::empty());
        assert(val_of(Seq::<u8>::empty()) == 0);
        assert(val_of(d.skip(i)) == 0);
        assert(val_of(d.take(i)) == val_of(d));
        assert(val_of(d.take(i)) * p == val_of(d));
    } else {
        let dd = d.drop_last();
        lemma_val_of_split(dd, i);
        assert(dd.take(i) =~= d.take(i));
        assert(d.skip(i).drop_last() =~= dd.skip(i));
        assert(d.skip(i).last() == d.last());
        let a = val_of(d.take(i)) as int;
        let k = (dd.len() - i) as nat;
        assert(val_of(d) == val_of(dd) * 94 + d.last());
        assert(val_of(d.skip(i)) == val_of(dd.skip(i)) * 94 + d.last());
        assert(val_of(dd) == a * pow94(k) + val_of(dd.skip(i)));
        assert((a * pow94(k) + val_of(dd.skip(i))) * 94 == a * (94 * pow94(k))
            + val_of(dd.skip(i)) * 94) by (nonlinear_arith);
        assert(pow94((d.len() - i) as nat) == 94 * pow94(k));
        assert(val_of(d.skip(i)) == val_of(dd.skip(i)) * 94 + (d.last() as nat));
        assert(val_of(d) == a * pow94((d.len() - i) as nat)
            + (val_of(dd.skip(i)) * 94 + (d.last() as nat)));
        assert(val_of(d) == val_of(d.take(i)) * pow94((d.len() - i) as nat) + val_of(d.skip(i)));
    }
}

/// A sequence denotes zero exactly when all of its digits are zero.
pub proof fn lemma_val_of_zero(d: Seq<u8>)
    ensures
        val_of(d) == 0 <==> (forall|i: int| 0 <= i < d.len() ==> #[trigger] d[i] == 0),
    decreases d.len(),
{
    if d.len() > 0 {
        let dd = d.drop_last();
        lemma_val_of_zero(dd);
        assert(forall|i: int| 0 <= i < dd.len() ==> dd[i] == #[trigger] d[i]);
        if val_of(d) == 0 {
            assert(val_of(dd) * 94 + d.last() == 0);
            assert(val_of(dd) == 0 && d.last() == 0);
        }
    }
}

/// The canonical digit-value sequence of `n` denotes `n`, has no leading
/// zero, and keeps every digit below the radix.
pub proof fn lemma_repr_vals(n: nat)
    ensures
        val_of(repr_vals(n)) == n,
        canonical_vals(repr_vals(n)),
        all_below_base(repr_vals(n)),
    decreases n,
{
    if n < 94 {
        let d = repr_vals(n);
        assert(d =~= seq![n as u8]);
        assert(d.len() == 1);
        assert(d.drop_last() =~= Seq::<u8>::empty());
        assert(val_of(Seq::<u8>::empty()) == 0);
        assert(val_of(d) == 0 * 94 + (d.last() as nat));
        assert(d.last() == n as u8);
    } else {
        let q = n / 94;
        lemma_fundamental_div_mod(n as int, 94);
        lemma_repr_vals(q);
        let rq = repr_vals(q);
        lemma_val_of_push(rq, (n % 94) as u8);
        let d = repr_vals(n);
        assert(d == rq.push((n % 94) as u8));
        assert(d[0] == rq[0]);
        assert(q >= 1);
        if rq.len() == 1 {
            assert(rq.drop_last() =~= Seq::<u8>::empty());
            assert(val_of(Seq::<u8>::empty()) == 0);
            assert(val_of(rq) == 0 * 94 + (rq.last() as nat));
            assert(rq[0] == rq.last());
        }
    }
}

/// A canonical digit-value sequence is the canonical sequence of the
/// integer it denotes: canonical representations are unique.
pub proof fn lemma_repr_vals_of_canonical(d: Seq<u8>)
    requires
        all_below_base(d),
        canonical_vals(d),
    ensures
        repr_vals(val_of(d)) =~= d,
    decreases d.len(),
{
    let n = val_of(d);
    if d.len() == 1 {
        assert(d.drop_last() =~= Seq::<u8>::empty());
        assert(val_of(Seq::<u8>::empty()) == 0);
        assert(n == 0 * 94 + d[0]);
        assert(repr_vals(n) =~= seq![n as u8]);
    } else {
        let dd = d.drop_last();
        assert(dd[0] == d[0]);
        lemma_val_of_lower(dd);
        lemma_pow94_pos((dd.len() - 1) as nat);
        assert(val_of(dd) >= 1);
        assert(n == val_of(dd) * 94 + d.last());
        assert(n >= 1 * 94) by {
            lemma_mul_inequality(1, val_of(dd) as int, 94);
        }
        lemma_fundamental_div_mod_converse(n as int, 94, val_of(dd) as int, d.last() as int);
        lemma_repr_vals_of_canonical(dd);
        assert(repr_vals(n) =~= repr_vals(val_of(dd)).push((n % 94) as u8));
    }
}

/// Radix powers are positive.
pub proof fn lemma_pow94_pos(n: nat)
    ensures
        pow94(n) >= 1,
    decreases n,
{
    if n > 0 {
        lemma_pow94_pos((n - 1) as nat);
    }
}

/// Radix powers grow strictly with the exponent.
pub proof fn lemma_pow94_increases(m: nat, n: nat)
    requires
        m <= n,
    ensures
        pow94(m) <= pow94(n),
        m < n ==> 94 * pow94(m) <= pow94(n),
    decreases n,
{
    if m < n {
        lemma_pow94_increases(m, (n - 1) as nat);
        lemma_pow94_pos(m);
    }
}

/// The digit values of a valid digit string stay below the radix, and a
/// valid string is canonical exactly when its value sequence is.
pub proof fn lemma_vals_digits(s: Seq<char>)
    requires
        all_digits(s),
    ensures
        all_below_base(vals(s)),
        vals(s).len() == s.len(),
        canonical(s) <==> canonical_vals(vals(s)),
{
    lemma_alphabet_bijective();
    assert forall|i: int| 0 <= i < s.len() implies #[trigger] vals(s)[i] < 94 by {
        assert(is_digit(s[i]));
    }
    if s.len() >= 2 {
        assert(digit_value('0') == 0);
        assert(is_digit(s[0]));
        if s[0] == '0' {
            assert(vals(s)[0] == 0);
        }
        if vals(s)[0] == 0 {
            assert(digit_value(s[0]) == 0);
            assert(symbol_of(0) == '0');
            assert(s[0] == '0');
        }
    }
}

/// The canonical digit string of `n` is made of digits, is canonical,
/// and denotes `n`.
pub proof fn lemma_repr(n: nat)
    ensures
        str_val(repr(n)) == n,
        canonical(repr(n)),
        all_digits(repr(n)),
        repr(n).len() == repr_vals(n).len(),
        vals(repr(n)) =~= repr_vals(n),
{
    lemma_alphabet_bijective();
    lemma_repr_vals(n);
    let rv = repr_vals(n);
    let rc = repr(n);
    assert forall|i: int| 0 <= i < rc.len() implies is_digit(#[trigger] rc[i])
        && digit_value(rc[i]) == rv[i] by {
        assert(rc[i] == symbol_of(rv[i] as int));
        assert(digit_value(symbol_of(rv[i] as int)) == rv[i]);
    }
    assert(vals(rc) =~= rv);
    lemma_vals_digits(rc);
}

/// A canonical valid digit string is the canonical representation of the
/// integer it denotes: the digit string of a value is unique.
pub proof fn lemma_repr_of_canonical(s: Seq<char>)
    requires
        all_digits(s),
        canonical(s),
    ensures
        repr(str_val(s)) =~= s,
{
    lemma_alphabet_bijective();
    lemma_vals_digits(s);
    lemma_repr_vals_of_canonical(vals(s));
    let n = str_val(s);
    assert(repr_vals(n) =~= vals(s));
    assert forall|i: int| 0 <= i < s.len() implies #[trigger] repr(n)[i] == s[i] by {
        assert(repr(n)[i] == symbol_of(vals(s)[i] as int));
        assert(vals(s)[i] == digit_value(s[i]));
        assert(symbol_of(digit_value(s[i])) == s[i]);
    }
}

/// The leading digit carries the weight of the remaining length; the
/// rest is the value of the tail.
pub proof fn lemma_val_of_first(d: Seq<u8>)
    requires
        d.len() >= 1,
    ensures
        val_of(d) == (d[0] as nat) * pow94((d.len() - 1) as nat) + val_of(d.drop_first()),
{
    lemma_val_of_split(d, 1);
    assert(d.take(1).drop_last() =~= Seq::<u8>::empty());
    assert(val_of(Seq::<u8>::empty()) == 0);
    assert(d.take(1).last() == d[0]);
    assert(val_of(d.take(1)) == d[0]);
    assert(d.drop_first() =~= d.skip(1));
}

/// Dropping one leading zero does not change the value.
pub proof fn lemma_val_of_lead_zero(d: Seq<u8>)
    requires
        d.len() >= 1,
        d[0] == 0,
    ensures
        val_of(d) == val_of(d.drop_first()),
{
    lemma_val_of_first(d);
}

/// The comparison of two equal-length digit-value sequences, most
/// significant digit first: the first differing digit decides.
pub open spec fn lex_cmp(a: Seq<u8>, b: Seq<u8>) -> Ordering
    decreases a.len(),
{
    if a.len() == 0 {
        Ordering::Equal
    } else if a.first() < b.first() {
        Ordering::Less
    } else if a.first() > b.first() {
        Ordering::Greater
    } else {
        lex_cmp(a.drop_first(), b.drop_first())
    }
}

/// The comparison rule for digit-value sequences: more digits means
/// greater; between equal digit counts the values decide
/// lexicographically.
pub open spec fn cmp_vals_spec(a: Seq<u8>, b: Seq<u8>) -> Ordering {
    if a.len() < b.len() {
        Ordering::Less
    } else if a.len() > b.len() {
        Ordering::Greater
    } else {
        lex_cmp(a, b)
    }
}

/// The comparison rule for digit strings: the rule above, applied to the
/// digit values. It agrees with the integer order only on canonical
/// strings (`lemma_cmp_matches_value`).
pub open spec fn cmp_spec(a: Seq<char>, b: Seq<char>) -> Ordering {
    cmp_vals_spec(vals(a), vals(b))
}

/// On equal-length sequences of in-range digits, the lexicographic order
/// is the order of the denoted integers.
pub proof fn lemma_lex_cmp_value(a: Seq<u8>, b: Seq<u8>)
    requires
        all_below_base(a),
        all_below_base(b),
        a.len() == b.len(),
    ensures
        lex_cmp(a, b) == Ordering::Less <==> val_of(a) < val_of(b),
        lex_cmp(a, b) == Ordering::Equal <==> val_of(a) == val_of(b),
        lex_cmp(a, b) == Ordering::Greater <==> val_of(a) > val_of(b),
    decreases a.len(),
{
    if a.len() > 0 {
        let at = a.drop_first();
        let bt = b.drop_first();
        assert(at =~= a.skip(1));
        assert(bt =~= b.skip(1));
        lemma_val_of_split(a, 1);
        lemma_val_of_split(b, 1);
        let p = pow94((a.len() - 1) as nat);
        assert(a.take(1).drop_last() =~= Seq::<u8>::empty());
        assert(val_of(Seq::<u8>::empty()) == 0);
        assert(a.take(1).last() == a.first());
        assert(val_of(a.take(1)) == a.first());
        assert(b.take(1).drop_last() =~= Seq::<u8>::empty());
        assert(b.take(1).last() == b.first());
        assert(val_of(b.take(1)) == b.first());
        assert(val_of(a) == (a.first() as nat) * p + val_of(at));
        assert(val_of(b) == (b.first() as nat) * p + val_of(bt));
        lemma_val_of_upper(at);
        lemma_val_of_upper(bt);
        lemma_lex_cmp_value(at, bt);
        if a.first() != b.first() {
            let lo: u8 = if a.first() < b.first() { a.first() } else { b.first() };
            let hi: u8 = if a.first() < b.first() { b.first() } else { a.first() };
            assert((lo as nat) * p + (p - 1) < (hi as nat) * p) by (nonlinear_arith)
                requires lo < hi, p >= 1;
            lemma_pow94_pos((a.len() - 1) as nat);
        } else {
            assert((a.first() as nat) * p == (b.first() as nat) * p);
        }
    }
}

/// On canonical valid digit strings the comparison rule is the order of
/// the denoted integers: a longer canonical string always denotes a
/// larger integer, and between equal lengths the digits decide.
pub proof fn lemma_cmp_matches_value(a: Seq<char>, b: Seq<char>)
    requires
        all_digits(a),
        all_digits(b),
        canonical(a),
        canonical(b),
    ensures
        cmp_spec(a, b) == Ordering::Less <==> str_val(a) < str_val(b),
        cmp_spec(a, b) == Ordering::Equal <==> str_val(a) == str_val(b),
        cmp_spec(a, b) == Ordering::Greater <==> str_val(a) > str_val(b),
{
    lemma_vals_digits(a);
    lemma_vals_digits(b);
    if a.len() == b.len() {
        lemma_lex_cmp_value(vals(a), vals(b));
    } else {
        let (shrt, lng) = if a.len() < b.len() { (a, b) } else { (b, a) };
        lemma_val_of_upper(vals(shrt));
        assert(lng.len() >= 2);
        assert(vals(lng)[0] != 0);
        lemma_val_of_lower(vals(lng));
        lemma_pow94_increases(shrt.len(), (lng.len() - 1) as nat);
        assert(str_val(shrt) < pow94(shrt.len()));
        assert(str_val(lng) >= pow94((lng.len() - 1) as nat));
    }
}

} // verus!
