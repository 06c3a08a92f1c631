//! Laws of the numeral operations, stated over the model.
//!
//! The operation contracts in [`crate::compadecimal`] are written with
//! `str_val`, `repr` and `cmp_spec`; the laws here chain those contracts
//! together: conversion round-trips, successor then predecessor,
//! addition then subtraction, and the growth of an all-maximal-digit
//! successor. Each law holds for every input its `requires` admits.

use vstd::prelude::*;
use vstd::arithmetic::div_mod::{lemma_div_multiples_vanish, lemma_mod_multiples_basic};
use crate::model::{
    canonical, cmp_spec, lemma_cmp_matches_value, lemma_lex_cmp_value, lemma_pow94_pos,
    lemma_repr, lemma_repr_of_canonical, lemma_vals_digits, pow94, repr, repr_vals, str_val,
    val_of, vals,
};
use crate::utils::all_digits;
use core::cmp::Ordering;

verus! {

/// Round-trip: the canonical digit string of an integer denotes that
/// integer, so converting an unsigned integer to a numeral and back
/// returns it unchanged whenever it fits the width.
pub proof fn lemma_round_trip(n: nat)
    ensures
        str_val(repr(n)) == n,
        canonical(repr(n)),
        all_digits(repr(n)),
{
    lemma_repr(n);
}

/// Successor then predecessor: taking the successor of a canonical
/// value and then the predecessor returns the value unchanged.
pub proof fn lemma_successor_predecessor_inverse(s: Seq<char>)
    requires
        all_digits(s),
        canonical(s),
    ensures
        str_val(repr(str_val(s) + 1)) == str_val(s) + 1,
        repr((str_val(repr(str_val(s) + 1)) - 1) as nat) == s,
{
    lemma_repr(str_val(s) + 1);
    lemma_repr_of_canonical(s);
}

/// Additive identity: adding the zero numeral to a canonical value
/// returns the value unchanged.
pub proof fn lemma_add_zero_identity(s: Seq<char>)
    requires
        all_digits(s),
        canonical(s),
    ensures
        str_val(seq!['0']) == 0,
        repr(str_val(s) + str_val(seq!['0'])) == s,
{
    assert(vals(seq!['0']) =~= seq![0u8]);
    assert(vals(seq!['0']).drop_last() =~= Seq::<u8>::empty());
    assert(val_of(Seq::<u8>::empty()) == 0);
    lemma_repr_of_canonical(s);
}

/// Additive inverse: when `u` denotes the sum of a canonical value `v`
/// and any valid digit string `k`, and is at least as long as `k` (as
/// every sum built by `add` is), then subtracting `k` from `u` is
/// permitted by the comparison rule and returns `v` unchanged.
pub proof fn lemma_add_subtract_inverse(v: Seq<char>, k: Seq<char>, u: Seq<char>)
    requires
        all_digits(v),
        all_digits(k),
        all_digits(u),
        canonical(v),
        str_val(u) == str_val(v) + str_val(k),
        u.len() >= k.len(),
    ensures
        cmp_spec(u, k) != Ordering::Less,
        repr((str_val(u) - str_val(k)) as nat) == v,
{
    lemma_vals_digits(u);
    lemma_vals_digits(k);
    if u.len() == k.len() {
        lemma_lex_cmp_value(vals(u), vals(k));
    }
    lemma_repr_of_canonical(v);
}

/// Ordering consistency: on canonical values the comparison rule of
/// `cmp_str` orders digit strings exactly as `to_decimal` orders the
/// integers they denote.
pub proof fn lemma_ordering_consistency(a: Seq<char>, b: Seq<char>)
    requires
        all_digits(a),
        all_digits(b),
        canonical(a),
        canonical(b),
    ensures
        cmp_spec(a, b) == Ordering::Less <==> str_val(a) < str_val(b),
        cmp_spec(a, b) == Ordering::Equal <==> str_val(a) == str_val(b),
        cmp_spec(a, b) == Ordering::Greater <==> str_val(a) > str_val(b),
{
    lemma_cmp_matches_value(a, b);
}

/// The value of the all-maximal-digit string of a given length: one
/// below the radix power of that length.
pub proof fn lemma_all_max_value(s: Seq<char>)
    requires
        s.len() >= 1,
        forall|i: int| 0 <= i < s.len() ==> #[trigger] s[i] == '~',
    ensures
        all_digits(s),
        canonical(s),
        str_val(s) + 1 == pow94(s.len()),
{
    lemma_all_max_vals_value(vals(s));
}

proof fn lemma_all_max_vals_value(d: Seq<u8>)
    requires
        forall|i: int| 0 <= i < d.len() ==> #[trigger] d[i] == 93,
    ensures
        val_of(d) + 1 == pow94(d.len()),
    decreases d.len(),
{
    if d.len() > 0 {
        let dd = d.drop_last();
        assert(forall|i: int| 0 <= i < dd.len() ==> #[trigger] dd[i] == d[i]);
        lemma_all_max_vals_value(dd);
        assert((pow94(dd.len()) - 1) * 94 + 93 == 94 * pow94(dd.len()) - 1) by (nonlinear_arith);
    }
}

/// The successor of the all-maximal-digit string of length `n` has
/// `n + 1` digits: a leading digit of value one, then `n` zero symbols.
pub proof fn lemma_successor_of_all_max(s: Seq<char>)
    requires
        s.len() >= 1,
        forall|i: int| 0 <= i < s.len() ==> #[trigger] s[i] == '~',
    ensures
        str_val(s) + 1 == pow94(s.len()),
        repr(str_val(s) + 1).len() == s.len() + 1,
        repr(str_val(s) + 1)[0] == '1',
        forall|i: int| 1 <= i < s.len() + 1 ==> #[trigger] repr(str_val(s) + 1)[i] == '0',
{
    lemma_all_max_value(s);
    lemma_pow94_repr_vals(s.len());
    lemma_repr(pow94(s.len()));
}

proof fn lemma_pow94_repr_vals(n: nat)
    ensures
        repr_vals(pow94(n)).len() == n + 1,
        repr_vals(pow94(n))[0] == 1,
        forall|i: int| 1 <= i < n + 1 ==> #[trigger] repr_vals(pow94(n))[i] == 0,
    decreases n,
{
    let p = pow94(n);
    if n == 0 {
        assert(repr_vals(1nat) =~= seq![1u8]);
    } else {
        let q = pow94((n - 1) as nat);
        lemma_pow94_pos((n - 1) as nat);
        assert(p == 94 * q);
        lemma_div_multiples_vanish(q as int, 94);
        lemma_mod_multiples_basic(q as int, 94);
        assert(p / 94 == q && p % 94 == 0);
        assert(p >= 94);
        lemma_pow94_repr_vals((n - 1) as nat);
        assert(repr_vals(p) =~= repr_vals(q).push(0u8));
    }
}

} // verus!
