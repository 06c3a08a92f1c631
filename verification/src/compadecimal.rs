//! The numeral value type and its operations.
//!
//! A [`CompaDecimal`] is an immutable, non-empty string of digit symbols,
//! read most significant first, denoting a non-negative base-94 integer.
//! Every operation returns a new value; the digit string itself is the
//! only representation. Contracts speak of `str_val` (the integer a
//! string denotes) and `repr` (the canonical string of an integer) from
//! [`crate::model`].

use vstd::prelude::*;
use vstd::string::{StrSliceExecFns, StringExecFns};
use vstd::pervasive::unreached;
use crate::error::{CompaDecimalError, CompaErrorKind};
use crate::model::{
    all_below_base, canonical, canonical_vals, cmp_spec, cmp_vals_spec, lex_cmp,
    lemma_cmp_matches_value, lemma_pow94_pos, lemma_repr, lemma_repr_of_canonical,
    lemma_val_of_first, lemma_val_of_lead_zero, lemma_val_of_lower,
    lemma_val_of_push, lemma_val_of_split, lemma_val_of_upper, lemma_val_of_zero,
    lemma_vals_digits, pow94, repr, repr_vals, str_val, val_of, vals,
};
use crate::unsigned::CompaUnsigned;
use crate::utils::{
    all_digits, char_of_digit, digit_of_char, digit_value, is_digit, lemma_alphabet_bijective,
    symbol_of, valid_str,
};
use core::cmp::Ordering;

verus! {

/// An immutable numeral: one or more digit symbols of the 94-symbol
/// alphabet, most significant first.
#[derive(Debug)]
pub struct CompaDecimal {
    value: String,
}

impl View for CompaDecimal {
    type V = Seq<char>;

    closed spec fn view(&self) -> Seq<char> {
        self.value@
    }
}

/// Relies on `String`'s `FromIterator<char>` implementation: collecting
/// an iterator of characters builds the string of exactly those
/// characters, in order.
#[verifier::external_body]
fn string_from_chars(chars: Vec<char>) -> (s: String)
    ensures
        s@ == chars@,
{
    String::from_iter(chars)
}

/// The digit values of a string, or `None` when some character is not a
/// digit symbol.
fn str_digit_vals(s: &str) -> (r: Option<Vec<u8>>)
    ensures
        r is Some <==> all_digits(s@),
        r matches Some(v) ==> v@ == vals(s@) && all_below_base(v@) && v@.len() == s@.len(),
{
    let n = s.unicode_len();
    let mut out: Vec<u8> = Vec::new();
    let mut i: usize = 0;
    while i < n
        invariant
            n == s@.len(),
            i <= n,
            out@.len() == i as int,
            forall|j: int|
                0 <= j < i as int ==> is_digit(#[trigger] s@[j]) && out@[j] == vals(s@)[j]
                    && out@[j] < 94,
        decreases n - i,
    {
        let c = s.get_char(i);
        match digit_of_char(c) {
            Some(v) => {
                out.push(v);
            },
            None => {
                assert(!is_digit(s@[i as int]));
                return None;
            },
        }
        i = i + 1;
    }
    assert(out@ =~= vals(s@));
    Some(out)
}

/// The numeral whose digits have the given values, as characters.
pub(crate) fn vals_to_numeral(d: Vec<u8>) -> (r: CompaDecimal)
    requires
        all_below_base(d@),
        d@.len() >= 1,
    ensures
        r@.len() == d@.len(),
        forall|i: int| 0 <= i < d@.len() ==> #[trigger] r@[i] == symbol_of(d@[i] as int),
        vals(r@) == d@,
        all_digits(r@),
{
    let n = d.len();
    let mut chars: Vec<char> = Vec::new();
    let mut i: usize = 0;
    while i < n
        invariant
            n == d@.len(),
            all_below_base(d@),
            i <= n,
            chars@.len() == i as int,
            forall|j: int| 0 <= j < i as int ==> #[trigger] chars@[j] == symbol_of(d@[j] as int),
        decreases n - i,
    {
        chars.push(char_of_digit(d[i]));
        i = i + 1;
    }
    let value = string_from_chars(chars);
    proof {
        lemma_alphabet_bijective();
        assert forall|j: int| 0 <= j < d@.len() implies is_digit(#[trigger] value@[j])
            && digit_value(value@[j]) == d@[j] by {
            assert(value@[j] == symbol_of(d@[j] as int));
        }
        assert(vals(value@) =~= d@);
    }
    CompaDecimal { value }
}

impl CompaDecimal {
    /// Well-formedness: at least one digit, every character a digit
    /// symbol.
    #[verifier::type_invariant]
    pub closed spec fn wf(self) -> bool {
        self@.len() >= 1 && all_digits(self@)
    }

    /// The digit values of this numeral's string.
    fn digit_vals(&self) -> (r: Vec<u8>)
        ensures
            r@ == vals(self@),
            all_below_base(r@),
            r@.len() == self@.len(),
            r@.len() >= 1,
    {
        proof {
            use_type_invariant(&*self);
        }
        match str_digit_vals(self.value.as_str()) {
            Some(v) => v,
            None => unreached(),
        }
    }

    /// The numeral zero: the single zero symbol.
    pub fn new() -> (r: CompaDecimal)
        ensures
            r@ == seq!['0'],
            str_val(r@) == 0,
            canonical(r@),
    {
        let value = String::from_str("0");
        proof {
            reveal_strlit("0");
            assert(value@ =~= seq!['0']);
            assert(is_digit('0'));
            assert(vals(value@) =~= seq![0u8]);
            assert(vals(value@).drop_last() =~= Seq::<u8>::empty());
            assert(val_of(Seq::<u8>::empty()) == 0);
        }
        CompaDecimal { value }
    }

    /// Parse a digit string: succeeds exactly when the string is
    /// non-empty and every character is a digit symbol; the digits are
    /// stored as given, leading zero symbols included.
    pub fn parse(s: &str) -> (r: Result<CompaDecimal, CompaDecimalError>)
        ensures
            match r {
                Ok(v) => v@ == s@ && all_digits(s@) && s@.len() >= 1,
                Err(e) => (!all_digits(s@) || s@.len() == 0) && e.kind
                    == CompaErrorKind::InvalidDigit,
            },
    {
        if !valid_str(s) || s.is_empty() {
            return Err(
                CompaDecimalError::new(
                    CompaErrorKind::InvalidDigit,
                    "All chars have to be valid compa digits",
                ),
            );
        }
        let value = String::from_str(s);
        Ok(CompaDecimal { value })
    }

    /// The digit string itself, verbatim.
    pub fn get_value(&self) -> (r: &str)
        ensures
            r@ == self@,
    {
        self.value.as_str()
    }

    /// The number of digits.
    pub fn len(&self) -> (r: usize)
        ensures
            r == self@.len(),
    {
        self.value.as_str().unicode_len()
    }
}

impl Clone for CompaDecimal {
    /// An identical numeral.
    fn clone(&self) -> (r: Self)
        ensures
            r@ == self@,
    {
        proof {
            use_type_invariant(&*self);
        }
        CompaDecimal { value: self.value.clone() }
    }
}

impl Default for CompaDecimal {
    /// The zero numeral.
    fn default() -> (r: Self)
        ensures
            r@ == seq!['0'],
            str_val(r@) == 0,
    {
        CompaDecimal::new()
    }
}

impl PartialEq for CompaDecimal {
    /// Two numerals are equal when their digit strings are equal.
    fn eq(&self, other: &Self) -> (r: bool) {
        self.value == other.value
    }
}

impl vstd::std_specs::cmp::PartialEqSpecImpl for CompaDecimal {
    open spec fn obeys_eq_spec() -> bool {
        true
    }

    open spec fn eq_spec(&self, other: &Self) -> bool {
        self@ == other@
    }
}

impl PartialEq<&str> for CompaDecimal {
    /// A numeral equals a string slice when the digit strings are equal.
    fn eq(&self, other: &&str) -> (r: bool) {
        self.value == String::from_str(*other)
    }
}

impl vstd::std_specs::cmp::PartialEqSpecImpl<&str> for CompaDecimal {
    open spec fn obeys_eq_spec() -> bool {
        true
    }

    open spec fn eq_spec(&self, other: &&str) -> bool {
        self@ == other@
    }
}

impl core::str::FromStr for CompaDecimal {
    type Err = CompaDecimalError;

    /// Parse a digit string, as [`CompaDecimal::parse`] does.
    fn from_str(s: &str) -> Result<CompaDecimal, CompaDecimalError> {
        CompaDecimal::parse(s)
    }
}

impl TryFrom<&str> for CompaDecimal {
    type Error = CompaDecimalError;

    /// Parse a digit string, as [`CompaDecimal::parse`] does.
    fn try_from(value: &str) -> Result<CompaDecimal, CompaDecimalError> {
        CompaDecimal::parse(value)
    }
}

impl vstd::std_specs::convert::TryFromSpecImpl<&str> for CompaDecimal {
    open spec fn obeys_try_from_spec() -> bool {
        false
    }

    open spec fn try_from_spec(v: &str) -> Result<Self, Self::Error> {
        vstd::pervasive::arbitrary()
    }
}

/// Remove leading zero digits down to a single digit, keeping the value.
fn strip_leading_zeros(d: &mut Vec<u8>)
    requires
        all_below_base(old(d)@),
        old(d)@.len() >= 1,
    ensures
        all_below_base(final(d)@),
        canonical_vals(final(d)@),
        val_of(final(d)@) == val_of(old(d)@),
        final(d)@.len() <= old(d)@.len(),
{
    while d.len() > 1 && d[0] == 0
        invariant
            d@.len() >= 1,
            all_below_base(d@),
            val_of(d@) == val_of(old(d)@),
            d@.len() <= old(d)@.len(),
        decreases d@.len(),
    {
        let ghost pre = d@;
        proof {
            lemma_val_of_lead_zero(pre);
        }
        d.remove(0);
        assert(d@ =~= pre.drop_first());
    }
}

impl CompaDecimal {
    /// The successor: base-94 increment with carry propagation from the
    /// least significant digit; an all-maximal-digit string grows by one
    /// digit. Never fails.
    pub fn plus_one(&self) -> (r: Result<CompaDecimal, CompaDecimalError>)
        ensures
            r matches Ok(u) && ({
                &&& str_val(u@) == str_val(self@) + 1
                &&& self@.len() <= u@.len() <= self@.len() + 1
                &&& canonical(self@) ==> u@ == repr(str_val(self@) + 1)
            }),
    {
        proof {
            use_type_invariant(&*self);
        }
        let ghost v0 = vals(self@);
        let mut d = self.digit_vals();
        let n = d.len();
        let mut i: usize = n;
        let mut carry: bool = true;
        proof {
            assert(d@.skip(n as int) =~= Seq::<u8>::empty());
            assert(v0.skip(n as int) =~= Seq::<u8>::empty());
            assert(val_of(Seq::<u8>::empty()) == 0);
        }
        while i > 0 && carry
            invariant
                n == d@.len(),
                n == v0.len(),
                n >= 1,
                all_below_base(v0),
                all_below_base(d@),
                i <= n,
                forall|j: int| 0 <= j < i as int ==> #[trigger] d@[j] == v0[j],
                val_of(d@.skip(i as int)) + (if carry {
                    pow94((n - i) as nat)
                } else {
                    0 as nat
                }) == val_of(v0.skip(i as int)) + 1,
                !carry ==> i < n && d@[i as int] == v0[i as int] + 1,
            decreases i,
        {
            i = i - 1;
            let ghost dpre = d@;
            let ghost p = pow94((n - i - 1) as nat);
            let di = d[i];
            if di == 93 {
                d[i] = 0;
            } else {
                d[i] = di + 1;
                carry = false;
            }
            proof {
                assert(d@.skip(i as int).drop_first() =~= dpre.skip(i as int + 1));
                assert(v0.skip(i as int).drop_first() =~= v0.skip(i as int + 1));
                assert(d@.skip(i as int)[0] == d@[i as int]);
                assert(v0.skip(i as int)[0] == v0[i as int]);
                lemma_val_of_first(d@.skip(i as int));
                lemma_val_of_first(v0.skip(i as int));
                assert(v0[i as int] == di);
                if di == 93 {
                    assert((93 as nat) * p + p == (94 as nat) * p) by (nonlinear_arith);
                    assert(pow94((n - i) as nat) == 94 * p);
                } else {
                    assert(((di + 1) as nat) * p == (di as nat) * p + p) by (nonlinear_arith);
                }
            }
        }
        let ghost nv = str_val(self@) + 1;
        if carry {
            proof {
                assert(d@.skip(0) =~= d@);
                assert(v0.skip(0) =~= v0);
            }
            let ghost dpre = d@;
            d.insert(0, 1);
            proof {
                assert(d@.drop_first() =~= dpre);
                assert(d@[0] == 1);
                lemma_val_of_first(d@);
            }
        } else {
            proof {
                lemma_val_of_split(d@, i as int);
                lemma_val_of_split(v0, i as int);
                assert(d@.take(i as int) =~= v0.take(i as int));
            }
        }
        proof {
            assert(val_of(d@) == nv);
            if canonical(self@) {
                lemma_vals_digits(self@);
                if d@.len() > 1 {
                    assert(d@[0] != 0);
                }
            }
        }
        let u = vals_to_numeral(d);
        proof {
            if canonical(self@) {
                lemma_vals_digits(u@);
                lemma_repr_of_canonical(u@);
            }
        }
        Ok(u)
    }

    /// The predecessor: base-94 decrement with borrow propagation from
    /// the least significant digit, then canonicalization. Fails with
    /// `Underflow` exactly on the zero value.
    pub fn minus_one(&self) -> (r: Result<CompaDecimal, CompaDecimalError>)
        ensures
            match r {
                Ok(u) => str_val(self@) >= 1 && u@ == repr((str_val(self@) - 1) as nat),
                Err(e) => str_val(self@) == 0 && e.kind == CompaErrorKind::Underflow,
            },
    {
        proof {
            use_type_invariant(&*self);
        }
        let ghost v0 = vals(self@);
        let mut d = self.digit_vals();
        let n = d.len();

        let mut all_zero: bool = true;
        let mut k: usize = 0;
        while k < n
            invariant
                n == d@.len(),
                k <= n,
                all_zero <==> (forall|j: int| 0 <= j < k as int ==> #[trigger] d@[j] == 0),
            decreases n - k,
        {
            if d[k] != 0 {
                all_zero = false;
            }
            k = k + 1;
        }
        proof {
            lemma_val_of_zero(v0);
        }
        if all_zero {
            return Err(
                CompaDecimalError::new(CompaErrorKind::Underflow, "Cannot decrement below zero"),
            );
        }

        let mut i: usize = n;
        let mut borrow: bool = true;
        proof {
            assert(d@.skip(n as int) =~= Seq::<u8>::empty());
            assert(v0.skip(n as int) =~= Seq::<u8>::empty());
            assert(val_of(Seq::<u8>::empty()) == 0);
        }
        while i > 0 && borrow
            invariant
                n == d@.len(),
                n == v0.len(),
                n >= 1,
                all_below_base(v0),
                all_below_base(d@),
                i <= n,
                forall|j: int| 0 <= j < i as int ==> #[trigger] d@[j] == v0[j],
                val_of(d@.skip(i as int)) as int == val_of(v0.skip(i as int)) as int - 1 + (
                if borrow {
                    pow94((n - i) as nat) as int
                } else {
                    0
                }),
            decreases i,
        {
            i = i - 1;
            let ghost dpre = d@;
            let ghost p = pow94((n - i - 1) as nat);
            let di = d[i];
            if di == 0 {
                d[i] = 93;
            } else {
                d[i] = di - 1;
                borrow = false;
            }
            proof {
                assert(d@.skip(i as int).drop_first() =~= dpre.skip(i as int + 1));
                assert(v0.skip(i as int).drop_first() =~= v0.skip(i as int + 1));
                assert(d@.skip(i as int)[0] == d@[i as int]);
                assert(v0.skip(i as int)[0] == v0[i as int]);
                lemma_val_of_first(d@.skip(i as int));
                lemma_val_of_first(v0.skip(i as int));
                assert(v0[i as int] == di);
                if di == 0 {
                    assert((93 as nat) * p + p == (94 as nat) * p) by (nonlinear_arith);
                    assert(pow94((n - i) as nat) == 94 * p);
                } else {
                    assert(((di - 1) as nat) * p + p == (di as nat) * p) by (nonlinear_arith)
                        requires di >= 1;
                }
            }
        }
        proof {
            assert(val_of(v0) >= 1);
            if borrow {
                assert(i == 0);
                assert(d@.skip(0) =~= d@);
                assert(v0.skip(0) =~= v0);
                lemma_val_of_upper(d@);
                assert(false);
            }
            lemma_val_of_split(d@, i as int);
            lemma_val_of_split(v0, i as int);
            assert(d@.take(i as int) =~= v0.take(i as int));
            assert(val_of(d@) == val_of(v0) - 1);
        }
        strip_leading_zeros(&mut d);
        let u = vals_to_numeral(d);
        proof {
            lemma_vals_digits(u@);
            lemma_repr_of_canonical(u@);
        }
        Ok(u)
    }
}

/// Compare two digit-value sequences: more digits is greater, then the
/// first differing digit decides.
fn cmp_vals(a: &Vec<u8>, b: &Vec<u8>) -> (o: Ordering)
    ensures
        o == cmp_vals_spec(a@, b@),
{
    if a.len() < b.len() {
        return Ordering::Less;
    }
    if a.len() > b.len() {
        return Ordering::Greater;
    }
    let n = a.len();
    let mut j: usize = 0;
    proof {
        assert(a@.skip(0) =~= a@);
        assert(b@.skip(0) =~= b@);
    }
    while j < n
        invariant
            n == a@.len(),
            n == b@.len(),
            j <= n,
            lex_cmp(a@, b@) == lex_cmp(a@.skip(j as int), b@.skip(j as int)),
        decreases n - j,
    {
        let av = a[j];
        let bv = b[j];
        proof {
            assert(a@.skip(j as int).first() == a@[j as int]);
            assert(b@.skip(j as int).first() == b@[j as int]);
            assert(a@.skip(j as int).drop_first() =~= a@.skip(j as int + 1));
            assert(b@.skip(j as int).drop_first() =~= b@.skip(j as int + 1));
        }
        if av < bv {
            return Ordering::Less;
        }
        if av > bv {
            return Ordering::Greater;
        }
        j = j + 1;
    }
    proof {
        assert(a@.skip(n as int) =~= Seq::<u8>::empty());
        assert(b@.skip(n as int) =~= Seq::<u8>::empty());
    }
    Ordering::Equal
}

/// Left-pad with zero digits to the given length, keeping the value.
fn pad_to(d: &mut Vec<u8>, n: usize)
    requires
        old(d)@.len() <= n,
        all_below_base(old(d)@),
    ensures
        final(d)@.len() == n,
        all_below_base(final(d)@),
        val_of(final(d)@) == val_of(old(d)@),
{
    while d.len() < n
        invariant
            d@.len() <= n,
            all_below_base(d@),
            val_of(d@) == val_of(old(d)@),
        decreases n - d@.len(),
    {
        let ghost pre = d@;
        d.insert(0, 0);
        proof {
            assert(d@.drop_first() =~= pre);
            assert(d@[0] == 0);
            lemma_val_of_lead_zero(d@);
        }
    }
}

impl CompaDecimal {
    /// Compare with a digit string: more digits is greater (sound only
    /// because canonical values carry no leading zero symbol), then the
    /// first differing digit value decides. Fails exactly when the
    /// comparand holds a character outside the alphabet.
    pub fn cmp_str(&self, comparand: &str) -> (r: Result<Ordering, CompaDecimalError>)
        ensures
            match r {
                Ok(o) => all_digits(comparand@) && o == cmp_spec(self@, comparand@),
                Err(e) => !all_digits(comparand@) && e.kind == CompaErrorKind::InvalidDigit,
            },
    {
        let b = match str_digit_vals(comparand) {
            Some(v) => v,
            None => {
                return Err(
                    CompaDecimalError::new(
                        CompaErrorKind::InvalidDigit,
                        "All chars have to be valid compa digits",
                    ),
                );
            },
        };
        let a = self.digit_vals();
        Ok(cmp_vals(&a, &b))
    }

    /// Schoolbook addition of a digit string, least significant digit
    /// first with a carry; a final carry grows the result by one digit.
    /// Fails exactly when the addend holds a character outside the
    /// alphabet.
    pub fn add(&self, additional_value: &str) -> (r: Result<CompaDecimal, CompaDecimalError>)
        ensures
            match r {
                Ok(u) => ({
                    let m = if self@.len() >= additional_value@.len() {
                        self@.len()
                    } else {
                        additional_value@.len()
                    };
                    &&& all_digits(additional_value@)
                    &&& str_val(u@) == str_val(self@) + str_val(additional_value@)
                    &&& m <= u@.len() <= m + 1
                    &&& (canonical(self@) && canonical(additional_value@)) ==> u@ == repr(
                        str_val(self@) + str_val(additional_value@),
                    )
                }),
                Err(e) => !all_digits(additional_value@) && e.kind
                    == CompaErrorKind::InvalidDigit,
            },
    {
        proof {
            use_type_invariant(&*self);
        }
        let mut b = match str_digit_vals(additional_value) {
            Some(v) => v,
            None => {
                return Err(
                    CompaDecimalError::new(
                        CompaErrorKind::InvalidDigit,
                        "All chars have to be valid compa digits",
                    ),
                );
            },
        };
        let mut a = self.digit_vals();
        let n = if a.len() >= b.len() {
            a.len()
        } else {
            b.len()
        };
        pad_to(&mut a, n);
        pad_to(&mut b, n);
        let ghost a0 = a@;
        let ghost b0 = b@;
        let mut out: Vec<u8> = Vec::new();
        let mut carry: u8 = 0;
        let mut i: usize = n;
        proof {
            assert(a0.skip(n as int) =~= Seq::<u8>::empty());
            assert(b0.skip(n as int) =~= Seq::<u8>::empty());
            assert(val_of(Seq::<u8>::empty()) == 0);
        }
        while i > 0
            invariant
                n == a0.len(),
                n == b0.len(),
                a@ == a0,
                b@ == b0,
                all_below_base(a0),
                all_below_base(b0),
                i <= n,
                carry <= 1,
                out@.len() == n - i,
                all_below_base(out@),
                val_of(a0.skip(i as int)) + val_of(b0.skip(i as int)) == (carry as nat)
                    * pow94((n - i) as nat) + val_of(out@),
            decreases i,
        {
            i = i - 1;
            let sum = a[i] + b[i] + carry;
            let dgt = sum % 94;
            let c2 = sum / 94;
            let ghost outpre = out@;
            let ghost cpre = carry;
            out.insert(0, dgt);
            carry = c2;
            proof {
                let p = pow94((n - i - 1) as nat);
                assert(out@.drop_first() =~= outpre);
                assert(out@[0] == dgt);
                lemma_val_of_first(out@);
                assert(a0.skip(i as int).drop_first() =~= a0.skip(i as int + 1));
                assert(b0.skip(i as int).drop_first() =~= b0.skip(i as int + 1));
                assert(a0.skip(i as int)[0] == a0[i as int]);
                assert(b0.skip(i as int)[0] == b0[i as int]);
                lemma_val_of_first(a0.skip(i as int));
                lemma_val_of_first(b0.skip(i as int));
                assert(sum == dgt + 94 * c2);
                assert((a0[i as int] as nat) * p + (b0[i as int] as nat) * p + (cpre as nat) * p
                    == ((dgt + 94 * c2) as nat) * p) by (nonlinear_arith)
                    requires
                        a0[i as int] + b0[i as int] + cpre == dgt + 94 * c2,
                ;
                assert(((dgt + 94 * c2) as nat) * p == (dgt as nat) * p + (c2 as nat) * (94 * p))
                    by (nonlinear_arith);
                assert(pow94((n - i) as nat) == 94 * p);
            }
        }
        proof {
            assert(a0.skip(0) =~= a0);
            assert(b0.skip(0) =~= b0);
        }
        if carry > 0 {
            let ghost outpre = out@;
            out.insert(0, carry);
            proof {
                assert(out@.drop_first() =~= outpre);
                assert(out@[0] == carry);
                lemma_val_of_first(out@);
            }
        }
        proof {
            assert(val_of(out@) == str_val(self@) + str_val(additional_value@));
            if canonical(self@) && canonical(additional_value@) && out@.len() == n && n >= 2 {
                lemma_vals_digits(self@);
                lemma_vals_digits(additional_value@);
                if vals(self@).len() == n {
                    lemma_val_of_lower(vals(self@));
                } else {
                    lemma_val_of_lower(vals(additional_value@));
                }
                lemma_pow94_pos((n - 1) as nat);
                if out@[0] == 0 {
                    lemma_val_of_first(out@);
                    lemma_val_of_upper(out@.drop_first());
                    assert(false);
                }
            }
        }
        let u = vals_to_numeral(out);
        proof {
            if canonical(self@) && canonical(additional_value@) {
                lemma_vals_digits(u@);
                lemma_repr_of_canonical(u@);
            }
        }
        Ok(u)
    }

    /// Schoolbook subtraction of a digit string, least significant digit
    /// first with a borrow, then canonicalization. Fails with
    /// `InvalidDigit` when the subtrahend holds a character outside the
    /// alphabet, and with `NegativeResult` when the comparison rule puts
    /// the subtrahend above this value.
    pub fn subtract(&self, subtrahend: &str) -> (r: Result<CompaDecimal, CompaDecimalError>)
        ensures
            match r {
                Ok(u) => ({
                    &&& all_digits(subtrahend@)
                    &&& cmp_spec(self@, subtrahend@) != Ordering::Less
                    &&& canonical(u@)
                    &&& str_val(self@) >= str_val(subtrahend@) ==> u@ == repr(
                        (str_val(self@) - str_val(subtrahend@)) as nat,
                    )
                }),
                Err(e) => (!all_digits(subtrahend@) && e.kind == CompaErrorKind::InvalidDigit)
                    || (all_digits(subtrahend@) && cmp_spec(self@, subtrahend@) == Ordering::Less
                    && e.kind == CompaErrorKind::NegativeResult),
            },
    {
        proof {
            use_type_invariant(&*self);
        }
        let mut b = match str_digit_vals(subtrahend) {
            Some(v) => v,
            None => {
                return Err(
                    CompaDecimalError::new(
                        CompaErrorKind::InvalidDigit,
                        "All chars have to be valid compa digits",
                    ),
                );
            },
        };
        let mut a = self.digit_vals();
        let cmp_result = cmp_vals(&a, &b);
        if matches!(cmp_result, Ordering::Less) {
            return Err(
                CompaDecimalError::new(CompaErrorKind::NegativeResult, "Result would be negative"),
            );
        }
        let n = if a.len() >= b.len() {
            a.len()
        } else {
            b.len()
        };
        pad_to(&mut a, n);
        pad_to(&mut b, n);
        let ghost a0 = a@;
        let ghost b0 = b@;
        let mut out: Vec<u8> = Vec::new();
        let mut borrow: u8 = 0;
        let mut i: usize = n;
        proof {
            assert(a0.skip(n as int) =~= Seq::<u8>::empty());
            assert(b0.skip(n as int) =~= Seq::<u8>::empty());
            assert(val_of(Seq::<u8>::empty()) == 0);
        }
        while i > 0
            invariant
                n == a0.len(),
                n == b0.len(),
                a@ == a0,
                b@ == b0,
                all_below_base(a0),
                all_below_base(b0),
                i <= n,
                borrow <= 1,
                out@.len() == n - i,
                all_below_base(out@),
                val_of(a0.skip(i as int)) - val_of(b0.skip(i as int)) == val_of(out@) - (
                borrow as int) * (pow94((n - i) as nat) as int),
            decreases i,
        {
            i = i - 1;
            let av = a[i];
            let bv = b[i];
            let ghost outpre = out@;
            let ghost bpre = borrow;
            let dgt: u8;
            if av < bv + borrow {
                dgt = av + 94 - bv - borrow;
                borrow = 1;
            } else {
                dgt = av - bv - borrow;
                borrow = 0;
            }
            out.insert(0, dgt);
            proof {
                let p = pow94((n - i - 1) as nat);
                assert(out@.drop_first() =~= outpre);
                assert(out@[0] == dgt);
                lemma_val_of_first(out@);
                assert(a0.skip(i as int).drop_first() =~= a0.skip(i as int + 1));
                assert(b0.skip(i as int).drop_first() =~= b0.skip(i as int + 1));
                assert(a0.skip(i as int)[0] == a0[i as int]);
                assert(b0.skip(i as int)[0] == b0[i as int]);
                lemma_val_of_first(a0.skip(i as int));
                lemma_val_of_first(b0.skip(i as int));
                assert((av as int) * p - (bv as int) * p - (bpre as int) * p == (dgt as int) * p
                    - (borrow as int) * (94 * p)) by (nonlinear_arith)
                    requires
                        av as int - bv as int - bpre as int == dgt as int - 94 * (borrow as int),
                ;
                assert(pow94((n - i) as nat) == 94 * p);
            }
        }
        proof {
            assert(a0.skip(0) =~= a0);
            assert(b0.skip(0) =~= b0);
            if str_val(self@) >= str_val(subtrahend@) {
                if borrow == 1 {
                    lemma_val_of_upper(out@);
                    assert(false);
                }
                assert(val_of(out@) == str_val(self@) - str_val(subtrahend@));
            }
        }
        strip_leading_zeros(&mut out);
        let u = vals_to_numeral(out);
        proof {
            lemma_vals_digits(u@);
            lemma_repr_of_canonical(u@);
        }
        Ok(u)
    }
}

impl PartialOrd for CompaDecimal {
    /// Numerals are ordered by the comparison rule of `cmp_str`: digit
    /// count first, then digit values, never the raw character order.
    fn partial_cmp(&self, other: &Self) -> (r: Option<Ordering>) {
        proof {
            use_type_invariant(&*self);
            use_type_invariant(&*other);
        }
        let a = self.digit_vals();
        let b = other.digit_vals();
        Some(cmp_vals(&a, &b))
    }
}

impl vstd::std_specs::cmp::PartialOrdSpecImpl for CompaDecimal {
    open spec fn obeys_partial_cmp_spec() -> bool {
        true
    }

    open spec fn partial_cmp_spec(&self, other: &Self) -> Option<Ordering> {
        Some(cmp_spec(self@, other@))
    }
}

impl CompaDecimal {
    /// The numeral of a machine-width unsigned integer: repeated
    /// division by the radix, remainders collected least significant
    /// first. Never fails.
    pub fn decimal_to_compa<T: CompaUnsigned>(num: T) -> (r: Result<
        CompaDecimal,
        CompaDecimalError,
    >)
        ensures
            r matches Ok(u) && u@ == repr(num.as_nat()),
    {
        if num.is_zero() {
            let u = CompaDecimal::new();
            proof {
                lemma_alphabet_bijective();
                assert(repr_vals(0nat) =~= seq![0u8]);
                assert(repr(0nat) =~= seq!['0']);
            }
            return Ok(u);
        }
        let mut n = num;
        let mut out: Vec<u8> = Vec::new();
        while !n.is_zero()
            invariant
                all_below_base(out@),
                num.as_nat() > 0,
                n.as_nat() > 0 ==> repr_vals(num.as_nat()) =~= repr_vals(n.as_nat()) + out@,
                n.as_nat() == 0 ==> out@.len() >= 1 && repr_vals(num.as_nat()) =~= out@,
            decreases n.as_nat(),
        {
            let ghost npre = n.as_nat();
            let ghost outpre = out@;
            let (q, dgt) = n.div_rem_base();
            out.insert(0, dgt);
            n = q;
            proof {
                assert(out@ =~= seq![dgt] + outpre);
                vstd::arithmetic::div_mod::lemma_mod_division_less_than_divisor(
                    npre as int,
                    94,
                );
                if n.as_nat() > 0 {
                    assert(npre >= 94) by {
                        vstd::arithmetic::div_mod::lemma_basic_div_specific_divisor(94);
                    }
                    assert(repr_vals(npre) =~= repr_vals(npre / 94).push((npre % 94) as u8));
                    assert(repr_vals(npre).push((npre % 94) as u8).drop_last()
                        =~= repr_vals(npre));
                    assert(repr_vals(n.as_nat()) + out@ =~= (repr_vals(n.as_nat()).push(
                        dgt,
                    )) + outpre);
                } else {
                    assert(npre < 94) by {
                        if npre >= 94 {
                            vstd::arithmetic::div_mod::lemma_div_non_zero(npre as int, 94);
                        }
                    }
                    vstd::arithmetic::div_mod::lemma_small_mod(npre, 94);
                    assert(repr_vals(npre) =~= seq![npre as u8]);
                    assert(dgt == npre as u8);
                }
                vstd::arithmetic::div_mod::lemma_div_decreases(npre as int, 94);
            }
        }
        let u = vals_to_numeral(out);
        proof {
            lemma_repr(num.as_nat());
            assert forall|j: int| 0 <= j < u@.len() implies #[trigger] u@[j] == repr(
                num.as_nat(),
            )[j] by {
                assert(u@[j] == symbol_of(repr_vals(num.as_nat())[j] as int));
            }
            assert(u@ =~= repr(num.as_nat()));
        }
        Ok(u)
    }

    /// The integer this numeral denotes, folded most significant digit
    /// first with checked steps. Fails with `Overflow` exactly when the
    /// value does not fit the width.
    pub fn to_decimal<T: CompaUnsigned>(&self) -> (r: Result<T, CompaDecimalError>)
        ensures
            match r {
                Ok(v) => v.as_nat() == str_val(self@) && str_val(self@) <= T::max_nat(),
                Err(e) => str_val(self@) > T::max_nat() && e.kind == CompaErrorKind::Overflow,
            },
    {
        proof {
            use_type_invariant(&*self);
        }
        let d = self.digit_vals();
        let n = d.len();
        let mut acc = T::zero();
        let mut i: usize = 0;
        proof {
            assert(d@.take(0) =~= Seq::<u8>::empty());
            assert(val_of(Seq::<u8>::empty()) == 0);
        }
        while i < n
            invariant
                n == d@.len(),
                d@ == vals(self@),
                all_below_base(d@),
                i <= n,
                acc.as_nat() == val_of(d@.take(i as int)),
                acc.as_nat() <= T::max_nat(),
            decreases n - i,
        {
            let ghost accpre = acc.as_nat();
            match acc.checked_mul_base_add(d[i]) {
                Some(a2) => {
                    acc = a2;
                },
                None => {
                    proof {
                        lemma_val_of_split(d@, i as int + 1);
                        lemma_val_of_push(d@.take(i as int), d@[i as int]);
                        assert(d@.take(i as int + 1) =~= d@.take(i as int).push(d@[i as int]));
                        let rest = pow94((d@.len() - i - 1) as nat);
                        lemma_pow94_pos((d@.len() - i - 1) as nat);
                        assert(val_of(d@.take(i as int + 1)) * rest >= val_of(
                            d@.take(i as int + 1),
                        ) * 1) by (nonlinear_arith)
                            requires
                                rest >= 1,
                        ;
                        assert(str_val(self@) > T::max_nat());
                    }
                    return Err(
                        CompaDecimalError::new(
                            CompaErrorKind::Overflow,
                            "Overflow error! The compa value was too big to store in the requested data type",
                        ),
                    );
                },
            }
            proof {
                lemma_val_of_push(d@.take(i as int), d@[i as int]);
                assert(d@.take(i as int + 1) =~= d@.take(i as int).push(d@[i as int]));
            }
            i = i + 1;
        }
        proof {
            assert(d@.take(n as int) =~= d@);
        }
        Ok(acc)
    }

    /// Increase by a machine-width unsigned amount: the amount is
    /// converted to digits and added. Never fails.
    pub fn increase_by<T: CompaUnsigned>(&self, amount: T) -> (r: Result<
        CompaDecimal,
        CompaDecimalError,
    >)
        ensures
            r matches Ok(u) && ({
                &&& str_val(u@) == str_val(self@) + amount.as_nat()
                &&& canonical(self@) ==> u@ == repr(str_val(self@) + amount.as_nat())
            }),
    {
        let compa_amount = match CompaDecimal::decimal_to_compa::<T>(amount) {
            Ok(c) => c,
            Err(_) => unreached(),
        };
        proof {
            lemma_repr(amount.as_nat());
        }
        match self.add(compa_amount.get_value()) {
            Ok(u) => Ok(u),
            Err(_) => unreached(),
        }
    }

    /// Decrease by a machine-width unsigned amount: the amount is
    /// converted to digits and subtracted. Fails with `NegativeResult`
    /// exactly when the comparison rule puts the amount above this
    /// value; on a canonical value that is exactly when the amount is
    /// larger.
    pub fn decrease_by<T: CompaUnsigned>(&self, amount: T) -> (r: Result<
        CompaDecimal,
        CompaDecimalError,
    >)
        ensures
            match r {
                Ok(u) => ({
                    &&& cmp_spec(self@, repr(amount.as_nat())) != Ordering::Less
                    &&& canonical(u@)
                    &&& str_val(self@) >= amount.as_nat() ==> u@ == repr(
                        (str_val(self@) - amount.as_nat()) as nat,
                    )
                    &&& canonical(self@) ==> str_val(self@) >= amount.as_nat()
                }),
                Err(e) => ({
                    &&& e.kind == CompaErrorKind::NegativeResult
                    &&& cmp_spec(self@, repr(amount.as_nat())) == Ordering::Less
                    &&& canonical(self@) ==> str_val(self@) < amount.as_nat()
                }),
            },
    {
        proof {
            use_type_invariant(&*self);
        }
        let compa_amount = match CompaDecimal::decimal_to_compa::<T>(amount) {
            Ok(c) => c,
            Err(_) => unreached(),
        };
        proof {
            lemma_repr(amount.as_nat());
            if canonical(self@) {
                lemma_cmp_matches_value(self@, repr(amount.as_nat()));
            }
        }
        match self.subtract(compa_amount.get_value()) {
            Ok(u) => Ok(u),
            Err(e) => {
                proof {
                    assert(all_digits(repr(amount.as_nat())));
                }
                Err(e)
            },
        }
    }
}

} // verus!
