//! Machine-width unsigned integers as sources and targets of numeral
//! conversion.
//!
//! The conversions of [`crate::compadecimal::CompaDecimal`] are generic
//! over the unsigned width. This trait carries the little they need of a
//! width: its value as an unbounded integer, its largest value, and the
//! checked base-94 digit steps. Every machine width implements it with a
//! proof, so the conversions are verified once for all of them.

use vstd::prelude::*;

verus! {

/// An unsigned machine integer usable as a numeral conversion width.
pub trait CompaUnsigned: Sized + Copy {
    /// The integer the machine value denotes.
    spec fn as_nat(self) -> nat;

    /// The largest integer this width can hold.
    spec fn max_nat() -> nat;

    /// Every value of the width is at most the width's maximum.
    proof fn lemma_in_range(self)
        ensures
            self.as_nat() <= Self::max_nat(),
    ;

    /// The zero of this width.
    fn zero() -> (r: Self)
        ensures
            r.as_nat() == 0,
    ;

    /// Whether the value is zero.
    fn is_zero(self) -> (b: bool)
        ensures
            b <==> self.as_nat() == 0,
    ;

    /// The quotient and remainder of division by the radix 94.
    fn div_rem_base(self) -> (r: (Self, u8))
        ensures
            r.0.as_nat() == self.as_nat() / 94,
            r.1 as nat == self.as_nat() % 94,
            r.1 < 94,
    ;

    /// `self * 94 + digit`, or `None` when that does not fit the width.
    fn checked_mul_base_add(self, digit: u8) -> (r: Option<Self>)
        requires
            digit < 94,
        ensures
            match r {
                Some(v) => v.as_nat() == self.as_nat() * 94 + digit
                    && v.as_nat() <= Self::max_nat(),
                None => self.as_nat() * 94 + digit > Self::max_nat(),
            },
    ;
}

impl CompaUnsigned for u8 {
    open spec fn as_nat(self) -> nat {
        self as nat
    }

    open spec fn max_nat() -> nat {
        u8::MAX as nat
    }

    proof fn lemma_in_range(self) {
    }

    fn zero() -> (r: Self) {
        0
    }

    fn is_zero(self) -> (b: bool) {
        self == 0
    }

    fn div_rem_base(self) -> (r: (Self, u8)) {
        (self / 94, (self % 94) as u8)
    }

    fn checked_mul_base_add(self, digit: u8) -> (r: Option<Self>) {
        match self.checked_mul(94) {
            Some(m) => m.checked_add(digit as u8),
            None => None,
        }
    }
}

impl CompaUnsigned for u16 {
    open spec fn as_nat(self) -> nat {
        self as nat
    }

    open spec fn max_nat() -> nat {
        u16::MAX as nat
    }

    proof fn lemma_in_range(self) {
    }

    fn zero() -> (r: Self) {
        0
    }

    fn is_zero(self) -> (b: bool) {
        self == 0
    }

    fn div_rem_base(self) -> (r: (Self, u8)) {
        (self / 94, (self % 94) as u8)
    }

    fn checked_mul_base_add(self, digit: u8) -> (r: Option<Self>) {
        match self.checked_mul(94) {
            Some(m) => m.checked_add(digit as u16),
            None => None,
        }
    }
}

impl CompaUnsigned for u32 {
    open spec fn as_nat(self) -> nat {
        self as nat
    }

    open spec fn max_nat() -> nat {
        u32::MAX as nat
    }

    proof fn lemma_in_range(self) {
    }

    fn zero() -> (r: Self) {
        0
    }

    fn is_zero(self) -> (b: bool) {
        self == 0
    }

    fn div_rem_base(self) -> (r: (Self, u8)) {
        (self / 94, (self % 94) as u8)
    }

    fn checked_mul_base_add(self, digit: u8) -> (r: Option<Self>) {
        match self.checked_mul(94) {
            Some(m) => m.checked_add(digit as u32),
            None => None,
        }
    }
}

impl CompaUnsigned for u64 {
    open spec fn as_nat(self) -> nat {
        self as nat
    }

    open spec fn max_nat() -> nat {
        u64::MAX as nat
    }

    proof fn lemma_in_range(self) {
    }

    fn zero() -> (r: Self) {
        0
    }

    fn is_zero(self) -> (b: bool) {
        self == 0
    }

    fn div_rem_base(self) -> (r: (Self, u8)) {
        (self / 94, (self % 94) as u8)
    }

    fn checked_mul_base_add(self, digit: u8) -> (r: Option<Self>) {
        match self.checked_mul(94) {
            Some(m) => m.checked_add(digit as u64),
            None => None,
        }
    }
}

impl CompaUnsigned for u128 {
    open spec fn as_nat(self) -> nat {
        self as nat
    }

    open spec fn max_nat() -> nat {
        u128::MAX as nat
    }

    proof fn lemma_in_range(self) {
    }

    fn zero() -> (r: Self) {
        0
    }

    fn is_zero(self) -> (b: bool) {
        self == 0
    }

    fn div_rem_base(self) -> (r: (Self, u8)) {
        (self / 94, (self % 94) as u8)
    }

    fn checked_mul_base_add(self, digit: u8) -> (r: Option<Self>) {
        match self.checked_mul(94) {
            Some(m) => m.checked_add(digit as u128),
            None => None,
        }
    }
}

} // verus!
