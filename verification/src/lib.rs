//! A fixed-radix numeral system over a 94-symbol digit alphabet.
//!
//! A [`CompaDecimal`](compadecimal::CompaDecimal) is an arbitrary-length,
//! non-negative base-94 integer stored as a digit string. The crate offers
//! conversions to and from machine-width unsigned integers, digit-native
//! arithmetic (increment, decrement, addition, subtraction), and comparison
//! by digit value, all specified against a mathematical model of digit
//! sequences.

pub mod compadecimal;
pub mod error;
pub mod laws;
pub mod limbs;
pub mod model;
pub mod unsigned;
pub mod utils;

pub use compadecimal::CompaDecimal;
pub use error::{CompaDecimalError, CompaErrorKind};
pub use limbs::limbs_to_compa;
pub use utils::{get_compa_digits, valid_str};
