//! Packed 32-bit binary fractions for decimal values in `(0, 1)`.
//!
//! A decimal string such as `"0.625"` is encoded into a word laid out like an
//! IEEE-754 single: a sign bit (always clear), an 8-bit exponent and a 23-bit
//! significand. Decoding renders the word back as an exact decimal string.
pub mod bits;
pub mod decimal;
pub mod float;
pub mod laws;
pub mod table;

pub use bits::{get_nth_bit, reverse_from_nth_bit, set_nth_bit};
pub use float::{DecodeError, Float};
