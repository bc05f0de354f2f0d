//! Arbitrary-precision decimal numbers: digit sequences split at the decimal
//! point with an independent sign, and exact parsing, formatting, comparison
//! and arithmetic over them.
pub mod arith;
pub mod digits;
pub mod laws;
pub mod magnitude;
pub mod number;
pub mod text;

pub use arith::DIVISION_DIGITS;
pub use number::{BigNumber, NumberError};
pub use text::{parse, parse_bytes};
