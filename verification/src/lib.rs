//! Single-variable polynomials over exact decimal numbers: reading them from
//! text, merging and ordering their terms, multiplying them and writing them
//! back as text.
//!
//! Every number is a fixed-point decimal with nine fractional digits (see
//! [`decimal::Decimal`]), so equality of exponents and sums of coefficients are
//! exact, and every contract is stated over integers. A number that would
//! leave the range of the type sticks to the nearest bound.
//!
//! - [`decimal`]: the numbers, their sum and their snapped product.
//! - [`numeral`]: the text of a number and the number of a text.
//! - [`parser`]: the scanner that reads a polynomial character by character.
//! - [`polynomial`]: terms and polynomials; simplifying, organizing,
//!   multiplying and writing them.
//! - [`poly_mult`]: products of parenthesized polynomials.
//! - [`error`]: what can be wrong with a text.
//! - [`laws`] and [`round_trip`]: what holds of these operations for all
//!   polynomials, proved.

pub mod decimal;
pub mod error;
pub mod laws;
pub mod numeral;
pub mod parser;
pub mod poly_mult;
pub mod polynomial;
pub mod round_trip;

pub use decimal::Decimal;
pub use error::PolynomialStringError;
pub use poly_mult::parse_poly_mult_string;
pub use polynomial::{Polynomial, Term};
