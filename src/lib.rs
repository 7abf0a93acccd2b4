//! A FRACTRAN interpreter over exact unbounded integers and fractions.
//!
//! A program is a list of fractions. From a start value, each step multiplies
//! the accumulator by the first fraction that gives an integer; the program
//! halts when none does. The accumulator can be decoded into registers, the
//! exponents of its small prime factors.

pub mod fraction;
pub mod natural;
pub mod program;
pub mod registers;
pub mod vm;

pub use fraction::Fraction;
pub use natural::Natural;
pub use program::{parse_source, ParseError};
pub use registers::{check_prime_factor, has_remainder, registers, Register};
pub use vm::{FractranVM, RunOutcome};
