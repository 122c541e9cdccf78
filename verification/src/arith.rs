//! Arithmetic on scalars, worked out on their bit patterns: every result is
//! the exact one, rounded once to the nearest double.

pub mod rounding;
pub mod ratio;
pub mod encode;
pub mod sum;
pub mod cancel;
pub mod product;
pub mod quotient;
pub mod root;
pub mod order;
pub mod whole;
