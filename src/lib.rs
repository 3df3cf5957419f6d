//! Digits of pi by binary splitting of the Chudnovsky series, over exact
//! big-integer arithmetic.
pub mod bigint;
pub mod chudnovsky;
pub mod record;

pub use bigint::BigInt;
