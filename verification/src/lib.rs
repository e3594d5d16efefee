//! Arbitrary-precision integer arithmetic.
//!
//! The library stores magnitudes as little-endian sequences of `u32` digits
//! with no trailing zero digit (the empty sequence is zero), and builds an
//! unsigned type [`ubi::Ubi`] and a signed type [`sbi::Sbi`] on top of that
//! representation. Every operation carries a contract relating the result to
//! the mathematical value of its operands.

pub mod arith;
pub mod codec;
pub mod convert;
pub mod digits;
pub mod div;
pub mod laws;
pub mod modular;
pub mod mul;
pub mod pow;
pub mod radix;
pub mod roots;
pub mod sbi;
pub mod ubi;

use vstd::prelude::*;

verus! {

} // verus!
