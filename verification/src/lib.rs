//! Arbitrary-precision integer arithmetic and decimal-digit scanning for a
//! correctly rounded decimal-to-binary64 parser.
//!
//! The heart of such a parser is exact integer arithmetic: the decimal
//! mantissa and the candidate binary64 are both held as big integers, and the
//! parser compares their difference against half a unit in the last place.
//! This crate provides that arithmetic — little-endian 32-bit limbs with
//! multiply, shift, difference and comparison — together with the bit-count
//! helpers and the digit scanner that feed it, each with a proved contract.

pub mod bigint;
pub mod bits;
pub mod scan;
