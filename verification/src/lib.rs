//! A reversible codec between a sequence of bounded digits and a single
//! arbitrary-precision integer.
//!
//! A digit sequence `[a, b, c]` under a power-of-two radix `r` packs into the
//! integer `a + b*r + c*r^2`; decoding unpacks that integer back into the
//! digits, least significant first.  The radix must be a power of two strictly
//! greater than one, so every shift of the accumulator is exact.

pub mod bignum;
pub mod codec;
pub mod parse;
