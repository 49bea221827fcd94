//! Arbitrary-precision accumulator values.
//!
//! The packed result of an encoding has no fixed bit width, so it is held in
//! `num`'s `BigUint`.  Specifications speak of such a value only through
//! `big_val`, the non-negative integer it holds; each operation below relies
//! on `num` for the arithmetic and states what it does to that integer.

use vstd::prelude::*;

verus! {

use vstd::arithmetic::power2::pow2;

#[verifier::external_type_specification]
#[verifier::external_body]
pub struct ExBigUint(num::bigint::BigUint);

/// The non-negative integer that a `BigUint` holds.
pub uninterp spec fn big_val(n: num::bigint::BigUint) -> nat;

/// Relies on num's `Zero::zero` for `BigUint`: the additive identity, zero.
#[verifier::external_body]
pub(crate) fn big_zero() -> (r: num::bigint::BigUint)
    ensures
        big_val(r) == 0,
{
    num::Zero::zero()
}

/// Relies on num's `Zero::is_zero` for `BigUint`: true exactly of zero.
#[verifier::external_body]
pub(crate) fn big_is_zero(n: &num::bigint::BigUint) -> (r: bool)
    ensures
        r <==> big_val(*n) == 0,
{
    num::Zero::is_zero(n)
}

/// Relies on num's `Shl<usize>` for `BigUint`: a left shift by `k` bits
/// multiplies the value by `2^k` exactly.
#[verifier::external_body]
pub(crate) fn big_shl(n: num::bigint::BigUint, k: usize) -> (r: num::bigint::BigUint)
    ensures
        big_val(r) == big_val(n) * pow2(k as nat),
{
    n << k
}

/// Relies on num's `Shr<usize>` for `BigUint`: a right shift by `k` bits
/// divides the value by `2^k`, rounding toward zero.
#[verifier::external_body]
pub(crate) fn big_shr(n: num::bigint::BigUint, k: usize) -> (r: num::bigint::BigUint)
    ensures
        big_val(r) == big_val(n) / pow2(k as nat),
{
    n >> k
}

/// Relies on num's `Add` and `From<u32>` for `BigUint`: exact addition.
#[verifier::external_body]
pub(crate) fn big_add_u32(n: num::bigint::BigUint, d: u32) -> (r: num::bigint::BigUint)
    ensures
        big_val(r) == big_val(n) + d,
{
    n + num::bigint::BigUint::from(d)
}

/// Relies on num's `Rem` for `BigUint` (Euclidean remainder) and
/// `ToPrimitive::to_u32` (`Some` whenever the value fits in 32 bits); the
/// remainder is below `m`, so with `m` at most `2^32` it always fits.
#[verifier::external_body]
pub(crate) fn big_mod_digit(n: &num::bigint::BigUint, m: u64) -> (r: u32)
    requires
        1 <= m,
        m <= 0x1_0000_0000,
    ensures
        r as nat == big_val(*n) % (m as nat),
{
    let rem = n % num::bigint::BigUint::from(m);
    num::ToPrimitive::to_u32(&rem).unwrap()
}

/// Relies on num's `Clone` for `BigUint`: the copy holds the same value.
#[verifier::external_body]
pub(crate) fn big_clone(n: &num::bigint::BigUint) -> (r: num::bigint::BigUint)
    ensures
        big_val(r) == big_val(*n),
{
    n.clone()
}

} // verus!
