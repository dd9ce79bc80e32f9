//! Trusted boundary around arbitrary-precision integers and randomness.
//!
//! Amplitude coordinates are `num::BigInt` values so that gate application
//! never overflows.  Verus sees each `BigInt` only through `big_value`, the
//! integer it denotes, and through the small wrappers below, whose contracts
//! state exactly what the called `num-bigint` operations return.

use vstd::prelude::*;

verus! {

/// The integer that a `num::BigInt` denotes.
pub uninterp spec fn big_value(x: num::BigInt) -> int;

#[verifier::external_type_specification]
#[verifier::external_body]
pub struct ExBigInt(num::BigInt);

#[verifier::external_type_specification]
#[verifier::external_body]
pub struct ExThreadRng(rand::rngs::ThreadRng);

/// Relies on `impl From<i64> for BigInt` (num-bigint): exact conversion.
#[verifier::external_body]
pub(crate) fn big_from_i64(x: i64) -> (r: num::BigInt)
    ensures
        big_value(r) == x as int,
{
    num::BigInt::from(x)
}

/// Relies on `impl Add for &BigInt` (num-bigint): exact integer addition.
#[verifier::external_body]
pub(crate) fn big_add(x: &num::BigInt, y: &num::BigInt) -> (r: num::BigInt)
    ensures
        big_value(r) == big_value(*x) + big_value(*y),
{
    x + y
}

/// Relies on `impl Sub for &BigInt` (num-bigint): exact integer subtraction.
#[verifier::external_body]
pub(crate) fn big_sub(x: &num::BigInt, y: &num::BigInt) -> (r: num::BigInt)
    ensures
        big_value(r) == big_value(*x) - big_value(*y),
{
    x - y
}

/// Relies on `impl Mul for &BigInt` (num-bigint): exact integer multiplication.
#[verifier::external_body]
pub(crate) fn big_mul(x: &num::BigInt, y: &num::BigInt) -> (r: num::BigInt)
    ensures
        big_value(r) == big_value(*x) * big_value(*y),
{
    x * y
}

/// Relies on `Integer::is_even` for `BigInt` (num-bigint), which tests the
/// magnitude's lowest bit; an integer and its magnitude have the same parity.
#[verifier::external_body]
pub(crate) fn big_is_even(x: &num::BigInt) -> (r: bool)
    ensures
        r == (big_value(*x) % 2 == 0),
{
    num::Integer::is_even(x)
}

/// Relies on `impl Shr<u32> for &BigInt` (num-bigint), which rounds toward
/// negative infinity; for a positive divisor that matches Euclidean division.
#[verifier::external_body]
pub(crate) fn big_half(x: &num::BigInt) -> (r: num::BigInt)
    ensures
        big_value(r) == big_value(*x) / 2,
{
    x >> 1u32
}

/// Relies on `impl Ord for BigInt` (num-bigint): comparison by value.
#[verifier::external_body]
pub(crate) fn big_lt(x: &num::BigInt, y: &num::BigInt) -> (r: bool)
    ensures
        r == (big_value(*x) < big_value(*y)),
{
    x < y
}

/// Relies on `Zero::is_zero` for `BigInt` (num-bigint): tests for value zero.
#[verifier::external_body]
pub(crate) fn big_is_zero(x: &num::BigInt) -> (r: bool)
    ensures
        r == (big_value(*x) == 0),
{
    num::Zero::is_zero(x)
}

/// Relies on `impl Clone for BigInt` (num-bigint): the copy denotes the same
/// integer.
#[verifier::external_body]
pub(crate) fn big_clone(x: &num::BigInt) -> (r: num::BigInt)
    ensures
        big_value(r) == big_value(*x),
{
    x.clone()
}

/// Relies on `rand::thread_rng`: a handle to the thread-local generator.
/// Nothing can be promised of the values it will produce.
#[verifier::external_body]
pub(crate) fn rng_new() -> rand::rngs::ThreadRng {
    rand::thread_rng()
}

/// Relies on `RandBigInt::gen_bigint_range` (num-bigint): returns a value in
/// `[lo, hi)` and asserts `lo < hi`, which the precondition guarantees.
/// Nothing is assumed about which value in the range comes back.
#[verifier::external_body]
pub(crate) fn big_random_range(
    rng: &mut rand::rngs::ThreadRng,
    lo: &num::BigInt,
    hi: &num::BigInt,
) -> (r: num::BigInt)
    requires
        big_value(*lo) < big_value(*hi),
    ensures
        big_value(*lo) <= big_value(r) < big_value(*hi),
{
    num::bigint::RandBigInt::gen_bigint_range(rng, lo, hi)
}

} // verus!
