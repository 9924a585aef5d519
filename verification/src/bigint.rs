//! Trusted boundary to the `num_bigint` arbitrary-precision integers.
//!
//! A `BigInt` is opaque to the verifier. The spec function `big_value`
//! names the mathematical integer that a `BigInt` holds (its sequence of
//! digits read as one number), and each wrapper below states over
//! `big_value` what the wrapped `num_bigint` / `num_integer` /
//! `num_traits` operation returns.

use vstd::prelude::*;
use num_bigint::BigInt;
use num_integer::Integer;
use num_traits::{One, Signed, ToPrimitive, Zero};

verus! {

/// The mathematical integer that a `BigInt` holds.
pub uninterp spec fn big_value(b: BigInt) -> int;

#[verifier::external_type_specification]
#[verifier::external_body]
pub struct ExBigInt(BigInt);

/// Relies on `BigInt::from(u32)`: the big integer with exactly that value.
#[verifier::external_body]
pub(crate) fn big_from_u32(v: u32) -> (r: BigInt)
    ensures
        big_value(r) == v as int,
{
    BigInt::from(v)
}

/// Relies on `<BigInt as num_traits::Zero>::zero`: the big integer zero.
#[verifier::external_body]
pub(crate) fn big_zero() -> (r: BigInt)
    ensures
        big_value(r) == 0,
{
    BigInt::zero()
}

/// Relies on `<BigInt as num_traits::One>::one`: the big integer one.
#[verifier::external_body]
pub(crate) fn big_one() -> (r: BigInt)
    ensures
        big_value(r) == 1,
{
    BigInt::one()
}

/// Relies on `BigInt` addition (`&a + &b`): exact integer addition.
#[verifier::external_body]
pub(crate) fn big_add(a: &BigInt, b: &BigInt) -> (r: BigInt)
    ensures
        big_value(r) == big_value(*a) + big_value(*b),
{
    a + b
}

/// Relies on `BigInt` multiplication (`&a * &b`): exact integer multiplication.
#[verifier::external_body]
pub(crate) fn big_mul(a: &BigInt, b: &BigInt) -> (r: BigInt)
    ensures
        big_value(r) == big_value(*a) * big_value(*b),
{
    a * b
}

/// Relies on `BigInt` negation (`-&a`): exact integer negation.
#[verifier::external_body]
pub(crate) fn big_neg(a: &BigInt) -> (r: BigInt)
    ensures
        big_value(r) == -big_value(*a),
{
    -a
}

/// Relies on `num_integer::Integer::mod_floor` for `BigInt`: the remainder
/// of floor division, which for a positive modulus lies in `[0, p)` and
/// agrees with the verifier's Euclidean `%`.
#[verifier::external_body]
pub(crate) fn big_mod_floor(a: &BigInt, p: &BigInt) -> (r: BigInt)
    requires
        big_value(*p) > 0,
    ensures
        big_value(r) == big_value(*a) % big_value(*p),
{
    a.mod_floor(p)
}

/// Relies on `num_traits::Zero::is_zero` for `BigInt`.
#[verifier::external_body]
pub(crate) fn big_is_zero(a: &BigInt) -> (r: bool)
    ensures
        r == (big_value(*a) == 0),
{
    a.is_zero()
}

/// Relies on `num_traits::One::is_one` for `BigInt`.
#[verifier::external_body]
pub(crate) fn big_is_one(a: &BigInt) -> (r: bool)
    ensures
        r == (big_value(*a) == 1),
{
    a.is_one()
}

/// Relies on `num_traits::Signed::is_positive` for `BigInt`: true exactly
/// when the sign is plus, that is, when the value is greater than zero.
#[verifier::external_body]
pub(crate) fn big_is_positive(a: &BigInt) -> (r: bool)
    ensures
        r == (big_value(*a) > 0),
{
    a.is_positive()
}

/// Relies on `num_traits::ToPrimitive::to_u32` for `BigInt`: `Some` with
/// the same value exactly when the value fits in a `u32`.
#[verifier::external_body]
pub(crate) fn big_to_u32(a: &BigInt) -> (r: Option<u32>)
    ensures
        match r {
            Some(v) => big_value(*a) == v as int,
            None => !(0 <= big_value(*a) <= u32::MAX as int),
        },
{
    a.to_u32()
}

/// Relies on `<BigInt as Clone>::clone`: the copy holds the same value.
#[verifier::external_body]
pub(crate) fn big_clone(a: &BigInt) -> (r: BigInt)
    ensures
        big_value(r) == big_value(*a),
{
    a.clone()
}

} // verus!
