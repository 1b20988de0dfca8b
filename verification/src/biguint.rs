//! Big unsigned integers of the `num` crate, seen through their limbs.

use crate::limbs::{is_trimmed, limbs_value, trim_zeros};
use num::BigUint;
use vstd::prelude::*;

verus! {

/// `num::BigUint`, carried through verified code without a view of its inside.
#[verifier::external_type_specification]
#[verifier::external_body]
pub struct ExBigUint(num::BigUint);

/// The base `2^32` digits of a big integer, least significant first and
/// without zeros at the top end, as `BigUint::to_u32_digits` hands them out.
pub uninterp spec fn biguint_digits(b: BigUint) -> Seq<u32>;

/// `BigUint::new`: the integer whose base `2^32` digits, least significant
/// first, are `digits`. Zeros at the top end are dropped.
#[verifier::external_body]
pub(crate) fn biguint_new(digits: Vec<u32>) -> (b: BigUint)
    ensures
        biguint_digits(b) == trim_zeros(digits@),
{
    BigUint::new(digits)
}

/// `BigUint::to_u32_digits`: the base `2^32` digits, least significant
/// first. The top digit is not zero; zero has no digits.
#[verifier::external_body]
pub(crate) fn biguint_to_u32_digits(b: &BigUint) -> (digits: Vec<u32>)
    ensures
        digits@ == biguint_digits(*b),
        is_trimmed(digits@),
{
    b.to_u32_digits()
}

/// The product of two big integers, by the `Mul` of `&BigUint`.
#[verifier::external_body]
pub(crate) fn biguint_mul(a: &BigUint, b: &BigUint) -> (c: BigUint)
    ensures
        limbs_value(biguint_digits(c)) == limbs_value(biguint_digits(*a)) * limbs_value(
            biguint_digits(*b),
        ),
{
    a * b
}

} // verus!
