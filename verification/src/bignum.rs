//! Trusted boundary to the `num_bigint` crate, which carries magnitudes
//! that exceed the native 64-bit range.

use vstd::prelude::*;

verus! {

use crate::bits::be_value;

#[verifier::external_type_specification]
#[verifier::external_body]
pub struct ExBigUint(num_bigint::BigUint);

/// The big-endian byte form of a `BigUint`'s magnitude, as
/// `BigUint::to_bytes_be` lays it out: at least one octet, a single `0`
/// octet for zero, and no redundant leading zero octet otherwise.
pub uninterp spec fn big_digits(b: num_bigint::BigUint) -> Seq<u8>;

/// Relies on `BigUint::from_bytes_be`: the result's magnitude is the
/// argument read as a big-endian unsigned integer.
#[verifier::external_body]
pub fn big_from_bytes_be(bytes: &Vec<u8>) -> (r: num_bigint::BigUint)
    ensures
        be_value(big_digits(r)) == be_value(bytes@),
{
    num_bigint::BigUint::from_bytes_be(bytes.as_slice())
}

/// Relies on `BigUint::to_bytes_be`: the magnitude in big-endian byte
/// order, a single `0` octet for zero and no leading zero octet
/// otherwise. The length bound holds of any returned `Vec<u8>`, whose
/// allocation cannot exceed `isize::MAX` bytes.
#[verifier::external_body]
pub fn big_to_bytes_be(b: &num_bigint::BigUint) -> (r: Vec<u8>)
    ensures
        r@ == big_digits(*b),
        r@.len() >= 1,
        r@.len() > 1 ==> r@[0] != 0,
        r@.len() <= usize::MAX / 2,
{
    b.to_bytes_be()
}

} // verus!
