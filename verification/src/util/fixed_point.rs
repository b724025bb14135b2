//! Arithmetic on `I33F31` fixed-point values, held as their raw `i64` bits.
//! Conversion and multiplication are done by the `fixed` crate.
use vstd::prelude::*;
use fixed::types::I33F31;
use crate::util::types::{Balance, Volume, one_unit};

verus! {

/// The bits of the fixed-point number equal to the whole number `v`.
pub open spec fn spec_volume_to_fixed(v: Volume) -> Balance {
    (v * one_unit()) as i64
}

/// The bits of the product of two fixed-point numbers: the exact product of
/// the bits, divided by `2^31` and rounded down, then wrapped to 64 bits.
pub open spec fn spec_fixed_wrapping_mul(a: i64, b: i64) -> i64 {
    ((a * b) / one_unit()) as i64
}

/// `I33F31::from(v)` (the lossless `From<u32>` of `fixed`), taken to its
/// bits. The crate builds it as `(v as i64) << 31`, which never overflows
/// because `v < 2^32`.
#[verifier::external_body]
pub(crate) fn volume_to_fixed(v: Volume) -> (r: Balance)
    ensures
        r == v * one_unit(),
        r == spec_volume_to_fixed(v),
{
    I33F31::from(v).to_bits()
}

/// `I33F31::wrapping_mul` of `fixed`, on bits. The crate widens both bits to
/// `i128`, multiplies the left one by the right one shifted up by 33 bits
/// (wrapping), and keeps bits 64..128 of that product, which is the floor of
/// `a * b / 2^31` taken modulo `2^64`.
#[verifier::external_body]
pub(crate) fn fixed_wrapping_mul(a: i64, b: i64) -> (r: i64)
    ensures
        r == spec_fixed_wrapping_mul(a, b),
{
    I33F31::from_bits(a).wrapping_mul(I33F31::from_bits(b)).to_bits()
}

} // verus!
