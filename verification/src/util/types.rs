use vstd::prelude::*;

verus! {

/// Identifier of an order: its position in the exchange's session log.
pub type OrderId = usize;

pub type AssetId = u32;

pub type AccountId = u32;

/// Volume of an order in whole units.
pub type Volume = u32;

/// A price: the raw bits of an `I33F31` fixed-point number (33 integer bits
/// including the sign, 31 fractional bits). Prices compare as their bits do.
pub type Price = i64;

/// A balance, in the same fixed-point representation as `Price`.
pub type Balance = i64;

/// `2^31`, the fixed-point representation of one unit.
pub open spec fn one_unit() -> int {
    0x8000_0000
}

} // verus!
