use vstd::prelude::*;
use crate::util::types::AssetId;

verus! {

/// A new asset, which has not yet been assigned an id.
#[derive(Debug, Clone, Default, PartialEq, Eq, Hash)]
pub struct NewAsset {
    pub name: String,
    pub symbol: String,
}

/// An asset traded on the exchange.
#[derive(Debug, Clone, Default, PartialEq, Eq, Hash)]
pub struct Asset {
    pub id: AssetId,
    pub name: String,
    pub symbol: String,
}

impl Asset {
    /// A copy of the asset.
    pub fn duplicate(&self) -> (r: Asset)
        ensures
            r == *self,
    {
        Asset { id: self.id, name: self.name.clone(), symbol: self.symbol.clone() }
    }
}

/// A pair of assets with their names and symbols.
#[derive(Debug, Clone, Default, PartialEq, Eq, Hash)]
pub struct AssetPair {
    pub primary: Asset,
    pub secondary: Asset,
}

impl AssetPair {
    /// The pair as its symbols separated by a slash, e.g. `EUR/USD`.
    pub fn to_string(&self) -> (r: String)
        ensures
            r@ == self.primary.symbol@ + "/"@ + self.secondary.symbol@,
    {
        let mut r = self.primary.symbol.clone();
        r.append("/");
        r.append(self.secondary.symbol.as_str());
        r
    }
}

/// Symbolic representation of an asset pair, e.g. EUR/USD.
#[derive(Debug, Clone, Default, PartialEq, Eq, Hash)]
pub struct AssetPairSymbolic {
    pub primary: String,
    pub secondary: String,
}

/// A market's pair of assets: the primary asset is traded, its price is
/// quoted in the secondary asset.
#[derive(Debug, Clone, Copy, Default, PartialEq, Eq, Hash, Structural)]
pub struct AssetIdPair {
    pub primary: AssetId,
    pub secondary: AssetId,
}

} // verus!
