use vstd::prelude::*;

verus! {

/// Why a market could not be created.
#[derive(Debug, Clone, Copy, PartialEq, Eq, Structural)]
pub enum MarketCreationError {
    /// Market for the given pair already exists.
    MarketAlreadyExists,
    /// One of the specified assets is not traded on this exchange.
    AssetNotTraded,
    /// There are no market handlers to assign the market to.
    NoMarketHandlers,
    /// Unknown error occurred creating a market.
    Other,
}

/// Why an order could not be inserted.
#[derive(Debug, Clone, Copy, PartialEq, Eq, Structural)]
pub enum OrderInsertionError {
    /// The specified market does not exist.
    MarketDoesNotExist,
    /// The provided order insertion parameters are illegal.
    IllegalParameters,
    /// Fill-or-Kill order was killed due to a lack of liquidity.
    OrderKilled,
    /// Market order could not be filled due to a lack of liquidity.
    InadequateVolume,
    /// The insertion would result in a self-trade.
    SelfTrade,
    /// Other (should never occur).
    Other,
    /// The account placing the order does not exist.
    AccountDoesNotExist,
}

/// Why an order could not be cancelled.
#[derive(Debug, Clone, Copy, PartialEq, Eq, Structural)]
pub enum OrderCancellationError {
    /// The specified order does not exist.
    OrderDoesNotExist,
    /// User was not the one who created the order.
    Unauthorized,
    /// The specified order was already filled.
    AlreadyFilled,
    /// The specified order was already cancelled.
    AlreadyCancelled,
    /// Market that the order is registered for (no longer) exists.
    MarketDoesNotExist,
    /// Order cannot be cancelled (because it is not a limit order).
    NotCancellable,
}

/// Why an order could not be modified.
#[derive(Debug, Clone, Copy, PartialEq, Eq, Structural)]
pub enum OrderModificationError {
    /// The specified order does not exist.
    OrderDoesNotExist,
    /// The specified order was already filled.
    AlreadyFilled,
    /// User was not the one who created the order.
    Unauthorized,
    /// Market that the order is registered for (no longer) exists.
    MarketDoesNotExist,
    /// Specified new volume is not lower than the original volume.
    VolumeNotLower,
    /// Order could not be found in the orderbook.
    OrderNotFound,
}

/// Why an orderbook view could not be produced.
#[derive(Debug, Clone, Copy, PartialEq, Eq, Structural)]
pub enum GetOrderbookError {
    /// Market that the orderbook was requested for (no longer) exists.
    MarketDoesNotExist,
}

} // verus!
