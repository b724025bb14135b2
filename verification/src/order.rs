use vstd::prelude::*;
use crate::asset::AssetIdPair;
use crate::market::OrderExecutionStatus;
use crate::util::types::{AccountId, OrderId, Price, Volume};

verus! {

/// The kind of an order.
#[derive(Debug, Clone, Copy, PartialEq, Eq, Structural)]
pub enum OrderType {
    /// Trades at the limit price or better; the rest rests in the book.
    Limit,
    /// Trades in full at the limit price or better, or not at all.
    FillOrKill,
    /// Trades in full at any price, or not at all.
    Market,
}

/// The side of an order.
#[derive(Debug, Clone, Copy, PartialEq, Eq, Structural)]
pub enum Side {
    Bid,
    Ask,
}

/// A request to insert a particular order, without an identifying id or status.
#[derive(Debug, Clone, Copy, PartialEq, Eq, Structural)]
pub struct OrderInsertionRequest {
    /// The id of the account that created the order.
    pub account_id: AccountId,
    /// The type of the order (limit, market, etc.).
    pub order_type: OrderType,
    /// The pair that the order should be executed on.
    pub pair: AssetIdPair,
    /// Side of the order (Bid / Ask).
    pub side: Side,
    /// Volume of the order in whole units.
    pub volume: Volume,
    /// Price of the order.
    pub price: Price,
}

impl OrderInsertionRequest {
    /// Converts an OrderInsertionRequest into an OrderInsertion by assigning it an id.
    pub fn into_insertion(self, id: OrderId) -> (r: OrderInsertion)
        ensures
            r == self.spec_into_insertion(id),
    {
        OrderInsertion {
            id,
            account_id: self.account_id,
            order_type: self.order_type,
            pair: self.pair,
            side: self.side,
            volume: self.volume,
            price: self.price,
        }
    }

    pub open spec fn spec_into_insertion(self, id: OrderId) -> OrderInsertion {
        OrderInsertion {
            id,
            account_id: self.account_id,
            order_type: self.order_type,
            pair: self.pair,
            side: self.side,
            volume: self.volume,
            price: self.price,
        }
    }
}

/// OrderInsertion represents a successfully processed OrderInsertionRequest.
#[derive(Debug, Clone, Copy, PartialEq, Eq, Structural)]
pub struct OrderInsertion {
    /// Identifying order id.
    pub id: OrderId,
    /// The id of the account that created the order.
    pub account_id: AccountId,
    /// The type of the order (limit, market, etc.).
    pub order_type: OrderType,
    /// The pair that the order should be executed on.
    pub pair: AssetIdPair,
    /// Side of the order (Bid / Ask).
    pub side: Side,
    /// Volume of the order in whole units.
    pub volume: Volume,
    /// Price of the order.
    pub price: Price,
}

/// How a request to cancel an order is received.
#[derive(Debug, Clone, Copy, PartialEq, Eq, Structural)]
pub struct OrderCancellationRequest {
    /// The account asking for the cancellation.
    pub account_id: AccountId,
    pub order_id: OrderId,
}

impl OrderCancellationRequest {
    /// Completes the request with where the order rests in the book.
    pub fn into_cancellation(self, pair: AssetIdPair, side: Side, price: Price) -> (r: OrderCancellation)
        ensures
            r == (OrderCancellation { pair, order_id: self.order_id, side, price }),
    {
        OrderCancellation { pair, order_id: self.order_id, side, price }
    }
}

/// The information needed to remove an order from an orderbook.
#[derive(Debug, Clone, Copy, PartialEq, Eq, Structural)]
pub struct OrderCancellation {
    pub pair: AssetIdPair,
    pub order_id: OrderId,
    pub side: Side,
    pub price: Price,
}

/// How a request to lower the volume of an order is received.
#[derive(Debug, Clone, Copy, PartialEq, Eq, Structural)]
pub struct OrderModificationRequest {
    /// The account asking for the modification.
    pub account_id: AccountId,
    pub order_id: OrderId,
    /// The new total volume of the order.
    pub new_volume: Volume,
}

impl OrderModificationRequest {
    /// Completes the request with where the order rests in the book; the
    /// volume to take off is the order's volume minus the new volume.
    pub fn into_order_modification(
        self,
        pair: AssetIdPair,
        side: Side,
        price: Price,
        volume: Volume,
    ) -> (r: OrderModification)
        requires
            self.new_volume <= volume,
        ensures
            r == (OrderModification {
                pair,
                order_id: self.order_id,
                volume_reduction: (volume - self.new_volume) as Volume,
                side,
                price,
            }),
    {
        OrderModification {
            pair,
            order_id: self.order_id,
            volume_reduction: volume - self.new_volume,
            side,
            price,
        }
    }
}

/// The information needed to lower the volume of an order in an orderbook.
#[derive(Debug, Clone, Copy, PartialEq, Eq, Structural)]
pub struct OrderModification {
    pub pair: AssetIdPair,
    pub order_id: OrderId,
    /// The volume to take off the order.
    pub volume_reduction: Volume,
    pub side: Side,
    pub price: Price,
}

/// The data kept on every order placed during a session.
#[derive(Debug, Clone, Copy, PartialEq, Eq, Structural)]
pub struct PlacedOrder {
    /// Identifying order id.
    pub id: OrderId,
    /// The id of the account that created the order.
    pub account_id: AccountId,
    /// The pair that the order should be executed on.
    pub pair: AssetIdPair,
    /// Side of the order (Bid / Ask).
    pub side: Side,
    /// Price of the order.
    pub price: Price,
    /// Volume of the order.
    pub volume: Volume,
    /// Volume left to fill on this order.
    pub remaining_volume: Volume,
    /// Status of the order (partial fill, filled, cancelled, etc.).
    pub status: OrderExecutionStatus,
}

impl PlacedOrder {
    pub open spec fn spec_from_insertion(insertion: OrderInsertion) -> PlacedOrder {
        PlacedOrder {
            id: insertion.id,
            account_id: insertion.account_id,
            pair: insertion.pair,
            side: insertion.side,
            price: insertion.price,
            volume: insertion.volume,
            remaining_volume: insertion.volume,
            status: OrderExecutionStatus::AwaitingFill,
        }
    }

    /// The record of a freshly inserted order: nothing filled yet.
    pub fn from_insertion(insertion: &OrderInsertion) -> (r: PlacedOrder)
        ensures
            r == Self::spec_from_insertion(*insertion),
    {
        PlacedOrder {
            id: insertion.id,
            account_id: insertion.account_id,
            pair: insertion.pair,
            side: insertion.side,
            price: insertion.price,
            volume: insertion.volume,
            remaining_volume: insertion.volume,
            status: OrderExecutionStatus::AwaitingFill,
        }
    }
}

} // verus!
