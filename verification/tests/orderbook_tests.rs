use backend::asset::AssetIdPair;
use backend::errors::{OrderCancellationError, OrderInsertionError, OrderModificationError};
use backend::market::{Market, Markets, OrderExecutionStatus};
use backend::order::{OrderCancellation, OrderInsertion, OrderModification, OrderType, Side};
use backend::orderbook::{
    ObOrderInsertionEffects, ObTransaction, ObTransactionBuffer, Orderbook, PriceLevelAggregate,
};
use backend::util::types::{AccountId, OrderId, Price, Volume};
use backend::errors::MarketCreationError;

const PAIR: AssetIdPair = AssetIdPair { primary: 0, secondary: 1 };

fn order(id: OrderId, account_id: AccountId, order_type: OrderType, side: Side, volume: Volume, price: Price) -> OrderInsertion {
    OrderInsertion { id, account_id, order_type, pair: PAIR, side, volume, price }
}

fn limit(id: OrderId, account_id: AccountId, side: Side, volume: Volume, price: Price) -> OrderInsertion {
    order(id, account_id, OrderType::Limit, side, volume, price)
}

fn level(price: Price, volume: Volume) -> PriceLevelAggregate {
    PriceLevelAggregate { price, volume }
}

#[test]
fn resting_orders_show_in_l1_and_l2() {
    let mut book = Orderbook::new();
    let mut txs: ObTransactionBuffer = Vec::new();
    assert_eq!(book.insert_order(limit(0, 1, Side::Ask, 5, 110), &mut txs).unwrap().status, OrderExecutionStatus::AwaitingFill);
    book.insert_order(limit(1, 1, Side::Ask, 3, 120), &mut txs).unwrap();
    book.insert_order(limit(2, 2, Side::Ask, 4, 110), &mut txs).unwrap();
    book.insert_order(limit(3, 2, Side::Bid, 6, 100), &mut txs).unwrap();
    book.insert_order(limit(4, 3, Side::Bid, 1, 90), &mut txs).unwrap();
    assert!(txs.is_empty());
    let l1 = book.get_l1();
    assert_eq!(l1.best_ask, Some(level(110, 9)));
    assert_eq!(l1.best_bid, Some(level(100, 6)));
    let l2 = book.get_l2();
    assert_eq!(l2.asks, vec![level(110, 9), level(120, 3)]);
    assert_eq!(l2.bids, vec![level(90, 1), level(100, 6)]);
}

#[test]
fn empty_book_has_no_best_levels() {
    let book = Orderbook::new();
    let l1 = book.get_l1();
    assert_eq!(l1.best_bid, None);
    assert_eq!(l1.best_ask, None);
    assert!(book.get_l2().asks.is_empty());
}

/// Orders at one price trade oldest first, and better prices trade first.
#[test]
fn price_time_priority() {
    let mut book = Orderbook::new();
    let mut txs: ObTransactionBuffer = Vec::new();
    book.insert_order(limit(0, 1, Side::Ask, 3, 105), &mut txs).unwrap();
    book.insert_order(limit(1, 2, Side::Ask, 4, 100), &mut txs).unwrap();
    book.insert_order(limit(2, 3, Side::Ask, 4, 100), &mut txs).unwrap();
    let r = book.insert_order(limit(3, 4, Side::Bid, 9, 105), &mut txs).unwrap();
    assert_eq!(r, ObOrderInsertionEffects { status: OrderExecutionStatus::Filled, last_traded_price: Some(105) });
    assert_eq!(txs, vec![
        ObTransaction { price: 100, volume: 4, taker_side: Side::Bid, order_id_maker: 1, order_id_taker: 3 },
        ObTransaction { price: 100, volume: 4, taker_side: Side::Bid, order_id_maker: 2, order_id_taker: 3 },
        ObTransaction { price: 105, volume: 1, taker_side: Side::Bid, order_id_maker: 0, order_id_taker: 3 },
    ]);
    assert_eq!(book.get_l1().best_ask, Some(level(105, 2)));
}

/// An order never trades beyond its limit; what is left rests at its price.
#[test]
fn limit_order_rests_after_trading() {
    let mut book = Orderbook::new();
    let mut txs: ObTransactionBuffer = Vec::new();
    book.insert_order(limit(0, 1, Side::Bid, 2, 100), &mut txs).unwrap();
    book.insert_order(limit(1, 1, Side::Bid, 2, 90), &mut txs).unwrap();
    let r = book.insert_order(limit(2, 2, Side::Ask, 5, 95), &mut txs).unwrap();
    assert_eq!(r, ObOrderInsertionEffects { status: OrderExecutionStatus::AwaitingFill, last_traded_price: None });
    assert_eq!(txs, vec![ObTransaction { price: 100, volume: 2, taker_side: Side::Ask, order_id_maker: 0, order_id_taker: 2 }]);
    let l1 = book.get_l1();
    assert_eq!(l1.best_ask, Some(level(95, 3)));
    assert_eq!(l1.best_bid, Some(level(90, 2)));
    // The book stays uncrossed.
    assert!(l1.best_bid.unwrap().price < l1.best_ask.unwrap().price);
}

#[test]
fn fill_or_kill_is_killed_without_enough_volume() {
    let mut book = Orderbook::new();
    let mut txs: ObTransactionBuffer = Vec::new();
    book.insert_order(limit(0, 1, Side::Ask, 5, 100), &mut txs).unwrap();
    book.insert_order(limit(1, 1, Side::Ask, 5, 110), &mut txs).unwrap();
    let before = book.get_l2();
    // Only 5 is offered at or below 105.
    let r = book.insert_order(order(2, 2, OrderType::FillOrKill, Side::Bid, 6, 105), &mut txs);
    assert_eq!(r, Err(OrderInsertionError::OrderKilled));
    assert!(txs.is_empty());
    assert_eq!(book.get_l2(), before);
    // Both levels together can fill it.
    let r = book.insert_order(order(3, 2, OrderType::FillOrKill, Side::Bid, 6, 110), &mut txs).unwrap();
    assert_eq!(r.status, OrderExecutionStatus::Filled);
    assert_eq!(txs.iter().map(|t| t.volume).sum::<u32>(), 6);
    assert_eq!(book.get_l1().best_ask, Some(level(110, 4)));
    assert_eq!(book.get_l1().best_bid, None);
}

#[test]
fn market_order_needs_enough_volume() {
    let mut book = Orderbook::new();
    let mut txs: ObTransactionBuffer = Vec::new();
    book.insert_order(limit(0, 1, Side::Bid, 5, 100), &mut txs).unwrap();
    let r = book.insert_order(order(1, 2, OrderType::Market, Side::Ask, 6, 0), &mut txs);
    assert_eq!(r, Err(OrderInsertionError::InadequateVolume));
    assert!(txs.is_empty());
    let r = book.insert_order(order(2, 2, OrderType::Market, Side::Ask, 5, 1000), &mut txs).unwrap();
    assert_eq!(r.status, OrderExecutionStatus::Filled);
    assert_eq!(txs, vec![ObTransaction { price: 100, volume: 5, taker_side: Side::Ask, order_id_maker: 0, order_id_taker: 2 }]);
    assert_eq!(book.get_l1().best_bid, None);
    assert_eq!(book.get_l1().best_ask, None);
}

#[test]
fn self_trade_is_refused_and_leaves_the_book() {
    let mut book = Orderbook::new();
    let mut txs: ObTransactionBuffer = Vec::new();
    book.insert_order(limit(0, 2, Side::Ask, 5, 100), &mut txs).unwrap();
    book.insert_order(limit(1, 1, Side::Ask, 5, 101), &mut txs).unwrap();
    let before = book.get_l2();
    let r = book.insert_order(limit(2, 1, Side::Bid, 10, 101), &mut txs);
    assert_eq!(r, Err(OrderInsertionError::SelfTrade));
    assert!(txs.is_empty());
    assert_eq!(book.get_l2(), before);
}

#[test]
fn cancel_removes_a_resting_order() {
    let mut book = Orderbook::new();
    let mut txs: ObTransactionBuffer = Vec::new();
    book.insert_order(limit(0, 1, Side::Ask, 5, 100), &mut txs).unwrap();
    book.insert_order(limit(1, 2, Side::Ask, 2, 100), &mut txs).unwrap();
    let c = OrderCancellation { pair: PAIR, order_id: 0, side: Side::Ask, price: 100 };
    assert_eq!(book.cancel_order(c), Ok(()));
    assert_eq!(book.get_l1().best_ask, Some(level(100, 2)));
    assert_eq!(book.cancel_order(c), Err(OrderCancellationError::AlreadyFilled));
    let wrong_price = OrderCancellation { price: 101, order_id: 1, ..c };
    assert_eq!(book.cancel_order(wrong_price), Err(OrderCancellationError::AlreadyFilled));
    // Cancelling the last order at a price removes the level.
    book.insert_order(limit(2, 3, Side::Ask, 4, 105), &mut txs).unwrap();
    assert_eq!(book.cancel_order(OrderCancellation { order_id: 1, ..c }), Ok(()));
    assert_eq!(book.get_l1().best_ask, Some(level(105, 4)));
    assert_eq!(book.get_l2().asks, vec![level(105, 4)]);
}

#[test]
fn modify_lowers_a_resting_order() {
    let mut book = Orderbook::new();
    let mut txs: ObTransactionBuffer = Vec::new();
    book.insert_order(limit(0, 1, Side::Bid, 5, 100), &mut txs).unwrap();
    let m = OrderModification { pair: PAIR, order_id: 0, volume_reduction: 2, side: Side::Bid, price: 100 };
    assert_eq!(book.modify_order(m), Ok(()));
    assert_eq!(book.get_l1().best_bid, Some(level(100, 3)));
    // Taking off all that remains takes the order out, and its emptied level.
    assert_eq!(book.modify_order(OrderModification { volume_reduction: 3, ..m }), Ok(()));
    assert_eq!(book.get_l1().best_bid, None);
    assert!(book.get_l2().bids.is_empty());
    assert_eq!(book.modify_order(m), Err(OrderModificationError::OrderNotFound));
}

#[test]
fn insertion_without_matching_does_not_trade() {
    let mut book = Orderbook::new();
    book.insert_limit_order_no_matching(limit(0, 1, Side::Ask, 5, 100));
    book.insert_limit_order_no_matching(limit(1, 2, Side::Bid, 5, 100));
    let l1 = book.get_l1();
    assert_eq!(l1.best_ask, Some(level(100, 5)));
    assert_eq!(l1.best_bid, Some(level(100, 5)));
}

#[test]
fn market_tracks_last_traded_price_and_size() {
    let mut market = Market::new(PAIR);
    let mut txs: ObTransactionBuffer = Vec::new();
    market.insert_order(limit(0, 1, Side::Ask, 5, 100), &mut txs).unwrap();
    market.insert_order(limit(1, 1, Side::Ask, 5, 102), &mut txs).unwrap();
    assert_eq!(market.get_orderbook_size(), 2);
    assert_eq!(market.last_traded_price, 0);
    market.insert_order(limit(2, 2, Side::Bid, 7, 102), &mut txs).unwrap();
    assert_eq!(market.last_traded_price, 102);
    assert_eq!(market.get_orderbook_size(), 1);
    assert_eq!(market.get_l1().best_ask, Some(level(102, 3)));
    assert_eq!(market.get_l2().asks, vec![level(102, 3)]);
    let c = OrderCancellation { pair: PAIR, order_id: 1, side: Side::Ask, price: 102 };
    assert_eq!(market.cancel_order(c), Ok(()));
    let m = OrderModification { pair: PAIR, order_id: 1, volume_reduction: 1, side: Side::Ask, price: 102 };
    assert_eq!(market.modify_order(m), Err(OrderModificationError::OrderNotFound));
}

#[test]
fn markets_are_found_by_pair() {
    let mut markets = Markets::new();
    assert!(!markets.contains(&PAIR));
    assert_eq!(markets.add_market(PAIR), Ok(()));
    assert_eq!(markets.add_market(PAIR), Err(MarketCreationError::MarketAlreadyExists));
    let other = AssetIdPair { primary: 1, secondary: 0 };
    assert_eq!(markets.add_market(other), Ok(()));
    assert!(markets.contains(&PAIR));
    assert_eq!(markets.position(&other), Some(1));
    assert_eq!(markets.get(&other).unwrap().asset_pair, other);
    assert!(markets.get(&AssetIdPair { primary: 2, secondary: 0 }).is_none());
    let mut txs: ObTransactionBuffer = Vec::new();
    markets.get_mut(&other).unwrap().insert_order(limit(0, 1, Side::Bid, 4, 50), &mut txs).unwrap();
    assert_eq!(markets.get(&other).unwrap().get_l1().best_bid, Some(level(50, 4)));
    assert_eq!(markets.get(&PAIR).unwrap().get_l1().best_bid, None);
    assert!(markets.get_mut(&AssetIdPair { primary: 2, secondary: 0 }).is_none());
}
