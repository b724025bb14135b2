use backend::errors::{
    MarketCreationError, OrderCancellationError, OrderInsertionError, OrderModificationError,
};
use backend::exchange::{Command, CommandResult, Exchange};
use backend::exchange_client::{balance_result, insertion_result};
use backend::market::{OrderExecutionStatus, OrderInsertionEffects, OrderInsertionResult};
use backend::order::{
    OrderCancellationRequest, OrderInsertionRequest, OrderModificationRequest, OrderType, Side,
};
use backend::asset::AssetIdPair;
use backend::util::exchange_configs::market_eur_usd_accs_2;
use backend::util::types::{AccountId, AssetId, Balance, Price};
use fixed::types::I33F31;

fn lit(s: &str) -> Price {
    I33F31::lit(s).to_bits()
}

fn units(n: i64) -> Balance {
    I33F31::from_num(n).to_bits()
}

fn insert_order(exchange: &mut Exchange, req: OrderInsertionRequest) -> OrderInsertionResult {
    let result = exchange.handle_command(Command::OrderInsert(req), 0);
    insertion_result(&vec![result])
}

fn get_balance(exchange: &mut Exchange, account: AccountId, asset: AssetId) -> Option<Balance> {
    let result = exchange.handle_command(Command::GetBalance(account, asset), 0);
    balance_result(&vec![result])
}

/// Place two limit asks at different price levels, one limit bid that should
/// consume both. Check that balances reflect expected amounts.
#[test]
fn buy_sell_limit() {
    let (mut exchange, mut pairs, mut accounts) = market_eur_usd_accs_2();

    let acc_id_1 = accounts.pop().unwrap();
    let acc_id_2 = accounts.pop().unwrap();
    let pair = pairs.pop().unwrap();

    let price: Price = lit("0.85");
    insert_order(&mut exchange, OrderInsertionRequest {
        account_id: acc_id_1,
        order_type: OrderType::Limit,
        pair,
        side: Side::Ask,
        volume: 5,
        price,
    })
    .unwrap();
    let price: Price = lit("0.86");
    insert_order(&mut exchange, OrderInsertionRequest {
        account_id: acc_id_1,
        order_type: OrderType::Limit,
        pair,
        side: Side::Ask,
        volume: 5,
        price,
    })
    .unwrap();
    let price: Price = lit("0.9");
    insert_order(&mut exchange, OrderInsertionRequest {
        account_id: acc_id_2,
        order_type: OrderType::Limit,
        pair,
        side: Side::Bid,
        volume: 20,
        price,
    })
    .unwrap();

    let bal_primary_1 = get_balance(&mut exchange, acc_id_1, pair.primary).unwrap();
    let bal_primary_2 = get_balance(&mut exchange, acc_id_2, pair.primary).unwrap();
    assert_eq!(bal_primary_1, -1 * bal_primary_2);

    let bal_secondary_1 = get_balance(&mut exchange, acc_id_1, pair.secondary).unwrap();
    let bal_secondary_2 = get_balance(&mut exchange, acc_id_2, pair.secondary).unwrap();
    assert_eq!(bal_secondary_1, -1 * bal_secondary_2);

    assert_eq!(bal_primary_1, units(-10));
    assert_eq!(
        bal_secondary_2,
        (-I33F31::lit("0.85") * 5 + -I33F31::lit("0.86") * 5).to_bits()
    );
}

/// Place two limit asks at different price levels, one market bid that should
/// consume both. Check that balances reflect expected amounts.
#[test]
fn buy_sell_market() {
    let (mut exchange, mut pairs, mut accounts) = market_eur_usd_accs_2();

    let acc_id_1 = accounts.pop().unwrap();
    let acc_id_2 = accounts.pop().unwrap();
    let pair = pairs.pop().unwrap();

    let price: Price = lit("0.85");
    insert_order(&mut exchange, OrderInsertionRequest {
        account_id: acc_id_1,
        order_type: OrderType::Limit,
        pair,
        side: Side::Ask,
        volume: 5,
        price,
    })
    .unwrap();
    let price: Price = lit("1000.0");
    insert_order(&mut exchange, OrderInsertionRequest {
        account_id: acc_id_1,
        order_type: OrderType::Limit,
        pair,
        side: Side::Ask,
        volume: 5,
        price,
    })
    .unwrap();
    let price: Price = lit("0.9");
    insert_order(&mut exchange, OrderInsertionRequest {
        account_id: acc_id_2,
        order_type: OrderType::Market,
        pair,
        side: Side::Bid,
        volume: 10,
        price,
    })
    .unwrap();

    let bal_primary_1 = get_balance(&mut exchange, acc_id_1, pair.primary).unwrap();
    let bal_primary_2 = get_balance(&mut exchange, acc_id_2, pair.primary).unwrap();
    assert_eq!(bal_primary_1, -1 * bal_primary_2);

    let bal_secondary_1 = get_balance(&mut exchange, acc_id_1, pair.secondary).unwrap();
    let bal_secondary_2 = get_balance(&mut exchange, acc_id_2, pair.secondary).unwrap();
    assert_eq!(bal_secondary_1, -1 * bal_secondary_2);

    assert_eq!(bal_primary_1, units(-10));
    assert_eq!(
        bal_secondary_2,
        (-I33F31::lit("0.85") * 5 + -I33F31::lit("1000.0") * 5).to_bits()
    );
}

/// Place and cancel single order, check that a cancelled order cannot be traded with.
#[test]
fn cancel_order() {
    let (mut exchange, mut pairs, mut accounts) = market_eur_usd_accs_2();

    let acc_id_1 = accounts.pop().unwrap();
    let acc_id_2 = accounts.pop().unwrap();
    let pair = pairs.pop().unwrap();

    let price: Price = lit("0.85");
    let insertion_effects = insert_order(&mut exchange, OrderInsertionRequest {
        account_id: acc_id_1,
        order_type: OrderType::Limit,
        pair,
        side: Side::Ask,
        volume: 5,
        price,
    })
    .unwrap();

    let order_id = insertion_effects.id;

    let cancellation_req = Command::OrderCancel(OrderCancellationRequest {
        account_id: acc_id_1,
        order_id,
    });
    let res = exchange.handle_command(cancellation_req, 0);
    assert_eq!(res, CommandResult::OrderCancel(Ok(())));

    let _insertion_effects = insert_order(&mut exchange, OrderInsertionRequest {
        account_id: acc_id_2,
        order_type: OrderType::Limit,
        pair,
        side: Side::Bid,
        volume: 100,
        price,
    })
    .unwrap();

    let bal_primary_1 = get_balance(&mut exchange, acc_id_1, pair.primary).unwrap();
    let bal_primary_2 = get_balance(&mut exchange, acc_id_2, pair.primary).unwrap();
    assert_eq!(bal_primary_1, 0);
    assert_eq!(bal_primary_2, 0);
}

#[test]
fn modify_order() {
    let (mut exchange, mut pairs, mut accounts) = market_eur_usd_accs_2();

    let acc_id_1 = accounts.pop().unwrap();
    let acc_id_2 = accounts.pop().unwrap();
    let pair = pairs.pop().unwrap();

    let price: Price = lit("0.85");
    let insertion_effects = insert_order(&mut exchange, OrderInsertionRequest {
        account_id: acc_id_1,
        order_type: OrderType::Limit,
        pair,
        side: Side::Ask,
        volume: 5,
        price,
    })
    .unwrap();

    let order_id = insertion_effects.id;

    let order_modification_req = Command::OrderModify(OrderModificationRequest {
        account_id: acc_id_1,
        order_id,
        new_volume: 3,
    });
    let command_result = exchange.handle_command(order_modification_req, 0);
    if let CommandResult::OrderModify(res) = command_result {
        assert_eq!(res, Ok(()));
    }

    let _insertion_effects = insert_order(&mut exchange, OrderInsertionRequest {
        account_id: acc_id_2,
        order_type: OrderType::Limit,
        pair,
        side: Side::Bid,
        volume: 100,
        price,
    })
    .unwrap();

    let bal_primary_1 = get_balance(&mut exchange, acc_id_1, pair.primary).unwrap();
    let bal_primary_2 = get_balance(&mut exchange, acc_id_2, pair.primary).unwrap();
    assert_eq!(bal_primary_1, units(-3));
    assert_eq!(bal_primary_2, units(3));
}

fn limit(account_id: AccountId, pair: AssetIdPair, side: Side, volume: u32, price: &str) -> OrderInsertionRequest {
    OrderInsertionRequest { account_id, order_type: OrderType::Limit, pair, side, volume, price: lit(price) }
}

#[test]
fn insertion_errors_of_the_exchange() {
    let (mut exchange, pairs, _accounts) = market_eur_usd_accs_2();
    let pair = pairs[0];
    let missing = AssetIdPair { primary: 1, secondary: 0 };
    assert_eq!(
        insert_order(&mut exchange, limit(0, missing, Side::Ask, 5, "1.0")),
        Err(OrderInsertionError::MarketDoesNotExist)
    );
    assert_eq!(
        insert_order(&mut exchange, limit(7, pair, Side::Ask, 5, "1.0")),
        Err(OrderInsertionError::AccountDoesNotExist)
    );
    insert_order(&mut exchange, limit(0, pair, Side::Ask, 5, "1.0")).unwrap();
    assert_eq!(
        insert_order(&mut exchange, limit(0, pair, Side::Bid, 5, "1.0")),
        Err(OrderInsertionError::SelfTrade)
    );
    let fok = OrderInsertionRequest { order_type: OrderType::FillOrKill, ..limit(1, pair, Side::Bid, 6, "1.0") };
    assert_eq!(insert_order(&mut exchange, fok), Err(OrderInsertionError::OrderKilled));
    let market = OrderInsertionRequest { order_type: OrderType::Market, ..limit(1, pair, Side::Bid, 6, "1.0") };
    assert_eq!(insert_order(&mut exchange, market), Err(OrderInsertionError::InadequateVolume));
    // Refused orders get no id: the next accepted order has id 1.
    assert_eq!(
        insert_order(&mut exchange, limit(1, pair, Side::Bid, 2, "0.5")),
        Ok(OrderInsertionEffects { id: 1, status: OrderExecutionStatus::AwaitingFill })
    );
    assert_eq!(
        insert_order(&mut exchange, limit(1, pair, Side::Bid, 5, "1.0")),
        Ok(OrderInsertionEffects { id: 2, status: OrderExecutionStatus::Filled })
    );
}

#[test]
fn cancellation_errors_of_the_exchange() {
    let (mut exchange, pairs, _accounts) = market_eur_usd_accs_2();
    let pair = pairs[0];
    let cancel = |account_id: AccountId, order_id: usize| {
        Command::OrderCancel(OrderCancellationRequest { account_id, order_id })
    };
    assert_eq!(
        exchange.handle_command(cancel(0, 0), 0),
        CommandResult::OrderCancel(Err(OrderCancellationError::OrderDoesNotExist))
    );
    insert_order(&mut exchange, limit(0, pair, Side::Ask, 5, "1.0")).unwrap();
    assert_eq!(
        exchange.handle_command(cancel(1, 0), 0),
        CommandResult::OrderCancel(Err(OrderCancellationError::Unauthorized))
    );
    assert_eq!(exchange.handle_command(cancel(0, 0), 0), CommandResult::OrderCancel(Ok(())));
    assert_eq!(
        exchange.handle_command(cancel(0, 0), 0),
        CommandResult::OrderCancel(Err(OrderCancellationError::AlreadyCancelled))
    );
    insert_order(&mut exchange, limit(0, pair, Side::Ask, 5, "1.0")).unwrap();
    insert_order(&mut exchange, limit(1, pair, Side::Bid, 5, "1.0")).unwrap();
    assert_eq!(
        exchange.handle_command(cancel(0, 1), 0),
        CommandResult::OrderCancel(Err(OrderCancellationError::AlreadyFilled))
    );
}

#[test]
fn modification_errors_of_the_exchange() {
    let (mut exchange, pairs, _accounts) = market_eur_usd_accs_2();
    let pair = pairs[0];
    let modify = |account_id: AccountId, order_id: usize, new_volume: u32| {
        Command::OrderModify(OrderModificationRequest { account_id, order_id, new_volume })
    };
    assert_eq!(
        exchange.handle_command(modify(0, 0, 1), 0),
        CommandResult::OrderModify(Err(OrderModificationError::OrderDoesNotExist))
    );
    insert_order(&mut exchange, limit(0, pair, Side::Ask, 5, "1.0")).unwrap();
    assert_eq!(
        exchange.handle_command(modify(1, 0, 1), 0),
        CommandResult::OrderModify(Err(OrderModificationError::Unauthorized))
    );
    assert_eq!(
        exchange.handle_command(modify(0, 0, 6), 0),
        CommandResult::OrderModify(Err(OrderModificationError::VolumeNotLower))
    );
    assert_eq!(
        exchange.handle_command(modify(0, 0, 5), 0),
        CommandResult::OrderModify(Err(OrderModificationError::VolumeNotLower))
    );
    // Lowering to nothing takes the order out of the book; its volume is
    // then nothing, which cannot be lowered.
    assert_eq!(exchange.handle_command(modify(0, 0, 0), 0), CommandResult::OrderModify(Ok(())));
    assert_eq!(
        exchange.handle_command(modify(0, 0, 0), 0),
        CommandResult::OrderModify(Err(OrderModificationError::VolumeNotLower))
    );
    // A cancelled order no longer rests in the book.
    insert_order(&mut exchange, limit(0, pair, Side::Ask, 5, "1.0")).unwrap();
    assert_eq!(
        exchange.handle_command(Command::OrderCancel(OrderCancellationRequest { account_id: 0, order_id: 1 }), 0),
        CommandResult::OrderCancel(Ok(()))
    );
    assert_eq!(
        exchange.handle_command(modify(0, 1, 1), 0),
        CommandResult::OrderModify(Err(OrderModificationError::OrderNotFound))
    );
    insert_order(&mut exchange, limit(0, pair, Side::Ask, 5, "1.0")).unwrap();
    insert_order(&mut exchange, limit(1, pair, Side::Bid, 5, "1.0")).unwrap();
    assert_eq!(
        exchange.handle_command(modify(0, 2, 1), 0),
        CommandResult::OrderModify(Err(OrderModificationError::AlreadyFilled))
    );
}

#[test]
fn market_creation_errors_of_the_exchange() {
    let (mut exchange, pairs, _accounts) = market_eur_usd_accs_2();
    assert_eq!(
        exchange.handle_command(Command::AddMarket(pairs[0]), 0),
        CommandResult::AddMarket(Err(MarketCreationError::MarketAlreadyExists))
    );
    assert_eq!(
        exchange.handle_command(Command::AddMarket(AssetIdPair { primary: 0, secondary: 9 }), 0),
        CommandResult::AddMarket(Err(MarketCreationError::AssetNotTraded))
    );
    assert_eq!(
        exchange.handle_command(Command::AddMarket(AssetIdPair { primary: 1, secondary: 0 }), 0),
        CommandResult::AddMarket(Ok(()))
    );
}

/// Every trade moves value between two accounts: in every asset the balances
/// of all accounts add up to zero.
#[test]
fn balances_sum_to_zero_after_trades() {
    let (mut exchange, pairs, accounts) = market_eur_usd_accs_2();
    let pair = pairs[0];
    insert_order(&mut exchange, limit(0, pair, Side::Ask, 7, "1.25")).unwrap();
    insert_order(&mut exchange, limit(0, pair, Side::Ask, 3, "1.5")).unwrap();
    insert_order(&mut exchange, limit(1, pair, Side::Bid, 9, "1.5")).unwrap();
    insert_order(&mut exchange, limit(0, pair, Side::Bid, 2, "0.75")).unwrap();
    insert_order(&mut exchange, limit(1, pair, Side::Ask, 4, "0.5")).unwrap();
    for asset in [pair.primary, pair.secondary] {
        let total: i64 = accounts
            .iter()
            .map(|a| get_balance(&mut exchange, *a, asset).unwrap())
            .sum();
        assert_eq!(total, 0);
    }
    assert_eq!(get_balance(&mut exchange, 1, pair.primary), Some(units(9 - 2)));
}

#[test]
fn balance_of_missing_account_or_asset() {
    let (mut exchange, pairs, _accounts) = market_eur_usd_accs_2();
    let pair = pairs[0];
    insert_order(&mut exchange, limit(0, pair, Side::Ask, 2, "1.5")).unwrap();
    insert_order(&mut exchange, limit(1, pair, Side::Bid, 2, "1.5")).unwrap();
    assert_eq!(get_balance(&mut exchange, 1, 1), Some(lit("-3.0")));
    // Balances lie asset after asset: account 2 of EUR is the place of
    // account 0 of USD, and account 3 of EUR that of account 1 of USD.
    assert_eq!(get_balance(&mut exchange, 2, 0), Some(lit("3.0")));
    assert_eq!(get_balance(&mut exchange, 3, 0), Some(lit("-3.0")));
    assert_eq!(get_balance(&mut exchange, 4, 0), None);
    assert_eq!(get_balance(&mut exchange, 0, 2), None);
}

#[test]
fn orderbook_views_of_the_exchange() {
    let (mut exchange, pairs, _accounts) = market_eur_usd_accs_2();
    let pair = pairs[0];
    insert_order(&mut exchange, limit(0, pair, Side::Ask, 7, "1.25")).unwrap();
    insert_order(&mut exchange, limit(0, pair, Side::Ask, 3, "1.5")).unwrap();
    insert_order(&mut exchange, limit(1, pair, Side::Bid, 2, "1.0")).unwrap();
    match exchange.handle_command(Command::GetOrderbookL1(pair), 0) {
        CommandResult::GetOrderbookL1(Ok(l1)) => {
            assert_eq!(l1.best_ask.unwrap().price, lit("1.25"));
            assert_eq!(l1.best_ask.unwrap().volume, 7);
            assert_eq!(l1.best_bid.unwrap().price, lit("1.0"));
            assert_eq!(l1.best_bid.unwrap().volume, 2);
        }
        other => panic!("unexpected result {:?}", other),
    }
    match exchange.handle_command(Command::GetOrderbookL2(pair), 0) {
        CommandResult::GetOrderbookL2(Ok(l2)) => {
            assert_eq!(l2.asks.len(), 2);
            assert_eq!(l2.asks[0].price, lit("1.25"));
            assert_eq!(l2.asks[1].price, lit("1.5"));
            assert_eq!(l2.bids.len(), 1);
        }
        other => panic!("unexpected result {:?}", other),
    }
    let missing = AssetIdPair { primary: 1, secondary: 0 };
    assert!(matches!(
        exchange.handle_command(Command::GetOrderbookL1(missing), 0),
        CommandResult::GetOrderbookL1(Err(_))
    ));
    match exchange.handle_command(Command::GetAllOrderbookL1(), 0) {
        CommandResult::GetAllOrderbookL1(all) => {
            assert_eq!(all.len(), 1);
            assert_eq!(all[0].0, pair);
        }
        other => panic!("unexpected result {:?}", other),
    }
    match exchange.handle_command(Command::GetAssets(), 0) {
        CommandResult::GetAssets(assets) => {
            assert_eq!(assets.len(), 2);
            assert_eq!(assets[0].symbol, "EUR");
            assert_eq!(assets[1].symbol, "USD");
        }
        other => panic!("unexpected result {:?}", other),
    }
}

#[test]
fn recent_transactions_of_the_exchange() {
    let (mut exchange, pairs, _accounts) = market_eur_usd_accs_2();
    let pair = pairs[0];
    insert_order(&mut exchange, limit(0, pair, Side::Ask, 2, "1.0")).unwrap();
    insert_order(&mut exchange, limit(0, pair, Side::Ask, 2, "2.0")).unwrap();
    exchange.handle_command(Command::OrderInsert(limit(1, pair, Side::Bid, 4, "2.0")), 42);
    match exchange.handle_command(Command::GetLast100Transactions(), 0) {
        CommandResult::GetLast100Transactions(txs) => {
            assert_eq!(txs.len(), 2);
            // The last transaction of an insertion is settled first.
            assert_eq!(txs[0].price, lit("2.0"));
            assert_eq!(txs[1].price, lit("1.0"));
            assert_eq!(txs[0].maker, 0);
            assert_eq!(txs[0].taker, 1);
            assert_eq!(txs[0].taker_side, Side::Bid);
            assert_eq!(txs[0].timestamp_ms, 42);
        }
        other => panic!("unexpected result {:?}", other),
    }
}

#[test]
fn accounts_and_assets_of_a_new_exchange() {
    let mut exchange = Exchange::new();
    assert_eq!(exchange.create_account(), 0);
    assert_eq!(exchange.create_account_with_name(String::from("alice")), 1);
    assert_eq!(exchange.add_asset("Euro", "EUR"), 0);
    assert!(exchange.is_traded_asset(0));
    assert!(!exchange.is_traded_asset(1));
    assert_eq!(exchange.add_market(AssetIdPair { primary: 0, secondary: 1 }), Err(MarketCreationError::AssetNotTraded));
    assert_eq!(get_balance(&mut exchange, 1, 0), Some(0));
}

/// Orders that cross trade; what rests leaves every bid below every ask.
#[test]
fn books_stay_uncrossed() {
    let (mut exchange, pairs, _accounts) = market_eur_usd_accs_2();
    let pair = pairs[0];
    insert_order(&mut exchange, limit(0, pair, Side::Ask, 5, "1.0")).unwrap();
    insert_order(&mut exchange, limit(1, pair, Side::Bid, 3, "1.2")).unwrap();
    insert_order(&mut exchange, limit(1, pair, Side::Bid, 4, "0.9")).unwrap();
    insert_order(&mut exchange, limit(0, pair, Side::Ask, 2, "0.8")).unwrap();
    insert_order(&mut exchange, limit(0, pair, Side::Ask, 1, "0.95")).unwrap();
    match exchange.handle_command(Command::GetOrderbookL1(pair), 0) {
        CommandResult::GetOrderbookL1(Ok(l1)) => {
            let bid = l1.best_bid.unwrap();
            let ask = l1.best_ask.unwrap();
            assert_eq!((bid.price, bid.volume), (lit("0.9"), 2));
            assert_eq!((ask.price, ask.volume), (lit("0.95"), 1));
            assert!(bid.price < ask.price);
        }
        other => panic!("unexpected result {:?}", other),
    }
}

/// Cancelling twice: the second time is refused and changes nothing.
#[test]
fn second_cancellation_is_refused() {
    let (mut exchange, pairs, _accounts) = market_eur_usd_accs_2();
    let pair = pairs[0];
    insert_order(&mut exchange, limit(0, pair, Side::Ask, 5, "1.0")).unwrap();
    let cancel = Command::OrderCancel(OrderCancellationRequest { account_id: 0, order_id: 0 });
    assert_eq!(exchange.handle_command(cancel, 0), CommandResult::OrderCancel(Ok(())));
    assert_eq!(
        exchange.handle_command(cancel, 0),
        CommandResult::OrderCancel(Err(OrderCancellationError::AlreadyCancelled))
    );
    match exchange.handle_command(Command::GetOrderbookL1(pair), 0) {
        CommandResult::GetOrderbookL1(Ok(l1)) => assert_eq!(l1.best_ask, None),
        other => panic!("unexpected result {:?}", other),
    }
}

fn l2_of(exchange: &mut Exchange, pair: AssetIdPair) -> backend::orderbook::OrderbookL2 {
    match exchange.handle_command(Command::GetOrderbookL2(pair), 0) {
        CommandResult::GetOrderbookL2(Ok(l2)) => l2,
        other => panic!("unexpected result {:?}", other),
    }
}

#[test]
fn cancelled_order_leaves_the_book() {
    let (mut exchange, pairs, _accounts) = market_eur_usd_accs_2();
    let pair = pairs[0];
    insert_order(&mut exchange, limit(0, pair, Side::Bid, 4, "1.0")).unwrap();
    insert_order(&mut exchange, limit(0, pair, Side::Bid, 6, "1.0")).unwrap();
    let cancel = Command::OrderCancel(OrderCancellationRequest { account_id: 0, order_id: 1 });
    assert_eq!(exchange.handle_command(cancel, 0), CommandResult::OrderCancel(Ok(())));
    let l2 = l2_of(&mut exchange, pair);
    assert_eq!(l2.bids.len(), 1);
    assert_eq!(l2.bids[0].volume, 4);
    let cancel_first = Command::OrderCancel(OrderCancellationRequest { account_id: 0, order_id: 0 });
    assert_eq!(exchange.handle_command(cancel_first, 0), CommandResult::OrderCancel(Ok(())));
    assert_eq!(l2_of(&mut exchange, pair).bids.len(), 0);
}

#[test]
fn lowering_below_the_filled_volume_fills_the_order() {
    let (mut exchange, pairs, _accounts) = market_eur_usd_accs_2();
    let pair = pairs[0];
    insert_order(&mut exchange, limit(0, pair, Side::Bid, 10, "1.0")).unwrap();
    insert_order(&mut exchange, limit(1, pair, Side::Ask, 6, "1.0")).unwrap();
    assert_eq!(l2_of(&mut exchange, pair).bids[0].volume, 4);
    let modify = Command::OrderModify(OrderModificationRequest { account_id: 0, order_id: 0, new_volume: 5 });
    assert_eq!(exchange.handle_command(modify, 0), CommandResult::OrderModify(Ok(())));
    assert_eq!(l2_of(&mut exchange, pair).bids.len(), 0);
    let again = Command::OrderModify(OrderModificationRequest { account_id: 0, order_id: 0, new_volume: 2 });
    assert_eq!(
        exchange.handle_command(again, 0),
        CommandResult::OrderModify(Err(OrderModificationError::AlreadyFilled))
    );
}

#[test]
fn lowering_above_the_filled_volume_keeps_what_remains() {
    let (mut exchange, pairs, _accounts) = market_eur_usd_accs_2();
    let pair = pairs[0];
    insert_order(&mut exchange, limit(0, pair, Side::Bid, 10, "1.0")).unwrap();
    insert_order(&mut exchange, limit(1, pair, Side::Ask, 3, "1.0")).unwrap();
    let modify = Command::OrderModify(OrderModificationRequest { account_id: 0, order_id: 0, new_volume: 5 });
    assert_eq!(exchange.handle_command(modify, 0), CommandResult::OrderModify(Ok(())));
    let l2 = l2_of(&mut exchange, pair);
    assert_eq!(l2.bids.len(), 1);
    assert_eq!(l2.bids[0].volume, 2);
    insert_order(&mut exchange, limit(1, pair, Side::Ask, 9, "1.0")).unwrap();
    let l2 = l2_of(&mut exchange, pair);
    assert_eq!(l2.bids.len(), 0);
    assert_eq!(l2.asks[0].volume, 7);
    assert_eq!(get_balance(&mut exchange, 0, pair.primary), Some(units(5)));
}

#[test]
fn lowering_a_cancelled_order_is_refused() {
    let (mut exchange, pairs, _accounts) = market_eur_usd_accs_2();
    let pair = pairs[0];
    insert_order(&mut exchange, limit(0, pair, Side::Ask, 5, "1.0")).unwrap();
    let cancel = Command::OrderCancel(OrderCancellationRequest { account_id: 0, order_id: 0 });
    assert_eq!(exchange.handle_command(cancel, 0), CommandResult::OrderCancel(Ok(())));
    let modify = Command::OrderModify(OrderModificationRequest { account_id: 0, order_id: 0, new_volume: 2 });
    assert_eq!(
        exchange.handle_command(modify, 0),
        CommandResult::OrderModify(Err(OrderModificationError::OrderNotFound))
    );
}
