use backend::asset::{Asset, AssetIdPair, AssetPair, AssetPairSymbolic, NewAsset};
use backend::balance_book::BalanceBook;
use backend::balance_manager::{self, CommandResultBuffer};
use backend::errors::{MarketCreationError, OrderInsertionError};
use backend::exchange::{CommandResult, RecentTransactions, Transaction};
use backend::exchange_client::{balance_result, insertion_result};
use backend::market::{OrderExecutionStatus, OrderInsertionEffects};
use backend::market::Market;
use backend::market_handler::{handle_market_command, MarketHandlers};
use backend::mp_command_decoder::{MpCommandDecoder, MAX_CMD_BUF_SIZE};
use backend::order::{
    OrderCancellation, OrderCancellationRequest, OrderInsertionRequest, OrderModification,
    OrderModificationRequest, OrderType, PlacedOrder, Side,
};
use backend::util::exchange_configs::{
    custom, custom_checked, exchange_eur_usd_market, exchange_eur_usd_market_2_accs, market_eur_usd,
    markets_5_accs_5,
};
use backend::util::format_exact_width::{pad_left, pad_right};
use backend::util::mp_command_codec::{encode_frame, frame_status, FrameError, FrameStatus, MpCommandCodec};

fn new_asset(name: &str, symbol: &str) -> NewAsset {
    NewAsset { name: String::from(name), symbol: String::from(symbol) }
}

fn symbolic(primary: &str, secondary: &str) -> AssetPairSymbolic {
    AssetPairSymbolic { primary: String::from(primary), secondary: String::from(secondary) }
}

#[test]
fn balance_book_transfers_and_changes() {
    let mut book = BalanceBook::new();
    assert_eq!(book.get(0, 0), None);
    assert_eq!(book.add_account(), 0);
    assert_eq!(book.add_account(), 1);
    assert_eq!(book.add_asset(), 0);
    assert_eq!(book.get(1, 0), Some(0));
    book.transfer(0, 0, 1, 250);
    assert_eq!(book.get(0, 0), Some(-250));
    assert_eq!(book.get(1, 0), Some(250));
    *book.get_mut(1, 0).unwrap() += 50;
    assert_eq!(book.get(1, 0), Some(300));
    assert!(book.get_mut(2, 0).is_none());
    assert!(book.get_mut(0, 1).is_none());
    assert_eq!(book.get(2, 0), None);
    assert_eq!((book.num_accounts(), book.num_assets()), (2, 1));
    // A second asset: the balances lie asset after asset, and an account
    // past the last one reaches the next asset.
    assert_eq!(book.add_asset(), 1);
    book.transfer(1, 0, 1, 5);
    assert_eq!(book.get(2, 0), Some(-5));
    assert_eq!(book.get(3, 0), Some(5));
    assert_eq!(book.get(4, 0), None);
    assert_eq!(book.get(0, 2), None);
    *book.get_mut(2, 0).unwrap() += 1;
    assert_eq!(book.get(0, 1), Some(-4));
}

#[test]
fn balance_manager_answers_each_command() {
    let mut book = BalanceBook::new();
    let mut responses: CommandResultBuffer = CommandResultBuffer::new();
    balance_manager::handle_command(balance_manager::Command::AddAccount(), &mut responses, &mut book);
    balance_manager::handle_command(balance_manager::Command::AddAsset(), &mut responses, &mut book);
    balance_manager::handle_command(balance_manager::Command::BalanceChange(0, 0, 7), &mut responses, &mut book);
    balance_manager::handle_command(balance_manager::Command::BalanceChange(1, 0, 7), &mut responses, &mut book);
    balance_manager::handle_command(balance_manager::Command::GetBalance(0, 0), &mut responses, &mut book);
    // Balance changes wrap.
    balance_manager::handle_command(balance_manager::Command::BalanceChange(0, 0, i64::MAX), &mut responses, &mut book);
    balance_manager::handle_command(balance_manager::Command::GetBalance(0, 0), &mut responses, &mut book);
    balance_manager::handle_command(balance_manager::Command::GetBalance(0, 3), &mut responses, &mut book);
    let responses: Vec<_> = responses.into_iter().collect();
    assert_eq!(responses, vec![
        balance_manager::CommandResult::AddAccount(0),
        balance_manager::CommandResult::AddAsset(0),
        balance_manager::CommandResult::BalanceChange(Ok(())),
        balance_manager::CommandResult::BalanceChange(Err(())),
        balance_manager::CommandResult::GetBalance(Some(7)),
        balance_manager::CommandResult::BalanceChange(Ok(())),
        balance_manager::CommandResult::GetBalance(Some(7i64.wrapping_add(i64::MAX))),
        balance_manager::CommandResult::GetBalance(None),
    ]);
}

#[test]
fn frames_are_read_back() {
    let framed = encode_frame(&[0xab, 0xcd]).unwrap();
    assert_eq!(framed, vec![0x00, 0x02, 0xab, 0xcd]);
    let mut stream = framed.clone();
    stream.extend_from_slice(&[0x00, 0x05, 0x12]);
    assert_eq!(frame_status(&stream), FrameStatus::Complete { len: 2 });
    assert_eq!(&stream[2..4], &[0xab, 0xcd]);
    assert_eq!(frame_status(&stream[4..]), FrameStatus::Incomplete { missing: 4 });
    assert_eq!(frame_status(&stream[6..]), FrameStatus::NoLength);
    let long = vec![7u8; 300];
    let framed = encode_frame(&long).unwrap();
    assert_eq!(framed[0], 1);
    assert_eq!(framed[1], 44);
    assert_eq!(frame_status(&framed), FrameStatus::Complete { len: 300 });
    assert_eq!(frame_status(&framed[..100]), FrameStatus::Incomplete { missing: 202 });
}

#[test]
fn frame_too_long_is_refused() {
    let payload = vec![0u8; 65536];
    assert_eq!(encode_frame(&payload), Err(FrameError::MessageTooLong));
    assert!(encode_frame(&payload[..65535]).is_ok());
    let _codec = MpCommandCodec::new();
}

#[test]
fn decoder_reads_frames() {
    let decoder = MpCommandDecoder {};
    assert_eq!(decoder.frame(&[0x00]), FrameStatus::NoLength);
    assert_eq!(decoder.frame(&[0x00, 0x01, 0xff, 0x00]), FrameStatus::Complete { len: 1 });
    assert_eq!(decoder.frame(&[0x01, 0x00, 0xff]), FrameStatus::Incomplete { missing: 255 });
    assert_eq!(MAX_CMD_BUF_SIZE, 1024);
}

#[test]
fn padding_counts_bytes() {
    assert_eq!(pad_left("ab", 5), "   ab");
    assert_eq!(pad_right("ab", 5), "ab   ");
    assert_eq!(pad_left("abcdef", 3), "abcdef");
    assert_eq!(pad_right("abc", 3), "abc");
    // "é" takes two bytes.
    assert_eq!(pad_left("é", 4), "  é");
    assert_eq!(pad_right("é", 4), "é  ");
}

#[test]
fn custom_setup_resolves_symbols_in_uppercase() {
    let assets = vec![new_asset("Euro", "eur"), new_asset("United States Dollar", "Usd"), new_asset("Yen", "JPY")];
    let markets = vec![symbolic("EUR", "usd"), symbolic("jpy", "Eur")];
    let (exchange, pairs, accounts) = custom(assets, markets, 3);
    assert_eq!(pairs, vec![AssetIdPair { primary: 0, secondary: 1 }, AssetIdPair { primary: 2, secondary: 0 }]);
    assert_eq!(accounts, vec![0, 1, 2]);
    let mut exchange = exchange;
    match exchange.handle_command(backend::exchange::Command::GetAssets(), 0) {
        CommandResult::GetAssets(assets) => {
            let symbols: Vec<String> = assets.iter().map(|a| a.symbol.clone()).collect();
            assert_eq!(symbols, vec!["EUR", "USD", "JPY"]);
            assert_eq!(assets[1].name, "United States Dollar");
        }
        other => panic!("unexpected result {:?}", other),
    }
}

#[test]
fn custom_setup_refuses_unknown_symbols_and_repeats() {
    let assets = || vec![new_asset("Euro", "EUR"), new_asset("United States Dollar", "USD")];
    assert!(custom_checked(assets(), vec![symbolic("EUR", "GBP")], 1).is_none());
    assert!(custom_checked(assets(), vec![symbolic("EUR", "USD"), symbolic("eur", "usd")], 1).is_none());
    assert!(custom_checked(assets(), vec![symbolic("EUR", "USD")], 1).is_some());
}

#[test]
fn prepared_exchanges() {
    let (mut exchange, pair) = exchange_eur_usd_market();
    assert_eq!(pair, AssetIdPair { primary: 0, secondary: 1 });
    assert_eq!(
        exchange.handle_command(backend::exchange::Command::GetBalance(1, 0), 0),
        CommandResult::GetBalance(Some(0))
    );
    assert_eq!(
        exchange.handle_command(backend::exchange::Command::GetBalance(0, 2), 0),
        CommandResult::GetBalance(None)
    );
    let (_exchange, pair, a, b) = exchange_eur_usd_market_2_accs();
    assert_eq!((pair, a, b), (AssetIdPair { primary: 0, secondary: 1 }, 0, 1));
    let (_exchange, pairs, accounts) = market_eur_usd();
    assert_eq!(pairs.len(), 1);
    assert!(accounts.is_empty());
    let (_exchange, pairs, accounts) = markets_5_accs_5();
    assert_eq!(pairs.len(), 5);
    assert_eq!(pairs, vec![
        AssetIdPair { primary: 0, secondary: 1 },
        AssetIdPair { primary: 0, secondary: 2 },
        AssetIdPair { primary: 0, secondary: 3 },
        AssetIdPair { primary: 1, secondary: 3 },
        AssetIdPair { primary: 1, secondary: 2 },
    ]);
    assert_eq!(accounts, vec![0, 1, 2, 3, 4]);
}

#[test]
fn market_handlers_balance_their_load() {
    let mut handlers: MarketHandlers<&str> = MarketHandlers::new();
    assert_eq!(handlers.least_loaded(), Err(MarketCreationError::NoMarketHandlers));
    handlers.add_handler("a");
    handlers.add_handler("b");
    let eur_usd = AssetIdPair { primary: 0, secondary: 1 };
    let jpy_usd = AssetIdPair { primary: 2, secondary: 1 };
    let k = handlers.least_loaded().unwrap();
    assert_eq!(k, 0);
    handlers.assign(k, eur_usd);
    assert_eq!(handlers.least_loaded(), Ok(1));
    handlers.assign(1, jpy_usd);
    assert!(handlers.contains_market(&eur_usd));
    assert!(handlers.contains_market(&AssetIdPair { primary: 1, secondary: 0 }));
    assert!(!handlers.contains_market(&AssetIdPair { primary: 0, secondary: 2 }));
    assert_eq!(handlers.get_handler(&jpy_usd), Some(&"b"));
    assert_eq!(handlers.get_handler(&AssetIdPair { primary: 1, secondary: 2 }), None);
}

fn transaction(timestamp_ms: u64) -> Transaction {
    Transaction {
        market: AssetIdPair { primary: 0, secondary: 1 },
        price: 1,
        volume: 1,
        taker_side: Side::Bid,
        maker: 0,
        taker: 1,
        timestamp_ms,
    }
}

/// The buffer keeps the most recent transactions, oldest first.
#[test]
fn recent_transactions_keep_the_last_ones() {
    let mut recent = RecentTransactions::with_capacity(3);
    assert!(recent.get().is_empty());
    for t in 0..5 {
        recent.push(transaction(t));
    }
    let kept: Vec<u64> = recent.get().iter().map(|t| t.timestamp_ms).collect();
    assert_eq!(kept, vec![2, 3, 4]);
    recent.push(transaction(5));
    let kept: Vec<u64> = recent.get().iter().map(|t| t.timestamp_ms).collect();
    assert_eq!(kept, vec![3, 4, 5]);
}

#[test]
fn client_results_are_picked_from_the_answers() {
    let ok = Ok(OrderInsertionEffects { id: 4, status: OrderExecutionStatus::Filled });
    assert_eq!(insertion_result(&vec![CommandResult::OrderInsert(ok)]), ok);
    assert_eq!(insertion_result(&vec![]), Err(OrderInsertionError::Other));
    assert_eq!(insertion_result(&vec![CommandResult::GetBalance(Some(1))]), Err(OrderInsertionError::Other));
    assert_eq!(balance_result(&vec![CommandResult::GetBalance(Some(9))]), Some(9));
    assert_eq!(balance_result(&vec![CommandResult::OrderInsert(ok)]), None);
    assert_eq!(balance_result(&vec![]), None);
}

#[test]
fn requests_are_completed_into_book_operations() {
    let pair = AssetIdPair { primary: 0, secondary: 1 };
    let req = OrderInsertionRequest { account_id: 3, order_type: OrderType::Limit, pair, side: Side::Ask, volume: 8, price: 12 };
    let ins = req.into_insertion(5);
    assert_eq!((ins.id, ins.account_id, ins.volume, ins.price), (5, 3, 8, 12));
    let placed = PlacedOrder::from_insertion(&ins);
    assert_eq!(placed.remaining_volume, 8);
    assert_eq!(placed.status, OrderExecutionStatus::AwaitingFill);
    let c = OrderCancellationRequest { account_id: 3, order_id: 5 }.into_cancellation(pair, Side::Ask, 12);
    assert_eq!(c, OrderCancellation { pair, order_id: 5, side: Side::Ask, price: 12 });
    let m = OrderModificationRequest { account_id: 3, order_id: 5, new_volume: 2 }.into_order_modification(pair, Side::Ask, 12, 8);
    assert_eq!(m, OrderModification { pair, order_id: 5, volume_reduction: 6, side: Side::Ask, price: 12 });
    let asset = Asset { id: 1, name: String::from("Euro"), symbol: String::from("EUR") };
    assert_eq!(asset.duplicate(), asset);
    let usd = Asset { id: 0, name: String::from("United States Dollar"), symbol: String::from("USD") };
    assert_eq!(AssetPair { primary: asset, secondary: usd }.to_string(), "EUR/USD");
}

/// A buffer of capacity 2 given x, y, z keeps y, z.
#[test]
fn recent_transactions_small_capacity() {
    let mut recent = RecentTransactions::with_capacity(2);
    for t in [10, 11, 12] {
        recent.push(transaction(t));
    }
    let kept: Vec<u64> = recent.get().iter().map(|t| t.timestamp_ms).collect();
    assert_eq!(kept, vec![11, 12]);
}

/// Padding again changes nothing, and the width is the larger of the two.
#[test]
fn padding_twice_changes_nothing() {
    let once = pad_left("abc", 6);
    assert_eq!(pad_left(&once, 6), once);
    assert_eq!(once.len(), 6);
    let once = pad_right("é", 5);
    assert_eq!(pad_right(&once, 5), once);
    assert_eq!(once.len(), 5);
    assert_eq!(pad_left("abcdefg", 6).len(), 7);
}

fn fixed(n: i64, halves: i64) -> i64 {
    n * (1i64 << 31) + halves * (1i64 << 30)
}

fn handler_limit(account_id: u32, pair: AssetIdPair, side: Side, volume: u32, price: i64) -> backend::market_handler::Command {
    backend::market_handler::Command::OrderInsert(OrderInsertionRequest {
        account_id,
        order_type: OrderType::Limit,
        pair,
        side,
        volume,
        price,
    })
}

#[test]
fn market_handler_takes_orders_and_reports_balance_changes() {
    let pair = AssetIdPair { primary: 0, secondary: 1 };
    let mut markets: Vec<Market> = Vec::new();
    let mut orders: Vec<PlacedOrder> = Vec::new();

    let (missing, changes) = handle_market_command(&mut markets, &mut orders, handler_limit(0, pair, Side::Bid, 10, fixed(2, 0)));
    assert_eq!(
        missing,
        backend::market_handler::CommandResult::OrderInsert(Err(OrderInsertionError::MarketDoesNotExist))
    );
    assert!(changes.is_empty());
    assert!(orders.is_empty());

    let (added, changes) = handle_market_command(&mut markets, &mut orders, backend::market_handler::Command::AddMarket(pair));
    assert_eq!(added, backend::market_handler::CommandResult::AddMarket(Ok(())));
    assert!(changes.is_empty());
    assert_eq!(markets.len(), 1);
    assert_eq!(markets[0].asset_pair, pair);

    let (resting, changes) = handle_market_command(&mut markets, &mut orders, handler_limit(0, pair, Side::Bid, 10, fixed(2, 0)));
    assert_eq!(
        resting,
        backend::market_handler::CommandResult::OrderInsert(Ok(OrderInsertionEffects { id: 0, status: OrderExecutionStatus::AwaitingFill }))
    );
    assert!(changes.is_empty());

    let (filled, changes) = handle_market_command(&mut markets, &mut orders, handler_limit(1, pair, Side::Ask, 4, fixed(1, 1)));
    assert_eq!(
        filled,
        backend::market_handler::CommandResult::OrderInsert(Ok(OrderInsertionEffects { id: 1, status: OrderExecutionStatus::Filled }))
    );
    assert_eq!(orders.len(), 2);
    assert_eq!(
        changes,
        vec![
            balance_manager::Command::BalanceChange(0, 0, fixed(4, 0)),
            balance_manager::Command::BalanceChange(0, 1, fixed(-8, 0)),
            balance_manager::Command::BalanceChange(1, 0, fixed(-4, 0)),
            balance_manager::Command::BalanceChange(1, 1, fixed(6, 0)),
        ]
    );
}
