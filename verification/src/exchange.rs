use vstd::prelude::*;
use std::collections::VecDeque;
use crate::asset::{Asset, AssetIdPair};
use crate::balance_book::{BalanceBook, spec_transfer};
use crate::errors::{GetOrderbookError, MarketCreationError, OrderCancellationError, OrderInsertionError, OrderModificationError};
use crate::market::{
    Market, MarketView, Markets, MarketCreationResult, OrderCancellationResult, OrderExecutionStatus,
    OrderInsertionEffects, OrderInsertionResult, OrderModificationResult, next_last_traded_price,
};
use crate::order::{OrderCancellationRequest, OrderInsertionRequest, OrderModificationRequest, PlacedOrder, Side};
use crate::orderbook::{
    GetOrderBookL1Result, GetOrderBookL2Result, ObTransaction, ObTransactionBuffer, OrderbookL1,
    OrderbookView, SpecLevel, spec_insert_order, spec_l1, l2_side, rests_at, last_occurrence,
    first_occurrence, reduce_at, remove_at, reduced_orders,
};
use crate::util::fixed_point::{fixed_wrapping_mul, volume_to_fixed, spec_fixed_wrapping_mul, spec_volume_to_fixed};
use crate::util::types::{AccountId, AssetId, Balance, OrderId, Price, Volume};
use crate::session::{fills_fit, records_match};

verus! {

/// The commands an exchange accepts.
#[derive(Debug, Clone, Copy, PartialEq, Eq, Structural)]
pub enum Command {
    OrderInsert(OrderInsertionRequest),
    OrderCancel(OrderCancellationRequest),
    OrderModify(OrderModificationRequest),
    AddMarket(AssetIdPair),
    GetBalance(AccountId, AssetId),
    GetOrderbookL1(AssetIdPair),
    GetOrderbookL2(AssetIdPair),
    GetAssets(),
    GetAllOrderbookL1(),
    GetLast100Transactions(),
}

/// The result of each command, in the variant of the command.
#[derive(Debug, PartialEq)]
pub enum CommandResult {
    OrderInsert(OrderInsertionResult),
    OrderCancel(OrderCancellationResult),
    OrderModify(OrderModificationResult),
    AddMarket(MarketCreationResult),
    GetBalance(Option<Balance>),
    GetOrderbookL1(GetOrderBookL1Result),
    GetOrderbookL2(GetOrderBookL2Result),
    GetAssets(Vec<Asset>),
    GetAllOrderbookL1(Vec<(AssetIdPair, OrderbookL1)>),
    GetLast100Transactions(Vec<Transaction>),
}

/// A buffer of commands.
pub type CommandBuffer = VecDeque<Command>;

/// A buffer of results from a CommandBuffer.
pub type CommandResultBuffer = Vec<CommandResult>;

/// A settled trade.
#[derive(Debug, Clone, Copy, PartialEq, Eq, Structural)]
pub struct Transaction {
    pub market: AssetIdPair,
    pub price: Price,
    pub volume: Volume,
    pub taker_side: Side,
    pub maker: AccountId,
    pub taker: AccountId,
    pub timestamp_ms: u64,
}

/// A ring buffer of the most recent transactions.
pub struct RecentTransactions {
    inner: Vec<Transaction>,
    /// Where the next transaction is written once the buffer is full.
    write_idx: usize,
    capacity: usize,
}

/// The transactions kept by a ring buffer of capacity `cap` holding `v`
/// after `t` is pushed: the oldest one leaves when it is full.
pub open spec fn ring_push(v: Seq<Transaction>, cap: nat, t: Transaction) -> Seq<Transaction> {
    if v.len() < cap { v.push(t) } else { v.drop_first().push(t) }
}

/// The transactions kept by a ring buffer of capacity `cap` holding `v`
/// after each of `ts` is pushed, in order.
pub open spec fn ring_push_all(v: Seq<Transaction>, cap: nat, ts: Seq<Transaction>) -> Seq<Transaction>
    decreases ts.len(),
{
    if ts.len() == 0 { v } else { ring_push(ring_push_all(v, cap, ts.drop_last()), cap, ts.last()) }
}

/// A ring buffer of capacity `cap`, empty at first, keeps after any pushes
/// the last `min(n, cap)` of the `n` transactions pushed, oldest first.
pub proof fn law_ring_keeps_the_last(cap: nat, ts: Seq<Transaction>)
    requires
        cap > 0,
    ensures
        ring_push_all(Seq::empty(), cap, ts)
            == ts.subrange(if ts.len() > cap { ts.len() - cap } else { 0 }, ts.len() as int),
    decreases ts.len(),
{
    if ts.len() > 0 {
        let n = ts.len() as int;
        let prev = ts.drop_last();
        law_ring_keeps_the_last(cap, prev);
        let kept = ring_push_all(Seq::empty(), cap, prev);
        if kept.len() < cap {
            assert(kept.push(ts.last()) =~= ts.subrange(if n > cap { n - cap } else { 0 }, n));
        } else {
            assert(kept.drop_first().push(ts.last()) =~= ts.subrange(n - cap, n));
        }
    }
}

impl RecentTransactions {
    pub closed spec fn spec_capacity(&self) -> nat {
        self.capacity as nat
    }

    /// The kept transactions, oldest first.
    pub closed spec fn spec_recent(&self) -> Seq<Transaction> {
        self.inner@.subrange(self.write_idx as int, self.inner@.len() as int) + self.inner@.subrange(0, self.write_idx as int)
    }

    pub closed spec fn wf(&self) -> bool {
        &&& 0 < self.capacity
        &&& self.inner@.len() <= self.capacity
        &&& self.write_idx < self.capacity
        &&& self.write_idx <= self.inner@.len()
        &&& self.inner@.len() < self.capacity ==> self.write_idx == self.inner@.len()
    }

    /// A buffer never holds more transactions than its capacity, which is
    /// positive.
    pub proof fn law_within_capacity(&self)
        requires
            self.wf(),
        ensures
            self.spec_recent().len() <= self.spec_capacity(),
            self.spec_capacity() > 0,
    {
    }

    /// An empty buffer that keeps the last `capacity` transactions.
    pub fn with_capacity(capacity: usize) -> (r: RecentTransactions)
        requires
            capacity > 0,
        ensures
            r.wf(),
            r.spec_capacity() == capacity,
            r.spec_recent() == Seq::<Transaction>::empty(),
    {
        let r = RecentTransactions { inner: Vec::with_capacity(capacity), write_idx: 0, capacity };
        assert(r.spec_recent() =~= Seq::<Transaction>::empty());
        r
    }

    /// The kept transactions, oldest first.
    pub fn get(&self) -> (r: Vec<Transaction>)
        requires
            self.wf(),
        ensures
            r@ == self.spec_recent(),
    {
        let n = self.inner.len();
        let mut result: Vec<Transaction> = Vec::with_capacity(n);
        let mut i = self.write_idx;
        while i < n
            invariant
                self.write_idx <= i <= n,
                n == self.inner@.len(),
                result@ == self.inner@.subrange(self.write_idx as int, i as int),
            decreases n - i,
        {
            result.push(self.inner[i]);
            i = i + 1;
            assert(result@ =~= self.inner@.subrange(self.write_idx as int, i as int));
        }
        let ghost first = result@;
        let mut i: usize = 0;
        while i < self.write_idx
            invariant
                i <= self.write_idx <= n,
                n == self.inner@.len(),
                result@ == first + self.inner@.subrange(0, i as int),
            decreases self.write_idx - i,
        {
            result.push(self.inner[i]);
            i = i + 1;
            assert(result@ =~= first + self.inner@.subrange(0, i as int));
        }
        result
    }

    /// Keeps `transaction`; the oldest one leaves when the buffer is full.
    pub fn push(&mut self, transaction: Transaction)
        requires
            old(self).wf(),
        ensures
            final(self).wf(),
            final(self).spec_capacity() == old(self).spec_capacity(),
            final(self).spec_recent() == ring_push(old(self).spec_recent(), old(self).spec_capacity(), transaction),
    {
        let ghost v = self.spec_recent();
        let ghost inner0 = self.inner@;
        let cap = self.capacity;
        if self.inner.len() < cap {
            self.inner.push(transaction);
            assert(v =~= inner0);
        } else {
            self.inner.set(self.write_idx, transaction);
        }
        self.write_idx = if self.write_idx + 1 == cap { 0 } else { self.write_idx + 1 };
        proof {
            let inner1 = self.inner@;
            let w = self.write_idx as int;
            if inner0.len() < cap {
                if inner1.len() < cap {
                    assert(self.spec_recent() =~= inner1);
                } else {
                    assert(self.spec_recent() =~= inner1);
                }
                assert(inner1 =~= inner0.push(transaction));
            } else {
                let w0 = old(self).write_idx as int;
                assert(self.spec_recent() =~= v.drop_first().push(transaction)) by {
                    let r = self.spec_recent();
                    assert forall|k: int| 0 <= k < r.len() implies r[k] == v.drop_first().push(transaction)[k] by {
                        let n = inner0.len() as int;
                        if w0 + 1 < n {
                            assert(w == w0 + 1);
                            if k < n - w {
                                assert(r[k] == inner1[w + k]);
                                assert(v[k + 1] == inner0[w0 + 1 + k]);
                            } else if k < n - 1 {
                                assert(r[k] == inner1[k - (n - w)]);
                                if k - (n - w) < w0 {
                                    assert(v[k + 1] == inner0[k + 1 - (n - w0)]);
                                }
                            }
                        } else {
                            assert(w == 0);
                            assert(r[k] == inner1[k]);
                            if k < n - 1 {
                                assert(v[k + 1] == inner0[k + 1 - (n - w0)]);
                            }
                        }
                    }
                }
            }
        }
    }
}

/// An account of the exchange.
#[derive(Debug, Default)]
pub struct Account {
    id: AccountId,
    username: String,
}

/// The mathematical content of an exchange.
pub struct ExchangeView {
    /// The name of each account; an account's id is its index.
    pub account_names: Seq<Seq<char>>,
    /// The traded assets; an asset's id is its index.
    pub assets: Seq<Asset>,
    /// The balances, indexed by asset, then account.
    pub balances: Seq<Seq<Balance>>,
    /// The markets, in the order they were added.
    pub markets: Seq<MarketView>,
    /// Every order accepted this session; an order's id is its index.
    pub orders: Seq<(OrderId, PlacedOrder)>,
    /// The most recent transactions, oldest first.
    pub recent: Seq<Transaction>,
}

/// How many recent transactions an exchange keeps.
pub const RECENT_TRANSACTIONS: usize = 100;

/// The index of the market of `pair`, if there is one.
pub open spec fn market_index(ms: Seq<MarketView>, pair: AssetIdPair) -> Option<int> {
    if exists|i: int| 0 <= i < ms.len() && ms[i].asset_pair == pair {
        Some(choose|i: int| 0 <= i < ms.len() && ms[i].asset_pair == pair)
    } else {
        None
    }
}

/// An order after `v` more of it is filled: its remaining volume goes down
/// and it is filled when nothing remains. (A fill never exceeds what
/// remains: see `fills_fit`, which `Exchange::insert_order` establishes and
/// its settling keeps; the floor at zero is never reached.)
pub open spec fn settle_order(o: PlacedOrder, v: Volume) -> PlacedOrder {
    let rem = if o.remaining_volume >= v { (o.remaining_volume - v) as Volume } else { 0 };
    PlacedOrder {
        remaining_volume: rem,
        status: if rem == 0 { OrderExecutionStatus::Filled } else { o.status },
        ..o
    }
}

/// The balances after a trade between the accounts `maker` and `taker` on
/// `pair`: the seller gives the volume of the primary asset to the buyer, and
/// the buyer gives the volume times the price of the secondary asset back.
pub open spec fn settle_balances(
    b: Seq<Seq<Balance>>,
    pair: AssetIdPair,
    maker: AccountId,
    taker: AccountId,
    tx: ObTransaction,
) -> Seq<Seq<Balance>> {
    let vp = spec_volume_to_fixed(tx.volume);
    let vs = spec_fixed_wrapping_mul(vp, tx.price);
    match tx.taker_side {
        Side::Ask => spec_transfer(spec_transfer(b, pair.primary, taker, maker, vp), pair.secondary, maker, taker, vs),
        Side::Bid => spec_transfer(spec_transfer(b, pair.primary, maker, taker, vp), pair.secondary, taker, maker, vs),
    }
}

/// The exchange after it settles the transaction `tx` on `pair` at time `ts`.
pub open spec fn settle_one(ev: ExchangeView, pair: AssetIdPair, tx: ObTransaction, ts: u64) -> ExchangeView {
    let mi = tx.order_id_maker as int;
    let ti = tx.order_id_taker as int;
    let maker = ev.orders[mi].1;
    let orders1 = ev.orders.update(mi, (ev.orders[mi].0, settle_order(maker, tx.volume)));
    let taker = orders1[ti].1;
    let orders2 = orders1.update(ti, (orders1[ti].0, settle_order(taker, tx.volume)));
    ExchangeView {
        orders: orders2,
        balances: settle_balances(ev.balances, pair, maker.account_id, taker.account_id, tx),
        recent: ring_push(ev.recent, RECENT_TRANSACTIONS as nat, Transaction {
            market: pair,
            price: tx.price,
            volume: tx.volume,
            taker_side: tx.taker_side,
            maker: maker.account_id,
            taker: taker.account_id,
            timestamp_ms: ts,
        }),
        ..ev
    }
}

/// The exchange after it settles `txs`, the last one first.
pub open spec fn settle(ev: ExchangeView, pair: AssetIdPair, txs: Seq<ObTransaction>, ts: u64) -> ExchangeView
    decreases txs.len(),
{
    if txs.len() == 0 {
        ev
    } else {
        settle(settle_one(ev, pair, txs.last(), ts), pair, txs.drop_last(), ts)
    }
}

/// Inserting an order: refused when its market or its account does not
/// exist; otherwise it gets the next order id, goes to the orderbook of its
/// market (see `spec_insert_order`), and, when the book accepts it, is
/// recorded and its transactions are settled.
pub open spec fn spec_exchange_insert(ev: ExchangeView, req: OrderInsertionRequest, ts: u64) -> (ExchangeView, OrderInsertionResult) {
    match market_index(ev.markets, req.pair) {
        None => (ev, Err(OrderInsertionError::MarketDoesNotExist)),
        Some(i) => if req.account_id >= ev.account_names.len() {
            (ev, Err(OrderInsertionError::AccountDoesNotExist))
        } else {
            let id = ev.orders.len() as OrderId;
            let ins = req.spec_into_insertion(id);
            let m = ev.markets[i];
            let out = spec_insert_order(m.book, ins);
            match out.result {
                Err(e) => (ev, Err(e)),
                Ok(eff) => {
                    let m2 = MarketView {
                        asset_pair: m.asset_pair,
                        last_traded_price: next_last_traded_price(m.last_traded_price, out.result),
                        book: out.book,
                    };
                    let ev1 = ExchangeView {
                        markets: ev.markets.update(i, m2),
                        orders: ev.orders.push((id, PlacedOrder::spec_from_insertion(ins))),
                        ..ev
                    };
                    (settle(ev1, req.pair, out.txs, ts), Ok(OrderInsertionEffects { id, status: eff.status }))
                },
            }
        },
    }
}

/// The side `ls` after the cancellation of order `id` at `price`: its last
/// occurrence in the level at that price is removed, and the level too when
/// nothing else rests there.
pub open spec fn cancelled_side(ls: Seq<SpecLevel>, price: Price, id: OrderId) -> Seq<SpecLevel> {
    let (i, k) = choose|i: int, k: int| last_occurrence(ls, price, id, i, k);
    remove_at(ls, i, k)
}

/// The side `ls` after order `id` at `price` loses `reduction` (see `reduce_at`).
pub open spec fn modified_side(ls: Seq<SpecLevel>, price: Price, id: OrderId, reduction: Volume) -> Seq<SpecLevel> {
    let (i, k) = choose|i: int, k: int| first_occurrence(ls, price, id, i, k);
    reduce_at(ls, i, k, reduction)
}

/// Cancelling an order: refused when it does not exist, belongs to another
/// account, is already cancelled or filled, or its market is gone; otherwise
/// it leaves its orderbook and is marked cancelled, or, when it no longer
/// rests there, the cancellation is refused as `AlreadyFilled`.
pub open spec fn spec_exchange_cancel(ev: ExchangeView, req: OrderCancellationRequest) -> (ExchangeView, OrderCancellationResult) {
    let id = req.order_id;
    if id >= ev.orders.len() {
        (ev, Err(OrderCancellationError::OrderDoesNotExist))
    } else {
        let o = ev.orders[id as int].1;
        if o.account_id != req.account_id {
            (ev, Err(OrderCancellationError::Unauthorized))
        } else if o.status == OrderExecutionStatus::Cancelled {
            (ev, Err(OrderCancellationError::AlreadyCancelled))
        } else if o.status == OrderExecutionStatus::Filled {
            (ev, Err(OrderCancellationError::AlreadyFilled))
        } else {
            match market_index(ev.markets, o.pair) {
                None => (ev, Err(OrderCancellationError::MarketDoesNotExist)),
                Some(i) => {
                    let m = ev.markets[i];
                    let ls = m.book.side(o.side);
                    if rests_at(ls, o.price, id) {
                        let m2 = MarketView { book: m.book.with_side(o.side, cancelled_side(ls, o.price, id)), ..m };
                        (ExchangeView {
                            markets: ev.markets.update(i, m2),
                            orders: ev.orders.update(id as int, (id, PlacedOrder { status: OrderExecutionStatus::Cancelled, ..o })),
                            ..ev
                        }, Ok(()))
                    } else {
                        (ev, Err(OrderCancellationError::AlreadyFilled))
                    }
                },
            }
        }
    }
}

/// The record of an order whose volume is lowered to `new_volume`: when more
/// than that is already filled, the filled volume becomes its volume and it
/// is filled; otherwise what remains is the new volume minus the filled one.
pub open spec fn modified_order(o: PlacedOrder, new_volume: Volume) -> PlacedOrder {
    let filled = (o.volume - o.remaining_volume) as Volume;
    if filled > new_volume {
        PlacedOrder { volume: filled, remaining_volume: 0, status: OrderExecutionStatus::Filled, ..o }
    } else {
        PlacedOrder { volume: new_volume, remaining_volume: (new_volume - filled) as Volume, ..o }
    }
}

/// Lowering the volume of an order: refused when it does not exist, belongs
/// to another account, is filled, the new volume is not below its volume, or its
/// market is gone; otherwise its resting entry loses the difference (see
/// `Orderbook::modify_order`) and its record is updated (see
/// `modified_order`), or, when it no longer rests in the book, the request is
/// refused as `OrderNotFound`.
pub open spec fn spec_exchange_modify(ev: ExchangeView, req: OrderModificationRequest) -> (ExchangeView, OrderModificationResult) {
    let id = req.order_id;
    if id >= ev.orders.len() {
        (ev, Err(OrderModificationError::OrderDoesNotExist))
    } else {
        let o = ev.orders[id as int].1;
        if o.account_id != req.account_id {
            (ev, Err(OrderModificationError::Unauthorized))
        } else if o.status == OrderExecutionStatus::Filled {
            (ev, Err(OrderModificationError::AlreadyFilled))
        } else if req.new_volume >= o.volume {
            (ev, Err(OrderModificationError::VolumeNotLower))
        } else {
            match market_index(ev.markets, o.pair) {
                None => (ev, Err(OrderModificationError::MarketDoesNotExist)),
                Some(i) => {
                    let m = ev.markets[i];
                    let ls = m.book.side(o.side);
                    if rests_at(ls, o.price, id) {
                        let reduction = (o.volume - req.new_volume) as Volume;
                        let m2 = MarketView { book: m.book.with_side(o.side, modified_side(ls, o.price, id, reduction)), ..m };
                        (ExchangeView {
                            markets: ev.markets.update(i, m2),
                            orders: ev.orders.update(id as int, (id, modified_order(o, req.new_volume))),
                            ..ev
                        }, Ok(()))
                    } else {
                        (ev, Err(OrderModificationError::OrderNotFound))
                    }
                },
            }
        }
    }
}

/// An empty market.
pub open spec fn new_market(pair: AssetIdPair) -> MarketView {
    MarketView {
        asset_pair: pair,
        last_traded_price: 0,
        book: OrderbookView { bids: Seq::empty(), asks: Seq::empty() },
    }
}

/// Adding a market: refused unless both assets are traded, or when the pair
/// already has a market.
pub open spec fn spec_exchange_add_market(ev: ExchangeView, pair: AssetIdPair) -> (ExchangeView, MarketCreationResult) {
    if !(pair.primary < ev.assets.len() && pair.secondary < ev.assets.len()) {
        (ev, Err(MarketCreationError::AssetNotTraded))
    } else if market_index(ev.markets, pair) is Some {
        (ev, Err(MarketCreationError::MarketAlreadyExists))
    } else {
        (ExchangeView { markets: ev.markets.push(new_market(pair)), ..ev }, Ok(()))
    }
}

/// The balance the exchange finds for `account` in `asset` (see
/// `flat_position`): the account's balance when both exist.
pub open spec fn spec_get_balance(ev: ExchangeView, account: AccountId, asset: AssetId) -> Option<Balance> {
    match crate::balance_book::flat_position(ev.account_names.len(), ev.balances.len(), account, asset) {
        Some((a, i)) => Some(ev.balances[a][i]),
        None => None,
    }
}

/// The L1 view of the market of `pair`.
pub open spec fn spec_get_l1(ev: ExchangeView, pair: AssetIdPair) -> GetOrderBookL1Result {
    match market_index(ev.markets, pair) {
        None => Err(GetOrderbookError::MarketDoesNotExist),
        Some(i) => Ok(spec_l1(ev.markets[i].book)),
    }
}

/// The exchange: its accounts, traded assets, balances, markets, the orders
/// of the session and the recent transactions.
pub struct Exchange {
    accounts: Vec<Account>,
    traded_assets: Vec<Asset>,
    balance_book: BalanceBook,
    markets: Markets,
    session_orders: Vec<(OrderId, PlacedOrder)>,
    last_100_tx: RecentTransactions,
    transaction_buf: ObTransactionBuffer,
}

pub open spec fn markets_view(ms: Seq<Market>) -> Seq<MarketView> {
    ms.map_values(|m: Market| m@)
}

impl View for Exchange {
    type V = ExchangeView;

    closed spec fn view(&self) -> ExchangeView {
        ExchangeView {
            account_names: self.accounts@.map_values(|a: Account| a.username@),
            assets: self.traded_assets@,
            balances: self.balance_book.spec_balances(),
            markets: markets_view(self.markets.inner@),
            orders: self.session_orders@,
            recent: self.last_100_tx.spec_recent(),
        }
    }
}

impl ExchangeView {
    /// Ids are indices; every balance row covers every account; every market
    /// trades listed assets and is well formed, at most one per pair; every
    /// order belongs to an account and has no more remaining than its volume;
    /// every resting order is an order of the session.
    pub open spec fn wf(self) -> bool {
        &&& self.balances.len() == self.assets.len()
        &&& forall|a: int| 0 <= a < self.assets.len() ==> #[trigger] self.balances[a].len() == self.account_names.len()
        &&& forall|a: int| 0 <= a < self.assets.len() ==> (#[trigger] self.assets[a]).id == a
        &&& forall|i: int| 0 <= i < self.markets.len() ==> {
            &&& (#[trigger] self.markets[i]).asset_pair.primary < self.assets.len()
            &&& self.markets[i].asset_pair.secondary < self.assets.len()
            &&& self.markets[i].wf()
            &&& crate::orderbook::book_ids_below(self.markets[i].book, self.orders.len() as int)
        }
        &&& forall|i: int, j: int| 0 <= i < j < self.markets.len() ==> self.markets[i].asset_pair != self.markets[j].asset_pair
        &&& forall|i: int| 0 <= i < self.orders.len() ==> {
            &&& (#[trigger] self.orders[i]).0 == i
            &&& self.orders[i].1.id == i
            &&& self.orders[i].1.account_id < self.account_names.len()
            &&& self.orders[i].1.remaining_volume <= self.orders[i].1.volume
        }
        &&& self.orders.len() <= usize::MAX
        &&& self.recent.len() <= RECENT_TRANSACTIONS
    }
}

impl Exchange {
    /// Well formed: the parts agree with each other (see `wf_parts`), and
    /// the order records with the books (see `records_match`).
    pub closed spec fn wf(&self) -> bool {
        &&& self.wf_parts()
        &&& records_match(self@)
    }

    /// The view is well formed, the balance book has a row per asset and a
    /// column per account, account ids are indices, every market is well
    /// formed, no transaction waits to be settled, and at most the last
    /// hundred transactions are kept.
    closed spec fn wf_parts(&self) -> bool {
        &&& self@.wf()
        &&& self.balance_book.wf()
        &&& self.balance_book.spec_accounts() == self.accounts@.len()
        &&& self.balance_book.spec_assets() == self.traded_assets@.len()
        &&& forall|i: int| 0 <= i < self.accounts@.len() ==> (#[trigger] self.accounts@[i]).id == i
        &&& self.markets.wf()
        &&& self.transaction_buf@.len() == 0
        &&& self.last_100_tx.wf()
        &&& self.last_100_tx.spec_capacity() == RECENT_TRANSACTIONS
    }

    /// An exchange without accounts, assets or markets.
    pub fn new() -> (r: Exchange)
        ensures
            r.wf(),
            r@.account_names.len() == 0,
            r@.assets.len() == 0,
            r@.balances.len() == 0,
            r@.markets.len() == 0,
            r@.orders.len() == 0,
            r@.recent.len() == 0,
    {
        let r = Exchange {
            accounts: Vec::new(),
            traded_assets: Vec::new(),
            balance_book: BalanceBook::new(),
            markets: Markets::new(),
            session_orders: Vec::new(),
            last_100_tx: RecentTransactions::with_capacity(RECENT_TRANSACTIONS),
            transaction_buf: Vec::new(),
        };
        assert(r@.balances.len() == 0);
        r
    }

    /// Lists a new asset, held at zero by every account; returns its id.
    pub fn add_asset(&mut self, name: &str, symbol: &str) -> (r: AssetId)
        requires
            old(self).wf(),
            old(self)@.assets.len() < u32::MAX,
        ensures
            final(self).wf(),
            r == old(self)@.assets.len(),
            final(self)@.assets.len() == old(self)@.assets.len() + 1,
            final(self)@.assets.drop_last() == old(self)@.assets,
            final(self)@.assets.last().id == r,
            final(self)@.assets.last().name@ == name@,
            final(self)@.assets.last().symbol@ == symbol@,
            final(self)@.balances == old(self)@.balances.push(Seq::new(old(self)@.account_names.len(), |i: int| 0i64)),
            final(self)@.account_names == old(self)@.account_names,
            final(self)@.markets == old(self)@.markets,
            final(self)@.orders == old(self)@.orders,
            final(self)@.recent == old(self)@.recent,
    {
        let new_id = self.traded_assets.len() as u32;
        let new_asset = Asset { id: new_id, name: String::from_str(name), symbol: String::from_str(symbol) };
        let ghost old_assets = self.traded_assets@;
        self.traded_assets.push(new_asset);
        self.balance_book.add_asset();
        assert(self.traded_assets@.drop_last() =~= old_assets);
        proof {
            self.lemma_view_accounts_len();
            let ev = self@;
            let ev0 = old(self)@;
            assert(ev.markets == ev0.markets);
            assert(ev.orders == ev0.orders);
            assert(ev.account_names == ev0.account_names);
            assert forall|a: int| 0 <= a < ev.assets.len() implies #[trigger] ev.balances[a].len() == ev.account_names.len() by {
                if a < ev0.assets.len() {
                    assert(ev.balances[a] == ev0.balances[a]);
                }
            }
            assert forall|a: int| 0 <= a < ev.assets.len() implies (#[trigger] ev.assets[a]).id == a by {
                if a < ev0.assets.len() {
                    assert(ev.assets[a] == ev0.assets[a]);
                }
            }
            assert forall|i: int| 0 <= i < ev.markets.len() implies
                (#[trigger] ev.markets[i]).asset_pair.primary < ev.assets.len() && ev.markets[i].asset_pair.secondary < ev.assets.len() by {
                assert(ev0.markets[i] == ev.markets[i]);
            }
        }
        new_id
    }

    proof fn lemma_view_accounts_len(&self)
        ensures
            self@.account_names.len() == self.accounts@.len(),
    {
    }

    /// What every exchange keeps, whatever commands it ran (see
    /// `ExchangeView::wf`): ids are indices, every order belongs to an
    /// account and never has more remaining than its volume, every market
    /// trades listed assets with sorted books, one market per pair, and at
    /// most the last hundred transactions are kept; and the order records
    /// agree with the books (see `records_match`): every resting order is a
    /// live order of the session, resting once, with the remaining volume of
    /// its record, and every live order rests.
    pub proof fn law_exchange_well_formed(&self)
        requires
            self.wf(),
        ensures
            self@.wf(),
            records_match(self@),
    {
    }

    /// Whether an asset with id `asset_id` is traded.
    pub fn is_traded_asset(&self, asset_id: AssetId) -> (r: bool)
        requires
            self.wf(),
        ensures
            r == (asset_id < self@.assets.len()),
    {
        let n = self.traded_assets.len();
        let mut i: usize = 0;
        while i < n
            invariant
                i <= n,
                n == self.traded_assets@.len(),
                self@.wf(),
                self@.assets == self.traded_assets@,
                forall|j: int| 0 <= j < i ==> self.traded_assets@[j].id != asset_id,
            decreases n - i,
        {
            if self.traded_assets[i].id == asset_id {
                return true;
            }
            i = i + 1;
        }
        proof {
            if asset_id < n {
                assert(self.traded_assets@[asset_id as int].id == asset_id);
            }
        }
        false
    }

    /// Opens an account, without a name, holding zero of every asset;
    /// returns its id.
    pub fn create_account(&mut self) -> (r: AccountId)
        requires
            old(self).wf(),
            old(self)@.account_names.len() < u32::MAX,
        ensures
            final(self).wf(),
            r == old(self)@.account_names.len(),
            final(self)@.account_names == old(self)@.account_names.push(Seq::<char>::empty()),
            final(self)@.balances == Seq::new(old(self)@.assets.len(), |a: int| old(self)@.balances[a].push(0i64)),
            final(self)@.assets == old(self)@.assets,
            final(self)@.markets == old(self)@.markets,
            final(self)@.orders == old(self)@.orders,
            final(self)@.recent == old(self)@.recent,
    {
        self.create_account_with_name(String::new())
    }

    /// Opens an account named `username`, holding zero of every asset;
    /// returns its id.
    pub fn create_account_with_name(&mut self, username: String) -> (r: AccountId)
        requires
            old(self).wf(),
            old(self)@.account_names.len() < u32::MAX,
        ensures
            final(self).wf(),
            r == old(self)@.account_names.len(),
            final(self)@.account_names == old(self)@.account_names.push(username@),
            final(self)@.balances == Seq::new(old(self)@.assets.len(), |a: int| old(self)@.balances[a].push(0i64)),
            final(self)@.assets == old(self)@.assets,
            final(self)@.markets == old(self)@.markets,
            final(self)@.orders == old(self)@.orders,
            final(self)@.recent == old(self)@.recent,
    {
        proof { self.lemma_view_accounts_len(); }
        let new_id = self.accounts.len() as AccountId;
        let ghost old_accounts = self.accounts@;
        self.accounts.push(Account { id: new_id, username });
        self.balance_book.add_account();
        assert(self@.account_names =~= old(self)@.account_names.push(username@)) by {
            assert(self.accounts@ == old_accounts.push(Account { id: new_id, username }));
        }
        proof {
            let ev = self@;
            let ev0 = old(self)@;
            assert(ev.markets == ev0.markets);
            assert(ev.orders == ev0.orders);
            assert(ev.assets == ev0.assets);
            assert forall|i: int| 0 <= i < ev.orders.len() implies ev.orders[i].1.account_id < ev.account_names.len() by {
                assert(ev0.orders[i] == ev.orders[i]);
            }
            assert forall|a: int| 0 <= a < ev.assets.len() implies #[trigger] ev.balances[a].len() == ev.account_names.len() by {
                assert(ev.balances[a] == ev0.balances[a].push(0i64));
            }
            assert forall|i: int| 0 <= i < self.accounts@.len() implies (#[trigger] self.accounts@[i]).id == i by {
                if i < old_accounts.len() {
                    assert(self.accounts@[i] == old_accounts[i]);
                }
            }
        }
        new_id
    }

    /// Opens the market of `pair` (see `spec_exchange_add_market`).
    pub fn add_market(&mut self, pair: AssetIdPair) -> (r: MarketCreationResult)
        requires
            old(self).wf(),
        ensures
            final(self).wf(),
            (final(self)@, r) == spec_exchange_add_market(old(self)@, pair),
    {
        if !self.is_traded_asset(pair.primary) || !self.is_traded_asset(pair.secondary) {
            return Err(MarketCreationError::AssetNotTraded);
        }
        let ghost ms0 = self.markets.inner@;
        proof { self.lemma_market_index_keys(pair); }
        let r = self.markets.add_market(pair);
        proof {
            if r is Ok {
                assert(self.markets.inner@.last()@ == new_market(pair));
                assert(markets_view(self.markets.inner@) =~= markets_view(ms0).push(new_market(pair)));
            } else {
                assert(self.markets.inner@ == ms0);
            }
            crate::session::lemma_add_market_matches(old(self)@, pair);
        }
        r
    }

    /// A market exists for `pair` exactly when its pair is among the keys.
    proof fn lemma_market_index_keys(&self, pair: AssetIdPair)
        requires
            self.wf(),
        ensures
            (market_index(self@.markets, pair) is Some) == self.markets.keys@.contains(pair),
            match market_index(self@.markets, pair) {
                Some(i) => 0 <= i < self.markets.inner@.len() && self.markets.inner@[i].asset_pair == pair,
                None => forall|j: int| 0 <= j < self.markets.inner@.len() ==> self.markets.inner@[j].asset_pair != pair,
            },
    {
        let ms = self@.markets;
        assert forall|j: int| 0 <= j < self.markets.inner@.len() implies #[trigger] ms[j] == self.markets.inner@[j]@ by {}
        assert(ms.len() == self.markets.inner@.len());
        if self.markets.keys@.contains(pair) {
            let j = choose|j: int| 0 <= j < self.markets.keys@.len() && self.markets.keys@[j] == pair;
            assert(ms[j].asset_pair == pair);
        }
        if exists|i: int| 0 <= i < ms.len() && ms[i].asset_pair == pair {
            let i = choose|i: int| 0 <= i < ms.len() && ms[i].asset_pair == pair;
            assert(self.markets.keys@[i] == pair);
            assert(ms[i] == self.markets.inner@[i]@);
        } else {
            assert forall|j: int| 0 <= j < self.markets.inner@.len() implies self.markets.inner@[j].asset_pair != pair by {
                assert(ms[j] == self.markets.inner@[j]@);
            }
        }
    }
}

proof fn lemma_transfer_shape(b: Seq<Seq<Balance>>, asset: AssetId, from: AccountId, to: AccountId, amount: Balance, width: nat)
    requires
        asset < b.len(),
        from < width,
        to < width,
        forall|a: int| 0 <= a < b.len() ==> #[trigger] b[a].len() == width,
    ensures
        spec_transfer(b, asset, from, to, amount).len() == b.len(),
        forall|a: int| 0 <= a < b.len() ==> #[trigger] spec_transfer(b, asset, from, to, amount)[a].len() == width,
{
    let b2 = spec_transfer(b, asset, from, to, amount);
    assert forall|a: int| 0 <= a < b.len() implies #[trigger] b2[a].len() == width by {
        if a != asset {
            assert(b2[a] == b[a]);
        }
    }
}

/// Settling one transaction keeps the exchange well formed.
proof fn lemma_settle_one_wf(ev: ExchangeView, pair: AssetIdPair, tx: ObTransaction, ts: u64)
    requires
        ev.wf(),
        pair.primary < ev.assets.len(),
        pair.secondary < ev.assets.len(),
        tx.order_id_maker < ev.orders.len(),
        tx.order_id_taker < ev.orders.len(),
    ensures
        settle_one(ev, pair, tx, ts).wf(),
        settle_one(ev, pair, tx, ts).orders.len() == ev.orders.len(),
        settle_one(ev, pair, tx, ts).markets == ev.markets,
        settle_one(ev, pair, tx, ts).assets == ev.assets,
        settle_one(ev, pair, tx, ts).account_names == ev.account_names,
{
    let ev2 = settle_one(ev, pair, tx, ts);
    let mi = tx.order_id_maker as int;
    let ti = tx.order_id_taker as int;
    let maker = ev.orders[mi].1;
    let orders1 = ev.orders.update(mi, (ev.orders[mi].0, settle_order(maker, tx.volume)));
    let taker = orders1[ti].1;
    let w = ev.account_names.len();
    assert(maker.account_id < w);
    assert(taker.account_id < w) by {
        if ti != mi {
            assert(orders1[ti] == ev.orders[ti]);
        }
    }
    let vp = spec_volume_to_fixed(tx.volume);
    let vs = spec_fixed_wrapping_mul(vp, tx.price);
    let (f1, t1, f2, t2) = match tx.taker_side {
        Side::Ask => (taker.account_id, maker.account_id, maker.account_id, taker.account_id),
        Side::Bid => (maker.account_id, taker.account_id, taker.account_id, maker.account_id),
    };
    lemma_transfer_shape(ev.balances, pair.primary, f1, t1, vp, w);
    lemma_transfer_shape(spec_transfer(ev.balances, pair.primary, f1, t1, vp), pair.secondary, f2, t2, vs, w);
    assert forall|i: int| 0 <= i < ev2.orders.len() implies {
        &&& (#[trigger] ev2.orders[i]).0 == i
        &&& ev2.orders[i].1.id == i
        &&& ev2.orders[i].1.account_id < ev2.account_names.len()
        &&& ev2.orders[i].1.remaining_volume <= ev2.orders[i].1.volume
    } by {
        assert(ev.orders[i].0 == i);
        if i != mi {
            assert(orders1[i] == ev.orders[i]);
        }
    }
}

fn settle_order_exec(o: PlacedOrder, v: Volume) -> (r: PlacedOrder)
    requires
        v <= o.remaining_volume,
    ensures
        r == settle_order(o, v),
{
    let rem = o.remaining_volume - v;
    PlacedOrder {
        remaining_volume: rem,
        status: if rem == 0 { OrderExecutionStatus::Filled } else { o.status },
        ..o
    }
}

impl Exchange {
    /// Well formed, but for the transactions still to settle on `pair`.
    closed spec fn wf_settling(&self, pair: AssetIdPair) -> bool {
        &&& self@.wf()
        &&& self.balance_book.wf()
        &&& self.balance_book.spec_accounts() == self.accounts@.len()
        &&& self.balance_book.spec_assets() == self.traded_assets@.len()
        &&& forall|i: int| 0 <= i < self.accounts@.len() ==> (#[trigger] self.accounts@[i]).id == i
        &&& self.markets.wf()
        &&& self.last_100_tx.wf()
        &&& self.last_100_tx.spec_capacity() == RECENT_TRANSACTIONS
        &&& pair.primary < self@.assets.len()
        &&& pair.secondary < self@.assets.len()
        &&& forall|j: int| 0 <= j < self.transaction_buf@.len() ==> {
            &&& (#[trigger] self.transaction_buf@[j]).order_id_maker < self@.orders.len()
            &&& self.transaction_buf@[j].order_id_taker < self@.orders.len()
        }
    }

    /// Settles the buffered transactions on `pair`, the last one first:
    /// order records, balances and recent transactions (see `settle`).
    fn process_transactions(&mut self, pair: AssetIdPair, timestamp_ms: u64)
        requires
            old(self).wf_settling(pair),
            fills_fit(old(self)@.orders, old(self).transaction_buf@),
        ensures
            final(self).wf_parts(),
            final(self)@ == settle(old(self)@, pair, old(self).transaction_buf@, timestamp_ms),
    {
        let ghost ev0 = self@;
        let ghost buf0 = self.transaction_buf@;
        loop
            invariant
                self.wf_settling(pair),
                fills_fit(self@.orders, self.transaction_buf@),
                settle(ev0, pair, buf0, timestamp_ms) == settle(self@, pair, self.transaction_buf@, timestamp_ms),
            ensures
                self.transaction_buf@.len() == 0,
            decreases self.transaction_buf@.len(),
        {
            let ghost cur = self@;
            let ghost buf = self.transaction_buf@;
            let tx = match self.transaction_buf.pop() {
                None => {
                    assert(self.transaction_buf@.len() == 0);
                    break;
                },
                Some(tx) => tx,
            };
            assert(tx == buf.last());
            proof {
                lemma_settle_one_wf(cur, pair, tx, timestamp_ms);
                crate::session::lemma_settle_one_fits(cur, pair, buf, timestamp_ms);
            }
            let mi = tx.order_id_maker;
            let ti = tx.order_id_taker;
            let (maker_key, maker_order) = self.session_orders[mi];
            self.session_orders.set(mi, (maker_key, settle_order_exec(maker_order, tx.volume)));
            let (taker_key, taker_order) = self.session_orders[ti];
            self.session_orders.set(ti, (taker_key, settle_order_exec(taker_order, tx.volume)));
            let maker_id = maker_order.account_id;
            let taker_id = taker_order.account_id;
            let volume_primary = volume_to_fixed(tx.volume);
            let volume_secondary = fixed_wrapping_mul(volume_primary, tx.price);
            proof {
                assert(cur.account_names.len() == self.accounts@.len());
                assert(maker_id < self.accounts@.len());
                assert(taker_id < self.accounts@.len()) by {
                    if ti != mi {
                        assert(cur.orders[ti as int].1 == taker_order);
                    }
                }
            }
            match tx.taker_side {
                Side::Ask => {
                    self.balance_book.transfer(pair.primary, taker_id, maker_id, volume_primary);
                    self.balance_book.transfer(pair.secondary, maker_id, taker_id, volume_secondary);
                },
                Side::Bid => {
                    self.balance_book.transfer(pair.primary, maker_id, taker_id, volume_primary);
                    self.balance_book.transfer(pair.secondary, taker_id, maker_id, volume_secondary);
                },
            }
            self.last_100_tx.push(Transaction {
                market: pair,
                price: tx.price,
                volume: tx.volume,
                taker_side: tx.taker_side,
                maker: maker_id,
                taker: taker_id,
                timestamp_ms,
            });
            proof {
                let next = settle_one(cur, pair, tx, timestamp_ms);
                assert(self@.orders =~= next.orders);
                assert(self@.account_names =~= next.account_names);
                assert(self@ == next);
                assert(buf.drop_last() =~= self.transaction_buf@);
                assert forall|j: int| 0 <= j < self.transaction_buf@.len() implies {
                    &&& (#[trigger] self.transaction_buf@[j]).order_id_maker < self@.orders.len()
                    &&& self.transaction_buf@[j].order_id_taker < self@.orders.len()
                } by {
                    assert(self.transaction_buf@[j] == buf[j]);
                }
            }
        }
        assert(self.transaction_buf@.len() == 0);
    }
}

/// Markets with distinct pairs: the market of a pair is the one at any index
/// holding it.
pub(crate) proof fn lemma_market_index_unique(ms: Seq<MarketView>, pair: AssetIdPair, i: int)
    requires
        forall|a: int, b: int| 0 <= a < b < ms.len() ==> ms[a].asset_pair != ms[b].asset_pair,
        0 <= i < ms.len(),
        ms[i].asset_pair == pair,
    ensures
        market_index(ms, pair) == Some(i),
{
    let j = choose|j: int| 0 <= j < ms.len() && ms[j].asset_pair == pair;
    if j < i {
        assert(ms[j].asset_pair != ms[i].asset_pair);
    } else if i < j {
        assert(ms[i].asset_pair != ms[j].asset_pair);
    }
}

impl Exchange {
    /// Finds the market of `pair` (see `market_index`).
    fn market_position(&self, pair: &AssetIdPair) -> (r: Option<usize>)
        requires
            self.wf_core(),
        ensures
            match r {
                Some(i) => market_index(self@.markets, *pair) == Some(i as int) && i < self.markets.inner@.len(),
                None => market_index(self@.markets, *pair) is None,
            },
    {
        let r = self.markets.position(pair);
        proof {
            self.lemma_market_index_keys_core(*pair);
            match r {
                Some(i) => {
                    assert(self@.markets[i as int] == self.markets.inner@[i as int]@);
                    lemma_market_index_unique(self@.markets, *pair, i as int);
                },
                None => {},
            }
        }
        r
    }

    /// The parts of well-formedness that do not concern pending transactions.
    closed spec fn wf_core(&self) -> bool {
        &&& self@.wf()
        &&& self.markets.wf()
        &&& self.balance_book.wf()
    }

    proof fn lemma_market_index_keys_core(&self, pair: AssetIdPair)
        requires
            self.wf_core(),
        ensures
            match market_index(self@.markets, pair) {
                Some(i) => 0 <= i < self.markets.inner@.len() && self.markets.inner@[i].asset_pair == pair,
                None => forall|j: int| 0 <= j < self.markets.inner@.len() ==> self.markets.inner@[j].asset_pair != pair,
            },
    {
        let ms = self@.markets;
        assert forall|j: int| 0 <= j < self.markets.inner@.len() implies #[trigger] ms[j] == self.markets.inner@[j]@ by {}
        if exists|i: int| 0 <= i < ms.len() && ms[i].asset_pair == pair {
            let i = choose|i: int| 0 <= i < ms.len() && ms[i].asset_pair == pair;
            assert(ms[i] == self.markets.inner@[i]@);
        } else {
            assert forall|j: int| 0 <= j < self.markets.inner@.len() implies self.markets.inner@[j].asset_pair != pair by {
                assert(ms[j] == self.markets.inner@[j]@);
            }
        }
    }

    /// Inserts an order (see `spec_exchange_insert`).
    fn insert_order(&mut self, insertion_req: OrderInsertionRequest, timestamp_ms: u64) -> (r: OrderInsertionResult)
        requires
            old(self).wf(),
        ensures
            final(self).wf(),
            (final(self)@, r) == spec_exchange_insert(old(self)@, insertion_req, timestamp_ms),
    {
        let ghost ev = self@;
        let i = match self.market_position(&insertion_req.pair) {
            None => return Err(OrderInsertionError::MarketDoesNotExist),
            Some(i) => i,
        };
        proof { self.lemma_view_accounts_len(); }
        if insertion_req.account_id as usize >= self.accounts.len() {
            return Err(OrderInsertionError::AccountDoesNotExist);
        }
        let new_id = self.session_orders.len();
        let insertion = insertion_req.into_insertion(new_id);
        let ghost m0 = self.markets.inner@[i as int];
        assert(ev.markets[i as int] == m0@);
        assert(m0@.wf());
        let ghost out = spec_insert_order(m0@.book, insertion);
        let ob_result = {
            let market = &mut self.markets.inner[i];
            market.insert_order(insertion, &mut self.transaction_buf)
        };
        let ghost m1 = self.markets.inner@[i as int];
        proof {
            assert(markets_view(self.markets.inner@) =~= ev.markets.update(i as int, m1@));
        }
        let effects = match ob_result {
            Err(e) => {
                proof {
                    assert(m1@ == m0@);
                    assert(ev.markets.update(i as int, m1@) =~= ev.markets);
                    assert(self.transaction_buf@ =~= old(self).transaction_buf@);
                    assert(self@ == ev);
                    assert forall|j: int| 0 <= j < self.markets.keys@.len() implies #[trigger] self.markets.keys@[j] == self.markets.inner@[j].asset_pair by {
                        if j != i {
                            assert(self.markets.inner@[j] == old(self).markets.inner@[j]);
                        }
                    }
                    assert forall|j: int| 0 <= j < self.markets.inner@.len() implies (#[trigger] self.markets.inner@[j])@.wf() by {
                        if j != i {
                            assert(self.markets.inner@[j] == old(self).markets.inner@[j]);
                        }
                    }
                }
                return Err(e);
            },
            Ok(effects) => effects,
        };
        let placed = PlacedOrder::from_insertion(&insertion);
        self.session_orders.push((new_id, placed));
        proof {
            let n = ev.orders.len() as int;
            crate::orderbook::lemma_insert_order_ids(m0@.book, insertion, n);
            let ev1 = self@;
            assert(ev1.orders == ev.orders.push((new_id, PlacedOrder::spec_from_insertion(insertion))));
            assert(ev1.markets == ev.markets.update(i as int, m1@));
            assert forall|j: int| 0 <= j < ev1.markets.len() implies {
                &&& (#[trigger] ev1.markets[j]).asset_pair.primary < ev1.assets.len()
                &&& ev1.markets[j].asset_pair.secondary < ev1.assets.len()
                &&& ev1.markets[j].wf()
                &&& crate::orderbook::book_ids_below(ev1.markets[j].book, ev1.orders.len() as int)
            } by {
                if j != i {
                    assert(ev1.markets[j] == ev.markets[j]);
                    crate::orderbook::lemma_ids_below_mono(ev.markets[j].book.bids, n, n + 1);
                    crate::orderbook::lemma_ids_below_mono(ev.markets[j].book.asks, n, n + 1);
                }
            }
            assert forall|a: int, b: int| 0 <= a < b < ev1.markets.len() implies ev1.markets[a].asset_pair != ev1.markets[b].asset_pair by {
                assert(ev1.markets[a].asset_pair == ev.markets[a].asset_pair);
                assert(ev1.markets[b].asset_pair == ev.markets[b].asset_pair);
            }
            assert forall|j: int| 0 <= j < ev1.orders.len() implies {
                &&& (#[trigger] ev1.orders[j]).0 == j
                &&& ev1.orders[j].1.id == j
                &&& ev1.orders[j].1.account_id < ev1.account_names.len()
                &&& ev1.orders[j].1.remaining_volume <= ev1.orders[j].1.volume
            } by {
                if j < n {
                    assert(ev1.orders[j] == ev.orders[j]);
                }
            }
            assert(ev1.orders.len() == self.session_orders.len());
            assert(ev1.wf());
            assert(ev.orders.len() < usize::MAX);
            assert(self.transaction_buf@ =~= out.txs);
            assert forall|j: int| 0 <= j < self.transaction_buf@.len() implies {
                &&& (#[trigger] self.transaction_buf@[j]).order_id_maker < self@.orders.len()
                &&& self.transaction_buf@[j].order_id_taker < self@.orders.len()
            } by {
                assert(self.transaction_buf@[j] == out.txs[j]);
            }
            assert forall|j: int| 0 <= j < self.markets.keys@.len() implies #[trigger] self.markets.keys@[j] == self.markets.inner@[j].asset_pair by {
                if j != i {
                    assert(self.markets.inner@[j] == old(self).markets.inner@[j]);
                }
            }
            assert forall|j: int| 0 <= j < self.markets.inner@.len() implies (#[trigger] self.markets.inner@[j])@.wf() by {
                if j != i {
                    assert(self.markets.inner@[j] == old(self).markets.inner@[j]);
                }
            }
        }
        proof {
            crate::session::lemma_insert_fills_fit(ev, i as int, insertion);
        }
        self.process_transactions(insertion_req.pair, timestamp_ms);
        proof { crate::session::lemma_insert_matches(ev, insertion_req, timestamp_ms); }
        Ok(OrderInsertionEffects { id: new_id, status: effects.status })
    }
}

/// Replacing a market by one of the same pair, and an order record by one of
/// the same id and account, keeps the exchange well formed.
proof fn lemma_replace_wf(ev: ExchangeView, i: int, m2: MarketView, oi: int, o2: (OrderId, PlacedOrder))
    requires
        ev.wf(),
        0 <= i < ev.markets.len(),
        m2.asset_pair == ev.markets[i].asset_pair,
        m2.wf(),
        crate::orderbook::book_ids_below(m2.book, ev.orders.len() as int),
        0 <= oi < ev.orders.len(),
        o2.0 == oi,
        o2.1.id == oi,
        o2.1.account_id == ev.orders[oi].1.account_id,
        o2.1.remaining_volume <= o2.1.volume,
    ensures
        (ExchangeView { markets: ev.markets.update(i, m2), orders: ev.orders.update(oi, o2), ..ev }).wf(),
{
    let ev2 = ExchangeView { markets: ev.markets.update(i, m2), orders: ev.orders.update(oi, o2), ..ev };
    assert forall|j: int| 0 <= j < ev2.markets.len() implies {
        &&& (#[trigger] ev2.markets[j]).asset_pair.primary < ev2.assets.len()
        &&& ev2.markets[j].asset_pair.secondary < ev2.assets.len()
        &&& ev2.markets[j].wf()
        &&& crate::orderbook::book_ids_below(ev2.markets[j].book, ev2.orders.len() as int)
    } by {
        if j != i {
            assert(ev2.markets[j] == ev.markets[j]);
        }
    }
    assert forall|a: int, b: int| 0 <= a < b < ev2.markets.len() implies ev2.markets[a].asset_pair != ev2.markets[b].asset_pair by {
        assert(ev2.markets[a].asset_pair == ev.markets[a].asset_pair);
        assert(ev2.markets[b].asset_pair == ev.markets[b].asset_pair);
    }
    assert forall|j: int| 0 <= j < ev2.orders.len() implies {
        &&& (#[trigger] ev2.orders[j]).0 == j
        &&& ev2.orders[j].1.id == j
        &&& ev2.orders[j].1.account_id < ev2.account_names.len()
        &&& ev2.orders[j].1.remaining_volume <= ev2.orders[j].1.volume
    } by {
        if j != oi {
            assert(ev2.orders[j] == ev.orders[j]);
        }
    }
}

proof fn lemma_side_sorted(b: OrderbookView, s: Side)
    requires
        b.wf(),
    ensures
        crate::orderbook::sorted_levels(s, b.side(s)),
{
}

impl Exchange {
    /// Cancels an order (see `spec_exchange_cancel`).
    fn cancel_order(&mut self, cancellation_req: OrderCancellationRequest) -> (r: OrderCancellationResult)
        requires
            old(self).wf(),
        ensures
            final(self).wf(),
            (final(self)@, r) == spec_exchange_cancel(old(self)@, cancellation_req),
    {
        let ghost ev = self@;
        let id = cancellation_req.order_id;
        if id >= self.session_orders.len() {
            return Err(OrderCancellationError::OrderDoesNotExist);
        }
        let (key, order) = self.session_orders[id];
        if order.account_id != cancellation_req.account_id {
            return Err(OrderCancellationError::Unauthorized);
        }
        if order.status == OrderExecutionStatus::Cancelled {
            return Err(OrderCancellationError::AlreadyCancelled);
        } else if order.status == OrderExecutionStatus::Filled {
            return Err(OrderCancellationError::AlreadyFilled);
        }
        let i = match self.market_position(&order.pair) {
            None => return Err(OrderCancellationError::MarketDoesNotExist),
            Some(i) => i,
        };
        let cancellation = cancellation_req.into_cancellation(order.pair, order.side, order.price);
        let ghost m0 = self.markets.inner@[i as int];
        assert(ev.markets[i as int] == m0@);
        let result = {
            let market = &mut self.markets.inner[i];
            market.cancel_order(cancellation)
        };
        let ghost m1 = self.markets.inner@[i as int];
        proof {
            assert(markets_view(self.markets.inner@) =~= ev.markets.update(i as int, m1@));
            assert forall|j: int| 0 <= j < self.markets.keys@.len() implies #[trigger] self.markets.keys@[j] == self.markets.inner@[j].asset_pair by {
                if j != i {
                    assert(self.markets.inner@[j] == old(self).markets.inner@[j]);
                }
            }
            assert forall|j: int| 0 <= j < self.markets.inner@.len() implies (#[trigger] self.markets.inner@[j])@.wf() by {
                if j != i {
                    assert(self.markets.inner@[j] == old(self).markets.inner@[j]);
                }
            }
        }
        if result.is_ok() {
            self.session_orders.set(id, (key, PlacedOrder { status: OrderExecutionStatus::Cancelled, ..order }));
            proof {
                let s = order.side;
                let ls = m0@.book.side(s);
                lemma_side_sorted(m0@.book, s);
                let (wi, wk) = choose|wi: int, wk: int| #[trigger] crate::orderbook::last_occurrence(ls, order.price, id, wi, wk)
                    && m1@.book == m0@.book.with_side(s, remove_at(ls, wi, wk));
                let (ci, ck) = choose|ci: int, ck: int| crate::orderbook::last_occurrence(ls, order.price, id, ci, ck);
                crate::orderbook::lemma_last_occurrence_unique(s, ls, order.price, id, wi, wk, ci, ck);
                crate::orderbook::lemma_reduce_ids(ls, wi, wk, 0, ev.orders.len() as int);
                lemma_replace_wf(ev, i as int, m1@, id as int, (key, PlacedOrder { status: OrderExecutionStatus::Cancelled, ..order }));
                assert(self@.orders =~= ev.orders.update(id as int, (id, PlacedOrder { status: OrderExecutionStatus::Cancelled, ..order })));
            }
        } else {
            proof {
                assert(ev.markets.update(i as int, m1@) =~= ev.markets);
            }
        }
        proof { crate::session::lemma_cancel_matches(ev, cancellation_req); }
        result
    }

    /// Lowers the volume of an order (see `spec_exchange_modify`).
    fn modify_order(&mut self, modification_req: OrderModificationRequest) -> (r: OrderModificationResult)
        requires
            old(self).wf(),
        ensures
            final(self).wf(),
            (final(self)@, r) == spec_exchange_modify(old(self)@, modification_req),
    {
        let ghost ev = self@;
        let id = modification_req.order_id;
        if id >= self.session_orders.len() {
            return Err(OrderModificationError::OrderDoesNotExist);
        }
        let (key, order) = self.session_orders[id];
        if order.account_id != modification_req.account_id {
            return Err(OrderModificationError::Unauthorized);
        }
        if order.status == OrderExecutionStatus::Filled {
            return Err(OrderModificationError::AlreadyFilled);
        }
        if modification_req.new_volume >= order.volume {
            return Err(OrderModificationError::VolumeNotLower);
        }
        let i = match self.market_position(&order.pair) {
            None => return Err(OrderModificationError::MarketDoesNotExist),
            Some(i) => i,
        };
        let modification = modification_req.into_order_modification(order.pair, order.side, order.price, order.volume);
        let ghost m0 = self.markets.inner@[i as int];
        assert(ev.markets[i as int] == m0@);
        let result = {
            let market = &mut self.markets.inner[i];
            market.modify_order(modification)
        };
        let ghost m1 = self.markets.inner@[i as int];
        proof {
            assert(markets_view(self.markets.inner@) =~= ev.markets.update(i as int, m1@));
            assert forall|j: int| 0 <= j < self.markets.keys@.len() implies #[trigger] self.markets.keys@[j] == self.markets.inner@[j].asset_pair by {
                if j != i {
                    assert(self.markets.inner@[j] == old(self).markets.inner@[j]);
                }
            }
            assert forall|j: int| 0 <= j < self.markets.inner@.len() implies (#[trigger] self.markets.inner@[j])@.wf() by {
                if j != i {
                    assert(self.markets.inner@[j] == old(self).markets.inner@[j]);
                }
            }
        }
        if result.is_ok() {
            let volume_filled = order.volume - order.remaining_volume;
            let updated = if volume_filled > modification_req.new_volume {
                PlacedOrder { volume: volume_filled, remaining_volume: 0, status: OrderExecutionStatus::Filled, ..order }
            } else {
                PlacedOrder {
                    volume: modification_req.new_volume,
                    remaining_volume: modification_req.new_volume - volume_filled,
                    ..order
                }
            };
            self.session_orders.set(id, (key, updated));
            proof {
                let s = order.side;
                let ls = m0@.book.side(s);
                let red = modification.volume_reduction;
                lemma_side_sorted(m0@.book, s);
                let (wi, wk) = choose|wi: int, wk: int| #[trigger] crate::orderbook::first_occurrence(ls, order.price, id, wi, wk)
                    && m1@.book == m0@.book.with_side(s, reduce_at(ls, wi, wk, red));
                let (ci, ck) = choose|ci: int, ck: int| crate::orderbook::first_occurrence(ls, order.price, id, ci, ck);
                crate::orderbook::lemma_first_occurrence_unique(s, ls, order.price, id, wi, wk, ci, ck);
                crate::orderbook::lemma_reduce_ids(ls, wi, wk, red, ev.orders.len() as int);
                assert(updated == modified_order(order, modification_req.new_volume));
                lemma_replace_wf(ev, i as int, m1@, id as int, (key, updated));
                assert(self@.orders =~= ev.orders.update(id as int, (id, updated)));
            }
        } else {
            proof {
                assert(ev.markets.update(i as int, m1@) =~= ev.markets);
            }
        }
        proof { crate::session::lemma_modify_matches(ev, modification_req); }
        result
    }
}

/// The L1 view of every market, with its pair, in the order of the markets.
pub open spec fn spec_all_l1(ev: ExchangeView) -> Seq<(AssetIdPair, OrderbookL1)> {
    Seq::new(ev.markets.len(), |j: int| (ev.markets[j].asset_pair, spec_l1(ev.markets[j].book)))
}

/// The L1 answer for all markets lists every market, in the order they
/// were added, each with its pair and exactly the L1 view that asking for
/// that market alone gives (see `law_l1_best_levels`).
pub proof fn law_all_l1_is_each_l1(ev: ExchangeView)
    requires
        ev.wf(),
    ensures
        spec_all_l1(ev).len() == ev.markets.len(),
        forall|j: int| 0 <= j < ev.markets.len() ==> {
            &&& (#[trigger] spec_all_l1(ev)[j]).0 == ev.markets[j].asset_pair
            &&& spec_get_l1(ev, ev.markets[j].asset_pair) == Ok::<OrderbookL1, GetOrderbookError>(spec_all_l1(ev)[j].1)
        },
{
    assert forall|j: int| 0 <= j < ev.markets.len() implies {
        &&& (#[trigger] spec_all_l1(ev)[j]).0 == ev.markets[j].asset_pair
        &&& spec_get_l1(ev, ev.markets[j].asset_pair) == Ok::<OrderbookL1, GetOrderbookError>(spec_all_l1(ev)[j].1)
    } by {
        lemma_market_index_unique(ev.markets, ev.markets[j].asset_pair, j);
    }
}

/// What `handle_command` does with `command` at time `ts`: the exchange
/// after it, and the result it returns.
pub open spec fn spec_handle(ev: ExchangeView, command: Command, ts: u64, after: ExchangeView, r: CommandResult) -> bool {
    match command {
        Command::OrderInsert(req) => {
            let (ev2, res) = spec_exchange_insert(ev, req, ts);
            after == ev2 && r == CommandResult::OrderInsert(res)
        },
        Command::OrderCancel(req) => {
            let (ev2, res) = spec_exchange_cancel(ev, req);
            after == ev2 && r == CommandResult::OrderCancel(res)
        },
        Command::OrderModify(req) => {
            let (ev2, res) = spec_exchange_modify(ev, req);
            after == ev2 && r == CommandResult::OrderModify(res)
        },
        Command::AddMarket(pair) => {
            let (ev2, res) = spec_exchange_add_market(ev, pair);
            after == ev2 && r == CommandResult::AddMarket(res)
        },
        Command::GetBalance(account, asset) => after == ev && r == CommandResult::GetBalance(spec_get_balance(ev, account, asset)),
        Command::GetOrderbookL1(pair) => after == ev && r == CommandResult::GetOrderbookL1(spec_get_l1(ev, pair)),
        Command::GetOrderbookL2(pair) => after == ev && match r {
            CommandResult::GetOrderbookL2(res) => match market_index(ev.markets, pair) {
                None => res == Err::<crate::orderbook::OrderbookL2, GetOrderbookError>(GetOrderbookError::MarketDoesNotExist),
                Some(i) => res is Ok && res->Ok_0.bids@ == l2_side(Side::Bid, ev.markets[i].book.bids)
                    && res->Ok_0.asks@ == l2_side(Side::Ask, ev.markets[i].book.asks),
            },
            _ => false,
        },
        Command::GetAssets() => after == ev && match r {
            CommandResult::GetAssets(v) => v@ == ev.assets,
            _ => false,
        },
        Command::GetAllOrderbookL1() => after == ev && match r {
            CommandResult::GetAllOrderbookL1(v) => v@ == spec_all_l1(ev),
            _ => false,
        },
        Command::GetLast100Transactions() => after == ev && match r {
            CommandResult::GetLast100Transactions(v) => v@ == ev.recent,
            _ => false,
        },
    }
}

impl Exchange {
    fn get_orderbook_l1(&self, pair: AssetIdPair) -> (r: GetOrderBookL1Result)
        requires
            self.wf(),
        ensures
            r == spec_get_l1(self@, pair),
    {
        match self.market_position(&pair) {
            None => Err(GetOrderbookError::MarketDoesNotExist),
            Some(i) => {
                assert(self@.markets[i as int] == self.markets.inner@[i as int]@);
                Ok(self.markets.inner[i].get_l1())
            },
        }
    }

    fn get_orderbook_l2(&self, pair: AssetIdPair) -> (r: GetOrderBookL2Result)
        requires
            self.wf(),
        ensures
            match market_index(self@.markets, pair) {
                None => r == Err::<crate::orderbook::OrderbookL2, GetOrderbookError>(GetOrderbookError::MarketDoesNotExist),
                Some(i) => r is Ok && r->Ok_0.bids@ == l2_side(Side::Bid, self@.markets[i].book.bids)
                    && r->Ok_0.asks@ == l2_side(Side::Ask, self@.markets[i].book.asks),
            },
    {
        match self.market_position(&pair) {
            None => Err(GetOrderbookError::MarketDoesNotExist),
            Some(i) => {
                assert(self@.markets[i as int] == self.markets.inner@[i as int]@);
                Ok(self.markets.inner[i].get_l2())
            },
        }
    }

    fn get_all_orderbook_l1(&self) -> (r: Vec<(AssetIdPair, OrderbookL1)>)
        requires
            self.wf(),
        ensures
            r@ == spec_all_l1(self@),
    {
        let n = self.markets.inner.len();
        let mut result: Vec<(AssetIdPair, OrderbookL1)> = Vec::with_capacity(n);
        let mut i: usize = 0;
        while i < n
            invariant
                i <= n,
                n == self.markets.inner@.len(),
                n == self@.markets.len(),
                result@.len() == i,
                forall|j: int| 0 <= j < i ==> #[trigger] result@[j] == spec_all_l1(self@)[j],
            decreases n - i,
        {
            let market = &self.markets.inner[i];
            assert(self@.markets[i as int] == market@);
            result.push((market.asset_pair, market.get_l1()));
            i = i + 1;
        }
        assert(result@ =~= spec_all_l1(self@));
        result
    }

    fn get_last_100_transactions(&self) -> (r: Vec<Transaction>)
        requires
            self.wf(),
        ensures
            r@ == self@.recent,
    {
        self.last_100_tx.get()
    }

    fn get_assets(&self) -> (r: Vec<Asset>)
        ensures
            r@ == self@.assets,
    {
        let n = self.traded_assets.len();
        let mut result: Vec<Asset> = Vec::with_capacity(n);
        let mut i: usize = 0;
        while i < n
            invariant
                i <= n,
                n == self.traded_assets@.len(),
                result@ == self.traded_assets@.subrange(0, i as int),
            decreases n - i,
        {
            result.push(self.traded_assets[i].duplicate());
            i = i + 1;
            assert(result@ =~= self.traded_assets@.subrange(0, i as int));
        }
        assert(self.traded_assets@.subrange(0, n as int) =~= self.traded_assets@);
        result
    }

    fn get_balance(&self, account_id: AccountId, asset_id: AssetId) -> (r: Option<Balance>)
        requires
            self.wf(),
        ensures
            r == spec_get_balance(self@, account_id, asset_id),
    {
        proof { self.lemma_view_accounts_len(); }
        self.balance_book.get(account_id, asset_id)
    }

    /// Runs one command at time `timestamp_ms` (see `spec_handle`).
    pub fn handle_command(&mut self, command: Command, timestamp_ms: u64) -> (r: CommandResult)
        requires
            old(self).wf(),
        ensures
            final(self).wf(),
            spec_handle(old(self)@, command, timestamp_ms, final(self)@, r),
    {
        match command {
            Command::OrderInsert(insertion_req) => CommandResult::OrderInsert(self.insert_order(insertion_req, timestamp_ms)),
            Command::OrderCancel(cancellation) => CommandResult::OrderCancel(self.cancel_order(cancellation)),
            Command::OrderModify(modification) => CommandResult::OrderModify(self.modify_order(modification)),
            Command::AddMarket(pair) => CommandResult::AddMarket(self.add_market(pair)),
            Command::GetBalance(account_id, asset_id) => CommandResult::GetBalance(self.get_balance(account_id, asset_id)),
            Command::GetOrderbookL1(pair) => CommandResult::GetOrderbookL1(self.get_orderbook_l1(pair)),
            Command::GetOrderbookL2(pair) => CommandResult::GetOrderbookL2(self.get_orderbook_l2(pair)),
            Command::GetAssets() => CommandResult::GetAssets(self.get_assets()),
            Command::GetAllOrderbookL1() => CommandResult::GetAllOrderbookL1(self.get_all_orderbook_l1()),
            Command::GetLast100Transactions() => CommandResult::GetLast100Transactions(self.get_last_100_transactions()),
        }
    }
}

/// Every account holds zero of every asset.
pub open spec fn balances_zero(ev: ExchangeView) -> bool {
    forall|a: int, i: int| 0 <= a < ev.balances.len() && 0 <= i < ev.balances[a].len() ==> #[trigger] ev.balances[a][i] == 0
}

/// The sum of a row of balances.
pub open spec fn row_sum(row: Seq<Balance>) -> int
    decreases row.len(),
{
    if row.len() == 0 { 0 } else { row_sum(row.drop_last()) + row.last() }
}

/// `2^64`: balances wrap modulo this.
pub open spec fn balance_modulus() -> int {
    0x1_0000_0000_0000_0000
}

/// In every asset, the balances of all accounts add up to zero (modulo
/// `2^64`, as balances wrap).
pub open spec fn zero_sum(ev: ExchangeView) -> bool {
    forall|a: int| 0 <= a < ev.balances.len() ==> #[trigger] row_sum(ev.balances[a]) % balance_modulus() == 0
}

proof fn lemma_row_sum_update(row: Seq<Balance>, i: int, v: Balance)
    requires
        0 <= i < row.len(),
    ensures
        row_sum(row.update(i, v)) == row_sum(row) - row[i] + v,
    decreases row.len(),
{
    if i == row.len() - 1 {
        assert(row.update(i, v).drop_last() =~= row.drop_last());
    } else {
        lemma_row_sum_update(row.drop_last(), i, v);
        assert(row.update(i, v).drop_last() =~= row.drop_last().update(i, v));
    }
}

proof fn lemma_row_sum_zeros(n: nat)
    ensures
        row_sum(Seq::new(n, |i: int| 0i64)) == 0,
    decreases n,
{
    if n > 0 {
        lemma_row_sum_zeros((n - 1) as nat);
        assert(Seq::new(n, |i: int| 0i64).drop_last() =~= Seq::new((n - 1) as nat, |i: int| 0i64));
    }
}

proof fn lemma_row_sum_push(row: Seq<Balance>, v: Balance)
    ensures
        row_sum(row.push(v)) == row_sum(row) + v,
{
    assert(row.push(v).drop_last() =~= row);
}

/// A transfer changes the sum of every row by a multiple of `2^64`.
proof fn lemma_transfer_zero_sum(b: Seq<Seq<Balance>>, asset: AssetId, from: AccountId, to: AccountId, amount: Balance)
    requires
        asset < b.len(),
        from < b[asset as int].len(),
        to < b[asset as int].len(),
    ensures
        spec_transfer(b, asset, from, to, amount).len() == b.len(),
        forall|a: int| 0 <= a < b.len() ==> #[trigger] spec_transfer(b, asset, from, to, amount)[a].len() == b[a].len(),
        forall|a: int| 0 <= a < b.len() ==> #[trigger] row_sum(spec_transfer(b, asset, from, to, amount)[a]) % balance_modulus()
            == row_sum(b[a]) % balance_modulus(),
{
    let row = b[asset as int];
    let x = row[from as int];
    let ws = crate::balance_book::wrapping_sub_balance(x, amount);
    let row1 = row.update(from as int, ws);
    let y = row1[to as int];
    let wa = crate::balance_book::wrapping_add_balance(y, amount);
    let row2 = row1.update(to as int, wa);
    lemma_row_sum_update(row, from as int, ws);
    lemma_row_sum_update(row1, to as int, wa);
    let k: int = (row_sum(row2) - row_sum(row)) / balance_modulus();
    assert(row_sum(row2) == balance_modulus() * k + row_sum(row)) by {
        assert(ws - x + amount == 0 || ws - x + amount == balance_modulus() || ws - x + amount == -balance_modulus());
        assert(wa - y - amount == 0 || wa - y - amount == balance_modulus() || wa - y - amount == -balance_modulus());
    }
    vstd::arithmetic::div_mod::lemma_mod_multiples_vanish(k, row_sum(row), balance_modulus());
    let b2 = spec_transfer(b, asset, from, to, amount);
    assert forall|a: int| 0 <= a < b.len() implies #[trigger] row_sum(b2[a]) % balance_modulus() == row_sum(b[a]) % balance_modulus() by {
        if a != asset {
            assert(b2[a] == b[a]);
        }
    }
    assert forall|a: int| 0 <= a < b.len() implies #[trigger] b2[a].len() == b[a].len() by {
        if a != asset {
            assert(b2[a] == b[a]);
        }
    }
}

/// Moving `amount` of `asset` from `from` to `to` wraps neither balance:
/// what `from` keeps and what `to` gets both fit in 64 bits.
pub open spec fn transfer_exact(b: Seq<Seq<Balance>>, asset: AssetId, from: AccountId, to: AccountId, amount: Balance) -> bool {
    let row = b[asset as int];
    let kept = row[from as int] - amount;
    let got = (if from == to { kept } else { row[to as int] as int }) + amount;
    &&& i64::MIN <= kept <= i64::MAX
    &&& i64::MIN <= got <= i64::MAX
}

/// A transfer that wraps no balance keeps the sum of every row exactly.
proof fn lemma_transfer_exact_sum(b: Seq<Seq<Balance>>, asset: AssetId, from: AccountId, to: AccountId, amount: Balance)
    requires
        asset < b.len(),
        from < b[asset as int].len(),
        to < b[asset as int].len(),
        transfer_exact(b, asset, from, to, amount),
    ensures
        spec_transfer(b, asset, from, to, amount).len() == b.len(),
        forall|a: int| 0 <= a < b.len() ==> #[trigger] spec_transfer(b, asset, from, to, amount)[a].len() == b[a].len(),
        forall|a: int| 0 <= a < b.len() ==> #[trigger] row_sum(spec_transfer(b, asset, from, to, amount)[a]) == row_sum(b[a]),
{
    let row = b[asset as int];
    let x = row[from as int];
    let ws = crate::balance_book::wrapping_sub_balance(x, amount);
    let row1 = row.update(from as int, ws);
    let y = row1[to as int];
    let wa = crate::balance_book::wrapping_add_balance(y, amount);
    let row2 = row1.update(to as int, wa);
    assert(ws == x - amount);
    assert(wa == y + amount);
    lemma_row_sum_update(row, from as int, ws);
    lemma_row_sum_update(row1, to as int, wa);
    let b2 = spec_transfer(b, asset, from, to, amount);
    assert forall|a: int| 0 <= a < b.len() implies #[trigger] row_sum(b2[a]) == row_sum(b[a]) by {
        if a != asset {
            assert(b2[a] == b[a]);
        }
    }
    assert forall|a: int| 0 <= a < b.len() implies #[trigger] b2[a].len() == b[a].len() by {
        if a != asset {
            assert(b2[a] == b[a]);
        }
    }
}

/// The two transfers of a trade (see `settle_balances`) wrap no balance.
pub open spec fn trade_exact(b: Seq<Seq<Balance>>, pair: AssetIdPair, maker: AccountId, taker: AccountId, tx: ObTransaction) -> bool {
    let vp = spec_volume_to_fixed(tx.volume);
    let vs = spec_fixed_wrapping_mul(vp, tx.price);
    match tx.taker_side {
        Side::Ask => transfer_exact(b, pair.primary, taker, maker, vp)
            && transfer_exact(spec_transfer(b, pair.primary, taker, maker, vp), pair.secondary, maker, taker, vs),
        Side::Bid => transfer_exact(b, pair.primary, maker, taker, vp)
            && transfer_exact(spec_transfer(b, pair.primary, maker, taker, vp), pair.secondary, taker, maker, vs),
    }
}

/// A trade moves value between two accounts and creates none: when neither
/// of its transfers wraps a balance, the balances of every asset add up to
/// exactly what they did.
pub proof fn law_trade_keeps_sums(b: Seq<Seq<Balance>>, pair: AssetIdPair, maker: AccountId, taker: AccountId, tx: ObTransaction)
    requires
        pair.primary < b.len(),
        pair.secondary < b.len(),
        maker < b[pair.primary as int].len() && taker < b[pair.primary as int].len(),
        maker < b[pair.secondary as int].len() && taker < b[pair.secondary as int].len(),
        trade_exact(b, pair, maker, taker, tx),
    ensures
        settle_balances(b, pair, maker, taker, tx).len() == b.len(),
        forall|a: int| 0 <= a < b.len() ==> #[trigger] row_sum(settle_balances(b, pair, maker, taker, tx)[a]) == row_sum(b[a]),
{
    let vp = spec_volume_to_fixed(tx.volume);
    let vs = spec_fixed_wrapping_mul(vp, tx.price);
    match tx.taker_side {
        Side::Ask => {
            lemma_transfer_exact_sum(b, pair.primary, taker, maker, vp);
            lemma_transfer_exact_sum(spec_transfer(b, pair.primary, taker, maker, vp), pair.secondary, maker, taker, vs);
        },
        Side::Bid => {
            lemma_transfer_exact_sum(b, pair.primary, maker, taker, vp);
            lemma_transfer_exact_sum(spec_transfer(b, pair.primary, maker, taker, vp), pair.secondary, taker, maker, vs);
        },
    }
}

/// Settling a trade records it last among the recent transactions, with
/// the market, the price and the volume of the trade, the taker's side, the
/// accounts of the maker and the taker, and the time; the older ones stay,
/// but for the oldest when a hundred are already kept.
pub proof fn law_settle_records_the_trade(ev: ExchangeView, pair: AssetIdPair, tx: ObTransaction, ts: u64)
    requires
        tx.order_id_maker < ev.orders.len(),
        tx.order_id_taker < ev.orders.len(),
    ensures
        ({
            let after = settle_one(ev, pair, tx, ts);
            &&& after.recent.last() == Transaction {
                market: pair,
                price: tx.price,
                volume: tx.volume,
                taker_side: tx.taker_side,
                maker: ev.orders[tx.order_id_maker as int].1.account_id,
                taker: ev.orders[tx.order_id_taker as int].1.account_id,
                timestamp_ms: ts,
            }
            &&& after.recent.drop_last() == if ev.recent.len() < RECENT_TRANSACTIONS { ev.recent } else { ev.recent.drop_first() }
        }),
{
    let after = settle_one(ev, pair, tx, ts);
    if ev.recent.len() < RECENT_TRANSACTIONS {
        assert(after.recent.drop_last() =~= ev.recent);
    } else {
        assert(after.recent.drop_last() =~= ev.recent.drop_first());
    }
}

/// The total volume of a list of recorded transactions.
pub open spec fn recorded_volume(ts: Seq<Transaction>) -> int
    decreases ts.len(),
{
    if ts.len() == 0 { 0 } else { recorded_volume(ts.drop_last()) + ts.last().volume }
}

/// Settling the transactions of an insertion records one transaction per
/// trade, and, while fewer than a hundred are kept, the volumes recorded add
/// up to the volume traded.
pub proof fn law_settle_records_traded_volume(ev: ExchangeView, pair: AssetIdPair, txs: Seq<ObTransaction>, ts: u64)
    requires
        ev.recent.len() + txs.len() <= RECENT_TRANSACTIONS,
    ensures
        settle(ev, pair, txs, ts).recent.len() == ev.recent.len() + txs.len(),
        recorded_volume(settle(ev, pair, txs, ts).recent) == recorded_volume(ev.recent) + crate::orderbook::txs_volume(txs),
    decreases txs.len(),
{
    if txs.len() > 0 {
        let ev1 = settle_one(ev, pair, txs.last(), ts);
        assert(ev1.recent.drop_last() =~= ev.recent);
        assert(recorded_volume(ev1.recent) == recorded_volume(ev.recent) + txs.last().volume);
        law_settle_records_traded_volume(ev1, pair, txs.drop_last(), ts);
    }
}

/// A trade moves the primary asset from the seller to the buyer (its volume,
/// in whole units) and the secondary asset from the buyer to the seller (the
/// volume times the price), whichever of them is the taker, with wrapping
/// arithmetic; no other balance changes. The seller is the taker of an ask,
/// or the maker against a bid.
pub proof fn law_trade_moves_both_assets(ev: ExchangeView, pair: AssetIdPair, tx: ObTransaction, ts: u64)
    requires
        tx.order_id_maker < ev.orders.len(),
        tx.order_id_taker < ev.orders.len(),
        pair.primary < ev.balances.len(),
        pair.secondary < ev.balances.len(),
        pair.primary != pair.secondary,
        ev.orders[tx.order_id_maker as int].1.account_id < ev.balances[pair.primary as int].len(),
        ev.orders[tx.order_id_maker as int].1.account_id < ev.balances[pair.secondary as int].len(),
        ev.orders[tx.order_id_taker as int].1.account_id < ev.balances[pair.primary as int].len(),
        ev.orders[tx.order_id_taker as int].1.account_id < ev.balances[pair.secondary as int].len(),
        ev.orders[tx.order_id_maker as int].1.account_id != ev.orders[tx.order_id_taker as int].1.account_id,
    ensures
        ({
            let b = ev.balances;
            let after = settle_one(ev, pair, tx, ts).balances;
            let maker = ev.orders[tx.order_id_maker as int].1.account_id as int;
            let taker = ev.orders[tx.order_id_taker as int].1.account_id as int;
            let seller = if tx.taker_side == Side::Ask { taker } else { maker };
            let buyer = if tx.taker_side == Side::Ask { maker } else { taker };
            let vp = spec_volume_to_fixed(tx.volume);
            let vs = spec_fixed_wrapping_mul(vp, tx.price);
            let p = pair.primary as int;
            let q = pair.secondary as int;
            &&& after.len() == b.len()
            &&& after[p][seller] == crate::balance_book::wrapping_sub_balance(b[p][seller], vp)
            &&& after[p][buyer] == crate::balance_book::wrapping_add_balance(b[p][buyer], vp)
            &&& after[q][seller] == crate::balance_book::wrapping_add_balance(b[q][seller], vs)
            &&& after[q][buyer] == crate::balance_book::wrapping_sub_balance(b[q][buyer], vs)
            &&& forall|a: int| 0 <= a < b.len() ==> (#[trigger] after[a]).len() == b[a].len()
            &&& forall|a: int, i: int| 0 <= a < b.len() && 0 <= i < b[a].len()
                && !((a == p || a == q) && (i == seller || i == buyer)) ==> #[trigger] after[a][i] == b[a][i]
        }),
{
    let mi = tx.order_id_maker as int;
    let ti = tx.order_id_taker as int;
    let orders1 = ev.orders.update(mi, (ev.orders[mi].0, settle_order(ev.orders[mi].1, tx.volume)));
    assert(orders1[ti].1.account_id == ev.orders[ti].1.account_id);
    let b = ev.balances;
    let maker = ev.orders[mi].1.account_id;
    let taker = ev.orders[ti].1.account_id;
    let vp = spec_volume_to_fixed(tx.volume);
    let vs = spec_fixed_wrapping_mul(vp, tx.price);
    let after = settle_one(ev, pair, tx, ts).balances;
    assert(after == settle_balances(b, pair, maker, taker, tx));
    let (f1, t1, f2, t2) = if tx.taker_side == Side::Ask { (taker, maker, maker, taker) } else { (maker, taker, taker, maker) };
    let b1 = spec_transfer(b, pair.primary, f1, t1, vp);
    assert(after == spec_transfer(b1, pair.secondary, f2, t2, vs)) by {
        match tx.taker_side { Side::Ask => {}, Side::Bid => {} }
    }
    assert(b1[pair.secondary as int] == b[pair.secondary as int]);
    assert forall|a: int| 0 <= a < b.len() implies (#[trigger] after[a]).len() == b[a].len() by {
        if a != pair.primary && a != pair.secondary {
            assert(after[a] == b[a]);
        }
    }
}

/// What settling needs: every balance row covers every account, the pair
/// trades listed assets, every order belongs to an account, and the
/// transactions name existing orders.
pub open spec fn settle_ready(ev: ExchangeView, pair: AssetIdPair, txs: Seq<ObTransaction>) -> bool {
    &&& forall|a: int| 0 <= a < ev.balances.len() ==> #[trigger] ev.balances[a].len() == ev.account_names.len()
    &&& pair.primary < ev.balances.len()
    &&& pair.secondary < ev.balances.len()
    &&& forall|i: int| 0 <= i < ev.orders.len() ==> (#[trigger] ev.orders[i]).1.account_id < ev.account_names.len()
    &&& forall|j: int| 0 <= j < txs.len() ==> (#[trigger] txs[j]).order_id_maker < ev.orders.len()
        && txs[j].order_id_taker < ev.orders.len()
}

/// Every command keeps the balances of every asset summing to zero: a trade
/// moves value between two accounts and creates none.
pub proof fn law_commands_keep_zero_sum(ev: ExchangeView, command: Command, ts: u64, after: ExchangeView, r: CommandResult)
    requires
        ev.wf(),
        zero_sum(ev),
        spec_handle(ev, command, ts, after, r),
    ensures
        zero_sum(after),
{
    law_commands_keep_balance_sums(ev, command, ts, after, r);
    assert forall|a: int| 0 <= a < after.balances.len() implies #[trigger] row_sum(after.balances[a]) % balance_modulus() == 0 by {
        assert(row_sum(ev.balances[a]) % balance_modulus() == 0);
    }
}

/// Listing an asset or opening an account keeps the balances of every asset
/// summing to zero: the new balances are zero.
pub proof fn law_new_balances_keep_zero_sum(ev: ExchangeView, after: ExchangeView)
    requires
        zero_sum(ev),
        after.balances == ev.balances.push(Seq::new(ev.account_names.len(), |i: int| 0i64))
            || after.balances == Seq::new(ev.balances.len(), |a: int| ev.balances[a].push(0i64)),
    ensures
        zero_sum(after),
{
    if after.balances == ev.balances.push(Seq::new(ev.account_names.len(), |i: int| 0i64)) {
        lemma_row_sum_zeros(ev.account_names.len());
        assert forall|a: int| 0 <= a < after.balances.len() implies #[trigger] row_sum(after.balances[a]) % balance_modulus() == 0 by {
            if a < ev.balances.len() {
                assert(after.balances[a] == ev.balances[a]);
            }
        }
    } else {
        assert forall|a: int| 0 <= a < after.balances.len() implies #[trigger] row_sum(after.balances[a]) % balance_modulus() == 0 by {
            lemma_row_sum_push(ev.balances[a], 0i64);
            assert(row_sum(ev.balances[a]) % balance_modulus() == 0);
        }
    }
}

/// Every book of the exchange has each bid below each ask.
pub open spec fn books_uncrossed(ev: ExchangeView) -> bool {
    forall|i: int| 0 <= i < ev.markets.len() ==> crate::orderbook::uncrossed(#[trigger] ev.markets[i].book)
}

/// Settling transactions leaves the markets alone.
pub(crate) proof fn lemma_settle_markets(ev: ExchangeView, pair: AssetIdPair, txs: Seq<ObTransaction>, ts: u64)
    ensures
        settle(ev, pair, txs, ts).markets == ev.markets,
    decreases txs.len(),
{
    if txs.len() > 0 {
        lemma_settle_markets(settle_one(ev, pair, txs.last(), ts), pair, txs.drop_last(), ts);
    }
}

/// Replacing the book of one market by an uncrossed one keeps every book
/// uncrossed.
proof fn lemma_replace_book_uncrossed(ms: Seq<MarketView>, i: int, m2: MarketView)
    requires
        0 <= i < ms.len(),
        forall|j: int| 0 <= j < ms.len() ==> crate::orderbook::uncrossed(#[trigger] ms[j].book),
        crate::orderbook::uncrossed(m2.book),
    ensures
        forall|j: int| 0 <= j < ms.update(i, m2).len() ==> crate::orderbook::uncrossed(#[trigger] ms.update(i, m2)[j].book),
{
    assert forall|j: int| 0 <= j < ms.update(i, m2).len() implies crate::orderbook::uncrossed(#[trigger] ms.update(i, m2)[j].book) by {
        if j != i {
            assert(ms.update(i, m2)[j] == ms[j]);
        }
    }
}

/// Every command keeps each bid below each ask in every book: an incoming
/// order trades while it crosses, and cancellations and modifications only
/// take volume away.
pub proof fn law_commands_keep_books_uncrossed(ev: ExchangeView, command: Command, ts: u64, after: ExchangeView, r: CommandResult)
    requires
        ev.wf(),
        books_uncrossed(ev),
        spec_handle(ev, command, ts, after, r),
    ensures
        books_uncrossed(after),
{
    match command {
        Command::OrderInsert(req) => {
            if let Some(i) = market_index(ev.markets, req.pair) {
                if req.account_id < ev.account_names.len() {
                    let id = ev.orders.len() as OrderId;
                    let ins = req.spec_into_insertion(id);
                    let m = ev.markets[i];
                    let out = spec_insert_order(m.book, ins);
                    if out.result is Ok {
                        let m2 = MarketView {
                            asset_pair: m.asset_pair,
                            last_traded_price: next_last_traded_price(m.last_traded_price, out.result),
                            book: out.book,
                        };
                        let ev1 = ExchangeView {
                            markets: ev.markets.update(i, m2),
                            orders: ev.orders.push((id, PlacedOrder::spec_from_insertion(ins))),
                            ..ev
                        };
                        let j = choose|j: int| 0 <= j < ev.markets.len() && ev.markets[j].asset_pair == req.pair;
                        assert(market_index(ev.markets, req.pair) == Some(j));
                        crate::orderbook::law_insert_keeps_book_uncrossed(m.book, ins);
                        lemma_replace_book_uncrossed(ev.markets, i, m2);
                        lemma_settle_markets(ev1, req.pair, out.txs, ts);
                    }
                }
            }
        },
        Command::OrderCancel(req) => {
            let id = req.order_id;
            if id < ev.orders.len() {
                let o = ev.orders[id as int].1;
                if let Some(i) = market_index(ev.markets, o.pair) {
                    let j = choose|j: int| 0 <= j < ev.markets.len() && ev.markets[j].asset_pair == o.pair;
                    assert(market_index(ev.markets, o.pair) == Some(j));
                    let m = ev.markets[i];
                    let ls = m.book.side(o.side);
                    if rests_at(ls, o.price, id) {
                        crate::orderbook::lemma_occurrences_exist(ls, o.price, id);
                        let (li, lk) = choose|li: int, lk: int| last_occurrence(ls, o.price, id, li, lk);
                        let orders = ls[li].orders.remove(lk);
                        crate::orderbook::law_level_change_keeps_book_uncrossed(m.book, o.side, li, orders);
                        let m2 = MarketView { book: m.book.with_side(o.side, cancelled_side(ls, o.price, id)), ..m };
                        lemma_replace_book_uncrossed(ev.markets, i, m2);
                    }
                }
            }
        },
        Command::OrderModify(req) => {
            let id = req.order_id;
            if id < ev.orders.len() {
                let o = ev.orders[id as int].1;
                if let Some(i) = market_index(ev.markets, o.pair) {
                    let j = choose|j: int| 0 <= j < ev.markets.len() && ev.markets[j].asset_pair == o.pair;
                    assert(market_index(ev.markets, o.pair) == Some(j));
                    let m = ev.markets[i];
                    let ls = m.book.side(o.side);
                    if rests_at(ls, o.price, id) && req.new_volume <= o.volume {
                        crate::orderbook::lemma_occurrences_exist(ls, o.price, id);
                        let (fi, fk) = choose|fi: int, fk: int| first_occurrence(ls, o.price, id, fi, fk);
                        let reduction = (o.volume - req.new_volume) as Volume;
                        crate::orderbook::law_level_change_keeps_book_uncrossed(m.book, o.side, fi, reduced_orders(ls[fi].orders, fk, reduction));
                        let m2 = MarketView { book: m.book.with_side(o.side, modified_side(ls, o.price, id, reduction)), ..m };
                        lemma_replace_book_uncrossed(ev.markets, i, m2);
                    }
                }
            }
        },
        Command::AddMarket(pair) => {
            let ms2 = ev.markets.push(new_market(pair));
            assert forall|k: int| 0 <= k < ms2.len() implies crate::orderbook::uncrossed(#[trigger] ms2[k].book) by {
                if k < ev.markets.len() {
                    assert(ms2[k] == ev.markets[k]);
                }
            }
        },
        _ => {},
    }
}

/// Cancelling an order a second time is refused as `AlreadyCancelled` and
/// changes nothing.
pub proof fn law_cancel_twice(ev: ExchangeView, req: OrderCancellationRequest)
    requires
        spec_exchange_cancel(ev, req).1 is Ok,
    ensures
        spec_exchange_cancel(spec_exchange_cancel(ev, req).0, req)
            == (spec_exchange_cancel(ev, req).0, Err::<(), OrderCancellationError>(OrderCancellationError::AlreadyCancelled)),
{
}

/// Settling transactions keeps the sum of the balances of every asset, modulo
/// `2^64`, whatever it was.
proof fn lemma_settle_sums(ev: ExchangeView, pair: AssetIdPair, txs: Seq<ObTransaction>, ts: u64)
    requires
        settle_ready(ev, pair, txs),
    ensures
        settle(ev, pair, txs, ts).balances.len() == ev.balances.len(),
        forall|a: int| 0 <= a < ev.balances.len() ==> #[trigger] row_sum(settle(ev, pair, txs, ts).balances[a]) % balance_modulus()
            == row_sum(ev.balances[a]) % balance_modulus(),
    decreases txs.len(),
{
    if txs.len() > 0 {
        let tx = txs.last();
        let ev2 = settle_one(ev, pair, tx, ts);
        let mi = tx.order_id_maker as int;
        let ti = tx.order_id_taker as int;
        let maker = ev.orders[mi].1;
        let orders1 = ev.orders.update(mi, (ev.orders[mi].0, settle_order(maker, tx.volume)));
        let taker = orders1[ti].1;
        assert(txs[txs.len() - 1] == tx);
        assert(taker.account_id < ev.account_names.len()) by {
            if ti != mi {
                assert(orders1[ti] == ev.orders[ti]);
            }
        }
        let vp = spec_volume_to_fixed(tx.volume);
        let vs = spec_fixed_wrapping_mul(vp, tx.price);
        let (f1, t1, f2, t2) = match tx.taker_side {
            Side::Ask => (taker.account_id, maker.account_id, maker.account_id, taker.account_id),
            Side::Bid => (maker.account_id, taker.account_id, taker.account_id, maker.account_id),
        };
        let b1 = spec_transfer(ev.balances, pair.primary, f1, t1, vp);
        lemma_transfer_zero_sum(ev.balances, pair.primary, f1, t1, vp);
        lemma_transfer_zero_sum(b1, pair.secondary, f2, t2, vs);
        assert(ev2.balances == spec_transfer(b1, pair.secondary, f2, t2, vs));
        assert(settle_ready(ev2, pair, txs.drop_last())) by {
            assert forall|i: int| 0 <= i < ev2.orders.len() implies (#[trigger] ev2.orders[i]).1.account_id < ev2.account_names.len() by {
                assert(ev.orders[i].1.account_id < ev.account_names.len());
                if i != mi {
                    assert(orders1[i] == ev.orders[i]);
                }
            }
            assert forall|j: int| 0 <= j < txs.drop_last().len() implies (#[trigger] txs.drop_last()[j]).order_id_maker < ev2.orders.len()
                && txs.drop_last()[j].order_id_taker < ev2.orders.len() by {
                assert(txs.drop_last()[j] == txs[j]);
            }
        }
        lemma_settle_sums(ev2, pair, txs.drop_last(), ts);
        assert forall|a: int| 0 <= a < ev.balances.len() implies #[trigger] row_sum(settle(ev, pair, txs, ts).balances[a]) % balance_modulus()
            == row_sum(ev.balances[a]) % balance_modulus() by {
            assert(row_sum(ev2.balances[a]) % balance_modulus() == row_sum(b1[a]) % balance_modulus());
        }
    }
}

/// Every command keeps the sum of the balances of every asset, modulo `2^64`
/// (balances wrap), whatever it was: a trade moves value between two
/// accounts and creates none.
pub proof fn law_commands_keep_balance_sums(ev: ExchangeView, command: Command, ts: u64, after: ExchangeView, r: CommandResult)
    requires
        ev.wf(),
        spec_handle(ev, command, ts, after, r),
    ensures
        after.balances.len() == ev.balances.len(),
        forall|a: int| 0 <= a < ev.balances.len() ==> #[trigger] row_sum(after.balances[a]) % balance_modulus()
            == row_sum(ev.balances[a]) % balance_modulus(),
{
    match command {
        Command::OrderInsert(req) => {
            match market_index(ev.markets, req.pair) {
                None => {},
                Some(i) => {
                    if req.account_id < ev.account_names.len() {
                        let id = ev.orders.len() as OrderId;
                        let n = ev.orders.len() as int;
                        let ins = req.spec_into_insertion(id);
                        let m = ev.markets[i];
                        let out = spec_insert_order(m.book, ins);
                        if out.result is Ok {
                            let m2 = MarketView {
                                asset_pair: m.asset_pair,
                                last_traded_price: next_last_traded_price(m.last_traded_price, out.result),
                                book: out.book,
                            };
                            let ev1 = ExchangeView {
                                markets: ev.markets.update(i, m2),
                                orders: ev.orders.push((id, PlacedOrder::spec_from_insertion(ins))),
                                ..ev
                            };
                            let j = choose|j: int| 0 <= j < ev.markets.len() && ev.markets[j].asset_pair == req.pair;
                            assert(market_index(ev.markets, req.pair) == Some(j));
                            assert(ins.id == n);
                            assert(crate::orderbook::book_ids_below(m.book, n));
                            crate::orderbook::lemma_insert_order_ids(m.book, ins, n);
                            assert(settle_ready(ev1, req.pair, out.txs)) by {
                                assert forall|k: int| 0 <= k < ev1.orders.len() implies (#[trigger] ev1.orders[k]).1.account_id < ev1.account_names.len() by {
                                    if k < n {
                                        assert(ev1.orders[k] == ev.orders[k]);
                                    }
                                }
                                assert forall|k: int| 0 <= k < out.txs.len() implies (#[trigger] out.txs[k]).order_id_maker < ev1.orders.len()
                                    && out.txs[k].order_id_taker < ev1.orders.len() by {
                                }
                            }
                            lemma_settle_sums(ev1, req.pair, out.txs, ts);
                        }
                    }
                },
            }
        },
        _ => {},
    }
}

} // verus!
