use vstd::prelude::*;
use std::collections::VecDeque;
use crate::errors::{OrderInsertionError, OrderCancellationError, OrderModificationError, GetOrderbookError};
use crate::market::{OrderExecutionStatus, OrderCancellationResult, OrderModificationResult};
use crate::order::{OrderType, Side, OrderInsertion, OrderCancellation, OrderModification};
use crate::util::types::{OrderId, AccountId, Volume, Price};

verus! {

/// An order resting in an orderbook.
#[derive(Debug, Clone, Copy, PartialEq, Eq, Structural)]
pub struct OrderbookEntry {
    pub order_id: OrderId,
    pub account_id: AccountId,
    pub remaining_volume: Volume,
}

impl OrderbookEntry {
    pub open spec fn spec_from_insertion(order: OrderInsertion) -> OrderbookEntry {
        OrderbookEntry {
            order_id: order.id,
            account_id: order.account_id,
            remaining_volume: order.volume,
        }
    }

    /// The entry of an order that rests with its whole volume.
    pub fn from_insertion(order: OrderInsertion) -> (r: OrderbookEntry)
        ensures
            r == Self::spec_from_insertion(order),
    {
        OrderbookEntry {
            order_id: order.id,
            account_id: order.account_id,
            remaining_volume: order.volume,
        }
    }
}

/// What an order insertion did in the orderbook.
#[derive(Debug, Clone, Copy, PartialEq, Eq, Structural)]
pub struct ObOrderInsertionEffects {
    pub status: OrderExecutionStatus,
    pub last_traded_price: Option<Price>,
}

/// Orderbook insertion result.
pub type ObOrderInsertionResult = Result<ObOrderInsertionEffects, OrderInsertionError>;

/// Orderbook cancellation result.
pub type ObOrderCancellationResult = Result<(), OrderCancellationError>;

/// A change in the remaining volume of order `id`, always a decrease.
#[derive(Debug, Clone, Copy, PartialEq, Eq, Structural)]
pub struct OrderChange {
    pub id: OrderId,
    pub change: Volume,
}

pub type OrderChangeBuffer = Vec<OrderChange>;

/// A transaction between a resting order (the maker) and an incoming one
/// (the taker) on a particular pair.
#[derive(Debug, Clone, Copy, PartialEq, Eq, Structural)]
pub struct ObTransaction {
    pub price: Price,
    pub volume: Volume,
    pub taker_side: Side,
    pub order_id_maker: OrderId,
    pub order_id_taker: OrderId,
}

/// A buffer of transactions resulting from an order insertion.
pub type ObTransactionBuffer = Vec<ObTransaction>;

/// The aggregate (sum of sizes) of a particular price level.
#[derive(Debug, Clone, Copy, PartialEq, Eq, Structural)]
pub struct PriceLevelAggregate {
    pub price: Price,
    pub volume: Volume,
}

/// An L1 view of an orderbook (best bid/ask + aggregate size).
#[derive(Debug, Clone, Copy, PartialEq, Eq, Structural)]
pub struct OrderbookL1 {
    pub best_bid: Option<PriceLevelAggregate>,
    pub best_ask: Option<PriceLevelAggregate>,
}

/// An L2 view of an orderbook (aggregate size of each price level, in
/// increasing price order on both sides).
#[derive(Debug, Clone, PartialEq, Eq)]
pub struct OrderbookL2 {
    pub asks: Vec<PriceLevelAggregate>,
    pub bids: Vec<PriceLevelAggregate>,
}

pub type GetOrderBookL1Result = Result<OrderbookL1, GetOrderbookError>;

pub type GetOrderBookL2Result = Result<OrderbookL2, GetOrderbookError>;

/// All orders resting at one price, oldest first.
#[derive(Debug, Clone)]
pub struct PriceLevel {
    pub price: Price,
    pub orders: VecDeque<OrderbookEntry>,
}

/// The mathematical content of a price level.
pub struct SpecLevel {
    pub price: Price,
    pub orders: Seq<OrderbookEntry>,
}

impl View for PriceLevel {
    type V = SpecLevel;

    open spec fn view(&self) -> SpecLevel {
        SpecLevel { price: self.price, orders: self.orders@ }
    }
}

pub open spec fn levels_view(v: Seq<PriceLevel>) -> Seq<SpecLevel> {
    v.map_values(|l: PriceLevel| l@)
}

/// The core orderbook that keeps track of all open orders.
///
/// Each side holds its price levels from the worst price to the best one:
/// bids by increasing price, asks by decreasing price. The best level of a
/// side is therefore its last one.
#[derive(Debug, Clone)]
pub struct Orderbook {
    pub bids: Vec<PriceLevel>,
    pub asks: Vec<PriceLevel>,
}

/// The mathematical content of an orderbook: the levels of both sides, each
/// from the worst price to the best one.
pub struct OrderbookView {
    pub bids: Seq<SpecLevel>,
    pub asks: Seq<SpecLevel>,
}

impl OrderbookView {
    pub open spec fn side(self, s: Side) -> Seq<SpecLevel> {
        match s {
            Side::Bid => self.bids,
            Side::Ask => self.asks,
        }
    }

    pub open spec fn with_side(self, s: Side, ls: Seq<SpecLevel>) -> OrderbookView {
        match s {
            Side::Bid => OrderbookView { bids: ls, asks: self.asks },
            Side::Ask => OrderbookView { bids: self.bids, asks: ls },
        }
    }

    /// Price levels are strictly ordered on both sides.
    pub open spec fn wf(self) -> bool {
        &&& sorted_levels(Side::Bid, self.bids)
        &&& sorted_levels(Side::Ask, self.asks)
    }

    /// No resting order has a remaining volume of zero.
    pub open spec fn no_empty_orders(self) -> bool {
        &&& positive_levels(self.bids)
        &&& positive_levels(self.asks)
    }
}

impl View for Orderbook {
    type V = OrderbookView;

    open spec fn view(&self) -> OrderbookView {
        OrderbookView { bids: levels_view(self.bids@), asks: levels_view(self.asks@) }
    }
}

pub open spec fn opposite(s: Side) -> Side {
    match s {
        Side::Bid => Side::Ask,
        Side::Ask => Side::Bid,
    }
}

/// For a resting order on side `s`, price `a` is strictly worse than price
/// `b`: a lower bid, or a higher ask.
pub open spec fn worse(s: Side, a: Price, b: Price) -> bool {
    match s {
        Side::Bid => a < b,
        Side::Ask => a > b,
    }
}

/// The levels of side `s` go from the worst price to the best one, strictly.
pub open spec fn sorted_levels(s: Side, ls: Seq<SpecLevel>) -> bool {
    forall|i: int, j: int| 0 <= i < j < ls.len() ==> worse(s, #[trigger] ls[i].price, #[trigger] ls[j].price)
}

pub open spec fn positive_levels(ls: Seq<SpecLevel>) -> bool {
    forall|i: int, k: int|
        0 <= i < ls.len() && 0 <= k < ls[i].orders.len() ==> (#[trigger] ls[i].orders[k]).remaining_volume > 0
}

/// An incoming order on side `taker` with limit `limit` (none for a market
/// order) may trade with a resting order at `price`.
pub open spec fn crosses(taker: Side, limit: Option<Price>, price: Price) -> bool {
    match limit {
        None => true,
        Some(p) => match taker {
            Side::Bid => price <= p,
            Side::Ask => price >= p,
        },
    }
}

/// The limit an order trades under: none for a market order.
pub open spec fn limit_of(order: OrderInsertion) -> Option<Price> {
    if order.order_type == OrderType::Market { None } else { Some(order.price) }
}

/// Total remaining volume of a sequence of resting orders.
pub open spec fn level_volume(os: Seq<OrderbookEntry>) -> int
    decreases os.len(),
{
    if os.len() == 0 { 0 } else { level_volume(os.drop_last()) + os.last().remaining_volume }
}

/// The volume an incoming order can reach: the total of the levels of the
/// opposite side `ls`, from the best one down to the first that does not
/// cross the limit.
pub open spec fn available(taker: Side, limit: Option<Price>, ls: Seq<SpecLevel>) -> int
    decreases ls.len(),
{
    if ls.len() == 0 || !crosses(taker, limit, ls.last().price) {
        0
    } else {
        level_volume(ls.last().orders) + available(taker, limit, ls.drop_last())
    }
}

/// What an incoming order does to one price level.
pub struct LevelFill {
    /// The orders left at the level.
    pub orders: Seq<OrderbookEntry>,
    /// The transactions, in the order they happen.
    pub txs: Seq<ObTransaction>,
    /// The volume of the incoming order still to fill.
    pub remaining: Volume,
    /// The incoming order ran out of volume at this level.
    pub hit_zero: bool,
    /// The incoming order met an order of its own account.
    pub self_trade: bool,
}

pub open spec fn min_volume(a: Volume, b: Volume) -> Volume {
    if a < b { a } else { b }
}

/// The incoming `order`, with `r` still to fill, trades with the orders `os`
/// resting at `price`, oldest first: each trade takes the smaller of the two
/// remaining volumes; a resting order with nothing left leaves the level; it
/// stops as soon as the incoming order has nothing left, after at least one
/// trade, or at an order of the same account.
pub open spec fn fill_level(order: OrderInsertion, price: Price, os: Seq<OrderbookEntry>, r: Volume) -> LevelFill
    decreases os.len(),
{
    if os.len() == 0 {
        LevelFill { orders: os, txs: seq![], remaining: r, hit_zero: false, self_trade: false }
    } else if os[0].account_id == order.account_id {
        LevelFill { orders: os, txs: seq![], remaining: r, hit_zero: false, self_trade: true }
    } else {
        let o = os[0];
        let tv = min_volume(r, o.remaining_volume);
        let tx = ObTransaction {
            price,
            volume: tv,
            taker_side: order.side,
            order_id_maker: o.order_id,
            order_id_taker: order.id,
        };
        let left = (o.remaining_volume - tv) as Volume;
        let r2 = (r - tv) as Volume;
        if r2 == 0 {
            LevelFill {
                orders: if left == 0 {
                    os.drop_first()
                } else {
                    os.update(0, OrderbookEntry { remaining_volume: left, ..o })
                },
                txs: seq![tx],
                remaining: 0,
                hit_zero: true,
                self_trade: false,
            }
        } else {
            let rest = fill_level(order, price, os.drop_first(), r2);
            LevelFill {
                orders: rest.orders,
                txs: seq![tx] + rest.txs,
                remaining: rest.remaining,
                hit_zero: rest.hit_zero,
                self_trade: rest.self_trade,
            }
        }
    }
}

/// What an incoming order does to the opposite side of the book.
pub struct MatchResult {
    /// The levels left on the opposite side.
    pub levels: Seq<SpecLevel>,
    /// The transactions, in the order they happen.
    pub txs: Seq<ObTransaction>,
    /// The volume of the incoming order still to fill.
    pub remaining: Volume,
    /// The price of the level where the incoming order ran out of volume.
    pub last_price: Option<Price>,
    /// The incoming order would trade with an order of its own account.
    pub self_trade: bool,
}

/// The incoming `order`, with `r` still to fill and limit `limit`, trades
/// with the opposite side `ls`, best level first, while levels cross the
/// limit: a level left without orders is removed, and it stops at the level
/// where the incoming order runs out of volume.
pub open spec fn match_levels(order: OrderInsertion, limit: Option<Price>, ls: Seq<SpecLevel>, r: Volume) -> MatchResult
    decreases ls.len(),
{
    if ls.len() == 0 || !crosses(order.side, limit, ls.last().price) {
        MatchResult { levels: ls, txs: seq![], remaining: r, last_price: None, self_trade: false }
    } else {
        let best = ls.last();
        let lf = fill_level(order, best.price, best.orders, r);
        let rest = ls.drop_last();
        if lf.self_trade {
            MatchResult { levels: ls, txs: seq![], remaining: r, last_price: None, self_trade: true }
        } else if lf.remaining == 0 {
            MatchResult {
                levels: if lf.orders.len() == 0 {
                    rest
                } else {
                    rest.push(SpecLevel { price: best.price, orders: lf.orders })
                },
                txs: lf.txs,
                remaining: 0,
                last_price: if lf.hit_zero { Some(best.price) } else { None },
                self_trade: false,
            }
        } else {
            let m = match_levels(order, limit, rest, lf.remaining);
            MatchResult {
                levels: m.levels,
                txs: lf.txs + m.txs,
                remaining: m.remaining,
                last_price: m.last_price,
                self_trade: m.self_trade,
            }
        }
    }
}

/// The index at which a level at `price` belongs on side `s`: after every
/// level with a strictly worse price.
pub open spec fn level_position(s: Side, ls: Seq<SpecLevel>, price: Price) -> int
    decreases ls.len(),
{
    if ls.len() == 0 {
        0
    } else if worse(s, ls.last().price, price) {
        ls.len() as int
    } else {
        level_position(s, ls.drop_last(), price)
    }
}

/// Side `s` after `e` rests at `price`: at the back of the level at that
/// price, or alone in a new level at its place.
pub open spec fn insert_resting(s: Side, ls: Seq<SpecLevel>, price: Price, e: OrderbookEntry) -> Seq<SpecLevel> {
    let k = level_position(s, ls, price);
    if k < ls.len() && ls[k].price == price {
        ls.update(k, SpecLevel { price, orders: ls[k].orders.push(e) })
    } else {
        ls.insert(k, SpecLevel { price, orders: seq![e] })
    }
}

/// What inserting `order` does to a book: the result, the book after, and
/// the transactions it makes.
pub struct InsertOutcome {
    pub result: ObOrderInsertionResult,
    pub book: OrderbookView,
    pub txs: Seq<ObTransaction>,
}

/// Inserting `order`: a fill-or-kill order is killed, and a market order
/// refused, when the opposite side cannot supply its volume; an order that
/// would trade with its own account is refused; otherwise it trades (see
/// `match_levels`) and what is left of it rests in the book.
pub open spec fn spec_insert_order(book: OrderbookView, order: OrderInsertion) -> InsertOutcome {
    let opp = opposite(order.side);
    let limit = limit_of(order);
    let supply = available(order.side, limit, book.side(opp));
    if order.order_type == OrderType::FillOrKill && supply < order.volume {
        InsertOutcome { result: Err(OrderInsertionError::OrderKilled), book, txs: seq![] }
    } else if order.order_type == OrderType::Market && supply < order.volume {
        InsertOutcome { result: Err(OrderInsertionError::InadequateVolume), book, txs: seq![] }
    } else {
        let m = match_levels(order, limit, book.side(opp), order.volume);
        if m.self_trade {
            InsertOutcome { result: Err(OrderInsertionError::SelfTrade), book, txs: seq![] }
        } else {
            let after_match = book.with_side(opp, m.levels);
            if m.remaining > 0 {
                let e = OrderbookEntry { order_id: order.id, account_id: order.account_id, remaining_volume: m.remaining };
                InsertOutcome {
                    result: Ok(ObOrderInsertionEffects {
                        status: OrderExecutionStatus::AwaitingFill,
                        last_traded_price: m.last_price,
                    }),
                    book: after_match.with_side(order.side, insert_resting(order.side, book.side(order.side), order.price, e)),
                    txs: m.txs,
                }
            } else {
                InsertOutcome {
                    result: Ok(ObOrderInsertionEffects {
                        status: OrderExecutionStatus::Filled,
                        last_traded_price: m.last_price,
                    }),
                    book: after_match,
                    txs: m.txs,
                }
            }
        }
    }
}

/// Whether an incoming order on side `taker` with limit `limit` may trade at `price`.
fn crosses_exec(taker: Side, limit: Option<Price>, price: Price) -> (b: bool)
    ensures
        b == crosses(taker, limit, price),
{
    match limit {
        None => true,
        Some(p) => match taker {
            Side::Bid => price <= p,
            Side::Ask => price >= p,
        },
    }
}

/// The incoming `order`, with `remaining` still to fill, trades with the
/// orders of one level (see `fill_level`), pushing the transactions.
fn fill_level_exec(
    orders: &mut VecDeque<OrderbookEntry>,
    price: Price,
    order: &OrderInsertion,
    remaining: Volume,
    transaction_buf: &mut ObTransactionBuffer,
) -> (r: (Volume, bool))
    requires
        !fill_level(*order, price, old(orders)@, remaining).self_trade,
    ensures
        ({
            let lf = fill_level(*order, price, old(orders)@, remaining);
            &&& final(orders)@ == lf.orders
            &&& final(transaction_buf)@ == old(transaction_buf)@ + lf.txs
            &&& r.0 == lf.remaining
            &&& r.1 == lf.hit_zero
        }),
{
    let ghost os0 = orders@;
    let ghost buf0 = transaction_buf@;
    let ghost mut done: Seq<ObTransaction> = seq![];
    let mut r = remaining;
    loop
        invariant
            ({
                let lf0 = fill_level(*order, price, os0, remaining);
                let lf = fill_level(*order, price, orders@, r);
                &&& lf0.orders == lf.orders
                &&& lf0.txs == done + lf.txs
                &&& lf0.remaining == lf.remaining
                &&& lf0.hit_zero == lf.hit_zero
                &&& !lf.self_trade
            }),
            transaction_buf@ == buf0 + done,
            os0 == old(orders)@,
            buf0 == old(transaction_buf)@,
        decreases orders@.len(),
    {
        let ghost cur = orders@;
        match orders.pop_front() {
            None => {
                assert(done + seq![] =~= done);
                return (r, false);
            },
            Some(front) => {
                assert(front == cur[0]);
                let tv = if r < front.remaining_volume { r } else { front.remaining_volume };
                let left = front.remaining_volume - tv;
                let r2 = r - tv;
                let tx = ObTransaction {
                    price,
                    volume: tv,
                    taker_side: order.side,
                    order_id_maker: front.order_id,
                    order_id_taker: order.id,
                };
                transaction_buf.push(tx);
                if left > 0 {
                    orders.push_front(OrderbookEntry { remaining_volume: left, ..front });
                    assert(orders@ =~= cur.update(0, OrderbookEntry { remaining_volume: left, ..front }));
                } else {
                    assert(orders@ =~= cur.drop_first());
                }
                if r2 == 0 {
                    assert(transaction_buf@ =~= buf0 + (done + seq![tx]));
                    return (0, true);
                }
                assert(orders@ =~= cur.drop_first());
                proof {
                    assert((done + seq![tx]) + fill_level(*order, price, cur.drop_first(), r2).txs
                        =~= done + (seq![tx] + fill_level(*order, price, cur.drop_first(), r2).txs));
                    done = done + seq![tx];
                }
                r = r2;
            },
        }
    }
}

/// A level that leaves the incoming order with volume to fill has no orders left.
proof fn lemma_fill_level_exhausts(order: OrderInsertion, price: Price, os: Seq<OrderbookEntry>, r: Volume)
    requires
        !fill_level(order, price, os, r).self_trade,
        fill_level(order, price, os, r).remaining > 0,
    ensures
        fill_level(order, price, os, r).orders.len() == 0,
    decreases os.len(),
{
    if os.len() > 0 && os[0].account_id != order.account_id {
        let tv = min_volume(r, os[0].remaining_volume);
        if r - tv != 0 {
            lemma_fill_level_exhausts(order, price, os.drop_first(), (r - tv) as Volume);
        }
    }
}

proof fn lemma_levels_view_pop(v: Seq<PriceLevel>)
    requires
        v.len() > 0,
    ensures
        levels_view(v).drop_last() == levels_view(v.drop_last()),
        levels_view(v).last() == v.last()@,
        levels_view(v).len() == v.len(),
{
    assert(levels_view(v).drop_last() =~= levels_view(v.drop_last()));
}

proof fn lemma_levels_view_push(v: Seq<PriceLevel>, l: PriceLevel)
    ensures
        levels_view(v.push(l)) == levels_view(v).push(l@),
{
    assert(levels_view(v.push(l)) =~= levels_view(v).push(l@));
}

/// The incoming `order` trades with the opposite side `levels` (see
/// `match_levels`), pushing the transactions; returns the volume still to
/// fill and the price of the level where it ran out.
fn match_side(
    levels: &mut Vec<PriceLevel>,
    order: &OrderInsertion,
    limit: Option<Price>,
    transaction_buf: &mut ObTransactionBuffer,
) -> (r: (Volume, Option<Price>))
    requires
        !match_levels(*order, limit, levels_view(old(levels)@), order.volume).self_trade,
    ensures
        ({
            let m = match_levels(*order, limit, levels_view(old(levels)@), order.volume);
            &&& levels_view(final(levels)@) == m.levels
            &&& final(transaction_buf)@ == old(transaction_buf)@ + m.txs
            &&& r.0 == m.remaining
            &&& r.1 == m.last_price
        }),
{
    let ghost ls0 = levels_view(levels@);
    let ghost buf0 = transaction_buf@;
    let ghost mut done: Seq<ObTransaction> = seq![];
    let mut remaining = order.volume;
    loop
        invariant
            ({
                let m0 = match_levels(*order, limit, ls0, order.volume);
                let m = match_levels(*order, limit, levels_view(levels@), remaining);
                &&& m0.levels == m.levels
                &&& m0.txs == done + m.txs
                &&& m0.remaining == m.remaining
                &&& m0.last_price == m.last_price
                &&& !m.self_trade
            }),
            transaction_buf@ == buf0 + done,
            ls0 == levels_view(old(levels)@),
            buf0 == old(transaction_buf)@,
        decreases levels@.len(),
    {
        let ghost cur = levels@;
        let n = levels.len();
        if n == 0 {
            assert(done + seq![] =~= done);
            return (remaining, None);
        }
        let price = levels[n - 1].price;
        proof { lemma_levels_view_pop(cur); }
        if !crosses_exec(order.side, limit, price) {
            assert(done + seq![] =~= done);
            return (remaining, None);
        }
        let mut level = levels.pop().unwrap();
        assert(level == cur.last());
        let ghost lf = fill_level(*order, price, level.orders@, remaining);
        let ghost lf_orders0 = level.orders@;
        let ghost buf_before = transaction_buf@;
        let (r2, hit) = fill_level_exec(&mut level.orders, price, order, remaining, transaction_buf);
        let ghost rest = levels@;
        proof {
            if r2 > 0 {
                lemma_fill_level_exhausts(*order, price, lf_orders0, remaining);
            }
        }
        if level.orders.len() > 0 {
            levels.push(level);
            proof { lemma_levels_view_push(rest, level); }
        }
        if r2 == 0 {
            assert(transaction_buf@ =~= buf0 + (done + lf.txs));
            assert(lf.txs + seq![] =~= lf.txs);
            return (0, if hit { Some(price) } else { None });
        }
        proof {
            assert((done + lf.txs) + match_levels(*order, limit, levels_view(rest), r2).txs
                =~= done + (lf.txs + match_levels(*order, limit, levels_view(rest), r2).txs));
            done = done + lf.txs;
        }
        remaining = r2;
    }
}

proof fn lemma_levels_view_take(v: Seq<PriceLevel>, i: int)
    requires
        0 < i <= v.len(),
    ensures
        levels_view(v).take(i).last() == v[i - 1]@,
        levels_view(v).take(i).drop_last() == levels_view(v).take(i - 1),
        levels_view(v).take(i).len() == i,
{
    assert(levels_view(v).take(i).drop_last() =~= levels_view(v).take(i - 1));
}

#[verifier::loop_isolation(false)]
/// Whether the incoming `order` would meet an order of its own account when
/// trading with the opposite side `levels` (see `match_levels`).
fn would_self_trade(levels: &Vec<PriceLevel>, order: &OrderInsertion, limit: Option<Price>) -> (b: bool)
    ensures
        b == match_levels(*order, limit, levels_view(levels@), order.volume).self_trade,
{
    let ghost ls = levels_view(levels@);
    let mut i = levels.len();
    let mut r = order.volume;
    assert(ls.take(i as int) =~= ls);
    loop
        invariant
            i <= levels@.len(),
            ls == levels_view(levels@),
            match_levels(*order, limit, ls, order.volume).self_trade
                == match_levels(*order, limit, ls.take(i as int), r).self_trade,
        decreases i,
    {
        if i == 0 {
            return false;
        }
        proof { lemma_levels_view_take(levels@, i as int); }
        let level = &levels[i - 1];
        let price = level.price;
        if !crosses_exec(order.side, limit, price) {
            return false;
        }
        let ghost os = level.orders@;
        let ghost r0 = r;
        let n = level.orders.len();
        let mut j: usize = 0;
        assert(os.skip(0) =~= os);
        while j < n
            invariant
                j <= n,
                n == os.len(),
                os == level.orders@,
                fill_level(*order, price, os, r0).self_trade == fill_level(*order, price, os.skip(j as int), r).self_trade,
                fill_level(*order, price, os, r0).remaining == fill_level(*order, price, os.skip(j as int), r).remaining,
                j > 0 ==> r > 0,
            decreases n - j,
        {
            let o = level.orders[j];
            assert(os.skip(j as int)[0] == o);
            if o.account_id == order.account_id {
                return true;
            }
            let tv = if r < o.remaining_volume { r } else { o.remaining_volume };
            if r - tv == 0 {
                return false;
            }
            assert(os.skip(j as int).drop_first() =~= os.skip(j + 1));
            r = r - tv;
            j = j + 1;
        }
        assert(os.skip(j as int) =~= Seq::<OrderbookEntry>::empty());
        if r == 0 {
            return false;
        }
        i = i - 1;
    }
}

proof fn lemma_level_volume_take(os: Seq<OrderbookEntry>, j: int)
    requires
        0 <= j < os.len(),
    ensures
        level_volume(os.take(j + 1)) == level_volume(os.take(j)) + os[j].remaining_volume,
{
    assert(os.take(j + 1).drop_last() =~= os.take(j));
}

proof fn lemma_level_volume_prefix(os: Seq<OrderbookEntry>, j: int)
    requires
        0 <= j <= os.len(),
    ensures
        level_volume(os.take(j)) <= level_volume(os),
        level_volume(os.take(j)) >= 0,
    decreases os.len() - j,
{
    if j == os.len() {
        assert(os.take(j) =~= os);
        lemma_level_volume_nonneg(os);
    } else {
        lemma_level_volume_take(os, j);
        lemma_level_volume_prefix(os, j + 1);
    }
    lemma_level_volume_nonneg(os.take(j));
}

proof fn lemma_level_volume_nonneg(os: Seq<OrderbookEntry>)
    ensures
        level_volume(os) >= 0,
    decreases os.len(),
{
    if os.len() > 0 {
        lemma_level_volume_nonneg(os.drop_last());
    }
}

proof fn lemma_available_nonneg(taker: Side, limit: Option<Price>, ls: Seq<SpecLevel>)
    ensures
        available(taker, limit, ls) >= 0,
    decreases ls.len(),
{
    if ls.len() > 0 && crosses(taker, limit, ls.last().price) {
        lemma_level_volume_nonneg(ls.last().orders);
        lemma_available_nonneg(taker, limit, ls.drop_last());
    }
}

#[verifier::loop_isolation(false)]
/// Whether the opposite side `levels` can supply `volume` to an incoming
/// order on side `taker` with limit `limit` (see `available`).
fn available_at_least(levels: &Vec<PriceLevel>, taker: Side, limit: Option<Price>, volume: Volume) -> (b: bool)
    ensures
        b == (available(taker, limit, levels_view(levels@)) >= volume),
{
    let ghost ls = levels_view(levels@);
    proof { lemma_available_nonneg(taker, limit, ls); }
    if volume == 0 {
        return true;
    }
    let mut i = levels.len();
    let mut acc: u64 = 0;
    assert(ls.take(i as int) =~= ls);
    loop
        invariant
            i <= levels@.len(),
            ls == levels_view(levels@),
            acc < volume,
            available(taker, limit, ls) == acc + available(taker, limit, ls.take(i as int)),
        decreases i,
    {
        if i == 0 {
            return false;
        }
        proof { lemma_levels_view_take(levels@, i as int); }
        let level = &levels[i - 1];
        if !crosses_exec(taker, limit, level.price) {
            return false;
        }
        let ghost os = level.orders@;
        proof { lemma_available_nonneg(taker, limit, ls.take(i - 1)); }
        let n = level.orders.len();
        let mut j: usize = 0;
        let mut lacc = acc;
        assert(os.take(0) =~= Seq::<OrderbookEntry>::empty());
        while j < n
            invariant
                j <= n,
                n == os.len(),
                os == level.orders@,
                lacc == acc + level_volume(os.take(j as int)),
                lacc < volume,
            decreases n - j,
        {
            proof { lemma_level_volume_take(os, j as int); }
            lacc = lacc + level.orders[j].remaining_volume as u64;
            if lacc >= volume as u64 {
                proof {
                    lemma_level_volume_prefix(os, j + 1);
                }
                return true;
            }
            j = j + 1;
        }
        assert(os.take(j as int) =~= os);
        acc = lacc;
        i = i - 1;
    }
}

/// The aggregate of a level: its price and its total remaining volume,
/// wrapped to 32 bits.
pub open spec fn aggregate(l: SpecLevel) -> PriceLevelAggregate {
    PriceLevelAggregate { price: l.price, volume: (level_volume(l.orders) % 0x1_0000_0000) as u32 }
}

fn level_aggregate(level: &PriceLevel) -> (r: PriceLevelAggregate)
    ensures
        r == aggregate(level@),
{
    let ghost os = level.orders@;
    let n = level.orders.len();
    let mut acc: u128 = 0;
    let mut j: usize = 0;
    assert(os.take(0) =~= Seq::<OrderbookEntry>::empty());
    while j < n
        invariant
            j <= n,
            n == os.len(),
            os == level.orders@,
            acc == level_volume(os.take(j as int)),
            acc <= j * 0xFFFF_FFFFu128,
        decreases n - j,
    {
        proof { lemma_level_volume_take(os, j as int); }
        acc = acc + level.orders[j].remaining_volume as u128;
        j = j + 1;
    }
    assert(os.take(j as int) =~= os);
    PriceLevelAggregate { price: level.price, volume: (acc % 0x1_0000_0000) as u32 }
}

/// The L1 view of a book: the aggregate of the best level of each side.
pub open spec fn spec_l1(b: OrderbookView) -> OrderbookL1 {
    OrderbookL1 {
        best_bid: if b.bids.len() == 0 { None } else { Some(aggregate(b.bids.last())) },
        best_ask: if b.asks.len() == 0 { None } else { Some(aggregate(b.asks.last())) },
    }
}

/// The L1 view of a book reports the highest bid level and the lowest ask
/// level, each with the volume resting there (modulo `2^32`), and nothing
/// for an empty side.
pub proof fn law_l1_best_levels(b: OrderbookView)
    requires
        b.wf(),
    ensures
        spec_l1(b).best_bid is None <==> b.bids.len() == 0,
        spec_l1(b).best_ask is None <==> b.asks.len() == 0,
        spec_l1(b).best_bid matches Some(a) ==> exists|i: int| 0 <= i < b.bids.len() && {
            &&& a.price == (#[trigger] b.bids[i]).price
            &&& a.volume == level_volume(b.bids[i].orders) % 0x1_0000_0000
            &&& forall|j: int| 0 <= j < b.bids.len() ==> (#[trigger] b.bids[j]).price <= a.price
        },
        spec_l1(b).best_ask matches Some(a) ==> exists|i: int| 0 <= i < b.asks.len() && {
            &&& a.price == (#[trigger] b.asks[i]).price
            &&& a.volume == level_volume(b.asks[i].orders) % 0x1_0000_0000
            &&& forall|j: int| 0 <= j < b.asks.len() ==> (#[trigger] b.asks[j]).price >= a.price
        },
{
    if b.bids.len() > 0 {
        let n = b.bids.len() - 1;
        assert(b.bids.last() == b.bids[n]);
        assert forall|j: int| 0 <= j < b.bids.len() implies (#[trigger] b.bids[j]).price <= b.bids[n].price by {
            if j < n {
                assert(worse(Side::Bid, b.bids[j].price, b.bids[n].price));
            }
        }
    }
    if b.asks.len() > 0 {
        let n = b.asks.len() - 1;
        assert(b.asks.last() == b.asks[n]);
        assert forall|j: int| 0 <= j < b.asks.len() implies (#[trigger] b.asks[j]).price >= b.asks[n].price by {
            if j < n {
                assert(worse(Side::Ask, b.asks[j].price, b.asks[n].price));
            }
        }
    }
}

/// The aggregates of the levels of a side, by increasing price.
pub open spec fn l2_side(s: Side, ls: Seq<SpecLevel>) -> Seq<PriceLevelAggregate> {
    match s {
        Side::Bid => Seq::new(ls.len(), |i: int| aggregate(ls[i])),
        Side::Ask => Seq::new(ls.len(), |i: int| aggregate(ls[ls.len() - 1 - i])),
    }
}

/// A level of side `s` holds the order `id` at index `k`, and no later
/// index of the level holds it.
pub open spec fn last_occurrence(ls: Seq<SpecLevel>, price: Price, id: OrderId, i: int, k: int) -> bool {
    &&& 0 <= i < ls.len()
    &&& ls[i].price == price
    &&& 0 <= k < ls[i].orders.len()
    &&& ls[i].orders[k].order_id == id
    &&& forall|k2: int| k < k2 < ls[i].orders.len() ==> ls[i].orders[k2].order_id != id
}

/// The level at `price` holds the order `id` at index `k`, and no earlier
/// index of the level holds it.
pub open spec fn first_occurrence(ls: Seq<SpecLevel>, price: Price, id: OrderId, i: int, k: int) -> bool {
    &&& 0 <= i < ls.len()
    &&& ls[i].price == price
    &&& 0 <= k < ls[i].orders.len()
    &&& ls[i].orders[k].order_id == id
    &&& forall|k2: int| 0 <= k2 < k ==> ls[i].orders[k2].order_id != id
}

/// Some level at `price` holds the order `id`.
pub open spec fn rests_at(ls: Seq<SpecLevel>, price: Price, id: OrderId) -> bool {
    exists|i: int, k: int|
        0 <= i < ls.len() && ls[i].price == price && 0 <= k < ls[i].orders.len()
            && (#[trigger] ls[i].orders[k]).order_id == id
}

/// The index of a level at `price`, if there is one.
fn find_level(levels: &Vec<PriceLevel>, price: Price) -> (r: Option<usize>)
    ensures
        match r {
            Some(i) => i < levels@.len() && levels@[i as int].price == price,
            None => forall|i: int| 0 <= i < levels@.len() ==> levels@[i].price != price,
        },
{
    let n = levels.len();
    let mut i: usize = 0;
    while i < n
        invariant
            i <= n,
            n == levels@.len(),
            forall|i2: int| 0 <= i2 < i ==> levels@[i2].price != price,
        decreases n - i,
    {
        if levels[i].price == price {
            return Some(i);
        }
        i = i + 1;
    }
    None
}

proof fn lemma_unique_level(s: Side, ls: Seq<SpecLevel>, i: int, j: int)
    requires
        sorted_levels(s, ls),
        0 <= i < ls.len(),
        0 <= j < ls.len(),
        ls[i].price == ls[j].price,
    ensures
        i == j,
{
    if i < j {
        assert(worse(s, ls[i].price, ls[j].price));
    } else if j < i {
        assert(worse(s, ls[j].price, ls[i].price));
    }
}

/// Removes the last occurrence of order `id` from the level at `price`.
fn cancel_in_side(levels: &mut Vec<PriceLevel>, s: Side, price: Price, id: OrderId) -> (found: bool)
    requires
        sorted_levels(s, levels_view(old(levels)@)),
    ensures
        ({
            let ls = levels_view(old(levels)@);
            let ls2 = levels_view(final(levels)@);
            &&& found ==> exists|i: int, k: int| #[trigger] last_occurrence(ls, price, id, i, k)
                && ls2 == remove_at(ls, i, k)
            &&& !found ==> ls2 == ls && !rests_at(ls, price, id)
        }),
{
    let ghost ls = levels_view(levels@);
    match find_level(levels, price) {
        None => {
            assert forall|i: int, k: int|
                0 <= i < ls.len() && ls[i].price == price && 0 <= k < ls[i].orders.len()
                implies (#[trigger] ls[i].orders[k]).order_id != id by {
                assert(levels@[i].price != price);
            }
            false
        },
        Some(i) => {
            let ghost os = levels@[i as int].orders@;
            let n = levels[i].orders.len();
            let mut idx: Option<usize> = None;
            let mut j: usize = 0;
            while j < n
                invariant
                    j <= n,
                    n == os.len(),
                    i < levels@.len(),
                    os == levels@[i as int].orders@,
                    match idx {
                        Some(k) => k < j && os[k as int].order_id == id
                            && forall|k2: int| k < k2 < j ==> os[k2].order_id != id,
                        None => forall|k2: int| 0 <= k2 < j ==> os[k2].order_id != id,
                    },
                decreases n - j,
            {
                if levels[i].orders[j].order_id == id {
                    idx = Some(j);
                }
                j = j + 1;
            }
            match idx {
                None => {
                    assert forall|i2: int, k: int|
                        0 <= i2 < ls.len() && ls[i2].price == price && 0 <= k < ls[i2].orders.len()
                        implies (#[trigger] ls[i2].orders[k]).order_id != id by {
                        lemma_unique_level(s, ls, i as int, i2);
                    }
                    false
                },
                Some(k) => {
                    let ghost old_levels = levels@;
                    let lvl = &mut levels[i];
                    let _ = lvl.orders.remove(k);
                    assert(last_occurrence(ls, price, id, i as int, k as int));
                    let ghost mid = levels@;
                    assert(levels_view(mid) =~= ls.update(i as int, SpecLevel { price, orders: ls[i as int].orders.remove(k as int) }));
                    if levels[i].orders.len() == 0 {
                        let _ = levels.remove(i);
                        assert(levels_view(levels@) =~= levels_view(mid).remove(i as int));
                    }
                    assert(levels_view(levels@) =~= remove_at(ls, i as int, k as int));
                    true
                },
            }
        },
    }
}

/// Side `ls` with the orders of its level `i` replaced by `os`; a level left
/// without orders leaves the side.
pub open spec fn with_level_orders(ls: Seq<SpecLevel>, i: int, os: Seq<OrderbookEntry>) -> Seq<SpecLevel> {
    if os.len() == 0 {
        ls.remove(i)
    } else {
        ls.update(i, SpecLevel { price: ls[i].price, orders: os })
    }
}

/// Side `ls` without the order at index `k` of its level `i`.
pub open spec fn remove_at(ls: Seq<SpecLevel>, i: int, k: int) -> Seq<SpecLevel> {
    with_level_orders(ls, i, ls[i].orders.remove(k))
}

/// The orders `os` after the one at index `k` loses `reduction` of its
/// remaining volume; it leaves when that is all of it.
pub open spec fn reduced_orders(os: Seq<OrderbookEntry>, k: int, reduction: Volume) -> Seq<OrderbookEntry> {
    let o = os[k];
    if reduction >= o.remaining_volume {
        os.remove(k)
    } else {
        os.update(k, OrderbookEntry { remaining_volume: (o.remaining_volume - reduction) as Volume, ..o })
    }
}

/// The order at index `k` of level `i` loses `reduction` of its remaining
/// volume, and leaves the level when that is all of it; a level left
/// without orders leaves the side.
pub open spec fn reduce_at(ls: Seq<SpecLevel>, i: int, k: int, reduction: Volume) -> Seq<SpecLevel> {
    with_level_orders(ls, i, reduced_orders(ls[i].orders, k, reduction))
}

/// Lowers the first occurrence of order `id` at `price` by `reduction`.
fn modify_in_side(levels: &mut Vec<PriceLevel>, s: Side, price: Price, id: OrderId, reduction: Volume) -> (found: bool)
    requires
        sorted_levels(s, levels_view(old(levels)@)),
    ensures
        ({
            let ls = levels_view(old(levels)@);
            let ls2 = levels_view(final(levels)@);
            &&& found ==> exists|i: int, k: int| #[trigger] first_occurrence(ls, price, id, i, k)
                && ls2 == reduce_at(ls, i, k, reduction)
            &&& !found ==> ls2 == ls && !rests_at(ls, price, id)
        }),
{
    let ghost ls = levels_view(levels@);
    match find_level(levels, price) {
        None => {
            assert forall|i: int, k: int|
                0 <= i < ls.len() && ls[i].price == price && 0 <= k < ls[i].orders.len()
                implies (#[trigger] ls[i].orders[k]).order_id != id by {
                assert(levels@[i].price != price);
            }
            false
        },
        Some(i) => {
            let ghost os = levels@[i as int].orders@;
            let n = levels[i].orders.len();
            let mut j: usize = 0;
            while j < n
                invariant
                    j <= n,
                    n == os.len(),
                    i < levels@.len(),
                    os == levels@[i as int].orders@,
                    ls == levels_view(levels@),
                    ls == levels_view(old(levels)@),
                    levels@[i as int].price == price,
                    forall|k2: int| 0 <= k2 < j ==> os[k2].order_id != id,
                decreases n - j,
            {
                if levels[i].orders[j].order_id == id {
                    let o = levels[i].orders[j];
                    assert(first_occurrence(ls, price, id, i as int, j as int));
                    let lvl = &mut levels[i];
                    if reduction >= o.remaining_volume {
                        let _ = lvl.orders.remove(j);
                        let ghost mid = levels@;
                        assert(levels_view(mid) =~= ls.update(i as int, SpecLevel { price, orders: os.remove(j as int) }));
                        if levels[i].orders.len() == 0 {
                            let _ = levels.remove(i);
                            assert(levels_view(levels@) =~= levels_view(mid).remove(i as int));
                        }
                    } else {
                        let mut tmp = VecDeque::new();
                        std::mem::swap(&mut tmp, &mut lvl.orders);
                        let _ = tmp.remove(j);
                        tmp.insert(j, OrderbookEntry { remaining_volume: o.remaining_volume - reduction, ..o });
                        lvl.orders = tmp;
                        assert(lvl.orders@ =~= os.update(j as int, OrderbookEntry { remaining_volume: (o.remaining_volume - reduction) as Volume, ..o }));
                    }
                    assert(levels_view(levels@) =~= reduce_at(ls, i as int, j as int, reduction));
                    return true;
                }
                j = j + 1;
            }
            assert forall|i2: int, k: int|
                0 <= i2 < ls.len() && ls[i2].price == price && 0 <= k < ls[i2].orders.len()
                implies (#[trigger] ls[i2].orders[k]).order_id != id by {
                lemma_unique_level(s, ls, i as int, i2);
            }
            false
        },
    }
}

proof fn lemma_level_position(s: Side, ls: Seq<SpecLevel>, price: Price)
    requires
        sorted_levels(s, ls),
    ensures
        0 <= level_position(s, ls, price) <= ls.len(),
        forall|i: int| 0 <= i < level_position(s, ls, price) ==> worse(s, #[trigger] ls[i].price, price),
        forall|i: int| level_position(s, ls, price) <= i < ls.len() ==> !worse(s, #[trigger] ls[i].price, price),
    decreases ls.len(),
{
    if ls.len() > 0 {
        let l = ls.last();
        if worse(s, l.price, price) {
            assert forall|i: int| 0 <= i < ls.len() implies worse(s, #[trigger] ls[i].price, price) by {
                if i < ls.len() - 1 {
                    assert(worse(s, ls[i].price, ls[ls.len() - 1].price));
                }
            }
        } else {
            let rest = ls.drop_last();
            assert(sorted_levels(s, rest)) by {
                assert forall|i: int, j: int| 0 <= i < j < rest.len() implies worse(s, #[trigger] rest[i].price, #[trigger] rest[j].price) by {
                    assert(rest[i] == ls[i] && rest[j] == ls[j]);
                }
            }
            lemma_level_position(s, rest, price);
            assert forall|i: int| level_position(s, ls, price) <= i < ls.len() implies !worse(s, #[trigger] ls[i].price, price) by {
                if i < ls.len() - 1 {
                    assert(ls[i] == rest[i]);
                }
            }
            assert forall|i: int| 0 <= i < level_position(s, ls, price) implies worse(s, #[trigger] ls[i].price, price) by {
                assert(ls[i] == rest[i]);
            }
        }
    }
}

/// `e` rests at `price` on side `levels` (see `insert_resting`).
fn insert_resting_exec(levels: &mut Vec<PriceLevel>, s: Side, price: Price, e: OrderbookEntry)
    requires
        sorted_levels(s, levels_view(old(levels)@)),
    ensures
        levels_view(final(levels)@) == insert_resting(s, levels_view(old(levels)@), price, e),
        sorted_levels(s, levels_view(final(levels)@)),
{
    let ghost ls = levels_view(levels@);
    proof { lemma_level_position(s, ls, price); }
    let n = levels.len();
    let mut k = n;
    assert(ls.take(k as int) =~= ls);
    while k > 0 && !worse_exec(s, levels[k - 1].price, price)
        invariant
            k <= n,
            n == levels@.len(),
            ls == levels_view(levels@),
            level_position(s, ls, price) == level_position(s, ls.take(k as int), price),
        decreases k,
    {
        proof { lemma_levels_view_take(levels@, k as int); }
        k = k - 1;
    }
    proof {
        if k > 0 {
            lemma_levels_view_take(levels@, k as int);
        }
    }
    assert(level_position(s, ls, price) == k);
    if k < n && levels[k].price == price {
        let lvl = &mut levels[k];
        lvl.orders.push_back(e);
        assert(levels_view(levels@) =~= ls.update(k as int, SpecLevel { price, orders: ls[k as int].orders.push(e) }));
    } else {
        let mut orders = VecDeque::new();
        orders.push_back(e);
        levels.insert(k, PriceLevel { price, orders });
        assert(levels_view(levels@) =~= ls.insert(k as int, SpecLevel { price, orders: seq![e] }));
    }
    proof { lemma_insert_resting_sorted(s, ls, price, e); }
}

proof fn lemma_insert_resting_sorted(s: Side, ls: Seq<SpecLevel>, price: Price, e: OrderbookEntry)
    requires
        sorted_levels(s, ls),
    ensures
        sorted_levels(s, insert_resting(s, ls, price, e)),
{
    lemma_level_position(s, ls, price);
    let k = level_position(s, ls, price);
    let ls2 = insert_resting(s, ls, price, e);
    if k < ls.len() && ls[k].price == price {
        assert forall|i: int, j: int| 0 <= i < j < ls2.len()
            implies worse(s, #[trigger] ls2[i].price, #[trigger] ls2[j].price) by {
            assert(worse(s, ls[i].price, ls[j].price));
        }
    } else {
        assert forall|i: int, j: int| 0 <= i < j < ls2.len()
            implies worse(s, #[trigger] ls2[i].price, #[trigger] ls2[j].price) by {
            if i < k && j < k {
                assert(worse(s, ls[i].price, ls[j].price));
            } else if i < k && j == k {
            } else if i < k {
                assert(worse(s, ls[i].price, ls[j - 1].price));
            } else if i == k {
                assert(!worse(s, ls[j - 1].price, price));
                assert(ls[j - 1].price != price) by {
                    if ls[j - 1].price == price && j - 1 > k {
                        assert(worse(s, ls[k].price, ls[j - 1].price));
                        assert(!worse(s, ls[k].price, price));
                    }
                }
            } else {
                assert(worse(s, ls[i - 1].price, ls[j - 1].price));
            }
        }
    }
}

fn worse_exec(s: Side, a: Price, b: Price) -> (r: bool)
    ensures
        r == worse(s, a, b),
{
    match s {
        Side::Bid => a < b,
        Side::Ask => a > b,
    }
}

pub open spec fn positive_orders(os: Seq<OrderbookEntry>) -> bool {
    forall|k: int| 0 <= k < os.len() ==> (#[trigger] os[k]).remaining_volume > 0
}

proof fn lemma_fill_level_positive(order: OrderInsertion, price: Price, os: Seq<OrderbookEntry>, r: Volume)
    requires
        positive_orders(os),
    ensures
        positive_orders(fill_level(order, price, os, r).orders),
    decreases os.len(),
{
    if os.len() > 0 && os[0].account_id != order.account_id {
        let o = os[0];
        let tv = min_volume(r, o.remaining_volume);
        let r2 = (r - tv) as Volume;
        if r2 == 0 {
            let lf = fill_level(order, price, os, r);
            assert forall|k: int| 0 <= k < lf.orders.len() implies (#[trigger] lf.orders[k]).remaining_volume > 0 by {
                if o.remaining_volume - tv != 0 && k != 0 {
                    assert(lf.orders[k] == os[k]);
                } else if o.remaining_volume - tv == 0 {
                    assert(lf.orders[k] == os[k + 1]);
                }
            }
        } else {
            assert(positive_orders(os.drop_first())) by {
                assert forall|k: int| 0 <= k < os.drop_first().len() implies (#[trigger] os.drop_first()[k]).remaining_volume > 0 by {
                    assert(os.drop_first()[k] == os[k + 1]);
                }
            }
            lemma_fill_level_positive(order, price, os.drop_first(), r2);
        }
    }
}

proof fn lemma_sorted_drop_last(s: Side, ls: Seq<SpecLevel>)
    requires
        sorted_levels(s, ls),
        ls.len() > 0,
    ensures
        sorted_levels(s, ls.drop_last()),
{
    assert forall|i: int, j: int| 0 <= i < j < ls.drop_last().len()
        implies worse(s, #[trigger] ls.drop_last()[i].price, #[trigger] ls.drop_last()[j].price) by {
        assert(worse(s, ls[i].price, ls[j].price));
    }
}

/// Matching keeps the opposite side ordered and free of empty orders.
proof fn lemma_match_levels_wf(order: OrderInsertion, limit: Option<Price>, s: Side, ls: Seq<SpecLevel>, r: Volume)
    requires
        sorted_levels(s, ls),
    ensures
        sorted_levels(s, match_levels(order, limit, ls, r).levels),
        positive_levels(ls) ==> positive_levels(match_levels(order, limit, ls, r).levels),
    decreases ls.len(),
{
    if ls.len() > 0 && crosses(order.side, limit, ls.last().price) {
        let best = ls.last();
        let lf = fill_level(order, best.price, best.orders, r);
        let rest = ls.drop_last();
        lemma_sorted_drop_last(s, ls);
        let m = match_levels(order, limit, ls, r);
        if !lf.self_trade {
            assert(positive_levels(ls) ==> positive_levels(rest)) by {
                if positive_levels(ls) {
                    assert forall|i: int, k: int| 0 <= i < rest.len() && 0 <= k < rest[i].orders.len()
                        implies (#[trigger] rest[i].orders[k]).remaining_volume > 0 by {
                        assert(rest[i] == ls[i]);
                    }
                }
            }
            if lf.remaining == 0 {
                if lf.orders.len() > 0 {
                    let nl = SpecLevel { price: best.price, orders: lf.orders };
                    assert(rest.push(nl)[rest.len() as int] == nl);
                    assert forall|i: int, j: int| 0 <= i < j < rest.push(nl).len()
                        implies worse(s, #[trigger] rest.push(nl)[i].price, #[trigger] rest.push(nl)[j].price) by {
                        assert(worse(s, ls[i].price, ls[j].price));
                    }
                    if positive_levels(ls) {
                        assert(positive_orders(best.orders)) by {
                            assert forall|k: int| 0 <= k < best.orders.len() implies (#[trigger] best.orders[k]).remaining_volume > 0 by {
                                assert(ls[ls.len() - 1].orders[k] == best.orders[k]);
                            }
                        }
                        lemma_fill_level_positive(order, best.price, best.orders, r);
                        assert forall|i: int, k: int| 0 <= i < rest.push(nl).len() && 0 <= k < rest.push(nl)[i].orders.len()
                            implies (#[trigger] rest.push(nl)[i].orders[k]).remaining_volume > 0 by {
                            if i < rest.len() {
                                assert(rest.push(nl)[i] == rest[i]);
                            } else {
                                assert(lf.orders[k].remaining_volume > 0);
                            }
                        }
                    }
                }
            } else {
                lemma_match_levels_wf(order, limit, s, rest, lf.remaining);
            }
        }
    }
}

impl Orderbook {
    pub fn new() -> (r: Orderbook)
        ensures
            r@.bids == Seq::<SpecLevel>::empty(),
            r@.asks == Seq::<SpecLevel>::empty(),
            r@.wf(),
            r@.no_empty_orders(),
    {
        let r = Orderbook { bids: Vec::new(), asks: Vec::new() };
        assert(r@.bids =~= Seq::<SpecLevel>::empty());
        assert(r@.asks =~= Seq::<SpecLevel>::empty());
        r
    }

    /// Insert an order into the orderbook without matching (i.e. without
    /// generating transactions): it rests with its whole volume at its price.
    pub fn insert_limit_order_no_matching(&mut self, order: OrderInsertion)
        requires
            old(self)@.wf(),
        ensures
            final(self)@ == old(self)@.with_side(
                order.side,
                insert_resting(order.side, old(self)@.side(order.side), order.price, OrderbookEntry::spec_from_insertion(order)),
            ),
            final(self)@.wf(),
            old(self)@.no_empty_orders() && order.volume > 0 ==> final(self)@.no_empty_orders(),
    {
        let e = OrderbookEntry::from_insertion(order);
        let ghost b0 = self@;
        match order.side {
            Side::Ask => insert_resting_exec(&mut self.asks, Side::Ask, order.price, e),
            Side::Bid => insert_resting_exec(&mut self.bids, Side::Bid, order.price, e),
        }
        proof {
            if b0.no_empty_orders() && order.volume > 0 {
                lemma_insert_resting_positive(order.side, b0.side(order.side), order.price, e);
            }
        }
    }

    /// Removes the order from the level at the cancellation's price; refused
    /// with `AlreadyFilled` when it does not rest there.
    pub fn cancel_order(&mut self, cancellation: OrderCancellation) -> (r: OrderCancellationResult)
        requires
            old(self)@.wf(),
        ensures
            ({
                let s = cancellation.side;
                let ls = old(self)@.side(s);
                let price = cancellation.price;
                let id = cancellation.order_id;
                &&& r is Ok <==> rests_at(ls, price, id)
                &&& r is Ok ==> r == Ok::<(), OrderCancellationError>(())
                &&& r is Ok ==> exists|i: int, k: int| #[trigger] last_occurrence(ls, price, id, i, k)
                    && final(self)@ == old(self)@.with_side(s, remove_at(ls, i, k))
                &&& r is Err ==> r == Err::<(), OrderCancellationError>(OrderCancellationError::AlreadyFilled)
                    && final(self)@ == old(self)@
                &&& final(self)@.wf()
                &&& old(self)@.no_empty_orders() ==> final(self)@.no_empty_orders()
            }),
    {
        let ghost b0 = self@;
        let found = match cancellation.side {
            Side::Ask => cancel_in_side(&mut self.asks, Side::Ask, cancellation.price, cancellation.order_id),
            Side::Bid => cancel_in_side(&mut self.bids, Side::Bid, cancellation.price, cancellation.order_id),
        };
        proof {
            let s = cancellation.side;
            let ls = b0.side(s);
            if found {
                let (i, k) = choose|i: int, k: int| #[trigger] last_occurrence(ls, cancellation.price, cancellation.order_id, i, k)
                    && self@.side(s) == remove_at(ls, i, k);
                assert(ls[i].orders[k].order_id == cancellation.order_id);
                lemma_remove_order_wf(s, ls, i, k);
                assert(self@ == b0.with_side(s, self@.side(s)));
            }
        }
        if found {
            Ok(())
        } else {
            Err(OrderCancellationError::AlreadyFilled)
        }
    }
}

/// Every level of the side holds at least one order.
pub open spec fn nonempty_levels(ls: Seq<SpecLevel>) -> bool {
    forall|i: int| 0 <= i < ls.len() ==> (#[trigger] ls[i]).orders.len() > 0
}

/// Replacing the orders of one level keeps the side ordered, keeps it free
/// of empty orders and of empty levels, and keeps its ids below `n`, when
/// the new orders are so.
proof fn lemma_with_level_orders(s: Side, ls: Seq<SpecLevel>, i: int, os: Seq<OrderbookEntry>, n: int)
    requires
        0 <= i < ls.len(),
    ensures
        sorted_levels(s, ls) ==> sorted_levels(s, with_level_orders(ls, i, os)),
        positive_levels(ls) && positive_orders(os) ==> positive_levels(with_level_orders(ls, i, os)),
        nonempty_levels(ls) ==> nonempty_levels(with_level_orders(ls, i, os)),
        ids_below(ls, n) && orders_ids_below(os, n) ==> ids_below(with_level_orders(ls, i, os), n),
        forall|j: int| 0 <= j < with_level_orders(ls, i, os).len() ==>
            has_price(ls, (#[trigger] with_level_orders(ls, i, os)[j]).price),
{
    let ls2 = with_level_orders(ls, i, os);
    // Where each level of the result comes from.
    let src = |j: int| if os.len() == 0 && j >= i { j + 1 } else { j };
    assert forall|j: int| 0 <= j < ls2.len() implies
        0 <= #[trigger] src(j) < ls.len()
        && ls2[j].price == ls[src(j)].price
        && (src(j) != i ==> ls2[j] == ls[src(j)])
        && (src(j) == i ==> ls2[j].orders == os) by {
    }
    assert forall|j: int| 0 <= j < ls2.len() implies has_price(ls, (#[trigger] ls2[j]).price) by {
        assert(ls[src(j)].price == ls2[j].price);
    }
    if sorted_levels(s, ls) {
        assert forall|a: int, b: int| 0 <= a < b < ls2.len() implies worse(s, #[trigger] ls2[a].price, #[trigger] ls2[b].price) by {
            assert(src(a) < src(b));
            assert(worse(s, ls[src(a)].price, ls[src(b)].price));
        }
    }
    if positive_levels(ls) && positive_orders(os) {
        assert forall|a: int, c: int| 0 <= a < ls2.len() && 0 <= c < ls2[a].orders.len()
            implies (#[trigger] ls2[a].orders[c]).remaining_volume > 0 by {
            if src(a) != i {
                assert(ls2[a].orders[c] == ls[src(a)].orders[c]);
            } else {
                assert(ls2[a].orders[c] == os[c]);
            }
        }
    }
    if nonempty_levels(ls) {
        assert forall|a: int| 0 <= a < ls2.len() implies (#[trigger] ls2[a]).orders.len() > 0 by {
            assert(ls[src(a)].orders.len() > 0);
        }
    }
    if ids_below(ls, n) && orders_ids_below(os, n) {
        assert forall|a: int, c: int| 0 <= a < ls2.len() && 0 <= c < ls2[a].orders.len()
            implies (#[trigger] ls2[a].orders[c]).order_id < n by {
            if src(a) != i {
                assert(ls2[a].orders[c] == ls[src(a)].orders[c]);
            } else {
                assert(ls2[a].orders[c] == os[c]);
            }
        }
    }
}

/// The orders of a level after one of them is lowered keep the properties
/// of the level's orders.
proof fn lemma_reduced_orders(os: Seq<OrderbookEntry>, k: int, reduction: Volume, n: int)
    requires
        0 <= k < os.len(),
    ensures
        positive_orders(os) ==> positive_orders(reduced_orders(os, k, reduction)),
        orders_ids_below(os, n) ==> orders_ids_below(reduced_orders(os, k, reduction), n),
        positive_orders(os) ==> positive_orders(os.remove(k)),
        orders_ids_below(os, n) ==> orders_ids_below(os.remove(k), n),
{
    let os2 = reduced_orders(os, k, reduction);
    let os3 = os.remove(k);
    assert forall|c: int| 0 <= c < os3.len() implies #[trigger] os3[c] == os[if c < k { c } else { c + 1 }] by {}
    assert forall|c: int| 0 <= c < os2.len() implies
        (#[trigger] os2[c]).order_id == os[if reduction >= os[k].remaining_volume && c >= k { c + 1 } else { c }].order_id
        && (os2[c].remaining_volume > 0 || os[if reduction >= os[k].remaining_volume && c >= k { c + 1 } else { c }].remaining_volume == 0) by {
    }
    if positive_orders(os) {
        assert forall|c: int| 0 <= c < os3.len() implies (#[trigger] os3[c]).remaining_volume > 0 by {
            assert(os3[c] == os[if c < k { c } else { c + 1 }]);
        }
        assert forall|c: int| 0 <= c < os2.len() implies (#[trigger] os2[c]).remaining_volume > 0 by {
            let c2 = if reduction >= os[k].remaining_volume && c >= k { c + 1 } else { c };
            assert(os[c2].remaining_volume > 0);
        }
    }
    if orders_ids_below(os, n) {
        assert forall|c: int| 0 <= c < os3.len() implies (#[trigger] os3[c]).order_id < n by {
            assert(os3[c] == os[if c < k { c } else { c + 1 }]);
        }
        assert forall|c: int| 0 <= c < os2.len() implies (#[trigger] os2[c]).order_id < n by {
            let c2 = if reduction >= os[k].remaining_volume && c >= k { c + 1 } else { c };
            assert(os[c2].order_id < n);
        }
    }
}

proof fn lemma_level_orders_of(ls: Seq<SpecLevel>, i: int, n: int)
    requires
        0 <= i < ls.len(),
    ensures
        positive_levels(ls) ==> positive_orders(ls[i].orders),
        ids_below(ls, n) ==> orders_ids_below(ls[i].orders, n),
{
    if positive_levels(ls) {
        assert forall|c: int| 0 <= c < ls[i].orders.len() implies (#[trigger] ls[i].orders[c]).remaining_volume > 0 by {}
    }
    if ids_below(ls, n) {
        assert forall|c: int| 0 <= c < ls[i].orders.len() implies (#[trigger] ls[i].orders[c]).order_id < n by {}
    }
}

proof fn lemma_remove_order_wf(s: Side, ls: Seq<SpecLevel>, i: int, k: int)
    requires
        0 <= i < ls.len(),
        0 <= k < ls[i].orders.len(),
    ensures
        sorted_levels(s, ls) ==> sorted_levels(s, remove_at(ls, i, k)),
        positive_levels(ls) ==> positive_levels(remove_at(ls, i, k)),
        nonempty_levels(ls) ==> nonempty_levels(remove_at(ls, i, k)),
{
    lemma_level_orders_of(ls, i, 0);
    lemma_reduced_orders(ls[i].orders, k, 0, 0);
    lemma_with_level_orders(s, ls, i, ls[i].orders.remove(k), 0);
}

pub(crate) proof fn lemma_level_position_bounds(s: Side, ls: Seq<SpecLevel>, price: Price)
    ensures
        0 <= level_position(s, ls, price) <= ls.len(),
    decreases ls.len(),
{
    if ls.len() > 0 {
        lemma_level_position_bounds(s, ls.drop_last(), price);
    }
}

proof fn lemma_insert_resting_positive(s: Side, ls: Seq<SpecLevel>, price: Price, e: OrderbookEntry)
    requires
        positive_levels(ls),
        e.remaining_volume > 0,
    ensures
        positive_levels(insert_resting(s, ls, price, e)),
{
    lemma_level_position_bounds(s, ls, price);
    let k = level_position(s, ls, price);
    let ls2 = insert_resting(s, ls, price, e);
    if k < ls.len() && ls[k].price == price {
        assert forall|a: int, c: int| 0 <= a < ls2.len() && 0 <= c < ls2[a].orders.len()
            implies (#[trigger] ls2[a].orders[c]).remaining_volume > 0 by {
            if a == k {
                if c < ls[k].orders.len() {
                    assert(ls2[a].orders[c] == ls[k].orders[c]);
                }
            } else {
                assert(ls2[a] == ls[a]);
            }
        }
    } else {
        assert forall|a: int, c: int| 0 <= a < ls2.len() && 0 <= c < ls2[a].orders.len()
            implies (#[trigger] ls2[a].orders[c]).remaining_volume > 0 by {
            if a < k {
                assert(ls2[a] == ls[a]);
            } else if a > k {
                assert(ls2[a] == ls[a - 1]);
            }
        }
    }
}

proof fn lemma_reduce_at_wf(s: Side, ls: Seq<SpecLevel>, i: int, k: int, reduction: Volume)
    requires
        0 <= i < ls.len(),
        0 <= k < ls[i].orders.len(),
    ensures
        sorted_levels(s, ls) ==> sorted_levels(s, reduce_at(ls, i, k, reduction)),
        positive_levels(ls) ==> positive_levels(reduce_at(ls, i, k, reduction)),
        nonempty_levels(ls) ==> nonempty_levels(reduce_at(ls, i, k, reduction)),
{
    lemma_level_orders_of(ls, i, 0);
    lemma_reduced_orders(ls[i].orders, k, reduction, 0);
    lemma_with_level_orders(s, ls, i, reduced_orders(ls[i].orders, k, reduction), 0);
}

impl Orderbook {
    /// Lowers the remaining volume of the order by the modification's
    /// reduction, at its first occurrence in the level at the modification's
    /// price; the order leaves the book when the reduction is all of its
    /// remaining volume. Refused with `OrderNotFound` when it does not rest
    /// there.
    pub fn modify_order(&mut self, modification: OrderModification) -> (r: OrderModificationResult)
        requires
            old(self)@.wf(),
        ensures
            ({
                let s = modification.side;
                let ls = old(self)@.side(s);
                let price = modification.price;
                let id = modification.order_id;
                &&& r is Ok <==> rests_at(ls, price, id)
                &&& r is Ok ==> r == Ok::<(), OrderModificationError>(())
                &&& r is Ok ==> exists|i: int, k: int| #[trigger] first_occurrence(ls, price, id, i, k)
                    && final(self)@ == old(self)@.with_side(s, reduce_at(ls, i, k, modification.volume_reduction))
                &&& r is Err ==> r == Err::<(), OrderModificationError>(OrderModificationError::OrderNotFound)
                    && final(self)@ == old(self)@
                &&& final(self)@.wf()
                &&& old(self)@.no_empty_orders() ==> final(self)@.no_empty_orders()
            }),
    {
        let ghost b0 = self@;
        let found = match modification.side {
            Side::Ask => modify_in_side(&mut self.asks, Side::Ask, modification.price, modification.order_id, modification.volume_reduction),
            Side::Bid => modify_in_side(&mut self.bids, Side::Bid, modification.price, modification.order_id, modification.volume_reduction),
        };
        proof {
            let s = modification.side;
            let ls = b0.side(s);
            if found {
                let (i, k) = choose|i: int, k: int| #[trigger] first_occurrence(ls, modification.price, modification.order_id, i, k)
                    && self@.side(s) == reduce_at(ls, i, k, modification.volume_reduction);
                assert(ls[i].orders[k].order_id == modification.order_id);
                lemma_reduce_at_wf(s, ls, i, k, modification.volume_reduction);
                assert(self@ == b0.with_side(s, self@.side(s)));
            }
        }
        if found {
            Ok(())
        } else {
            Err(OrderModificationError::OrderNotFound)
        }
    }

    /// Checks that the opposite side can supply `volume` at `price` or better
    /// to a fill-or-kill order on `order_side`; `OrderKilled` otherwise.
    fn enough_volume_fok(&self, order_side: Side, volume: Volume, price: Price) -> (r: Result<(), OrderInsertionError>)
        ensures
            r is Ok <==> available(order_side, Some(price), self@.side(opposite(order_side))) >= volume,
            r is Err ==> r == Err::<(), OrderInsertionError>(OrderInsertionError::OrderKilled),
    {
        let enough = match order_side {
            Side::Ask => available_at_least(&self.bids, order_side, Some(price), volume),
            Side::Bid => available_at_least(&self.asks, order_side, Some(price), volume),
        };
        if enough { Ok(()) } else { Err(OrderInsertionError::OrderKilled) }
    }

    /// Checks that the opposite side can supply `volume` at any price to a
    /// market order on `order_side`; `InadequateVolume` otherwise.
    fn enough_volume_market(&self, order_side: Side, volume: Volume) -> (r: Result<(), OrderInsertionError>)
        ensures
            r is Ok <==> available(order_side, None, self@.side(opposite(order_side))) >= volume,
            r is Err ==> r == Err::<(), OrderInsertionError>(OrderInsertionError::InadequateVolume),
    {
        let enough = match order_side {
            Side::Ask => available_at_least(&self.bids, order_side, None, volume),
            Side::Bid => available_at_least(&self.asks, order_side, None, volume),
        };
        if enough { Ok(()) } else { Err(OrderInsertionError::InadequateVolume) }
    }

    /// Inserts an order: checks the volume a fill-or-kill or market order
    /// needs, refuses an order that would trade with its own account, then
    /// trades with the opposite side by price-time priority (see
    /// `spec_insert_order`), pushing the transactions to `transaction_buf`.
    pub fn insert_order(&mut self, order: OrderInsertion, transaction_buf: &mut ObTransactionBuffer) -> (r: ObOrderInsertionResult)
        requires
            old(self)@.wf(),
        ensures
            ({
                let out = spec_insert_order(old(self)@, order);
                &&& r == out.result
                &&& final(self)@ == out.book
                &&& final(transaction_buf)@ == old(transaction_buf)@ + out.txs
            }),
            final(self)@.wf(),
            old(self)@.no_empty_orders() ==> final(self)@.no_empty_orders(),
    {
        let ghost b0 = self@;
        if order.order_type == OrderType::FillOrKill {
            if let Err(e) = self.enough_volume_fok(order.side, order.volume, order.price) {
                assert(transaction_buf@ =~= transaction_buf@ + Seq::<ObTransaction>::empty());
                return Err(e);
            }
        } else if order.order_type == OrderType::Market {
            if let Err(e) = self.enough_volume_market(order.side, order.volume) {
                assert(transaction_buf@ =~= transaction_buf@ + Seq::<ObTransaction>::empty());
                return Err(e);
            }
        }
        let limit = if order.order_type == OrderType::Market { None } else { Some(order.price) };
        let self_trade = match order.side {
            Side::Bid => would_self_trade(&self.asks, &order, limit),
            Side::Ask => would_self_trade(&self.bids, &order, limit),
        };
        if self_trade {
            assert(transaction_buf@ =~= transaction_buf@ + Seq::<ObTransaction>::empty());
            return Err(OrderInsertionError::SelfTrade);
        }
        let (remaining, last_traded_price) = match order.side {
            Side::Bid => match_side(&mut self.asks, &order, limit, transaction_buf),
            Side::Ask => match_side(&mut self.bids, &order, limit, transaction_buf),
        };
        let ghost opp = opposite(order.side);
        proof {
            lemma_match_levels_wf(order, limit, opp, b0.side(opp), order.volume);
            assert(self@ == b0.with_side(opp, match_levels(order, limit, b0.side(opp), order.volume).levels));
        }
        if remaining > 0 {
            let ghost b1 = self@;
            self.insert_limit_order_no_matching(OrderInsertion { volume: remaining, ..order });
            Ok(ObOrderInsertionEffects { status: OrderExecutionStatus::AwaitingFill, last_traded_price })
        } else {
            Ok(ObOrderInsertionEffects { status: OrderExecutionStatus::Filled, last_traded_price })
        }
    }

    /// The best bid and best ask levels, aggregated.
    pub fn get_l1(&self) -> (r: OrderbookL1)
        ensures
            r == spec_l1(self@),
    {
        let best_bid = if self.bids.len() == 0 {
            None
        } else {
            proof { lemma_levels_view_pop(self.bids@); }
            Some(level_aggregate(&self.bids[self.bids.len() - 1]))
        };
        let best_ask = if self.asks.len() == 0 {
            None
        } else {
            proof { lemma_levels_view_pop(self.asks@); }
            Some(level_aggregate(&self.asks[self.asks.len() - 1]))
        };
        OrderbookL1 { best_bid, best_ask }
    }

    /// Every level of both sides, aggregated, by increasing price.
    pub fn get_l2(&self) -> (r: OrderbookL2)
        ensures
            r.bids@ == l2_side(Side::Bid, self@.bids),
            r.asks@ == l2_side(Side::Ask, self@.asks),
    {
        let nb = self.bids.len();
        let mut bids: Vec<PriceLevelAggregate> = Vec::with_capacity(nb);
        let mut i: usize = 0;
        while i < nb
            invariant
                i <= nb,
                nb == self.bids@.len(),
                bids@.len() == i,
                forall|j: int| 0 <= j < i ==> bids@[j] == aggregate(self@.bids[j]),
            decreases nb - i,
        {
            bids.push(level_aggregate(&self.bids[i]));
            i = i + 1;
        }
        let na = self.asks.len();
        let mut asks: Vec<PriceLevelAggregate> = Vec::with_capacity(na);
        let mut i: usize = 0;
        while i < na
            invariant
                i <= na,
                na == self.asks@.len(),
                asks@.len() == i,
                forall|j: int| 0 <= j < i ==> asks@[j] == aggregate(self@.asks[na - 1 - j]),
            decreases na - i,
        {
            asks.push(level_aggregate(&self.asks[na - 1 - i]));
            i = i + 1;
        }
        assert(bids@ =~= l2_side(Side::Bid, self@.bids));
        assert(asks@ =~= l2_side(Side::Ask, self@.asks));
        OrderbookL2 { bids, asks }
    }
}

/// Every resting order of `ls` has an id below `n`.
pub open spec fn ids_below(ls: Seq<SpecLevel>, n: int) -> bool {
    forall|i: int, k: int|
        0 <= i < ls.len() && 0 <= k < ls[i].orders.len() ==> (#[trigger] ls[i].orders[k]).order_id < n
}

pub open spec fn book_ids_below(b: OrderbookView, n: int) -> bool {
    ids_below(b.bids, n) && ids_below(b.asks, n)
}

pub open spec fn orders_ids_below(os: Seq<OrderbookEntry>, n: int) -> bool {
    forall|k: int| 0 <= k < os.len() ==> (#[trigger] os[k]).order_id < n
}

/// Every transaction has a maker below `n` and the taker `taker`.
pub open spec fn txs_ids(txs: Seq<ObTransaction>, n: int, taker: OrderId) -> bool {
    forall|j: int| 0 <= j < txs.len() ==> (#[trigger] txs[j]).order_id_maker < n && txs[j].order_id_taker == taker
}

proof fn lemma_fill_level_ids(order: OrderInsertion, price: Price, os: Seq<OrderbookEntry>, r: Volume, n: int)
    requires
        orders_ids_below(os, n),
    ensures
        orders_ids_below(fill_level(order, price, os, r).orders, n),
        txs_ids(fill_level(order, price, os, r).txs, n, order.id),
    decreases os.len(),
{
    if os.len() > 0 && os[0].account_id != order.account_id {
        let o = os[0];
        let tv = min_volume(r, o.remaining_volume);
        let r2 = (r - tv) as Volume;
        let lf = fill_level(order, price, os, r);
        if r2 == 0 {
            assert forall|k: int| 0 <= k < lf.orders.len() implies (#[trigger] lf.orders[k]).order_id < n by {
                if o.remaining_volume - tv == 0 {
                    assert(lf.orders[k] == os[k + 1]);
                } else if k != 0 {
                    assert(lf.orders[k] == os[k]);
                }
            }
        } else {
            assert(orders_ids_below(os.drop_first(), n)) by {
                assert forall|k: int| 0 <= k < os.drop_first().len() implies (#[trigger] os.drop_first()[k]).order_id < n by {
                    assert(os.drop_first()[k] == os[k + 1]);
                }
            }
            lemma_fill_level_ids(order, price, os.drop_first(), r2, n);
            let rest = fill_level(order, price, os.drop_first(), r2);
            assert forall|j: int| 0 <= j < lf.txs.len() implies (#[trigger] lf.txs[j]).order_id_maker < n && lf.txs[j].order_id_taker == order.id by {
                if j > 0 {
                    assert(lf.txs[j] == rest.txs[j - 1]);
                }
            }
        }
    }
}

proof fn lemma_match_levels_ids(order: OrderInsertion, limit: Option<Price>, ls: Seq<SpecLevel>, r: Volume, n: int)
    requires
        ids_below(ls, n),
    ensures
        ids_below(match_levels(order, limit, ls, r).levels, n),
        txs_ids(match_levels(order, limit, ls, r).txs, n, order.id),
    decreases ls.len(),
{
    if ls.len() > 0 && crosses(order.side, limit, ls.last().price) {
        let best = ls.last();
        assert(orders_ids_below(best.orders, n)) by {
            assert forall|k: int| 0 <= k < best.orders.len() implies (#[trigger] best.orders[k]).order_id < n by {
                assert(ls[ls.len() - 1].orders[k] == best.orders[k]);
            }
        }
        lemma_fill_level_ids(order, best.price, best.orders, r, n);
        let lf = fill_level(order, best.price, best.orders, r);
        let rest = ls.drop_last();
        assert(ids_below(rest, n)) by {
            assert forall|i: int, k: int| 0 <= i < rest.len() && 0 <= k < rest[i].orders.len()
                implies (#[trigger] rest[i].orders[k]).order_id < n by {
                assert(rest[i] == ls[i]);
            }
        }
        if !lf.self_trade {
            if lf.remaining == 0 {
                let nl = SpecLevel { price: best.price, orders: lf.orders };
                assert forall|i: int, k: int| 0 <= i < rest.push(nl).len() && 0 <= k < rest.push(nl)[i].orders.len()
                    implies (#[trigger] rest.push(nl)[i].orders[k]).order_id < n by {
                    if i < rest.len() {
                        assert(rest.push(nl)[i] == rest[i]);
                    }
                }
            } else {
                lemma_match_levels_ids(order, limit, rest, lf.remaining, n);
                let m = match_levels(order, limit, rest, lf.remaining);
                assert forall|j: int| 0 <= j < lf.txs.len() + m.txs.len() implies
                    (#[trigger] (lf.txs + m.txs)[j]).order_id_maker < n && (lf.txs + m.txs)[j].order_id_taker == order.id by {
                    if j >= lf.txs.len() {
                        assert((lf.txs + m.txs)[j] == m.txs[j - lf.txs.len()]);
                    }
                }
            }
        }
    }
}

pub(crate) proof fn lemma_ids_below_mono(ls: Seq<SpecLevel>, n: int, n2: int)
    requires
        ids_below(ls, n),
        n <= n2,
    ensures
        ids_below(ls, n2),
{
}

proof fn lemma_insert_resting_ids(s: Side, ls: Seq<SpecLevel>, price: Price, e: OrderbookEntry, n: int)
    requires
        ids_below(ls, n),
        e.order_id < n,
    ensures
        ids_below(insert_resting(s, ls, price, e), n),
{
    lemma_level_position_bounds(s, ls, price);
    let k = level_position(s, ls, price);
    let ls2 = insert_resting(s, ls, price, e);
    if k < ls.len() && ls[k].price == price {
        assert forall|a: int, c: int| 0 <= a < ls2.len() && 0 <= c < ls2[a].orders.len()
            implies (#[trigger] ls2[a].orders[c]).order_id < n by {
            if a == k {
                if c < ls[k].orders.len() {
                    assert(ls2[a].orders[c] == ls[k].orders[c]);
                }
            } else {
                assert(ls2[a] == ls[a]);
            }
        }
    } else {
        assert forall|a: int, c: int| 0 <= a < ls2.len() && 0 <= c < ls2[a].orders.len()
            implies (#[trigger] ls2[a].orders[c]).order_id < n by {
            if a < k {
                assert(ls2[a] == ls[a]);
            } else if a > k {
                assert(ls2[a] == ls[a - 1]);
            }
        }
    }
}

/// Inserting an order with id `n` into a book whose orders have ids below
/// `n` leaves ids below `n + 1`, and every transaction has a maker below `n`
/// and the new order as taker.
pub proof fn lemma_insert_order_ids(b: OrderbookView, order: OrderInsertion, n: int)
    requires
        book_ids_below(b, n),
        order.id == n,
    ensures
        book_ids_below(spec_insert_order(b, order).book, n + 1),
        txs_ids(spec_insert_order(b, order).txs, n, order.id),
{
    let opp = opposite(order.side);
    let limit = limit_of(order);
    lemma_match_levels_ids(order, limit, b.side(opp), order.volume, n);
    let m = match_levels(order, limit, b.side(opp), order.volume);
    lemma_ids_below_mono(m.levels, n, n + 1);
    lemma_ids_below_mono(b.side(order.side), n, n + 1);
    lemma_ids_below_mono(b.bids, n, n + 1);
    lemma_ids_below_mono(b.asks, n, n + 1);
    if m.remaining > 0 {
        let e = OrderbookEntry { order_id: order.id, account_id: order.account_id, remaining_volume: m.remaining };
        lemma_insert_resting_ids(order.side, b.side(order.side), order.price, e, n + 1);
    }
}

/// Removing or lowering an order keeps the ids of a side below `n`.
pub proof fn lemma_reduce_ids(ls: Seq<SpecLevel>, i: int, k: int, reduction: Volume, n: int)
    requires
        ids_below(ls, n),
        0 <= i < ls.len(),
        0 <= k < ls[i].orders.len(),
    ensures
        ids_below(reduce_at(ls, i, k, reduction), n),
        ids_below(remove_at(ls, i, k), n),
{
    lemma_level_orders_of(ls, i, n);
    lemma_reduced_orders(ls[i].orders, k, reduction, n);
    lemma_with_level_orders(Side::Bid, ls, i, reduced_orders(ls[i].orders, k, reduction), n);
    lemma_with_level_orders(Side::Bid, ls, i, ls[i].orders.remove(k), n);
}

/// In an ordered side, the level at a price and the last occurrence of an
/// order in it are unique.
pub proof fn lemma_last_occurrence_unique(s: Side, ls: Seq<SpecLevel>, price: Price, id: OrderId, i: int, k: int, i2: int, k2: int)
    requires
        sorted_levels(s, ls),
        last_occurrence(ls, price, id, i, k),
        last_occurrence(ls, price, id, i2, k2),
    ensures
        i == i2 && k == k2,
{
    lemma_unique_level(s, ls, i, i2);
}

/// In an ordered side, the level at a price and the first occurrence of an
/// order in it are unique.
pub proof fn lemma_first_occurrence_unique(s: Side, ls: Seq<SpecLevel>, price: Price, id: OrderId, i: int, k: int, i2: int, k2: int)
    requires
        sorted_levels(s, ls),
        first_occurrence(ls, price, id, i, k),
        first_occurrence(ls, price, id, i2, k2),
    ensures
        i == i2 && k == k2,
{
    lemma_unique_level(s, ls, i, i2);
}


/// Total volume of a sequence of transactions.
pub open spec fn txs_volume(txs: Seq<ObTransaction>) -> int
    decreases txs.len(),
{
    if txs.len() == 0 { 0 } else { txs_volume(txs.drop_last()) + txs.last().volume }
}

proof fn lemma_txs_volume_concat(a: Seq<ObTransaction>, b: Seq<ObTransaction>)
    ensures
        txs_volume(a + b) == txs_volume(a) + txs_volume(b),
    decreases b.len(),
{
    if b.len() > 0 {
        assert((a + b).drop_last() =~= a + b.drop_last());
        lemma_txs_volume_concat(a, b.drop_last());
    } else {
        assert(a + b =~= a);
    }
}

proof fn lemma_level_volume_first(os: Seq<OrderbookEntry>)
    requires
        os.len() > 0,
    ensures
        level_volume(os) == os[0].remaining_volume + level_volume(os.drop_first()),
    decreases os.len(),
{
    if os.len() > 1 {
        lemma_level_volume_first(os.drop_last());
        assert(os.drop_last().drop_first() =~= os.drop_first().drop_last());
        assert(os.drop_first().last() == os.last());
    } else {
        assert(os.drop_first() =~= Seq::<OrderbookEntry>::empty());
        assert(os.drop_last() =~= Seq::<OrderbookEntry>::empty());
        assert(level_volume(Seq::<OrderbookEntry>::empty()) == 0);
    }
}

/// At one level: the volume traded plus the volume still to fill is the
/// volume the incoming order came with, and what is still to fill is what
/// the level could not supply; every trade is at the level's price.
proof fn lemma_fill_level_volume(order: OrderInsertion, price: Price, os: Seq<OrderbookEntry>, r: Volume)
    requires
        !fill_level(order, price, os, r).self_trade,
    ensures
        txs_volume(fill_level(order, price, os, r).txs) + fill_level(order, price, os, r).remaining == r,
        fill_level(order, price, os, r).remaining == if level_volume(os) >= r { 0 } else { r - level_volume(os) },
        forall|j: int| 0 <= j < fill_level(order, price, os, r).txs.len()
            ==> (#[trigger] fill_level(order, price, os, r).txs[j]).price == price,
    decreases os.len(),
{
    if os.len() > 0 {
        lemma_level_volume_first(os);
        lemma_level_volume_nonneg(os.drop_first());
        let o = os[0];
        let tv = min_volume(r, o.remaining_volume);
        let tx = ObTransaction { price, volume: tv, taker_side: order.side, order_id_maker: o.order_id, order_id_taker: order.id };
        let r2 = (r - tv) as Volume;
        if r2 == 0 {
            assert(txs_volume(seq![tx]) == tv) by {
                assert(seq![tx].drop_last() =~= Seq::<ObTransaction>::empty());
                assert(txs_volume(Seq::<ObTransaction>::empty()) == 0);
                assert(seq![tx].last() == tx);
            }
        } else {
            lemma_fill_level_volume(order, price, os.drop_first(), r2);
            let rest = fill_level(order, price, os.drop_first(), r2);
            lemma_txs_volume_concat(seq![tx], rest.txs);
            assert(txs_volume(seq![tx]) == tv) by {
                assert(seq![tx].drop_last() =~= Seq::<ObTransaction>::empty());
                assert(txs_volume(Seq::<ObTransaction>::empty()) == 0);
                assert(seq![tx].last() == tx);
            }
            assert forall|j: int| 0 <= j < (seq![tx] + rest.txs).len() implies (#[trigger] (seq![tx] + rest.txs)[j]).price == price by {
                if j > 0 {
                    assert((seq![tx] + rest.txs)[j] == rest.txs[j - 1]);
                }
            }
        }
    }
}

/// Against a whole side: the volume traded plus the volume still to fill is
/// the volume the incoming order came with; nothing is left to fill when the
/// side could supply it; and every trade is at a price that crosses the limit.
pub(crate) proof fn lemma_match_volume(order: OrderInsertion, limit: Option<Price>, ls: Seq<SpecLevel>, r: Volume)
    requires
        !match_levels(order, limit, ls, r).self_trade,
    ensures
        txs_volume(match_levels(order, limit, ls, r).txs) + match_levels(order, limit, ls, r).remaining == r,
        available(order.side, limit, ls) >= r ==> match_levels(order, limit, ls, r).remaining == 0,
        forall|j: int| 0 <= j < match_levels(order, limit, ls, r).txs.len()
            ==> crosses(order.side, limit, (#[trigger] match_levels(order, limit, ls, r).txs[j]).price),
    decreases ls.len(),
{
    if ls.len() > 0 && crosses(order.side, limit, ls.last().price) {
        let best = ls.last();
        let lf = fill_level(order, best.price, best.orders, r);
        lemma_fill_level_volume(order, best.price, best.orders, r);
        if lf.remaining != 0 {
            let rest = ls.drop_last();
            lemma_match_volume(order, limit, rest, lf.remaining);
            let m = match_levels(order, limit, rest, lf.remaining);
            lemma_txs_volume_concat(lf.txs, m.txs);
            assert forall|j: int| 0 <= j < (lf.txs + m.txs).len() implies crosses(order.side, limit, (#[trigger] (lf.txs + m.txs)[j]).price) by {
                if j >= lf.txs.len() {
                    assert((lf.txs + m.txs)[j] == m.txs[j - lf.txs.len()]);
                }
            }
        }
    } else {
        assert(txs_volume(Seq::<ObTransaction>::empty()) == 0);
    }
}

/// Volume is conserved: when an order is accepted, the volume it trades plus
/// the volume left of it in the book is its volume.
pub proof fn law_insert_conserves_volume(book: OrderbookView, order: OrderInsertion)
    requires
        spec_insert_order(book, order).result is Ok,
    ensures
        txs_volume(spec_insert_order(book, order).txs) + (if spec_insert_order(book, order).result->Ok_0.status == OrderExecutionStatus::AwaitingFill {
            match_levels(order, limit_of(order), book.side(opposite(order.side)), order.volume).remaining as int
        } else {
            0
        }) == order.volume,
        spec_insert_order(book, order).result->Ok_0.status == OrderExecutionStatus::AwaitingFill
            <==> match_levels(order, limit_of(order), book.side(opposite(order.side)), order.volume).remaining > 0,
{
    lemma_match_volume(order, limit_of(order), book.side(opposite(order.side)), order.volume);
}

/// A fill-or-kill or market order that is accepted is filled completely:
/// nothing of it rests in the book.
pub proof fn law_fill_or_kill_and_market_fill_completely(book: OrderbookView, order: OrderInsertion)
    requires
        order.order_type != OrderType::Limit,
        spec_insert_order(book, order).result is Ok,
    ensures
        spec_insert_order(book, order).result->Ok_0.status == OrderExecutionStatus::Filled,
        txs_volume(spec_insert_order(book, order).txs) == order.volume,
        spec_insert_order(book, order).book.side(order.side) == book.side(order.side),
{
    lemma_match_volume(order, limit_of(order), book.side(opposite(order.side)), order.volume);
}

/// An order never trades at a price worse than its limit: a bid buys at or
/// below its price, an ask sells at or above it (a market order has no limit).
pub proof fn law_trades_respect_limit(book: OrderbookView, order: OrderInsertion)
    requires
        order.order_type != OrderType::Market,
        spec_insert_order(book, order).result is Ok,
    ensures
        forall|j: int| 0 <= j < spec_insert_order(book, order).txs.len() ==> match order.side {
            Side::Bid => (#[trigger] spec_insert_order(book, order).txs[j]).price <= order.price,
            Side::Ask => spec_insert_order(book, order).txs[j].price >= order.price,
        },
{
    lemma_match_volume(order, limit_of(order), book.side(opposite(order.side)), order.volume);
}

/// Every transaction of an incoming order at one level is at that level's
/// price, and when it runs out of volume there, it made at least one.
proof fn lemma_fill_level_prices(order: OrderInsertion, price: Price, os: Seq<OrderbookEntry>, r: Volume)
    ensures
        forall|j: int| 0 <= j < fill_level(order, price, os, r).txs.len() ==> (#[trigger] fill_level(order, price, os, r).txs[j]).price == price,
        fill_level(order, price, os, r).hit_zero ==> fill_level(order, price, os, r).txs.len() > 0,
        r > 0 ==> (fill_level(order, price, os, r).hit_zero <==> fill_level(order, price, os, r).remaining == 0),
    decreases os.len(),
{
    if os.len() > 0 && os[0].account_id != order.account_id {
        let o = os[0];
        let tv = min_volume(r, o.remaining_volume);
        let r2 = (r - tv) as Volume;
        if r2 != 0 {
            lemma_fill_level_prices(order, price, os.drop_first(), r2);
            let lf = fill_level(order, price, os, r);
            let rest = fill_level(order, price, os.drop_first(), r2);
            assert forall|j: int| 0 <= j < lf.txs.len() implies (#[trigger] lf.txs[j]).price == price by {
                if j > 0 {
                    assert(lf.txs[j] == rest.txs[j - 1]);
                }
            }
        }
    }
}

/// The last price an incoming order reports is the price of its last
/// transaction, and every transaction is at the price of a level of `ls`.
proof fn lemma_match_last_price(order: OrderInsertion, limit: Option<Price>, ls: Seq<SpecLevel>, r: Volume)
    ensures
        forall|j: int| 0 <= j < match_levels(order, limit, ls, r).txs.len()
            ==> has_price(ls, (#[trigger] match_levels(order, limit, ls, r).txs[j]).price),
        match_levels(order, limit, ls, r).last_price matches Some(p) ==> {
            &&& match_levels(order, limit, ls, r).txs.len() > 0
            &&& p == match_levels(order, limit, ls, r).txs.last().price
        },
        r > 0 ==> (match_levels(order, limit, ls, r).last_price is Some <==> match_levels(order, limit, ls, r).remaining == 0),
    decreases ls.len(),
{
    let m = match_levels(order, limit, ls, r);
    if ls.len() > 0 && crosses(order.side, limit, ls.last().price) {
        let best = ls.last();
        let n = ls.len() - 1;
        assert(ls[n] == best);
        let lf = fill_level(order, best.price, best.orders, r);
        lemma_fill_level_prices(order, best.price, best.orders, r);
        let rest = ls.drop_last();
        if !lf.self_trade {
            if lf.remaining == 0 {
                assert forall|j: int| 0 <= j < m.txs.len() implies has_price(ls, (#[trigger] m.txs[j]).price) by {
                    assert(m.txs[j] == lf.txs[j]);
                    assert(ls[n].price == m.txs[j].price);
                }
                if lf.hit_zero {
                    assert(m.txs.last() == lf.txs[lf.txs.len() - 1]);
                }
            } else {
                lemma_match_last_price(order, limit, rest, lf.remaining);
                let m2 = match_levels(order, limit, rest, lf.remaining);
                assert(m.txs == lf.txs + m2.txs);
                assert forall|j: int| 0 <= j < m.txs.len() implies has_price(ls, (#[trigger] m.txs[j]).price) by {
                    if j < lf.txs.len() {
                        assert(m.txs[j] == lf.txs[j]);
                        assert(ls[n].price == m.txs[j].price);
                    } else {
                        assert(m.txs[j] == m2.txs[j - lf.txs.len()]);
                        let q = choose|q: int| 0 <= q < rest.len() && (#[trigger] rest[q]).price == m.txs[j].price;
                        assert(ls[q] == rest[q]);
                    }
                }
                if m2.last_price is Some {
                    assert(m.txs.last() == m2.txs.last());
                }
            }
        }
    }
}

/// The last traded price an insertion reports is a price it traded at: the
/// price of its last transaction, which is the price of a level of the
/// opposite side that it traded with; an order with volume reports one
/// exactly when it is filled. A market keeps its last traded price, or takes
/// that one.
pub proof fn law_last_traded_price_is_traded(book: OrderbookView, order: OrderInsertion, old_price: Price)
    ensures
        ({
            let out = spec_insert_order(book, order);
            (out.result is Ok && out.result->Ok_0.last_traded_price is Some) ==> {
                let p = out.result->Ok_0.last_traded_price->Some_0;
                &&& out.txs.len() > 0
                &&& p == out.txs.last().price
                &&& has_price(book.side(opposite(order.side)), p)
            }
        }),
        ({
            let out = spec_insert_order(book, order);
            let p2 = crate::market::next_last_traded_price(old_price, out.result);
            p2 == old_price || (out.txs.len() > 0 && p2 == out.txs.last().price)
        }),
        forall|j: int| 0 <= j < spec_insert_order(book, order).txs.len()
            ==> has_price(book.side(opposite(order.side)), (#[trigger] spec_insert_order(book, order).txs[j]).price),
        (order.volume > 0 && spec_insert_order(book, order).result is Ok) ==> (
            spec_insert_order(book, order).result->Ok_0.last_traded_price is Some
                <==> spec_insert_order(book, order).result->Ok_0.status == OrderExecutionStatus::Filled),
{
    let opp = opposite(order.side);
    let limit = limit_of(order);
    lemma_match_last_price(order, limit, book.side(opp), order.volume);
    let out = spec_insert_order(book, order);
    if out.result is Ok {
        let m = match_levels(order, limit, book.side(opp), order.volume);
        assert(out.txs == m.txs);
        if let Some(p) = out.result->Ok_0.last_traded_price {
            assert(m.last_price == Some(p));
            assert(has_price(book.side(opp), out.txs[out.txs.len() - 1].price));
        }
    }
}

/// Every bid is priced strictly below every ask.
pub open spec fn uncrossed(b: OrderbookView) -> bool {
    forall|i: int, j: int|
        0 <= i < b.bids.len() && 0 <= j < b.asks.len() ==> #[trigger] b.bids[i].price < #[trigger] b.asks[j].price
}

/// Some level of `ls` has price `p`.
pub open spec fn has_price(ls: Seq<SpecLevel>, p: Price) -> bool {
    exists|j: int| 0 <= j < ls.len() && (#[trigger] ls[j]).price == p
}

/// Every level of `a` has the price of some level of `b`.
pub open spec fn prices_within(a: Seq<SpecLevel>, b: Seq<SpecLevel>) -> bool {
    forall|i: int| 0 <= i < a.len() ==> has_price(b, (#[trigger] a[i]).price)
}

proof fn lemma_prices_within_refl(ls: Seq<SpecLevel>)
    ensures
        prices_within(ls, ls),
{
    assert forall|i: int| 0 <= i < ls.len() implies has_price(ls, (#[trigger] ls[i]).price) by {
        assert(ls[i].price == ls[i].price);
    }
}

/// Prices within the side without its best level are within the side.
proof fn lemma_prices_within_drop_last(a: Seq<SpecLevel>, ls: Seq<SpecLevel>)
    requires
        ls.len() > 0,
        prices_within(a, ls.drop_last()),
    ensures
        prices_within(a, ls),
{
    assert forall|i: int| 0 <= i < a.len() implies has_price(ls, (#[trigger] a[i]).price) by {
        assert(has_price(ls.drop_last(), a[i].price));
        let j = choose|j: int| 0 <= j < ls.drop_last().len() && (#[trigger] ls.drop_last()[j]).price == a[i].price;
        assert(ls[j] == ls.drop_last()[j]);
    }
}

/// Matching keeps only prices of the side it matched against, and when the
/// incoming order still has volume left, no level left crosses its limit.
proof fn lemma_match_levels_prices(order: OrderInsertion, limit: Option<Price>, ls: Seq<SpecLevel>, r: Volume)
    requires
        sorted_levels(opposite(order.side), ls),
    ensures
        prices_within(match_levels(order, limit, ls, r).levels, ls),
        !match_levels(order, limit, ls, r).self_trade && match_levels(order, limit, ls, r).remaining > 0 ==>
            forall|i: int| 0 <= i < match_levels(order, limit, ls, r).levels.len()
                ==> !crosses(order.side, limit, (#[trigger] match_levels(order, limit, ls, r).levels[i]).price),
    decreases ls.len(),
{
    lemma_prices_within_refl(ls);
    if ls.len() == 0 || !crosses(order.side, limit, ls.last().price) {
        assert(match_levels(order, limit, ls, r).levels == ls);
        assert forall|i: int| 0 <= i < ls.len() implies !crosses(order.side, limit, (#[trigger] ls[i]).price) by {
            if i < ls.len() - 1 {
                assert(worse(opposite(order.side), ls[i].price, ls[ls.len() - 1].price));
            }
        }
    } else {
        let best = ls.last();
        let rest = ls.drop_last();
        let lf = fill_level(order, best.price, best.orders, r);
        lemma_prices_within_refl(rest);
        lemma_prices_within_drop_last(rest, ls);
        if lf.self_trade {
            assert(match_levels(order, limit, ls, r).levels == ls);
        } else if lf.remaining == 0 {
            assert(match_levels(order, limit, ls, r).remaining == 0);
            if lf.orders.len() > 0 {
                let lv = rest.push(SpecLevel { price: best.price, orders: lf.orders });
                assert(match_levels(order, limit, ls, r).levels == lv);
                assert forall|i: int| 0 <= i < lv.len() implies has_price(ls, (#[trigger] lv[i]).price) by {
                    if i < rest.len() {
                        assert(ls[i] == lv[i]);
                    } else {
                        assert(ls[ls.len() - 1].price == lv[i].price);
                    }
                }
            }
        } else {
            assert(sorted_levels(opposite(order.side), rest)) by {
                assert forall|i: int, j: int| 0 <= i < j < rest.len() implies worse(opposite(order.side), #[trigger] rest[i].price, #[trigger] rest[j].price) by {
                    assert(rest[i] == ls[i] && rest[j] == ls[j]);
                }
            }
            lemma_match_levels_prices(order, limit, rest, lf.remaining);
            let m2 = match_levels(order, limit, rest, lf.remaining);
            assert(match_levels(order, limit, ls, r).levels == m2.levels);
            lemma_prices_within_drop_last(m2.levels, ls);
        }
    }
}

/// A level inserted by `insert_resting` has the new price; every other level
/// has the price of a level that was there.
proof fn lemma_insert_resting_prices(s: Side, ls: Seq<SpecLevel>, price: Price, e: OrderbookEntry)
    ensures
        forall|i: int| 0 <= i < insert_resting(s, ls, price, e).len() ==>
            (#[trigger] insert_resting(s, ls, price, e)[i]).price == price
            || has_price(ls, insert_resting(s, ls, price, e)[i].price),
{
    let k = level_position(s, ls, price);
    lemma_level_position_bounds(s, ls, price);
    let r = insert_resting(s, ls, price, e);
    assert forall|i: int| 0 <= i < r.len() implies (#[trigger] r[i]).price == price
        || has_price(ls, r[i].price) by {
        if k < ls.len() && ls[k].price == price {
            if i != k {
                assert(r[i] == ls[i]);
            }
        } else if i < k {
            assert(r[i] == ls[i]);
        } else if i > k {
            assert(r[i] == ls[i - 1]);
        }
    }
}

/// A book where every bid is below every ask stays so after an insertion:
/// an incoming order trades while it crosses, and rests only once no level
/// of the other side crosses its price.
pub proof fn law_insert_keeps_book_uncrossed(book: OrderbookView, order: OrderInsertion)
    requires
        book.wf(),
        uncrossed(book),
    ensures
        uncrossed(spec_insert_order(book, order).book),
{
    let opp = opposite(order.side);
    let limit = limit_of(order);
    let m = match_levels(order, limit, book.side(opp), order.volume);
    lemma_match_levels_prices(order, limit, book.side(opp), order.volume);
    let out = spec_insert_order(book, order);
    if out.book != book {
        let b2 = out.book;
        let e = OrderbookEntry { order_id: order.id, account_id: order.account_id, remaining_volume: m.remaining };
        lemma_insert_resting_prices(order.side, book.side(order.side), order.price, e);
        assert forall|i: int, j: int| 0 <= i < b2.bids.len() && 0 <= j < b2.asks.len() implies #[trigger] b2.bids[i].price < #[trigger] b2.asks[j].price by {
            match order.side {
                Side::Bid => {
                    assert(has_price(book.asks, m.levels[j].price));
                    let ja = choose|ja: int| 0 <= ja < book.asks.len() && (#[trigger] book.asks[ja]).price == m.levels[j].price;
                    assert(b2.asks[j] == m.levels[j]);
                    if m.remaining > 0 {
                        if b2.bids[i].price != order.price {
                            let ib = choose|ib: int| 0 <= ib < book.bids.len() && (#[trigger] book.bids[ib]).price == b2.bids[i].price;
                            assert(book.bids[ib].price < book.asks[ja].price);
                        } else {
                            assert(!crosses(order.side, limit, m.levels[j].price));
                        }
                    } else {
                        assert(b2.bids[i] == book.bids[i]);
                        assert(book.bids[i].price < book.asks[ja].price);
                    }
                },
                Side::Ask => {
                    assert(has_price(book.bids, m.levels[i].price));
                    let ib = choose|ib: int| 0 <= ib < book.bids.len() && (#[trigger] book.bids[ib]).price == m.levels[i].price;
                    assert(b2.bids[i] == m.levels[i]);
                    if m.remaining > 0 {
                        if b2.asks[j].price != order.price {
                            let ja = choose|ja: int| 0 <= ja < book.asks.len() && (#[trigger] book.asks[ja]).price == b2.asks[j].price;
                            assert(book.bids[ib].price < book.asks[ja].price);
                        } else {
                            assert(!crosses(order.side, limit, m.levels[i].price));
                        }
                    } else {
                        assert(b2.asks[j] == book.asks[j]);
                        assert(book.bids[ib].price < book.asks[j].price);
                    }
                },
            }
        }
    }
}

/// Changing the orders resting at one level, as a cancellation or a
/// modification does (a level left without orders leaves the side), keeps
/// every bid below every ask.
pub proof fn law_level_change_keeps_book_uncrossed(book: OrderbookView, s: Side, i: int, orders: Seq<OrderbookEntry>)
    requires
        uncrossed(book),
        0 <= i < book.side(s).len(),
    ensures
        uncrossed(book.with_side(s, with_level_orders(book.side(s), i, orders))),
{
    let ls2 = with_level_orders(book.side(s), i, orders);
    lemma_with_level_orders(s, book.side(s), i, orders, 0);
    let b2 = book.with_side(s, ls2);
    assert forall|a: int, b: int| 0 <= a < b2.bids.len() && 0 <= b < b2.asks.len() implies #[trigger] b2.bids[a].price < #[trigger] b2.asks[b].price by {
        match s {
            Side::Bid => {
                assert(has_price(book.bids, ls2[a].price));
                let a2 = choose|a2: int| 0 <= a2 < book.bids.len() && (#[trigger] book.bids[a2]).price == ls2[a].price;
                assert(book.bids[a2].price < book.asks[b].price);
            },
            Side::Ask => {
                assert(has_price(book.asks, ls2[b].price));
                let b3 = choose|b3: int| 0 <= b3 < book.asks.len() && (#[trigger] book.asks[b3]).price == ls2[b].price;
                assert(book.bids[a].price < book.asks[b3].price);
            },
        }
    }
}

proof fn lemma_last_in_level(os: Seq<OrderbookEntry>, id: OrderId, k: int)
    requires
        0 <= k < os.len(),
        os[k].order_id == id,
    ensures
        exists|k2: int| k <= k2 < os.len() && os[k2].order_id == id
            && forall|k3: int| k2 < k3 < os.len() ==> os[k3].order_id != id,
    decreases os.len() - k,
{
    if exists|k3: int| k < k3 < os.len() && os[k3].order_id == id {
        let k3 = choose|k3: int| k < k3 < os.len() && os[k3].order_id == id;
        lemma_last_in_level(os, id, k3);
    } else {
        assert(forall|k3: int| k < k3 < os.len() ==> os[k3].order_id != id);
    }
}

proof fn lemma_first_in_level(os: Seq<OrderbookEntry>, id: OrderId, k: int)
    requires
        0 <= k < os.len(),
        os[k].order_id == id,
    ensures
        exists|k2: int| 0 <= k2 <= k && os[k2].order_id == id
            && forall|k3: int| 0 <= k3 < k2 ==> os[k3].order_id != id,
    decreases k,
{
    if exists|k3: int| 0 <= k3 < k && os[k3].order_id == id {
        let k3 = choose|k3: int| 0 <= k3 < k && os[k3].order_id == id;
        lemma_first_in_level(os, id, k3);
    } else {
        assert(forall|k3: int| 0 <= k3 < k ==> os[k3].order_id != id);
    }
}

/// An order resting at `price` has a last and a first occurrence there.
pub proof fn lemma_occurrences_exist(ls: Seq<SpecLevel>, price: Price, id: OrderId)
    requires
        rests_at(ls, price, id),
    ensures
        exists|i: int, k: int| last_occurrence(ls, price, id, i, k),
        exists|i: int, k: int| first_occurrence(ls, price, id, i, k),
{
    let (i, k) = choose|i: int, k: int|
        0 <= i < ls.len() && ls[i].price == price && 0 <= k < ls[i].orders.len()
            && (#[trigger] ls[i].orders[k]).order_id == id;
    let os = ls[i].orders;
    lemma_last_in_level(os, id, k);
    let kl = choose|k2: int| k <= k2 < os.len() && os[k2].order_id == id
        && forall|k3: int| k2 < k3 < os.len() ==> os[k3].order_id != id;
    assert(last_occurrence(ls, price, id, i, kl));
    lemma_first_in_level(os, id, k);
    let kf = choose|k2: int| 0 <= k2 <= k && os[k2].order_id == id
        && forall|k3: int| 0 <= k3 < k2 ==> os[k3].order_id != id;
    assert(first_occurrence(ls, price, id, i, kf));
}

/// Matching leaves no empty level behind: a level emptied by the incoming
/// order leaves the side.
proof fn lemma_match_levels_nonempty(order: OrderInsertion, limit: Option<Price>, ls: Seq<SpecLevel>, r: Volume)
    requires
        nonempty_levels(ls),
    ensures
        nonempty_levels(match_levels(order, limit, ls, r).levels),
    decreases ls.len(),
{
    if ls.len() > 0 && crosses(order.side, limit, ls.last().price) {
        let best = ls.last();
        let rest = ls.drop_last();
        let lf = fill_level(order, best.price, best.orders, r);
        assert(nonempty_levels(rest)) by {
            assert forall|i: int| 0 <= i < rest.len() implies (#[trigger] rest[i]).orders.len() > 0 by {
                assert(rest[i] == ls[i]);
            }
        }
        if !lf.self_trade {
            if lf.remaining == 0 {
                if lf.orders.len() > 0 {
                    let lv = rest.push(SpecLevel { price: best.price, orders: lf.orders });
                    assert forall|i: int| 0 <= i < lv.len() implies (#[trigger] lv[i]).orders.len() > 0 by {
                        if i < rest.len() {
                            assert(lv[i] == rest[i]);
                        }
                    }
                }
            } else {
                lemma_match_levels_nonempty(order, limit, rest, lf.remaining);
            }
        }
    }
}

proof fn lemma_insert_resting_nonempty(s: Side, ls: Seq<SpecLevel>, price: Price, e: OrderbookEntry)
    requires
        nonempty_levels(ls),
    ensures
        nonempty_levels(insert_resting(s, ls, price, e)),
{
    lemma_level_position_bounds(s, ls, price);
    let k = level_position(s, ls, price);
    let ls2 = insert_resting(s, ls, price, e);
    assert forall|a: int| 0 <= a < ls2.len() implies (#[trigger] ls2[a]).orders.len() > 0 by {
        if k < ls.len() && ls[k].price == price {
            if a != k {
                assert(ls2[a] == ls[a]);
            }
        } else if a < k {
            assert(ls2[a] == ls[a]);
        } else if a > k {
            assert(ls2[a] == ls[a - 1]);
        }
    }
}

/// A book whose every level holds an order keeps that after an insertion:
/// levels emptied by trading leave the book, and a resting order joins a
/// level or makes one of its own.
pub proof fn law_insert_leaves_no_empty_level(book: OrderbookView, order: OrderInsertion)
    requires
        nonempty_levels(book.bids),
        nonempty_levels(book.asks),
    ensures
        nonempty_levels(spec_insert_order(book, order).book.bids),
        nonempty_levels(spec_insert_order(book, order).book.asks),
{
    let opp = opposite(order.side);
    let limit = limit_of(order);
    let m = match_levels(order, limit, book.side(opp), order.volume);
    lemma_match_levels_nonempty(order, limit, book.side(opp), order.volume);
    let e = OrderbookEntry { order_id: order.id, account_id: order.account_id, remaining_volume: m.remaining };
    lemma_insert_resting_nonempty(order.side, book.side(order.side), order.price, e);
}

/// Changing the orders resting at one level, as a cancellation or a
/// modification does, leaves no empty level: a level left without orders
/// leaves the side.
pub proof fn law_level_change_leaves_no_empty_level(ls: Seq<SpecLevel>, i: int, orders: Seq<OrderbookEntry>)
    requires
        nonempty_levels(ls),
        0 <= i < ls.len(),
    ensures
        nonempty_levels(with_level_orders(ls, i, orders)),
{
    lemma_with_level_orders(Side::Bid, ls, i, orders, 0);
}

/// The volume that `txs` take from the resting order `id`.
pub open spec fn maker_volume(txs: Seq<ObTransaction>, id: OrderId) -> int
    decreases txs.len(),
{
    if txs.len() == 0 {
        0
    } else {
        maker_volume(txs.drop_last(), id) + if txs.last().order_id_maker == id { txs.last().volume as int } else { 0 }
    }
}

pub proof fn lemma_maker_volume_concat(a: Seq<ObTransaction>, b: Seq<ObTransaction>, id: OrderId)
    ensures
        maker_volume(a + b, id) == maker_volume(a, id) + maker_volume(b, id),
    decreases b.len(),
{
    if b.len() == 0 {
        assert(a + b =~= a);
    } else {
        assert((a + b).drop_last() =~= a + b.drop_last());
        assert((a + b).last() == b.last());
        lemma_maker_volume_concat(a, b.drop_last(), id);
    }
}

/// `e` after `v` more of it is filled.
pub open spec fn filled_by(e: OrderbookEntry, v: int) -> OrderbookEntry {
    OrderbookEntry { remaining_volume: (e.remaining_volume - v) as Volume, ..e }
}

/// No two orders of `os` have the same id.
pub open spec fn orders_unique(os: Seq<OrderbookEntry>) -> bool {
    forall|k1: int, k2: int| 0 <= k1 < k2 < os.len() ==> (#[trigger] os[k1]).order_id != (#[trigger] os[k2]).order_id
}

/// No two places of the side hold orders of the same id.
pub open spec fn side_unique(ls: Seq<SpecLevel>) -> bool {
    forall|j1: int, k1: int, j2: int, k2: int|
        0 <= j1 < ls.len() && 0 <= k1 < ls[j1].orders.len() && 0 <= j2 < ls.len() && 0 <= k2 < ls[j2].orders.len()
            && (#[trigger] ls[j1].orders[k1]).order_id == (#[trigger] ls[j2].orders[k2]).order_id
            ==> j1 == j2 && k1 == k2
}

/// The orders `left` of a level are the orders `os` it had, but for the
/// first `d` of them, which `txs` filled completely; each left one lost what
/// `txs` took from it, which is less than it had.
pub open spec fn fill_shape(os: Seq<OrderbookEntry>, txs: Seq<ObTransaction>, left: Seq<OrderbookEntry>, d: int) -> bool {
    &&& 0 <= d <= os.len()
    &&& left.len() == os.len() - d
    &&& forall|k: int| 0 <= k < left.len() ==>
        #[trigger] left[k] == filled_by(os[k + d], maker_volume(txs, os[k + d].order_id))
        && maker_volume(txs, os[k + d].order_id) < os[k + d].remaining_volume
    &&& forall|k: int| 0 <= k < d ==> maker_volume(txs, (#[trigger] os[k]).order_id) == os[k].remaining_volume
}

/// What an incoming order does to the orders of one level: it fills the
/// oldest ones completely, maybe the next one in part, and takes nothing
/// from orders of other ids.
#[verifier::spinoff_prover]
#[verifier::rlimit(40)]
pub proof fn lemma_fill_level_shape(order: OrderInsertion, price: Price, os: Seq<OrderbookEntry>, r: Volume)
    requires
        !fill_level(order, price, os, r).self_trade,
        orders_unique(os),
        positive_orders(os),
    ensures
        exists|d: int| fill_shape(os, fill_level(order, price, os, r).txs, fill_level(order, price, os, r).orders, d),
        forall|x: OrderId| (forall|k: int| 0 <= k < os.len() ==> os[k].order_id != x)
            ==> maker_volume(fill_level(order, price, os, r).txs, x) == 0,
        fill_level(order, price, os, r).remaining > 0 ==> fill_level(order, price, os, r).orders.len() == 0,
        orders_unique(fill_level(order, price, os, r).orders),
    decreases os.len(),
{
    let lf = fill_level(order, price, os, r);
    if os.len() == 0 {
        assert(fill_shape(os, lf.txs, lf.orders, 0));
    } else {
        let o = os[0];
        let tv = min_volume(r, o.remaining_volume);
        let tx = ObTransaction { price, volume: tv, taker_side: order.side, order_id_maker: o.order_id, order_id_taker: order.id };
        let r2 = (r - tv) as Volume;
        let rest = os.drop_first();
        assert(seq![tx].drop_last() =~= Seq::<ObTransaction>::empty());
        assert forall|x: OrderId| maker_volume(seq![tx], x) == if x == o.order_id { tv as int } else { 0 } by {
            assert(seq![tx].last() == tx);
            assert(seq![tx].drop_last() =~= Seq::<ObTransaction>::empty());
            assert(maker_volume(Seq::<ObTransaction>::empty(), x) == 0);
        }
        assert forall|k: int| 0 < k < os.len() implies (#[trigger] os[k]).order_id != o.order_id by {
            assert(os[0].order_id != os[k].order_id);
        }
        if r2 == 0 {
            let left = (o.remaining_volume - tv) as Volume;
            if left == 0 {
                assert forall|k: int| 0 <= k < lf.orders.len() implies
                    #[trigger] lf.orders[k] == filled_by(os[k + 1], maker_volume(lf.txs, os[k + 1].order_id))
                    && maker_volume(lf.txs, os[k + 1].order_id) < os[k + 1].remaining_volume by {
                    assert(lf.orders[k] == os[k + 1]);
                }
                assert(fill_shape(os, lf.txs, lf.orders, 1));
            } else {
                assert forall|k: int| 0 <= k < lf.orders.len() implies
                    #[trigger] lf.orders[k] == filled_by(os[k], maker_volume(lf.txs, os[k].order_id))
                    && maker_volume(lf.txs, os[k].order_id) < os[k].remaining_volume by {
                }
                assert(fill_shape(os, lf.txs, lf.orders, 0));
            }
        } else {
            assert(orders_unique(rest)) by {
                assert forall|k1: int, k2: int| 0 <= k1 < k2 < rest.len() implies (#[trigger] rest[k1]).order_id != (#[trigger] rest[k2]).order_id by {
                    assert(rest[k1] == os[k1 + 1] && rest[k2] == os[k2 + 1]);
                }
            }
            assert(positive_orders(rest)) by {
                assert forall|k: int| 0 <= k < rest.len() implies (#[trigger] rest[k]).remaining_volume > 0 by {
                    assert(rest[k] == os[k + 1]);
                }
            }
            lemma_fill_level_shape(order, price, rest, r2);
            let lr = fill_level(order, price, rest, r2);
            let d2 = choose|d2: int| fill_shape(rest, lr.txs, lr.orders, d2);
            assert(lf.txs == seq![tx] + lr.txs);
            assert(lf.orders == lr.orders);
            assert(lr.orders.len() == rest.len() - d2);
            assert forall|x: OrderId| maker_volume(lf.txs, x) == (if x == o.order_id { tv as int } else { 0 }) + maker_volume(lr.txs, x) by {
                lemma_maker_volume_concat(seq![tx], lr.txs, x);
            }
            assert forall|k: int| 0 <= k < rest.len() implies (#[trigger] rest[k]).order_id != o.order_id by {
                assert(rest[k] == os[k + 1]);
            }
            assert(maker_volume(lr.txs, o.order_id) == 0);
            assert(tv == o.remaining_volume);
            assert forall|k: int| 0 <= k < lf.orders.len() implies
                #[trigger] lf.orders[k] == filled_by(os[k + d2 + 1], maker_volume(lf.txs, os[k + d2 + 1].order_id))
                && maker_volume(lf.txs, os[k + d2 + 1].order_id) < os[k + d2 + 1].remaining_volume by {
                assert(lr.orders[k] == filled_by(rest[k + d2], maker_volume(lr.txs, rest[k + d2].order_id)));
                assert(rest[k + d2] == os[k + d2 + 1]);
            }
            assert forall|k: int| 0 <= k < d2 + 1 implies maker_volume(lf.txs, (#[trigger] os[k]).order_id) == os[k].remaining_volume by {
                if k > 0 {
                    assert(rest[k - 1] == os[k]);
                    assert(maker_volume(lr.txs, rest[k - 1].order_id) == rest[k - 1].remaining_volume);
                }
            }
            assert(0 <= d2 + 1 <= os.len());
            assert(lf.orders.len() == os.len() - (d2 + 1));
            assert(fill_shape(os, lf.txs, lf.orders, d2 + 1));
            assert forall|x: OrderId| (forall|k: int| 0 <= k < os.len() ==> os[k].order_id != x)
                implies maker_volume(lf.txs, x) == 0 by {
                assert forall|k: int| 0 <= k < rest.len() implies rest[k].order_id != x by {
                    assert(rest[k] == os[k + 1]);
                }
                assert(os[0].order_id != x);
            }
        }
    }
}

/// No order of the side has id `x`.
pub open spec fn id_absent(ls: Seq<SpecLevel>, x: OrderId) -> bool {
    forall|j: int, k: int| 0 <= j < ls.len() && 0 <= k < ls[j].orders.len() ==> (#[trigger] ls[j].orders[k]).order_id != x
}

/// What an incoming order does to the opposite side `ls`: its worst `t`
/// levels stay as they were and lose nothing; the level at `t` may stay with
/// its orders filled in part (see `fill_shape`); every other level is filled
/// completely and leaves.
pub open spec fn match_shape(ls: Seq<SpecLevel>, txs: Seq<ObTransaction>, levels: Seq<SpecLevel>, t: int) -> bool {
    &&& 0 <= t <= ls.len()
    &&& (levels.len() == t || levels.len() == t + 1)
    &&& forall|j: int| 0 <= j < t ==> #[trigger] levels[j] == ls[j]
    &&& forall|j: int, k: int| 0 <= j < t && 0 <= k < ls[j].orders.len()
        ==> maker_volume(txs, (#[trigger] ls[j].orders[k]).order_id) == 0
    &&& levels.len() == t + 1 ==> {
        &&& t < ls.len()
        &&& levels[t].price == ls[t].price
        &&& exists|d: int| fill_shape(ls[t].orders, txs, levels[t].orders, d)
    }
    &&& forall|j: int, k: int| t <= j < ls.len() && !(levels.len() == t + 1 && j == t) && 0 <= k < ls[j].orders.len()
        ==> maker_volume(txs, (#[trigger] ls[j].orders[k]).order_id) == ls[j].orders[k].remaining_volume
}

#[verifier::spinoff_prover]
#[verifier::rlimit(40)]
proof fn lemma_fill_shape_transport(os: Seq<OrderbookEntry>, txs1: Seq<ObTransaction>, txs2: Seq<ObTransaction>, left: Seq<OrderbookEntry>, d: int)
    requires
        fill_shape(os, txs1, left, d),
        forall|k: int| 0 <= k < os.len() ==> maker_volume(txs2, (#[trigger] os[k]).order_id) == maker_volume(txs1, os[k].order_id),
    ensures
        fill_shape(os, txs2, left, d),
{
    assert forall|k: int| 0 <= k < left.len() implies
        #[trigger] left[k] == filled_by(os[k + d], maker_volume(txs2, os[k + d].order_id))
        && maker_volume(txs2, os[k + d].order_id) < os[k + d].remaining_volume by {
        assert(0 <= k + d < os.len());
        assert(left[k] == filled_by(os[k + d], maker_volume(txs1, os[k + d].order_id)));
        assert(maker_volume(txs2, os[k + d].order_id) == maker_volume(txs1, os[k + d].order_id));
    }
    assert forall|k: int| 0 <= k < d implies maker_volume(txs2, (#[trigger] os[k]).order_id) == os[k].remaining_volume by {
        assert(maker_volume(txs1, os[k].order_id) == os[k].remaining_volume);
    }
}

/// See `match_shape`; and no order outside the side loses anything.
#[verifier::spinoff_prover]
#[verifier::rlimit(40)]
pub proof fn lemma_match_levels_shape(order: OrderInsertion, limit: Option<Price>, ls: Seq<SpecLevel>, r: Volume)
    requires
        !match_levels(order, limit, ls, r).self_trade,
        side_unique(ls),
        positive_levels(ls),
    ensures
        exists|t: int| match_shape(ls, match_levels(order, limit, ls, r).txs, match_levels(order, limit, ls, r).levels, t),
        forall|x: OrderId| id_absent(ls, x) ==> maker_volume(match_levels(order, limit, ls, r).txs, x) == 0,
    decreases ls.len(),
{
    let m = match_levels(order, limit, ls, r);
    assert(maker_volume(Seq::<ObTransaction>::empty(), 0) == 0);
    if ls.len() == 0 || !crosses(order.side, limit, ls.last().price) {
        assert forall|x: OrderId| maker_volume(Seq::<ObTransaction>::empty(), x) == 0 by {}
        assert(match_shape(ls, m.txs, m.levels, ls.len() as int));
    } else {
        let n = ls.len() - 1;
        let best = ls.last();
        let rest = ls.drop_last();
        let lf = fill_level(order, best.price, best.orders, r);
        assert(best == ls[n]);
        assert(orders_unique(best.orders)) by {
            assert forall|k1: int, k2: int| 0 <= k1 < k2 < best.orders.len() implies (#[trigger] best.orders[k1]).order_id != (#[trigger] best.orders[k2]).order_id by {
                if ls[n].orders[k1].order_id == ls[n].orders[k2].order_id {
                    assert(k1 == k2);
                }
            }
        }
        assert(positive_orders(best.orders)) by {
            assert forall|k: int| 0 <= k < best.orders.len() implies (#[trigger] best.orders[k]).remaining_volume > 0 by {
                assert(ls[n].orders[k].remaining_volume > 0);
            }
        }
        lemma_fill_level_shape(order, best.price, best.orders, r);
        let d = choose|d: int| fill_shape(best.orders, lf.txs, lf.orders, d);
        // Orders of the other levels are not in the best one.
        assert forall|j: int, k: int| 0 <= j < n && 0 <= k < ls[j].orders.len()
            implies maker_volume(lf.txs, (#[trigger] ls[j].orders[k]).order_id) == 0 by {
            assert forall|k2: int| 0 <= k2 < best.orders.len() implies best.orders[k2].order_id != ls[j].orders[k].order_id by {
                if ls[n].orders[k2].order_id == ls[j].orders[k].order_id {
                    assert(n == j);
                }
            }
        }
        assert forall|j: int| 0 <= j < rest.len() implies #[trigger] rest[j] == ls[j] by {}
        if lf.remaining == 0 {
            if lf.orders.len() == 0 {
                assert(m.levels == rest);
            } else {
                assert(m.levels == rest.push(SpecLevel { price: best.price, orders: lf.orders }));
                assert(m.levels[n].orders == lf.orders);
            }
            assert(m.txs == lf.txs);
            assert(match_shape(ls, m.txs, m.levels, n));
            assert forall|x: OrderId| id_absent(ls, x) implies maker_volume(m.txs, x) == 0 by {
                assert forall|k: int| 0 <= k < best.orders.len() implies best.orders[k].order_id != x by {
                    assert(ls[n].orders[k].order_id != x);
                }
            }
        } else {
            assert(side_unique(rest)) by {
                assert forall|j1: int, k1: int, j2: int, k2: int|
                    0 <= j1 < rest.len() && 0 <= k1 < rest[j1].orders.len() && 0 <= j2 < rest.len() && 0 <= k2 < rest[j2].orders.len()
                        && (#[trigger] rest[j1].orders[k1]).order_id == (#[trigger] rest[j2].orders[k2]).order_id
                    implies j1 == j2 && k1 == k2 by {
                    assert(ls[j1].orders[k1].order_id == ls[j2].orders[k2].order_id);
                }
            }
            assert(positive_levels(rest)) by {
                assert forall|j: int, k: int| 0 <= j < rest.len() && 0 <= k < rest[j].orders.len()
                    implies (#[trigger] rest[j].orders[k]).remaining_volume > 0 by {
                    assert(ls[j].orders[k].remaining_volume > 0);
                }
            }
            let m2 = match_levels(order, limit, rest, lf.remaining);
            lemma_match_levels_shape(order, limit, rest, lf.remaining);
            let t = choose|t: int| match_shape(rest, m2.txs, m2.levels, t);
            assert(m.txs == lf.txs + m2.txs);
            assert(m.levels == m2.levels);
            assert forall|x: OrderId| maker_volume(m.txs, x) == maker_volume(lf.txs, x) + maker_volume(m2.txs, x) by {
                lemma_maker_volume_concat(lf.txs, m2.txs, x);
            }
            // The best level is filled completely, and its orders are not elsewhere.
            assert(d == best.orders.len());
            assert forall|k: int| 0 <= k < best.orders.len() implies id_absent(rest, (#[trigger] best.orders[k]).order_id) by {
                assert forall|j: int, k2: int| 0 <= j < rest.len() && 0 <= k2 < rest[j].orders.len()
                    implies (#[trigger] rest[j].orders[k2]).order_id != best.orders[k].order_id by {
                    if ls[j].orders[k2].order_id == ls[n].orders[k].order_id {
                        assert(j == n);
                    }
                }
            }
            assert forall|k: int| 0 <= k < best.orders.len() implies
                maker_volume(m.txs, (#[trigger] ls[n].orders[k]).order_id) == ls[n].orders[k].remaining_volume by {
                assert(id_absent(rest, best.orders[k].order_id));
                assert(maker_volume(lf.txs, best.orders[k].order_id) == best.orders[k].remaining_volume);
            }
            assert forall|j: int, k: int| 0 <= j < n && 0 <= k < ls[j].orders.len()
                implies maker_volume(m.txs, (#[trigger] ls[j].orders[k]).order_id) == maker_volume(m2.txs, ls[j].orders[k].order_id) by {
                assert(maker_volume(lf.txs, ls[j].orders[k].order_id) == 0);
            }
            if m.levels.len() == t + 1 {
                let d2 = choose|d2: int| fill_shape(rest[t].orders, m2.txs, m2.levels[t].orders, d2);
                assert forall|k: int| 0 <= k < rest[t].orders.len() implies
                    maker_volume(m.txs, (#[trigger] rest[t].orders[k]).order_id) == maker_volume(m2.txs, rest[t].orders[k].order_id) by {
                    assert(rest[t].orders[k] == ls[t].orders[k]);
                }
                lemma_fill_shape_transport(rest[t].orders, m2.txs, m.txs, m2.levels[t].orders, d2);
            }
            assert forall|j: int| 0 <= j < t implies #[trigger] m.levels[j] == ls[j] by {
                assert(m2.levels[j] == rest[j]);
            }
            assert forall|j: int, k: int| 0 <= j < t && 0 <= k < ls[j].orders.len()
                implies maker_volume(m.txs, (#[trigger] ls[j].orders[k]).order_id) == 0 by {
                assert(rest[j].orders[k] == ls[j].orders[k]);
                assert(maker_volume(m2.txs, rest[j].orders[k].order_id) == 0);
            }
            assert forall|j: int, k: int| t <= j < ls.len() && !(m.levels.len() == t + 1 && j == t) && 0 <= k < ls[j].orders.len()
                implies maker_volume(m.txs, (#[trigger] ls[j].orders[k]).order_id) == ls[j].orders[k].remaining_volume by {
                if j < n {
                    assert(rest[j].orders[k] == ls[j].orders[k]);
                    assert(maker_volume(m2.txs, rest[j].orders[k].order_id) == rest[j].orders[k].remaining_volume);
                } else {
                    assert(ls[n].orders[k] == best.orders[k]);
                }
            }
            assert(match_shape(ls, m.txs, m.levels, t));
            assert forall|x: OrderId| id_absent(ls, x) implies maker_volume(m.txs, x) == 0 by {
                assert forall|k: int| 0 <= k < best.orders.len() implies best.orders[k].order_id != x by {
                    assert(ls[n].orders[k].order_id != x);
                }
                assert forall|j: int, k: int| 0 <= j < rest.len() && 0 <= k < rest[j].orders.len()
                    implies (#[trigger] rest[j].orders[k]).order_id != x by {
                    assert(ls[j].orders[k].order_id != x);
                }
                assert(id_absent(rest, x));
                assert(maker_volume(m2.txs, x) == 0);
                assert(maker_volume(lf.txs, x) == 0);
            }
        }
    }
}

} // verus!
