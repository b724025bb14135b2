use vstd::prelude::*;
use crate::asset::AssetIdPair;
use crate::errors::{MarketCreationError, OrderCancellationError, OrderInsertionError, OrderModificationError};
use crate::order::{OrderCancellation, OrderInsertion, OrderModification, Side};
use crate::orderbook::{
    Orderbook, OrderbookView, OrderbookL1, OrderbookL2, ObOrderInsertionResult, ObTransaction,
    ObTransactionBuffer, SpecLevel, spec_insert_order, spec_l1, l2_side, rests_at, last_occurrence,
    first_occurrence, reduce_at, remove_at,
};
use crate::util::types::{OrderId, Price};

verus! {

pub type MarketCreationResult = Result<(), MarketCreationError>;

/// What the exchange reports of an inserted order.
#[derive(Debug, Clone, Copy, PartialEq, Eq, Structural)]
pub struct OrderInsertionEffects {
    /// The id assigned to the order.
    pub id: OrderId,
    pub status: OrderExecutionStatus,
}

/// The execution status of an order.
#[derive(Debug, Clone, Copy, PartialEq, Eq, Structural)]
pub enum OrderExecutionStatus {
    AwaitingFill,
    PartialFill,
    Filled,
    Killed,
    Cancelled,
}

pub type OrderInsertionResult = Result<OrderInsertionEffects, OrderInsertionError>;

pub type OrderCancellationResult = Result<(), OrderCancellationError>;

pub type OrderModificationResult = Result<(), OrderModificationError>;

/// The market of one asset pair: its orderbook and the last price traded.
#[derive(Debug, Clone)]
pub struct Market {
    pub asset_pair: AssetIdPair,
    pub last_traded_price: Price,
    pub orderbook: Orderbook,
}

/// The mathematical content of a market.
pub struct MarketView {
    pub asset_pair: AssetIdPair,
    pub last_traded_price: Price,
    pub book: OrderbookView,
}

impl View for Market {
    type V = MarketView;

    open spec fn view(&self) -> MarketView {
        MarketView { asset_pair: self.asset_pair, last_traded_price: self.last_traded_price, book: self.orderbook@ }
    }
}

impl MarketView {
    pub open spec fn wf(self) -> bool {
        self.book.wf() && self.book.no_empty_orders()
    }
}

/// The last traded price after an insertion with result `r`: the price where
/// the order ran out of volume, if it did.
pub open spec fn next_last_traded_price(old_price: Price, r: ObOrderInsertionResult) -> Price {
    match r {
        Ok(e) => match e.last_traded_price {
            Some(p) => p,
            None => old_price,
        },
        Err(_) => old_price,
    }
}

/// Total number of resting orders of a side.
pub open spec fn order_count(ls: Seq<SpecLevel>) -> int
    decreases ls.len(),
{
    if ls.len() == 0 { 0 } else { order_count(ls.drop_last()) + ls.last().orders.len() }
}

proof fn lemma_order_count_nonneg(ls: Seq<SpecLevel>)
    ensures
        order_count(ls) >= 0,
    decreases ls.len(),
{
    if ls.len() > 0 {
        lemma_order_count_nonneg(ls.drop_last());
    }
}

/// Counting the orders of two runs of levels one after the other.
proof fn lemma_order_count_concat(a: Seq<SpecLevel>, b: Seq<SpecLevel>)
    ensures
        order_count(a + b) == order_count(a) + order_count(b),
    decreases b.len(),
{
    if b.len() == 0 {
        assert(a + b =~= a);
    } else {
        assert((a + b).drop_last() =~= a + b.drop_last());
        assert((a + b).last() == b.last());
        lemma_order_count_concat(a, b.drop_last());
    }
}

proof fn lemma_order_count_one(l: SpecLevel)
    ensures
        order_count(seq![l]) == l.orders.len(),
{
    assert(seq![l].drop_last() =~= Seq::<SpecLevel>::empty());
    assert(seq![l].last() == l);
    assert(order_count(Seq::<SpecLevel>::empty()) == 0);
}

/// Replacing, adding or removing one level changes the count by the orders
/// of that level.
proof fn lemma_order_count_edits(ls: Seq<SpecLevel>, k: int, l: SpecLevel)
    ensures
        0 <= k < ls.len() ==> order_count(ls.update(k, l)) == order_count(ls) - ls[k].orders.len() + l.orders.len(),
        0 <= k <= ls.len() ==> order_count(ls.insert(k, l)) == order_count(ls) + l.orders.len(),
        0 <= k < ls.len() ==> order_count(ls.remove(k)) == order_count(ls) - ls[k].orders.len(),
{
    if 0 <= k < ls.len() {
        let pre = ls.take(k);
        let post = ls.skip(k + 1);
        assert(ls =~= pre + seq![ls[k]] + post);
        assert(ls.update(k, l) =~= pre + seq![l] + post);
        assert(ls.remove(k) =~= pre + post);
        lemma_order_count_concat(pre + seq![ls[k]], post);
        lemma_order_count_concat(pre, seq![ls[k]]);
        lemma_order_count_concat(pre + seq![l], post);
        lemma_order_count_concat(pre, seq![l]);
        lemma_order_count_concat(pre, post);
        lemma_order_count_one(ls[k]);
        lemma_order_count_one(l);
    }
    if 0 <= k <= ls.len() {
        let pre = ls.take(k);
        let post = ls.skip(k);
        assert(ls =~= pre + post);
        assert(ls.insert(k, l) =~= pre + seq![l] + post);
        lemma_order_count_concat(pre + seq![l], post);
        lemma_order_count_concat(pre, seq![l]);
        lemma_order_count_concat(pre, post);
        lemma_order_count_one(l);
    }
}

/// The size of a side counts orders, not levels: an order that comes to
/// rest adds exactly one, whether it joins a level or opens one, and an
/// order that is cancelled takes exactly one away, whether its level stays
/// or goes.
pub proof fn law_order_count_counts_orders(s: Side, ls: Seq<SpecLevel>, price: Price, e: crate::orderbook::OrderbookEntry, i: int, k: int)
    ensures
        order_count(crate::orderbook::insert_resting(s, ls, price, e)) == order_count(ls) + 1,
        0 <= i < ls.len() && 0 <= k < ls[i].orders.len() ==> order_count(remove_at(ls, i, k)) == order_count(ls) - 1,
        order_count(Seq::<SpecLevel>::empty()) == 0,
{
    let p = crate::orderbook::level_position(s, ls, price);
    crate::orderbook::lemma_level_position_bounds(s, ls, price);
    if p < ls.len() && ls[p].price == price {
        lemma_order_count_edits(ls, p, SpecLevel { price, orders: ls[p].orders.push(e) });
    } else {
        lemma_order_count_edits(ls, p, SpecLevel { price, orders: seq![e] });
    }
    if 0 <= i < ls.len() && 0 <= k < ls[i].orders.len() {
        let os = ls[i].orders.remove(k);
        lemma_order_count_edits(ls, i, SpecLevel { price: ls[i].price, orders: os });
    }
}

fn count_orders(levels: &Vec<crate::orderbook::PriceLevel>, acc: usize) -> (r: usize)
    ensures
        r == if acc + order_count(crate::orderbook::levels_view(levels@)) > usize::MAX {
            usize::MAX as int
        } else {
            acc + order_count(crate::orderbook::levels_view(levels@))
        },
{
    let ghost ls = crate::orderbook::levels_view(levels@);
    let n = levels.len();
    let mut r = acc;
    let mut i: usize = 0;
    let ghost mut exact: int = acc as int;
    assert(ls.take(0) =~= Seq::<SpecLevel>::empty());
    while i < n
        invariant
            i <= n,
            n == levels@.len(),
            ls == crate::orderbook::levels_view(levels@),
            exact == acc + order_count(ls.take(i as int)),
            r == if exact > usize::MAX { usize::MAX as int } else { exact },
        decreases n - i,
    {
        assert(ls.take(i + 1).drop_last() =~= ls.take(i as int));
        r = r.saturating_add(levels[i].orders.len());
        proof { exact = exact + levels@[i as int].orders@.len(); }
        i = i + 1;
    }
    assert(ls.take(n as int) =~= ls);
    r
}

impl Market {
    pub fn new(asset_pair: AssetIdPair) -> (r: Market)
        ensures
            r.asset_pair == asset_pair,
            r.last_traded_price == 0,
            r@.book.bids == Seq::<SpecLevel>::empty(),
            r@.book.asks == Seq::<SpecLevel>::empty(),
            r@.wf(),
    {
        Market { asset_pair, last_traded_price: 0, orderbook: Orderbook::new() }
    }

    /// Inserts an order in the orderbook (see `Orderbook::insert_order`) and
    /// records the price where it ran out of volume as the last traded price.
    pub fn insert_order(&mut self, order: OrderInsertion, transaction_buf: &mut ObTransactionBuffer) -> (r: ObOrderInsertionResult)
        requires
            old(self)@.wf(),
        ensures
            ({
                let out = spec_insert_order(old(self)@.book, order);
                &&& r == out.result
                &&& final(self)@.book == out.book
                &&& final(transaction_buf)@ == old(transaction_buf)@ + out.txs
            }),
            final(self).asset_pair == old(self).asset_pair,
            final(self).last_traded_price == next_last_traded_price(old(self).last_traded_price, r),
            final(self)@.wf(),
    {
        let execution_result = self.orderbook.insert_order(order, transaction_buf);
        if let Ok(effects) = execution_result {
            if let Some(last_traded_price) = effects.last_traded_price {
                self.last_traded_price = last_traded_price;
            }
        }
        execution_result
    }

    /// See `Orderbook::cancel_order`.
    pub fn cancel_order(&mut self, cancellation: OrderCancellation) -> (r: OrderCancellationResult)
        requires
            old(self)@.wf(),
        ensures
            ({
                let s = cancellation.side;
                let ls = old(self)@.book.side(s);
                let price = cancellation.price;
                let id = cancellation.order_id;
                &&& r is Ok <==> rests_at(ls, price, id)
                &&& r is Ok ==> r == Ok::<(), OrderCancellationError>(())
                &&& r is Ok ==> exists|i: int, k: int| #[trigger] last_occurrence(ls, price, id, i, k)
                    && final(self)@.book == old(self)@.book.with_side(s, remove_at(ls, i, k))
                &&& r is Err ==> r == Err::<(), OrderCancellationError>(OrderCancellationError::AlreadyFilled)
                    && final(self)@.book == old(self)@.book
            }),
            final(self).asset_pair == old(self).asset_pair,
            final(self).last_traded_price == old(self).last_traded_price,
            final(self)@.wf(),
    {
        self.orderbook.cancel_order(cancellation)
    }

    /// See `Orderbook::modify_order`.
    pub fn modify_order(&mut self, modification: OrderModification) -> (r: OrderModificationResult)
        requires
            old(self)@.wf(),
        ensures
            ({
                let s = modification.side;
                let ls = old(self)@.book.side(s);
                let price = modification.price;
                let id = modification.order_id;
                &&& r is Ok <==> rests_at(ls, price, id)
                &&& r is Ok ==> r == Ok::<(), OrderModificationError>(())
                &&& r is Ok ==> exists|i: int, k: int| #[trigger] first_occurrence(ls, price, id, i, k)
                    && final(self)@.book == old(self)@.book.with_side(s, reduce_at(ls, i, k, modification.volume_reduction))
                &&& r is Err ==> r == Err::<(), OrderModificationError>(OrderModificationError::OrderNotFound)
                    && final(self)@.book == old(self)@.book
            }),
            final(self).asset_pair == old(self).asset_pair,
            final(self).last_traded_price == old(self).last_traded_price,
            final(self)@.wf(),
    {
        self.orderbook.modify_order(modification)
    }

    /// The number of orders resting in the book (at most `usize::MAX`).
    pub fn get_orderbook_size(&self) -> (r: usize)
        ensures
            r == if order_count(self@.book.bids) + order_count(self@.book.asks) > usize::MAX {
                usize::MAX as int
            } else {
                order_count(self@.book.bids) + order_count(self@.book.asks)
            },
    {
        let r = count_orders(&self.orderbook.bids, 0);
        proof {
            lemma_order_count_nonneg(self@.book.bids);
            lemma_order_count_nonneg(self@.book.asks);
        }
        count_orders(&self.orderbook.asks, r)
    }

    pub fn get_l1(&self) -> (r: OrderbookL1)
        ensures
            r == spec_l1(self@.book),
    {
        self.orderbook.get_l1()
    }

    pub fn get_l2(&self) -> (r: OrderbookL2)
        ensures
            r.bids@ == l2_side(Side::Bid, self@.book.bids),
            r.asks@ == l2_side(Side::Ask, self@.book.asks),
    {
        self.orderbook.get_l2()
    }
}

/// The markets of an exchange, at most one per asset pair.
#[derive(Debug)]
pub struct Markets {
    pub keys: Vec<AssetIdPair>,
    pub inner: Vec<Market>,
}

impl Markets {
    /// Each key is the pair of the market at the same index, no pair occurs
    /// twice, and every market is well formed.
    pub open spec fn wf(&self) -> bool {
        &&& self.keys@.len() == self.inner@.len()
        &&& forall|i: int| 0 <= i < self.keys@.len() ==> #[trigger] self.keys@[i] == self.inner@[i].asset_pair
        &&& forall|i: int, j: int| 0 <= i < j < self.keys@.len() ==> self.keys@[i] != self.keys@[j]
        &&& forall|i: int| 0 <= i < self.inner@.len() ==> (#[trigger] self.inner@[i])@.wf()
    }

    pub fn new() -> (r: Markets)
        ensures
            r.keys@ == Seq::<AssetIdPair>::empty(),
            r.inner@.len() == 0,
            r.wf(),
    {
        Markets { keys: Vec::new(), inner: Vec::new() }
    }

    pub fn contains(&self, key: &AssetIdPair) -> (r: bool)
        ensures
            r == self.keys@.contains(*key),
    {
        let n = self.keys.len();
        let mut i: usize = 0;
        while i < n
            invariant
                i <= n,
                n == self.keys@.len(),
                forall|j: int| 0 <= j < i ==> self.keys@[j] != *key,
            decreases n - i,
        {
            if self.keys[i] == *key {
                return true;
            }
            i = i + 1;
        }
        false
    }

    /// The index of the last market of pair `key`, if there is one.
    pub fn position(&self, key: &AssetIdPair) -> (r: Option<usize>)
        ensures
            match r {
                Some(i) => i < self.inner@.len() && self.inner@[i as int].asset_pair == *key
                    && forall|j: int| i < j < self.inner@.len() ==> self.inner@[j].asset_pair != *key,
                None => forall|j: int| 0 <= j < self.inner@.len() ==> self.inner@[j].asset_pair != *key,
            },
    {
        let n = self.inner.len();
        let mut result: Option<usize> = None;
        let mut i: usize = 0;
        while i < n
            invariant
                i <= n,
                n == self.inner@.len(),
                match result {
                    Some(k) => k < i && self.inner@[k as int].asset_pair == *key
                        && forall|j: int| k < j < i ==> self.inner@[j].asset_pair != *key,
                    None => forall|j: int| 0 <= j < i ==> self.inner@[j].asset_pair != *key,
                },
            decreases n - i,
        {
            if self.inner[i].asset_pair == *key {
                result = Some(i);
            }
            i = i + 1;
        }
        result
    }

    /// The last market of pair `key`, if there is one.
    pub fn get(&self, key: &AssetIdPair) -> (r: Option<&Market>)
        ensures
            match r {
                Some(m) => exists|i: int| 0 <= i < self.inner@.len() && self.inner@[i] == *m
                    && m.asset_pair == *key
                    && forall|j: int| i < j < self.inner@.len() ==> self.inner@[j].asset_pair != *key,
                None => forall|j: int| 0 <= j < self.inner@.len() ==> self.inner@[j].asset_pair != *key,
            },
    {
        match self.position(key) {
            Some(i) => Some(&self.inner[i]),
            None => None,
        }
    }

    /// The last market of pair `key`, to change in place, if there is one.
    pub fn get_mut(&mut self, key: &AssetIdPair) -> (r: Option<&mut Market>)
        ensures
            final(self).keys@ == old(self).keys@,
            match r {
                Some(m) => exists|i: int| {
                    &&& 0 <= i < old(self).inner@.len()
                    &&& old(self).inner@[i] == *m
                    &&& m.asset_pair == *key
                    &&& forall|j: int| i < j < old(self).inner@.len() ==> old(self).inner@[j].asset_pair != *key
                    &&& final(self).inner@ == old(self).inner@.update(i, *final(m))
                },
                None => {
                    &&& forall|j: int| 0 <= j < old(self).inner@.len() ==> old(self).inner@[j].asset_pair != *key
                    &&& final(self).inner@ == old(self).inner@
                },
            },
    {
        match self.position(key) {
            Some(i) => Some(&mut self.inner[i]),
            None => None,
        }
    }

    /// Adds an empty market for `asset_pair`; refused when the pair already
    /// has one.
    pub fn add_market(&mut self, asset_pair: AssetIdPair) -> (r: MarketCreationResult)
        requires
            old(self).wf(),
        ensures
            r is Err <==> old(self).keys@.contains(asset_pair),
            r is Err ==> r == Err::<(), MarketCreationError>(MarketCreationError::MarketAlreadyExists)
                && final(self).keys@ == old(self).keys@ && final(self).inner@ == old(self).inner@,
            r is Ok ==> r == Ok::<(), MarketCreationError>(()),
            r is Ok ==> final(self).keys@ == old(self).keys@.push(asset_pair)
                && final(self).inner@.len() == old(self).inner@.len() + 1
                && final(self).inner@.drop_last() == old(self).inner@
                && final(self).inner@.last().asset_pair == asset_pair
                && final(self).inner@.last().last_traded_price == 0
                && final(self).inner@.last()@.book.bids == Seq::<SpecLevel>::empty()
                && final(self).inner@.last()@.book.asks == Seq::<SpecLevel>::empty(),
            final(self).wf(),
    {
        if self.contains(&asset_pair) {
            return Err(MarketCreationError::MarketAlreadyExists);
        }
        let market = Market::new(asset_pair);
        let ghost old_inner = self.inner@;
        self.keys.push(asset_pair);
        self.inner.push(market);
        assert(self.inner@.drop_last() =~= old_inner);
        assert forall|i: int, j: int| 0 <= i < j < self.keys@.len() implies self.keys@[i] != self.keys@[j] by {
            if j == self.keys@.len() - 1 {
                assert(old(self).keys@[i] == self.keys@[i]);
            }
        }
        Ok(())
    }
}

} // verus!
