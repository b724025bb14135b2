use vstd::prelude::*;
use crate::asset::AssetIdPair;
use crate::balance_manager::Command as BmCommand;
use crate::errors::{MarketCreationError, OrderCancellationError, OrderInsertionError, OrderModificationError};
use crate::market::{
    Market, MarketCreationResult, OrderCancellationResult, OrderInsertionEffects, OrderInsertionResult,
    OrderModificationResult, next_last_traded_price,
};
use crate::order::{OrderCancellationRequest, OrderInsertionRequest, OrderModificationRequest, PlacedOrder, Side};
use crate::orderbook::{ObTransaction, SpecLevel, book_ids_below, lemma_ids_below_mono, lemma_insert_order_ids, spec_insert_order};
use crate::util::fixed_point::{fixed_wrapping_mul, spec_fixed_wrapping_mul, spec_volume_to_fixed, volume_to_fixed};
use crate::util::types::{OrderId, Volume};

verus! {

/// The pair with its assets swapped.
pub open spec fn reversed(key: AssetIdPair) -> AssetIdPair {
    AssetIdPair { primary: key.secondary, secondary: key.primary }
}

/// Whether `key` is among `pairs`.
pub(crate) fn pairs_contain(pairs: &Vec<AssetIdPair>, key: &AssetIdPair) -> (r: bool)
    ensures
        r == pairs@.contains(*key),
{
    let n = pairs.len();
    let mut i: usize = 0;
    while i < n
        invariant
            i <= n,
            n == pairs@.len(),
            forall|j: int| 0 <= j < i ==> pairs@[j] != *key,
        decreases n - i,
    {
        if pairs[i] == *key {
            return true;
        }
        i = i + 1;
    }
    false
}

/// The handlers of markets, each with the pairs assigned to it.
pub struct MarketHandlers<H> {
    pub inner: Vec<(H, Vec<AssetIdPair>)>,
}

impl<H> MarketHandlers<H> {
    /// No handlers.
    pub fn new() -> (r: Self)
        ensures
            r.inner@.len() == 0,
    {
        MarketHandlers { inner: Vec::new() }
    }

    /// Whether some handler holds the market of `key`, in either direction.
    pub fn contains_market(&self, key: &AssetIdPair) -> (r: bool)
        ensures
            r == exists|i: int| 0 <= i < self.inner@.len()
                && (#[trigger] self.inner@[i]).1@.contains(*key) || exists|i: int| 0 <= i < self.inner@.len()
                && (#[trigger] self.inner@[i]).1@.contains(reversed(*key)),
    {
        let n = self.inner.len();
        let mut i: usize = 0;
        let reverse_key = AssetIdPair { primary: key.secondary, secondary: key.primary };
        while i < n
            invariant
                i <= n,
                n == self.inner@.len(),
                reverse_key == reversed(*key),
                forall|j: int| 0 <= j < i ==> !(#[trigger] self.inner@[j]).1@.contains(*key)
                    && !self.inner@[j].1@.contains(reversed(*key)),
            decreases n - i,
        {
            if pairs_contain(&self.inner[i].1, key) || pairs_contain(&self.inner[i].1, &reverse_key) {
                return true;
            }
            i = i + 1;
        }
        false
    }

    /// The first handler holding the market of `asset_pair`.
    pub fn get_handler(&self, asset_pair: &AssetIdPair) -> (r: Option<&H>)
        ensures
            match r {
                Some(h) => exists|i: int| 0 <= i < self.inner@.len() && (#[trigger] self.inner@[i]).1@.contains(*asset_pair)
                    && self.inner@[i].0 == *h
                    && forall|j: int| 0 <= j < i ==> !(#[trigger] self.inner@[j]).1@.contains(*asset_pair),
                None => forall|j: int| 0 <= j < self.inner@.len() ==> !(#[trigger] self.inner@[j]).1@.contains(*asset_pair),
            },
    {
        let n = self.inner.len();
        let mut i: usize = 0;
        while i < n
            invariant
                i <= n,
                n == self.inner@.len(),
                forall|j: int| 0 <= j < i ==> !(#[trigger] self.inner@[j]).1@.contains(*asset_pair),
            decreases n - i,
        {
            if pairs_contain(&self.inner[i].1, asset_pair) {
                return Some(&self.inner[i].0);
            }
            i = i + 1;
        }
        None
    }

    /// The handler with the fewest assigned markets (the first such one);
    /// `NoMarketHandlers` when there is none.
    pub fn least_loaded(&self) -> (r: Result<usize, MarketCreationError>)
        ensures
            match r {
                Ok(k) => k < self.inner@.len()
                    && (forall|j: int| 0 <= j < self.inner@.len() ==> self.inner@[k as int].1@.len() <= (#[trigger] self.inner@[j]).1@.len())
                    && (forall|j: int| 0 <= j < k ==> self.inner@[k as int].1@.len() < (#[trigger] self.inner@[j]).1@.len()),
                Err(e) => e == MarketCreationError::NoMarketHandlers && self.inner@.len() == 0,
            },
    {
        let n = self.inner.len();
        if n == 0 {
            return Err(MarketCreationError::NoMarketHandlers);
        }
        let mut min_idx: usize = 0;
        let mut min_assigned = self.inner[0].1.len();
        let mut i: usize = 0;
        while i < n
            invariant
                i <= n,
                n == self.inner@.len(),
                min_idx < n,
                min_idx <= i || (i == 0 && min_idx == 0),
                min_assigned == self.inner@[min_idx as int].1@.len(),
                forall|j: int| 0 <= j < i ==> min_assigned <= (#[trigger] self.inner@[j]).1@.len(),
                forall|j: int| 0 <= j < min_idx ==> min_assigned < (#[trigger] self.inner@[j]).1@.len(),
            decreases n - i,
        {
            let assigned = self.inner[i].1.len();
            if assigned < min_assigned {
                min_idx = i;
                min_assigned = assigned;
            }
            i = i + 1;
        }
        Ok(min_idx)
    }

    /// Records that handler `idx` now holds the market of `asset_pair`.
    pub fn assign(&mut self, idx: usize, asset_pair: AssetIdPair)
        requires
            idx < old(self).inner@.len(),
        ensures
            final(self).inner@.len() == old(self).inner@.len(),
            final(self).inner@[idx as int].1@ == old(self).inner@[idx as int].1@.push(asset_pair),
            final(self).inner@[idx as int].0 == old(self).inner@[idx as int].0,
            forall|j: int| 0 <= j < old(self).inner@.len() && j != idx ==> final(self).inner@[j] == old(self).inner@[j],
    {
        let entry = &mut self.inner[idx];
        entry.1.push(asset_pair);
    }

    /// Adds a handler that holds no market yet.
    pub fn add_handler(&mut self, handler: H)
        ensures
            final(self).inner@.len() == old(self).inner@.len() + 1,
            final(self).inner@.drop_last() == old(self).inner@,
            final(self).inner@.last().0 == handler,
            final(self).inner@.last().1@.len() == 0,
    {
        let ghost before = self.inner@;
        self.inner.push((handler, Vec::new()));
        assert(self.inner@.drop_last() =~= before);
    }
}

/// The commands a market handler accepts.
#[derive(Debug, Clone, Copy, PartialEq, Eq, Structural)]
pub enum Command {
    OrderInsert(OrderInsertionRequest),
    OrderCancel(OrderCancellationRequest),
    OrderModify(OrderModificationRequest),
    AddMarket(AssetIdPair),
}

/// What a market handler answers to each command.
#[derive(Debug, PartialEq)]
pub enum CommandResult {
    OrderInsert(OrderInsertionResult),
    OrderCancel(OrderCancellationResult),
    OrderModify(OrderModificationResult),
    AddMarket(MarketCreationResult),
}

/// The markets a handler runs, and the orders it accepted (an order's id is
/// its index): every book is well formed and holds only accepted orders.
pub open spec fn handler_wf(markets: Seq<Market>, orders: Seq<PlacedOrder>) -> bool {
    forall|i: int| 0 <= i < markets.len() ==> {
        &&& (#[trigger] markets[i])@.wf()
        &&& book_ids_below(markets[i]@.book, orders.len() as int)
    }
}

/// The first of `markets` that trades `pair`, if any.
pub open spec fn first_market(markets: Seq<Market>, pair: AssetIdPair) -> Option<int> {
    if exists|i: int| 0 <= i < markets.len() && markets[i].asset_pair == pair {
        Some(choose|i: int| 0 <= i < markets.len() && markets[i].asset_pair == pair
            && forall|j: int| 0 <= j < i ==> (#[trigger] markets[j]).asset_pair != pair)
    } else {
        None
    }
}

/// The balance changes for the account of order `o` when `v` more of it
/// fills: a buyer gains `v` of the primary asset and a seller gives it up,
/// and the secondary asset moves the other way, `v` times the order's price.
pub open spec fn change_commands(o: PlacedOrder, v: Volume) -> Seq<BmCommand> {
    let vp = spec_volume_to_fixed(v);
    let primary: i64 = match o.side {
        Side::Ask => (-vp) as i64,
        Side::Bid => vp,
    };
    seq![
        BmCommand::BalanceChange(o.account_id, o.pair.primary, primary),
        BmCommand::BalanceChange(o.account_id, o.pair.secondary, spec_fixed_wrapping_mul((-primary) as i64, o.price)),
    ]
}

/// The balance changes for the transactions `txs`, in the order they
/// happened: for each, the maker's, then the taker's.
pub open spec fn settlement_commands(orders: Seq<PlacedOrder>, txs: Seq<ObTransaction>) -> Seq<BmCommand>
    decreases txs.len(),
{
    if txs.len() == 0 {
        Seq::empty()
    } else {
        settlement_commands(orders, txs.drop_last())
            + change_commands(orders[txs.last().order_id_maker as int], txs.last().volume)
            + change_commands(orders[txs.last().order_id_taker as int], txs.last().volume)
    }
}

/// The index of the first market that trades `pair`.
fn find_market(markets: &Vec<Market>, pair: &AssetIdPair) -> (r: Option<usize>)
    ensures
        match r {
            Some(i) => first_market(markets@, *pair) == Some(i as int) && i < markets@.len()
                && markets@[i as int].asset_pair == *pair,
            None => first_market(markets@, *pair) is None,
        },
{
    let n = markets.len();
    let mut i: usize = 0;
    while i < n
        invariant
            i <= n,
            n == markets@.len(),
            forall|j: int| 0 <= j < i ==> (#[trigger] markets@[j]).asset_pair != *pair,
        decreases n - i,
    {
        if markets[i].asset_pair == *pair {
            proof {
                let c = choose|c: int| 0 <= c < markets@.len() && markets@[c].asset_pair == *pair
                    && forall|j: int| 0 <= j < c ==> (#[trigger] markets@[j]).asset_pair != *pair;
                assert(0 <= i < markets@.len() && markets@[i as int].asset_pair == *pair
                    && forall|j: int| 0 <= j < i ==> (#[trigger] markets@[j]).asset_pair != *pair);
                if c < i {
                    assert(markets@[c].asset_pair != *pair);
                } else if c > i {
                    assert(markets@[i as int].asset_pair != *pair);
                }
            }
            return Some(i);
        }
        i = i + 1;
    }
    None
}

/// Appends the balance changes of `o` when `v` of it fills.
fn push_change_commands(o: &PlacedOrder, v: Volume, out: &mut Vec<BmCommand>)
    ensures
        final(out)@ == old(out)@ + change_commands(*o, v),
{
    let vp = volume_to_fixed(v);
    let primary: i64 = match o.side {
        Side::Ask => -vp,
        Side::Bid => vp,
    };
    let secondary = fixed_wrapping_mul(-primary, o.price);
    out.push(BmCommand::BalanceChange(o.account_id, o.pair.primary, primary));
    out.push(BmCommand::BalanceChange(o.account_id, o.pair.secondary, secondary));
    assert(final(out)@ =~= old(out)@ + change_commands(*o, v));
}

/// The balance changes for `txs` (see `settlement_commands`).
fn settlement_commands_exec(orders: &Vec<PlacedOrder>, txs: &Vec<ObTransaction>) -> (r: Vec<BmCommand>)
    requires
        forall|j: int| 0 <= j < txs@.len() ==> (#[trigger] txs@[j]).order_id_maker < orders@.len()
            && txs@[j].order_id_taker < orders@.len(),
    ensures
        r@ == settlement_commands(orders@, txs@),
{
    let mut out: Vec<BmCommand> = Vec::new();
    let n = txs.len();
    let mut i: usize = 0;
    assert(txs@.take(0) =~= Seq::<ObTransaction>::empty());
    while i < n
        invariant
            i <= n,
            n == txs@.len(),
            out@ == settlement_commands(orders@, txs@.take(i as int)),
            forall|j: int| 0 <= j < txs@.len() ==> (#[trigger] txs@[j]).order_id_maker < orders@.len()
                && txs@[j].order_id_taker < orders@.len(),
        decreases n - i,
    {
        let tx = txs[i];
        assert(txs@.take(i + 1).drop_last() =~= txs@.take(i as int));
        assert(txs@.take(i + 1).last() == tx);
        push_change_commands(&orders[tx.order_id_maker], tx.volume, &mut out);
        push_change_commands(&orders[tx.order_id_taker], tx.volume, &mut out);
        i = i + 1;
    }
    assert(txs@.take(n as int) =~= txs@);
    out
}

/// `markets` after the handler adds the market of `pair`: an empty one after
/// the others.
pub open spec fn market_added(before: Seq<Market>, after: Seq<Market>, pair: AssetIdPair) -> bool {
    &&& after.len() == before.len() + 1
    &&& after.drop_last() == before
    &&& after.last().asset_pair == pair
    &&& after.last().last_traded_price == 0
    &&& after.last()@.book.bids == Seq::<SpecLevel>::empty()
    &&& after.last()@.book.asks == Seq::<SpecLevel>::empty()
}

/// The markets and orders of a handler after it takes the order `req`, and
/// its answer `r`: refused as `MarketDoesNotExist` when no market trades its
/// pair; otherwise it goes, with the next order id, to the first market of
/// its pair (see `spec_insert_order`), and, when the book accepts it, it is
/// recorded, and the balance changes of its transactions are returned.
pub open spec fn order_taken(
    ms0: Seq<Market>,
    ms: Seq<Market>,
    orders0: Seq<PlacedOrder>,
    orders: Seq<PlacedOrder>,
    req: OrderInsertionRequest,
    r: (CommandResult, Seq<BmCommand>),
) -> bool {
    match first_market(ms0, req.pair) {
        None => {
            &&& ms == ms0
            &&& orders == orders0
            &&& r.0 == CommandResult::OrderInsert(Err(OrderInsertionError::MarketDoesNotExist))
            &&& r.1.len() == 0
        },
        Some(i) => {
            let id = orders0.len() as OrderId;
            let ins = req.spec_into_insertion(id);
            let m = ms0[i];
            let out = spec_insert_order(m@.book, ins);
            &&& ms.len() == ms0.len()
            &&& forall|j: int| 0 <= j < ms0.len() && j != i ==> #[trigger] ms[j] == ms0[j]
            &&& ms[i].asset_pair == m.asset_pair
            &&& ms[i].last_traded_price == next_last_traded_price(m.last_traded_price, out.result)
            &&& ms[i]@.book == out.book
            &&& match out.result {
                Err(e) => {
                    &&& orders == orders0
                    &&& r.0 == CommandResult::OrderInsert(Err(e))
                    &&& r.1.len() == 0
                },
                Ok(eff) => {
                    &&& orders == orders0.push(PlacedOrder::spec_from_insertion(ins))
                    &&& r.0 == CommandResult::OrderInsert(Ok(OrderInsertionEffects { id, status: eff.status }))
                    &&& r.1 == settlement_commands(orders, out.txs)
                },
            }
        },
    }
}

/// Adds an empty market for `pair`.
fn handler_add_market(markets: &mut Vec<Market>, orders: &Vec<PlacedOrder>, pair: AssetIdPair)
    requires
        handler_wf(old(markets)@, orders@),
    ensures
        handler_wf(final(markets)@, orders@),
        market_added(old(markets)@, final(markets)@, pair),
{
    let ghost before = markets@;
    let m = Market::new(pair);
    markets.push(m);
    proof {
        assert(markets@.drop_last() =~= before);
        assert forall|j: int| 0 <= j < markets@.len() implies {
            &&& (#[trigger] markets@[j])@.wf()
            &&& book_ids_below(markets@[j]@.book, orders@.len() as int)
        } by {
            if j < before.len() {
                assert(markets@[j] == before[j]);
            }
        }
    }
}

/// Takes the order `req` (see `order_taken`).
#[verifier::spinoff_prover]
#[verifier::rlimit(40)]
fn handler_insert(markets: &mut Vec<Market>, orders: &mut Vec<PlacedOrder>, req: OrderInsertionRequest) -> (r: (CommandResult, Vec<BmCommand>))
    requires
        handler_wf(old(markets)@, old(orders)@),
        old(orders)@.len() < usize::MAX,
    ensures
        handler_wf(final(markets)@, final(orders)@),
        order_taken(old(markets)@, final(markets)@, old(orders)@, final(orders)@, req, (r.0, r.1@)),
{
    match find_market(markets, &req.pair) {
        None => (CommandResult::OrderInsert(Err(OrderInsertionError::MarketDoesNotExist)), Vec::new()),
        Some(i) => {
            let ghost ms0 = markets@;
            let ghost n = orders@.len() as int;
            let id = orders.len();
            let insertion = req.into_insertion(id);
            assert(ms0[i as int]@.wf());
            let mut txs: Vec<ObTransaction> = Vec::new();
            let result = {
                let market = &mut markets[i];
                market.insert_order(insertion, &mut txs)
            };
            let ghost out = spec_insert_order(ms0[i as int]@.book, insertion);
            proof {
                lemma_insert_order_ids(ms0[i as int]@.book, insertion, n);
                assert(txs@ =~= out.txs);
                assert forall|j: int| 0 <= j < ms0.len() && j != i implies #[trigger] markets@[j] == ms0[j] by {}
            }
            match result {
                Err(e) => {
                    proof {
                        assert forall|j: int| 0 <= j < markets@.len() implies {
                            &&& (#[trigger] markets@[j])@.wf()
                            &&& book_ids_below(markets@[j]@.book, orders@.len() as int)
                        } by {
                            if j != i {
                                assert(markets@[j] == ms0[j]);
                            }
                        }
                    }
                    (CommandResult::OrderInsert(Err(e)), Vec::new())
                },
                Ok(eff) => {
                    orders.push(PlacedOrder::from_insertion(&insertion));
                    proof {
                        assert forall|j: int| 0 <= j < markets@.len() implies {
                            &&& (#[trigger] markets@[j])@.wf()
                            &&& book_ids_below(markets@[j]@.book, orders@.len() as int)
                        } by {
                            if j != i {
                                assert(markets@[j] == ms0[j]);
                                lemma_ids_below_mono(ms0[j]@.book.bids, n, n + 1);
                                lemma_ids_below_mono(ms0[j]@.book.asks, n, n + 1);
                            }
                        }
                        assert forall|j: int| 0 <= j < txs@.len() implies (#[trigger] txs@[j]).order_id_maker < orders@.len()
                            && txs@[j].order_id_taker < orders@.len() by {
                            assert(txs@[j] == out.txs[j]);
                        }
                    }
                    let cmds = settlement_commands_exec(orders, &txs);
                    (CommandResult::OrderInsert(Ok(OrderInsertionEffects { id, status: eff.status })), cmds)
                },
            }
        },
    }
}

/// What a market handler does with one command, and the balance changes it
/// hands to the balance manager: a new market is added (see
/// `market_added`), and an order is taken (see `order_taken`).
/// Cancellations and modifications are not handled.
pub fn handle_market_command(markets: &mut Vec<Market>, orders: &mut Vec<PlacedOrder>, command: Command) -> (r: (CommandResult, Vec<BmCommand>))
    requires
        handler_wf(old(markets)@, old(orders)@),
        old(orders)@.len() < usize::MAX,
        !(command is OrderCancel),
        !(command is OrderModify),
    ensures
        handler_wf(final(markets)@, final(orders)@),
        match command {
            Command::AddMarket(pair) => {
                &&& market_added(old(markets)@, final(markets)@, pair)
                &&& final(orders)@ == old(orders)@
                &&& r.0 == CommandResult::AddMarket(Ok(()))
                &&& r.1@.len() == 0
            },
            Command::OrderInsert(req) => order_taken(old(markets)@, final(markets)@, old(orders)@, final(orders)@, req, (r.0, r.1@)),
            _ => true,
        },
{
    match command {
        Command::AddMarket(pair) => {
            handler_add_market(markets, orders, pair);
            (CommandResult::AddMarket(Ok(())), Vec::new())
        },
        Command::OrderInsert(req) => handler_insert(markets, orders, req),
        Command::OrderCancel(_) => {
            proof { assert(false); }
            (CommandResult::OrderCancel(Err(OrderCancellationError::OrderDoesNotExist)), Vec::new())
        },
        Command::OrderModify(_) => {
            proof { assert(false); }
            (CommandResult::OrderModify(Err(OrderModificationError::OrderDoesNotExist)), Vec::new())
        },
    }
}

} // verus!
