//! The orders of a session and the orderbooks agree: every order that can
//! still trade rests in the book of its market, at its side and price, with
//! its remaining volume, and every resting order is such an order, resting
//! once.
use vstd::prelude::*;
use crate::asset::AssetIdPair;
use crate::exchange::{
    ExchangeView, market_index, spec_exchange_cancel, spec_exchange_modify, spec_exchange_add_market,
    modified_order, new_market, lemma_market_index_unique, settle, settle_one, settle_order,
    spec_exchange_insert, lemma_settle_markets,
};
use crate::market::{MarketView, OrderExecutionStatus, next_last_traded_price};
use crate::order::{OrderCancellationRequest, OrderInsertionRequest, OrderModificationRequest, PlacedOrder, Side};
use crate::orderbook::{
    ObTransaction, OrderbookEntry, SpecLevel, insert_resting, opposite, txs_volume, limit_of, match_levels,
    spec_insert_order, match_shape, fill_shape, filled_by, level_position, id_absent, side_unique, maker_volume,
    with_level_orders, reduced_orders, last_occurrence, first_occurrence,
};
use crate::util::types::{OrderId, Price, Volume};

verus! {

/// An order that can still trade: neither cancelled nor filled, with volume left.
pub open spec fn live(o: PlacedOrder) -> bool {
    o.status != OrderExecutionStatus::Cancelled && o.status != OrderExecutionStatus::Filled && o.remaining_volume > 0
}

/// How order `o` rests in a book.
pub open spec fn entry_of(o: PlacedOrder) -> OrderbookEntry {
    OrderbookEntry { order_id: o.id, account_id: o.account_id, remaining_volume: o.remaining_volume }
}

/// The resting order `e`, at `price` on side `s` of the market of `pair`, is
/// how a live order of the session with that pair, side and price rests.
pub open spec fn backed(orders: Seq<(OrderId, PlacedOrder)>, e: OrderbookEntry, pair: AssetIdPair, s: Side, price: Price) -> bool {
    let x = e.order_id as int;
    &&& 0 <= x < orders.len()
    &&& live(orders[x].1)
    &&& orders[x].1.pair == pair
    &&& orders[x].1.side == s
    &&& orders[x].1.price == price
    &&& entry_of(orders[x].1) == e
}

/// Every order resting on side `ls` (side `s` of the market of `pair`) is
/// backed by the session.
pub open spec fn side_backed(ls: Seq<SpecLevel>, orders: Seq<(OrderId, PlacedOrder)>, pair: AssetIdPair, s: Side) -> bool {
    forall|j: int, k: int| 0 <= j < ls.len() && 0 <= k < ls[j].orders.len()
        ==> backed(orders, #[trigger] ls[j].orders[k], pair, s, ls[j].price)
}

/// `e` rests on side `ls` at `price`.
pub open spec fn rests_entry(ls: Seq<SpecLevel>, price: Price, e: OrderbookEntry) -> bool {
    exists|j: int, k: int| 0 <= j < ls.len() && ls[j].price == price && 0 <= k < ls[j].orders.len()
        && #[trigger] ls[j].orders[k] == e
}

/// Order `o` rests in the book of its market, at its side and price, with
/// its remaining volume.
pub open spec fn record_rests(ev: ExchangeView, o: PlacedOrder) -> bool {
    match market_index(ev.markets, o.pair) {
        Some(i) => rests_entry(ev.markets[i].book.side(o.side), o.price, entry_of(o)),
        None => false,
    }
}

/// The books of market `m` are backed by `orders`, and no order rests twice.
pub open spec fn market_backed(m: MarketView, orders: Seq<(OrderId, PlacedOrder)>) -> bool {
    &&& side_backed(m.book.bids, orders, m.asset_pair, Side::Bid)
    &&& side_backed(m.book.asks, orders, m.asset_pair, Side::Ask)
    &&& side_unique(m.book.bids)
    &&& side_unique(m.book.asks)
}

/// The session and the books agree: every resting order is a live order of
/// the session, resting once, every live order rests, and every order's
/// market exists.
pub open spec fn records_match(ev: ExchangeView) -> bool {
    &&& forall|i: int| 0 <= i < ev.markets.len() ==> market_backed(#[trigger] ev.markets[i], ev.orders)
    &&& forall|x: int| 0 <= x < ev.orders.len() && live(#[trigger] ev.orders[x].1) ==> record_rests(ev, ev.orders[x].1)
    &&& forall|x: int| 0 <= x < ev.orders.len() ==> market_index(ev.markets, (#[trigger] ev.orders[x]).1.pair) is Some
}

/// The level of `with_level_orders(ls, i, os)` at `j` comes from the level
/// of `ls` at this index.
pub open spec fn wlo_src(i: int, os: Seq<OrderbookEntry>, j: int) -> int {
    if os.len() == 0 && j >= i { j + 1 } else { j }
}

/// The level of `ls` at `j0` (not `i`, or `i` when orders remain) goes to
/// this index of `with_level_orders(ls, i, os)`.
pub open spec fn wlo_dst(i: int, os: Seq<OrderbookEntry>, j0: int) -> int {
    if os.len() == 0 && j0 > i { j0 - 1 } else { j0 }
}

pub proof fn lemma_wlo_positions(ls: Seq<SpecLevel>, i: int, os: Seq<OrderbookEntry>)
    requires
        0 <= i < ls.len(),
    ensures
        forall|j: int| 0 <= j < with_level_orders(ls, i, os).len() ==> {
            &&& 0 <= #[trigger] wlo_src(i, os, j) < ls.len()
            &&& with_level_orders(ls, i, os)[j].price == ls[wlo_src(i, os, j)].price
            &&& wlo_src(i, os, j) != i ==> with_level_orders(ls, i, os)[j] == ls[wlo_src(i, os, j)]
            &&& wlo_src(i, os, j) == i ==> with_level_orders(ls, i, os)[j].orders == os
        },
        forall|j0: int| 0 <= j0 < ls.len() && (j0 != i || os.len() > 0) ==> {
            &&& 0 <= #[trigger] wlo_dst(i, os, j0) < with_level_orders(ls, i, os).len()
            &&& wlo_src(i, os, wlo_dst(i, os, j0)) == j0
        },
{
}

/// Cancelling or lowering the order at `(li, lk)` of a side, where `keep`
/// says which of the level's orders stay (and `os` are the orders left):
/// every order of another place stays, and every order of the result was
/// there or is the lowered one.
proof fn lemma_level_orders_kept(ls: Seq<SpecLevel>, i: int, os: Seq<OrderbookEntry>, kk: int)
    requires
        0 <= i < ls.len(),
        0 <= kk < ls[i].orders.len(),
        os == ls[i].orders.remove(kk) || (os.len() == ls[i].orders.len()
            && forall|k: int| 0 <= k < os.len() && k != kk ==> os[k] == ls[i].orders[k]),
    ensures
        forall|k: int| 0 <= k < os.len() ==> {
            let k0 = if os.len() < ls[i].orders.len() && k >= kk { k + 1 } else { k };
            &&& 0 <= k0 < ls[i].orders.len()
            &&& k0 != kk ==> #[trigger] os[k] == ls[i].orders[k0]
            &&& k0 == kk ==> os.len() == ls[i].orders.len() && k == kk
        },
        forall|k0: int| 0 <= k0 < ls[i].orders.len() && k0 != kk ==> {
            let k = if os.len() < ls[i].orders.len() && k0 > kk { k0 - 1 } else { k0 };
            0 <= k < os.len() && os[k] == #[trigger] ls[i].orders[k0]
        },
{
}

/// Whether the order at `(li, lk)` leaves (rather than changes) when the
/// orders of level `li` become `os`.
pub open spec fn one_gone(ls: Seq<SpecLevel>, li: int, os: Seq<OrderbookEntry>) -> bool {
    os.len() < ls[li].orders.len()
}

/// Where the order at `(j, k)` of the changed side was in `ls`: the level.
pub open spec fn chg_src_j(li: int, os: Seq<OrderbookEntry>, j: int) -> int {
    wlo_src(li, os, j)
}

/// Where the order at `(j, k)` of the changed side was in `ls`: the index in
/// its level.
pub open spec fn chg_src_k(ls: Seq<SpecLevel>, li: int, lk: int, os: Seq<OrderbookEntry>, j: int, k: int) -> int {
    if wlo_src(li, os, j) == li && one_gone(ls, li, os) && k >= lk { k + 1 } else { k }
}

/// Where the order at `(j0, k0)` of `ls` goes in the changed side: the level.
pub open spec fn chg_dst_j(li: int, os: Seq<OrderbookEntry>, j0: int) -> int {
    wlo_dst(li, os, j0)
}

/// Where the order at `(j0, k0)` of `ls` goes in the changed side: the
/// index in its level.
pub open spec fn chg_dst_k(ls: Seq<SpecLevel>, li: int, lk: int, os: Seq<OrderbookEntry>, j0: int, k0: int) -> int {
    if j0 == li && one_gone(ls, li, os) && k0 > lk { k0 - 1 } else { k0 }
}

/// The order at `(li, lk)` of side `ls` leaves or changes (its level keeps
/// the orders `os`, and leaves when none is left): every other order stays,
/// at its price, and every order of the result is one of those or the
/// changed one.
#[verifier::spinoff_prover]
#[verifier::rlimit(40)]
pub proof fn lemma_change_one(ls: Seq<SpecLevel>, li: int, lk: int, os: Seq<OrderbookEntry>)
    requires
        0 <= li < ls.len(),
        0 <= lk < ls[li].orders.len(),
        os == ls[li].orders.remove(lk) || (os.len() == ls[li].orders.len()
            && forall|k: int| 0 <= k < os.len() && k != lk ==> os[k] == ls[li].orders[k]),
    ensures
        forall|j: int, k: int| 0 <= j < with_level_orders(ls, li, os).len() && 0 <= k < with_level_orders(ls, li, os)[j].orders.len() ==> {
            let j0 = chg_src_j(li, os, j);
            let k0 = chg_src_k(ls, li, lk, os, j, k);
            &&& 0 <= j0 < ls.len() && 0 <= k0 < ls[j0].orders.len()
            &&& with_level_orders(ls, li, os)[j].price == ls[j0].price
            &&& !(j0 == li && k0 == lk) ==> #[trigger] with_level_orders(ls, li, os)[j].orders[k] == ls[j0].orders[k0]
            &&& !(j0 == li && k0 == lk) ==> chg_dst_j(li, os, j0) == j && chg_dst_k(ls, li, lk, os, j0, k0) == k
            &&& (j0 == li && k0 == lk) ==> !one_gone(ls, li, os) && j == li && k == lk
                && with_level_orders(ls, li, os)[j].orders[k] == os[lk]
        },
        forall|j0: int, k0: int| 0 <= j0 < ls.len() && 0 <= k0 < ls[j0].orders.len() && !(j0 == li && k0 == lk) ==> {
            let j = chg_dst_j(li, os, j0);
            let k = chg_dst_k(ls, li, lk, os, j0, k0);
            &&& 0 <= j < with_level_orders(ls, li, os).len() && 0 <= k < with_level_orders(ls, li, os)[j].orders.len()
            &&& with_level_orders(ls, li, os)[j].price == ls[j0].price
            &&& with_level_orders(ls, li, os)[j].orders[k] == #[trigger] ls[j0].orders[k0]
        },
        !one_gone(ls, li, os) ==> li < with_level_orders(ls, li, os).len()
            && with_level_orders(ls, li, os)[li].price == ls[li].price
            && with_level_orders(ls, li, os)[li].orders == os,
{
    lemma_wlo_positions(ls, li, os);
    lemma_level_orders_kept(ls, li, os, lk);
    let res = with_level_orders(ls, li, os);
    assert forall|j: int, k: int| 0 <= j < res.len() && 0 <= k < res[j].orders.len() implies {
            let j0 = chg_src_j(li, os, j);
            let k0 = chg_src_k(ls, li, lk, os, j, k);
            &&& 0 <= j0 < ls.len() && 0 <= k0 < ls[j0].orders.len()
            &&& res[j].price == ls[j0].price
            &&& !(j0 == li && k0 == lk) ==> #[trigger] res[j].orders[k] == ls[j0].orders[k0]
            &&& !(j0 == li && k0 == lk) ==> chg_dst_j(li, os, j0) == j && chg_dst_k(ls, li, lk, os, j0, k0) == k
            &&& (j0 == li && k0 == lk) ==> !one_gone(ls, li, os) && j == li && k == lk && res[j].orders[k] == os[lk]
        } by {
        let j0 = wlo_src(li, os, j);
        assert(0 <= j0 < ls.len());
        if j0 == li {
            assert(res[j].orders == os);
            assert(os[k] == os[k]);
        } else {
            assert(res[j] == ls[j0]);
        }
    }
    assert forall|j0: int, k0: int| 0 <= j0 < ls.len() && 0 <= k0 < ls[j0].orders.len() && !(j0 == li && k0 == lk) implies {
            let j = chg_dst_j(li, os, j0);
            let k = chg_dst_k(ls, li, lk, os, j0, k0);
            &&& 0 <= j < res.len() && 0 <= k < res[j].orders.len()
            &&& res[j].price == ls[j0].price
            &&& res[j].orders[k] == #[trigger] ls[j0].orders[k0]
        } by {
        if j0 == li {
            assert(os.len() > 0);
            let j = wlo_dst(li, os, j0);
            assert(wlo_src(li, os, j) == li);
            assert(res[j].orders == os);
            assert(ls[li].orders[k0] == ls[li].orders[k0]);
        } else {
            let j = wlo_dst(li, os, j0);
            assert(wlo_src(li, os, j) == j0);
            assert(res[j] == ls[j0]);
        }
    }
    if !one_gone(ls, li, os) {
        assert(os.len() > 0);
    }
}

/// Markets with the same pairs, all distinct, find the same market for
/// every pair.
pub proof fn lemma_market_index_same(ms: Seq<MarketView>, ms2: Seq<MarketView>)
    requires
        ms2.len() == ms.len(),
        forall|j: int| 0 <= j < ms.len() ==> (#[trigger] ms2[j]).asset_pair == ms[j].asset_pair,
        forall|a: int, b: int| 0 <= a < b < ms.len() ==> ms[a].asset_pair != ms[b].asset_pair,
    ensures
        forall|pair: AssetIdPair| #[trigger] market_index(ms2, pair) == market_index(ms, pair),
{
    assert forall|pair: AssetIdPair| #[trigger] market_index(ms2, pair) == market_index(ms, pair) by {
        assert forall|a: int, b: int| 0 <= a < b < ms2.len() implies ms2[a].asset_pair != ms2[b].asset_pair by {
            assert(ms[a].asset_pair != ms[b].asset_pair);
        }
        if exists|x: int| 0 <= x < ms.len() && ms[x].asset_pair == pair {
            let x = choose|x: int| 0 <= x < ms.len() && ms[x].asset_pair == pair;
            lemma_market_index_unique(ms, pair, x);
            assert(ms2[x].asset_pair == pair);
            lemma_market_index_unique(ms2, pair, x);
        } else {
            assert forall|x: int| 0 <= x < ms2.len() implies ms2[x].asset_pair != pair by {
                assert(ms2[x].asset_pair == ms[x].asset_pair);
            }
        }
    }
}

/// The exchange after the order at `(li, lk)` of side `s` of market `i`
/// leaves or changes (its level keeps `os`), and its record becomes `o2`.
pub open spec fn changed_one(ev: ExchangeView, i: int, s: Side, li: int, os: Seq<OrderbookEntry>, id: OrderId, o2: PlacedOrder) -> ExchangeView {
    let m = ev.markets[i];
    ExchangeView {
        markets: ev.markets.update(i, MarketView { book: m.book.with_side(s, with_level_orders(m.book.side(s), li, os)), ..m }),
        orders: ev.orders.update(id as int, (id, o2)),
        ..ev
    }
}

/// Orders of other ids keep their records: a side backed before is backed
/// after the record of `id` changes, when `id` does not rest there.
proof fn lemma_other_side_backed(ls: Seq<SpecLevel>, orders: Seq<(OrderId, PlacedOrder)>, pair: AssetIdPair, s: Side, id: OrderId, o2: PlacedOrder)
    requires
        side_backed(ls, orders, pair, s),
        crate::orderbook::id_absent(ls, id),
        0 <= id < orders.len(),
    ensures
        side_backed(ls, orders.update(id as int, (id, o2)), pair, s),
{
    let orders2 = orders.update(id as int, (id, o2));
    assert forall|j: int, k: int| 0 <= j < ls.len() && 0 <= k < ls[j].orders.len()
        implies backed(orders2, #[trigger] ls[j].orders[k], pair, s, ls[j].price) by {
        let e = ls[j].orders[k];
        assert(backed(orders, e, pair, s, ls[j].price));
        assert(orders2[e.order_id as int] == orders[e.order_id as int]);
    }
}

/// The side after the order at `(li, lk)` leaves or changes, with its record
/// changed to `o2`, is backed and has no order twice.
proof fn lemma_changed_side_backed(ls: Seq<SpecLevel>, orders: Seq<(OrderId, PlacedOrder)>, pair: AssetIdPair, s: Side,
    li: int, lk: int, os: Seq<OrderbookEntry>, o2: PlacedOrder)
    requires
        side_backed(ls, orders, pair, s),
        side_unique(ls),
        0 <= li < ls.len(),
        0 <= lk < ls[li].orders.len(),
        os == ls[li].orders.remove(lk) || (os.len() == ls[li].orders.len()
            && forall|k: int| 0 <= k < os.len() && k != lk ==> os[k] == ls[li].orders[k]),
        ({
            let id = ls[li].orders[lk].order_id;
            let o = orders[id as int].1;
            &&& o2.id == o.id && o2.account_id == o.account_id && o2.pair == o.pair && o2.side == o.side && o2.price == o.price
            &&& one_gone(ls, li, os) ==> !live(o2)
            &&& !one_gone(ls, li, os) ==> live(o2) && os[lk] == entry_of(o2)
        }),
    ensures
        side_backed(with_level_orders(ls, li, os), orders.update(ls[li].orders[lk].order_id as int, (ls[li].orders[lk].order_id, o2)), pair, s),
        side_unique(with_level_orders(ls, li, os)),
{
    let id = ls[li].orders[lk].order_id;
    let orders2 = orders.update(id as int, (id, o2));
    let ls2 = with_level_orders(ls, li, os);
    lemma_change_one(ls, li, lk, os);
    assert(backed(orders, ls[li].orders[lk], pair, s, ls[li].price));
    assert forall|j: int, k: int| 0 <= j < ls2.len() && 0 <= k < ls2[j].orders.len()
        implies backed(orders2, #[trigger] ls2[j].orders[k], pair, s, ls2[j].price) by {
        let j0 = chg_src_j(li, os, j);
        let k0 = chg_src_k(ls, li, lk, os, j, k);
        if j0 == li && k0 == lk {
            assert(ls2[j].orders[k] == entry_of(o2));
        } else {
            let e = ls[j0].orders[k0];
            assert(ls2[j].orders[k] == e);
            assert(backed(orders, e, pair, s, ls[j0].price));
            assert(e.order_id != id) by {
                if e.order_id == id {
                    assert(ls[j0].orders[k0].order_id == ls[li].orders[lk].order_id);
                }
            }
            assert(orders2[e.order_id as int] == orders[e.order_id as int]);
        }
    }
    assert forall|j1: int, k1: int, j2: int, k2: int|
        0 <= j1 < ls2.len() && 0 <= k1 < ls2[j1].orders.len() && 0 <= j2 < ls2.len() && 0 <= k2 < ls2[j2].orders.len()
            && (#[trigger] ls2[j1].orders[k1]).order_id == (#[trigger] ls2[j2].orders[k2]).order_id
        implies j1 == j2 && k1 == k2 by {
        let a0 = chg_src_j(li, os, j1);
        let a1 = chg_src_k(ls, li, lk, os, j1, k1);
        let b0 = chg_src_j(li, os, j2);
        let b1 = chg_src_k(ls, li, lk, os, j2, k2);
        if a0 == li && a1 == lk {
            if !(b0 == li && b1 == lk) {
                assert(ls[b0].orders[b1].order_id == ls[li].orders[lk].order_id);
            }
        } else if b0 == li && b1 == lk {
            assert(ls[a0].orders[a1].order_id == ls[li].orders[lk].order_id);
        } else {
            assert(ls[a0].orders[a1].order_id == ls[b0].orders[b1].order_id);
        }
    }
}

/// In agreeing books, only one place holds order `id`: where it rests.
proof fn lemma_only_place(ms: Seq<MarketView>, orders: Seq<(OrderId, PlacedOrder)>, i: int, s: Side, li: int, lk: int)
    requires
        forall|mi: int| 0 <= mi < ms.len() ==> market_backed(#[trigger] ms[mi], orders),
        forall|a: int, b: int| 0 <= a < b < ms.len() ==> ms[a].asset_pair != ms[b].asset_pair,
        0 <= i < ms.len(),
        0 <= li < ms[i].book.side(s).len(),
        0 <= lk < ms[i].book.side(s)[li].orders.len(),
    ensures
        forall|mi: int, s2: Side| 0 <= mi < ms.len() && !(mi == i && s2 == s)
            ==> crate::orderbook::id_absent(#[trigger] ms[mi].book.side(s2), ms[i].book.side(s)[li].orders[lk].order_id),
{
    let ls = ms[i].book.side(s);
    let id = ls[li].orders[lk].order_id;
    assert(market_backed(ms[i], orders));
    assert(backed(orders, ls[li].orders[lk], ms[i].asset_pair, s, ls[li].price)) by {
        match s { Side::Bid => {}, Side::Ask => {} }
    }
    assert forall|mi: int, s2: Side| 0 <= mi < ms.len() && !(mi == i && s2 == s)
        implies crate::orderbook::id_absent(#[trigger] ms[mi].book.side(s2), id) by {
        let ls3 = ms[mi].book.side(s2);
        assert(market_backed(ms[mi], orders));
        assert(side_backed(ls3, orders, ms[mi].asset_pair, s2)) by {
            match s2 { Side::Bid => {}, Side::Ask => {} }
        }
        assert forall|j: int, k: int| 0 <= j < ls3.len() && 0 <= k < ls3[j].orders.len()
            implies (#[trigger] ls3[j].orders[k]).order_id != id by {
            assert(backed(orders, ls3[j].orders[k], ms[mi].asset_pair, s2, ls3[j].price));
            if ls3[j].orders[k].order_id == id && mi != i {
                if mi < i {
                    assert(ms[mi].asset_pair != ms[i].asset_pair);
                } else {
                    assert(ms[i].asset_pair != ms[mi].asset_pair);
                }
            }
        }
    }
}

/// An order that rests at `(li, lk)` of side `s` of market `i` leaves the
/// book, or rests with less volume, and its record says so: the session
/// and the books still agree.
#[verifier::spinoff_prover]
#[verifier::rlimit(40)]
pub proof fn lemma_change_one_matches(ev: ExchangeView, i: int, s: Side, li: int, lk: int, os: Seq<OrderbookEntry>, o2: PlacedOrder)
    requires
        ev.wf(),
        records_match(ev),
        0 <= i < ev.markets.len(),
        0 <= li < ev.markets[i].book.side(s).len(),
        0 <= lk < ev.markets[i].book.side(s)[li].orders.len(),
        os == ev.markets[i].book.side(s)[li].orders.remove(lk) || (os.len() == ev.markets[i].book.side(s)[li].orders.len()
            && forall|k: int| 0 <= k < os.len() && k != lk ==> os[k] == ev.markets[i].book.side(s)[li].orders[k]),
        ({
            let id = ev.markets[i].book.side(s)[li].orders[lk].order_id;
            let o = ev.orders[id as int].1;
            &&& o2.id == o.id && o2.account_id == o.account_id && o2.pair == o.pair && o2.side == o.side && o2.price == o.price
            &&& one_gone(ev.markets[i].book.side(s), li, os) ==> !live(o2)
            &&& !one_gone(ev.markets[i].book.side(s), li, os) ==> live(o2) && os[lk] == entry_of(o2)
        }),
    ensures
        records_match(changed_one(ev, i, s, li, os, ev.markets[i].book.side(s)[li].orders[lk].order_id, o2)),
{
    let ms = ev.markets;
    let m = ms[i];
    let ls = m.book.side(s);
    let id = ls[li].orders[lk].order_id;
    let o = ev.orders[id as int].1;
    let ev2 = changed_one(ev, i, s, li, os, id, o2);
    let ls2 = with_level_orders(ls, li, os);
    let orders2 = ev2.orders;
    let other = if s == Side::Bid { Side::Ask } else { Side::Bid };
    assert(market_backed(ms[i], ev.orders));
    assert(side_backed(ls, ev.orders, m.asset_pair, s) && side_unique(ls)) by {
        match s { Side::Bid => {}, Side::Ask => {} }
    }
    assert(0 <= id < ev.orders.len());
    lemma_only_place(ms, ev.orders, i, s, li, lk);
    lemma_changed_side_backed(ls, ev.orders, m.asset_pair, s, li, lk, os, o2);
    lemma_market_index_same(ms, ev2.markets);
    assert forall|mi: int| 0 <= mi < ev2.markets.len() implies market_backed(#[trigger] ev2.markets[mi], orders2) by {
        assert(market_backed(ms[mi], ev.orders));
        if mi == i {
            assert(crate::orderbook::id_absent(ms[i].book.side(other), id));
            assert(side_backed(ms[i].book.side(other), ev.orders, m.asset_pair, other)) by {
                match s { Side::Bid => {}, Side::Ask => {} }
            }
            lemma_other_side_backed(ms[i].book.side(other), ev.orders, m.asset_pair, other, id, o2);
            assert(ev2.markets[i].book.side(s) == ls2);
            assert(ev2.markets[i].book.side(other) == ms[i].book.side(other));
            match s { Side::Bid => {}, Side::Ask => {} }
        } else {
            assert(ev2.markets[mi] == ms[mi]);
            assert(crate::orderbook::id_absent(ms[mi].book.side(Side::Bid), id));
            assert(crate::orderbook::id_absent(ms[mi].book.side(Side::Ask), id));
            lemma_other_side_backed(ms[mi].book.bids, ev.orders, ms[mi].asset_pair, Side::Bid, id, o2);
            lemma_other_side_backed(ms[mi].book.asks, ev.orders, ms[mi].asset_pair, Side::Ask, id, o2);
        }
    }
    lemma_change_one(ls, li, lk, os);
    assert forall|x: int| 0 <= x < orders2.len() && live(#[trigger] orders2[x].1) implies record_rests(ev2, orders2[x].1) by {
        if x == id {
            assert(!one_gone(ls, li, os));
            assert(ls2[li].orders[lk] == entry_of(o2));
            assert(backed(ev.orders, ls[li].orders[lk], m.asset_pair, s, ls[li].price));
            lemma_market_index_unique(ms, o.pair, i);
            assert(ev2.markets[i].book.side(o2.side) == ls2);
            assert(rests_entry(ls2, o2.price, entry_of(o2)));
        } else {
            let ox = ev.orders[x].1;
            assert(orders2[x].1 == ox);
            assert(record_rests(ev, ox));
            let mx = market_index(ms, ox.pair)->Some_0;
            let lsx = ms[mx].book.side(ox.side);
            let (j, k) = choose|j: int, k: int| 0 <= j < lsx.len() && lsx[j].price == ox.price && 0 <= k < lsx[j].orders.len()
                && #[trigger] lsx[j].orders[k] == entry_of(ox);
            assert(ox.id == x);
            if mx == i && ox.side == s {
                assert(!(j == li && k == lk));
                let j2 = chg_dst_j(li, os, j);
                let k2 = chg_dst_k(ls, li, lk, os, j, k);
                assert(ls2[j2].orders[k2] == entry_of(ox));
                assert(ev2.markets[mx].book.side(ox.side) == ls2);
                assert(rests_entry(ls2, ox.price, entry_of(ox)));
            } else {
                assert(ev2.markets[mx].book.side(ox.side) == lsx) by {
                    if mx == i {
                        match s { Side::Bid => {}, Side::Ask => {} }
                    }
                }
                assert(lsx[j].orders[k] == entry_of(ox));
            }
        }
    }
}

/// In agreeing books, an order that is not live rests nowhere.
pub proof fn lemma_not_live_absent(ev: ExchangeView, x: OrderId)
    requires
        records_match(ev),
        0 <= x < ev.orders.len(),
        !live(ev.orders[x as int].1),
    ensures
        forall|mi: int, s: Side| 0 <= mi < ev.markets.len() ==> crate::orderbook::id_absent(#[trigger] ev.markets[mi].book.side(s), x),
{
    assert forall|mi: int, s: Side| 0 <= mi < ev.markets.len() implies crate::orderbook::id_absent(#[trigger] ev.markets[mi].book.side(s), x) by {
        let ls = ev.markets[mi].book.side(s);
        assert(market_backed(ev.markets[mi], ev.orders));
        assert(side_backed(ls, ev.orders, ev.markets[mi].asset_pair, s)) by {
            match s { Side::Bid => {}, Side::Ask => {} }
        }
        assert forall|j: int, k: int| 0 <= j < ls.len() && 0 <= k < ls[j].orders.len()
            implies (#[trigger] ls[j].orders[k]).order_id != x by {
            assert(backed(ev.orders, ls[j].orders[k], ev.markets[mi].asset_pair, s, ls[j].price));
        }
    }
}

/// Cancelling keeps the session and the books in agreement.
pub proof fn lemma_cancel_matches(ev: ExchangeView, req: OrderCancellationRequest)
    requires
        ev.wf(),
        records_match(ev),
    ensures
        records_match(spec_exchange_cancel(ev, req).0),
{
    if spec_exchange_cancel(ev, req).1 is Ok {
        let id = req.order_id;
        let o = ev.orders[id as int].1;
        let i = market_index(ev.markets, o.pair)->Some_0;
        let j = choose|j: int| 0 <= j < ev.markets.len() && ev.markets[j].asset_pair == o.pair;
        lemma_market_index_unique(ev.markets, o.pair, j);
        let m = ev.markets[i];
        let ls = m.book.side(o.side);
        crate::orderbook::lemma_occurrences_exist(ls, o.price, id);
        let (li, lk) = choose|li: int, lk: int| last_occurrence(ls, o.price, id, li, lk);
        let os = ls[li].orders.remove(lk);
        let o2 = PlacedOrder { status: OrderExecutionStatus::Cancelled, ..o };
        assert(ev.orders[id as int].0 == id);
        lemma_change_one_matches(ev, i, o.side, li, lk, os, o2);
        assert(spec_exchange_cancel(ev, req).0 == changed_one(ev, i, o.side, li, os, id, o2));
    }
}

/// Lowering the volume of an order keeps the session and the books in
/// agreement.
pub proof fn lemma_modify_matches(ev: ExchangeView, req: OrderModificationRequest)
    requires
        ev.wf(),
        records_match(ev),
    ensures
        records_match(spec_exchange_modify(ev, req).0),
{
    if spec_exchange_modify(ev, req).1 is Ok {
        let id = req.order_id;
        let o = ev.orders[id as int].1;
        let i = market_index(ev.markets, o.pair)->Some_0;
        let j = choose|j: int| 0 <= j < ev.markets.len() && ev.markets[j].asset_pair == o.pair;
        lemma_market_index_unique(ev.markets, o.pair, j);
        let m = ev.markets[i];
        let ls = m.book.side(o.side);
        crate::orderbook::lemma_occurrences_exist(ls, o.price, id);
        let (fi, fk) = choose|fi: int, fk: int| first_occurrence(ls, o.price, id, fi, fk);
        let red = (o.volume - req.new_volume) as Volume;
        let os = reduced_orders(ls[fi].orders, fk, red);
        let o2 = modified_order(o, req.new_volume);
        let e = ls[fi].orders[fk];
        assert(market_backed(ev.markets[i], ev.orders));
        assert(backed(ev.orders, e, m.asset_pair, o.side, ls[fi].price)) by {
            match o.side { Side::Bid => {}, Side::Ask => {} }
        }
        assert(ev.orders[id as int].0 == id);
        assert(o.remaining_volume <= o.volume);
        if red < e.remaining_volume {
            assert(os[fk] == entry_of(o2));
            assert(forall|k: int| 0 <= k < os.len() && k != fk ==> os[k] == ls[fi].orders[k]);
        }
        lemma_change_one_matches(ev, i, o.side, fi, fk, os, o2);
        assert(spec_exchange_modify(ev, req).0 == changed_one(ev, i, o.side, fi, os, id, o2));
    }
}

/// Opening a market keeps the session and the books in agreement.
pub proof fn lemma_add_market_matches(ev: ExchangeView, pair: AssetIdPair)
    requires
        ev.wf(),
        records_match(ev),
    ensures
        records_match(spec_exchange_add_market(ev, pair).0),
{
    if spec_exchange_add_market(ev, pair).1 is Ok {
        let ev2 = spec_exchange_add_market(ev, pair).0;
        let ms = ev.markets;
        let ms2 = ms.push(new_market(pair));
        assert(ev2.markets == ms2);
        assert(market_index(ms, pair) is None);
        assert forall|a: int, b: int| 0 <= a < b < ms2.len() implies ms2[a].asset_pair != ms2[b].asset_pair by {
            if b == ms.len() {
                if ms[a].asset_pair == pair {
                    assert(exists|x: int| 0 <= x < ms.len() && ms[x].asset_pair == pair);
                }
            }
        }
        assert forall|mi: int| 0 <= mi < ms2.len() implies market_backed(#[trigger] ms2[mi], ev2.orders) by {
            if mi < ms.len() {
                assert(ms2[mi] == ms[mi]);
            }
        }
        assert forall|x: int| 0 <= x < ev2.orders.len() && live(#[trigger] ev2.orders[x].1) implies record_rests(ev2, ev2.orders[x].1) by {
            let ox = ev.orders[x].1;
            assert(record_rests(ev, ox));
            let mx = market_index(ms, ox.pair)->Some_0;
            let j = choose|j: int| 0 <= j < ms.len() && ms[j].asset_pair == ox.pair;
            lemma_market_index_unique(ms, ox.pair, j);
            lemma_market_index_unique(ms2, ox.pair, mx);
            assert(ms2[mx] == ms[mx]);
        }
        assert forall|x: int| 0 <= x < ev2.orders.len() implies market_index(ms2, (#[trigger] ev2.orders[x]).1.pair) is Some by {
            let p = ev.orders[x].1.pair;
            assert(market_index(ms, p) is Some);
            let j = choose|j: int| 0 <= j < ms.len() && ms[j].asset_pair == p;
            assert(ms2[j].asset_pair == p);
        }
    }
}

/// The volume that `txs` fill of the incoming order `id`.
pub open spec fn taker_volume(txs: Seq<ObTransaction>, id: OrderId) -> int
    decreases txs.len(),
{
    if txs.len() == 0 {
        0
    } else {
        taker_volume(txs.drop_last(), id) + if txs.last().order_id_taker == id { txs.last().volume as int } else { 0 }
    }
}

/// `o2` is the record `o` after `t` more of it is filled: only its
/// remaining volume (never below zero) and maybe its status change, and
/// its status stays while volume remains.
pub open spec fn settled(o: PlacedOrder, o2: PlacedOrder, t: int) -> bool {
    &&& o2 == PlacedOrder { remaining_volume: o2.remaining_volume, status: o2.status, ..o }
    &&& o2.remaining_volume == if o.remaining_volume >= t { o.remaining_volume - t } else { 0 }
    &&& o2.remaining_volume > 0 ==> o2.status == o.status
}

proof fn lemma_settled_compose(o: PlacedOrder, o1: PlacedOrder, o2: PlacedOrder, a: int, b: int)
    requires
        settled(o, o1, a),
        settled(o1, o2, b),
        a >= 0,
        b >= 0,
    ensures
        settled(o, o2, a + b),
{
}

/// Settling transactions changes each order record only by what they fill
/// of it, as maker and as taker.
#[verifier::spinoff_prover]
#[verifier::rlimit(40)]
pub proof fn lemma_settle_orders(ev: ExchangeView, pair: AssetIdPair, txs: Seq<ObTransaction>, ts: u64)
    requires
        ev.orders.len() <= usize::MAX + 1,
        forall|j: int| 0 <= j < txs.len() ==> (#[trigger] txs[j]).order_id_maker < ev.orders.len()
            && txs[j].order_id_taker < ev.orders.len(),
    ensures
        settle(ev, pair, txs, ts).orders.len() == ev.orders.len(),
        forall|x: int| 0 <= x < ev.orders.len() ==> {
            &&& (#[trigger] settle(ev, pair, txs, ts).orders[x]).0 == ev.orders[x].0
            &&& settled(ev.orders[x].1, settle(ev, pair, txs, ts).orders[x].1,
                maker_volume(txs, x as OrderId) + taker_volume(txs, x as OrderId))
        },
    decreases txs.len(),
{
    if txs.len() == 0 {
        assert forall|x: int| 0 <= x < ev.orders.len() implies
            settled(ev.orders[x].1, settle(ev, pair, txs, ts).orders[x].1, maker_volume(txs, x as OrderId) + taker_volume(txs, x as OrderId)) by {
            assert(ev.orders[x].1 == PlacedOrder { remaining_volume: ev.orders[x].1.remaining_volume, status: ev.orders[x].1.status, ..ev.orders[x].1 });
        }
    } else {
        let tx = txs.last();
        assert(txs[txs.len() - 1] == tx);
        let ev1 = settle_one(ev, pair, tx, ts);
        let mi = tx.order_id_maker as int;
        let ti = tx.order_id_taker as int;
        let v = tx.volume as int;
        let orders1 = ev.orders.update(mi, (ev.orders[mi].0, settle_order(ev.orders[mi].1, tx.volume)));
        assert(ev1.orders == orders1.update(ti, (orders1[ti].0, settle_order(orders1[ti].1, tx.volume))));
        assert forall|j: int| 0 <= j < txs.drop_last().len() implies (#[trigger] txs.drop_last()[j]).order_id_maker < ev1.orders.len()
            && txs.drop_last()[j].order_id_taker < ev1.orders.len() by {
            assert(txs.drop_last()[j] == txs[j]);
        }
        lemma_settle_orders(ev1, pair, txs.drop_last(), ts);
        assert forall|x: int| 0 <= x < ev.orders.len() implies {
            &&& (#[trigger] settle(ev, pair, txs, ts).orders[x]).0 == ev.orders[x].0
            &&& settled(ev.orders[x].1, settle(ev, pair, txs, ts).orders[x].1,
                maker_volume(txs, x as OrderId) + taker_volume(txs, x as OrderId))
        } by {
            let o = ev.orders[x].1;
            let a = (if mi == x { v } else { 0 }) + (if ti == x { v } else { 0 });
            // One step.
            if mi == x {
                let o1 = settle_order(o, tx.volume);
                assert(settled(o, o1, v));
                if ti == x {
                    assert(settled(o1, ev1.orders[x].1, v));
                    lemma_settled_compose(o, o1, ev1.orders[x].1, v, v);
                } else {
                    assert(ev1.orders[x].1 == o1);
                }
            } else if ti == x {
                assert(orders1[ti] == ev.orders[x]);
                assert(settled(o, ev1.orders[x].1, v));
            } else {
                assert(ev1.orders[x] == ev.orders[x]);
                assert(settled(o, ev1.orders[x].1, 0));
            }
            assert(settled(o, ev1.orders[x].1, a));
            let rest = maker_volume(txs.drop_last(), x as OrderId) + taker_volume(txs.drop_last(), x as OrderId);
            assert(settled(ev1.orders[x].1, settle(ev1, pair, txs.drop_last(), ts).orders[x].1, rest));
            assert(maker_volume(txs.drop_last(), x as OrderId) >= 0) by { lemma_volumes_nonneg(txs.drop_last(), x as OrderId); }
            assert(taker_volume(txs.drop_last(), x as OrderId) >= 0) by { lemma_volumes_nonneg(txs.drop_last(), x as OrderId); }
            lemma_settled_compose(o, ev1.orders[x].1, settle(ev1, pair, txs.drop_last(), ts).orders[x].1, a, rest);
            assert((x as OrderId) as int == x);
            assert(maker_volume(txs, x as OrderId) == maker_volume(txs.drop_last(), x as OrderId) + if mi == x { v } else { 0 });
            assert(taker_volume(txs, x as OrderId) == taker_volume(txs.drop_last(), x as OrderId) + if ti == x { v } else { 0 });
            assert(settle(ev, pair, txs, ts) == settle(ev1, pair, txs.drop_last(), ts));
        }
    }
}

pub(crate) proof fn lemma_volumes_nonneg(txs: Seq<ObTransaction>, x: OrderId)
    ensures
        maker_volume(txs, x) >= 0,
        taker_volume(txs, x) >= 0,
    decreases txs.len(),
{
    if txs.len() > 0 {
        lemma_volumes_nonneg(txs.drop_last(), x);
    }
}

/// Whether `insert_resting` joins an existing level.
pub open spec fn ir_joins(s: Side, ls: Seq<SpecLevel>, price: Price) -> bool {
    level_position(s, ls, price) < ls.len() && ls[level_position(s, ls, price)].price == price
}

/// Where level `j0` of `ls` goes when an order rests at `price`.
pub open spec fn ir_dst(s: Side, ls: Seq<SpecLevel>, price: Price, j0: int) -> int {
    if ir_joins(s, ls, price) || j0 < level_position(s, ls, price) { j0 } else { j0 + 1 }
}

/// Where level `j` of the result came from.
pub open spec fn ir_src(s: Side, ls: Seq<SpecLevel>, price: Price, j: int) -> int {
    if ir_joins(s, ls, price) || j < level_position(s, ls, price) { j } else { j - 1 }
}

/// The index, in its level, of the order that comes to rest.
pub open spec fn ir_new_k(s: Side, ls: Seq<SpecLevel>, price: Price) -> int {
    if ir_joins(s, ls, price) { ls[level_position(s, ls, price)].orders.len() as int } else { 0 }
}

/// An order that comes to rest keeps every other order at its place and
/// price, and adds no order twice when its id is new.
#[verifier::spinoff_prover]
#[verifier::rlimit(40)]
pub proof fn lemma_insert_resting_positions(s: Side, ls: Seq<SpecLevel>, price: Price, e: OrderbookEntry)
    ensures
        ({
            let res = insert_resting(s, ls, price, e);
            let p = level_position(s, ls, price);
            &&& 0 <= p < res.len()
            &&& 0 <= ir_new_k(s, ls, price) < res[p].orders.len()
            &&& res[p].price == price
            &&& res[p].orders[ir_new_k(s, ls, price)] == e
            &&& forall|j0: int, k0: int| 0 <= j0 < ls.len() && 0 <= k0 < ls[j0].orders.len() ==> {
                &&& 0 <= ir_dst(s, ls, price, j0) < res.len()
                &&& k0 < res[ir_dst(s, ls, price, j0)].orders.len()
                &&& res[ir_dst(s, ls, price, j0)].price == ls[j0].price
                &&& res[ir_dst(s, ls, price, j0)].orders[k0] == #[trigger] ls[j0].orders[k0]
            }
            &&& forall|j: int, k: int| 0 <= j < res.len() && 0 <= k < res[j].orders.len() ==>
                (j == p && k == ir_new_k(s, ls, price))
                || {
                    &&& 0 <= ir_src(s, ls, price, j) < ls.len()
                    &&& k < ls[ir_src(s, ls, price, j)].orders.len()
                    &&& res[j].price == ls[ir_src(s, ls, price, j)].price
                    &&& #[trigger] res[j].orders[k] == ls[ir_src(s, ls, price, j)].orders[k]
                    &&& ir_dst(s, ls, price, ir_src(s, ls, price, j)) == j
                }
        }),
        side_unique(ls) && id_absent(ls, e.order_id) ==> side_unique(insert_resting(s, ls, price, e)),
{
    crate::orderbook::lemma_level_position_bounds(s, ls, price);
    let res = insert_resting(s, ls, price, e);
    let p = level_position(s, ls, price);
    if ir_joins(s, ls, price) {
        assert(res[p].orders == ls[p].orders.push(e));
    } else {
        assert(res[p].orders == seq![e]);
    }
    assert forall|j0: int, k0: int| 0 <= j0 < ls.len() && 0 <= k0 < ls[j0].orders.len() implies {
        &&& 0 <= ir_dst(s, ls, price, j0) < res.len()
        &&& k0 < res[ir_dst(s, ls, price, j0)].orders.len()
        &&& res[ir_dst(s, ls, price, j0)].price == ls[j0].price
        &&& res[ir_dst(s, ls, price, j0)].orders[k0] == #[trigger] ls[j0].orders[k0]
    } by {
        if ir_joins(s, ls, price) && j0 == p {
            assert(res[p].orders[k0] == ls[p].orders[k0]);
        }
    }
    assert forall|j: int, k: int| 0 <= j < res.len() && 0 <= k < res[j].orders.len() implies
        (j == p && k == ir_new_k(s, ls, price))
        || {
            &&& 0 <= ir_src(s, ls, price, j) < ls.len()
            &&& k < ls[ir_src(s, ls, price, j)].orders.len()
            &&& res[j].price == ls[ir_src(s, ls, price, j)].price
            &&& #[trigger] res[j].orders[k] == ls[ir_src(s, ls, price, j)].orders[k]
            &&& ir_dst(s, ls, price, ir_src(s, ls, price, j)) == j
        } by {
        if ir_joins(s, ls, price) {
            if j == p && k < ls[p].orders.len() {
                assert(res[p].orders[k] == ls[p].orders[k]);
            }
        }
    }
    if side_unique(ls) && id_absent(ls, e.order_id) {
        assert forall|j1: int, k1: int, j2: int, k2: int|
            0 <= j1 < res.len() && 0 <= k1 < res[j1].orders.len() && 0 <= j2 < res.len() && 0 <= k2 < res[j2].orders.len()
                && (#[trigger] res[j1].orders[k1]).order_id == (#[trigger] res[j2].orders[k2]).order_id
            implies j1 == j2 && k1 == k2 by {
            let new1 = j1 == p && k1 == ir_new_k(s, ls, price);
            let new2 = j2 == p && k2 == ir_new_k(s, ls, price);
            if new1 && !new2 {
                let a = ir_src(s, ls, price, j2);
                assert(ls[a].orders[k2].order_id == e.order_id);
            } else if new2 && !new1 {
                let a = ir_src(s, ls, price, j1);
                assert(ls[a].orders[k1].order_id == e.order_id);
            } else if !new1 && !new2 {
                let a = ir_src(s, ls, price, j1);
                let b = ir_src(s, ls, price, j2);
                assert(ls[a].orders[k1].order_id == ls[b].orders[k2].order_id);
            }
        }
    }
}

/// The records `orders2` are `orders` after `txs` fill their makers (and
/// more records may follow).
pub open spec fn makers_settled(orders: Seq<(OrderId, PlacedOrder)>, orders2: Seq<(OrderId, PlacedOrder)>, txs: Seq<ObTransaction>) -> bool {
    &&& orders2.len() >= orders.len()
    &&& forall|x: int| 0 <= x < orders.len() ==> settled(orders[x].1, (#[trigger] orders2[x]).1, maker_volume(txs, x as OrderId))
}

/// A side none of whose orders trades stays backed.
proof fn lemma_untouched_side_backed(ls: Seq<SpecLevel>, orders: Seq<(OrderId, PlacedOrder)>, orders2: Seq<(OrderId, PlacedOrder)>,
    pair: AssetIdPair, s: Side, txs: Seq<ObTransaction>)
    requires
        side_backed(ls, orders, pair, s),
        makers_settled(orders, orders2, txs),
        orders.len() <= usize::MAX + 1,
        forall|j: int, k: int| 0 <= j < ls.len() && 0 <= k < ls[j].orders.len()
            ==> maker_volume(txs, (#[trigger] ls[j].orders[k]).order_id) == 0,
    ensures
        side_backed(ls, orders2, pair, s),
{
    assert forall|j: int, k: int| 0 <= j < ls.len() && 0 <= k < ls[j].orders.len()
        implies backed(orders2, #[trigger] ls[j].orders[k], pair, s, ls[j].price) by {
        let e = ls[j].orders[k];
        let x = e.order_id as int;
        assert(backed(orders, e, pair, s, ls[j].price));
        assert((x as OrderId) == e.order_id);
        assert(settled(orders[x].1, orders2[x].1, 0));
        assert(orders2[x].1 == orders[x].1);
    }
}

/// The side an incoming order matched against is backed, and holds no order
/// twice, after its makers' records are settled.
#[verifier::spinoff_prover]
#[verifier::rlimit(40)]
proof fn lemma_matched_side_backed(ls: Seq<SpecLevel>, orders: Seq<(OrderId, PlacedOrder)>, orders2: Seq<(OrderId, PlacedOrder)>,
    pair: AssetIdPair, s: Side, txs: Seq<ObTransaction>, levels: Seq<SpecLevel>, t: int)
    requires
        side_backed(ls, orders, pair, s),
        side_unique(ls),
        makers_settled(orders, orders2, txs),
        orders.len() <= usize::MAX + 1,
        match_shape(ls, txs, levels, t),
    ensures
        side_backed(levels, orders2, pair, s),
        side_unique(levels),
{
    let d = if levels.len() == t + 1 { choose|d: int| fill_shape(ls[t].orders, txs, levels[t].orders, d) } else { 0 };
    // Where each order of `levels` was in `ls`.
    let src_k = |j: int, k: int| if j == t { k + d } else { k };
    assert forall|j: int, k: int| 0 <= j < levels.len() && 0 <= k < levels[j].orders.len() implies {
        &&& 0 <= src_k(j, k) < ls[j].orders.len()
        &&& levels[j].price == ls[j].price
        &&& #[trigger] levels[j].orders[k] == filled_by(ls[j].orders[src_k(j, k)], maker_volume(txs, ls[j].orders[src_k(j, k)].order_id))
        &&& maker_volume(txs, ls[j].orders[src_k(j, k)].order_id) < ls[j].orders[src_k(j, k)].remaining_volume
    } by {
        if j < t {
            assert(levels[j] == ls[j]);
            assert(maker_volume(txs, ls[j].orders[k].order_id) == 0);
            assert(ls[j].orders[k].remaining_volume > 0) by {
                assert(backed(orders, ls[j].orders[k], pair, s, ls[j].price));
            }
            assert(filled_by(ls[j].orders[k], 0) == ls[j].orders[k]);
        } else {
            assert(j == t);
            assert(levels[t].orders[k] == filled_by(ls[t].orders[k + d], maker_volume(txs, ls[t].orders[k + d].order_id)));
        }
    }
    assert forall|j: int, k: int| 0 <= j < levels.len() && 0 <= k < levels[j].orders.len()
        implies backed(orders2, #[trigger] levels[j].orders[k], pair, s, levels[j].price) by {
        let k0 = src_k(j, k);
        let e0 = ls[j].orders[k0];
        let x = e0.order_id as int;
        let v = maker_volume(txs, e0.order_id);
        assert(backed(orders, e0, pair, s, ls[j].price));
        assert((x as OrderId) == e0.order_id);
        assert(settled(orders[x].1, orders2[x].1, v));
        assert(v >= 0) by { lemma_volumes_nonneg(txs, e0.order_id); }
        assert(levels[j].orders[k] == filled_by(e0, v));
    }
    assert forall|j1: int, k1: int, j2: int, k2: int|
        0 <= j1 < levels.len() && 0 <= k1 < levels[j1].orders.len() && 0 <= j2 < levels.len() && 0 <= k2 < levels[j2].orders.len()
            && (#[trigger] levels[j1].orders[k1]).order_id == (#[trigger] levels[j2].orders[k2]).order_id
        implies j1 == j2 && k1 == k2 by {
        assert(ls[j1].orders[src_k(j1, k1)].order_id == ls[j2].orders[src_k(j2, k2)].order_id);
    }
}

/// The side where the incoming order comes to rest is backed, and holds no
/// order twice.
proof fn lemma_resting_side_backed(ls: Seq<SpecLevel>, orders2: Seq<(OrderId, PlacedOrder)>,
    pair: AssetIdPair, s: Side, price: Price, e: OrderbookEntry)
    requires
        side_backed(ls, orders2, pair, s),
        side_unique(ls),
        id_absent(ls, e.order_id),
        backed(orders2, e, pair, s, price),
    ensures
        side_backed(insert_resting(s, ls, price, e), orders2, pair, s),
        side_unique(insert_resting(s, ls, price, e)),
        rests_entry(insert_resting(s, ls, price, e), price, e),
        forall|p: Price, e2: OrderbookEntry| rests_entry(ls, p, e2) ==> #[trigger] rests_entry(insert_resting(s, ls, price, e), p, e2),
{
    lemma_insert_resting_positions(s, ls, price, e);
    let res = insert_resting(s, ls, price, e);
    let p0 = level_position(s, ls, price);
    assert forall|j: int, k: int| 0 <= j < res.len() && 0 <= k < res[j].orders.len()
        implies backed(orders2, #[trigger] res[j].orders[k], pair, s, res[j].price) by {
        if !(j == p0 && k == ir_new_k(s, ls, price)) {
            let j0 = ir_src(s, ls, price, j);
            assert(res[j].orders[k] == ls[j0].orders[k]);
            assert(backed(orders2, ls[j0].orders[k], pair, s, ls[j0].price));
        }
    }
    assert(res[p0].orders[ir_new_k(s, ls, price)] == e);
    assert forall|p: Price, e2: OrderbookEntry| rests_entry(ls, p, e2) implies #[trigger] rests_entry(res, p, e2) by {
        let (j0, k0) = choose|j0: int, k0: int| 0 <= j0 < ls.len() && ls[j0].price == p && 0 <= k0 < ls[j0].orders.len()
            && #[trigger] ls[j0].orders[k0] == e2;
        let j = ir_dst(s, ls, price, j0);
        assert(res[j].orders[k0] == e2);
    }
}


/// When every transaction has the taker `id`, `id` gets all their volume
/// as taker, and no other order gets any.
proof fn lemma_taker_volume(txs: Seq<ObTransaction>, id: OrderId)
    requires
        forall|j: int| 0 <= j < txs.len() ==> (#[trigger] txs[j]).order_id_taker == id,
    ensures
        forall|x: OrderId| #[trigger] taker_volume(txs, x) == if x == id { txs_volume(txs) } else { 0 },
    decreases txs.len(),
{
    if txs.len() > 0 {
        assert forall|j: int| 0 <= j < txs.drop_last().len() implies (#[trigger] txs.drop_last()[j]).order_id_taker == id by {
            assert(txs.drop_last()[j] == txs[j]);
        }
        lemma_taker_volume(txs.drop_last(), id);
        assert(txs[txs.len() - 1] == txs.last());
        assert forall|x: OrderId| #[trigger] taker_volume(txs, x) == if x == id { txs_volume(txs) } else { 0 } by {
            assert(taker_volume(txs.drop_last(), x) == if x == id { txs_volume(txs.drop_last()) } else { 0 });
        }
    } else {
        assert forall|x: OrderId| #[trigger] taker_volume(txs, x) == if x == id { txs_volume(txs) } else { 0 } by {}
    }
}

/// When the transactions take nothing from orders that do not rest on side
/// `so` of market `i`, they take nothing from the orders resting anywhere
/// else.
proof fn lemma_elsewhere_untouched(ms: Seq<MarketView>, orders: Seq<(OrderId, PlacedOrder)>, i: int, so: Side, txs: Seq<ObTransaction>)
    requires
        forall|mi: int| 0 <= mi < ms.len() ==> market_backed(#[trigger] ms[mi], orders),
        forall|a: int, b: int| 0 <= a < b < ms.len() ==> ms[a].asset_pair != ms[b].asset_pair,
        0 <= i < ms.len(),
        forall|x: OrderId| id_absent(ms[i].book.side(so), x) ==> #[trigger] maker_volume(txs, x) == 0,
    ensures
        forall|mi: int, s2: Side, j: int, k: int| 0 <= mi < ms.len() && !(mi == i && s2 == so)
            && 0 <= j < ms[mi].book.side(s2).len() && 0 <= k < ms[mi].book.side(s2)[j].orders.len()
            ==> maker_volume(txs, (#[trigger] ms[mi].book.side(s2)[j].orders[k]).order_id) == 0,
{
    assert forall|mi: int, s2: Side, j: int, k: int| 0 <= mi < ms.len() && !(mi == i && s2 == so)
        && 0 <= j < ms[mi].book.side(s2).len() && 0 <= k < ms[mi].book.side(s2)[j].orders.len()
        implies maker_volume(txs, (#[trigger] ms[mi].book.side(s2)[j].orders[k]).order_id) == 0 by {
        lemma_only_place(ms, orders, mi, s2, j, k);
        assert(id_absent(ms[i].book.side(so), ms[mi].book.side(s2)[j].orders[k].order_id));
    }
}

/// Side `opposite(s)` of market `i` of `ev` became `levels` when an
/// incoming order traded against it (see `match_shape`); `ev2` has its
/// makers' records settled, its own record added at the end and, when that
/// record is live, the order resting on side `s` at `price` as `e`.
pub open spec fn matched_into(ev: ExchangeView, ev2: ExchangeView, i: int, s: Side, txs: Seq<ObTransaction>,
    levels: Seq<SpecLevel>, t: int, rests: bool, price: Price, e: OrderbookEntry) -> bool {
    &&& 0 <= i < ev.markets.len()
    &&& match_shape(ev.markets[i].book.side(opposite(s)), txs, levels, t)
    &&& forall|x: OrderId| id_absent(ev.markets[i].book.side(opposite(s)), x) ==> #[trigger] maker_volume(txs, x) == 0
    &&& makers_settled(ev.orders, ev2.orders, txs)
    &&& ev2.orders.len() == ev.orders.len() + 1
    &&& ev2.markets.len() == ev.markets.len()
    &&& forall|mi: int| 0 <= mi < ev.markets.len() && mi != i ==> #[trigger] ev2.markets[mi] == ev.markets[mi]
    &&& ev2.markets[i].asset_pair == ev.markets[i].asset_pair
    &&& ev2.markets[i].book.side(opposite(s)) == levels
    &&& ev2.markets[i].book.side(s) == if rests { insert_resting(s, ev.markets[i].book.side(s), price, e) } else { ev.markets[i].book.side(s) }
    &&& e.order_id == ev.orders.len()
    &&& ev2.orders[ev.orders.len() as int].1.pair == ev.markets[i].asset_pair
    &&& rests <==> live(ev2.orders[ev.orders.len() as int].1)
    &&& rests ==> {
        let o = ev2.orders[ev.orders.len() as int].1;
        &&& o.pair == ev.markets[i].asset_pair
        &&& o.side == s
        &&& o.price == price
        &&& entry_of(o) == e
    }
}

/// After an incoming order trades against side `opposite(s)` of market `i`
/// (leaving `levels`, see `match_shape`), its makers' records are settled,
/// its own record is added and, when it is live, it rests on side `s`: the
/// session and the books still agree.
#[verifier::spinoff_prover]
#[verifier::rlimit(40)]
proof fn lemma_after_match(ev: ExchangeView, ev2: ExchangeView, i: int, s: Side, txs: Seq<ObTransaction>,
    levels: Seq<SpecLevel>, t: int, rests: bool, price: Price, e: OrderbookEntry)
    requires
        ev.wf(),
        records_match(ev),
        matched_into(ev, ev2, i, s, txs, levels, t, rests, price, e),
    ensures
        records_match(ev2),
{
    let ms = ev.markets;
    let ms2 = ev2.markets;
    let orders = ev.orders;
    let orders2 = ev2.orders;
    let n = orders.len() as int;
    let m = ms[i];
    let opp = opposite(s);
    let ls = m.book.side(opp);
    let lst = m.book.side(s);
    assert(opp != s) by { match s { Side::Bid => {}, Side::Ask => {} } }
    lemma_elsewhere_untouched(ms, orders, i, opp, txs);
    assert forall|j: int| 0 <= j < ms.len() implies (#[trigger] ms2[j]).asset_pair == ms[j].asset_pair by {
        if j != i {
            assert(ms2[j] == ms[j]);
        }
    }
    lemma_market_index_same(ms, ms2);
    assert(market_backed(m, orders));
    assert(side_backed(ls, orders, m.asset_pair, opp) && side_unique(ls)) by {
        match s { Side::Bid => {}, Side::Ask => {} }
    }
    assert(side_backed(lst, orders, m.asset_pair, s) && side_unique(lst)) by {
        match s { Side::Bid => {}, Side::Ask => {} }
    }
    lemma_matched_side_backed(ls, orders, orders2, m.asset_pair, opp, txs, levels, t);
    assert forall|j: int, k: int| 0 <= j < lst.len() && 0 <= k < lst[j].orders.len()
        implies maker_volume(txs, (#[trigger] lst[j].orders[k]).order_id) == 0 by {
        assert(maker_volume(txs, ms[i].book.side(s)[j].orders[k].order_id) == 0);
    }
    lemma_untouched_side_backed(lst, orders, orders2, m.asset_pair, s, txs);
    if rests {
        assert(crate::orderbook::book_ids_below(m.book, n));
        assert(id_absent(lst, e.order_id)) by {
            assert(crate::orderbook::ids_below(lst, n)) by {
                match s { Side::Bid => {}, Side::Ask => {} }
            }
        }
        assert(backed(orders2, e, m.asset_pair, s, price));
        lemma_resting_side_backed(lst, orders2, m.asset_pair, s, price, e);
    }
    let lst2 = ms2[i].book.side(s);
    assert(side_backed(lst2, orders2, m.asset_pair, s) && side_unique(lst2));
    assert forall|mi: int| 0 <= mi < ms2.len() implies market_backed(#[trigger] ms2[mi], orders2) by {
        if mi == i {
            match s { Side::Bid => {}, Side::Ask => {} }
        } else {
            assert(ms2[mi] == ms[mi]);
            assert(market_backed(ms[mi], orders));
            let b = ms[mi].book;
            assert forall|j: int, k: int| 0 <= j < b.bids.len() && 0 <= k < b.bids[j].orders.len()
                implies maker_volume(txs, (#[trigger] b.bids[j].orders[k]).order_id) == 0 by {
                assert(maker_volume(txs, ms[mi].book.side(Side::Bid)[j].orders[k].order_id) == 0);
            }
            assert forall|j: int, k: int| 0 <= j < b.asks.len() && 0 <= k < b.asks[j].orders.len()
                implies maker_volume(txs, (#[trigger] b.asks[j].orders[k]).order_id) == 0 by {
                assert(maker_volume(txs, ms[mi].book.side(Side::Ask)[j].orders[k].order_id) == 0);
            }
            lemma_untouched_side_backed(b.bids, orders, orders2, ms[mi].asset_pair, Side::Bid, txs);
            lemma_untouched_side_backed(b.asks, orders, orders2, ms[mi].asset_pair, Side::Ask, txs);
        }
    }
    assert forall|x: int| 0 <= x < orders2.len() && live(#[trigger] orders2[x].1) implies record_rests(ev2, orders2[x].1) by {
        if x == n {
            lemma_market_index_unique(ms, m.asset_pair, i);
        } else {
            lemma_rests_after_match(ev, ev2, i, s, txs, levels, t, rests, price, e, x);
        }
    }
}

/// See `lemma_after_match`: an order of the session that is still live
/// after the trades rests where it did, with what the trades left of it.
#[verifier::spinoff_prover]
#[verifier::rlimit(40)]
proof fn lemma_rests_after_match(ev: ExchangeView, ev2: ExchangeView, i: int, s: Side, txs: Seq<ObTransaction>,
    levels: Seq<SpecLevel>, t: int, rests: bool, price: Price, e: OrderbookEntry, x: int)
    requires
        ev.wf(),
        records_match(ev),
        matched_into(ev, ev2, i, s, txs, levels, t, rests, price, e),
        0 <= x < ev.orders.len(),
        live(ev2.orders[x].1),
    ensures
        record_rests(ev2, ev2.orders[x].1),
{
    let ms = ev.markets;
    let ms2 = ev2.markets;
    let orders = ev.orders;
    let orders2 = ev2.orders;
    let m = ms[i];
    let opp = opposite(s);
    let ls = m.book.side(opp);
    let lst = m.book.side(s);
    assert(opp != s) by { match s { Side::Bid => {}, Side::Ask => {} } }
    lemma_elsewhere_untouched(ms, orders, i, opp, txs);
    assert forall|j: int| 0 <= j < ms.len() implies (#[trigger] ms2[j]).asset_pair == ms[j].asset_pair by {
        if j != i {
            assert(ms2[j] == ms[j]);
        }
    }
    lemma_market_index_same(ms, ms2);
    let ox = orders[x].1;
    let o2 = orders2[x].1;
    let v = maker_volume(txs, x as OrderId);
    assert(settled(ox, o2, v));
    assert(v >= 0) by { lemma_volumes_nonneg(txs, x as OrderId); }
    assert(live(ox));
    assert(record_rests(ev, ox));
    let mx = market_index(ms, ox.pair)->Some_0;
    let lsx = ms[mx].book.side(ox.side);
    let (j, k) = choose|j: int, k: int| 0 <= j < lsx.len() && lsx[j].price == ox.price && 0 <= k < lsx[j].orders.len()
        && #[trigger] lsx[j].orders[k] == entry_of(ox);
    assert(ox.id == x);
    assert(lsx[j].orders[k].order_id == x as OrderId);
    if mx == i && ox.side == opp {
        assert(ms2[mx].book.side(ox.side) == levels);
        if j < t {
            assert(levels[j] == ls[j]);
            assert(v == 0);
            assert(o2 == ox);
            assert(levels[j].orders[k] == entry_of(o2));
        } else if levels.len() == t + 1 && j == t {
            let d = choose|d: int| fill_shape(ls[t].orders, txs, levels[t].orders, d);
            if k < d {
                assert(v == ox.remaining_volume);
                assert(false);
            } else {
                assert(levels[t].orders[k - d] == filled_by(ls[t].orders[k], v));
                assert(v < ox.remaining_volume);
                assert(entry_of(o2) == filled_by(entry_of(ox), v));
                assert(levels[t].orders[k - d] == entry_of(o2));
                assert(levels[t].price == ox.price);
            }
        } else {
            assert(v == ox.remaining_volume);
            assert(false);
        }
    } else {
        assert(v == 0);
        assert(o2 == ox);
        if mx == i {
            assert(ox.side == s);
            if rests {
                lemma_insert_resting_positions(s, lst, price, e);
                let j2 = ir_dst(s, lst, price, j);
                let res = insert_resting(s, lst, price, e);
                assert(res[j2].orders[k] == entry_of(ox));
                assert(ms2[mx].book.side(ox.side) == res);
            } else {
                assert(ms2[mx].book.side(ox.side) == lsx);
            }
        } else {
            assert(ms2[mx] == ms[mx]);
        }
    }
}

/// Inserting an order keeps the session and the books in agreement: the
/// orders it trades with lose what it took from them, in the book and in
/// their records alike, and what is left of it rests as its record says.
#[verifier::spinoff_prover]
#[verifier::rlimit(40)]
pub proof fn lemma_insert_matches(ev: ExchangeView, req: OrderInsertionRequest, ts: u64)
    requires
        ev.wf(),
        records_match(ev),
        ev.orders.len() < usize::MAX,
    ensures
        records_match(spec_exchange_insert(ev, req, ts).0),
{
    let ms = ev.markets;
    if let Some(i) = market_index(ms, req.pair) {
        if req.account_id < ev.account_names.len() {
            let n = ev.orders.len() as int;
            let id = ev.orders.len() as OrderId;
            let ins = req.spec_into_insertion(id);
            let m = ms[i];
            let out = spec_insert_order(m.book, ins);
            if out.result is Ok {
                let s = ins.side;
                let opp = opposite(s);
                let limit = limit_of(ins);
                let ls = m.book.side(opp);
                let mres = match_levels(ins, limit, ls, ins.volume);
                let txs = mres.txs;
                assert(!mres.self_trade);
                assert(out.txs == txs);
                let j = choose|j: int| 0 <= j < ms.len() && ms[j].asset_pair == req.pair;
                lemma_market_index_unique(ms, req.pair, j);
                assert(market_backed(m, ev.orders));
                assert(m.wf());
                assert(side_unique(ls) && crate::orderbook::positive_levels(ls)) by {
                    match s { Side::Bid => {}, Side::Ask => {} }
                }
                crate::orderbook::lemma_match_levels_shape(ins, limit, ls, ins.volume);
                let t = choose|t: int| match_shape(ls, txs, mres.levels, t);
                crate::orderbook::lemma_insert_order_ids(m.book, ins, n);
                crate::orderbook::lemma_match_volume(ins, limit, ls, ins.volume);
                lemma_taker_volume(txs, id);
                let m2 = MarketView {
                    asset_pair: m.asset_pair,
                    last_traded_price: next_last_traded_price(m.last_traded_price, out.result),
                    book: out.book,
                };
                let ev1 = ExchangeView {
                    markets: ms.update(i, m2),
                    orders: ev.orders.push((id, PlacedOrder::spec_from_insertion(ins))),
                    ..ev
                };
                let ev2 = settle(ev1, req.pair, txs, ts);
                assert(spec_exchange_insert(ev, req, ts).0 == ev2);
                lemma_settle_markets(ev1, req.pair, txs, ts);
                lemma_settle_orders(ev1, req.pair, txs, ts);
                assert(id_absent(ls, id)) by {
                    assert(crate::orderbook::ids_below(ls, n)) by {
                        match s { Side::Bid => {}, Side::Ask => {} }
                    }
                }
                assert forall|x: int| 0 <= x < ev.orders.len() implies
                    settled(ev.orders[x].1, (#[trigger] ev2.orders[x]).1, maker_volume(txs, x as OrderId)) by {
                    assert(ev1.orders[x] == ev.orders[x]);
                    assert(taker_volume(txs, x as OrderId) == 0);
                }
                let o = ev2.orders[n].1;
                assert(ev1.orders[n].1 == PlacedOrder::spec_from_insertion(ins));
                assert(maker_volume(txs, id) == 0);
                assert(taker_volume(txs, id) == txs_volume(txs));
                assert(settled(ev1.orders[n].1, o, txs_volume(txs)));
                let rests = mres.remaining > 0;
                let e = OrderbookEntry { order_id: id, account_id: ins.account_id, remaining_volume: mres.remaining };
                assert(o.remaining_volume == mres.remaining);
                assert(rests <==> live(o));
                assert(opp != s) by { match s { Side::Bid => {}, Side::Ask => {} } }
                assert(ev2.markets[i].book.side(opp) == mres.levels) by {
                    match s { Side::Bid => {}, Side::Ask => {} }
                }
                assert(ev2.markets[i].book.side(s) == if rests { insert_resting(s, m.book.side(s), ins.price, e) } else { m.book.side(s) }) by {
                    match s { Side::Bid => {}, Side::Ask => {} }
                }
                assert(rests ==> entry_of(o) == e);
                lemma_after_match(ev, ev2, i, s, txs, mres.levels, t, rests, ins.price, e);
            }
        }
    }
}

/// A live order rests where its record says, so its id is found there.
proof fn lemma_live_rests_at(ev: ExchangeView, id: OrderId)
    requires
        ev.wf(),
        records_match(ev),
        id < ev.orders.len(),
        live(ev.orders[id as int].1),
    ensures
        ({
            let o = ev.orders[id as int].1;
            &&& market_index(ev.markets, o.pair) is Some
            &&& crate::orderbook::rests_at(ev.markets[market_index(ev.markets, o.pair)->Some_0].book.side(o.side), o.price, id)
        }),
{
    let o = ev.orders[id as int].1;
    assert(record_rests(ev, o));
    let i = market_index(ev.markets, o.pair)->Some_0;
    let ls = ev.markets[i].book.side(o.side);
    let (j, k) = choose|j: int, k: int| 0 <= j < ls.len() && ls[j].price == o.price && 0 <= k < ls[j].orders.len()
        && #[trigger] ls[j].orders[k] == entry_of(o);
    assert(o.id == id);
    assert(ls[j].orders[k].order_id == id);
}

/// A cancellation that succeeds marks the order cancelled and leaves no
/// entry of it in any book; and the cancellation of a live order, by the
/// account that placed it, succeeds.
pub proof fn law_cancel_removes_order(ev: ExchangeView, req: OrderCancellationRequest)
    requires
        ev.wf(),
        records_match(ev),
    ensures
        spec_exchange_cancel(ev, req).1 is Ok ==> {
            let after = spec_exchange_cancel(ev, req).0;
            &&& after.orders[req.order_id as int].1.status == OrderExecutionStatus::Cancelled
            &&& forall|mi: int, s: Side| 0 <= mi < after.markets.len()
                ==> id_absent(#[trigger] after.markets[mi].book.side(s), req.order_id)
        },
        req.order_id < ev.orders.len() && ev.orders[req.order_id as int].1.account_id == req.account_id
            && live(ev.orders[req.order_id as int].1) ==> spec_exchange_cancel(ev, req).1 is Ok,
{
    let id = req.order_id;
    if id < ev.orders.len() && live(ev.orders[id as int].1) {
        lemma_live_rests_at(ev, id);
    }
    if spec_exchange_cancel(ev, req).1 is Ok {
        let after = spec_exchange_cancel(ev, req).0;
        lemma_cancel_matches(ev, req);
        lemma_not_live_absent(after, id);
    }
}

/// Lowering the volume of a live order, by the account that placed it,
/// succeeds. When more than the new volume is already filled, the order
/// becomes filled with the filled volume as its volume, and leaves every
/// book; otherwise its volume is the new one and what remains is the new
/// volume minus the filled one, which is what rests of it in its book.
pub proof fn law_modify_live_order(ev: ExchangeView, req: OrderModificationRequest)
    requires
        ev.wf(),
        records_match(ev),
        req.order_id < ev.orders.len(),
        ev.orders[req.order_id as int].1.account_id == req.account_id,
        live(ev.orders[req.order_id as int].1),
        req.new_volume < ev.orders[req.order_id as int].1.volume,
    ensures
        ({
            let o = ev.orders[req.order_id as int].1;
            let after = spec_exchange_modify(ev, req).0;
            let o2 = after.orders[req.order_id as int].1;
            let filled = o.volume - o.remaining_volume;
            &&& spec_exchange_modify(ev, req).1 is Ok
            &&& filled > req.new_volume ==> {
                &&& o2.status == OrderExecutionStatus::Filled
                &&& o2.volume == filled
                &&& o2.remaining_volume == 0
            }
            &&& filled <= req.new_volume ==> {
                &&& o2.status == o.status
                &&& o2.volume == req.new_volume
                &&& o2.remaining_volume == req.new_volume - filled
            }
            &&& live(o2) ==> record_rests(after, o2)
            &&& !live(o2) ==> forall|mi: int, s: Side| 0 <= mi < after.markets.len()
                ==> id_absent(#[trigger] after.markets[mi].book.side(s), req.order_id)
        }),
{
    let id = req.order_id;
    lemma_live_rests_at(ev, id);
    let after = spec_exchange_modify(ev, req).0;
    lemma_modify_matches(ev, req);
    assert(ev.orders[id as int].1.remaining_volume <= ev.orders[id as int].1.volume);
    if live(after.orders[id as int].1) {
        assert(record_rests(after, after.orders[id as int].1));
    } else {
        lemma_not_live_absent(after, id);
    }
}

/// What `txs` fill of each order, as maker and as taker, is no more than
/// what remains of it.
pub open spec fn fills_fit(orders: Seq<(OrderId, PlacedOrder)>, txs: Seq<ObTransaction>) -> bool {
    forall|x: int| 0 <= x < orders.len()
        ==> maker_volume(txs, x as OrderId) + taker_volume(txs, x as OrderId) <= (#[trigger] orders[x]).1.remaining_volume
}

/// Settling the last of `txs`, when the fills fit, takes no more from its
/// maker and its taker than remains of them, and the fills of the others
/// still fit.
pub proof fn lemma_settle_one_fits(ev: ExchangeView, pair: AssetIdPair, txs: Seq<ObTransaction>, ts: u64)
    requires
        txs.len() > 0,
        ev.orders.len() <= usize::MAX,
        fills_fit(ev.orders, txs),
        txs.last().order_id_maker < ev.orders.len(),
        txs.last().order_id_taker < ev.orders.len(),
    ensures
        ({
            let tx = txs.last();
            let mi = tx.order_id_maker as int;
            let ti = tx.order_id_taker as int;
            &&& tx.volume <= ev.orders[mi].1.remaining_volume
            &&& mi == ti ==> 2 * tx.volume <= ev.orders[mi].1.remaining_volume
            &&& mi != ti ==> tx.volume <= ev.orders[ti].1.remaining_volume
            &&& fills_fit(settle_one(ev, pair, tx, ts).orders, txs.drop_last())
        }),
{
    let tx = txs.last();
    let mi = tx.order_id_maker as int;
    let ti = tx.order_id_taker as int;
    let v = tx.volume as int;
    let rest = txs.drop_last();
    let ev2 = settle_one(ev, pair, tx, ts);
    assert forall|x: int| 0 <= x < ev.orders.len() implies {
        &&& #[trigger] maker_volume(txs, x as OrderId) == maker_volume(rest, x as OrderId) + if mi == x { v } else { 0 }
        &&& taker_volume(txs, x as OrderId) == taker_volume(rest, x as OrderId) + if ti == x { v } else { 0 }
        &&& maker_volume(rest, x as OrderId) >= 0
        &&& taker_volume(rest, x as OrderId) >= 0
    } by {
        assert((x as OrderId) as int == x);
        lemma_volumes_nonneg(rest, x as OrderId);
    }
    assert(ev.orders[mi].1.remaining_volume >= maker_volume(txs, mi as OrderId) + taker_volume(txs, mi as OrderId));
    assert(ev.orders[ti].1.remaining_volume >= maker_volume(txs, ti as OrderId) + taker_volume(txs, ti as OrderId));
    let orders1 = ev.orders.update(mi, (ev.orders[mi].0, settle_order(ev.orders[mi].1, tx.volume)));
    assert forall|x: int| 0 <= x < ev2.orders.len() implies
        maker_volume(rest, x as OrderId) + taker_volume(rest, x as OrderId) <= (#[trigger] ev2.orders[x]).1.remaining_volume by {
        assert(ev.orders[x].1.remaining_volume >= maker_volume(txs, x as OrderId) + taker_volume(txs, x as OrderId));
        if x == mi && x == ti {
            assert(orders1[x].1.remaining_volume == ev.orders[x].1.remaining_volume - v);
            assert(ev2.orders[x].1.remaining_volume == orders1[x].1.remaining_volume - v);
        } else if x == mi {
            assert(ev2.orders[x] == orders1[x]);
        } else if x == ti {
            assert(orders1[x] == ev.orders[x]);
        } else {
            assert(ev2.orders[x] == ev.orders[x]);
        }
    }
}

/// What the trades of an incoming order take, as maker, from an order of
/// the session is no more than remains of it.
#[verifier::spinoff_prover]
proof fn lemma_maker_fits(ls: Seq<SpecLevel>, orders: Seq<(OrderId, PlacedOrder)>, pair: AssetIdPair, s: Side,
    txs: Seq<ObTransaction>, levels: Seq<SpecLevel>, t: int, x: int)
    requires
        side_backed(ls, orders, pair, s),
        match_shape(ls, txs, levels, t),
        forall|y: OrderId| id_absent(ls, y) ==> #[trigger] maker_volume(txs, y) == 0,
        0 <= x < orders.len(),
        orders.len() <= usize::MAX,
    ensures
        maker_volume(txs, x as OrderId) <= orders[x].1.remaining_volume,
{
    let xi = x as OrderId;
    if !id_absent(ls, xi) {
        let (j, k) = choose|j: int, k: int| 0 <= j < ls.len() && 0 <= k < ls[j].orders.len() && (#[trigger] ls[j].orders[k]).order_id == xi;
        let e = ls[j].orders[k];
        assert(backed(orders, e, pair, s, ls[j].price));
        assert(e.order_id as int == x);
        assert(e.remaining_volume == orders[x].1.remaining_volume);
        if j < t {
        } else if levels.len() == t + 1 && j == t {
            let d = choose|d: int| fill_shape(ls[t].orders, txs, levels[t].orders, d);
            if k >= d {
                assert(levels[t].orders[k - d] == filled_by(ls[t].orders[k], maker_volume(txs, ls[t].orders[k].order_id)));
            }
        }
    }
}

/// The transactions of an insertion into a well-formed exchange whose
/// records match its books take from each order no more than remains of
/// it: a resting order gives at most its remaining volume, and the
/// incoming order takes at most its volume.
#[verifier::spinoff_prover]
#[verifier::rlimit(40)]
pub proof fn lemma_insert_fills_fit(ev: ExchangeView, i: int, ins: crate::order::OrderInsertion)
    requires
        ev.wf(),
        records_match(ev),
        0 <= i < ev.markets.len(),
        ins.id == ev.orders.len(),
        spec_insert_order(ev.markets[i].book, ins).result is Ok,
    ensures
        fills_fit(ev.orders.push((ins.id, PlacedOrder::spec_from_insertion(ins))), spec_insert_order(ev.markets[i].book, ins).txs),
{
    let n = ev.orders.len() as int;
    let m = ev.markets[i];
    let s = ins.side;
    let opp = opposite(s);
    let limit = limit_of(ins);
    let ls = m.book.side(opp);
    let mres = match_levels(ins, limit, ls, ins.volume);
    let txs = mres.txs;
    let orders2 = ev.orders.push((ins.id, PlacedOrder::spec_from_insertion(ins)));
    assert(spec_insert_order(m.book, ins).txs == txs);
    assert(market_backed(m, ev.orders));
    assert(m.wf());
    assert(side_unique(ls) && crate::orderbook::positive_levels(ls) && side_backed(ls, ev.orders, m.asset_pair, opp)) by {
        match s { Side::Bid => {}, Side::Ask => {} }
    }
    crate::orderbook::lemma_match_levels_shape(ins, limit, ls, ins.volume);
    let t = choose|t: int| match_shape(ls, txs, mres.levels, t);
    crate::orderbook::lemma_insert_order_ids(m.book, ins, n);
    crate::orderbook::lemma_match_volume(ins, limit, ls, ins.volume);
    lemma_taker_volume(txs, ins.id);
    assert(id_absent(ls, ins.id)) by {
        assert(crate::orderbook::ids_below(ls, n)) by {
            match s { Side::Bid => {}, Side::Ask => {} }
        }
    }
    assert forall|x: int| 0 <= x < orders2.len() implies
        maker_volume(txs, x as OrderId) + taker_volume(txs, x as OrderId) <= (#[trigger] orders2[x]).1.remaining_volume by {
        if x == n {
            assert(maker_volume(txs, ins.id) == 0);
            assert((x as OrderId) == ins.id);
        } else {
            assert(orders2[x] == ev.orders[x]);
            assert(taker_volume(txs, x as OrderId) == 0);
            lemma_maker_fits(ls, ev.orders, m.asset_pair, opp, txs, mres.levels, t, x);
        }
    }
}

/// Lowering the volume of a cancelled order, by the account that placed it
/// and below its volume, is refused as `OrderNotFound` and changes nothing:
/// a cancelled order rests in no book.
pub proof fn law_modify_cancelled_order(ev: ExchangeView, req: OrderModificationRequest)
    requires
        ev.wf(),
        records_match(ev),
        req.order_id < ev.orders.len(),
        ev.orders[req.order_id as int].1.account_id == req.account_id,
        ev.orders[req.order_id as int].1.status == OrderExecutionStatus::Cancelled,
        req.new_volume < ev.orders[req.order_id as int].1.volume,
    ensures
        spec_exchange_modify(ev, req) == (ev, Err::<(), crate::errors::OrderModificationError>(crate::errors::OrderModificationError::OrderNotFound)),
{
    let id = req.order_id;
    let o = ev.orders[id as int].1;
    lemma_not_live_absent(ev, id);
    let i = market_index(ev.markets, o.pair)->Some_0;
    let j = choose|j: int| 0 <= j < ev.markets.len() && ev.markets[j].asset_pair == o.pair;
    lemma_market_index_unique(ev.markets, o.pair, j);
    let ls = ev.markets[i].book.side(o.side);
    assert(id_absent(ls, id));
    assert(!crate::orderbook::rests_at(ls, o.price, id));
}

} // verus!
