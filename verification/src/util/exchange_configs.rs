//! A few exchange setups: assets, accounts and markets, ready to run.
use vstd::prelude::*;
use crate::asset::{AssetIdPair, AssetPairSymbolic, NewAsset};
use crate::exchange::{Exchange, balances_zero, new_market};
use crate::util::types::AccountId;

verus! {

/// An exchange with two accounts (ids 0 and 1), the assets EUR (id 0) and
/// USD (id 1) and the EUR/USD market.
pub fn exchange_eur_usd_market() -> (r: (Exchange, AssetIdPair))
    ensures
        r.0.wf(),
        r.0@.account_names.len() == 2,
        r.0@.assets.len() == 2,
        r.0@.assets[0].name@ == "Euro"@,
        r.0@.assets[0].symbol@ == "EUR"@,
        r.0@.assets[1].name@ == "United States Dollar"@,
        r.0@.assets[1].symbol@ == "USD"@,
        r.1 == (AssetIdPair { primary: 0, secondary: 1 }),
        r.0@.markets == seq![new_market(r.1)],
        r.0@.orders.len() == 0,
        r.0@.recent.len() == 0,
        balances_zero(r.0@),
{
    let (exchange, pairs, _accounts) = market_eur_usd_accs_2();
    (exchange, pairs[0])
}

/// An exchange with two accounts (ids 0 and 1), the assets EUR (id 0) and
/// USD (id 1) and the EUR/USD market.
pub fn exchange_eur_usd_market_2_accs() -> (r: (Exchange, AssetIdPair, AccountId, AccountId))
    ensures
        r.0.wf(),
        r.0@.account_names.len() == 2,
        r.0@.assets.len() == 2,
        r.0@.assets[0].name@ == "Euro"@,
        r.0@.assets[0].symbol@ == "EUR"@,
        r.0@.assets[1].name@ == "United States Dollar"@,
        r.0@.assets[1].symbol@ == "USD"@,
        r.1 == (AssetIdPair { primary: 0, secondary: 1 }),
        r.0@.markets == seq![new_market(r.1)],
        r.0@.orders.len() == 0,
        r.0@.recent.len() == 0,
        balances_zero(r.0@),
        r.2 == 0,
        r.3 == 1,
{
    let (exchange, pairs, accounts) = market_eur_usd_accs_2();
    (exchange, pairs[0], accounts[0], accounts[1])
}

/// An exchange with the assets EUR (id 0) and USD (id 1), the EUR/USD
/// market, and no account.
pub fn market_eur_usd() -> (r: (Exchange, Vec<AssetIdPair>, Vec<AccountId>))
    ensures
        r.0.wf(),
        r.0@.account_names.len() == 0,
        r.0@.assets.len() == 2,
        r.0@.assets[0].name@ == "Euro"@,
        r.0@.assets[0].symbol@ == "EUR"@,
        r.0@.assets[1].name@ == "United States Dollar"@,
        r.0@.assets[1].symbol@ == "USD"@,
        r.1@ == seq![AssetIdPair { primary: 0, secondary: 1 }],
        r.0@.markets == seq![new_market(AssetIdPair { primary: 0, secondary: 1 })],
        r.0@.orders.len() == 0,
        r.0@.recent.len() == 0,
        balances_zero(r.0@),
        r.2@.len() == 0,
{
    let mut exchange = Exchange::new();
    let eur_id = exchange.add_asset("Euro", "EUR");
    let usd_id = exchange.add_asset("United States Dollar", "USD");
    let pair = AssetIdPair { primary: eur_id, secondary: usd_id };
    let ghost ev = exchange@;
    let _ = exchange.add_market(pair);
    assert(exchange@.markets =~= seq![new_market(pair)]);
    let mut pairs = Vec::new();
    pairs.push(pair);
    (exchange, pairs, Vec::new())
}

/// An exchange with two accounts (ids 0 and 1), the assets EUR (id 0) and
/// USD (id 1) and the EUR/USD market.
pub fn market_eur_usd_accs_2() -> (r: (Exchange, Vec<AssetIdPair>, Vec<AccountId>))
    ensures
        r.0.wf(),
        r.0@.account_names.len() == 2,
        r.0@.assets.len() == 2,
        r.0@.assets[0].name@ == "Euro"@,
        r.0@.assets[0].symbol@ == "EUR"@,
        r.0@.assets[1].name@ == "United States Dollar"@,
        r.0@.assets[1].symbol@ == "USD"@,
        r.1@ == seq![AssetIdPair { primary: 0, secondary: 1 }],
        r.0@.markets == seq![new_market(AssetIdPair { primary: 0, secondary: 1 })],
        r.0@.orders.len() == 0,
        r.0@.recent.len() == 0,
        balances_zero(r.0@),
        r.2@ == seq![0u32, 1u32],
{
    let mut exchange = Exchange::new();
    let id_1 = exchange.create_account();
    let id_2 = exchange.create_account();
    let eur_id = exchange.add_asset("Euro", "EUR");
    let usd_id = exchange.add_asset("United States Dollar", "USD");
    let pair = AssetIdPair { primary: eur_id, secondary: usd_id };
    let _ = exchange.add_market(pair);
    assert(exchange@.markets =~= seq![new_market(pair)]);
    let mut pairs = Vec::new();
    pairs.push(pair);
    let mut accounts = Vec::new();
    accounts.push(id_1);
    accounts.push(id_2);
    assert(accounts@ =~= seq![0u32, 1u32]);
    (exchange, pairs, accounts)
}

/// An exchange with five accounts (ids 0 to 4), the assets USD, EUR, JPY and
/// CHF (ids 0 to 3), and the markets USD/EUR, USD/JPY, USD/CHF, EUR/CHF and
/// EUR/JPY, primary asset first.
pub fn markets_5_accs_5() -> (r: (Exchange, Vec<AssetIdPair>, Vec<AccountId>))
    ensures
        r.0.wf(),
        r.0@.account_names.len() == 5,
        r.0@.assets.len() == 4,
        r.0@.assets[0].name@ == "United States Dollar"@,
        r.0@.assets[0].symbol@ == "USD"@,
        r.0@.assets[1].name@ == "Euro"@,
        r.0@.assets[1].symbol@ == "EUR"@,
        r.0@.assets[2].name@ == "Japanese Yen"@,
        r.0@.assets[2].symbol@ == "JPY"@,
        r.0@.assets[3].name@ == "Swiss Frank"@,
        r.0@.assets[3].symbol@ == "CHF"@,
        r.1@ == seq![
            AssetIdPair { primary: 0, secondary: 1 },
            AssetIdPair { primary: 0, secondary: 2 },
            AssetIdPair { primary: 0, secondary: 3 },
            AssetIdPair { primary: 1, secondary: 3 },
            AssetIdPair { primary: 1, secondary: 2 },
        ],
        r.0@.markets.len() == 5,
        forall|i: int| 0 <= i < 5 ==> r.0@.markets[i] == new_market(#[trigger] r.1@[i]),
        r.0@.orders.len() == 0,
        r.0@.recent.len() == 0,
        balances_zero(r.0@),
        r.2@ == seq![0u32, 1u32, 2u32, 3u32, 4u32],
{
    let mut exchange = Exchange::new();
    let mut accounts: Vec<AccountId> = Vec::with_capacity(5);
    let mut i: usize = 0;
    while i < 5
        invariant
            i <= 5,
            exchange.wf(),
            exchange@.account_names.len() == i,
            exchange@.assets.len() == 0,
            exchange@.markets.len() == 0,
            exchange@.orders.len() == 0,
            exchange@.recent.len() == 0,
            balances_zero(exchange@),
            accounts@ == Seq::new(i as nat, |j: int| j as u32),
        decreases 5 - i,
    {
        let new_acc_id = exchange.create_account();
        accounts.push(new_acc_id);
        i = i + 1;
        assert(accounts@ =~= Seq::new(i as nat, |j: int| j as u32));
    }
    assert(accounts@ =~= seq![0u32, 1u32, 2u32, 3u32, 4u32]);
    let usd_id = exchange.add_asset("United States Dollar", "USD");
    let eur_id = exchange.add_asset("Euro", "EUR");
    let jpy_id = exchange.add_asset("Japanese Yen", "JPY");
    let chf_id = exchange.add_asset("Swiss Frank", "CHF");
    assert(exchange@.assets[0].symbol@ == "USD"@);
    assert(exchange@.assets[1].symbol@ == "EUR"@);
    assert(exchange@.assets[2].symbol@ == "JPY"@);
    let pairs: Vec<AssetIdPair> = vec![
        AssetIdPair { primary: usd_id, secondary: eur_id },
        AssetIdPair { primary: usd_id, secondary: jpy_id },
        AssetIdPair { primary: usd_id, secondary: chf_id },
        AssetIdPair { primary: eur_id, secondary: chf_id },
        AssetIdPair { primary: eur_id, secondary: jpy_id },
    ];
    let ghost assets = exchange@.assets;
    let mut k: usize = 0;
    while k < pairs.len()
        invariant
            k <= pairs@.len(),
            pairs@.len() == 5,
            pairs@ == seq![
                AssetIdPair { primary: 0, secondary: 1 },
                AssetIdPair { primary: 0, secondary: 2 },
                AssetIdPair { primary: 0, secondary: 3 },
                AssetIdPair { primary: 1, secondary: 3 },
                AssetIdPair { primary: 1, secondary: 2 },
            ],
            exchange.wf(),
            exchange@.account_names.len() == 5,
            exchange@.assets == assets,
            assets.len() == 4,
            exchange@.orders.len() == 0,
            exchange@.recent.len() == 0,
            balances_zero(exchange@),
            exchange@.markets.len() == k,
            forall|j: int| 0 <= j < k ==> exchange@.markets[j] == new_market(#[trigger] pairs@[j]),
        decreases pairs@.len() - k,
    {
        let pair = pairs[k];
        let ghost before = exchange@.markets;
        proof {
            if crate::exchange::market_index(before, pair) is Some {
                let j = choose|j: int| 0 <= j < before.len() && before[j].asset_pair == pair;
                assert(before[j] == new_market(pairs@[j]));
            }
        }
        let _ = exchange.add_market(pair);
        assert(exchange@.markets == before.push(new_market(pair)));
        k = k + 1;
        assert forall|j: int| 0 <= j < k implies exchange@.markets[j] == new_market(#[trigger] pairs@[j]) by {
            if j < k - 1 {
                assert(exchange@.markets[j] == before[j]);
            }
        }
    }
    (exchange, pairs, accounts)
}

/// What `str::to_uppercase` of std makes of `s`.
pub uninterp spec fn spec_to_uppercase(s: Seq<char>) -> Seq<char>;

/// `str::to_uppercase` of std: `s` with every character mapped to its
/// uppercase form by the Unicode tables of std.
#[verifier::external_body]
fn to_uppercase(s: &str) -> (r: String)
    ensures
        r@ == spec_to_uppercase(s@),
{
    s.to_uppercase()
}

/// The views of strings.
pub open spec fn string_views(v: Seq<String>) -> Seq<Seq<char>> {
    v.map_values(|s: String| s@)
}

/// The first index at which `syms` holds `target`.
#[verifier::opaque]
pub open spec fn first_symbol(syms: Seq<Seq<char>>, target: Seq<char>) -> Option<int> {
    if exists|j: int| 0 <= j < syms.len() && syms[j] == target {
        Some(choose|j: int| 0 <= j < syms.len() && syms[j] == target && forall|j2: int| 0 <= j2 < j ==> syms[j2] != target)
    } else {
        None
    }
}

/// The uppercase symbols of `assets`, in order.
pub open spec fn upper_symbols(assets: Seq<NewAsset>) -> Seq<Seq<char>> {
    Seq::new(assets.len(), |i: int| spec_to_uppercase(assets[i].symbol@))
}

/// The pairs of ids of `markets`, each side being the first asset whose
/// uppercase symbol is the uppercase symbol asked for; none when a symbol is
/// missing or a pair comes twice.
pub open spec fn spec_resolve(syms: Seq<Seq<char>>, markets: Seq<AssetPairSymbolic>) -> Option<Seq<AssetIdPair>>
    decreases markets.len(),
{
    if markets.len() == 0 {
        Some(seq![])
    } else {
        match spec_resolve(syms, markets.drop_last()) {
            None => None,
            Some(prev) => {
                let m = markets.last();
                match (first_symbol(syms, spec_to_uppercase(m.primary@)), first_symbol(syms, spec_to_uppercase(m.secondary@))) {
                    (Some(p), Some(q)) => {
                        let pair = AssetIdPair { primary: p as u32, secondary: q as u32 };
                        if prev.contains(pair) { None } else { Some(prev.push(pair)) }
                    },
                    _ => None,
                }
            },
        }
    }
}

proof fn lemma_first_symbol(syms: Seq<Seq<char>>, target: Seq<char>, i: int)
    requires
        0 <= i < syms.len(),
        syms[i] == target,
        forall|j2: int| 0 <= j2 < i ==> syms[j2] != target,
    ensures
        first_symbol(syms, target) == Some(i),
{
    reveal(first_symbol);
    lemma_first_exists(syms, target, i);
    let c = choose|j: int| 0 <= j < syms.len() && syms[j] == target && forall|j2: int| 0 <= j2 < j ==> syms[j2] != target;
    if c < i {
        assert(syms[c] != target);
    } else if i < c {
        assert(syms[i] != target);
    }
}

proof fn lemma_first_exists(syms: Seq<Seq<char>>, target: Seq<char>, j: int)
    requires
        0 <= j < syms.len(),
        syms[j] == target,
    ensures
        exists|k: int| 0 <= k < syms.len() && syms[k] == target && forall|j2: int| 0 <= j2 < k ==> syms[j2] != target,
    decreases j,
{
    if exists|j2: int| 0 <= j2 < j && syms[j2] == target {
        let j2 = choose|j2: int| 0 <= j2 < j && syms[j2] == target;
        lemma_first_exists(syms, target, j2);
    } else {
        assert(forall|j2: int| 0 <= j2 < j ==> syms[j2] != target);
    }
}

proof fn lemma_first_symbol_bounds(syms: Seq<Seq<char>>, target: Seq<char>)
    ensures
        first_symbol(syms, target) matches Some(i) ==> 0 <= i < syms.len(),
{
    reveal(first_symbol);
    if exists|j: int| 0 <= j < syms.len() && syms[j] == target {
        let j = choose|j: int| 0 <= j < syms.len() && syms[j] == target;
        lemma_first_exists(syms, target, j);
    }
}

/// Once a prefix of the markets cannot be resolved, no longer prefix can.
proof fn lemma_resolve_prefix_none(syms: Seq<Seq<char>>, markets: Seq<AssetPairSymbolic>, k: int)
    requires
        0 <= k <= markets.len(),
        spec_resolve(syms, markets.take(k)) is None,
    ensures
        spec_resolve(syms, markets) is None,
    decreases markets.len() - k,
{
    if k == markets.len() {
        assert(markets.take(k) =~= markets);
    } else {
        assert(markets.take(k + 1).drop_last() =~= markets.take(k));
        lemma_resolve_prefix_none(syms, markets, k + 1);
    }
}

fn find_symbol(symbols: &Vec<String>, target: &String) -> (r: Option<usize>)
    ensures
        match r {
            Some(i) => first_symbol(string_views(symbols@), target@) == Some(i as int),
            None => first_symbol(string_views(symbols@), target@) is None,
        },
{
    let ghost syms = string_views(symbols@);
    let n = symbols.len();
    let mut i: usize = 0;
    while i < n
        invariant
            i <= n,
            n == symbols@.len(),
            syms == string_views(symbols@),
            forall|j: int| 0 <= j < i ==> syms[j] != target@,
        decreases n - i,
    {
        if symbols[i] == *target {
            proof { lemma_first_symbol(syms, target@, i as int); }
            return Some(i);
        }
        i = i + 1;
    }
    proof { reveal(first_symbol); }
    None
}

/// The pairs of ids of `markets` given the uppercase symbols of the assets
/// (see `spec_resolve`).
fn resolve_pairs(symbols: &Vec<String>, markets: &Vec<AssetPairSymbolic>) -> (r: Option<Vec<AssetIdPair>>)
    requires
        symbols@.len() <= u32::MAX + 1,
    ensures
        match r {
            Some(v) => spec_resolve(string_views(symbols@), markets@) == Some(v@),
            None => spec_resolve(string_views(symbols@), markets@) is None,
        },
{
    let ghost syms = string_views(symbols@);
    let n = markets.len();
    let mut pairs: Vec<AssetIdPair> = Vec::with_capacity(n);
    let mut k: usize = 0;
    assert(markets@.take(0) =~= Seq::<AssetPairSymbolic>::empty());
    while k < n
        invariant
            k <= n,
            n == markets@.len(),
            syms == string_views(symbols@),
            symbols@.len() <= u32::MAX + 1,
            spec_resolve(syms, markets@.take(k as int)) == Some(pairs@),
        decreases n - k,
    {
        assert(markets@.take(k + 1).drop_last() =~= markets@.take(k as int));
        assert(markets@.take(k + 1).last() == markets@[k as int]);
        let market = &markets[k];
        let primary = to_uppercase(market.primary.as_str());
        let secondary = to_uppercase(market.secondary.as_str());
        let p = match find_symbol(symbols, &primary) {
            None => {
                proof { lemma_resolve_prefix_none(syms, markets@, k + 1); }
                return None;
            },
            Some(p) => p,
        };
        let q = match find_symbol(symbols, &secondary) {
            None => {
                proof { lemma_resolve_prefix_none(syms, markets@, k + 1); }
                return None;
            },
            Some(q) => q,
        };
        proof {
            lemma_first_symbol_bounds(syms, primary@);
            lemma_first_symbol_bounds(syms, secondary@);
        }
        let pair = AssetIdPair { primary: p as u32, secondary: q as u32 };
        if crate::market_handler::pairs_contain(&pairs, &pair) {
            proof { lemma_resolve_prefix_none(syms, markets@, k + 1); }
            return None;
        }
        pairs.push(pair);
        k = k + 1;
    }
    assert(markets@.take(n as int) =~= markets@);
    Some(pairs)
}

/// The exchange that `custom` sets up, when `spec_resolve` finds the pairs.
pub open spec fn custom_result(
    create_assets: Seq<NewAsset>,
    num_accounts: usize,
    pairs: Seq<AssetIdPair>,
    r: (Exchange, Vec<AssetIdPair>, Vec<AccountId>),
) -> bool {
    &&& r.0.wf()
    &&& r.0@.account_names.len() == num_accounts
    &&& r.0@.assets.len() == create_assets.len()
    &&& forall|i: int| 0 <= i < create_assets.len() ==> {
        &&& (#[trigger] r.0@.assets[i]).name@ == create_assets[i].name@
        &&& r.0@.assets[i].symbol@ == spec_to_uppercase(create_assets[i].symbol@)
    }
    &&& r.1@ == pairs
    &&& r.0@.markets.len() == pairs.len()
    &&& forall|j: int| 0 <= j < pairs.len() ==> r.0@.markets[j] == new_market(#[trigger] pairs[j])
    &&& r.0@.orders.len() == 0
    &&& r.0@.recent.len() == 0
    &&& balances_zero(r.0@)
    &&& r.2@ == Seq::new(num_accounts as nat, |j: int| j as u32)
}

/// Sets up an exchange with `num_accounts` accounts (ids 0 to
/// `num_accounts - 1`), the assets of `create_assets` with uppercase symbols,
/// and the markets of `create_markets`, found by uppercase symbol. Every
/// symbol of a market must be listed, and no market may come twice.
pub fn custom(
    create_assets: Vec<NewAsset>,
    create_markets: Vec<AssetPairSymbolic>,
    num_accounts: usize,
) -> (r: (Exchange, Vec<AssetIdPair>, Vec<AccountId>))
    requires
        num_accounts <= u32::MAX,
        create_assets@.len() < u32::MAX,
        spec_resolve(upper_symbols(create_assets@), create_markets@) is Some,
    ensures
        custom_result(create_assets@, num_accounts, spec_resolve(upper_symbols(create_assets@), create_markets@)->Some_0, r),
{
    let mut exchange = Exchange::new();
    let mut accounts: Vec<AccountId> = Vec::with_capacity(num_accounts);
    let mut i: usize = 0;
    while i < num_accounts
        invariant
            i <= num_accounts <= u32::MAX,
            exchange.wf(),
            exchange@.account_names.len() == i,
            exchange@.assets.len() == 0,
            exchange@.markets.len() == 0,
            exchange@.orders.len() == 0,
            exchange@.recent.len() == 0,
            balances_zero(exchange@),
            accounts@ == Seq::new(i as nat, |j: int| j as u32),
        decreases num_accounts - i,
    {
        let new_acc_id = exchange.create_account();
        accounts.push(new_acc_id);
        i = i + 1;
        assert(accounts@ =~= Seq::new(i as nat, |j: int| j as u32));
    }
    let n = create_assets.len();
    let mut symbols: Vec<String> = Vec::with_capacity(n);
    let mut a: usize = 0;
    while a < n
        invariant
            a <= n,
            n == create_assets@.len(),
            n < u32::MAX,
            exchange.wf(),
            exchange@.account_names.len() == num_accounts,
            exchange@.assets.len() == a,
            exchange@.markets.len() == 0,
            exchange@.orders.len() == 0,
            exchange@.recent.len() == 0,
            balances_zero(exchange@),
            string_views(symbols@) == upper_symbols(create_assets@).take(a as int),
            forall|j: int| 0 <= j < a ==> {
                &&& (#[trigger] exchange@.assets[j]).name@ == create_assets@[j].name@
                &&& exchange@.assets[j].symbol@ == spec_to_uppercase(create_assets@[j].symbol@)
            },
        decreases n - a,
    {
        let asset = &create_assets[a];
        let symbol = to_uppercase(asset.symbol.as_str());
        let ghost before = exchange@.assets;
        let ghost before_syms = symbols@;
        let _ = exchange.add_asset(asset.name.as_str(), symbol.as_str());
        symbols.push(symbol);
        a = a + 1;
        assert(string_views(symbols@) =~= string_views(before_syms).push(symbol@));
        assert(string_views(symbols@) =~= upper_symbols(create_assets@).take(a as int));
        assert forall|j: int| 0 <= j < a implies {
            &&& (#[trigger] exchange@.assets[j]).name@ == create_assets@[j].name@
            &&& exchange@.assets[j].symbol@ == spec_to_uppercase(create_assets@[j].symbol@)
        } by {
            if j < a - 1 {
                assert(exchange@.assets[j] == before[j]);
            }
        }
    }
    assert(upper_symbols(create_assets@).take(n as int) =~= upper_symbols(create_assets@));
    let pairs = match resolve_pairs(&symbols, &create_markets) {
        None => {
            proof { assert(false); }
            return (exchange, Vec::new(), accounts);
        },
        Some(pairs) => pairs,
    };
    proof { lemma_resolved_pairs(upper_symbols(create_assets@), create_markets@); }
    let ghost assets = exchange@.assets;
    let mut k: usize = 0;
    while k < pairs.len()
        invariant
            k <= pairs@.len(),
            pairs@.len() == create_markets@.len(),
            forall|j: int| 0 <= j < pairs@.len() ==> (#[trigger] pairs@[j]).primary < n && pairs@[j].secondary < n,
            forall|j1: int, j2: int| 0 <= j1 < j2 < pairs@.len() ==> pairs@[j1] != pairs@[j2],
            exchange.wf(),
            exchange@.account_names.len() == num_accounts,
            exchange@.assets == assets,
            assets.len() == n,
            exchange@.orders.len() == 0,
            exchange@.recent.len() == 0,
            balances_zero(exchange@),
            exchange@.markets.len() == k,
            forall|j: int| 0 <= j < k ==> exchange@.markets[j] == new_market(#[trigger] pairs@[j]),
        decreases pairs@.len() - k,
    {
        let pair = pairs[k];
        let ghost before = exchange@.markets;
        proof {
            if crate::exchange::market_index(before, pair) is Some {
                let j = choose|j: int| 0 <= j < before.len() && before[j].asset_pair == pair;
                assert(before[j] == new_market(pairs@[j]));
            }
        }
        let _ = exchange.add_market(pair);
        assert(exchange@.markets == before.push(new_market(pair)));
        k = k + 1;
        assert forall|j: int| 0 <= j < k implies exchange@.markets[j] == new_market(#[trigger] pairs@[j]) by {
            if j < k - 1 {
                assert(exchange@.markets[j] == before[j]);
            }
        }
    }
    (exchange, pairs, accounts)
}

/// Resolved pairs have one entry per market, name listed assets, and are
/// distinct.
proof fn lemma_resolved_pairs(syms: Seq<Seq<char>>, markets: Seq<AssetPairSymbolic>)
    requires
        spec_resolve(syms, markets) is Some,
    ensures
        spec_resolve(syms, markets)->Some_0.len() == markets.len(),
        forall|j: int| 0 <= j < markets.len() ==> (#[trigger] spec_resolve(syms, markets)->Some_0[j]).primary < syms.len()
            && spec_resolve(syms, markets)->Some_0[j].secondary < syms.len(),
        forall|j1: int, j2: int| 0 <= j1 < j2 < markets.len() ==> spec_resolve(syms, markets)->Some_0[j1] != spec_resolve(syms, markets)->Some_0[j2],
    decreases markets.len(),
{
    if markets.len() > 0 {
        let prev = spec_resolve(syms, markets.drop_last())->Some_0;
        lemma_resolved_pairs(syms, markets.drop_last());
        let m = markets.last();
        let tp = spec_to_uppercase(m.primary@);
        let ts = spec_to_uppercase(m.secondary@);
        let p = first_symbol(syms, tp)->Some_0;
        let q = first_symbol(syms, ts)->Some_0;
        lemma_first_symbol_bounds(syms, tp);
        lemma_first_symbol_bounds(syms, ts);
        assert(0 <= p < syms.len());
        assert(0 <= q < syms.len());
        let pair = AssetIdPair { primary: p as u32, secondary: q as u32 };
        assert(!prev.contains(pair));
        let all = prev.push(pair);
        assert(spec_resolve(syms, markets)->Some_0 == all);
        assert forall|j1: int, j2: int| 0 <= j1 < j2 < markets.len() implies all[j1] != all[j2] by {
            if j2 == markets.len() - 1 {
                assert(all[j1] == prev[j1]);
            }
        }
    }
}

/// The uppercase symbols of `assets`.
fn uppercase_symbols(assets: &Vec<NewAsset>) -> (r: Vec<String>)
    ensures
        r@.len() == assets@.len(),
        string_views(r@) == upper_symbols(assets@),
{
    let n = assets.len();
    let mut symbols: Vec<String> = Vec::with_capacity(n);
    let mut a: usize = 0;
    while a < n
        invariant
            a <= n,
            n == assets@.len(),
            symbols@.len() == a,
            string_views(symbols@) == upper_symbols(assets@).take(a as int),
        decreases n - a,
    {
        let ghost before = symbols@;
        let symbol = to_uppercase(assets[a].symbol.as_str());
        symbols.push(symbol);
        a = a + 1;
        assert(string_views(symbols@) =~= string_views(before).push(symbol@));
        assert(string_views(symbols@) =~= upper_symbols(assets@).take(a as int));
    }
    assert(upper_symbols(assets@).take(n as int) =~= upper_symbols(assets@));
    symbols
}

/// Sets up an exchange as `custom` does when every symbol of a market is
/// listed and no market comes twice; none otherwise.
pub fn custom_checked(
    create_assets: Vec<NewAsset>,
    create_markets: Vec<AssetPairSymbolic>,
    num_accounts: usize,
) -> (r: Option<(Exchange, Vec<AssetIdPair>, Vec<AccountId>)>)
    requires
        num_accounts <= u32::MAX,
        create_assets@.len() < u32::MAX,
    ensures
        match spec_resolve(upper_symbols(create_assets@), create_markets@) {
            None => r is None,
            Some(pairs) => r is Some && custom_result(create_assets@, num_accounts, pairs, r->Some_0),
        },
{
    let symbols = uppercase_symbols(&create_assets);
    match resolve_pairs(&symbols, &create_markets) {
        None => None,
        Some(_) => Some(custom(create_assets, create_markets, num_accounts)),
    }
}

} // verus!
