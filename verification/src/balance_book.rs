use vstd::prelude::*;
use crate::util::types::{AccountId, AssetId, Balance};

verus! {

/// The balance of every account in every asset.
#[derive(Debug, Clone, Default, PartialEq)]
pub struct BalanceBook {
    accounts: AccountId,
    assets: AssetId,
    /// `balances[asset][account]`.
    balances: Vec<Vec<Balance>>,
}

/// `x + y` wrapped to 64 bits, as the fixed-point addition of a release build.
pub open spec fn wrapping_add_balance(x: Balance, y: Balance) -> Balance {
    vstd::wrapping::i64_specs::wrapping_add(x, y)
}

/// `x - y` wrapped to 64 bits, as the fixed-point subtraction of a release build.
pub open spec fn wrapping_sub_balance(x: Balance, y: Balance) -> Balance {
    vstd::wrapping::i64_specs::wrapping_sub(x, y)
}

/// The balances `b` (indexed by asset, then account) after `amount` of
/// `asset` moves from account `from` to account `to`.
pub open spec fn spec_transfer(b: Seq<Seq<Balance>>, asset: AssetId, from: AccountId, to: AccountId, amount: Balance) -> Seq<Seq<Balance>> {
    let row = b[asset as int];
    let row1 = row.update(from as int, wrapping_sub_balance(row[from as int], amount));
    let row2 = row1.update(to as int, wrapping_add_balance(row1[to as int], amount));
    b.update(asset as int, row2)
}

/// Where a balance book of `accounts` accounts and `assets` assets finds the
/// balance asked for with `account` and `asset`. Its balances lie in one
/// run, asset after asset, one balance per account each, and the one asked
/// for sits at `accounts * asset + account` in that run: the place as (asset,
/// account), or none when it is past the end. The account is not checked
/// against the number of accounts, so a larger one reaches a balance of a
/// later asset.
pub open spec fn flat_position(accounts: nat, assets: nat, account: AccountId, asset: AssetId) -> Option<(int, int)> {
    let idx = accounts * asset + account;
    if idx < accounts * assets {
        Some((idx / (accounts as int), idx % (accounts as int)))
    } else {
        None
    }
}

/// A place found by `flat_position` is a place of the book, and an existing
/// account with an existing asset finds its own balance.
pub proof fn lemma_flat_position(accounts: nat, assets: nat, account: AccountId, asset: AssetId)
    ensures
        flat_position(accounts, assets, account, asset) matches Some((a, i)) ==> 0 <= a < assets && 0 <= i < accounts,
        account < accounts ==> (flat_position(accounts, assets, account, asset) is Some <==> asset < assets),
        account < accounts && asset < assets ==> flat_position(accounts, assets, account, asset) == Some((asset as int, account as int)),
{
    let n = accounts as int;
    let m = assets as int;
    let idx = n * asset + account;
    if idx < n * m {
        assert(n > 0) by (nonlinear_arith)
            requires idx < n * m, idx >= 0, m >= 0, n >= 0;
        vstd::arithmetic::div_mod::lemma_fundamental_div_mod(idx, n);
        assert(idx / n < m) by (nonlinear_arith)
            requires idx < n * m, idx == n * (idx / n) + idx % n, 0 <= idx % n < n, n > 0;
        assert(idx / n >= 0) by (nonlinear_arith)
            requires idx >= 0, n > 0;
    }
    if account < accounts {
        if asset < assets {
            assert(idx < n * m) by (nonlinear_arith)
                requires idx == n * asset + account, account < n, asset < m, asset >= 0;
            vstd::arithmetic::div_mod::lemma_fundamental_div_mod_converse(idx, n, asset as int, account as int);
        } else {
            assert(idx >= n * m) by (nonlinear_arith)
                requires idx == n * asset + account, account >= 0, asset >= m, n >= 0;
        }
    }
}

impl BalanceBook {
    pub closed spec fn spec_accounts(&self) -> nat {
        self.accounts as nat
    }

    pub closed spec fn spec_assets(&self) -> nat {
        self.assets as nat
    }

    /// The balances, indexed by asset, then account.
    pub closed spec fn spec_balances(&self) -> Seq<Seq<Balance>> {
        self.balances@.map_values(|v: Vec<Balance>| v@)
    }

    /// There is one row per asset, with one balance per account.
    pub open spec fn wf(&self) -> bool {
        &&& self.spec_balances().len() == self.spec_assets()
        &&& forall|a: int| 0 <= a < self.spec_assets() ==> #[trigger] self.spec_balances()[a].len() == self.spec_accounts()
    }

    /// The balance of `account` in `asset`.
    pub open spec fn spec_balance(&self, account: AccountId, asset: AssetId) -> Balance {
        self.spec_balances()[asset as int][account as int]
    }

    pub open spec fn valid(&self, account: AccountId, asset: AssetId) -> bool {
        account < self.spec_accounts() && asset < self.spec_assets()
    }

    /// The number of accounts.
    pub fn num_accounts(&self) -> (r: AccountId)
        ensures
            r == self.spec_accounts(),
    {
        self.accounts
    }

    /// The number of assets.
    pub fn num_assets(&self) -> (r: AssetId)
        ensures
            r == self.spec_assets(),
    {
        self.assets
    }

    pub fn new() -> (r: BalanceBook)
        ensures
            r.wf(),
            r.spec_accounts() == 0,
            r.spec_assets() == 0,
    {
        let r = BalanceBook { accounts: 0, assets: 0, balances: Vec::new() };
        assert(r.spec_balances() =~= Seq::<Seq<Balance>>::empty());
        r
    }

    /// The balance at the place of `account` in `asset` (see
    /// `flat_position`); none when that place is past the end.
    pub open spec fn spec_get(&self, account: AccountId, asset: AssetId) -> Option<Balance> {
        match flat_position(self.spec_accounts(), self.spec_assets(), account, asset) {
            Some((a, i)) => Some(self.spec_balances()[a][i]),
            None => None,
        }
    }

    /// The place of `account` in `asset`, as `(asset, account)` indices.
    fn position(&self, account_id: AccountId, asset_id: AssetId) -> (r: Option<(usize, usize)>)
        requires
            self.wf(),
        ensures
            match flat_position(self.spec_accounts(), self.spec_assets(), account_id, asset_id) {
                Some((a, i)) => r == Some((a as usize, i as usize)) && 0 <= a < self.spec_assets() && 0 <= i < self.spec_accounts(),
                None => r is None,
            },
    {
        proof { lemma_flat_position(self.spec_accounts(), self.spec_assets(), account_id, asset_id); }
        let n = self.accounts as u64;
        let asset = asset_id as u64;
        let assets = self.assets as u64;
        assert(n * asset <= 0xFFFF_FFFE_0000_0001) by (nonlinear_arith)
            requires n <= 0xFFFF_FFFF, asset <= 0xFFFF_FFFF;
        assert(n * assets <= 0xFFFF_FFFE_0000_0001) by (nonlinear_arith)
            requires n <= 0xFFFF_FFFF, assets <= 0xFFFF_FFFF;
        let idx: u64 = n * asset + account_id as u64;
        let len: u64 = n * assets;
        if idx >= len {
            return None;
        }
        let a = (idx / n) as usize;
        let i = (idx % n) as usize;
        Some((a, i))
    }

    /// The balance at the place of `account` in `asset` (see
    /// `flat_position`): the balance of the account in the asset when both
    /// exist; none when the place is past the end.
    pub fn get(&self, account_id: AccountId, asset_id: AssetId) -> (r: Option<Balance>)
        requires
            self.wf(),
        ensures
            r == self.spec_get(account_id, asset_id),
            self.valid(account_id, asset_id) ==> r == Some(self.spec_balance(account_id, asset_id)),
            account_id < self.spec_accounts() && !self.valid(account_id, asset_id) ==> r is None,
    {
        proof { lemma_flat_position(self.spec_accounts(), self.spec_assets(), account_id, asset_id); }
        match self.position(account_id, asset_id) {
            None => None,
            Some((a, i)) => {
                let row = &self.balances[a];
                assert(self.spec_balances()[a as int] == row@);
                Some(row[i])
            },
        }
    }

    /// The balance at the place of `account` in `asset` (see
    /// `flat_position`), to change in place; none when that place is past
    /// the end.
    pub fn get_mut(&mut self, account_id: AccountId, asset_id: AssetId) -> (r: Option<&mut Balance>)
        requires
            old(self).wf(),
        ensures
            r is Some <==> flat_position(old(self).spec_accounts(), old(self).spec_assets(), account_id, asset_id) is Some,
            final(self).spec_accounts() == old(self).spec_accounts(),
            final(self).spec_assets() == old(self).spec_assets(),
            match r {
                Some(b) => {
                    let (a, i) = flat_position(old(self).spec_accounts(), old(self).spec_assets(), account_id, asset_id)->Some_0;
                    &&& 0 <= a < old(self).spec_assets()
                    &&& 0 <= i < old(self).spec_accounts()
                    &&& *b == old(self).spec_balances()[a][i]
                    &&& final(self).spec_balances() == old(self).spec_balances().update(
                        a,
                        old(self).spec_balances()[a].update(i, *final(b)),
                    )
                },
                None => final(self).spec_balances() == old(self).spec_balances(),
            },
    {
        match self.position(account_id, asset_id) {
            None => None,
            Some((a, i)) => {
                assert(self.spec_balances()[a as int].len() == self.spec_accounts());
                assert(self.balances@[a as int]@ == self.spec_balances()[a as int]);
                let row = &mut self.balances[a];
                Some(&mut row[i])
            },
        }
    }

    /// Adds an asset in which every account holds zero; returns its id.
    pub fn add_asset(&mut self) -> (r: AssetId)
        requires
            old(self).wf(),
            old(self).spec_assets() < u32::MAX,
        ensures
            final(self).wf(),
            r == old(self).spec_assets(),
            final(self).spec_assets() == old(self).spec_assets() + 1,
            final(self).spec_accounts() == old(self).spec_accounts(),
            final(self).spec_balances() == old(self).spec_balances().push(Seq::new(old(self).spec_accounts(), |i: int| 0i64)),
    {
        let mut row: Vec<Balance> = Vec::new();
        let mut i: u32 = 0;
        while i < self.accounts
            invariant
                i <= self.accounts,
                row@ == Seq::new(i as nat, |j: int| 0i64),
            decreases self.accounts - i,
        {
            row.push(0);
            i = i + 1;
            assert(row@ =~= Seq::new(i as nat, |j: int| 0i64));
        }
        let ghost old_b = self.spec_balances();
        self.balances.push(row);
        self.assets = self.assets + 1;
        assert(self.spec_balances() =~= old_b.push(Seq::new(self.accounts as nat, |j: int| 0i64)));
        self.assets - 1
    }

    /// Adds an account holding zero of every asset; returns its id.
    pub fn add_account(&mut self) -> (r: AccountId)
        requires
            old(self).wf(),
            old(self).spec_accounts() < u32::MAX,
        ensures
            final(self).wf(),
            r == old(self).spec_accounts(),
            final(self).spec_accounts() == old(self).spec_accounts() + 1,
            final(self).spec_assets() == old(self).spec_assets(),
            final(self).spec_balances() == Seq::new(old(self).spec_assets(), |a: int| old(self).spec_balances()[a].push(0i64)),
    {
        let ghost old_b = self.spec_balances();
        let n = self.balances.len();
        assert forall|j: int| 0 <= j < n implies #[trigger] self.balances@[j]@ == old_b[j] by {}
        let mut a: usize = 0;
        while a < n
            invariant
                a <= n,
                n == self.balances@.len(),
                n == old_b.len(),
                forall|j: int| 0 <= j < a ==> #[trigger] self.balances@[j]@ == old_b[j].push(0i64),
                forall|j: int| a <= j < n ==> #[trigger] self.balances@[j]@ == old_b[j],
                self.accounts == old(self).accounts,
                self.assets == old(self).assets,
                old_b == old(self).spec_balances(),
            decreases n - a,
        {
            let row = &mut self.balances[a];
            row.push(0);
            a = a + 1;
        }
        self.accounts = self.accounts + 1;
        assert(self.spec_balances() =~= Seq::new(old_b.len(), |j: int| old_b[j].push(0i64)));
        self.accounts - 1
    }

    /// Moves `amount` of `asset` from account `from` to account `to`, with
    /// wrapping arithmetic.
    pub fn transfer(&mut self, asset: AssetId, from: AccountId, to: AccountId, amount: Balance)
        requires
            old(self).wf(),
            old(self).valid(from, asset),
            old(self).valid(to, asset),
        ensures
            final(self).wf(),
            final(self).spec_accounts() == old(self).spec_accounts(),
            final(self).spec_assets() == old(self).spec_assets(),
            final(self).spec_balances() == spec_transfer(old(self).spec_balances(), asset, from, to, amount),
    {
        let ghost old_b = self.spec_balances();
        assert(old_b[asset as int] == self.balances@[asset as int]@);
        assert(old_b[asset as int].len() == self.accounts);
        let row = &mut self.balances[asset as usize];
        let x = row[from as usize];
        row.set(from as usize, x.wrapping_sub(amount));
        let y = row[to as usize];
        row.set(to as usize, y.wrapping_add(amount));
        assert(self.spec_balances() =~= spec_transfer(old_b, asset, from, to, amount));
    }
}

} // verus!
