use vstd::prelude::*;
use std::collections::VecDeque;
use crate::balance_book::{BalanceBook, wrapping_add_balance};
use crate::util::types::{AccountId, AssetId, Balance};

verus! {

/// The commands a balance manager accepts.
#[derive(Debug, Clone, Copy, PartialEq, Eq, Structural)]
pub enum Command {
    AddAccount(),
    AddAsset(),
    BalanceChange(AccountId, AssetId, Balance),
    GetBalance(AccountId, AssetId),
}

/// The result of each balance manager command.
#[derive(Debug, Clone, Copy, PartialEq, Eq)]
pub enum CommandResult {
    AddAccount(AccountId),
    AddAsset(AssetId),
    BalanceChange(Result<(), ()>),
    GetBalance(Option<Balance>),
}

/// A buffer of balance manager commands.
pub type CommandBuffer = VecDeque<Command>;

/// A buffer of results from a CommandBuffer.
pub type CommandResultBuffer = VecDeque<CommandResult>;

/// Whether the balance book can take `command` without running out of ids.
pub open spec fn command_fits(command: Command, book: BalanceBook) -> bool {
    match command {
        Command::AddAccount() => book.spec_accounts() < u32::MAX,
        Command::AddAsset() => book.spec_assets() < u32::MAX,
        _ => true,
    }
}

/// Runs `command` on `balance_book` and appends its result to `response_buf`:
/// a new account or asset gets the next id; a balance change is applied
/// (with wrapping arithmetic) when the account and asset exist.
pub fn handle_command(command: Command, response_buf: &mut CommandResultBuffer, balance_book: &mut BalanceBook)
    requires
        old(balance_book).wf(),
        command_fits(command, *old(balance_book)),
    ensures
        final(balance_book).wf(),
        final(response_buf)@.len() == old(response_buf)@.len() + 1,
        final(response_buf)@.drop_last() == old(response_buf)@,
        match command {
            Command::AddAccount() => {
                &&& final(response_buf)@.last() == CommandResult::AddAccount(old(balance_book).spec_accounts() as AccountId)
                &&& final(balance_book).spec_accounts() == old(balance_book).spec_accounts() + 1
                &&& final(balance_book).spec_assets() == old(balance_book).spec_assets()
                &&& final(balance_book).spec_balances() == Seq::new(
                    old(balance_book).spec_assets(),
                    |a: int| old(balance_book).spec_balances()[a].push(0i64),
                )
            },
            Command::AddAsset() => {
                &&& final(response_buf)@.last() == CommandResult::AddAsset(old(balance_book).spec_assets() as AssetId)
                &&& final(balance_book).spec_assets() == old(balance_book).spec_assets() + 1
                &&& final(balance_book).spec_accounts() == old(balance_book).spec_accounts()
                &&& final(balance_book).spec_balances() == old(balance_book).spec_balances().push(
                    Seq::new(old(balance_book).spec_accounts(), |i: int| 0i64),
                )
            },
            Command::BalanceChange(account_id, asset_id, change) => {
                let ok = old(balance_book).valid(account_id, asset_id);
                &&& final(response_buf)@.last() == CommandResult::BalanceChange(if ok { Ok(()) } else { Err(()) })
                &&& final(balance_book).spec_accounts() == old(balance_book).spec_accounts()
                &&& final(balance_book).spec_assets() == old(balance_book).spec_assets()
                &&& final(balance_book).spec_balances() == if ok {
                    old(balance_book).spec_balances().update(
                        asset_id as int,
                        old(balance_book).spec_balances()[asset_id as int].update(
                            account_id as int,
                            wrapping_add_balance(old(balance_book).spec_balance(account_id, asset_id), change),
                        ),
                    )
                } else {
                    old(balance_book).spec_balances()
                }
            },
            Command::GetBalance(account_id, asset_id) => {
                &&& final(response_buf)@.last() == CommandResult::GetBalance(
                    if old(balance_book).valid(account_id, asset_id) {
                        Some(old(balance_book).spec_balance(account_id, asset_id))
                    } else {
                        None
                    },
                )
                &&& final(balance_book).spec_accounts() == old(balance_book).spec_accounts()
                &&& final(balance_book).spec_assets() == old(balance_book).spec_assets()
                &&& final(balance_book).spec_balances() == old(balance_book).spec_balances()
            },
        },
{
    let result = match command {
        Command::AddAccount() => {
            let new_account_id = balance_book.add_account();
            CommandResult::AddAccount(new_account_id)
        },
        Command::AddAsset() => {
            let new_asset_id = balance_book.add_asset();
            CommandResult::AddAsset(new_asset_id)
        },
        Command::BalanceChange(account_id, asset_id, change) => {
            proof {
                crate::balance_book::lemma_flat_position(balance_book.spec_accounts(), balance_book.spec_assets(), account_id, asset_id);
            }
            if account_id >= balance_book.num_accounts() {
                CommandResult::BalanceChange(Err(()))
            } else {
                match balance_book.get_mut(account_id, asset_id) {
                    Some(balance) => {
                        *balance = balance.wrapping_add(change);
                        CommandResult::BalanceChange(Ok(()))
                    },
                    None => CommandResult::BalanceChange(Err(())),
                }
            }
        },
        Command::GetBalance(account_id, asset_id) => {
            if account_id >= balance_book.num_accounts() {
                CommandResult::GetBalance(None)
            } else {
                CommandResult::GetBalance(balance_book.get(account_id, asset_id))
            }
        },
    };
    let ghost before = response_buf@;
    response_buf.push_back(result);
    assert(response_buf@.drop_last() =~= before);
}

} // verus!
