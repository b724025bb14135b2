use vstd::prelude::*;
use crate::errors::OrderInsertionError;
use crate::exchange::CommandResult;
use crate::market::OrderInsertionResult;
use crate::util::types::Balance;

verus! {

/// The result of an order insertion sent alone: the first result when it is
/// an insertion result, `Other` otherwise.
pub fn insertion_result(results: &Vec<CommandResult>) -> (r: OrderInsertionResult)
    ensures
        r == if results@.len() > 0 && results@[0] is OrderInsert {
            results@[0]->OrderInsert_0
        } else {
            Err(OrderInsertionError::Other)
        },
{
    if results.len() == 0 {
        return Err(OrderInsertionError::Other);
    }
    match &results[0] {
        CommandResult::OrderInsert(res) => *res,
        _ => Err(OrderInsertionError::Other),
    }
}

/// The balance asked for by a balance query sent alone: the first result
/// when it is a balance result, none otherwise.
pub fn balance_result(results: &Vec<CommandResult>) -> (r: Option<Balance>)
    ensures
        r == if results@.len() > 0 && results@[0] is GetBalance {
            results@[0]->GetBalance_0
        } else {
            None
        },
{
    if results.len() == 0 {
        return None;
    }
    match &results[0] {
        CommandResult::GetBalance(balance) => *balance,
        _ => None,
    }
}

} // verus!
