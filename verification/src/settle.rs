use vstd::prelude::*;

use crate::balance::{ResetSide, UserBalance};
use crate::user_onchain_balance;
use crate::user_onchain_balance::UserOnchainBalance;

verus! {

/// Drains a participant's accrued balances to zero and reports the pair of
/// amounts (base, quote) the custody collaborator must now transfer out of
/// the market vaults.  The record is zeroed first, so a repeated settlement
/// transfers nothing.
pub fn settle_user_balance(balance: &mut UserBalance) -> (transferred: (u64, u64))
    ensures
        transferred.0 == old(balance).base_amount,
        transferred.1 == old(balance).quote_amount,
        *final(balance) == (UserBalance { base_amount: 0, quote_amount: 0, ..*old(balance) }),
{
    let base = balance.base_amount;
    let quote = balance.quote_amount;
    if base > 0 {
        balance.reset_balance(ResetSide::Base);
    }
    if quote > 0 {
        balance.reset_balance(ResetSide::Quote);
    }
    (base, quote)
}

/// Drains a participant's platform-side record to zero and reports the pair
/// of amounts (base, quote) to transfer.
pub fn settle_user_onchain_balance(balance: &mut UserOnchainBalance) -> (transferred: (u64, u64))
    ensures
        transferred.0 == old(balance).base_onchain_amount,
        transferred.1 == old(balance).quote_onchain_amount,
        *final(balance) == (UserOnchainBalance {
            base_onchain_amount: 0,
            quote_onchain_amount: 0,
            ..*old(balance)
        }),
{
    let base = balance.base_onchain_amount;
    let quote = balance.quote_onchain_amount;
    if base > 0 {
        balance.reset_balance(user_onchain_balance::ResetSide::Base);
    }
    if quote > 0 {
        balance.reset_balance(user_onchain_balance::ResetSide::Quote);
    }
    (base, quote)
}

} // verus!
