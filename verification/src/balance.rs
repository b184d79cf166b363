use vstd::prelude::*;

use crate::ids::AccountId;
use crate::market::Market;

verus! {

/// Per-participant, per-market accrued balances: what event consumption has
/// credited and settlement has not yet paid out.
#[derive(Clone, Copy, Debug, PartialEq, Eq, Structural)]
pub struct UserBalance {
    pub market: AccountId,
    pub user: AccountId,
    pub base_token: AccountId,
    pub quote_token: AccountId,
    pub base_amount: u64,
    pub quote_amount: u64,
}

/// Which of the two accrued amounts to zero out.
#[derive(Clone, Copy, Debug, PartialEq, Eq, Structural)]
pub enum ResetSide {
    Base,
    Quote,
}

impl UserBalance {
    /// Zeroes one accrued amount, after settlement has paid it out.
    pub fn reset_balance(&mut self, side: ResetSide)
        ensures
            *final(self) == match side {
                ResetSide::Base => (UserBalance { base_amount: 0, ..*old(self) }),
                ResetSide::Quote => (UserBalance { quote_amount: 0, ..*old(self) }),
            },
    {
        match side {
            ResetSide::Base => {
                self.base_amount = 0;
            },
            ResetSide::Quote => {
                self.quote_amount = 0;
            },
        }
    }
}

/// The zeroed ledger record for a participant of a market.
pub fn create_user_balance_account(user: AccountId, market: &Market) -> (balance: UserBalance)
    ensures
        balance == (UserBalance {
            market: market.market_account,
            user,
            base_token: market.base_token,
            quote_token: market.quote_token,
            base_amount: 0u64,
            quote_amount: 0u64,
        }),
{
    UserBalance {
        market: market.market_account,
        user,
        base_token: market.base_token,
        quote_token: market.quote_token,
        base_amount: 0,
        quote_amount: 0,
    }
}

} // verus!
