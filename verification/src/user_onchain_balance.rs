use vstd::prelude::*;

use crate::ids::AccountId;
use crate::market::Market;

verus! {

/// Variant of the accrued ledger record that tracks amounts already moved
/// on the platform side; kept separate from `UserBalance` so the two kinds
/// of bookkeeping can never be confused.
#[derive(Clone, Copy, Debug, PartialEq, Eq, Structural)]
pub struct UserOnchainBalance {
    pub market: AccountId,
    pub user: AccountId,
    pub base_token: AccountId,
    pub quote_token: AccountId,
    pub base_onchain_amount: u64,
    pub quote_onchain_amount: u64,
}

/// Which of the two amounts to zero out.
#[derive(Clone, Copy, Debug, PartialEq, Eq, Structural)]
pub enum ResetSide {
    Base,
    Quote,
}

impl UserOnchainBalance {
    /// Zeroes one amount, after settlement has paid it out.
    pub fn reset_balance(&mut self, side: ResetSide)
        ensures
            *final(self) == match side {
                ResetSide::Base => (UserOnchainBalance { base_onchain_amount: 0, ..*old(self) }),
                ResetSide::Quote => (UserOnchainBalance { quote_onchain_amount: 0, ..*old(self) }),
            },
    {
        match side {
            ResetSide::Base => {
                self.base_onchain_amount = 0;
            },
            ResetSide::Quote => {
                self.quote_onchain_amount = 0;
            },
        }
    }
}

/// The zeroed record for a participant of a market.
pub fn create_user_onchain_balance(user: AccountId, market: &Market) -> (balance: UserOnchainBalance)
    ensures
        balance == (UserOnchainBalance {
            market: market.market_account,
            user,
            base_token: market.base_token,
            quote_token: market.quote_token,
            base_onchain_amount: 0u64,
            quote_onchain_amount: 0u64,
        }),
{
    UserOnchainBalance {
        market: market.market_account,
        user,
        base_token: market.base_token,
        quote_token: market.quote_token,
        base_onchain_amount: 0,
        quote_onchain_amount: 0,
    }
}

} // verus!
