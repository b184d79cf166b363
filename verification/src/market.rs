use vstd::prelude::*;

use crate::bookside::BookSide;
use crate::errors::ClobbyProgramError;
use crate::ids::AccountId;

verus! {

/// How a book relates to its market: every live order's base amount is a
/// whole number of lots, and every live order id was assigned from the
/// market's order counter.  Placement relies on both: lot-exact amounts keep
/// the fill arithmetic exact, and the counter bound keeps new ids fresh.
pub open spec fn market_book_wf(market: Market, book: BookSide) -> bool {
    &&& forall|k: int|
        0 <= k < book.live_orders().len() ==> (#[trigger] book.live_orders()[k]).base_amount
            % market.base_lot_size == 0
    &&& forall|k: int|
        0 <= k < book.live_orders().len() ==> (#[trigger] book.live_orders()[k]).order_id
            <= market.total_orders
}

/// Immutable-after-creation market parameters, plus the one mutable field:
/// the running count of orders ever placed, used to assign order ids.
#[derive(Clone, Debug)]
pub struct Market {
    /// This market's own identity; freed book and event slots are handed to
    /// it so they can never credit a participant.
    pub market_account: AccountId,
    /// Authority allowed to move tokens on the market's behalf.
    pub market_authority: AccountId,
    /// Authority allowed to drain the event log.
    pub consume_events_authority: AccountId,
    /// The linked event log.
    pub market_events: AccountId,
    pub base_token: AccountId,
    pub quote_token: AccountId,
    /// Base units that make up one lot; order sizes are stated in lots.
    pub base_lot_size: u64,
    /// Configured smallest base order size; validated positive at creation.
    pub min_base_amount: u64,
    /// Configured smallest quote commitment; validated positive at creation.
    pub min_quote_amount: u64,
    /// Orders ever placed; monotonically increasing.
    pub total_orders: u64,
    /// The linked book sides.
    pub bids: AccountId,
    pub asks: AccountId,
    pub base_token_vault: AccountId,
    pub quote_token_vault: AccountId,
    pub name: String,
}

/// Everything `create_market` needs: the sizes under the caller's control
/// and the identities the surrounding platform derived for the market's
/// accounts.
pub struct CreateMarketArgs {
    pub name: String,
    pub base_lot_size: u64,
    pub min_base_amount: u64,
    pub min_quote_amount: u64,
    pub market_account: AccountId,
    pub market_authority: AccountId,
    pub consume_events_authority: AccountId,
    pub market_events: AccountId,
    pub bids: AccountId,
    pub asks: AccountId,
    pub base_token: AccountId,
    pub quote_token: AccountId,
    pub base_token_vault: AccountId,
    pub quote_token_vault: AccountId,
}

/// The size parameters every market must satisfy: lot size and both minimum
/// order sizes strictly positive.
pub open spec fn valid_market_sizes(args: CreateMarketArgs) -> bool {
    args.base_lot_size >= 1 && args.min_base_amount >= 1 && args.min_quote_amount >= 1
}

/// Builds the market record, rejecting any configuration whose lot size or
/// minimum order sizes are not strictly positive.  The order counter starts
/// at zero.
pub fn create_market(args: CreateMarketArgs) -> (r: Result<Market, ClobbyProgramError>)
    ensures
        match r {
            Ok(market) => valid_market_sizes(args) && market == (Market {
                market_account: args.market_account,
                market_authority: args.market_authority,
                consume_events_authority: args.consume_events_authority,
                market_events: args.market_events,
                base_token: args.base_token,
                quote_token: args.quote_token,
                base_lot_size: args.base_lot_size,
                min_base_amount: args.min_base_amount,
                min_quote_amount: args.min_quote_amount,
                total_orders: 0u64,
                bids: args.bids,
                asks: args.asks,
                base_token_vault: args.base_token_vault,
                quote_token_vault: args.quote_token_vault,
                name: args.name,
            }),
            Err(e) => !valid_market_sizes(args) && e == ClobbyProgramError::InvalidMinimumOrderSize,
        },
{
    if args.base_lot_size == 0 || args.min_base_amount == 0 || args.min_quote_amount == 0 {
        return Err(ClobbyProgramError::InvalidMinimumOrderSize);
    }
    Ok(Market {
        market_account: args.market_account,
        market_authority: args.market_authority,
        consume_events_authority: args.consume_events_authority,
        market_events: args.market_events,
        base_token: args.base_token,
        quote_token: args.quote_token,
        base_lot_size: args.base_lot_size,
        min_base_amount: args.min_base_amount,
        min_quote_amount: args.min_quote_amount,
        total_orders: 0,
        bids: args.bids,
        asks: args.asks,
        base_token_vault: args.base_token_vault,
        quote_token_vault: args.quote_token_vault,
        name: args.name,
    })
}

} // verus!
