//! A fixed-capacity central-limit-order-book matching engine.
//!
//! The market state is a pair of price-ordered order arrays (bids and asks),
//! a bounded event log that defers settlement bookkeeping, and per-participant
//! accrued balances.  Every operation validates all of its preconditions
//! before mutating anything, so each call either fully succeeds or leaves the
//! state untouched.  Custody of tokens, caller authentication and account
//! provisioning are the surrounding platform's business; the operations here
//! receive plain identities and balance snapshots and report what must be
//! transferred.

pub mod balance;
pub mod bookside;
pub mod cancel_order;
pub mod consume_events;
pub mod errors;
pub mod ids;
pub mod market;
pub mod market_events;
pub mod place_order;
pub mod settle;
pub mod user_onchain_balance;
