use vstd::prelude::*;

verus! {

/// Everything that can go wrong in a market operation.  Every failure is
/// detected by a check performed strictly before any state is mutated, so a
/// caller that receives one of these can rely on the market state being
/// exactly what it was before the call.
#[derive(Clone, Copy, Debug, PartialEq, Eq, Structural)]
pub enum ClobbyProgramError {
    /// The caller's available balance does not cover the amount the order
    /// would transfer into the market vault.
    InSufficientBalance,
    /// An immediate-or-cancel order could not be fully filled.
    OrderFilledPartially,
    /// The event log could not admit every event this call would produce.
    EventsMaxLimit,
    /// A book side tag read from storage is neither bid (0) nor ask (1).
    InvalidBookSide,
    /// No live order carries the requested order id.
    InvalidOrderId,
    /// An event kind tag read from storage is neither fill (0) nor out (1).
    InvalidEventType,
    /// The caller is not allowed to perform the requested action.
    UnauthorizedAction,
    /// A market size parameter violates its positivity constraint.
    InvalidMinimumOrderSize,
}

} // verus!
