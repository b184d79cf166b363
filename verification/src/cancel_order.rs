use vstd::prelude::*;

use crate::bookside::{
    base_amount_sum, has_live_order, lemma_base_sum_remove, live_index_of, side_tag, BookSide, Side,
};
use crate::errors::ClobbyProgramError;
use crate::ids::AccountId;
use crate::market_events::{
    event_base_sum, event_of, lemma_event_sums_push, EventParams, EventType, MarketEvents,
    EVENT_CAPACITY, EVENT_SAFETY_MARGIN,
};

verus! {

/// Which resting order to cancel: its order id, under the `market_id`
/// field, and the side of the book it rests on.
#[derive(Clone, Copy, Debug)]
pub struct CancelOrderArgs {
    pub market_id: u64,
    pub side: Side,
}

/// The Out event a cancellation emits: the order's full remaining amounts,
/// owed back to its owner.
pub open spec fn cancel_event_params(o: crate::bookside::BookSideOrder, side: Side) -> EventParams {
    EventParams {
        order_id: o.order_id,
        maker: o.order_authority,
        side,
        event_type: EventType::Out,
        base_amount: o.base_amount,
        quote_amount: o.quote_amount,
    }
}

/// Retires a resting order: locates it by id, checks that the caller owns
/// it and that the event log can admit one event, then emits an Out event
/// carrying the order's remaining amounts and compacts the book.  Every
/// check precedes every mutation, so a failed call changes nothing.
pub fn cancel_order(
    caller: AccountId,
    bookside: &mut BookSide,
    market_events: &mut MarketEvents,
    args: CancelOrderArgs,
) -> (r: Result<(), ClobbyProgramError>)
    requires
        old(bookside).wf(),
        old(market_events).wf(),
        old(market_events).total_events_count < u64::MAX,
    ensures
        final(bookside).wf(),
        final(market_events).wf(),
        r is Err ==> *final(bookside) == *old(bookside) && *final(market_events) == *old(
            market_events,
        ),
        // The four failure conditions, in the order they are checked.
        (old(bookside).side != side_tag(args.side)) <==> r == Err::<(), _>(
            ClobbyProgramError::InvalidBookSide,
        ),
        (old(bookside).side == side_tag(args.side) && !has_live_order(
            old(bookside).live_orders(),
            args.market_id,
        )) <==> r == Err::<(), _>(ClobbyProgramError::InvalidOrderId),
        (old(bookside).side == side_tag(args.side) && has_live_order(
            old(bookside).live_orders(),
            args.market_id,
        ) && old(bookside).live_orders()[live_index_of(
            old(bookside).live_orders(),
            args.market_id,
        )].order_authority != caller) <==> r == Err::<(), _>(
            ClobbyProgramError::UnauthorizedAction,
        ),
        r == Err::<(), _>(ClobbyProgramError::EventsMaxLimit) ==> old(
            market_events,
        ).events_to_process + 1 + EVENT_SAFETY_MARGIN > EVENT_CAPACITY,
        // Success: owed exactly when the order exists, is the caller's, and
        // the log can admit the event.
        r is Ok <==> (old(bookside).side == side_tag(args.side) && has_live_order(
            old(bookside).live_orders(),
            args.market_id,
        ) && old(bookside).live_orders()[live_index_of(
            old(bookside).live_orders(),
            args.market_id,
        )].order_authority == caller && old(market_events).events_to_process + 1
            + EVENT_SAFETY_MARGIN <= EVENT_CAPACITY),
        r is Ok ==> {
            let live = old(bookside).live_orders();
            let i = live_index_of(live, args.market_id);
            let o = live[i];
            &&& final(bookside).live_orders() == live.remove(i)
            &&& final(bookside).order_count == old(bookside).order_count - 1
            &&& final(bookside).side == old(bookside).side
            &&& final(bookside).market_account == old(bookside).market_account
            &&& forall|k: int|
                0 <= k < final(bookside).order_count ==> (#[trigger] final(bookside).live_orders()[k]).order_id != args.market_id
            &&& final(market_events).live_events() == old(market_events).live_events().push(
                event_of(
                    cancel_event_params(o, args.side),
                    (old(market_events).total_events_count + 1) as u64,
                ),
            )
            &&& final(market_events).events_to_process == old(market_events).events_to_process + 1
            &&& final(market_events).total_events_count == old(market_events).total_events_count
                + 1
            &&& final(market_events).market == old(market_events).market
            // Conservation: the cancelled base moves from the book into the
            // event log, leaving the tracked total unchanged.
            &&& base_amount_sum(final(bookside).live_orders()) + event_base_sum(
                final(market_events).live_events(),
            ) == base_amount_sum(old(bookside).live_orders()) + event_base_sum(
                old(market_events).live_events(),
            )
        },
{
    let side_tag_expected: u64 = match args.side {
        Side::Bid => 0,
        Side::Ask => 1,
    };
    if bookside.side != side_tag_expected {
        return Err(ClobbyProgramError::InvalidBookSide);
    }
    let found = bookside.find_order_index(args.market_id);
    let target_index: usize = match found {
        Some(i) => i,
        None => {
            proof {
                assert(!has_live_order(bookside.live_orders(), args.market_id));
            }
            return Err(ClobbyProgramError::InvalidOrderId);
        },
    };
    let ghost live = bookside.live_orders();
    proof {
        assert(has_live_order(live, args.market_id));
        let j = live_index_of(live, args.market_id);
        assert(0 <= j < live.len() && live[j].order_id == args.market_id);
        assert(j == target_index);
    }
    let target_order = bookside.orders[target_index];
    if target_order.order_authority != caller {
        return Err(ClobbyProgramError::UnauthorizedAction);
    }
    if !market_events.can_add_event(1) {
        return Err(ClobbyProgramError::EventsMaxLimit);
    }
    market_events.add_event(EventParams {
        base_amount: target_order.base_amount,
        order_id: target_order.order_id,
        maker: target_order.order_authority,
        quote_amount: target_order.quote_amount,
        side: args.side,
        event_type: EventType::Out,
    });
    bookside.remove_and_compact(target_index);
    proof {
        lemma_base_sum_remove(live, target_index as int);
        lemma_event_sums_push(
            old(market_events).live_events(),
            event_of(
                cancel_event_params(live[target_index as int], args.side),
                (old(market_events).total_events_count + 1) as u64,
            ),
        );
        assert forall|k: int|
            0 <= k < bookside.order_count implies (#[trigger] bookside.live_orders()[k]).order_id
            != args.market_id by {
            if k < target_index {
                assert(bookside.live_orders()[k] == live[k]);
            } else {
                assert(bookside.live_orders()[k] == live[k + 1]);
            }
        }
    }
    Ok(())
}

} // verus!
