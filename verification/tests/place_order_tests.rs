use clobby::bookside::{create_book_side, BookSide, Side, BOOK_SIDE_CAPACITY};
use clobby::errors::ClobbyProgramError;
use clobby::market::{create_market, CreateMarketArgs, Market};
use clobby::market_events::{MarketEvents, EVENT_CAPACITY};
use clobby::place_order::{place_order, PlaceOrderArgs, PlaceOrderOutcome};

const MARKET_ID: u64 = 1;
const ASKER: u64 = 20;
const BIDDER: u64 = 30;

fn market() -> Market {
    create_market(CreateMarketArgs {
        name: String::from("coin-market"),
        base_lot_size: 1000,
        min_base_amount: 1,
        min_quote_amount: 1,
        market_account: MARKET_ID,
        market_authority: 2,
        consume_events_authority: 3,
        market_events: 4,
        bids: 5,
        asks: 6,
        base_token: 7,
        quote_token: 8,
        base_token_vault: 9,
        quote_token_vault: 10,
    })
    .unwrap()
}

fn setup() -> (Market, BookSide, BookSide, MarketEvents) {
    let m = market();
    let (bids, asks) = create_book_side(MARKET_ID);
    let events = MarketEvents::new(MARKET_ID);
    (m, bids, asks, events)
}

fn place(
    caller: u64,
    m: &mut Market,
    bids: &mut BookSide,
    asks: &mut BookSide,
    events: &mut MarketEvents,
    available: u64,
    side: Side,
    lots: u16,
    quote: u64,
    ioc: bool,
) -> Result<PlaceOrderOutcome, ClobbyProgramError> {
    place_order(
        caller,
        m,
        bids,
        asks,
        events,
        available,
        PlaceOrderArgs { side, base_lots: lots, quote_amount: quote, ioc },
    )
}

fn tracked_base(bids: &BookSide, asks: &BookSide, events: &MarketEvents) -> u128 {
    let mut total: u128 = 0;
    for i in 0..bids.order_count as usize {
        total += bids.orders[i].base_amount as u128;
    }
    for i in 0..asks.order_count as usize {
        total += asks.orders[i].base_amount as u128;
    }
    for i in 0..events.events_to_process as usize {
        total += events.events[i].base_amount as u128;
    }
    total
}

#[test]
fn order_with_no_match_rests_on_its_side() {
    let (mut m, mut bids, mut asks, mut ev) = setup();
    let r = place(ASKER, &mut m, &mut bids, &mut asks, &mut ev, 5000, Side::Ask, 5, 5000, false);
    assert_eq!(r, Ok(PlaceOrderOutcome::Resting(1)));
    assert_eq!(m.total_orders, 1);
    assert_eq!(asks.order_count, 1);
    assert_eq!(asks.orders[0].order_id, 1);
    assert_eq!(asks.orders[0].base_amount, 5000);
    assert_eq!(asks.orders[0].quote_amount, 5000);
    assert_eq!(asks.orders[0].order_authority, ASKER);
    assert_eq!(bids.order_count, 0);
    // Resting produces no event.
    assert_eq!(ev.events_to_process, 0);
}

#[test]
fn partial_fill_edits_the_resting_ask_and_records_one_fill() {
    // Lot size 1000.  Resting ask: order 1, 5000 base for 5000 quote.  A
    // bid for 3 lots at 3000 quote matches at the same per-lot price.
    let (mut m, mut bids, mut asks, mut ev) = setup();
    place(ASKER, &mut m, &mut bids, &mut asks, &mut ev, 5000, Side::Ask, 5, 5000, false).unwrap();
    let r = place(BIDDER, &mut m, &mut bids, &mut asks, &mut ev, 3000, Side::Bid, 3, 3000, false);
    assert_eq!(r, Ok(PlaceOrderOutcome::FullyExecuted));
    // The ask was edited in place, not removed.
    assert_eq!(asks.order_count, 1);
    assert_eq!(asks.orders[0].order_id, 1);
    assert_eq!(asks.orders[0].base_amount, 2000);
    assert_eq!(asks.orders[0].quote_amount, 2000);
    // One Fill event for the ask maker, carrying the proportional quote.
    assert_eq!(ev.events_to_process, 1);
    let fill = ev.events[0];
    assert_eq!(fill.event_type, 0);
    assert_eq!(fill.side, 1);
    assert_eq!(fill.order_id, 1);
    assert_eq!(fill.maker, ASKER);
    assert_eq!(fill.base_amount, 3000);
    assert_eq!(fill.quote_amount, 3000);
    // The taker never touched the book.
    assert_eq!(bids.order_count, 0);
    assert_eq!(m.total_orders, 1);
}

#[test]
fn admission_check_rejects_before_any_mutation() {
    // The log holds capacity minus the margin; one more event cannot be
    // admitted, so the placement fails and nothing changes.
    let (mut m, mut bids, mut asks, mut ev) = setup();
    ev.events_to_process = (EVENT_CAPACITY as u64) - 6;
    let r = place(BIDDER, &mut m, &mut bids, &mut asks, &mut ev, 3000, Side::Bid, 3, 3000, false);
    assert_eq!(r, Err(ClobbyProgramError::EventsMaxLimit));
    assert_eq!(bids.order_count, 0);
    assert_eq!(asks.order_count, 0);
    assert_eq!(ev.events_to_process, (EVENT_CAPACITY as u64) - 6);
    assert_eq!(ev.total_events_count, 0);
    assert_eq!(m.total_orders, 0);
}

#[test]
fn admission_check_admits_at_the_margin() {
    let (mut m, mut bids, mut asks, mut ev) = setup();
    ev.events_to_process = (EVENT_CAPACITY as u64) - 7;
    let r = place(BIDDER, &mut m, &mut bids, &mut asks, &mut ev, 3000, Side::Bid, 3, 3000, false);
    assert_eq!(r, Ok(PlaceOrderOutcome::Resting(1)));
}

#[test]
fn ioc_that_cannot_fill_fully_is_rejected_whole() {
    // Opposing side offers 4 lots; an immediate-or-cancel bid for 10 lots
    // fails as a whole and mutates nothing.
    let (mut m, mut bids, mut asks, mut ev) = setup();
    place(ASKER, &mut m, &mut bids, &mut asks, &mut ev, 4000, Side::Ask, 4, 4000, false).unwrap();
    let r = place(BIDDER, &mut m, &mut bids, &mut asks, &mut ev, 10000, Side::Bid, 10, 10000, true);
    assert_eq!(r, Err(ClobbyProgramError::OrderFilledPartially));
    assert_eq!(asks.order_count, 1);
    assert_eq!(asks.orders[0].base_amount, 4000);
    assert_eq!(bids.order_count, 0);
    assert_eq!(ev.events_to_process, 0);
    assert_eq!(m.total_orders, 1);
}

#[test]
fn insufficient_balance_is_rejected_before_anything_else() {
    let (mut m, mut bids, mut asks, mut ev) = setup();
    let r = place(BIDDER, &mut m, &mut bids, &mut asks, &mut ev, 2999, Side::Bid, 3, 3000, false);
    assert_eq!(r, Err(ClobbyProgramError::InSufficientBalance));
    // An ask is funded by base, not quote.
    let r2 = place(ASKER, &mut m, &mut bids, &mut asks, &mut ev, 4999, Side::Ask, 5, 1, false);
    assert_eq!(r2, Err(ClobbyProgramError::InSufficientBalance));
    assert_eq!(bids.order_count, 0);
    assert_eq!(asks.order_count, 0);
}

#[test]
fn corrupt_side_tag_is_a_decode_failure() {
    let (mut m, mut bids, mut asks, mut ev) = setup();
    bids.side = 9;
    let r = place(BIDDER, &mut m, &mut bids, &mut asks, &mut ev, 3000, Side::Bid, 3, 3000, false);
    assert_eq!(r, Err(ClobbyProgramError::InvalidBookSide));
}

#[test]
fn price_protection_refuses_a_worse_priced_maker() {
    // Resting ask at 1000 per lot; a bid offering 999 per lot cannot match
    // and rests instead.
    let (mut m, mut bids, mut asks, mut ev) = setup();
    place(ASKER, &mut m, &mut bids, &mut asks, &mut ev, 1000, Side::Ask, 1, 1000, false).unwrap();
    let r = place(BIDDER, &mut m, &mut bids, &mut asks, &mut ev, 999, Side::Bid, 1, 999, false);
    assert_eq!(r, Ok(PlaceOrderOutcome::Resting(2)));
    assert_eq!(asks.order_count, 1);
    assert_eq!(asks.orders[0].base_amount, 1000);
    assert_eq!(bids.order_count, 1);
    assert_eq!(bids.orders[0].order_id, 2);
    assert_eq!(ev.events_to_process, 0);
}

#[test]
fn full_fill_consumes_makers_and_rests_the_remainder() {
    // Two resting asks of 2 lots each; a bid for 5 lots eats both whole and
    // rests the open 1 lot with a proportional quote commitment.
    let (mut m, mut bids, mut asks, mut ev) = setup();
    place(ASKER, &mut m, &mut bids, &mut asks, &mut ev, 2000, Side::Ask, 2, 2000, false).unwrap();
    place(ASKER, &mut m, &mut bids, &mut asks, &mut ev, 2000, Side::Ask, 2, 2000, false).unwrap();
    let r = place(BIDDER, &mut m, &mut bids, &mut asks, &mut ev, 5000, Side::Bid, 5, 5000, false);
    assert_eq!(r, Ok(PlaceOrderOutcome::Resting(3)));
    assert_eq!(asks.order_count, 0);
    assert_eq!(bids.order_count, 1);
    assert_eq!(bids.orders[0].order_id, 3);
    assert_eq!(bids.orders[0].base_amount, 1000);
    // 5000 quote for 5 lots, 1 lot still open: 1000 quote.
    assert_eq!(bids.orders[0].quote_amount, 1000);
    assert_eq!(bids.orders[0].order_authority, BIDDER);
    // Two Fill events, one per consumed ask, each of 2 lots.
    assert_eq!(ev.events_to_process, 2);
    assert_eq!(ev.events[0].base_amount, 2000);
    assert_eq!(ev.events[0].quote_amount, 2000);
    assert_eq!(ev.events[1].base_amount, 2000);
    assert_eq!(ev.events[1].order_id, 2);
}

#[test]
fn match_limit_caps_one_call() {
    // Six resting 1-lot asks; a bid for 6 lots may only match five of them
    // per call and rests the sixth lot.
    let (mut m, mut bids, mut asks, mut ev) = setup();
    for _ in 0..6 {
        place(ASKER, &mut m, &mut bids, &mut asks, &mut ev, 1000, Side::Ask, 1, 1000, false)
            .unwrap();
    }
    let r = place(BIDDER, &mut m, &mut bids, &mut asks, &mut ev, 6000, Side::Bid, 6, 6000, false);
    assert_eq!(r, Ok(PlaceOrderOutcome::Resting(7)));
    assert_eq!(asks.order_count, 1);
    assert_eq!(ev.events_to_process, 5);
    assert_eq!(bids.order_count, 1);
    assert_eq!(bids.orders[0].base_amount, 1000);
}

#[test]
fn full_book_evicts_the_worst_priced_order() {
    let (mut m, mut bids, mut asks, mut ev) = setup();
    for _ in 0..BOOK_SIDE_CAPACITY {
        place(BIDDER, &mut m, &mut bids, &mut asks, &mut ev, 2000, Side::Bid, 1, 2000, false)
            .unwrap();
    }
    assert_eq!(bids.order_count as usize, BOOK_SIDE_CAPACITY);
    let worst_id = bids.orders[BOOK_SIDE_CAPACITY - 1].order_id;
    // A better-priced bid must enter: the worst-priced resting bid leaves
    // with an Out event owing its amounts back.
    let r = place(BIDDER, &mut m, &mut bids, &mut asks, &mut ev, 3000, Side::Bid, 1, 3000, false);
    assert_eq!(r, Ok(PlaceOrderOutcome::Resting((BOOK_SIDE_CAPACITY as u64) + 1)));
    assert_eq!(bids.order_count as usize, BOOK_SIDE_CAPACITY);
    assert_eq!(bids.orders[0].quote_amount, 3000);
    assert_eq!(ev.events_to_process, 1);
    let out = ev.events[0];
    assert_eq!(out.event_type, 1);
    assert_eq!(out.side, 0);
    assert_eq!(out.order_id, worst_id);
    assert_eq!(out.base_amount, 1000);
    assert_eq!(out.quote_amount, 2000);
}

#[test]
fn tracked_base_grows_only_by_what_rests() {
    let (mut m, mut bids, mut asks, mut ev) = setup();
    assert_eq!(tracked_base(&bids, &asks, &ev), 0);
    place(ASKER, &mut m, &mut bids, &mut asks, &mut ev, 5000, Side::Ask, 5, 5000, false).unwrap();
    assert_eq!(tracked_base(&bids, &asks, &ev), 5000);
    // A 3-lot fill moves base from the book into the event log: no change.
    place(BIDDER, &mut m, &mut bids, &mut asks, &mut ev, 3000, Side::Bid, 3, 3000, false).unwrap();
    assert_eq!(tracked_base(&bids, &asks, &ev), 5000);
    // A resting bid adds exactly its remaining base.
    place(BIDDER, &mut m, &mut bids, &mut asks, &mut ev, 900, Side::Bid, 1, 900, false).unwrap();
    assert_eq!(tracked_base(&bids, &asks, &ev), 6000);
}
