use clobby::balance::{create_user_balance_account, UserBalance};
use clobby::bookside::{create_book_side, BookSide, Side};
use clobby::cancel_order::{cancel_order, CancelOrderArgs};
use clobby::consume_events::consume_events;
use clobby::errors::ClobbyProgramError;
use clobby::market::{create_market, CreateMarketArgs, Market};
use clobby::market_events::{MarketEvents, EVENT_CAPACITY};
use clobby::place_order::{place_order, PlaceOrderArgs};
use clobby::settle::settle_user_balance;

const MARKET_ID: u64 = 1;
const CONSUME_AUTH: u64 = 3;
const ASKER: u64 = 20;
const BIDDER: u64 = 30;

fn market() -> Market {
    create_market(CreateMarketArgs {
        name: String::from("coin-market"),
        base_lot_size: 1000,
        min_base_amount: 1,
        min_quote_amount: 1,
        market_account: MARKET_ID,
        market_authority: 2,
        consume_events_authority: CONSUME_AUTH,
        market_events: 4,
        bids: 5,
        asks: 6,
        base_token: 7,
        quote_token: 8,
        base_token_vault: 9,
        quote_token_vault: 10,
    })
    .unwrap()
}

fn setup() -> (Market, BookSide, BookSide, MarketEvents) {
    let m = market();
    let (bids, asks) = create_book_side(MARKET_ID);
    let events = MarketEvents::new(MARKET_ID);
    (m, bids, asks, events)
}

fn place(
    caller: u64,
    m: &mut Market,
    bids: &mut BookSide,
    asks: &mut BookSide,
    events: &mut MarketEvents,
    available: u64,
    side: Side,
    lots: u16,
    quote: u64,
) {
    place_order(
        caller,
        m,
        bids,
        asks,
        events,
        available,
        PlaceOrderArgs { side, base_lots: lots, quote_amount: quote, ioc: false },
    )
    .unwrap();
}

/// A matched market: resting ask of 5 lots, bid fill of 3 lots, so the log
/// holds one Fill event owing the asker 3000 quote.
fn matched() -> (Market, BookSide, BookSide, MarketEvents) {
    let (mut m, mut bids, mut asks, mut ev) = setup();
    place(ASKER, &mut m, &mut bids, &mut asks, &mut ev, 5000, Side::Ask, 5, 5000);
    place(BIDDER, &mut m, &mut bids, &mut asks, &mut ev, 3000, Side::Bid, 3, 3000);
    (m, bids, asks, ev)
}

#[test]
fn cancel_removes_the_order_and_records_an_out_event() {
    let (mut m, mut bids, mut asks, mut ev) = setup();
    place(ASKER, &mut m, &mut bids, &mut asks, &mut ev, 5000, Side::Ask, 5, 5000);
    let r = cancel_order(ASKER, &mut asks, &mut ev, CancelOrderArgs { market_id: 1, side: Side::Ask });
    assert_eq!(r, Ok(()));
    assert_eq!(asks.order_count, 0);
    assert_eq!(asks.find_order_index(1), None);
    assert_eq!(ev.events_to_process, 1);
    let out = ev.events[0];
    assert_eq!(out.event_type, 1);
    assert_eq!(out.side, 1);
    assert_eq!(out.order_id, 1);
    assert_eq!(out.maker, ASKER);
    assert_eq!(out.base_amount, 5000);
    assert_eq!(out.quote_amount, 5000);
}

#[test]
fn cancel_keeps_the_relative_order_of_survivors() {
    let (mut m, mut bids, mut asks, mut ev) = setup();
    place(ASKER, &mut m, &mut bids, &mut asks, &mut ev, 1000, Side::Ask, 1, 1000);
    place(ASKER, &mut m, &mut bids, &mut asks, &mut ev, 1000, Side::Ask, 1, 2000);
    place(ASKER, &mut m, &mut bids, &mut asks, &mut ev, 1000, Side::Ask, 1, 3000);
    let r = cancel_order(ASKER, &mut asks, &mut ev, CancelOrderArgs { market_id: 2, side: Side::Ask });
    assert_eq!(r, Ok(()));
    assert_eq!(asks.order_count, 2);
    assert_eq!(asks.orders[0].order_id, 1);
    assert_eq!(asks.orders[1].order_id, 3);
    assert_eq!(asks.find_order_index(2), None);
}

#[test]
fn cancel_of_an_unknown_order_fails() {
    let (mut m, mut bids, mut asks, mut ev) = setup();
    place(ASKER, &mut m, &mut bids, &mut asks, &mut ev, 5000, Side::Ask, 5, 5000);
    let r = cancel_order(ASKER, &mut asks, &mut ev, CancelOrderArgs { market_id: 9, side: Side::Ask });
    assert_eq!(r, Err(ClobbyProgramError::InvalidOrderId));
    assert_eq!(asks.order_count, 1);
    assert_eq!(ev.events_to_process, 0);
}

#[test]
fn only_the_owner_may_cancel() {
    let (mut m, mut bids, mut asks, mut ev) = setup();
    place(ASKER, &mut m, &mut bids, &mut asks, &mut ev, 5000, Side::Ask, 5, 5000);
    let r = cancel_order(BIDDER, &mut asks, &mut ev, CancelOrderArgs { market_id: 1, side: Side::Ask });
    assert_eq!(r, Err(ClobbyProgramError::UnauthorizedAction));
    assert_eq!(asks.order_count, 1);
}

#[test]
fn cancel_needs_event_log_admission() {
    let (mut m, mut bids, mut asks, mut ev) = setup();
    place(ASKER, &mut m, &mut bids, &mut asks, &mut ev, 5000, Side::Ask, 5, 5000);
    ev.events_to_process = (EVENT_CAPACITY as u64) - 6;
    let r = cancel_order(ASKER, &mut asks, &mut ev, CancelOrderArgs { market_id: 1, side: Side::Ask });
    assert_eq!(r, Err(ClobbyProgramError::EventsMaxLimit));
    assert_eq!(asks.order_count, 1);
    assert_eq!(ev.events_to_process, (EVENT_CAPACITY as u64) - 6);
}

#[test]
fn cancel_against_the_wrong_book_is_a_decode_failure() {
    let (mut m, mut bids, mut asks, mut ev) = setup();
    place(ASKER, &mut m, &mut bids, &mut asks, &mut ev, 5000, Side::Ask, 5, 5000);
    let r = cancel_order(ASKER, &mut asks, &mut ev, CancelOrderArgs { market_id: 1, side: Side::Bid });
    assert_eq!(r, Err(ClobbyProgramError::InvalidBookSide));
}

#[test]
fn consume_credits_the_maker_and_compacts_the_log() {
    let (m, _bids, _asks, mut ev) = matched();
    let mut ledgers: Vec<UserBalance> = vec![create_user_balance_account(ASKER, &m)];
    let r = consume_events(CONSUME_AUTH, &m, &mut ev, &mut ledgers, 7);
    assert_eq!(r, Ok(1));
    // A filled ask maker is owed quote.
    assert_eq!(ledgers[0].quote_amount, 3000);
    assert_eq!(ledgers[0].base_amount, 0);
    assert_eq!(ev.events_to_process, 0);
    // The consumed slot is tombstoned and handed to the market.
    assert_eq!(ev.events[0].id, 0);
    assert_eq!(ev.events[0].maker, MARKET_ID);
    // Settlement drains the credit.
    assert_eq!(settle_user_balance(&mut ledgers[0]), (0, 3000));
    assert_eq!(ledgers[0].quote_amount, 0);
}

#[test]
fn consume_credits_a_filled_bid_maker_with_base() {
    // A resting bid filled by an ask taker: the bid maker is owed base.
    let (mut m, mut bids, mut asks, mut ev) = setup();
    place(BIDDER, &mut m, &mut bids, &mut asks, &mut ev, 2000, Side::Bid, 2, 2000);
    place(ASKER, &mut m, &mut bids, &mut asks, &mut ev, 2000, Side::Ask, 2, 2000);
    assert_eq!(ev.events_to_process, 1);
    assert_eq!(ev.events[0].side, 0);
    let mut ledgers: Vec<UserBalance> = vec![create_user_balance_account(BIDDER, &m)];
    let r = consume_events(CONSUME_AUTH, &m, &mut ev, &mut ledgers, 7);
    assert_eq!(r, Ok(1));
    assert_eq!(ledgers[0].base_amount, 2000);
    assert_eq!(ledgers[0].quote_amount, 0);
}

#[test]
fn consume_credits_a_cancelled_ask_with_base() {
    let (mut m, mut bids, mut asks, mut ev) = setup();
    place(ASKER, &mut m, &mut bids, &mut asks, &mut ev, 5000, Side::Ask, 5, 5000);
    cancel_order(ASKER, &mut asks, &mut ev, CancelOrderArgs { market_id: 1, side: Side::Ask })
        .unwrap();
    let mut ledgers: Vec<UserBalance> = vec![create_user_balance_account(ASKER, &m)];
    let r = consume_events(CONSUME_AUTH, &m, &mut ev, &mut ledgers, 7);
    assert_eq!(r, Ok(1));
    // An Out event on the ask side returns base.
    assert_eq!(ledgers[0].base_amount, 5000);
    assert_eq!(ledgers[0].quote_amount, 0);
}

#[test]
fn unresolvable_events_are_skipped_not_failed() {
    // Two fills with different makers; only the second maker supplied a
    // ledger record.  The first event stays for a later call, in order.
    let (mut m, mut bids, mut asks, mut ev) = setup();
    place(ASKER, &mut m, &mut bids, &mut asks, &mut ev, 2000, Side::Ask, 2, 2000);
    place(41, &mut m, &mut bids, &mut asks, &mut ev, 2000, Side::Ask, 2, 2000);
    place(BIDDER, &mut m, &mut bids, &mut asks, &mut ev, 4000, Side::Bid, 4, 4000);
    assert_eq!(ev.events_to_process, 2);
    let mut ledgers: Vec<UserBalance> = vec![create_user_balance_account(41, &m)];
    let r = consume_events(CONSUME_AUTH, &m, &mut ev, &mut ledgers, 7);
    assert_eq!(r, Ok(1));
    assert_eq!(ledgers[0].quote_amount, 2000);
    assert_eq!(ev.events_to_process, 1);
    assert_eq!(ev.events[0].maker, ASKER);
    // A later call with the missing record drains the rest.
    let mut ledgers2: Vec<UserBalance> = vec![create_user_balance_account(ASKER, &m)];
    let r2 = consume_events(CONSUME_AUTH, &m, &mut ev, &mut ledgers2, 7);
    assert_eq!(r2, Ok(1));
    assert_eq!(ledgers2[0].quote_amount, 2000);
    assert_eq!(ev.events_to_process, 0);
}

#[test]
fn batch_limit_bounds_one_consumption_call() {
    let (mut m, mut bids, mut asks, mut ev) = setup();
    for _ in 0..3 {
        place(ASKER, &mut m, &mut bids, &mut asks, &mut ev, 1000, Side::Ask, 1, 1000);
    }
    place(BIDDER, &mut m, &mut bids, &mut asks, &mut ev, 3000, Side::Bid, 3, 3000);
    assert_eq!(ev.events_to_process, 3);
    let mut ledgers: Vec<UserBalance> = vec![create_user_balance_account(ASKER, &m)];
    let r = consume_events(CONSUME_AUTH, &m, &mut ev, &mut ledgers, 2);
    assert_eq!(r, Ok(2));
    assert_eq!(ev.events_to_process, 1);
    assert_eq!(ledgers[0].quote_amount, 2000);
}

#[test]
fn only_the_consume_authority_may_drain() {
    let (m, _bids, _asks, mut ev) = matched();
    let mut ledgers: Vec<UserBalance> = vec![create_user_balance_account(ASKER, &m)];
    let r = consume_events(BIDDER, &m, &mut ev, &mut ledgers, 7);
    assert_eq!(r, Err(ClobbyProgramError::UnauthorizedAction));
    assert_eq!(ev.events_to_process, 1);
    assert_eq!(ledgers[0].quote_amount, 0);
}

#[test]
fn corrupt_event_tags_fail_the_whole_call() {
    let (m, _bids, _asks, mut ev) = matched();
    let mut ledgers: Vec<UserBalance> = vec![create_user_balance_account(ASKER, &m)];
    let good = ev.events[0];
    ev.events[0].event_type = 9;
    let r = consume_events(CONSUME_AUTH, &m, &mut ev, &mut ledgers, 7);
    assert_eq!(r, Err(ClobbyProgramError::InvalidEventType));
    assert_eq!(ev.events_to_process, 1);
    assert_eq!(ledgers[0].quote_amount, 0);
    ev.events[0] = good;
    ev.events[0].side = 9;
    let r2 = consume_events(CONSUME_AUTH, &m, &mut ev, &mut ledgers, 7);
    assert_eq!(r2, Err(ClobbyProgramError::InvalidBookSide));
    assert_eq!(ledgers[0].quote_amount, 0);
}
