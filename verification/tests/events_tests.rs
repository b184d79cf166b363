use clobby::bookside::Side;
use clobby::errors::ClobbyProgramError;
use clobby::market_events::{
    Event, EventParams, EventType, MarketEvents, EVENT_CAPACITY,
};

const MARKET: u64 = 55;

fn params(order_id: u64, maker: u64, side: Side, kind: EventType, base: u64, quote: u64) -> EventParams {
    EventParams {
        order_id,
        maker,
        side,
        event_type: kind,
        base_amount: base,
        quote_amount: quote,
    }
}

#[test]
fn new_log_is_empty_and_cleared() {
    let log = MarketEvents::new(MARKET);
    assert_eq!(log.market, MARKET);
    assert_eq!(log.events_to_process, 0);
    assert_eq!(log.total_events_count, 0);
    assert_eq!(log.events.len(), EVENT_CAPACITY);
    assert!(log.events.iter().all(|e| e.id == 0 && e.maker == MARKET));
}

#[test]
fn can_add_event_keeps_the_safety_margin() {
    let mut log = MarketEvents::new(MARKET);
    // Empty log: up to capacity minus the margin of 6.
    assert!(log.can_add_event(506));
    assert!(!log.can_add_event(507));
    // The admission threshold moves with the unconsumed count.
    log.events_to_process = 505;
    assert!(log.can_add_event(1));
    assert!(!log.can_add_event(2));
    log.events_to_process = 506;
    assert!(log.can_add_event(0));
    assert!(!log.can_add_event(1));
}

#[test]
fn add_event_appends_with_monotonic_ids() {
    let mut log = MarketEvents::new(MARKET);
    log.add_event(params(41, 7, Side::Ask, EventType::Fill, 3000, 3000));
    log.add_event(params(42, 8, Side::Bid, EventType::Out, 1000, 500));
    assert_eq!(log.events_to_process, 2);
    assert_eq!(log.total_events_count, 2);
    let first = log.events[0];
    assert_eq!(first.id, 1);
    assert_eq!(first.order_id, 41);
    assert_eq!(first.maker, 7);
    assert_eq!(first.side, 1);
    assert_eq!(first.event_type, 0);
    assert_eq!(first.base_amount, 3000);
    assert_eq!(first.quote_amount, 3000);
    let second = log.events[1];
    assert_eq!(second.id, 2);
    assert_eq!(second.side, 0);
    assert_eq!(second.event_type, 1);
}

#[test]
fn event_tag_decoders_validate_on_read() {
    let mut log = MarketEvents::new(MARKET);
    log.add_event(params(1, 7, Side::Bid, EventType::Fill, 10, 20));
    let e = log.events[0];
    assert_eq!(e.get_side_in_enum(), Ok(Side::Bid));
    assert_eq!(e.get_event_in_enum(), Ok(EventType::Fill));
    let corrupt = Event { side: 9, event_type: 9, ..e };
    assert_eq!(corrupt.get_side_in_enum(), Err(ClobbyProgramError::InvalidBookSide));
    assert_eq!(corrupt.get_event_in_enum(), Err(ClobbyProgramError::InvalidEventType));
}

#[test]
fn remove_tombstones_an_event() {
    let mut log = MarketEvents::new(MARKET);
    log.add_event(params(1, 7, Side::Ask, EventType::Out, 10, 20));
    let mut e = log.events[0];
    e.remove(MARKET);
    assert_eq!(e.id, 0);
    assert_eq!(e.order_id, 0);
    assert_eq!(e.base_amount, 0);
    assert_eq!(e.quote_amount, 0);
    assert_eq!(e.side, 0);
    assert_eq!(e.event_type, 0);
    assert_eq!(e.maker, MARKET);
}
