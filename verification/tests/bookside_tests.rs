use clobby::bookside::{create_book_side, BookSide, BookSideOrder, Side, BOOK_SIDE_CAPACITY};
use clobby::errors::ClobbyProgramError;

const MARKET: u64 = 99;

fn ask_book() -> BookSide {
    let (_bids, asks) = create_book_side(MARKET);
    asks
}

fn bid_book() -> BookSide {
    let (bids, _asks) = create_book_side(MARKET);
    bids
}

fn order(id: u64, base: u64, quote: u64, owner: u64) -> BookSideOrder {
    BookSideOrder {
        order_id: id,
        base_amount: base,
        quote_amount: quote,
        order_authority: owner,
    }
}

#[test]
fn new_books_are_empty_and_tagged() {
    let (bids, asks) = create_book_side(MARKET);
    assert_eq!(bids.side, 0);
    assert_eq!(asks.side, 1);
    assert_eq!(bids.order_count, 0);
    assert_eq!(asks.order_count, 0);
    assert_eq!(bids.orders.len(), BOOK_SIDE_CAPACITY);
    assert_eq!(asks.orders.len(), BOOK_SIDE_CAPACITY);
    assert!(bids.orders.iter().all(|o| o.order_id == 0 && o.order_authority == MARKET));
}

#[test]
fn get_side_in_enum_decodes_and_rejects() {
    let (mut bids, asks) = create_book_side(MARKET);
    assert_eq!(bids.get_side_in_enum(), Ok(Side::Bid));
    assert_eq!(asks.get_side_in_enum(), Ok(Side::Ask));
    bids.side = 7;
    assert_eq!(bids.get_side_in_enum(), Err(ClobbyProgramError::InvalidBookSide));
}

#[test]
fn asks_sort_ascending_by_price_per_base() {
    let mut asks = ask_book();
    asks.insert(order(1, 1000, 3000, 5));
    asks.insert(order(2, 1000, 1000, 5));
    asks.insert(order(3, 1000, 2000, 5));
    assert_eq!(asks.order_count, 3);
    let ids: Vec<u64> = (0..3).map(|i| asks.orders[i].order_id).collect();
    assert_eq!(ids, vec![2, 3, 1]);
}

#[test]
fn bids_sort_descending_by_price_per_base() {
    let mut bids = bid_book();
    bids.insert(order(1, 1000, 3000, 5));
    bids.insert(order(2, 1000, 1000, 5));
    bids.insert(order(3, 1000, 2000, 5));
    let ids: Vec<u64> = (0..3).map(|i| bids.orders[i].order_id).collect();
    assert_eq!(ids, vec![1, 3, 2]);
}

#[test]
fn price_comparison_is_normalized_not_raw_quote() {
    // 2000 base for 4000 quote is cheaper per base unit than 1000 for 3000,
    // even though its raw quote is larger.
    let mut asks = ask_book();
    asks.insert(order(1, 1000, 3000, 5));
    asks.insert(order(2, 2000, 4000, 5));
    assert_eq!(asks.orders[0].order_id, 2);
    assert_eq!(asks.orders[1].order_id, 1);
}

#[test]
fn equal_prices_keep_arrival_order() {
    let mut asks = ask_book();
    asks.insert(order(1, 1000, 2000, 5));
    asks.insert(order(2, 2000, 4000, 6));
    asks.insert(order(3, 1000, 2000, 7));
    let ids: Vec<u64> = (0..3).map(|i| asks.orders[i].order_id).collect();
    assert_eq!(ids, vec![1, 2, 3]);
}

#[test]
fn best_returns_front_or_none() {
    let mut asks = ask_book();
    assert_eq!(asks.best(), None);
    asks.insert(order(1, 1000, 2000, 5));
    asks.insert(order(2, 1000, 1000, 5));
    let best = asks.best().unwrap();
    assert_eq!(best.order_id, 2);
}

#[test]
fn remove_and_compact_shifts_survivors_left() {
    let mut asks = ask_book();
    asks.insert(order(1, 1000, 1000, 5));
    asks.insert(order(2, 1000, 2000, 5));
    asks.insert(order(3, 1000, 3000, 5));
    asks.remove_and_compact(1);
    assert_eq!(asks.order_count, 2);
    assert_eq!(asks.orders[0].order_id, 1);
    assert_eq!(asks.orders[1].order_id, 3);
    // The freed slot is a tombstone owned by the market.
    let tail = asks.orders[2];
    assert_eq!(tail.order_id, 0);
    assert_eq!(tail.base_amount, 0);
    assert_eq!(tail.order_authority, MARKET);
}

#[test]
fn find_order_index_scans_live_region_only() {
    let mut asks = ask_book();
    asks.insert(order(10, 1000, 1000, 5));
    asks.insert(order(20, 1000, 2000, 5));
    assert_eq!(asks.find_order_index(20), Some(1));
    assert_eq!(asks.find_order_index(99), None);
    assert_eq!(asks.find_order_index(0), None);
}
