use clobby::balance::{create_user_balance_account, ResetSide, UserBalance};
use clobby::errors::ClobbyProgramError;
use clobby::market::{create_market, CreateMarketArgs, Market};
use clobby::settle::{settle_user_balance, settle_user_onchain_balance};
use clobby::user_onchain_balance;
use clobby::user_onchain_balance::create_user_onchain_balance;

fn args(lot: u64, min_base: u64, min_quote: u64) -> CreateMarketArgs {
    CreateMarketArgs {
        name: String::from("coin-market"),
        base_lot_size: lot,
        min_base_amount: min_base,
        min_quote_amount: min_quote,
        market_account: 1,
        market_authority: 2,
        consume_events_authority: 3,
        market_events: 4,
        bids: 5,
        asks: 6,
        base_token: 7,
        quote_token: 8,
        base_token_vault: 9,
        quote_token_vault: 10,
    }
}

fn market() -> Market {
    create_market(args(1000, 1, 1)).unwrap()
}

#[test]
fn create_market_records_parameters() {
    let m = market();
    assert_eq!(m.base_lot_size, 1000);
    assert_eq!(m.total_orders, 0);
    assert_eq!(m.market_account, 1);
    assert_eq!(m.consume_events_authority, 3);
    assert_eq!(m.base_token, 7);
    assert_eq!(m.quote_token, 8);
    assert_eq!(m.name, "coin-market");
}

#[test]
fn create_market_rejects_zero_lot_size() {
    assert!(matches!(
        create_market(args(0, 1, 1)),
        Err(ClobbyProgramError::InvalidMinimumOrderSize)
    ));
}

#[test]
fn create_market_rejects_zero_minimum_sizes() {
    assert!(matches!(
        create_market(args(1000, 0, 1)),
        Err(ClobbyProgramError::InvalidMinimumOrderSize)
    ));
    assert!(matches!(
        create_market(args(1000, 1, 0)),
        Err(ClobbyProgramError::InvalidMinimumOrderSize)
    ));
}

#[test]
fn user_balance_account_starts_zeroed() {
    let m = market();
    let b = create_user_balance_account(42, &m);
    assert_eq!(b.user, 42);
    assert_eq!(b.market, 1);
    assert_eq!(b.base_token, 7);
    assert_eq!(b.quote_token, 8);
    assert_eq!(b.base_amount, 0);
    assert_eq!(b.quote_amount, 0);
}

#[test]
fn reset_balance_zeroes_one_side() {
    let m = market();
    let mut b = UserBalance { base_amount: 5, quote_amount: 7, ..create_user_balance_account(42, &m) };
    b.reset_balance(ResetSide::Base);
    assert_eq!(b.base_amount, 0);
    assert_eq!(b.quote_amount, 7);
    b.quote_amount = 9;
    b.reset_balance(ResetSide::Quote);
    assert_eq!(b.quote_amount, 0);
}

#[test]
fn settle_drains_and_repeats_as_noop() {
    let m = market();
    let mut b = UserBalance { base_amount: 11, quote_amount: 22, ..create_user_balance_account(42, &m) };
    assert_eq!(settle_user_balance(&mut b), (11, 22));
    assert_eq!(b.base_amount, 0);
    assert_eq!(b.quote_amount, 0);
    assert_eq!(settle_user_balance(&mut b), (0, 0));
}

#[test]
fn onchain_balance_mirrors_the_plain_one() {
    let m = market();
    let mut b = create_user_onchain_balance(42, &m);
    assert_eq!(b.base_onchain_amount, 0);
    b.base_onchain_amount = 4;
    b.quote_onchain_amount = 6;
    b.reset_balance(user_onchain_balance::ResetSide::Base);
    assert_eq!(b.base_onchain_amount, 0);
    assert_eq!(b.quote_onchain_amount, 6);
    b.base_onchain_amount = 8;
    assert_eq!(settle_user_onchain_balance(&mut b), (8, 6));
    assert_eq!(b.base_onchain_amount, 0);
    assert_eq!(b.quote_onchain_amount, 0);
}
