use matching_engine::decimal::Decimal;
use matching_engine::engine::Engine;
use matching_engine::engine::MatchResult;
use matching_engine::order::Command;
use matching_engine::order::CommandAtTime;
use matching_engine::order::Place;
use matching_engine::order::Side;
use matching_engine::order::TimeInForce;
use std::collections::BTreeSet;

const A: u128 = 0xA;
const B: u128 = 0xB;
const C: u128 = 0xC;
const Z: u128 = 0x5A;

fn dec(text: &str) -> Decimal {
    Decimal::parse(text).unwrap()
}

fn limit(engine: &mut Engine, now: u64, uuid: u128, side: Side, amount: &str, price: &str, tif: TimeInForce) -> MatchResult {
    engine
        .call(CommandAtTime {
            now,
            command: Command::Place(Place::LimitOrder { uuid, side, amount: dec(amount), tif, price: dec(price) }),
        })
        .unwrap()
}

fn market(engine: &mut Engine, now: u64, uuid: u128, side: Side, amount: &str) -> MatchResult {
    engine
        .call(CommandAtTime { now, command: Command::Place(Place::MarketOrder { uuid, side, amount: dec(amount) }) })
        .unwrap()
}

fn ids(list: &[u128]) -> BTreeSet<u128> {
    list.iter().copied().collect()
}

#[test]
fn simple_cross() {
    let mut engine = Engine::new();
    let first = limit(&mut engine, 1, A, Side::Buy, "2", "100", TimeInForce::GTC);
    assert!(first.fills.is_empty());
    assert!(first.closed.is_empty());
    let second = market(&mut engine, 2, B, Side::Sell, "1");
    assert_eq!(second.fills.len(), 1);
    assert_eq!(second.fills[0].maker_uuid, A);
    assert_eq!(second.fills[0].taker_uuid, B);
    assert_eq!(second.fills[0].base_amount, dec("1"));
    assert_eq!(second.fills[0].price, dec("100"));
    assert_eq!(second.closed, ids(&[B]));
    let book = engine.resting(Side::Buy);
    assert_eq!(book.len(), 1);
    assert_eq!(book.get(0).uuid, A);
    assert_eq!(book.get(0).remaining_amount, dec("1"));
    assert_eq!(engine.resting(Side::Sell).len(), 0);
}

#[test]
fn ioc_without_liquidity() {
    let mut engine = Engine::new();
    let result = limit(&mut engine, 1, A, Side::Buy, "2", "100", TimeInForce::IOC);
    assert!(result.fills.is_empty());
    assert_eq!(result.closed, ids(&[A]));
    assert_eq!(engine.resting(Side::Buy).len(), 0);
    assert_eq!(engine.resting(Side::Sell).len(), 0);
}

#[test]
fn fifo_within_a_level() {
    let mut engine = Engine::new();
    limit(&mut engine, 1, A, Side::Buy, "1", "100", TimeInForce::GTC);
    limit(&mut engine, 2, B, Side::Buy, "1", "100", TimeInForce::GTC);
    let result = market(&mut engine, 3, C, Side::Sell, "1");
    assert_eq!(result.fills.len(), 1);
    assert_eq!(result.fills[0].maker_uuid, A);
    assert_eq!(result.closed, ids(&[A, C]));
    let book = engine.resting(Side::Buy);
    assert_eq!(book.len(), 1);
    assert_eq!(book.get(0).uuid, B);
}

#[test]
fn partial_taker_across_levels() {
    let mut engine = Engine::new();
    limit(&mut engine, 1, A, Side::Sell, "1", "101", TimeInForce::GTC);
    limit(&mut engine, 2, B, Side::Sell, "1", "102", TimeInForce::GTC);
    let result = limit(&mut engine, 3, C, Side::Buy, "3", "102", TimeInForce::GTC);
    assert_eq!(result.fills.len(), 2);
    assert_eq!(result.fills[0].maker_uuid, A);
    assert_eq!(result.fills[0].taker_uuid, C);
    assert_eq!(result.fills[0].base_amount, dec("1"));
    assert_eq!(result.fills[0].price, dec("101"));
    assert_eq!(result.fills[1].maker_uuid, B);
    assert_eq!(result.fills[1].taker_uuid, C);
    assert_eq!(result.fills[1].base_amount, dec("1"));
    assert_eq!(result.fills[1].price, dec("102"));
    assert_eq!(result.closed, ids(&[A, B]));
    assert_eq!(engine.resting(Side::Sell).len(), 0);
    let book = engine.resting(Side::Buy);
    assert_eq!(book.len(), 1);
    assert_eq!(book.get(0).uuid, C);
    assert_eq!(book.get(0).remaining_amount, dec("1"));
    assert_eq!(book.get(0).price, dec("102"));
    assert_eq!(book.get(0).amount, dec("3"));
}

#[test]
fn expiry_flush() {
    let mut engine = Engine::new();
    limit(&mut engine, 1, A, Side::Buy, "1", "100", TimeInForce::GTD(5));
    let result = engine.call(CommandAtTime { now: 10, command: Command::Flush() }).unwrap();
    assert!(result.fills.is_empty());
    assert_eq!(result.closed, ids(&[A]));
    assert_eq!(engine.resting(Side::Buy).len(), 0);
}

#[test]
fn cancel_unknown_then_known() {
    let mut engine = Engine::new();
    limit(&mut engine, 1, A, Side::Buy, "1", "100", TimeInForce::GTC);
    let second = engine.call(CommandAtTime { now: 2, command: Command::Cancel(Z) }).unwrap();
    assert!(second.fills.is_empty());
    assert!(second.closed.is_empty());
    assert_eq!(engine.resting(Side::Buy).len(), 1);
    let third = engine.call(CommandAtTime { now: 3, command: Command::Cancel(A) }).unwrap();
    assert!(third.fills.is_empty());
    assert_eq!(third.closed, ids(&[A]));
    assert_eq!(engine.resting(Side::Buy).len(), 0);
}

#[test]
fn taker_filled_by_first_maker_leaves_the_maker() {
    let mut engine = Engine::new();
    limit(&mut engine, 1, A, Side::Sell, "5", "10", TimeInForce::GTC);
    let result = limit(&mut engine, 2, B, Side::Buy, "2", "11", TimeInForce::GTC);
    assert_eq!(result.fills.len(), 1);
    assert_eq!(result.fills[0].base_amount, dec("2"));
    assert_eq!(result.fills[0].price, dec("10"));
    assert_eq!(result.closed, ids(&[B]));
    assert_eq!(engine.resting(Side::Sell).get(0).remaining_amount, dec("3"));
    assert_eq!(engine.resting(Side::Buy).len(), 0);
}

#[test]
fn equal_amounts_close_both() {
    let mut engine = Engine::new();
    limit(&mut engine, 1, A, Side::Sell, "2", "10", TimeInForce::GTC);
    let result = limit(&mut engine, 2, B, Side::Buy, "2.0", "10", TimeInForce::GTC);
    assert_eq!(result.fills.len(), 1);
    assert_eq!(result.fills[0].base_amount, dec("2.0"));
    assert_eq!(result.closed, ids(&[A, B]));
    assert_eq!(engine.resting(Side::Sell).len(), 0);
    assert_eq!(engine.resting(Side::Buy).len(), 0);
}

#[test]
fn market_buy_takes_any_price_and_never_rests() {
    let mut engine = Engine::new();
    limit(&mut engine, 1, A, Side::Sell, "1", "1000000", TimeInForce::GTC);
    let result = market(&mut engine, 2, B, Side::Buy, "3");
    assert_eq!(result.fills.len(), 1);
    assert_eq!(result.fills[0].price, dec("1000000"));
    assert_eq!(result.closed, ids(&[A, B]));
    assert_eq!(engine.resting(Side::Buy).len(), 0);
    assert_eq!(engine.resting(Side::Sell).len(), 0);
}

#[test]
fn flushed_orders_are_reported_with_a_placement() {
    let mut engine = Engine::new();
    limit(&mut engine, 1, A, Side::Sell, "1", "10", TimeInForce::GTD(5));
    let result = limit(&mut engine, 6, B, Side::Buy, "1", "10", TimeInForce::GTC);
    assert!(result.fills.is_empty());
    assert_eq!(result.closed, ids(&[A]));
    assert_eq!(engine.resting(Side::Buy).len(), 1);
    assert_eq!(engine.resting(Side::Sell).len(), 0);
}

#[test]
fn best_price_first_on_both_sides() {
    let mut engine = Engine::new();
    limit(&mut engine, 1, A, Side::Buy, "1", "99", TimeInForce::GTC);
    limit(&mut engine, 2, B, Side::Buy, "1", "101", TimeInForce::GTC);
    limit(&mut engine, 3, C, Side::Buy, "1", "100", TimeInForce::GTC);
    let bids = engine.resting(Side::Buy);
    assert_eq!(bids.get(0).uuid, B);
    assert_eq!(bids.get(1).uuid, C);
    assert_eq!(bids.get(2).uuid, A);
    limit(&mut engine, 4, 0x11, Side::Sell, "1", "205", TimeInForce::GTC);
    limit(&mut engine, 5, 0x12, Side::Sell, "1", "203", TimeInForce::GTC);
    limit(&mut engine, 6, 0x13, Side::Sell, "1", "204.5", TimeInForce::GTC);
    let asks = engine.resting(Side::Sell);
    assert_eq!(asks.get(0).uuid, 0x12);
    assert_eq!(asks.get(1).uuid, 0x13);
    assert_eq!(asks.get(2).uuid, 0x11);
}
