use matching_engine::decimal::Decimal;
use matching_engine::engine::Engine;
use matching_engine::engine::MatchResult;
use matching_engine::order::Command;
use matching_engine::order::CommandAtTime;
use matching_engine::order::Place;
use matching_engine::order::Side;
use matching_engine::order::TimeInForce;
use matching_engine::state::EngineError;
use std::collections::BTreeSet;

fn dec(text: &str) -> Decimal {
    Decimal::parse(text).unwrap()
}

fn limit(engine: &mut Engine, now: u64, uuid: u128, side: Side, amount: &str, price: &str, tif: TimeInForce) -> Result<MatchResult, EngineError> {
    engine.call(CommandAtTime {
        now,
        command: Command::Place(Place::LimitOrder { uuid, side, amount: dec(amount), tif, price: dec(price) }),
    })
}

fn ids(list: &[u128]) -> BTreeSet<u128> {
    list.iter().copied().collect()
}

fn resting_ids(engine: &Engine) -> BTreeSet<u128> {
    let mut all = BTreeSet::new();
    for side in [Side::Buy, Side::Sell] {
        let book = engine.resting(side);
        for i in 0..book.len() {
            all.insert(book.get(i).uuid);
        }
    }
    all
}

#[test]
fn fills_add_up_to_what_the_taker_lost() {
    let mut engine = Engine::new();
    limit(&mut engine, 1, 1, Side::Sell, "1.5", "10", TimeInForce::GTC).unwrap();
    limit(&mut engine, 2, 2, Side::Sell, "2.25", "11", TimeInForce::GTC).unwrap();
    limit(&mut engine, 3, 3, Side::Sell, "4", "12", TimeInForce::GTC).unwrap();
    let result = limit(&mut engine, 4, 9, Side::Buy, "5", "11", TimeInForce::GTC).unwrap();
    assert_eq!(result.fills.len(), 2);
    assert_eq!(result.fills[0].base_amount, dec("1.5"));
    assert_eq!(result.fills[1].base_amount, dec("2.25"));
    // 5 - 1.5 - 2.25 = 1.25 rests
    let rest = engine.resting(Side::Buy).get(0).remaining_amount;
    assert_eq!(rest, dec("1.25"));
    let traded = result.fills[0].base_amount.mantissa() * 10 + result.fills[1].base_amount.mantissa();
    assert_eq!(traded, 375);
    assert_eq!(rest.mantissa() + traded, 500);
}

#[test]
fn fills_follow_price_then_time() {
    let mut engine = Engine::new();
    limit(&mut engine, 1, 1, Side::Sell, "1", "12", TimeInForce::GTC).unwrap();
    limit(&mut engine, 2, 2, Side::Sell, "1", "10", TimeInForce::GTC).unwrap();
    limit(&mut engine, 3, 3, Side::Sell, "1", "11", TimeInForce::GTC).unwrap();
    limit(&mut engine, 4, 4, Side::Sell, "1", "10", TimeInForce::GTC).unwrap();
    limit(&mut engine, 5, 5, Side::Sell, "1", "13", TimeInForce::GTC).unwrap();
    let result = limit(&mut engine, 6, 9, Side::Buy, "10", "12", TimeInForce::GTC).unwrap();
    let makers: Vec<u128> = result.fills.iter().map(|f| f.maker_uuid).collect();
    assert_eq!(makers, vec![2, 4, 3, 1]);
    assert_eq!(result.closed, ids(&[1, 2, 3, 4]));
    assert_eq!(engine.resting(Side::Sell).get(0).uuid, 5);
    assert_eq!(engine.resting(Side::Buy).get(0).remaining_amount, dec("6"));
}

#[test]
fn fills_are_at_the_maker_price() {
    let mut engine = Engine::new();
    limit(&mut engine, 1, 1, Side::Buy, "1", "50", TimeInForce::GTC).unwrap();
    limit(&mut engine, 2, 2, Side::Buy, "1", "49.5", TimeInForce::GTC).unwrap();
    let result = limit(&mut engine, 3, 9, Side::Sell, "2", "40", TimeInForce::GTC).unwrap();
    assert_eq!(result.fills.len(), 2);
    assert_eq!(result.fills[0].price, dec("50"));
    assert_eq!(result.fills[1].price, dec("49.5"));
    assert_eq!(result.fills[0].taker_uuid, 9);
}

#[test]
fn ioc_never_rests() {
    let mut engine = Engine::new();
    limit(&mut engine, 1, 1, Side::Sell, "1", "10", TimeInForce::GTC).unwrap();
    let result = limit(&mut engine, 2, 9, Side::Buy, "3", "10", TimeInForce::IOC).unwrap();
    assert_eq!(result.fills.len(), 1);
    assert!(result.closed.contains(&9));
    assert!(!resting_ids(&engine).contains(&9));
}

#[test]
fn closed_ids_are_exactly_those_that_left() {
    let mut engine = Engine::new();
    limit(&mut engine, 1, 1, Side::Sell, "1", "10", TimeInForce::GTC).unwrap();
    limit(&mut engine, 2, 2, Side::Sell, "2", "11", TimeInForce::GTD(3)).unwrap();
    limit(&mut engine, 3, 3, Side::Sell, "2", "12", TimeInForce::GTC).unwrap();
    let before = resting_ids(&engine);
    let result = limit(&mut engine, 6, 9, Side::Buy, "2", "12", TimeInForce::GTC).unwrap();
    let after = resting_ids(&engine);
    for id in [1u128, 2, 3, 9] {
        assert_eq!(result.closed.contains(&id), !after.contains(&id));
    }
    for id in result.closed.iter() {
        assert!(before.contains(id) || *id == 9);
    }
    assert_eq!(result.closed, ids(&[1, 2, 9]));
    assert_eq!(after, ids(&[3]));
}

#[test]
fn nothing_due_rests_after_a_flush() {
    let mut engine = Engine::new();
    limit(&mut engine, 1, 1, Side::Buy, "1", "10", TimeInForce::GTD(9)).unwrap();
    limit(&mut engine, 2, 2, Side::Buy, "1", "10", TimeInForce::GTD(8)).unwrap();
    limit(&mut engine, 3, 3, Side::Sell, "1", "20", TimeInForce::GTD(8)).unwrap();
    limit(&mut engine, 4, 4, Side::Sell, "1", "20", TimeInForce::GTC).unwrap();
    let result = engine.call(CommandAtTime { now: 10, command: Command::Flush() }).unwrap();
    assert_eq!(result.closed, ids(&[1, 2]));
    for side in [Side::Buy, Side::Sell] {
        let book = engine.resting(side);
        for i in 0..book.len() {
            assert!(book.get(i).expiry() > 10);
        }
    }
    assert_eq!(resting_ids(&engine), ids(&[3, 4]));
}

#[test]
fn equal_expiries_are_both_flushed() {
    let mut engine = Engine::new();
    limit(&mut engine, 1, 1, Side::Buy, "1", "10", TimeInForce::GTD(9)).unwrap();
    limit(&mut engine, 2, 2, Side::Buy, "1", "11", TimeInForce::GTD(8)).unwrap();
    let result = engine.call(CommandAtTime { now: 10, command: Command::Flush() }).unwrap();
    assert_eq!(result.closed, ids(&[1, 2]));
    assert!(resting_ids(&engine).is_empty());
}

#[test]
fn a_time_that_is_not_later_is_refused_and_changes_nothing() {
    let mut engine = Engine::new();
    limit(&mut engine, 5, 1, Side::Buy, "1", "10", TimeInForce::GTC).unwrap();
    let same = limit(&mut engine, 5, 2, Side::Sell, "1", "10", TimeInForce::GTC);
    assert_eq!(same.err(), Some(EngineError::NonMonotonicTime));
    let earlier = engine.call(CommandAtTime { now: 4, command: Command::Cancel(1) });
    assert_eq!(earlier.err(), Some(EngineError::NonMonotonicTime));
    assert_eq!(engine.last_tick(), 5);
    assert_eq!(resting_ids(&engine), ids(&[1]));
    assert_eq!(engine.resting(Side::Buy).get(0).remaining_amount, dec("1"));
}

#[test]
fn cancelling_twice_closes_once() {
    let mut engine = Engine::new();
    limit(&mut engine, 1, 1, Side::Buy, "1", "10", TimeInForce::GTC).unwrap();
    limit(&mut engine, 2, 2, Side::Buy, "1", "9", TimeInForce::GTC).unwrap();
    let first = engine.call(CommandAtTime { now: 3, command: Command::Cancel(1) }).unwrap();
    assert_eq!(first.closed, ids(&[1]));
    let after_first = resting_ids(&engine);
    let second = engine.call(CommandAtTime { now: 4, command: Command::Cancel(1) }).unwrap();
    assert!(second.closed.is_empty());
    assert_eq!(resting_ids(&engine), after_first);
    assert_eq!(after_first, ids(&[2]));
}

#[test]
fn an_invalid_order_is_refused() {
    let mut engine = Engine::new();
    assert_eq!(limit(&mut engine, 1, 1, Side::Buy, "0", "10", TimeInForce::GTC).err(), Some(EngineError::InvalidOrder));
    assert_eq!(limit(&mut engine, 2, 1, Side::Buy, "-1", "10", TimeInForce::GTC).err(), Some(EngineError::InvalidOrder));
    assert_eq!(limit(&mut engine, 3, 1, Side::Buy, "1", "10", TimeInForce::GTD(0)).err(), Some(EngineError::InvalidOrder));
    assert!(resting_ids(&engine).is_empty());
    assert!(limit(&mut engine, 4, 1, Side::Buy, "1", "10", TimeInForce::GTD(1)).is_ok());
    assert_eq!(
        limit(&mut engine, u64::MAX - 1, 2, Side::Buy, "1", "10", TimeInForce::GTC).err(),
        Some(EngineError::InvalidOrder)
    );
}

#[test]
fn the_clock_advances_before_an_order_is_refused() {
    let mut engine = Engine::new();
    limit(&mut engine, 1, 1, Side::Buy, "1", "10", TimeInForce::GTD(5)).unwrap();
    limit(&mut engine, 2, 2, Side::Buy, "1", "9", TimeInForce::GTC).unwrap();
    // the order with identifier 1 expires at 6
    assert_eq!(limit(&mut engine, 7, 3, Side::Sell, "0", "10", TimeInForce::GTC).err(), Some(EngineError::InvalidOrder));
    assert_eq!(engine.last_tick(), 7);
    assert_eq!(resting_ids(&engine), ids(&[2]));
    assert_eq!(
        limit(&mut engine, 7, 3, Side::Sell, "1", "10", TimeInForce::GTC).err(),
        Some(EngineError::NonMonotonicTime)
    );
    assert_eq!(engine.last_tick(), 7);
}

#[test]
fn the_clock_stands_at_the_time_of_each_command() {
    let mut engine = Engine::new();
    limit(&mut engine, 3, 1, Side::Buy, "1", "10", TimeInForce::GTC).unwrap();
    assert_eq!(engine.last_tick(), 3);
    engine.call(CommandAtTime { now: 8, command: Command::Cancel(9) }).unwrap();
    assert_eq!(engine.last_tick(), 8);
    engine.call(CommandAtTime { now: 9, command: Command::Flush() }).unwrap();
    assert_eq!(engine.last_tick(), 9);
    assert_eq!(limit(&mut engine, 10, 1, Side::Sell, "1", "20", TimeInForce::GTC).err(), Some(EngineError::DuplicateId));
    assert_eq!(engine.last_tick(), 10);
}

#[test]
fn a_resting_identifier_cannot_be_placed_again() {
    let mut engine = Engine::new();
    limit(&mut engine, 1, 1, Side::Buy, "1", "10", TimeInForce::GTC).unwrap();
    assert_eq!(limit(&mut engine, 2, 1, Side::Sell, "1", "20", TimeInForce::GTC).err(), Some(EngineError::DuplicateId));
    assert_eq!(resting_ids(&engine), ids(&[1]));
    engine.call(CommandAtTime { now: 3, command: Command::Cancel(1) }).unwrap();
    assert!(limit(&mut engine, 4, 1, Side::Sell, "1", "20", TimeInForce::GTC).is_ok());
    assert_eq!(engine.resting(Side::Sell).get(0).uuid, 1);
}

#[test]
fn an_inexact_remainder_is_refused() {
    let mut engine = Engine::new();
    // 2^96 - 1 at scale 0 cannot take 28 decimal places
    limit(&mut engine, 1, 1, Side::Sell, "79228162514264337593543950335", "10", TimeInForce::GTC).unwrap();
    let result = limit(&mut engine, 2, 2, Side::Buy, "0.5", "10", TimeInForce::GTC);
    assert_eq!(result.err(), Some(EngineError::InexactAmount));
    assert_eq!(resting_ids(&engine), ids(&[1]));
    assert_eq!(engine.resting(Side::Sell).get(0).remaining_amount, dec("79228162514264337593543950335"));
    let whole = limit(&mut engine, 3, 3, Side::Buy, "5", "10", TimeInForce::GTC).unwrap();
    assert_eq!(whole.fills.len(), 1);
    assert_eq!(engine.resting(Side::Sell).get(0).remaining_amount, dec("79228162514264337593543950330"));
}
