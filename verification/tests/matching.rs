use matching_engine::decimal::Decimal;
use matching_engine::engine::Engine;
use matching_engine::order::crossed;
use matching_engine::order::Command;
use matching_engine::order::CommandAtTime;
use matching_engine::order::Fill;
use matching_engine::order::Order;
use matching_engine::order::Place;
use matching_engine::order::Side;
use matching_engine::order::TimeInForce;
use std::collections::BTreeSet;

fn amount(text: &str) -> Decimal {
    Decimal::parse(text).unwrap()
}

fn gtc(uuid: u128, side: Side, size: &str, price: &str) -> Place {
    Place::LimitOrder { uuid, side, amount: amount(size), tif: TimeInForce::GTC, price: amount(price) }
}

fn rest(engine: &mut Engine, now: u64, place: Place) {
    let answer = engine.call(CommandAtTime { now, command: Command::Place(place) }).unwrap();
    assert!(answer.fills.is_empty());
}

fn set_of(list: &[u128]) -> BTreeSet<u128> {
    list.iter().copied().collect()
}

#[test]
fn a_maker_filled_entirely_is_left_with_nothing() {
    let mut engine = Engine::new();
    rest(&mut engine, 1, gtc(1, Side::Sell, "1", "10"));
    let mut taker = Order::create(gtc(2, Side::Buy, "3", "10"), 2);
    let answer = engine._match(&mut taker).unwrap();
    assert_eq!(
        answer.fills,
        vec![Fill { base_amount: amount("1"), price: amount("10"), maker_uuid: 1, taker_uuid: 2 }]
    );
    assert_eq!(answer.closed, set_of(&[1]));
    assert_eq!(taker.remaining_amount, amount("2"));
    assert_eq!(taker.amount, amount("3"));
    // the maker waits in the book, with nothing left, for its removal
    let makers = engine.resting(Side::Sell);
    assert_eq!(makers.len(), 1);
    assert_eq!(makers.get(0).uuid, 1);
    assert!(makers.get(0).remaining_amount.is_zero());
    assert_eq!(makers.get(0).amount, amount("1"));
    engine.remove_all(&answer.closed);
    assert_eq!(engine.resting(Side::Sell).len(), 0);
    assert!(!engine.remove(1));
}

#[test]
fn a_maker_filled_in_part_has_the_fill_less() {
    let mut engine = Engine::new();
    rest(&mut engine, 1, gtc(1, Side::Buy, "5", "10"));
    let mut taker = Order::create(gtc(2, Side::Sell, "2", "9"), 2);
    let answer = engine._match(&mut taker).unwrap();
    assert_eq!(
        answer.fills,
        vec![Fill { base_amount: amount("2"), price: amount("10"), maker_uuid: 1, taker_uuid: 2 }]
    );
    assert_eq!(answer.closed, set_of(&[2]));
    assert!(taker.remaining_amount.is_zero());
    assert_eq!(engine.resting(Side::Buy).get(0).remaining_amount, amount("3"));
}

#[test]
fn every_fill_is_taken_from_its_maker() {
    let mut engine = Engine::new();
    rest(&mut engine, 1, gtc(1, Side::Sell, "1.5", "10"));
    rest(&mut engine, 2, gtc(2, Side::Sell, "2", "11"));
    rest(&mut engine, 3, gtc(3, Side::Sell, "4", "12"));
    rest(&mut engine, 4, gtc(4, Side::Sell, "1", "13"));
    let mut taker = Order::create(gtc(5, Side::Buy, "5", "12"), 5);
    let answer = engine._match(&mut taker).unwrap();
    let sizes: Vec<Decimal> = answer.fills.iter().map(|f| f.base_amount).collect();
    assert_eq!(sizes, vec![amount("1.5"), amount("2"), amount("1.5")]);
    assert_eq!(answer.closed, set_of(&[1, 2, 5]));
    let makers = engine.resting(Side::Sell);
    assert_eq!(makers.len(), 4);
    assert!(makers.get(0).remaining_amount.is_zero());
    assert!(makers.get(1).remaining_amount.is_zero());
    assert_eq!(makers.get(2).remaining_amount, amount("2.5"));
    assert_eq!(makers.get(3).remaining_amount, amount("1"));
    assert!(taker.remaining_amount.is_zero());
}

#[test]
fn no_crossing_maker_keeps_an_amount_while_the_taker_has_one() {
    let mut engine = Engine::new();
    rest(&mut engine, 1, gtc(1, Side::Sell, "1", "10"));
    rest(&mut engine, 2, gtc(2, Side::Sell, "1", "12"));
    let mut taker = Order::create(gtc(3, Side::Buy, "5", "11"), 3);
    let answer = engine._match(&mut taker).unwrap();
    assert_eq!(answer.fills.len(), 1);
    assert_eq!(answer.closed, set_of(&[1]));
    assert_eq!(taker.remaining_amount, amount("4"));
    let makers = engine.resting(Side::Sell);
    for i in 0..makers.len() {
        let maker = makers.get(i);
        assert!(maker.remaining_amount.is_zero() || !crossed(&taker, maker));
    }
    assert!(makers.get(0).remaining_amount.is_zero());
    assert_eq!(makers.get(1).remaining_amount, amount("1"));
}

#[test]
fn equal_amounts_written_differently_leave_nothing() {
    let mut engine = Engine::new();
    rest(&mut engine, 1, gtc(1, Side::Sell, "1.0", "10"));
    let mut taker = Order::create(gtc(2, Side::Buy, "1", "10"), 2);
    let answer = engine._match(&mut taker).unwrap();
    assert_eq!(answer.fills.len(), 1);
    assert_eq!(answer.fills[0].base_amount.to_text(), "1");
    assert_eq!(answer.closed, set_of(&[1, 2]));
    assert!(taker.remaining_amount.is_zero());
    let maker = engine.resting(Side::Sell).get(0);
    assert!(maker.remaining_amount.is_zero());
    assert_eq!(maker.remaining_amount.to_text(), "0.0");
}

#[test]
fn an_immediate_order_placed_on_a_new_engine_closes() {
    let mut engine = Engine::new();
    let place = Place::LimitOrder {
        uuid: 1,
        side: Side::Buy,
        amount: amount("2"),
        tif: TimeInForce::IOC,
        price: amount("100"),
    };
    let answer = engine.place(place, 1).unwrap();
    assert!(answer.fills.is_empty());
    assert_eq!(answer.closed, set_of(&[1]));
    assert_eq!(engine.resting(Side::Buy).len(), 0);
    assert_eq!(engine.resting(Side::Sell).len(), 0);
    assert!(!engine.remove(1));
    assert!(engine.flush(&u64::MAX).is_empty());
    assert_eq!(engine.last_tick(), 0);
}

#[test]
fn a_placed_market_order_takes_the_highest_bid() {
    let mut engine = Engine::new();
    rest(&mut engine, 1, gtc(1, Side::Buy, "1", "99"));
    rest(&mut engine, 2, gtc(2, Side::Buy, "1", "101"));
    let answer = engine.place(Place::MarketOrder { uuid: 3, side: Side::Sell, amount: amount("1") }, 3).unwrap();
    assert_eq!(
        answer.fills,
        vec![Fill { base_amount: amount("1"), price: amount("101"), maker_uuid: 2, taker_uuid: 3 }]
    );
    assert_eq!(answer.closed, set_of(&[2, 3]));
    let bids = engine.resting(Side::Buy);
    assert_eq!(bids.len(), 1);
    assert_eq!(bids.get(0).uuid, 1);
    assert_eq!(bids.get(0).remaining_amount, amount("1"));
    assert_eq!(engine.last_tick(), 2);
}

#[test]
fn a_placed_market_order_walks_the_asks() {
    let mut engine = Engine::new();
    rest(&mut engine, 1, gtc(1, Side::Sell, "1", "5"));
    rest(&mut engine, 2, gtc(2, Side::Sell, "2", "7"));
    let answer = engine.place(Place::MarketOrder { uuid: 3, side: Side::Buy, amount: amount("2") }, 3).unwrap();
    assert_eq!(
        answer.fills,
        vec![
            Fill { base_amount: amount("1"), price: amount("5"), maker_uuid: 1, taker_uuid: 3 },
            Fill { base_amount: amount("1"), price: amount("7"), maker_uuid: 2, taker_uuid: 3 },
        ]
    );
    assert_eq!(answer.closed, set_of(&[1, 3]));
    let asks = engine.resting(Side::Sell);
    assert_eq!(asks.len(), 1);
    assert_eq!(asks.get(0).uuid, 2);
    assert_eq!(asks.get(0).remaining_amount, amount("1"));
    assert_eq!(engine.resting(Side::Buy).len(), 0);
}

#[test]
fn a_placed_order_rests_with_what_is_left() {
    let mut engine = Engine::new();
    rest(&mut engine, 1, gtc(1, Side::Sell, "1", "5"));
    let answer = engine.place(gtc(2, Side::Buy, "3", "6"), 4).unwrap();
    assert_eq!(answer.closed, set_of(&[1]));
    assert_eq!(engine.resting(Side::Sell).len(), 0);
    let bids = engine.resting(Side::Buy);
    assert_eq!(bids.len(), 1);
    assert_eq!(bids.get(0).created, 4);
    assert_eq!(bids.get(0).remaining_amount, amount("2"));
    assert_eq!(bids.get(0).amount, amount("3"));
}

#[test]
fn an_inserted_order_is_in_the_book_and_in_both_indices() {
    let mut engine = Engine::new();
    let early = Order::create(
        Place::LimitOrder { uuid: 1, side: Side::Buy, amount: amount("1"), tif: TimeInForce::GTD(9), price: amount("10") },
        1,
    );
    let late = Order::create(
        Place::LimitOrder { uuid: 2, side: Side::Buy, amount: amount("1"), tif: TimeInForce::GTD(8), price: amount("11") },
        2,
    );
    let other = Order::create(gtc(3, Side::Sell, "1", "20"), 3);
    engine.insert(early);
    engine.insert(late);
    engine.insert(other);
    let bids = engine.resting(Side::Buy);
    assert_eq!(bids.len(), 2);
    assert_eq!(bids.get(0).uuid, 2);
    assert_eq!(bids.get(1).uuid, 1);
    assert_eq!(engine.resting(Side::Sell).len(), 1);
    // both buy orders expire at 10: the expiry index holds them side by side
    assert_eq!(engine.flush(&10), set_of(&[1, 2]));
    assert_eq!(engine.resting(Side::Buy).len(), 0);
    // the index of identifiers finds the third
    assert!(engine.remove(3));
    assert!(!engine.remove(3));
    assert_eq!(engine.resting(Side::Sell).len(), 0);
    assert!(engine.flush(&u64::MAX).is_empty());
}
