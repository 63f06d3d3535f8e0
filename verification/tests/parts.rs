use matching_engine::book::BookSide;
use matching_engine::book::DuplicateKey;
use matching_engine::decimal::Decimal;
use matching_engine::engine::merge;
use matching_engine::engine::Engine;
use matching_engine::engine::MatchResult;
use matching_engine::expiry::ExpiryIndex;
use matching_engine::order::crossed;
use matching_engine::order::other_side;
use matching_engine::order::parse_side;
use matching_engine::order::Fill;
use matching_engine::order::Order;
use matching_engine::order::Place;
use matching_engine::order::PriceTime;
use matching_engine::order::Side;
use matching_engine::order::TimeInForce;
use matching_engine::order::MAX_LIFETIME;
use std::collections::BTreeSet;
use std::str::FromStr;

fn dec(text: &str) -> Decimal {
    Decimal::parse(text).unwrap()
}

fn order(uuid: u128, side: Side, created: u64, amount: &str, price: &str) -> Order {
    Order::create(
        Place::LimitOrder { uuid, side, amount: dec(amount), tif: TimeInForce::GTC, price: dec(price) },
        created,
    )
}

#[test]
fn decimal_parts_and_text() {
    let d = dec("-12.340");
    assert_eq!(d.mantissa(), -12340);
    assert_eq!(d.scale(), 3);
    assert_eq!(d.to_text(), "-12.340");
    assert_eq!(Decimal::new(1999, 2).unwrap().to_text(), "19.99");
    assert_eq!(Decimal::new(5, 0), Some(dec("5")));
    assert!(Decimal::parse("abc").is_none());
    assert!(Decimal::parse("").is_none());
    assert!(Decimal::new(1, 29).is_none());
    assert!(Decimal::new(1i128 << 96, 0).is_none());
    assert!(Decimal::new(-(1i128 << 96), 0).is_none());
    assert!(Decimal::new((1i128 << 96) - 1, 28).is_some());
    assert_eq!(Decimal::zero().mantissa(), 0);
    assert_eq!(Decimal::zero().scale(), 0);
    assert_eq!(Decimal::max_value().mantissa(), (1i128 << 96) - 1);
    assert_eq!(Decimal::max_value().to_text(), "79228162514264337593543950335");
}

#[test]
fn decimal_order_ignores_scale() {
    assert!(dec("1.0").le(&dec("1.00")));
    assert!(dec("1.00").le(&dec("1.0")));
    assert!(dec("1.0").same_value(&dec("1")));
    assert!(dec("1.0") != dec("1"));
    assert!(dec("0.999").lt(&dec("1")));
    assert!(!dec("1").lt(&dec("0.999")));
    assert!(dec("-2").lt(&dec("-1.5")));
    assert!(dec("2").ge(&dec("1.9999")));
    assert!(!dec("2").le(&dec("1.9999")));
    assert!(Decimal::max_value().ge(&dec("0.0000000000000000000000000001")));
    assert!(dec("0.00").is_zero());
    assert!(!dec("0.01").is_zero());
    assert!(dec("0.01").is_positive());
    assert!(!dec("-0.01").is_positive());
    assert!(!dec("0").is_positive());
    assert_eq!(dec("3").min(dec("2.5")), dec("2.5"));
    assert_eq!(dec("1.0").min(dec("1")), dec("1.0"));
    assert_eq!(dec("1").min(dec("1.0")), dec("1"));
}

#[test]
fn decimal_negation() {
    assert_eq!(dec("1.50").neg(), dec("-1.50"));
    assert_eq!(dec("-7").neg(), dec("7"));
    assert_eq!(dec("0.0").neg().mantissa(), 0);
}

#[test]
fn decimal_exact_difference() {
    assert_eq!(dec("5").checked_sub(dec("1.25")), Some(dec("3.75")));
    assert_eq!(dec("1.25").checked_sub(dec("5")), Some(dec("-3.75")));
    assert_eq!(dec("2.50").checked_sub(dec("0.5")), Some(dec("2.00")));
    assert_eq!(dec("2.5").checked_sub(dec("2.5")), Some(dec("0.0")));
    assert_eq!(dec("7.0").checked_sub(dec("0.000")), Some(dec("7.0")));
    assert_eq!(dec("0").checked_sub(dec("1.20")), Some(dec("-1.20")));
    assert_eq!(dec("0.00").checked_sub(dec("0.0")), Some(dec("0.0")));
    assert_eq!(Decimal::max_value().checked_sub(dec("1")), Some(dec("79228162514264337593543950334")));
    assert_eq!(Decimal::max_value().checked_sub(dec("0.5")), None);
    assert_eq!(Decimal::max_value().checked_sub(Decimal::max_value().neg()), None);
    assert_eq!(dec("-1").checked_sub(Decimal::max_value()), None);
}

#[test]
fn decimal_product() {
    assert_eq!(dec("1.5").checked_mul(dec("2.25")), Some(dec("3.375")));
    assert_eq!(dec("0.00").checked_mul(dec("7")), Some(dec("0")));
    assert_eq!(dec("-3").checked_mul(dec("4")), Some(dec("-12")));
    assert_eq!(Decimal::max_value().checked_mul(dec("2")), None);
    let fill = Fill { base_amount: dec("2"), price: dec("100.5"), maker_uuid: 1, taker_uuid: 2 };
    assert_eq!(fill.quote_amount(), Some(dec("201.0")));
}

#[test]
fn sides() {
    assert_eq!(other_side(Side::Buy), Side::Sell);
    assert_eq!(other_side(Side::Sell), Side::Buy);
    assert_eq!(parse_side("buy").ok(), Some(Side::Buy));
    assert_eq!(parse_side("sell").ok(), Some(Side::Sell));
    assert!(parse_side("Buy").is_err());
    assert!(parse_side("").is_err());
    assert_eq!(Side::from_str("sell").ok(), Some(Side::Sell));
    assert!(Side::from_str("hold").is_err());
}

#[test]
fn order_creation_and_expiry() {
    let limit = Order::create(
        Place::LimitOrder { uuid: 7, side: Side::Sell, amount: dec("2"), tif: TimeInForce::GTD(50), price: dec("9") },
        100,
    );
    assert_eq!(limit.uuid, 7);
    assert_eq!(limit.created, 100);
    assert_eq!(limit.remaining_amount, dec("2"));
    assert_eq!(limit.amount, dec("2"));
    assert_eq!(limit.price, dec("9"));
    assert_eq!(limit.expiry(), 150);
    let buy = Order::create(Place::MarketOrder { uuid: 8, side: Side::Buy, amount: dec("1") }, 5);
    assert_eq!(buy.tif, TimeInForce::IOC);
    assert_eq!(buy.price, Decimal::max_value());
    assert_eq!(buy.expiry(), 5);
    let sell = Order::create(Place::MarketOrder { uuid: 8, side: Side::Sell, amount: dec("1") }, 5);
    assert_eq!(sell.price, Decimal::zero());
    let gtc = order(1, Side::Buy, 10, "1", "1");
    assert_eq!(gtc.expiry(), 10 + MAX_LIFETIME);
    assert_eq!(MAX_LIFETIME, 90 * 24 * 60 * 60 * 1_000_000_000);
    assert_eq!(Place::MarketOrder { uuid: 8, side: Side::Buy, amount: dec("1") }.uuid(), 8);
    assert!(Place::MarketOrder { uuid: 8, side: Side::Buy, amount: dec("1") }.is_valid_at(u64::MAX));
    assert!(!Place::MarketOrder { uuid: 8, side: Side::Buy, amount: dec("0") }.is_valid_at(1));
}

#[test]
fn keys_order_each_side_best_first() {
    let high = order(1, Side::Buy, 5, "1", "101");
    let low = order(2, Side::Buy, 1, "1", "100");
    assert!(high.key().precedes(&low.key()));
    assert!(!low.key().precedes(&high.key()));
    let cheap = order(3, Side::Sell, 5, "1", "100");
    let dear = order(4, Side::Sell, 1, "1", "101");
    assert!(cheap.key().precedes(&dear.key()));
    let early = order(5, Side::Sell, 1, "1", "100.0");
    assert!(early.key().precedes(&cheap.key()));
    assert!(!cheap.key().precedes(&early.key()));
    assert!(cheap.key().coincides(&PriceTime(dec("100.00"), 5)));
    assert!(!cheap.key().coincides(&early.key()));
    assert_eq!(high.key(), PriceTime(dec("-101"), 5));
    assert_eq!(high.locator().1, dec("101"));
}

#[test]
fn crossing() {
    let buyer = order(1, Side::Buy, 1, "1", "100");
    let seller = order(2, Side::Sell, 2, "1", "100");
    assert!(crossed(&buyer, &seller));
    assert!(crossed(&seller, &buyer));
    assert!(!crossed(&buyer, &order(3, Side::Sell, 2, "1", "100.01")));
    assert!(crossed(&buyer, &order(3, Side::Sell, 2, "1", "99.99")));
    assert!(!crossed(&seller, &order(3, Side::Buy, 2, "1", "99.99")));
    let mut spent = buyer;
    spent.remaining_amount = dec("0");
    assert!(!crossed(&spent, &seller));
}

#[test]
fn book_side_keeps_priority_order() {
    let mut side = BookSide::new();
    assert_eq!(side.len(), 0);
    assert_eq!(side.insert(order(1, Side::Sell, 1, "1", "12")), Ok(()));
    assert_eq!(side.insert(order(2, Side::Sell, 2, "1", "10")), Ok(()));
    assert_eq!(side.insert(order(3, Side::Sell, 3, "1", "11")), Ok(()));
    assert_eq!(side.insert(order(4, Side::Sell, 4, "1", "10.0")), Ok(()));
    let found: Vec<u128> = (0..side.len()).map(|i| side.get(i).uuid).collect();
    assert_eq!(found, vec![2, 4, 3, 1]);
    assert_eq!(side.insert(order(9, Side::Sell, 3, "5", "11.00")), Err(DuplicateKey));
    assert_eq!(side.len(), 4);
    assert_eq!(side.position(&PriceTime(dec("11"), 3)), 2);
    assert_eq!(side.position(&PriceTime(dec("10.5"), 0)), 2);
    assert_eq!(side.position(&PriceTime(dec("99"), 0)), 4);
    assert!(side.remove(&PriceTime(dec("11"), 4)).is_none());
    assert_eq!(side.remove(&PriceTime(dec("11"), 3)).map(|o| o.uuid), Some(3));
    side.set_remaining(0, dec("0.5"));
    assert_eq!(side.get(0).remaining_amount, dec("0.5"));
    assert_eq!(side.get(0).amount, dec("1"));
    assert_eq!(side.remove_first().uuid, 2);
    let left: Vec<u128> = (0..side.len()).map(|i| side.get(i).uuid).collect();
    assert_eq!(left, vec![4, 1]);
}

#[test]
fn expiry_index_hands_out_what_is_due() {
    let mut index = ExpiryIndex::new();
    assert!(index.insert(30, 1));
    assert!(index.insert(10, 2));
    assert!(index.insert(10, 3));
    assert!(index.insert(20, 4));
    assert!(!index.insert(20, 4));
    assert_eq!(index.due(9), vec![]);
    assert_eq!(index.due(10), vec![(10, 2), (10, 3)]);
    assert_eq!(index.due(25), vec![(10, 2), (10, 3), (20, 4)]);
    assert!(index.remove(10, 2));
    assert!(!index.remove(10, 2));
    assert_eq!(index.due(u64::MAX), vec![(10, 3), (20, 4), (30, 1)]);
}

#[test]
fn engine_parts() {
    let mut engine = Engine::new();
    assert_eq!(engine.last_tick(), 0);
    let mut taker = order(9, Side::Buy, 1, "1", "10");
    let nothing = engine._match(&mut taker).unwrap();
    assert!(nothing.fills.is_empty());
    assert!(nothing.closed.is_empty());
    assert_eq!(taker.remaining_amount, dec("1"));
    assert!(!engine.remove(5));
    assert!(engine.cancel(5).is_empty());
    assert!(engine.flush(&100).is_empty());
    let mut none = BTreeSet::new();
    none.insert(77);
    engine.remove_all(&none);
    let merged = merge(
        MatchResult { fills: vec![], closed: [1u128, 2].into_iter().collect() },
        [2u128, 3].into_iter().collect(),
    );
    assert_eq!(merged.closed, [1u128, 2, 3].into_iter().collect());
}
