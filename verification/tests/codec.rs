use matching_engine::codec::ascending_ids;
use matching_engine::codec::cancel_command;
use matching_engine::codec::limit_order_command;
use matching_engine::codec::market_order_command;
use matching_engine::codec::parse_line;
use matching_engine::codec::parse_number;
use matching_engine::codec::parse_uuid;
use matching_engine::codec::print_result;
use matching_engine::codec::split_fields;
use matching_engine::codec::time_in_force;
use matching_engine::codec::uuid_text;
use matching_engine::codec::write_closed;
use matching_engine::codec::write_fill;
use matching_engine::codec::ParseError;
use matching_engine::decimal::Decimal;
use matching_engine::engine::Engine;
use matching_engine::engine::MatchResult;
use matching_engine::order::Command;
use matching_engine::order::CommandAtTime;
use matching_engine::order::Fill;
use matching_engine::order::Place;
use matching_engine::order::Side;
use matching_engine::order::TimeInForce;

const A: &str = "00000000-0000-0000-0000-00000000000a";
const B: &str = "00000000-0000-0000-0000-00000000000b";

fn dec(text: &str) -> Decimal {
    Decimal::parse(text).unwrap()
}

#[test]
fn fields_stand_between_commas() {
    assert_eq!(split_fields("1,flush"), vec!["1", "flush"]);
    assert_eq!(split_fields(""), vec![""]);
    assert_eq!(split_fields("abc"), vec!["abc"]);
    assert_eq!(split_fields(",a,,b,"), vec!["", "a", "", "b", ""]);
    assert_eq!(split_fields("é,ü"), vec!["é", "ü"]);
}

#[test]
fn numbers() {
    assert_eq!(parse_number("0"), Some(0));
    assert_eq!(parse_number("007"), Some(7));
    assert_eq!(parse_number("+42"), Some(42));
    assert_eq!(parse_number("18446744073709551615"), Some(u64::MAX));
    assert_eq!(parse_number("18446744073709551616"), None);
    assert_eq!(parse_number(""), None);
    assert_eq!(parse_number("+"), None);
    assert_eq!(parse_number("-1"), None);
    assert_eq!(parse_number("1 "), None);
    assert_eq!(parse_number("1_000"), None);
}

#[test]
fn identifiers() {
    assert_eq!(parse_uuid(A), Some(10));
    assert_eq!(parse_uuid("67e55044-10b1-426f-9247-bb680e5fe0c8"), Some(0x67e5504410b1426f9247bb680e5fe0c8));
    assert_eq!(parse_uuid("not-an-id"), None);
    assert_eq!(uuid_text(10), A);
    assert_eq!(uuid_text(0x67e5504410b1426f9247bb680e5fe0c8), "67e55044-10b1-426f-9247-bb680e5fe0c8");
    assert_eq!(uuid_text(u128::MAX), "ffffffff-ffff-ffff-ffff-ffffffffffff");
    assert_eq!(uuid_text(0), "00000000-0000-0000-0000-000000000000");
}

#[test]
fn times_in_force() {
    assert_eq!(time_in_force(&["IOC"]), Ok(TimeInForce::IOC));
    assert_eq!(time_in_force(&["GTC", "extra"]), Err(ParseError));
    assert_eq!(time_in_force(&["GTD", "5"]), Ok(TimeInForce::GTD(5)));
    assert_eq!(time_in_force(&["GTD", "0"]), Err(ParseError));
    assert_eq!(time_in_force(&["GTD"]), Err(ParseError));
    assert_eq!(time_in_force(&["GTD", "x"]), Err(ParseError));
    assert_eq!(time_in_force(&["GTD", "5", "6"]), Err(ParseError));
    assert_eq!(time_in_force(&["GTC", "5"]), Ok(TimeInForce::GTC));
    assert_eq!(time_in_force(&["IOC", "0"]), Ok(TimeInForce::IOC));
    assert_eq!(time_in_force(&["IOC", "x"]), Err(ParseError));
    assert_eq!(time_in_force(&["GTC", "5", ""]), Err(ParseError));
    assert_eq!(time_in_force(&["gtc"]), Err(ParseError));
    assert_eq!(time_in_force(&[]), Err(ParseError));
}

#[test]
fn commands_from_fields() {
    assert_eq!(
        limit_order_command(&[A, "buy", "2", "100", "GTC"]),
        Ok(Command::Place(Place::LimitOrder {
            uuid: 10,
            side: Side::Buy,
            amount: dec("2"),
            tif: TimeInForce::GTC,
            price: dec("100"),
        }))
    );
    assert_eq!(limit_order_command(&[A, "buy", "2", "100"]), Err(ParseError));
    assert_eq!(limit_order_command(&[A, "up", "2", "100", "GTC"]), Err(ParseError));
    assert_eq!(limit_order_command(&[A, "buy", "two", "100", "GTC"]), Err(ParseError));
    assert_eq!(limit_order_command(&[A, "buy", "2", "", "GTC"]), Err(ParseError));
    assert_eq!(limit_order_command(&["x", "buy", "2", "100", "GTC"]), Err(ParseError));
    assert_eq!(
        market_order_command(&[B, "sell", "1.50"]),
        Ok(Command::Place(Place::MarketOrder { uuid: 11, side: Side::Sell, amount: dec("1.50") }))
    );
    assert_eq!(market_order_command(&[B, "sell"]), Err(ParseError));
    assert_eq!(cancel_command(&[B]), Ok(Command::Cancel(11)));
    assert_eq!(cancel_command(&[]), Err(ParseError));
    assert_eq!(cancel_command(&["?"]), Err(ParseError));
}

#[test]
fn lines() {
    assert_eq!(parse_line("10,flush"), Ok(CommandAtTime { now: 10, command: Command::Flush() }));
    assert_eq!(
        parse_line("3,cancel,00000000-0000-0000-0000-00000000000b"),
        Ok(CommandAtTime { now: 3, command: Command::Cancel(11) })
    );
    assert_eq!(
        parse_line("1,limit,00000000-0000-0000-0000-00000000000a,buy,1,100,GTD,5"),
        Ok(CommandAtTime {
            now: 1,
            command: Command::Place(Place::LimitOrder {
                uuid: 10,
                side: Side::Buy,
                amount: dec("1"),
                tif: TimeInForce::GTD(5),
                price: dec("100"),
            }),
        })
    );
    assert_eq!(
        parse_line("2,market,00000000-0000-0000-0000-00000000000b,sell,1"),
        Ok(CommandAtTime {
            now: 2,
            command: Command::Place(Place::MarketOrder { uuid: 11, side: Side::Sell, amount: dec("1") }),
        })
    );
    assert_eq!(parse_line(""), Err(ParseError));
    assert_eq!(parse_line("5"), Err(ParseError));
    assert_eq!(parse_line("x,flush"), Err(ParseError));
    assert_eq!(parse_line("5,fly"), Err(ParseError));
    assert_eq!(parse_line("5,limit"), Err(ParseError));
    assert_eq!(parse_line("5,cancel"), Err(ParseError));
    assert_eq!(parse_line("1,limit,00000000-0000-0000-0000-00000000000a,buy,1,100,GTD"), Err(ParseError));
}

#[test]
fn result_lines() {
    let fill = Fill { base_amount: dec("1.50"), price: dec("100"), maker_uuid: 10, taker_uuid: 11 };
    assert_eq!(
        write_fill(7, &fill),
        "7,fill,00000000-0000-0000-0000-00000000000a,00000000-0000-0000-0000-00000000000b,1.50,100"
    );
    assert_eq!(write_closed(0, 11), "0,closed,00000000-0000-0000-0000-00000000000b");
    assert_eq!(write_closed(u64::MAX, 10), "18446744073709551615,closed,00000000-0000-0000-0000-00000000000a");
    let result = MatchResult { fills: vec![fill, fill], closed: [300u128, 11, 10].into_iter().collect() };
    assert_eq!(ascending_ids(&result.closed), vec![10, 11, 300]);
    let lines = print_result(&result, 12);
    assert_eq!(lines.len(), 5);
    assert_eq!(lines[0], lines[1]);
    assert_eq!(lines[0], "12,fill,00000000-0000-0000-0000-00000000000a,00000000-0000-0000-0000-00000000000b,1.50,100");
    assert_eq!(lines[2], "12,closed,00000000-0000-0000-0000-00000000000a");
    assert_eq!(lines[3], "12,closed,00000000-0000-0000-0000-00000000000b");
    assert_eq!(lines[4], "12,closed,00000000-0000-0000-0000-00000000012c");
}

#[test]
fn a_stream_of_lines() {
    let mut engine = Engine::new();
    let mut out: Vec<String> = Vec::new();
    for line in [
        "1,limit,00000000-0000-0000-0000-00000000000a,sell,1,101,GTC",
        "2,limit,00000000-0000-0000-0000-00000000000b,sell,1,102,GTC",
        "3,limit,00000000-0000-0000-0000-00000000000c,buy,3,102,GTC",
    ] {
        let command = parse_line(line).unwrap();
        let now = command.now;
        let result = engine.call(command).unwrap();
        out.extend(print_result(&result, now));
    }
    assert_eq!(
        out,
        vec![
            "3,fill,00000000-0000-0000-0000-00000000000a,00000000-0000-0000-0000-00000000000c,1,101",
            "3,fill,00000000-0000-0000-0000-00000000000b,00000000-0000-0000-0000-00000000000c,1,102",
            "3,closed,00000000-0000-0000-0000-00000000000a",
            "3,closed,00000000-0000-0000-0000-00000000000b",
        ]
    );
}

#[test]
fn lines_with_fields_beyond_their_form_are_refused() {
    assert_eq!(parse_line("10,flush,x"), Err(ParseError));
    assert_eq!(parse_line("10,flush,"), Err(ParseError));
    assert_eq!(parse_line("3,cancel,00000000-0000-0000-0000-00000000000b,x"), Err(ParseError));
    assert_eq!(parse_line("2,market,00000000-0000-0000-0000-00000000000b,sell,1,100"), Err(ParseError));
    assert_eq!(parse_line("2,market,00000000-0000-0000-0000-00000000000b,sell"), Err(ParseError));
    assert_eq!(parse_line("1,limit,00000000-0000-0000-0000-00000000000a,buy,1,100,GTD,5,6"), Err(ParseError));
    assert_eq!(parse_line("1,limit,00000000-0000-0000-0000-00000000000a,buy,1,100,GTC,x"), Err(ParseError));
    assert_eq!(parse_line("1,limit,00000000-0000-0000-0000-00000000000a,buy,1,100"), Err(ParseError));
    assert_eq!(
        parse_line("1,limit,00000000-0000-0000-0000-00000000000a,buy,1,100,IOC"),
        Ok(CommandAtTime {
            now: 1,
            command: Command::Place(Place::LimitOrder {
                uuid: 10,
                side: Side::Buy,
                amount: dec("1"),
                tif: TimeInForce::IOC,
                price: dec("100"),
            }),
        })
    );
    assert_eq!(market_order_command(&[A, "buy", "1", "2"]), Err(ParseError));
    assert_eq!(cancel_command(&[A, B]), Err(ParseError));
}

#[test]
fn identifiers_in_other_forms_are_refused() {
    assert_eq!(parse_uuid("67E55044-10B1-426F-9247-BB680E5FE0C8"), Some(0x67e5504410b1426f9247bb680e5fe0c8));
    assert_eq!(parse_uuid("67e5504410b1426f9247bb680e5fe0c8"), None);
    assert_eq!(parse_uuid("{67e55044-10b1-426f-9247-bb680e5fe0c8}"), None);
    assert_eq!(parse_uuid("urn:uuid:67e55044-10b1-426f-9247-bb680e5fe0c8"), None);
    assert_eq!(parse_uuid("67e55044-10b1-426f-9247-bb680e5fe0c"), None);
    assert_eq!(parse_uuid("67e55044+10b1+426f+9247+bb680e5fe0c8"), None);
    assert_eq!(parse_uuid(""), None);
    assert_eq!(parse_line("3,cancel,67e5504410b1426f9247bb680e5fe0c8"), Err(ParseError));
}
