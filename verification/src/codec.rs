//! The line codec: one command per line, fields separated by commas, and
//! the lines that report a result.
//!
//! ```text
//! <now>,limit,<uuid>,<side>,<amount>,<price>,<tif>[,<lifetime_ns>]
//! <now>,market,<uuid>,<side>,<amount>
//! <now>,cancel,<uuid>
//! <now>,flush
//! ```

use crate::decimal::Decimal;
use crate::order::parse_side;
use crate::order::same_text;
use crate::order::side_of_text;
use crate::order::Command;
use crate::order::CommandAtTime;
use crate::order::Place;
use crate::order::TimeInForce;
use crate::decimal::decimal_text;
use crate::engine::lemma_identifiers_ordered;
use crate::engine::MatchResult;
use crate::order::Fill;
use std::collections::BTreeSet;
use vstd::prelude::*;
use vstd::std_specs::cmp::OrdSpec;
use vstd::std_specs::iter::IteratorSpec;
use vstd::string::StrSliceExecFns;
use vstd::string::StringExecFns;

verus! {

/// A line that is no command.
#[derive(Clone, Copy, Debug, PartialEq, Eq, Structural)]
pub struct ParseError;

/// The identifier that `uuid` reads from a text, or `None` where it rejects
/// the text.
pub uninterp spec fn uuid_from_text(text: Seq<char>) -> Option<u128>;

/// Whether every character is a decimal digit.
pub open spec fn all_digits(s: Seq<char>) -> bool {
    forall|i: int| 0 <= i < s.len() ==> '0' <= #[trigger] s[i] <= '9'
}

/// The number that a sequence of decimal digits writes.
pub open spec fn digits_value(s: Seq<char>) -> int
    decreases s.len(),
{
    if s.len() == 0 {
        0
    } else {
        digits_value(s.drop_last()) * 10 + (s.last() as int - '0' as int)
    }
}

/// The number that a text writes: an optional `+`, then at least one decimal
/// digit and nothing else, and a value that a `u64` holds.
pub open spec fn number_of_text(text: Seq<char>) -> Option<u64> {
    let digits = if text.len() > 0 && text[0] == '+' {
        text.skip(1)
    } else {
        text
    };
    if digits.len() > 0 && all_digits(digits) && digits_value(digits) <= u64::MAX {
        Some(digits_value(digits) as u64)
    } else {
        None
    }
}

/// The place of the first comma, or the length where there is none.
pub open spec fn first_comma(s: Seq<char>) -> int
    decreases s.len(),
{
    if s.len() == 0 || s[0] == ',' {
        0
    } else {
        1 + first_comma(s.skip(1))
    }
}

/// The fields of a line: what stands between its commas. A line without a
/// comma is one field, and so is the empty line.
pub open spec fn fields(s: Seq<char>) -> Seq<Seq<char>>
    decreases s.len(),
{
    let i = first_comma(s);
    if 0 <= i < s.len() {
        seq![s.take(i)] + fields(s.skip(i + 1))
    } else {
        seq![s]
    }
}

/// The length of an identifier's text: 32 hexadecimal digits in five groups
/// with a hyphen between them.
pub const UUID_LENGTH: usize = 36;

/// The identifier that a text writes: the text has 36 characters and is an
/// identifier in hyphenated form.
pub open spec fn uuid_of_text(text: Seq<char>) -> Option<u128> {
    if text.len() == UUID_LENGTH {
        uuid_from_text(text)
    } else {
        None
    }
}

/// The time in force that the fields from the name on write, one field or
/// two and no more: `IOC` or `GTC`, alone or followed by a lifetime, which is
/// not used; or `GTD` followed by a lifetime of at least one nanosecond.
pub open spec fn spec_time_in_force(f: Seq<Seq<char>>) -> Option<TimeInForce> {
    if f.len() == 1 {
        if f[0] == "IOC"@ {
            Some(TimeInForce::IOC)
        } else if f[0] == "GTC"@ {
            Some(TimeInForce::GTC)
        } else {
            None
        }
    } else if f.len() == 2 {
        match number_of_text(f[1]) {
            Some(lifetime) => if f[0] == "IOC"@ {
                Some(TimeInForce::IOC)
            } else if f[0] == "GTC"@ {
                Some(TimeInForce::GTC)
            } else if f[0] == "GTD"@ && lifetime >= 1 {
                Some(TimeInForce::GTD(lifetime))
            } else {
                None
            },
            None => None,
        }
    } else {
        None
    }
}

/// The limit order that the fields after the command's name write: an
/// identifier, a side, an amount, a price and a time in force, and nothing
/// more.
pub open spec fn spec_limit_order(f: Seq<Seq<char>>) -> Option<Command> {
    if f.len() >= 5 && uuid_of_text(f[0]) is Some && side_of_text(f[1]) is Some
        && Decimal::spec_parse(f[2]) is Some && Decimal::spec_parse(f[3]) is Some
        && spec_time_in_force(f.skip(4)) is Some {
        Some(
            Command::Place(
                Place::LimitOrder {
                    uuid: uuid_of_text(f[0])->0,
                    side: side_of_text(f[1])->0,
                    amount: Decimal::spec_parse(f[2])->0,
                    tif: spec_time_in_force(f.skip(4))->0,
                    price: Decimal::spec_parse(f[3])->0,
                },
            ),
        )
    } else {
        None
    }
}

/// The market order that the fields after the command's name write: an
/// identifier, a side and an amount, and nothing more.
pub open spec fn spec_market_order(f: Seq<Seq<char>>) -> Option<Command> {
    if f.len() == 3 && uuid_of_text(f[0]) is Some && side_of_text(f[1]) is Some
        && Decimal::spec_parse(f[2]) is Some {
        Some(
            Command::Place(
                Place::MarketOrder {
                    uuid: uuid_of_text(f[0])->0,
                    side: side_of_text(f[1])->0,
                    amount: Decimal::spec_parse(f[2])->0,
                },
            ),
        )
    } else {
        None
    }
}

/// The cancellation that the fields after the command's name write: an
/// identifier, and nothing more.
pub open spec fn spec_cancel(f: Seq<Seq<char>>) -> Option<Command> {
    if f.len() == 1 && uuid_of_text(f[0]) is Some {
        Some(Command::Cancel(uuid_of_text(f[0])->0))
    } else {
        None
    }
}

/// The command that fields write: a time, a name, and exactly the fields
/// that the name asks for. After `flush` there is none.
pub open spec fn spec_command(f: Seq<Seq<char>>) -> Option<CommandAtTime> {
    if f.len() >= 2 && number_of_text(f[0]) is Some {
        let now = number_of_text(f[0])->0;
        let rest = f.skip(2);
        let command = if f[1] == "flush"@ {
            if rest.len() == 0 {
                Some(Command::Flush())
            } else {
                None
            }
        } else if f[1] == "limit"@ {
            spec_limit_order(rest)
        } else if f[1] == "market"@ {
            spec_market_order(rest)
        } else if f[1] == "cancel"@ {
            spec_cancel(rest)
        } else {
            None
        };
        match command {
            Some(c) => Some(CommandAtTime { now, command: c }),
            None => None,
        }
    } else {
        None
    }
}

/// The command that a line writes.
pub open spec fn spec_parse_line(line: Seq<char>) -> Option<CommandAtTime> {
    spec_command(fields(line))
}

/// The texts of the fields.
pub open spec fn texts(f: Seq<&str>) -> Seq<Seq<char>> {
    Seq::new(f.len(), |i: int| f[i]@)
}

/// `from_str` of `u64`: it accepts an optional `+` and then decimal digits,
/// at least one, whose value a `u64` holds, and nothing else.
#[verifier::external_body]
fn outside_number(text: &str) -> (r: Option<u64>)
    ensures
        r == number_of_text(text@),
{
    match <u64 as std::str::FromStr>::from_str(text) {
        Ok(n) => Some(n),
        Err(_) => None,
    }
}

/// `from_str` of `uuid::Uuid`, which reads the hyphenated form and the other
/// forms that `uuid` accepts, each of another length. The result is named: a function of the text
/// alone.
#[verifier::external_body]
fn outside_uuid(text: &str) -> (r: Option<u128>)
    ensures
        r == uuid_from_text(text@),
{
    match <uuid::Uuid as std::str::FromStr>::from_str(text) {
        Ok(id) => Some(id.as_u128()),
        Err(_) => None,
    }
}

/// Reads a number of nanoseconds.
pub fn parse_number(text: &str) -> (r: Option<u64>)
    ensures
        r == number_of_text(text@),
{
    outside_number(text)
}

/// Reads an identifier in hyphenated form: 36 characters.
pub fn parse_uuid(text: &str) -> (r: Option<u128>)
    ensures
        r == uuid_of_text(text@),
{
    if text.unicode_len() != UUID_LENGTH {
        return None;
    }
    outside_uuid(text)
}

/// Splits a line at its commas.
pub fn split_fields(line: &str) -> (out: Vec<&str>)
    ensures
        texts(out@) == fields(line@),
{
    let total = line.unicode_len();
    let mut out: Vec<&str> = Vec::new();
    let mut start: usize = 0;
    let mut i: usize = 0;
    proof {
        assert(line@.skip(0) =~= line@);
        assert(texts(out@) + fields(line@) =~= fields(line@));
    }
    while i < total
        invariant
            start <= i <= total,
            total == line@.len(),
            forall|k: int| start <= k < i ==> line@[k] != ',',
            fields(line@) == texts(out@) + fields(line@.skip(start as int)),
        decreases total - i,
    {
        if line.get_char(i) == ',' {
            let field = line.substring_char(start, i);
            proof {
                let s = line@.skip(start as int);
                lemma_first_comma(s, i - start);
                assert(s.take(i - start) =~= line@.subrange(start as int, i as int));
                assert(s.skip(i - start + 1) =~= line@.skip(i + 1));
                assert(texts(out@.push(field)) =~= texts(out@) + seq![field@]);
                assert(fields(line@) =~= texts(out@.push(field)) + fields(line@.skip(i + 1)));
            }
            out.push(field);
            start = i + 1;
        }
        i = i + 1;
    }
    let field = line.substring_char(start, total);
    proof {
        let s = line@.skip(start as int);
        lemma_no_comma(s, s.len() as int);
        assert(s =~= line@.subrange(start as int, total as int));
        assert(texts(out@.push(field)) =~= texts(out@) + seq![field@]);
    }
    out.push(field);
    out
}

/// Reads a time in force from the fields that start with its name.
pub fn time_in_force(slice: &[&str]) -> (r: Result<TimeInForce, ParseError>)
    ensures
        match r {
            Ok(tif) => spec_time_in_force(texts(slice@)) == Some(tif),
            Err(_) => spec_time_in_force(texts(slice@)) is None,
        },
{
    if slice.len() == 0 || slice.len() > 2 {
        return Err(ParseError);
    }
    let name: &str = slice[0];
    assert(texts(slice@)[0] == name@);
    let lifetime: Option<u64> = if slice.len() == 2 {
        assert(texts(slice@)[1] == slice[1]@);
        match parse_number(slice[1]) {
            Some(lifetime) => Some(lifetime),
            None => {
                return Err(ParseError);
            },
        }
    } else {
        None
    };
    if same_text(name, "IOC") {
        Ok(TimeInForce::IOC)
    } else if same_text(name, "GTC") {
        Ok(TimeInForce::GTC)
    } else if same_text(name, "GTD") {
        /*lifetime has to be >0*/
        match lifetime {
            Some(lifetime) => {
                if lifetime < 1 {
                    Err(ParseError)
                } else {
                    Ok(TimeInForce::GTD(lifetime))
                }
            },
            None => Err(ParseError),
        }
    } else {
        Err(ParseError)
    }
}

/// Reads a limit order from the fields after the command's name.
pub fn limit_order_command(slice: &[&str]) -> (r: Result<Command, ParseError>)
    ensures
        match r {
            Ok(c) => spec_limit_order(texts(slice@)) == Some(c),
            Err(_) => spec_limit_order(texts(slice@)) is None,
        },
{
    if slice.len() < 5 {
        return Err(ParseError);
    }
    let ghost f = texts(slice@);
    assert(f[0] == slice[0]@ && f[1] == slice[1]@ && f[2] == slice[2]@ && f[3] == slice[3]@);
    let rest = vstd::slice::slice_subrange(slice, 4, slice.len());
    assert(texts(rest@) =~= f.skip(4));
    let uuid = parse_uuid(slice[0]);
    let side = parse_side(slice[1]);
    let amount = Decimal::parse(slice[2]);
    let price = Decimal::parse(slice[3]);
    let tif = time_in_force(rest);
    match (uuid, side, amount, price, tif) {
        (Some(uuid), Ok(side), Some(amount), Some(price), Ok(tif)) => Ok(
            Command::Place(Place::LimitOrder { uuid, side, amount, tif, price }),
        ),
        _ => Err(ParseError),
    }
}

/// Reads a market order from the fields after the command's name.
pub fn market_order_command(slice: &[&str]) -> (r: Result<Command, ParseError>)
    ensures
        match r {
            Ok(c) => spec_market_order(texts(slice@)) == Some(c),
            Err(_) => spec_market_order(texts(slice@)) is None,
        },
{
    if slice.len() != 3 {
        return Err(ParseError);
    }
    let ghost f = texts(slice@);
    assert(f[0] == slice[0]@ && f[1] == slice[1]@ && f[2] == slice[2]@);
    let uuid = parse_uuid(slice[0]);
    let side = parse_side(slice[1]);
    let amount = Decimal::parse(slice[2]);
    match (uuid, side, amount) {
        (Some(uuid), Ok(side), Some(amount)) => Ok(
            Command::Place(Place::MarketOrder { uuid, side, amount }),
        ),
        _ => Err(ParseError),
    }
}

/// Reads a cancellation from the fields after the command's name.
pub fn cancel_command(slice: &[&str]) -> (r: Result<Command, ParseError>)
    ensures
        match r {
            Ok(c) => spec_cancel(texts(slice@)) == Some(c),
            Err(_) => spec_cancel(texts(slice@)) is None,
        },
{
    if slice.len() != 1 {
        return Err(ParseError);
    }
    assert(texts(slice@)[0] == slice[0]@);
    match parse_uuid(slice[0]) {
        Some(uuid) => Ok(Command::Cancel(uuid)),
        None => Err(ParseError),
    }
}

/// Reads a command from a line. A line that is no command is refused.
pub fn parse_line(line: &str) -> (r: Result<CommandAtTime, ParseError>)
    ensures
        match r {
            Ok(c) => spec_parse_line(line@) == Some(c),
            Err(_) => spec_parse_line(line@) is None,
        },
{
    let v = split_fields(line);
    if v.len() < 2 {
        return Err(ParseError);
    }
    let ghost f = texts(v@);
    assert(f[0] == v[0]@ && f[1] == v[1]@);
    let now: u64 = match parse_number(v[0]) {
        Some(now) => now,
        None => {
            return Err(ParseError);
        },
    };
    let name: &str = v[1];
    let rest = vstd::slice::slice_subrange(v.as_slice(), 2, v.len());
    assert(texts(rest@) =~= f.skip(2));
    let command = if same_text(name, "flush") {
        if rest.len() == 0 {
            Ok(Command::Flush())
        } else {
            Err(ParseError)
        }
    } else if same_text(name, "limit") {
        limit_order_command(rest)
    } else if same_text(name, "market") {
        market_order_command(rest)
    } else if same_text(name, "cancel") {
        cancel_command(rest)
    } else {
        Err(ParseError)
    };
    match command {
        Ok(command) => Ok(CommandAtTime { now: now, command: command }),
        Err(e) => Err(e),
    }
}

/// A sequence without a comma among its first `n` characters has its first
/// comma at `n` or later.
proof fn lemma_no_comma(s: Seq<char>, n: int)
    requires
        0 <= n <= s.len(),
        forall|k: int| 0 <= k < n ==> s[k] != ',',
    ensures
        first_comma(s) >= n,
        n == s.len() ==> first_comma(s) == n && fields(s) == seq![s],
    decreases n,
{
    if n > 0 {
        let t = s.skip(1);
        assert(s[0] != ',');
        assert forall|k: int| 0 <= k < n - 1 implies t[k] != ',' by {
            assert(t[k] == s[k + 1]);
        }
        lemma_no_comma(t, n - 1);
    }
    lemma_first_comma_bound(s);
}

/// The first comma is within the sequence or at its end.
proof fn lemma_first_comma_bound(s: Seq<char>)
    ensures
        0 <= first_comma(s) <= s.len(),
    decreases s.len(),
{
    if s.len() > 0 && s[0] != ',' {
        lemma_first_comma_bound(s.skip(1));
    }
}

/// Where the first comma stands at `j`, the first field is what stands before
/// it, and the other fields are those of what follows it.
proof fn lemma_first_comma(s: Seq<char>, j: int)
    requires
        0 <= j < s.len(),
        forall|k: int| 0 <= k < j ==> s[k] != ',',
        s[j] == ',',
    ensures
        first_comma(s) == j,
        fields(s) == seq![s.take(j)] + fields(s.skip(j + 1)),
    decreases j,
{
    if j > 0 {
        let t = s.skip(1);
        assert(s[0] != ',');
        assert forall|k: int| 0 <= k < j - 1 implies t[k] != ',' by {
            assert(t[k] == s[k + 1]);
        }
        assert(t[j - 1] == s[j]);
        lemma_first_comma(t, j - 1);
    }
}

/// The decimal digit for a number below ten.
pub open spec fn digit_char(d: int) -> char {
    ((48 + d) as u8) as char
}

/// A number in decimal digits, without leading zeros.
pub open spec fn number_text(n: nat) -> Seq<char>
    decreases n,
{
    if n < 10 {
        seq![digit_char(n as int)]
    } else {
        number_text(n / 10).push(digit_char((n % 10) as int))
    }
}

/// Sixteen to the power `n`.
pub open spec fn pow16(n: nat) -> nat
    decreases n,
{
    if n == 0 {
        1
    } else {
        16 * pow16((n - 1) as nat)
    }
}

/// The lower-case hexadecimal digit for a number below sixteen.
pub open spec fn hex_char(d: int) -> char {
    if d < 10 {
        ((48 + d) as u8) as char
    } else {
        ((87 + d) as u8) as char
    }
}

/// An identifier in its hyphenated form: 32 lower-case hexadecimal digits,
/// the most significant first, in groups of 8, 4, 4, 4 and 12.
pub open spec fn hyphenated(id: u128) -> Seq<char> {
    Seq::new(
        36,
        |i: int|
            if i == 8 || i == 13 || i == 18 || i == 23 {
                '-'
            } else {
                let d = if i > 23 {
                    i - 4
                } else if i > 18 {
                    i - 3
                } else if i > 13 {
                    i - 2
                } else if i > 8 {
                    i - 1
                } else {
                    i
                };
                hex_char((id as int / pow16((31 - d) as nat) as int) % 16)
            },
    )
}

/// The line that reports a fill:
/// `<now>,fill,<maker_id>,<taker_id>,<base_amount>,<price>`.
pub open spec fn fill_line(now: u64, fill: Fill) -> Seq<char> {
    number_text(now as nat) + ",fill,"@ + hyphenated(fill.maker_uuid) + ","@ + hyphenated(
        fill.taker_uuid,
    ) + ","@ + decimal_text(fill.base_amount.spec_mantissa(), fill.base_amount.spec_scale()) + ","@
        + decimal_text(fill.price.spec_mantissa(), fill.price.spec_scale())
}

/// The line that reports a closed order: `<now>,closed,<id>`.
pub open spec fn closed_line(now: u64, id: u128) -> Seq<char> {
    number_text(now as nat) + ",closed,"@ + hyphenated(id)
}

/// Whether the identifiers stand in strictly ascending order.
pub open spec fn ascending(ids: Seq<u128>) -> bool {
    forall|i: int, j: int| 0 <= i < j < ids.len() ==> ids[i] < ids[j]
}

/// The lines that report a result at `now`: a line for each fill, in the
/// order the fills were made, then a line for each closed identifier, in
/// ascending order.
pub open spec fn result_lines(lines: Seq<Seq<char>>, fills: Seq<Fill>, ids: Seq<u128>, now: u64) -> bool {
    &&& lines.len() == fills.len() + ids.len()
    &&& forall|i: int| 0 <= i < fills.len() ==> #[trigger] lines[i] == fill_line(now, fills[i])
    &&& forall|j: int|
        0 <= j < ids.len() ==> #[trigger] lines[fills.len() + j] == closed_line(now, ids[j])
}

/// The texts of the lines.
pub open spec fn line_texts(lines: Seq<String>) -> Seq<Seq<char>> {
    Seq::new(lines.len(), |i: int| lines[i]@)
}

/// `to_string` of `u64`: the decimal digits of the number, without leading
/// zeros.
#[verifier::external_body]
fn outside_number_text(n: u64) -> (r: String)
    ensures
        r@ == number_text(n as nat),
{
    n.to_string()
}

/// `to_string` of `uuid::Uuid`: the hyphenated form in lower case, as
/// `uuid` documents for its `Display`.
#[verifier::external_body]
fn outside_uuid_text(id: u128) -> (r: String)
    ensures
        r@ == hyphenated(id),
{
    uuid::Uuid::from_u128(id).to_string()
}

/// Writes an identifier in its hyphenated form.
pub fn uuid_text(id: u128) -> (r: String)
    ensures
        r@ == hyphenated(id),
{
    outside_uuid_text(id)
}

/// Writes the line that reports a fill.
pub fn write_fill(now: u64, fill: &Fill) -> (line: String)
    ensures
        line@ == fill_line(now, *fill),
{
    let mut line = outside_number_text(now);
    line.append(",fill,");
    line.append(outside_uuid_text(fill.maker_uuid).as_str());
    line.append(",");
    line.append(outside_uuid_text(fill.taker_uuid).as_str());
    line.append(",");
    line.append(fill.base_amount.to_text().as_str());
    line.append(",");
    line.append(fill.price.to_text().as_str());
    line
}

/// Writes the line that reports a closed order.
pub fn write_closed(now: u64, id: u128) -> (line: String)
    ensures
        line@ == closed_line(now, id),
{
    let mut line = outside_number_text(now);
    line.append(",closed,");
    line.append(outside_uuid_text(id).as_str());
    line
}

/// The identifiers of a set in ascending order.
pub fn ascending_ids(set: &BTreeSet<u128>) -> (out: Vec<u128>)
    ensures
        ascending(out@),
        out@.to_set() == set@,
{
    broadcast use vstd::std_specs::btree::group_btree_axioms;

    proof {
        lemma_identifiers_ordered();
    }
    let mut out: Vec<u128> = Vec::new();
    let ghost all = set.iter().remaining();
    proof {
        lemma_ascending_ids(all);
    }
    for id in it: set.iter()
        invariant
            it.seq() == all,
            out.len() == it.index(),
            forall|i: int| 0 <= i < out.len() ==> out[i] == *all[i],
    {
        out.push(*id);
    }
    assert(out@ =~= all.unref());
    assert forall|i: int, j: int| 0 <= i < j < out.len() implies out[i] < out[j] by {
        assert(*all[i] < *all[j]);
    }
    out
}

/// Writes the lines that report a result: the fills in the order they were
/// made, then the closed identifiers in ascending order.
pub fn print_result(result: &MatchResult, now: u64) -> (lines: Vec<String>)
    ensures
        exists|ids: Seq<u128>|
            ascending(ids) && ids.to_set() == result@.closed && #[trigger] result_lines(
                line_texts(lines@),
                result@.fills,
                ids,
                now,
            ),
{
    let mut lines: Vec<String> = Vec::new();
    let mut i: usize = 0;
    while i < result.fills.len()
        invariant
            i <= result.fills.len(),
            lines.len() == i,
            forall|k: int| 0 <= k < i ==> (#[trigger] lines[k])@ == fill_line(now, result.fills[k]),
        decreases result.fills.len() - i,
    {
        lines.push(write_fill(now, &result.fills[i]));
        i = i + 1;
    }
    let ids = ascending_ids(&result.closed);
    let mut j: usize = 0;
    while j < ids.len()
        invariant
            j <= ids.len(),
            lines.len() == result.fills.len() + j,
            forall|k: int|
                0 <= k < result.fills.len() ==> (#[trigger] lines[k])@ == fill_line(
                    now,
                    result.fills[k],
                ),
            forall|k: int|
                0 <= k < j ==> (#[trigger] lines[result.fills.len() + k])@ == closed_line(
                    now,
                    ids[k],
                ),
        decreases ids.len() - j,
    {
        lines.push(write_closed(now, ids[j]));
        j = j + 1;
    }
    assert(result_lines(line_texts(lines@), result@.fills, ids@, now));
    lines
}

/// What a set of identifiers hands out in increasing order is ascending.
proof fn lemma_ascending_ids(all: Seq<&u128>)
    requires
        vstd::std_specs::btree::increasing_seq(all),
    ensures
        forall|i: int, j: int| 0 <= i < j < all.len() ==> *#[trigger] all[i] < *#[trigger] all[j],
{
    broadcast use vstd::laws_cmp::group_laws_cmp;
    broadcast use vstd::laws_cmp::lemma_ref_obeys_cmp_spec;
    broadcast use vstd::std_specs::btree::group_btree_axioms;

    assert(vstd::laws_cmp::obeys_cmp::<u128>());
    assert(vstd::laws_cmp::obeys_cmp::<&u128>());
    vstd::std_specs::btree::axiom_increasing_seq_meaning::<&u128>(all);
    assert forall|i: int, j: int| 0 <= i < j < all.len() implies *#[trigger] all[i]
        < *#[trigger] all[j] by {
        assert(OrdSpec::cmp_spec(&all[i], &all[j]) is Less);
    }
}

} // verus!
