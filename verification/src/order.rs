//! Orders and the commands that create them: sides, time in force, the
//! order record, its expiry and its place in the book's priority order.

use crate::decimal::Decimal;
use vstd::prelude::*;
use vstd::string::StringExecFns;

verus! {

/// One second, in nanoseconds: all times are in nanoseconds.
pub const SECOND: u64 = 1_000_000_000;

/// One day, in nanoseconds.
pub const DAY: u64 = 86_400_000_000_000;

/// The lifetime of a good-till-cancelled order: 90 days.
pub const MAX_LIFETIME: u64 = 7_776_000_000_000_000;

/// The side of the book an order is on.
#[derive(Clone, Copy, Debug, PartialEq, Eq, Structural)]
pub enum Side {
    Buy,
    Sell,
}

/// The side an order trades against.
pub fn other_side(side: Side) -> (r: Side)
    ensures
        r == spec_other_side(side),
{
    match side {
        Side::Buy => Side::Sell,
        Side::Sell => Side::Buy,
    }
}

/// The side an order trades against.
pub open spec fn spec_other_side(side: Side) -> Side {
    match side {
        Side::Buy => Side::Sell,
        Side::Sell => Side::Buy,
    }
}

/// A text that names no side.
#[derive(Debug, Clone, Copy, PartialEq, Eq)]
pub struct SideParseError(());

/// The side that a text names: `buy` or `sell`, in lower case.
pub open spec fn side_of_text(text: Seq<char>) -> Option<Side> {
    if text == "buy"@ {
        Some(Side::Buy)
    } else if text == "sell"@ {
        Some(Side::Sell)
    } else {
        None
    }
}

/// Whether the two texts are the same.
pub fn same_text(a: &str, b: &str) -> (r: bool)
    ensures
        r == (a@ == b@),
{
    String::from_str(a) == String::from_str(b)
}

/// Reads a side.
pub fn parse_side(text: &str) -> (r: Result<Side, SideParseError>)
    ensures
        match r {
            Ok(side) => side_of_text(text@) == Some(side),
            Err(_) => side_of_text(text@) is None,
        },
{
    if same_text(text, "buy") {
        Ok(Side::Buy)
    } else if same_text(text, "sell") {
        Ok(Side::Sell)
    } else {
        Err(SideParseError(()))
    }
}

impl std::str::FromStr for Side {
    type Err = SideParseError;

    /// Reads a side: `buy` or `sell`, in lower case, and nothing else.
    fn from_str(s: &str) -> (r: Result<Self, Self::Err>)
        ensures
            match r {
                Ok(side) => side_of_text(s@) == Some(side),
                Err(_) => side_of_text(s@) is None,
            },
    {
        parse_side(s)
    }
}

/// How long an order may rest.
#[derive(Clone, Copy, Debug, PartialEq, Eq, Structural)]
pub enum TimeInForce {
    /// Good till cancelled: rests for at most [`MAX_LIFETIME`].
    GTC,
    /// Immediate or cancel: never rests.
    IOC,
    /// Good till date: rests for the given number of nanoseconds.
    GTD(u64),
}

impl TimeInForce {
    /// The nanoseconds between an order's creation and its expiry.
    pub open spec fn lifetime(self) -> int {
        match self {
            TimeInForce::IOC => 0,
            TimeInForce::GTC => MAX_LIFETIME as int,
            TimeInForce::GTD(lifetime) => lifetime as int,
        }
    }

    /// A good-till-date lifetime is at least one nanosecond.
    pub open spec fn valid(self) -> bool {
        self matches TimeInForce::GTD(lifetime) ==> lifetime >= 1
    }
}

/// A request to place an order.
#[derive(Clone, Copy, Debug, PartialEq, Eq, Structural)]
pub enum Place {
    /// Trade `amount` at whatever price the book offers; what is left is
    /// cancelled.
    MarketOrder { uuid: u128, side: Side, amount: Decimal },
    /// Trade `amount` at `price` or better.
    LimitOrder { uuid: u128, side: Side, amount: Decimal, tif: TimeInForce, price: Decimal },
}

impl Place {
    /// The identifier of the order to place.
    pub open spec fn spec_uuid(self) -> u128 {
        match self {
            Place::MarketOrder { uuid, .. } => uuid,
            Place::LimitOrder { uuid, .. } => uuid,
        }
    }

    /// The amount to trade.
    pub open spec fn spec_amount(self) -> Decimal {
        match self {
            Place::MarketOrder { amount, .. } => amount,
            Place::LimitOrder { amount, .. } => amount,
        }
    }

    /// The time in force: a market order is immediate-or-cancel.
    pub open spec fn spec_tif(self) -> TimeInForce {
        match self {
            Place::MarketOrder { .. } => TimeInForce::IOC,
            Place::LimitOrder { tif, .. } => tif,
        }
    }

    /// What a request must meet to be placed at time `now`: a positive
    /// amount, a lifetime of at least one nanosecond, and an expiry that a
    /// `u64` holds.
    pub open spec fn valid_at(self, now: u64) -> bool {
        &&& self.spec_amount().wf()
        &&& self matches Place::LimitOrder { price, .. } ==> price.wf()
        &&& self.spec_amount().units() > 0
        &&& self.spec_tif().valid()
        &&& now + self.spec_tif().lifetime() <= u64::MAX
    }

    /// The identifier of the order to place.
    pub fn uuid(&self) -> (r: u128)
        ensures
            r == self.spec_uuid(),
    {
        match self {
            Place::MarketOrder { uuid, .. } => *uuid,
            Place::LimitOrder { uuid, .. } => *uuid,
        }
    }

    /// Whether the request can be placed at time `now`.
    pub fn is_valid_at(&self, now: u64) -> (r: bool)
        ensures
            r == self.valid_at(now),
    {
        match self {
            Place::MarketOrder { amount, .. } => {
                proof {
                    use_type_invariant(amount);
                }
                amount.is_positive()
            },
            Place::LimitOrder { amount, tif, price, .. } => {
                proof {
                    use_type_invariant(amount);
                    use_type_invariant(price);
                }
                amount.is_positive() && match tif {
                    TimeInForce::IOC => true,
                    TimeInForce::GTC => now <= u64::MAX - MAX_LIFETIME,
                    TimeInForce::GTD(lifetime) => *lifetime >= 1 && now <= u64::MAX - *lifetime,
                }
            },
        }
    }
}

/// An order: fixed attributes, and the amount that is still to trade.
#[derive(Clone, Copy, Debug, PartialEq, Eq, Structural)]
pub struct Order {
    pub uuid: u128,
    pub side: Side,
    /// When the order was placed.
    pub created: u64,
    /// The size the order was placed with.
    pub amount: Decimal,
    /// The limit price; for a market order the largest decimal when buying
    /// and zero when selling.
    pub price: Decimal,
    pub tif: TimeInForce,
    /// What is still to trade: it only ever decreases.
    pub remaining_amount: Decimal,
}

/// The key that orders one side of the book: an effective price and the creation
/// time. Ascending keys are descending priority.
#[derive(Clone, Copy, Debug, PartialEq, Eq, Structural)]
pub struct PriceTime(pub Decimal, pub u64);

/// Where a resting order is found: its side, its price and its creation time.
#[derive(Clone, Copy, Debug, PartialEq, Eq, Structural)]
pub struct SidePriceTime(pub Side, pub Decimal, pub u64);

impl PriceTime {
    /// Whether this key comes strictly before `other`: a lower effective
    /// price, or the same price and an earlier creation.
    pub open spec fn before(self, other: PriceTime) -> bool {
        self.0.units() < other.0.units() || (self.0.units() == other.0.units() && self.1
            < other.1)
    }

    /// Whether the two keys denote the same place in the book: the same
    /// price as a number, and the same creation time.
    pub open spec fn same(self, other: PriceTime) -> bool {
        self.0.units() == other.0.units() && self.1 == other.1
    }

    /// Whether this key comes strictly before `other`.
    pub fn precedes(&self, other: &PriceTime) -> (r: bool)
        ensures
            r == self.before(*other),
    {
        self.0.lt(&other.0) || (self.0.same_value(&other.0) && self.1 < other.1)
    }

    /// Whether the two keys denote the same place in the book.
    pub fn coincides(&self, other: &PriceTime) -> (r: bool)
        ensures
            r == self.same(*other),
    {
        self.1 == other.1 && self.0.same_value(&other.0)
    }
}

impl SidePriceTime {
    /// The key under which the order rests in the book of its side: buy
    /// orders are keyed by the negated price, so that the highest bid comes
    /// first.
    pub open spec fn spec_key(self) -> PriceTime {
        match self.0 {
            Side::Buy => PriceTime(self.1.spec_neg(), self.2),
            Side::Sell => PriceTime(self.1, self.2),
        }
    }

    /// The key under which the order rests in the book of its side.
    pub fn key(&self) -> (r: PriceTime)
        ensures
            r == self.spec_key(),
    {
        match self.0 {
            Side::Buy => PriceTime(self.1.neg(), self.2),
            Side::Sell => PriceTime(self.1, self.2),
        }
    }
}

impl Order {
    /// The order that a request creates at time `now`. A market order is an
    /// immediate-or-cancel limit order at the most generous price there is.
    pub open spec fn spec_create(place: Place, now: u64) -> Order {
        match place {
            Place::MarketOrder { uuid, side, amount } => Order {
                uuid,
                side,
                created: now,
                amount,
                price: match side {
                    Side::Buy => Decimal::spec_max(),
                    Side::Sell => Decimal::spec_zero(),
                },
                tif: TimeInForce::IOC,
                remaining_amount: amount,
            },
            Place::LimitOrder { uuid, side, amount, tif, price } => Order {
                uuid,
                side,
                created: now,
                amount,
                price,
                tif,
                remaining_amount: amount,
            },
        }
    }

    /// When the order expires.
    pub open spec fn spec_expiry(self) -> int {
        self.created + self.tif.lifetime()
    }

    /// Where the order is found while it rests.
    pub open spec fn spec_locator(self) -> SidePriceTime {
        SidePriceTime(self.side, self.price, self.created)
    }

    /// The key under which the order rests in the book of its side.
    pub open spec fn spec_key(self) -> PriceTime {
        self.spec_locator().spec_key()
    }

    /// What holds of every order: what is left to trade is not negative and
    /// no more than the order was placed with, and its expiry is a `u64`.
    pub open spec fn valid(self) -> bool {
        &&& self.amount.wf()
        &&& self.price.wf()
        &&& self.remaining_amount.wf()
        &&& 0 <= self.remaining_amount.units() <= self.amount.units()
        &&& self.spec_expiry() <= u64::MAX
    }

    /// The order with another amount left to trade.
    pub open spec fn with_remaining(self, remaining: Decimal) -> Order {
        Order { remaining_amount: remaining, ..self }
    }

    /// The order that a request creates at time `now`.
    pub fn create(place: Place, now: u64) -> (r: Order)
        ensures
            r == Order::spec_create(place, now),
    {
        match place {
            Place::MarketOrder { uuid, side, amount } => Order {
                uuid: uuid,
                created: now,
                side: side,
                amount: amount,
                tif: TimeInForce::IOC,
                price: match side {
                    Side::Buy => Decimal::max_value(),
                    Side::Sell => Decimal::zero(),
                },
                remaining_amount: amount,
            },
            Place::LimitOrder { uuid, side, amount, tif, price } => Order {
                uuid: uuid,
                created: now,
                side: side,
                amount: amount,
                tif: tif,
                price: price,
                remaining_amount: amount,
            },
        }
    }

    /// When the order expires: at once if immediate-or-cancel, after 90 days
    /// if good-till-cancelled, after its lifetime if good-till-date.
    pub fn expiry(&self) -> (r: u64)
        requires
            self.spec_expiry() <= u64::MAX,
        ensures
            r == self.spec_expiry(),
    {
        match self.tif {
            TimeInForce::IOC => self.created,
            TimeInForce::GTC => self.created + MAX_LIFETIME,
            TimeInForce::GTD(lifetime) => self.created + lifetime,
        }
    }

    /// Where the order is found while it rests.
    pub fn locator(&self) -> (r: SidePriceTime)
        ensures
            r == self.spec_locator(),
    {
        SidePriceTime(self.side, self.price, self.created)
    }

    /// The key under which the order rests in the book of its side.
    pub fn key(&self) -> (r: PriceTime)
        ensures
            r == self.spec_key(),
    {
        self.locator().key()
    }
}

/// Whether the taker's price is at or through the maker's: at least the
/// maker's when buying, at most the maker's when selling.
pub open spec fn price_crossed(taker: Order, maker: Order) -> bool {
    match taker.side {
        Side::Buy => taker.price.units() >= maker.price.units(),
        Side::Sell => taker.price.units() <= maker.price.units(),
    }
}

/// Whether a taker trades with a maker: the taker has something left, and its
/// price is at or through the maker's.
pub open spec fn spec_crossed(taker: Order, maker: Order) -> bool {
    taker.remaining_amount.units() != 0 && price_crossed(taker, maker)
}

/// Whether a taker trades with a maker.
pub fn crossed(taker: &Order, maker: &Order) -> (r: bool)
    ensures
        r == spec_crossed(*taker, *maker),
{
    if taker.remaining_amount.is_zero() {
        return false;
    }
    match taker.side {
        Side::Buy => taker.price.ge(&maker.price),
        Side::Sell => taker.price.le(&maker.price),
    }
}

/// One trade: `base_amount` changed hands at `price`, the maker's price.
#[derive(Clone, Copy, Debug, PartialEq, Eq, Structural)]
pub struct Fill {
    pub base_amount: Decimal,
    pub price: Decimal,
    pub maker_uuid: u128,
    pub taker_uuid: u128,
}

impl Fill {
    /// The amount of the quote currency that changed hands: exact where the
    /// exact product has a representation, else as `rust_decimal` rounds it,
    /// and `None` where the product overflows.
    pub fn quote_amount(&self) -> (r: Option<Decimal>)
        ensures
            match r {
                Some(q) => crate::decimal::decimal_product(
                    self.base_amount.spec_mantissa(),
                    self.base_amount.spec_scale(),
                    self.price.spec_mantissa(),
                    self.price.spec_scale(),
                ) == Some((q.spec_mantissa(), q.spec_scale())),
                None => crate::decimal::decimal_product(
                    self.base_amount.spec_mantissa(),
                    self.base_amount.spec_scale(),
                    self.price.spec_mantissa(),
                    self.price.spec_scale(),
                ) is None,
            },
            self.base_amount.can_mul(self.price) ==> r is Some && r->0.units()
                == crate::decimal::product_units(self.base_amount, self.price),
    {
        self.base_amount.checked_mul(self.price)
    }
}

/// What the engine is asked to do.
#[derive(Clone, Copy, Debug, PartialEq, Eq, Structural)]
pub enum Command {
    /// Place an order.
    Place(Place),
    /// Cancel the resting order with this identifier, if there is one.
    Cancel(u128),
    /// Remove the orders that have expired.
    Flush(),
}

/// A command and the time at which it is given.
#[derive(Clone, Copy, Debug, PartialEq, Eq, Structural)]
pub struct CommandAtTime {
    pub now: u64,
    pub command: Command,
}

} // verus!
