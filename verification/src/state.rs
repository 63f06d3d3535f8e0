//! The book as a mathematical value, and what each command makes of it.
//!
//! The engine's contracts are stated over [`BookState`]: the resting orders
//! of either side in priority order, and the time of the last command.

use crate::book::rank;
use crate::book::sorted;
use crate::decimal::Decimal;
use crate::order::spec_crossed;
use crate::order::spec_other_side;
use crate::order::Command;
use crate::order::Fill;
use crate::order::Order;
use crate::order::Place;
use crate::order::Side;
use crate::order::TimeInForce;
use vstd::prelude::*;

verus! {

/// Why the engine refuses a command.
#[derive(Clone, Copy, Debug, PartialEq, Eq, Structural)]
pub enum EngineError {
    /// The command's time is not after that of the last command.
    NonMonotonicTime,
    /// The order has no positive amount, a good-till-date lifetime of zero,
    /// or an expiry beyond what a `u64` holds.
    InvalidOrder,
    /// An order with this identifier rests in the book.
    DuplicateId,
    /// What a trade leaves of an order has more digits than a decimal holds.
    InexactAmount,
}

/// What a command produced: the fills in the order they were made, and the
/// identifiers of the orders that are no longer live.
pub struct Outcome {
    pub fills: Seq<Fill>,
    pub closed: Set<u128>,
}

/// How a taker's walk through the opposite side ended.
pub struct Settlement {
    /// The fills, in the order they were made.
    pub fills: Seq<Fill>,
    /// The taker, with what is left of it.
    pub taker: Order,
    /// How many makers, counted from the best, were filled entirely.
    pub filled: int,
    /// What is left of the next maker, where it was filled in part.
    pub partial: Option<Decimal>,
}

/// The book: each side's resting orders, best first, and the time of the
/// last command.
pub struct BookState {
    pub buy: Seq<Order>,
    pub sell: Seq<Order>,
    pub last_tick: u64,
}

/// The orders with another identifier than `id`.
pub open spec fn not_id(id: u128) -> spec_fn(Order) -> bool {
    |o: Order| o.uuid != id
}

/// The orders whose identifier is not among `ids`.
pub open spec fn not_in(ids: Set<u128>) -> spec_fn(Order) -> bool {
    |o: Order| !ids.contains(o.uuid)
}

/// The orders that have not expired at `now`.
pub open spec fn live_at(now: u64) -> spec_fn(Order) -> bool {
    |o: Order| o.spec_expiry() > now
}

/// The fill of `amount` between a taker and a maker: at the maker's price.
pub open spec fn fill_of(taker: Order, maker: Order, amount: Decimal) -> Fill {
    Fill { base_amount: amount, price: maker.price, maker_uuid: maker.uuid, taker_uuid: taker.uuid }
}

/// The taker's walk through the makers from place `i` on, best first, with
/// the fills made so far. It stops at the first maker that the taker does not
/// cross, or when nothing is left of the taker. Each fill is the smaller of
/// what is left of the two, at the maker's price. `None` where an amount left
/// over has no exact representation.
pub open spec fn walk(taker: Order, makers: Seq<Order>, i: int, fills: Seq<Fill>) -> Option<
    Settlement,
>
    decreases makers.len() - i,
{
    if !(0 <= i < makers.len()) || !spec_crossed(taker, makers[i]) {
        Some(Settlement { fills, taker, filled: i, partial: None })
    } else {
        let maker = makers[i];
        let t = taker.remaining_amount;
        let m = maker.remaining_amount;
        if t.units() < m.units() {
            if m.can_sub(t) {
                Some(
                    Settlement {
                        fills: fills.push(fill_of(taker, maker, t)),
                        taker: taker.with_remaining(t.sub_spec(t)),
                        filled: i,
                        partial: Some(m.sub_spec(t)),
                    },
                )
            } else {
                None
            }
        } else if t.units() == m.units() {
            Some(
                Settlement {
                    fills: fills.push(fill_of(taker, maker, t)),
                    taker: taker.with_remaining(t.sub_spec(t)),
                    filled: i + 1,
                    partial: None,
                },
            )
        } else if t.can_sub(m) {
            walk(taker.with_remaining(t.sub_spec(m)), makers, i + 1, fills.push(fill_of(taker, maker, m)))
        } else {
            None
        }
    }
}

/// The match of a taker against the makers of the opposite side.
pub open spec fn spec_match(taker: Order, makers: Seq<Order>) -> Option<Settlement> {
    walk(taker, makers, 0, Seq::empty())
}

impl Settlement {
    /// Whether the taker is closed: nothing is left of it, or it is
    /// immediate-or-cancel.
    pub open spec fn taker_closed(self) -> bool {
        self.taker.remaining_amount.units() == 0 || self.taker.tif == TimeInForce::IOC
    }

    /// The identifiers that the match closed: the makers that were filled
    /// entirely, and the taker where it is closed.
    pub open spec fn closed(self, makers: Seq<Order>) -> Set<u128> {
        Set::new(
            |id: u128|
                (exists|i: int| 0 <= i < self.filled && (#[trigger] makers[i]).uuid == id) || (id
                    == self.taker.uuid && self.taker_closed()),
        )
    }

    /// The opposite side as the match leaves it: each maker that has a fill
    /// has that fill's amount less left to trade, and every other maker is as
    /// it was. The makers that were filled entirely stand there with nothing
    /// left.
    pub open spec fn touched(self, makers: Seq<Order>) -> Seq<Order> {
        Seq::new(
            makers.len(),
            |j: int|
                if j < self.fills.len() {
                    makers[j].with_remaining(
                        makers[j].remaining_amount.sub_spec(self.fills[j].base_amount),
                    )
                } else {
                    makers[j]
                },
        )
    }

    /// The opposite side once the makers that were filled entirely are gone:
    /// first what is left of the one filled in part, if there is one.
    pub open spec fn settled(self, makers: Seq<Order>) -> Seq<Order> {
        self.touched(makers).skip(self.filled)
    }
}

impl BookState {
    /// The resting orders of a side, best first.
    pub open spec fn side(self, side: Side) -> Seq<Order> {
        match side {
            Side::Buy => self.buy,
            Side::Sell => self.sell,
        }
    }

    /// Whether the order rests in the book.
    pub open spec fn has(self, o: Order) -> bool {
        self.buy.contains(o) || self.sell.contains(o)
    }

    /// Whether an order with this identifier rests in the book.
    pub open spec fn contains(self, id: u128) -> bool {
        exists|o: Order| #[trigger] self.has(o) && o.uuid == id
    }

    /// The identifiers of the resting orders.
    pub open spec fn ids(self) -> Set<u128> {
        Set::new(|id: u128| self.contains(id))
    }

    /// The identifiers of the resting orders that have expired at `now`.
    pub open spec fn expired(self, now: u64) -> Set<u128> {
        Set::new(
            |id: u128| exists|o: Order| #[trigger] self.has(o) && o.uuid == id && o.spec_expiry() <= now,
        )
    }

    /// What holds of the book at every moment: each side is in strict
    /// priority order and holds orders of its side only; every resting order
    /// is valid; and no two resting orders share an identifier.
    pub open spec fn sound(self) -> bool {
        &&& sorted(self.buy)
        &&& sorted(self.sell)
        &&& forall|o: Order| #[trigger] self.buy.contains(o) ==> o.side == Side::Buy
        &&& forall|o: Order| #[trigger] self.sell.contains(o) ==> o.side == Side::Sell
        &&& forall|o: Order| #[trigger] self.has(o) ==> o.valid()
        &&& forall|a: Order, b: Order|
            #[trigger] self.has(a) && #[trigger] self.has(b) && a.uuid == b.uuid ==> a == b
    }

    /// Whether every resting order has something left to trade. It holds but
    /// between a match and the removal of the makers that the match filled
    /// entirely.
    pub open spec fn live(self) -> bool {
        forall|o: Order| #[trigger] self.has(o) ==> o.remaining_amount.units() > 0
    }

    /// Whether every resting order was created at or before `time`.
    pub open spec fn created_by(self, time: int) -> bool {
        forall|o: Order| #[trigger] self.has(o) ==> o.created <= time
    }

    /// What holds of the book between commands: it is sound, every resting
    /// order has something left to trade, and none was created after the
    /// last command.
    pub open spec fn wf(self) -> bool {
        &&& self.sound()
        &&& self.live()
        &&& self.created_by(self.last_tick as int)
    }

    /// The book with only the orders that satisfy `p`.
    pub open spec fn keep(self, p: spec_fn(Order) -> bool) -> BookState {
        BookState { buy: self.buy.filter(p), sell: self.sell.filter(p), last_tick: self.last_tick }
    }

    /// The book without the orders that have expired at `now`.
    pub open spec fn flushed(self, now: u64) -> BookState {
        self.keep(live_at(now))
    }

    /// The book without the order with this identifier.
    pub open spec fn without(self, id: u128) -> BookState {
        self.keep(not_id(id))
    }

    /// The book at a later time.
    pub open spec fn at(self, now: u64) -> BookState {
        BookState { buy: self.buy, sell: self.sell, last_tick: now }
    }

    /// The book with other orders on `side` and on the side opposite to it.
    pub open spec fn with_sides(self, side: Side, own: Seq<Order>, opposite: Seq<Order>) -> BookState {
        match side {
            Side::Buy => BookState { buy: own, sell: opposite, last_tick: self.last_tick },
            Side::Sell => BookState { buy: opposite, sell: own, last_tick: self.last_tick },
        }
    }

    /// The book with the order put at the place of its key on its side.
    pub open spec fn with_order(self, order: Order) -> BookState {
        let own = self.side(order.side);
        self.with_sides(
            order.side,
            own.insert(rank(own, order.spec_key()), order),
            self.side(spec_other_side(order.side)),
        )
    }

    /// Placing an order at `now`, in a book whose resting orders were all
    /// created before `now`: the new order is matched against the opposite
    /// side; the makers that were filled entirely leave the book; the order
    /// rests on its side unless the match closed it. The clock is not read
    /// and stays as it is. An identifier that rests in the book is refused,
    /// and so is a match that would leave an inexact amount; both leave the
    /// book as it is.
    pub open spec fn placed(self, place: Place, now: u64) -> (BookState, Result<Outcome, EngineError>) {
        let taker = Order::spec_create(place, now);
        let makers = self.side(spec_other_side(taker.side));
        if self.contains(taker.uuid) {
            (self, Err(EngineError::DuplicateId))
        } else {
            match spec_match(taker, makers) {
                None => (self, Err(EngineError::InexactAmount)),
                Some(s) => {
                    let matched = self.with_sides(taker.side, self.side(taker.side), s.settled(makers));
                    let next = if s.taker_closed() {
                        matched
                    } else {
                        matched.with_order(s.taker)
                    };
                    (next, Ok(Outcome { fills: s.fills, closed: s.closed(makers) }))
                },
            }
        }
    }

    /// What a command given at `now` makes of the book, and what it answers.
    ///
    /// A time that is not after the last command's is refused, and the book
    /// stays as it is. Otherwise the clock advances and the orders that have
    /// expired are flushed before the command itself takes effect; their
    /// identifiers are part of the answer. An order that is not valid is
    /// refused then, in the flushed book.
    pub open spec fn step(self, now: u64, command: Command) -> (
        BookState,
        Result<Outcome, EngineError>,
    ) {
        if now <= self.last_tick {
            (self, Err(EngineError::NonMonotonicTime))
        } else {
            let flushed = self.flushed(now).at(now);
            let expired = self.expired(now);
            match command {
                Command::Flush() => (flushed, Ok(Outcome { fills: Seq::empty(), closed: expired })),
                Command::Cancel(id) => (
                    flushed.without(id),
                    Ok(
                        Outcome {
                            fills: Seq::empty(),
                            closed: if flushed.contains(id) {
                                expired.insert(id)
                            } else {
                                expired
                            },
                        },
                    ),
                ),
                Command::Place(place) => if !place.valid_at(now) {
                    (flushed, Err(EngineError::InvalidOrder))
                } else {
                    let (next, answer) = flushed.placed(place, now);
                    (
                        next,
                        match answer {
                            Ok(o) => Ok(Outcome { fills: o.fills, closed: o.closed.union(expired) }),
                            Err(e) => Err(e),
                        },
                    )
                },
            }
        }
    }
}

} // verus!
