//! What holds of every command: the laws of the engine, proved from the
//! definition of [`BookState::step`].

use crate::book::lemma_rank;
use crate::book::rank;
use crate::engine::Engine;
use crate::lemmas::lemma_keep;
use crate::matching::lemma_reduced_book;
use crate::matching::lemma_settle;
use crate::matching::lemma_touched;
use crate::matching::lemma_walk_fills;
use crate::matching::lemma_walk_shape;
use crate::matching::makers_valid;
use crate::matching::total_base;
use crate::matching::total_remaining;
use crate::order::price_crossed;
use crate::order::spec_other_side;
use crate::order::Command;
use crate::order::Order;
use crate::order::Place;
use crate::order::Side;
use crate::order::TimeInForce;
use crate::state::live_at;
use crate::state::not_id;
use crate::state::not_in;
use crate::state::spec_match;
use crate::state::BookState;
use crate::state::EngineError;
use vstd::prelude::*;

verus! {

/// The book in which a command given at `now` takes effect: the clock has
/// advanced and the expired orders are gone.
pub open spec fn ready(s: BookState, now: u64) -> BookState {
    s.flushed(now).at(now)
}

/// The order that a request to place creates at `now`.
pub open spec fn taker_of(place: Place, now: u64) -> Order {
    Order::spec_create(place, now)
}

/// The makers that an order placed at `now` is matched against, best first.
pub open spec fn makers_of(s: BookState, now: u64, place: Place) -> Seq<Order> {
    ready(s, now).side(spec_other_side(taker_of(place, now).side))
}

/// The book that is ready for a command is well formed; it holds the orders
/// that had not expired, and all of them were created before `now`.
pub proof fn lemma_ready(s: BookState, now: u64)
    requires
        s.wf(),
        s.last_tick < now,
    ensures
        ready(s, now).wf(),
        forall|o: Order| #[trigger] ready(s, now).has(o) <==> s.has(o) && o.spec_expiry() > now,
        forall|o: Order| #[trigger] ready(s, now).has(o) ==> o.created < now,
        forall|id: u128|
            s.contains(id) ==> (ready(s, now).contains(id) <==> !s.expired(now).contains(id)),
        forall|id: u128| ready(s, now).contains(id) ==> s.contains(id),
{
    lemma_keep(s, live_at(now));
    let f = s.flushed(now);
    let r = ready(s, now);
    assert forall|o: Order| #[trigger] r.has(o) <==> s.has(o) && o.spec_expiry() > now by {
        assert(r.has(o) == f.has(o));
    }
    assert forall|o: Order| #[trigger] r.has(o) implies o.valid() && o.remaining_amount.units() > 0
        && o.created <= r.last_tick && o.created < now by {
        assert(s.has(o));
    }
    assert forall|a: Order, b: Order| #[trigger]
        r.has(a) && #[trigger] r.has(b) && a.uuid == b.uuid implies a == b by {
        assert(s.has(a) && s.has(b));
    }
    assert forall|id: u128| s.contains(id) implies (r.contains(id) <==> !s.expired(now).contains(
        id,
    )) by {
        let o = choose|o: Order| #[trigger] s.has(o) && o.uuid == id;
        if r.contains(id) {
            let x = choose|x: Order| #[trigger] r.has(x) && x.uuid == id;
            assert(s.has(x));
            if s.expired(now).contains(id) {
                let y = choose|y: Order| #[trigger]
                    s.has(y) && y.uuid == id && y.spec_expiry() <= now;
                assert(x == y);
            }
        }
        if !s.expired(now).contains(id) {
            assert(o.spec_expiry() > now);
            assert(r.has(o));
        }
    }
    assert forall|id: u128| r.contains(id) implies s.contains(id) by {
        let x = choose|x: Order| #[trigger] r.has(x) && x.uuid == id;
        assert(s.has(x));
    }
}

/// The orders of a side of a sound book in which every order has something
/// left are makers that a taker can be matched against: in priority order,
/// of that side, valid, and each with a positive amount left.
pub proof fn lemma_makers(f: BookState, side: Side)
    requires
        f.sound(),
        f.live(),
    ensures
        makers_valid(f.side(side)),
        crate::book::sorted(f.side(side)),
        forall|j: int| 0 <= j < f.side(side).len() ==> (#[trigger] f.side(side)[j]).side == side,
{
    let makers = f.side(side);
    assert forall|j: int| 0 <= j < makers.len() implies (#[trigger] makers[j]).valid()
        && makers[j].remaining_amount.units() > 0 && makers[j].side == side by {
        assert(makers.contains(makers[j]));
        assert(f.has(makers[j]));
    }
}

/// What an accepted placement leaves in the book: the orders that were there
/// and were not closed, each with the expiry it had, and the new order unless
/// the match closed it.
pub proof fn lemma_placed(f: BookState, place: Place, now: u64)
    requires
        f.sound(),
        f.live(),
        place.valid_at(now),
        f.placed(place, now).1 is Ok,
    ensures
        ({
            let taker = Order::spec_create(place, now);
            let makers = f.side(spec_other_side(taker.side));
            let st = spec_match(taker, makers)->0;
            let next = f.placed(place, now).0;
            let out = f.placed(place, now).1->Ok_0;
            &&& spec_match(taker, makers) is Some
            &&& !f.contains(taker.uuid)
            &&& out.fills == st.fills
            &&& out.closed == st.closed(makers)
            &&& st.taker.uuid == taker.uuid
            &&& st.taker.tif == taker.tif
            &&& st.taker.spec_expiry() == taker.spec_expiry()
            &&& out.closed.contains(taker.uuid) <==> st.taker_closed()
            &&& forall|id: u128| out.closed.contains(id) ==> f.contains(id) || id == taker.uuid
            &&& forall|o: Order| #[trigger]
                next.has(o) ==> (o == st.taker && !st.taker_closed()) || (exists|p: Order| #[trigger]
                    f.has(p) && p.uuid == o.uuid && p.spec_expiry() == o.spec_expiry()
                        && !out.closed.contains(o.uuid))
            &&& forall|id: u128|
                next.contains(id) <==> (f.contains(id) && !out.closed.contains(id)) || (id
                    == taker.uuid && !st.taker_closed())
        }),
{
    crate::decimal::lemma_constants();
    let taker = Order::spec_create(place, now);
    let makers = f.side(spec_other_side(taker.side));
    let own = f.side(taker.side);
    let st = spec_match(taker, makers)->0;
    let next = f.placed(place, now).0;
    let out = f.placed(place, now).1->Ok_0;
    let closed = st.closed(makers);
    lemma_makers(f, spec_other_side(taker.side));
    lemma_walk_shape(taker, makers, 0, Seq::empty());
    lemma_settle(f, taker, st);
    let touched = f.with_sides(taker.side, own, st.touched(makers));
    let matched = f.with_sides(taker.side, own, st.settled(makers));
    // the book that the walk touched
    lemma_touched(taker, makers);
    lemma_reduced_book(f, spec_other_side(taker.side), st.touched(makers));
    assert(touched == f.with_sides(spec_other_side(taker.side), st.touched(makers), own));
    assert forall|x: Order| #[trigger] touched.has(x) implies exists|p: Order| #[trigger]
        f.has(p) && p.uuid == x.uuid && p.spec_expiry() == x.spec_expiry() by {
        let p = choose|p: Order| #[trigger] f.has(p) && x == p.with_remaining(x.remaining_amount);
        assert(f.has(p) && p.uuid == x.uuid && p.spec_expiry() == x.spec_expiry());
    }
    lemma_keep(touched, not_in(closed));
    assert(matched == touched.keep(not_in(closed)));
    assert forall|id: u128| closed.contains(id) implies f.contains(id) || id == taker.uuid by {
        if id != taker.uuid {
            let i = choose|i: int| 0 <= i < st.filled && (#[trigger] makers[i]).uuid == id;
            assert(makers.contains(makers[i]));
            assert(f.has(makers[i]));
        }
    }
    assert(closed.contains(taker.uuid) <==> st.taker_closed()) by {
        if closed.contains(taker.uuid) && !st.taker_closed() {
            let i = choose|i: int| 0 <= i < st.filled && (#[trigger] makers[i]).uuid == taker.uuid;
            assert(makers.contains(makers[i]));
            assert(f.has(makers[i]));
        }
    }
    assert forall|id: u128| matched.contains(id) <==> f.contains(id) && !closed.contains(id) by {
        if matched.contains(id) {
            let x = choose|x: Order| #[trigger] matched.has(x) && x.uuid == id;
            assert(touched.has(x));
            assert(touched.contains(id));
        }
        if f.contains(id) && !closed.contains(id) {
            assert(touched.contains(id));
            let x = choose|x: Order| #[trigger] touched.has(x) && x.uuid == id;
            assert(matched.has(x));
        }
    }
    if st.taker_closed() {
        assert(next == matched);
        assert forall|o: Order| #[trigger] next.has(o) implies exists|p: Order| #[trigger]
            f.has(p) && p.uuid == o.uuid && p.spec_expiry() == o.spec_expiry()
                && !out.closed.contains(o.uuid) by {
            assert(touched.has(o));
        }
    } else {
        lemma_with_order_members(matched, st.taker);
        assert(next == matched.with_order(st.taker));
        assert forall|o: Order| #[trigger] next.has(o) implies (o == st.taker) || (exists|
            p: Order,
        | #[trigger]
            f.has(p) && p.uuid == o.uuid && p.spec_expiry() == o.spec_expiry()
                && !out.closed.contains(o.uuid)) by {
            if o != st.taker {
                assert(matched.has(o));
                assert(touched.has(o));
            }
        }
        assert forall|id: u128|
            next.contains(id) <==> (f.contains(id) && !out.closed.contains(id)) || id
                == taker.uuid by {
            if next.contains(id) {
                let x = choose|x: Order| #[trigger] next.has(x) && x.uuid == id;
                if x != st.taker {
                    assert(matched.has(x));
                    assert(matched.contains(id));
                }
            }
            if f.contains(id) && !out.closed.contains(id) {
                assert(matched.contains(id));
                let x = choose|x: Order| #[trigger] matched.has(x) && x.uuid == id;
                assert(next.has(x));
            }
            if id == taker.uuid {
                assert(next.has(st.taker));
            }
        }
    }
}

/// A book into which an order was put holds that order besides the others.
pub proof fn lemma_with_order_members(s: BookState, o: Order)
    requires
        s.sound(),
    ensures
        forall|x: Order| #[trigger] s.with_order(o).has(x) <==> s.has(x) || x == o,
{
    let own = s.side(o.side);
    let r = rank(own, o.spec_key());
    lemma_rank(own, o.spec_key());
    let own2 = own.insert(r, o);
    assert forall|x: Order| #[trigger] own2.contains(x) <==> own.contains(x) || x == o by {
        if own2.contains(x) {
            let i = choose|i: int| 0 <= i < own2.len() && own2[i] == x;
            if i < r {
                assert(own[i] == x);
            } else if i > r {
                assert(own[i - 1] == x);
            }
        }
        if own.contains(x) {
            let i = choose|i: int| 0 <= i < own.len() && own[i] == x;
            if i < r {
                assert(own2[i] == x);
            } else {
                assert(own2[i + 1] == x);
            }
        }
        if x == o {
            assert(own2[r] == x);
        }
    }
    assert forall|x: Order| #[trigger] s.with_order(o).has(x) <==> s.has(x) || x == o by {}
}

/// What the book's order means. Of two buy orders the one with the higher
/// price comes first, of two sell orders the one with the lower price; at
/// the same price the one that was created earlier comes first.
pub proof fn law_priority_keys(a: Order, b: Order)
    requires
        a.price.wf(),
        b.price.wf(),
        a.side == b.side,
    ensures
        a.spec_key().before(b.spec_key()) <==> (match a.side {
            Side::Buy => a.price.units() > b.price.units(),
            Side::Sell => a.price.units() < b.price.units(),
        }) || (a.price.units() == b.price.units() && a.created < b.created),
{
    crate::decimal::lemma_neg_units(a.price);
    crate::decimal::lemma_neg_units(b.price);
}

/// Conservation of base. Where a placement is accepted, its fills add up to
/// exactly what the taker lost: no more than the amount it was placed with,
/// and no more than the makers that were filled had left before.
pub proof fn law_conservation(s: BookState, now: u64, place: Place)
    requires
        s.wf(),
        s.step(now, Command::Place(place)).1 is Ok,
    ensures
        ({
            let fills = s.step(now, Command::Place(place)).1->Ok_0.fills;
            let makers = makers_of(s, now, place);
            let left = spec_match(taker_of(place, now), makers)->0.taker.remaining_amount;
            &&& 0 <= left.units()
            &&& total_base(fills) == place.spec_amount().units() - left.units()
            &&& total_base(fills) <= place.spec_amount().units()
            &&& fills.len() <= makers.len()
            &&& total_base(fills) <= total_remaining(makers, fills.len() as int)
        }),
{
    lemma_ready(s, now);
    let f = ready(s, now);
    let taker = taker_of(place, now);
    let makers = makers_of(s, now, place);
    lemma_placed(f, place, now);
    lemma_makers(f, spec_other_side(taker.side));
    lemma_walk_shape(taker, makers, 0, Seq::empty());
    lemma_walk_fills(taker, makers, 0, Seq::empty());
}

/// Price-time priority. Where a placement is accepted, its fills follow the
/// opposite side from the best maker on, which is in ascending order of
/// effective price and creation time: the fill at place `j` is with the maker
/// at place `j`, whose price the taker crosses. The first maker without a
/// fill, if there is one, is one whose price is not crossed, unless nothing is
/// left of the taker.
pub proof fn law_price_time_priority(s: BookState, now: u64, place: Place)
    requires
        s.wf(),
        s.step(now, Command::Place(place)).1 is Ok,
    ensures
        ({
            let fills = s.step(now, Command::Place(place)).1->Ok_0.fills;
            let makers = makers_of(s, now, place);
            let taker = taker_of(place, now);
            let left = spec_match(taker, makers)->0.taker.remaining_amount;
            &&& fills.len() <= makers.len()
            &&& forall|j: int|
                0 <= j < fills.len() ==> (#[trigger] fills[j]).maker_uuid == makers[j].uuid
                    && price_crossed(taker, makers[j])
            &&& forall|a: int, b: int|
                0 <= a < b < makers.len() ==> (#[trigger] makers[a]).spec_key().before(
                    (#[trigger] makers[b]).spec_key(),
                )
            &&& fills.len() < makers.len() ==> left.units() == 0 || !price_crossed(
                taker,
                makers[fills.len() as int],
            )
        }),
{
    lemma_ready(s, now);
    let f = ready(s, now);
    let taker = taker_of(place, now);
    let makers = makers_of(s, now, place);
    lemma_placed(f, place, now);
    lemma_makers(f, spec_other_side(taker.side));
    lemma_walk_fills(taker, makers, 0, Seq::empty());
}

/// Maker-price fills. Every fill of an accepted placement is at the price of
/// the resting order it is with, and names the taker.
pub proof fn law_maker_price(s: BookState, now: u64, place: Place)
    requires
        s.wf(),
        s.step(now, Command::Place(place)).1 is Ok,
    ensures
        ({
            let fills = s.step(now, Command::Place(place)).1->Ok_0.fills;
            let makers = makers_of(s, now, place);
            forall|j: int|
                0 <= j < fills.len() ==> j < makers.len() && (#[trigger] fills[j]).price
                    == makers[j].price && fills[j].maker_uuid == makers[j].uuid
                    && fills[j].taker_uuid == place.spec_uuid()
        }),
{
    lemma_ready(s, now);
    let f = ready(s, now);
    let taker = taker_of(place, now);
    let makers = makers_of(s, now, place);
    lemma_placed(f, place, now);
    lemma_makers(f, spec_other_side(taker.side));
    lemma_walk_fills(taker, makers, 0, Seq::empty());
}

/// An immediate-or-cancel order never rests. After an accepted command that
/// places one, a market order among them, its identifier is closed and is not
/// in the book.
pub proof fn law_ioc_never_rests(s: BookState, now: u64, place: Place)
    requires
        s.wf(),
        place.spec_tif() == TimeInForce::IOC,
        s.step(now, Command::Place(place)).1 is Ok,
    ensures
        s.step(now, Command::Place(place)).1->Ok_0.closed.contains(place.spec_uuid()),
        !s.step(now, Command::Place(place)).0.contains(place.spec_uuid()),
{
    lemma_ready(s, now);
    law_ioc_never_rests_placed(ready(s, now), now, place);
}

/// An immediate-or-cancel order never rests, wherever the clock stands. After
/// an accepted placement of one at `now`, a market order among them, filled
/// entirely, in part or not at all, its identifier is closed and is not in
/// the book.
pub proof fn law_ioc_never_rests_placed(f: BookState, now: u64, place: Place)
    requires
        f.sound(),
        f.live(),
        place.valid_at(now),
        place.spec_tif() == TimeInForce::IOC,
        f.placed(place, now).1 is Ok,
    ensures
        f.placed(place, now).1->Ok_0.closed.contains(place.spec_uuid()),
        !f.placed(place, now).0.contains(place.spec_uuid()),
{
    lemma_placed(f, place, now);
}

/// Closure consistency. After an accepted command, an identifier that rested
/// in the book before, or that the command placed, is closed exactly if it
/// is not in the book any more; and nothing else is closed. (One case is
/// left out: an order is placed under the identifier of an order that expires
/// at this very command, and rests. That identifier is both closed and in
/// the book.)
pub proof fn law_closure(s: BookState, now: u64, command: Command)
    requires
        s.wf(),
        s.step(now, command).1 is Ok,
        command matches Command::Place(place) ==> !(s.expired(now).contains(place.spec_uuid())
            && s.step(now, command).0.contains(place.spec_uuid())),
    ensures
        ({
            let next = s.step(now, command).0;
            let closed = s.step(now, command).1->Ok_0.closed;
            &&& forall|id: u128|
                s.contains(id) || (command matches Command::Place(place) && place.spec_uuid()
                    == id) ==> (closed.contains(id) <==> !next.contains(id))
            &&& forall|id: u128|
                closed.contains(id) ==> s.contains(id) || (command matches Command::Place(place)
                    && place.spec_uuid() == id)
        }),
{
    lemma_ready(s, now);
    let f = ready(s, now);
    let next = s.step(now, command).0;
    let closed = s.step(now, command).1->Ok_0.closed;
    let expired = s.expired(now);
    assert forall|id: u128| expired.contains(id) implies s.contains(id) && !f.contains(id) by {
        let o = choose|o: Order| #[trigger] s.has(o) && o.uuid == id && o.spec_expiry() <= now;
        assert(s.contains(id));
    }
    match command {
        Command::Flush() => {},
        Command::Cancel(c) => {
            lemma_keep(f, not_id(c));
            assert forall|id: u128| next.contains(id) <==> f.contains(id) && id != c by {
                if next.contains(id) {
                    let x = choose|x: Order| #[trigger] next.has(x) && x.uuid == id;
                    assert(f.has(x));
                }
                if f.contains(id) && id != c {
                    let x = choose|x: Order| #[trigger] f.has(x) && x.uuid == id;
                    assert(next.has(x));
                }
            }
        },
        Command::Place(place) => {
            lemma_placed(f, place, now);
        },
    }
}

/// What a match closes. Every maker that a match left with nothing is closed,
/// and so is the taker where nothing is left of it; a maker that has something
/// left is not closed.
pub proof fn law_filled_closed(taker: Order, makers: Seq<Order>)
    requires
        makers_valid(makers),
        taker.remaining_amount.wf(),
        taker.remaining_amount.units() >= 0,
        forall|j: int| 0 <= j < makers.len() ==> (#[trigger] makers[j]).uuid != taker.uuid,
        forall|i: int, j: int|
            0 <= i < j < makers.len() ==> (#[trigger] makers[i]).uuid != (#[trigger] makers[j]).uuid,
        spec_match(taker, makers) is Some,
    ensures
        ({
            let st = spec_match(taker, makers)->0;
            let left = st.touched(makers);
            &&& left.len() == makers.len()
            &&& forall|j: int|
                0 <= j < left.len() ==> ((#[trigger] left[j]).remaining_amount.units() == 0
                    <==> st.closed(makers).contains(left[j].uuid))
            &&& st.taker.remaining_amount.units() == 0 ==> st.closed(makers).contains(taker.uuid)
        }),
{
    let st = spec_match(taker, makers)->0;
    let left = st.touched(makers);
    lemma_walk_shape(taker, makers, 0, Seq::empty());
    lemma_touched(taker, makers);
    assert forall|j: int| 0 <= j < left.len() implies ((#[trigger] left[j]).remaining_amount.units()
        == 0 <==> st.closed(makers).contains(left[j].uuid)) by {
        assert(left[j].uuid == makers[j].uuid);
        if st.closed(makers).contains(left[j].uuid) {
            let i = choose|i: int| 0 <= i < st.filled && (#[trigger] makers[i]).uuid == left[j].uuid;
            assert(i == j);
        }
    }
}

/// Conservation at the match. Each fill is taken from what is left of its
/// maker and of the taker: a maker with a fill has exactly that fill's amount
/// less than before, the taker has the sum of the fills less, and what is left
/// of each is neither negative nor more than it was.
pub proof fn law_decrement(taker: Order, makers: Seq<Order>)
    requires
        makers_valid(makers),
        taker.remaining_amount.wf(),
        taker.remaining_amount.units() >= 0,
        spec_match(taker, makers) is Some,
    ensures
        ({
            let st = spec_match(taker, makers)->0;
            let left = st.touched(makers);
            &&& left.len() == makers.len()
            &&& st.fills.len() <= makers.len()
            &&& st.taker.remaining_amount.units() == taker.remaining_amount.units() - total_base(
                st.fills,
            )
            &&& 0 <= st.taker.remaining_amount.units()
            &&& forall|j: int|
                0 <= j < st.fills.len() ==> (#[trigger] left[j]).remaining_amount.units()
                    == makers[j].remaining_amount.units() - st.fills[j].base_amount.units()
            &&& forall|j: int| st.fills.len() <= j < left.len() ==> #[trigger] left[j] == makers[j]
            &&& forall|j: int|
                0 <= j < left.len() ==> 0 <= (#[trigger] left[j]).remaining_amount.units()
                    <= makers[j].remaining_amount.units()
        }),
{
    let st = spec_match(taker, makers)->0;
    let left = st.touched(makers);
    lemma_walk_shape(taker, makers, 0, Seq::empty());
    lemma_walk_fills(taker, makers, 0, Seq::empty());
    lemma_touched(taker, makers);
    assert(total_base(Seq::<crate::order::Fill>::empty()) == 0);
    assert forall|j: int| 0 <= j < st.fills.len() implies (#[trigger] left[j]).remaining_amount.units()
        == makers[j].remaining_amount.units() - st.fills[j].base_amount.units() by {
        assert(makers[j].valid());
        assert(st.fills[j].base_amount.wf());
        crate::decimal::lemma_sub_units(makers[j].remaining_amount, st.fills[j].base_amount);
    }
}

/// No liquidity is left unmatched. After a match nothing is left of the
/// taker, or no maker that has something left has a price that the taker
/// crosses.
pub proof fn law_exhausted(taker: Order, makers: Seq<Order>)
    requires
        makers_valid(makers),
        crate::book::sorted(makers),
        forall|j: int| 0 <= j < makers.len() ==> (#[trigger] makers[j]).side == spec_other_side(
            taker.side,
        ),
        taker.remaining_amount.wf(),
        taker.remaining_amount.units() >= 0,
        spec_match(taker, makers) is Some,
    ensures
        ({
            let st = spec_match(taker, makers)->0;
            let left = st.touched(makers);
            st.taker.remaining_amount.units() == 0 || forall|j: int|
                0 <= j < left.len() && (#[trigger] left[j]).remaining_amount.units() > 0
                    ==> !price_crossed(st.taker, left[j])
        }),
{
    let s = spec_match(taker, makers)->0;
    let t = s.touched(makers);
    lemma_walk_shape(taker, makers, 0, Seq::empty());
    lemma_walk_fills(taker, makers, 0, Seq::empty());
    lemma_touched(taker, makers);
    if s.taker.remaining_amount.units() != 0 {
        let f = s.filled;
        assert forall|j: int|
            0 <= j < t.len() && (#[trigger] t[j]).remaining_amount.units() > 0 implies !price_crossed(
            s.taker,
            t[j],
        ) by {
            assert(t[j] == makers[j]);
            assert(makers[f].valid() && makers[j].valid());
            crate::decimal::lemma_neg_units(makers[f].price);
            crate::decimal::lemma_neg_units(makers[j].price);
            if j > f {
                assert(makers[f].spec_key().before(makers[j].spec_key()));
            }
        }
    }
}

/// The indices are in step with the book. At every moment, between commands
/// and after each insertion, removal and match, the index of identifiers has
/// exactly the identifiers of the resting orders, each with the locator of
/// its order, and the expiry index has exactly one entry for each resting
/// order: its expiry and its identifier.
pub proof fn law_bijection(engine: Engine)
    requires
        engine.sound(),
    ensures
        engine.id_index().dom() == engine@.ids(),
        forall|o: Order| #[trigger]
            engine@.has(o) ==> engine.id_index()[o.uuid] == o.spec_locator()
                && engine.expiry_index().contains((o.spec_expiry() as u64, o.uuid)),
        forall|e: (u64, u128)| #[trigger]
            engine.expiry_index().contains(e) ==> engine@.contains(e.1),
        forall|a: (u64, u128), b: (u64, u128)|
            engine.expiry_index().contains(a) && engine.expiry_index().contains(b) && a.1 == b.1
                ==> a == b,
{
    let s = engine@;
    assert(engine.id_index().dom() =~= s.ids());
    assert forall|a: (u64, u128), b: (u64, u128)|
        engine.expiry_index().contains(a) && engine.expiry_index().contains(b) && a.1
            == b.1 implies a == b by {
        let x = choose|x: Order| #[trigger] s.has(x) && x.uuid == a.1 && x.spec_expiry() == a.0;
        let y = choose|y: Order| #[trigger] s.has(y) && y.uuid == b.1 && y.spec_expiry() == b.0;
        assert(x == y);
    }
}

/// Expiry monotonicity. After an accepted command at `now`, a flush among
/// them, no resting order has an expiry at or before `now`.
pub proof fn law_expiry(s: BookState, now: u64, command: Command)
    requires
        s.wf(),
        s.step(now, command).1 is Ok,
    ensures
        forall|o: Order| #[trigger] s.step(now, command).0.has(o) ==> o.spec_expiry() > now,
        s.step(now, command).0.last_tick == now,
{
    lemma_ready(s, now);
    let f = ready(s, now);
    let next = s.step(now, command).0;
    match command {
        Command::Flush() => {},
        Command::Cancel(c) => {
            lemma_keep(f, not_id(c));
        },
        Command::Place(place) => {
            lemma_placed(f, place, now);
            let taker = taker_of(place, now);
            let st = spec_match(taker, makers_of(s, now, place))->0;
            assert forall|o: Order| #[trigger] next.has(o) implies o.spec_expiry() > now by {
                if o == st.taker && !st.taker_closed() {
                    assert(taker.tif != TimeInForce::IOC);
                } else {
                    let p = choose|p: Order| #[trigger]
                        f.has(p) && p.uuid == o.uuid && p.spec_expiry() == o.spec_expiry();
                }
            }
        },
    }
}

/// Clock monotonicity. A command whose time is not after that of the last
/// command is refused, and the book stays as it is.
pub proof fn law_clock(s: BookState, now: u64, command: Command)
    requires
        now <= s.last_tick,
    ensures
        s.step(now, command) == (s, Err::<crate::state::Outcome, EngineError>(
            EngineError::NonMonotonicTime,
        )),
{
}

/// The clock follows the commands. After a command whose time is after that
/// of the last command, accepted or not, the clock stands at the command's
/// time.
pub proof fn law_clock_advances(s: BookState, now: u64, command: Command)
    requires
        s.last_tick < now,
    ensures
        s.step(now, command).0.last_tick == now,
{
}

/// Cancel is idempotent. Where an order rests and nothing expires meanwhile,
/// cancelling it closes exactly its identifier; cancelling it again closes
/// nothing and leaves both sides of the book as they were.
pub proof fn law_cancel_twice(s: BookState, first: u64, second: u64, id: u128)
    requires
        s.wf(),
        s.last_tick < first < second,
        s.contains(id),
        s.expired(second) == Set::<u128>::empty(),
    ensures
        ({
            let once = s.step(first, Command::Cancel(id));
            let twice = once.0.step(second, Command::Cancel(id));
            &&& once.1 is Ok
            &&& once.1->Ok_0.closed == Set::<u128>::empty().insert(id)
            &&& !once.0.contains(id)
            &&& twice.1 is Ok
            &&& twice.1->Ok_0.closed == Set::<u128>::empty()
            &&& twice.0.buy == once.0.buy
            &&& twice.0.sell == once.0.sell
        }),
{
    let once = s.step(first, Command::Cancel(id));
    let twice = once.0.step(second, Command::Cancel(id));
    lemma_ready(s, first);
    let f = ready(s, first);
    assert forall|o: Order| #[trigger] s.has(o) implies o.spec_expiry() > second by {
        if o.spec_expiry() <= second {
            assert(s.expired(second).contains(o.uuid));
        }
    }
    crate::lemmas::lemma_keep_all(s, live_at(first));
    assert(f == s.at(first));
    assert(s.expired(first) =~= Set::<u128>::empty()) by {
        assert forall|x: u128| !s.expired(first).contains(x) by {
            if s.expired(first).contains(x) {
                let o = choose|o: Order| #[trigger]
                    s.has(o) && o.uuid == x && o.spec_expiry() <= first;
                assert(o.spec_expiry() > second);
            }
        }
    }
    assert(f.contains(id));
    lemma_keep(f, not_id(id));
    let a = once.0;
    assert(a == f.without(id));
    assert(!a.contains(id)) by {
        if a.contains(id) {
            let x = choose|x: Order| #[trigger] a.has(x) && x.uuid == id;
            assert(f.has(x));
        }
    }
    assert forall|o: Order| #[trigger] a.has(o) implies o.spec_expiry() > second by {
        assert(f.has(o));
        assert(s.has(o));
    }
    crate::lemmas::lemma_keep_all(a, live_at(second));
    let g = ready(a, second);
    assert(g == a.at(second));
    assert(a.expired(second) =~= Set::<u128>::empty()) by {
        assert forall|x: u128| !a.expired(second).contains(x) by {
            if a.expired(second).contains(x) {
                let o = choose|o: Order| #[trigger]
                    a.has(o) && o.uuid == x && o.spec_expiry() <= second;
                assert(o.spec_expiry() > second);
            }
        }
    }
    assert(!g.contains(id)) by {
        if g.contains(id) {
            let x = choose|x: Order| #[trigger] g.has(x) && x.uuid == id;
            assert(a.has(x));
        }
    }
    crate::lemmas::lemma_without_absent(g, id);
}

} // verus!
