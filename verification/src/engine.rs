//! The matching engine: two book sides, the index from identifiers to
//! locators, the expiry index, and the clock.

use crate::book::BookSide;
use crate::book::holds;
use crate::book::lemma_holds;
use crate::decimal::Decimal;
use crate::decimal::lemma_sub_self;
use crate::decimal::lemma_sub_units;
use crate::expiry::ExpiryIndex;
use crate::laws::law_decrement;
use crate::laws::law_exhausted;
use crate::laws::law_ioc_never_rests_placed;
use crate::lemmas::indexed;
use crate::lemmas::lemma_indices_without;
use crate::lemmas::lemma_keep;
use crate::lemmas::lemma_keep_same;
use crate::lemmas::lemma_locate;
use crate::lemmas::lemma_with_order;
use crate::lemmas::lemma_without_absent;
use crate::lemmas::lemma_without_more;
use crate::lemmas::scheduled;
use crate::matching::applied;
use crate::matching::lemma_reduced;
use crate::matching::lemma_reduced_book;
use crate::matching::lemma_settle;
use crate::matching::lemma_touched;
use crate::matching::lemma_walk_fills;
use crate::matching::lemma_walk_shape;
use crate::matching::total_base;
use crate::order::price_crossed;
use crate::order::Command;
use crate::order::CommandAtTime;
use crate::order::crossed;
use crate::order::Fill;
use crate::order::Order;
use crate::order::other_side;
use crate::order::Place;
use crate::order::Side;
use crate::order::SidePriceTime;
use crate::order::spec_other_side;
use crate::order::TimeInForce;
use crate::state::BookState;
use crate::state::EngineError;
use crate::state::live_at;
use crate::state::not_in;
use crate::state::Outcome;
use crate::state::Settlement;
use crate::state::spec_match;
use crate::state::walk;
use std::collections::BTreeSet;
use std::collections::HashMap;
use vstd::prelude::*;
use vstd::std_specs::iter::IteratorSpec;

verus! {

/// What a command produced: the fills in the order they were made, and the
/// identifiers of the orders that are no longer live.
#[derive(Debug)]
pub struct MatchResult {
    pub fills: Vec<Fill>,
    pub closed: BTreeSet<u128>,
}

impl View for MatchResult {
    type V = Outcome;

    open spec fn view(&self) -> Outcome {
        Outcome { fills: self.fills@, closed: self.closed@ }
    }
}

/// An answer as a mathematical value.
pub open spec fn answer(r: Result<MatchResult, EngineError>) -> Result<Outcome, EngineError> {
    match r {
        Ok(m) => Ok(m@),
        Err(e) => Err(e),
    }
}

/// The identifiers among the first `k` of a sequence.
pub open spec fn seen(ids: Seq<&u128>, k: int) -> Set<u128> {
    Set::new(|id: u128| exists|j: int| 0 <= j < k && *(#[trigger] ids[j]) == id)
}

/// The engine of one instrument.
pub struct Engine {
    buy: BookSide,
    sell: BookSide,
    last_tick: u64,
    uuid_to_side_price_time: HashMap<u128, SidePriceTime>,
    expiry_to_uuid: ExpiryIndex,
}

impl View for Engine {
    type V = BookState;

    closed spec fn view(&self) -> BookState {
        BookState { buy: self.buy@, sell: self.sell@, last_tick: self.last_tick }
    }
}

impl Engine {
    /// The index from identifiers to locators.
    pub closed spec fn id_index(&self) -> Map<u128, SidePriceTime> {
        self.uuid_to_side_price_time@
    }

    /// The entries of the expiry index: pairs of an expiry and an identifier.
    pub closed spec fn expiry_index(&self) -> Set<(u64, u128)> {
        self.expiry_to_uuid@
    }

    /// What holds of the engine at every moment: the book is sound, and both
    /// indices cover exactly the resting orders.
    pub open spec fn sound(&self) -> bool {
        &&& self@.sound()
        &&& indexed(self@, self.id_index())
        &&& scheduled(self@, self.expiry_index())
    }

    /// What holds of the engine between commands: the book is well formed,
    /// and both indices cover exactly the resting orders.
    pub open spec fn wf(&self) -> bool {
        &&& self@.wf()
        &&& indexed(self@, self.id_index())
        &&& scheduled(self@, self.expiry_index())
    }

    /// An engine with an empty book, at time zero.
    pub fn new() -> (r: Engine)
        ensures
            r.wf(),
            r@ == (BookState { buy: Seq::empty(), sell: Seq::empty(), last_tick: 0 }),
    {
        let r = Engine {
            buy: BookSide::new(),
            sell: BookSide::new(),
            last_tick: 0,
            uuid_to_side_price_time: HashMap::new(),
            expiry_to_uuid: ExpiryIndex::new(),
        };
        assert(forall|o: Order| !r@.has(o));
        r
    }

    /// The time of the last command.
    pub fn last_tick(&self) -> (r: u64)
        ensures
            r == self@.last_tick,
    {
        self.last_tick
    }

    /// The resting orders of a side, best first.
    pub fn resting(&self, side: Side) -> (r: &BookSide)
        ensures
            r@ == self@.side(side),
    {
        match side {
            Side::Buy => &self.buy,
            Side::Sell => &self.sell,
        }
    }

    /// Puts a new order into the book, at the place of its key on its side,
    /// and into both indices.
    pub fn insert(&mut self, order: Order)
        requires
            old(self).sound(),
            order.valid(),
            !old(self)@.contains(order.uuid),
            !holds(old(self)@.side(order.side), order.spec_key()),
        ensures
            final(self).sound(),
            final(self)@ == old(self)@.with_order(order),
            forall|o: Order| #[trigger] final(self)@.has(o) <==> old(self)@.has(o) || o == order,
            final(self).id_index() == old(self).id_index().insert(order.uuid, order.spec_locator()),
            final(self).expiry_index() == old(self).expiry_index().insert(
                (order.spec_expiry() as u64, order.uuid),
            ),
    {
        proof {
            lemma_with_order(self@, self.id_index(), self.expiry_index(), order);
        }
        self.uuid_to_side_price_time.insert(order.uuid, order.locator());
        self.expiry_to_uuid.insert(order.expiry(), order.uuid);
        let placed = match order.side {
            Side::Buy => self.buy.insert(order),
            Side::Sell => self.sell.insert(order),
        };
        assert(placed is Ok);
    }

    /// Removes the order with this identifier from the book and from both
    /// indices; answers whether there was one.
    pub fn remove(&mut self, uuid: u128) -> (found: bool)
        requires
            old(self).sound(),
        ensures
            final(self).sound(),
            old(self).wf() ==> final(self).wf(),
            found == old(self)@.contains(uuid),
            final(self)@ == old(self)@.without(uuid),
    {
        let result = self.uuid_to_side_price_time.remove(&uuid);
        match result {
            Some(locator) => {
                let ghost o = choose|o: Order| #[trigger] old(self)@.has(o) && o.uuid == uuid;
                proof {
                    assert(old(self)@.contains(uuid));
                    lemma_locate(old(self)@, o);
                    lemma_indices_without(
                        old(self)@,
                        old(self).id_index(),
                        old(self).expiry_index(),
                        o,
                    );
                    lemma_keep(old(self)@, crate::state::not_id(uuid));
                }
                let key = locator.key();
                let removed = match locator.0 {
                    Side::Buy => self.buy.remove(&key),
                    Side::Sell => self.sell.remove(&key),
                };
                match removed {
                    Some(order) => {
                        self.expiry_to_uuid.remove(order.expiry(), order.uuid);
                        assert(self@ == old(self)@.without(uuid));
                        true
                    },
                    None => {
                        assert(false);
                        false
                    },
                }
            },
            None => {
                proof {
                    lemma_without_absent(old(self)@, uuid);
                }
                false
            },
        }
    }

    /// Matches a taker against the opposite side, best maker first, until
    /// nothing is left of the taker or a maker's price is not crossed. Each
    /// fill is the smaller of what is left of the two, at the maker's price,
    /// and is taken from what is left of both. A maker that was filled
    /// entirely stays in the book with nothing left, for the caller to
    /// remove: its identifier is in the answer. Afterwards nothing is left of
    /// the taker, or no maker with something left has a price that the taker
    /// crosses. Nothing changes where an amount left over would be inexact.
    pub fn _match(&mut self, taker: &mut Order) -> (r: Result<MatchResult, EngineError>)
        requires
            old(self).sound(),
            old(self)@.live(),
            old(taker).remaining_amount.units() >= 0,
        ensures
            final(self).sound(),
            forall|id: u128| final(self)@.contains(id) <==> old(self)@.contains(id),
            final(self)@.last_tick == old(self)@.last_tick,
            final(self).id_index() == old(self).id_index(),
            final(self).expiry_index() == old(self).expiry_index(),
            match spec_match(*old(taker), old(self)@.side(spec_other_side(old(taker).side))) {
                None => r matches Err(e) && e == EngineError::InexactAmount && final(self)@ == old(
                    self,
                )@ && *final(taker) == *old(taker),
                Some(s) => {
                    let left = final(self)@.side(spec_other_side(old(taker).side));
                    &&& r matches Ok(m) && m@ == (Outcome {
                        fills: s.fills,
                        closed: s.closed(old(self)@.side(spec_other_side(old(taker).side))),
                    })
                    &&& *final(taker) == s.taker
                    &&& final(self)@ == old(self)@.with_sides(
                        old(taker).side,
                        old(self)@.side(old(taker).side),
                        s.touched(old(self)@.side(spec_other_side(old(taker).side))),
                    )
                    &&& final(taker).remaining_amount.units() == old(
                        taker,
                    ).remaining_amount.units() - total_base(s.fills)
                    &&& s.fills.len() <= left.len()
                    &&& forall|j: int|
                        0 <= j < s.fills.len() ==> (#[trigger] left[j]).remaining_amount.units()
                            == old(self)@.side(
                            spec_other_side(old(taker).side),
                        )[j].remaining_amount.units() - s.fills[j].base_amount.units()
                    &&& 0 <= s.filled <= left.len()
                    &&& forall|j: int|
                        0 <= j < s.filled ==> (#[trigger] left[j]).remaining_amount.units() == 0
                    &&& forall|j: int|
                        s.filled <= j < left.len() ==> (#[trigger] left[j]).remaining_amount.units()
                            > 0
                    &&& final(taker).remaining_amount.units() == 0 || forall|j: int|
                        0 <= j < left.len() && (#[trigger] left[j]).remaining_amount.units() > 0
                            ==> !price_crossed(*final(taker), left[j])
                },
            },
    {
        let opposite = other_side(taker.side);
        let ghost makers = self@.side(opposite);
        let ghost own = self@.side(taker.side);
        let ghost start = *taker;
        let side_len: usize = self.resting(opposite).len();
        let mut fills: Vec<Fill> = Vec::new();
        let mut closed: BTreeSet<u128> = BTreeSet::new();
        let mut current: Order = *taker;
        let ghost mut partial: Option<Decimal> = None;
        let mut filled: usize = 0;
        let mut done: bool = false;
        proof {
            use_type_invariant(&current.remaining_amount);
            assert forall|j: int| 0 <= j < makers.len() implies (#[trigger] makers[j]).valid()
                && makers[j].remaining_amount.units() > 0 && makers[j].side == opposite by {
                assert(makers.contains(makers[j]));
                assert(self@.has(makers[j]));
            }
        }
        while !done && filled < side_len
            invariant
                self.sound(),
                self@ == old(self)@,
                self.id_index() == old(self).id_index(),
                self.expiry_index() == old(self).expiry_index(),
                start == *old(taker),
                *taker == start,
                makers == self@.side(opposite),
                crate::matching::makers_valid(makers),
                opposite == spec_other_side(start.side),
                side_len == makers.len(),
                filled <= side_len,
                current == start.with_remaining(current.remaining_amount),
                current.remaining_amount.wf(),
                current.remaining_amount.units() >= 0,
                spec_match(start, makers) == if done {
                    Some(
                        Settlement {
                            fills: fills@,
                            taker: current,
                            filled: filled as int,
                            partial: partial,
                        },
                    )
                } else {
                    walk(current, makers, filled as int, fills@)
                },
                !done ==> partial is None,
                forall|id: u128|
                    closed@.contains(id) <==> exists|j: int|
                        0 <= j < filled && (#[trigger] makers[j]).uuid == id,
            decreases
                    side_len - filled + if done {
                        0int
                    } else {
                        1int
                    },
        {
            let maker: Order = *self.resting(opposite).get(filled);
            let rest: Decimal = current.remaining_amount;
            proof {
                use_type_invariant(&maker.remaining_amount);
                lemma_sub_self(rest);
                lemma_sub_units(rest, rest);
            }
            if !crossed(&current, &maker) {
                done = true;
            } else if rest.lt(&maker.remaining_amount) {
                match maker.remaining_amount.checked_sub(rest) {
                    None => {
                        return Err(EngineError::InexactAmount);
                    },
                    Some(left) => {
                        fills.push(
                            Fill {
                                base_amount: rest,
                                price: maker.price,
                                maker_uuid: maker.uuid,
                                taker_uuid: current.uuid,
                            },
                        );
                        current.remaining_amount = nothing_left(rest);
                        proof {
                            partial = Some(left);
                        }
                        done = true;
                    },
                }
            } else if rest.same_value(&maker.remaining_amount) {
                fills.push(
                    Fill {
                        base_amount: rest,
                        price: maker.price,
                        maker_uuid: maker.uuid,
                        taker_uuid: current.uuid,
                    },
                );
                note(&mut closed, maker.uuid);
                current.remaining_amount = nothing_left(rest);
                filled = filled + 1;
                done = true;
            } else {
                match rest.checked_sub(maker.remaining_amount) {
                    None => {
                        return Err(EngineError::InexactAmount);
                    },
                    Some(left) => {
                        proof {
                            lemma_sub_units(rest, maker.remaining_amount);
                        }
                        fills.push(
                            Fill {
                                base_amount: maker.remaining_amount,
                                price: maker.price,
                                maker_uuid: maker.uuid,
                                taker_uuid: current.uuid,
                            },
                        );
                        note(&mut closed, maker.uuid);
                        current.remaining_amount = left;
                        filled = filled + 1;
                    },
                }
            }
        }
        let ghost s = Settlement {
            fills: fills@,
            taker: current,
            filled: filled as int,
            partial: partial,
        };
        assert(spec_match(start, makers) == Some(s));
        *taker = current;
        proof {
            lemma_walk_fills(start, makers, 0, Seq::empty());
            lemma_walk_shape(start, makers, 0, Seq::empty());
            lemma_touched(start, makers);
            law_exhausted(start, makers);
            law_decrement(start, makers);
            lemma_reduced(
                old(self)@,
                old(self).id_index(),
                old(self).expiry_index(),
                opposite,
                s.touched(makers),
            );
            assert(applied(makers, fills@, 0) =~= makers);
            assert(self@ == old(self)@.with_sides(opposite, applied(makers, fills@, 0), own));
        }
        // Take each fill from what is left of its maker
        let mut k: usize = 0;
        while k < fills.len()
            invariant
                k <= fills.len() <= makers.len(),
                opposite == spec_other_side(start.side),
                makers == old(self)@.side(opposite),
                own == old(self)@.side(start.side),
                self.buy.wf(),
                self.sell.wf(),
                self.id_index() == old(self).id_index(),
                self.expiry_index() == old(self).expiry_index(),
                self@ == old(self)@.with_sides(opposite, applied(makers, fills@, k as int), own),
                forall|j: int|
                    0 <= j < fills.len() ==> makers[j].remaining_amount.can_sub(
                        (#[trigger] fills[j]).base_amount,
                    ),
            decreases fills.len() - k,
        {
            let ghost before = applied(makers, fills@, k as int);
            let maker: Order = *self.resting(opposite).get(k);
            assert(maker == makers[k as int]);
            match maker.remaining_amount.checked_sub(fills[k].base_amount) {
                Some(left) => {
                    match opposite {
                        Side::Buy => self.buy.set_remaining(k, left),
                        Side::Sell => self.sell.set_remaining(k, left),
                    }
                    assert(before.update(k as int, before[k as int].with_remaining(left))
                        =~= applied(makers, fills@, k + 1));
                },
                None => {
                    assert(false);
                },
            }
            k = k + 1;
        }
        let closes_taker = current.remaining_amount.is_zero() || match current.tif {
            TimeInForce::IOC => true,
            _ => false,
        };
        if closes_taker {
            note(&mut closed, current.uuid);
        }
        assert(closed@ =~= s.closed(makers));
        assert(self@ == old(self)@.with_sides(start.side, own, s.touched(makers)));
        Ok(MatchResult { fills, closed })
    }

    /// Removes the orders that have expired at `now`; answers their
    /// identifiers. Afterwards no resting order has an expiry at or before
    /// `now`.
    pub fn flush(&mut self, now: &u64) -> (expired: BTreeSet<u128>)
        requires
            old(self).sound(),
        ensures
            final(self).sound(),
            old(self).wf() ==> final(self).wf(),
            final(self)@ == old(self)@.flushed(*now),
            expired@ == old(self)@.expired(*now),
            forall|o: Order| #[trigger] final(self)@.has(o) ==> o.spec_expiry() > *now,
    {
        let due = self.expiry_to_uuid.due(*now);
        let mut expired: BTreeSet<u128> = BTreeSet::new();
        let mut k: usize = 0;
        proof {
            crate::lemmas::lemma_keep_all(self@, not_in(expired@));
        }
        while k < due.len()
            invariant
                k <= due.len(),
                self.sound(),
                old(self).wf() ==> self.wf(),
                self@ == old(self)@.keep(not_in(expired@)),
                forall|id: u128|
                    expired@.contains(id) <==> exists|j: int| 0 <= j < k && (#[trigger] due[j]).1 == id,
            decreases due.len() - k,
        {
            let id = due[k].1;
            proof {
                lemma_without_more(old(self)@, expired@, id);
            }
            note(&mut expired, id);
            self.remove(id);
            k = k + 1;
        }
        proof {
            let s = old(self)@;
            assert forall|id: u128| expired@.contains(id) <==> s.expired(*now).contains(id) by {
                if expired@.contains(id) {
                    let j = choose|j: int| 0 <= j < k && (#[trigger] due[j]).1 == id;
                    assert(due@.contains(due[j]));
                    assert(old(self).expiry_index().contains(due[j]));
                }
                if s.expired(*now).contains(id) {
                    let o = choose|o: Order| #[trigger]
                        s.has(o) && o.uuid == id && o.spec_expiry() <= *now;
                    let e = (o.spec_expiry() as u64, id);
                    assert(old(self).expiry_index().contains(e));
                    assert(due@.contains(e));
                    let j = choose|j: int| 0 <= j < due.len() && due[j] == e;
                    assert(due[j].1 == id);
                }
            }
            assert(expired@ =~= s.expired(*now));
            assert forall|o: Order| #[trigger] s.has(o) implies not_in(expired@)(o) == live_at(
                *now,
            )(o) by {
                if expired@.contains(o.uuid) {
                    let x = choose|x: Order| #[trigger]
                        s.has(x) && x.uuid == o.uuid && x.spec_expiry() <= *now;
                    assert(x == o);
                }
            }
            lemma_keep_same(s, not_in(expired@), live_at(*now));
            lemma_keep(s, live_at(*now));
        }
        expired
    }

    /// Removes the orders with these identifiers from the book and from both
    /// indices.
    pub fn remove_all(&mut self, ids: &BTreeSet<u128>)
        requires
            old(self).sound(),
        ensures
            final(self).sound(),
            old(self).wf() ==> final(self).wf(),
            final(self)@ == old(self)@.keep(not_in(ids@)),
    {
        broadcast use vstd::std_specs::btree::group_btree_axioms;

        proof {
            lemma_identifiers_ordered();
            crate::lemmas::lemma_keep_all(self@, not_in(Set::<u128>::empty()));
        }
        let ghost all = ids.iter().remaining();
        assert(seen(all, 0) =~= Set::<u128>::empty());
        for id in it: ids.iter()
            invariant
                it.seq() == all,
                self.sound(),
                old(self).wf() ==> self.wf(),
                self@ == old(self)@.keep(not_in(seen(all, it.index()))),
        {
            proof {
                lemma_without_more(old(self)@, seen(all, it.index()), *id);
                assert(seen(all, it.index() + 1) =~= seen(all, it.index()).insert(*id));
            }
            self.remove(*id);
        }
        proof {
            assert(seen(all, all.len() as int) =~= ids@) by {
                assert forall|x: u128| seen(all, all.len() as int).contains(x) implies ids@.contains(
                    x,
                ) by {
                    let j = choose|j: int| 0 <= j < all.len() && *(#[trigger] all[j]) == x;
                    assert(all.unref()[j] == x);
                    assert(all.unref().to_set().contains(x));
                }
                assert forall|x: u128| ids@.contains(x) implies seen(all, all.len() as int).contains(
                    x,
                ) by {
                    assert(all.unref().to_set().contains(x));
                    let j = choose|j: int| 0 <= j < all.unref().len() && all.unref()[j] == x;
                    assert(*all[j] == x);
                }
            }
        }
    }

    /// Places an order at `now`, in a book whose resting orders were all
    /// created before `now`: matches it, removes the makers that the match
    /// filled entirely, and lets the order rest unless the match closed it.
    /// The clock is not read and stays as it is.
    pub fn place(&mut self, command: Place, now: u64) -> (r: Result<MatchResult, EngineError>)
        requires
            old(self).sound(),
            old(self)@.live(),
            forall|o: Order| #[trigger] old(self)@.has(o) ==> o.created < now,
            command.valid_at(now),
        ensures
            final(self).sound(),
            final(self)@.live(),
            final(self)@.created_by(now as int),
            (final(self)@, answer(r)) == old(self)@.placed(command, now),
            r is Ok && command.spec_tif() == TimeInForce::IOC ==> r->Ok_0@.closed.contains(
                command.spec_uuid(),
            ) && !final(self)@.contains(command.spec_uuid()),
    {
        let mut order: Order = Order::create(command, now);
        let ghost taker = order;
        let ghost s0 = self@;
        let ghost makers = s0.side(spec_other_side(taker.side));
        let ghost own = s0.side(taker.side);
        if self.uuid_to_side_price_time.contains_key(&order.uuid) {
            return Err(EngineError::DuplicateId);
        }
        proof {
            if s0.placed(command, now).1 is Ok && command.spec_tif() == TimeInForce::IOC {
                law_ioc_never_rests_placed(s0, now, command);
            }
        }
        proof {
            use_type_invariant(&order.amount);
            use_type_invariant(&order.price);
        }
        let result: MatchResult = match self._match(&mut order) {
            Ok(m) => m,
            Err(e) => {
                return Err(e);
            },
        };
        let ghost st = spec_match(taker, makers)->0;
        let ghost touched = s0.with_sides(taker.side, own, st.touched(makers));
        let ghost matched = s0.with_sides(taker.side, own, st.settled(makers));
        proof {
            assert forall|j: int| 0 <= j < makers.len() implies (#[trigger] makers[j]).valid()
                && makers[j].remaining_amount.units() > 0 by {
                assert(makers.contains(makers[j]));
                assert(s0.has(makers[j]));
            }
            lemma_walk_shape(taker, makers, 0, Seq::empty());
            lemma_touched(taker, makers);
            lemma_settle(s0, taker, st);
            lemma_reduced_book(s0, spec_other_side(taker.side), st.touched(makers));
            assert(touched == s0.with_sides(spec_other_side(taker.side), st.touched(makers), own));
            lemma_keep(touched, not_in(st.closed(makers)));
            assert forall|x: Order| #[trigger] matched.has(x) implies x.remaining_amount.units() > 0
                && x.created < now by {
                assert(touched.has(x));
                let p = choose|p: Order| #[trigger]
                    s0.has(p) && x == p.with_remaining(x.remaining_amount);
                assert(s0.has(p));
                if st.settled(makers).contains(x) {
                    let j = choose|j: int|
                        0 <= j < st.settled(makers).len() && st.settled(makers)[j] == x;
                    assert(x == st.touched(makers)[st.filled + j]);
                } else {
                    assert(own.contains(x));
                    assert(s0.has(x));
                }
            }
        }
        // Remove any closed orders from memory
        self.remove_all(&result.closed);
        assert(self@ == matched);
        //add order to resting book if not immediately closed
        if !noted(&result.closed, order.uuid) {
            proof {
                lemma_holds(own, order.spec_key());
                if crate::book::holds(own, order.spec_key()) {
                    let j = choose|j: int|
                        0 <= j < own.len() && (#[trigger] own[j]).spec_key().same(order.spec_key());
                    assert(own.contains(own[j]));
                    assert(s0.has(own[j]));
                }
                if matched.contains(order.uuid) {
                    let x = choose|x: Order| #[trigger] matched.has(x) && x.uuid == order.uuid;
                    assert(touched.has(x));
                    assert(touched.contains(order.uuid));
                }
            }
            self.insert(order);
        } else {
            proof {
                if !st.taker_closed() {
                    let j = choose|j: int|
                        0 <= j < st.filled && (#[trigger] makers[j]).uuid == taker.uuid;
                    assert(makers.contains(makers[j]));
                    assert(s0.has(makers[j]));
                }
            }
        }
        Ok(result)
    }

    /// Cancels the order with this identifier, if one rests; answers the
    /// identifiers that left the book.
    pub fn cancel(&mut self, uuid: u128) -> (closed: BTreeSet<u128>)
        requires
            old(self).sound(),
        ensures
            final(self).sound(),
            old(self).wf() ==> final(self).wf(),
            final(self)@ == old(self)@.without(uuid),
            closed@ == if old(self)@.contains(uuid) {
                Set::<u128>::empty().insert(uuid)
            } else {
                Set::<u128>::empty()
            },
    {
        let mut closed: BTreeSet<u128> = BTreeSet::new();
        if self.remove(uuid) {
            note(&mut closed, uuid);
        }
        closed
    }

    /// Serves one command. A time that is not after the last command's is
    /// refused, and the engine stays as it is. Otherwise the clock advances,
    /// the expired orders are flushed, and the command takes effect; the
    /// answer holds the fills and every identifier that is no longer live,
    /// the flushed ones among them. An order that is not valid is refused
    /// once the clock has advanced and the expired orders are gone.
    pub fn call(&mut self, command_at_time: CommandAtTime) -> (r: Result<MatchResult, EngineError>)
        requires
            old(self).wf(),
        ensures
            final(self).wf(),
            (final(self)@, answer(r)) == old(self)@.step(
                command_at_time.now,
                command_at_time.command,
            ),
    {
        /*
            Always flush before a place or a cancel
        */
        let now = command_at_time.now;
        let command = command_at_time.command;

        if now <= self.last_tick {
            return Err(EngineError::NonMonotonicTime);
        }
        proof {
            lemma_later(self@, self.id_index(), self.expiry_index(), now);
        }
        self.last_tick = now;
        let ghost ticked = self@;
        proof {
            lemma_keep(ticked, live_at(now));
            assert(ticked == old(self)@.at(now));
            assert forall|o: Order| #[trigger] ticked.has(o) <==> old(self)@.has(o) by {}
            assert forall|id: u128|
                ticked.expired(now).contains(id) <==> old(self)@.expired(now).contains(id) by {
                if ticked.expired(now).contains(id) {
                    let x = choose|x: Order| #[trigger]
                        ticked.has(x) && x.uuid == id && x.spec_expiry() <= now;
                    assert(old(self)@.has(x));
                }
                if old(self)@.expired(now).contains(id) {
                    let x = choose|x: Order| #[trigger]
                        old(self)@.has(x) && x.uuid == id && x.spec_expiry() <= now;
                    assert(ticked.has(x));
                }
            }
            assert(ticked.expired(now) =~= old(self)@.expired(now));
        }
        let result = match command {
            Command::Place(place) => {
                let flushed = self.flush(&now);
                if !place.is_valid_at(now) {
                    return Err(EngineError::InvalidOrder);
                }
                proof {
                    assert forall|o: Order| #[trigger] self@.has(o) implies o.created < now by {
                        assert(ticked.has(o));
                        assert(old(self)@.has(o));
                    }
                }
                match self.place(place, now) {
                    Ok(result) => merge(result, flushed),
                    Err(e) => {
                        return Err(e);
                    },
                }
            },
            Command::Cancel(uuid) => {
                let flushed = self.flush(&now);
                let result = MatchResult { fills: Vec::new(), closed: self.cancel(uuid) };
                let merged = merge(result, flushed);
                assert(merged@.closed =~= if ticked.flushed(now).contains(uuid) {
                    ticked.expired(now).insert(uuid)
                } else {
                    ticked.expired(now)
                });
                merged
            },
            Command::Flush() => MatchResult { fills: Vec::new(), closed: self.flush(&now) },
        };
        Ok(result)
    }
}

/// Joins the identifiers that a command closed with those that were flushed
/// before it.
pub fn merge(r1: MatchResult, closed: BTreeSet<u128>) -> (r: MatchResult)
    ensures
        r@ == (Outcome { fills: r1@.fills, closed: r1@.closed.union(closed@) }),
{
    broadcast use vstd::std_specs::btree::group_btree_axioms;

    proof {
        lemma_identifiers_ordered();
    }
    let ghost first = r1.closed@;
    let ghost all = closed.iter().remaining();
    let mut joined: BTreeSet<u128> = r1.closed;
    assert(first.union(seen(all, 0)) =~= first);
    for id in it: closed.iter()
        invariant
            it.seq() == all,
            joined@ == first.union(seen(all, it.index())),
    {
        proof {
            assert(first.union(seen(all, it.index() + 1)) =~= first.union(
                seen(all, it.index()),
            ).insert(*id));
        }
        note(&mut joined, *id);
    }
    proof {
        assert(first.union(seen(all, all.len() as int)) =~= first.union(closed@)) by {
            assert forall|x: u128| seen(all, all.len() as int).contains(x) implies closed@.contains(
                x,
            ) by {
                let j = choose|j: int| 0 <= j < all.len() && *(#[trigger] all[j]) == x;
                assert(all.unref()[j] == x);
                assert(all.unref().to_set().contains(x));
            }
            assert forall|x: u128| closed@.contains(x) implies seen(all, all.len() as int).contains(
                x,
            ) by {
                assert(all.unref().to_set().contains(x));
                let j = choose|j: int| 0 <= j < all.unref().len() && all.unref()[j] == x;
                assert(*all[j] == x);
            }
        }
    }
    MatchResult { fills: r1.fills, closed: joined }
}

/// A well-formed book stays well formed as time passes, and its indices stay
/// what they are.
proof fn lemma_later(
    s: BookState,
    index: Map<u128, SidePriceTime>,
    entries: Set<(u64, u128)>,
    now: u64,
)
    requires
        s.wf(),
        indexed(s, index),
        scheduled(s, entries),
        s.last_tick <= now,
    ensures
        s.at(now).wf(),
        indexed(s.at(now), index),
        scheduled(s.at(now), entries),
{
    let t = s.at(now);
    assert forall|o: Order| #[trigger] t.has(o) <==> s.has(o) by {}
    assert forall|id: u128| t.contains(id) <==> s.contains(id) by {
        if t.contains(id) {
            let x = choose|x: Order| #[trigger] t.has(x) && x.uuid == id;
            assert(s.has(x));
        }
        if s.contains(id) {
            let x = choose|x: Order| #[trigger] s.has(x) && x.uuid == id;
            assert(t.has(x));
        }
    }
    assert forall|e: (u64, u128)| #[trigger]
        entries.contains(e) <==> exists|x: Order| #[trigger]
            t.has(x) && x.uuid == e.1 && x.spec_expiry() == e.0 by {
        if entries.contains(e) {
            let x = choose|x: Order| #[trigger] s.has(x) && x.uuid == e.1 && x.spec_expiry() == e.0;
            assert(t.has(x));
        }
        if exists|x: Order| #[trigger] t.has(x) && x.uuid == e.1 && x.spec_expiry() == e.0 {
            let x = choose|x: Order| #[trigger] t.has(x) && x.uuid == e.1 && x.spec_expiry() == e.0;
            assert(s.has(x));
        }
    }
}

/// Identifiers are ordered as a set of them needs.
pub proof fn lemma_identifiers_ordered()
    ensures
        vstd::std_specs::btree::key_obeys_cmp_spec::<u128>(),
{
    broadcast use vstd::laws_cmp::group_laws_cmp;
    broadcast use vstd::std_specs::btree::group_btree_axioms;

}

/// Whether an identifier is in a set of identifiers.
fn noted(ids: &BTreeSet<u128>, id: u128) -> (r: bool)
    ensures
        r == ids@.contains(id),
{
    broadcast use vstd::laws_cmp::group_laws_cmp;
    broadcast use vstd::std_specs::btree::group_btree_axioms;

    ids.contains(&id)
}

/// What is left of an amount that was traded entirely: zero, at the amount's
/// scale.
fn nothing_left(amount: Decimal) -> (r: Decimal)
    ensures
        r == amount.sub_spec(amount),
        r.units() == 0,
{
    proof {
        use_type_invariant(&amount);
        lemma_sub_self(amount);
    }
    match amount.checked_sub(amount) {
        Some(zero) => zero,
        None => amount,
    }
}

/// Adds an identifier to a set of identifiers.
fn note(ids: &mut BTreeSet<u128>, id: u128)
    ensures
        final(ids)@ == old(ids)@.insert(id),
{
    broadcast use vstd::laws_cmp::group_laws_cmp;

    ids.insert(id);
}

} // verus!
