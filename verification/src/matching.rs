//! Facts about a taker's walk through the opposite side, and about the book
//! that the walk leaves.

use crate::book::sorted;
use crate::decimal::lemma_sub_self;
use crate::decimal::lemma_sub_units;
use crate::lemmas::indexed;
use crate::lemmas::scheduled;
use crate::order::spec_other_side;
use crate::order::Fill;
use crate::order::Order;
use crate::order::Side;
use crate::order::SidePriceTime;
use crate::seqs::lemma_filter_all;
use crate::seqs::lemma_filter_skip;
use crate::state::not_in;
use crate::state::walk;
use crate::state::BookState;
use crate::state::Settlement;
use vstd::prelude::*;

verus! {

/// What a walk needs of the makers: each is valid and has a positive amount
/// left.
pub open spec fn makers_valid(makers: Seq<Order>) -> bool {
    forall|j: int|
        0 <= j < makers.len() ==> (#[trigger] makers[j]).valid()
            && makers[j].remaining_amount.units() > 0
}

/// Whether `after` holds the orders of `before`, each in its place and with
/// no more left to trade than it had.
pub open spec fn reduced(before: Seq<Order>, after: Seq<Order>) -> bool {
    &&& after.len() == before.len()
    &&& forall|j: int|
        0 <= j < before.len() ==> {
            &&& (#[trigger] after[j]) == before[j].with_remaining(after[j].remaining_amount)
            &&& after[j].remaining_amount.wf()
            &&& 0 <= after[j].remaining_amount.units() <= before[j].remaining_amount.units()
        }
}

/// The makers after the first `k` fills were taken from what they had left.
pub open spec fn applied(makers: Seq<Order>, fills: Seq<Fill>, k: int) -> Seq<Order> {
    Seq::new(
        makers.len(),
        |j: int|
            if j < k {
                makers[j].with_remaining(makers[j].remaining_amount.sub_spec(fills[j].base_amount))
            } else {
                makers[j]
            },
    )
}

/// The shape of a walk's result: the makers filled entirely are a prefix of
/// the side; a maker filled in part keeps a positive amount, less than it
/// had; the taker is the same order with no more left than before.
pub proof fn lemma_walk_shape(taker: Order, makers: Seq<Order>, i: int, fills: Seq<Fill>)
    requires
        0 <= i <= makers.len(),
        makers_valid(makers),
        taker.remaining_amount.wf(),
        taker.remaining_amount.units() >= 0,
        walk(taker, makers, i, fills) is Some,
    ensures
        ({
            let s = walk(taker, makers, i, fills)->0;
            &&& i <= s.filled <= makers.len()
            &&& s.partial matches Some(left) ==> s.filled < makers.len() && left.wf() && 0
                < left.units() < makers[s.filled].remaining_amount.units()
            &&& s.taker == taker.with_remaining(s.taker.remaining_amount)
            &&& s.taker.remaining_amount.wf()
            &&& 0 <= s.taker.remaining_amount.units() <= taker.remaining_amount.units()
            &&& s.partial is Some ==> s.taker.remaining_amount.units() == 0
            &&& s.fills.len() >= fills.len()
        }),
    decreases makers.len() - i,
{
    if 0 <= i < makers.len() && crate::order::spec_crossed(taker, makers[i]) {
        let maker = makers[i];
        let t = taker.remaining_amount;
        let m = maker.remaining_amount;
        assert(maker.valid());
        lemma_sub_self(t);
        lemma_sub_units(t, t);
        if t.units() < m.units() {
            lemma_sub_units(m, t);
        } else if t.units() == m.units() {
        } else {
            lemma_sub_units(t, m);
            lemma_walk_shape(
                taker.with_remaining(t.sub_spec(m)),
                makers,
                i + 1,
                fills.push(crate::state::fill_of(taker, maker, m)),
            );
        }
    }
}

/// The sum of the amounts of the fills, in units of 10^-28.
pub open spec fn total_base(fills: Seq<Fill>) -> int
    decreases fills.len(),
{
    if fills.len() == 0 {
        0
    } else {
        total_base(fills.drop_last()) + fills.last().base_amount.units()
    }
}

/// The sum of what is left of the first `k` makers, in units of 10^-28.
pub open spec fn total_remaining(makers: Seq<Order>, k: int) -> int
    decreases k,
{
    if k <= 0 {
        0
    } else {
        total_remaining(makers, k - 1) + makers[k - 1].remaining_amount.units()
    }
}

/// What a walk's fills are: one for each maker from the best on, with the
/// maker's identifier and price, of a positive amount that is no more than
/// the maker had left; together they are what the taker lost. The walk
/// ended because nothing was left of the taker, or the side was exhausted,
/// or the next maker's price was not crossed.
pub proof fn lemma_walk_fills(taker: Order, makers: Seq<Order>, i: int, fills: Seq<Fill>)
    requires
        0 <= i <= makers.len(),
        fills.len() == i,
        makers_valid(makers),
        taker.remaining_amount.wf(),
        taker.remaining_amount.units() >= 0,
        walk(taker, makers, i, fills) is Some,
    ensures
        ({
            let s = walk(taker, makers, i, fills)->0;
            &&& s.fills.len() == s.filled + if s.partial is Some {
                1int
            } else {
                0int
            }
            &&& i <= s.filled
            &&& s.fills.len() <= makers.len()
            &&& s.fills.take(i) == fills
            &&& forall|j: int|
                i <= j < s.fills.len() ==> {
                    &&& (#[trigger] s.fills[j]).maker_uuid == makers[j].uuid
                    &&& s.fills[j].taker_uuid == taker.uuid
                    &&& s.fills[j].price == makers[j].price
                    &&& 0 < s.fills[j].base_amount.units() <= makers[j].remaining_amount.units()
                    &&& crate::order::price_crossed(taker, makers[j])
                }
            &&& total_base(s.fills) - total_base(fills) == taker.remaining_amount.units()
                - s.taker.remaining_amount.units()
            &&& total_base(s.fills) - total_base(fills) <= total_remaining(
                makers,
                s.fills.len() as int,
            ) - total_remaining(makers, i)
            &&& s.fills.len() < makers.len() ==> s.taker.remaining_amount.units() == 0
                || !crate::order::price_crossed(taker, makers[s.fills.len() as int])
            &&& forall|j: int|
                i <= j < s.fills.len() ==> {
                    &&& (#[trigger] s.fills[j]).base_amount.wf()
                    &&& makers[j].remaining_amount.can_sub(s.fills[j].base_amount)
                    &&& j < s.filled ==> s.fills[j].base_amount.units()
                        == makers[j].remaining_amount.units()
                }
            &&& s.partial matches Some(left) ==> left == makers[s.filled].remaining_amount.sub_spec(
                s.fills[s.filled].base_amount,
            )
        }),
    decreases makers.len() - i,
{
    let s = walk(taker, makers, i, fills)->0;
    if 0 <= i < makers.len() && crate::order::spec_crossed(taker, makers[i]) {
        let maker = makers[i];
        let t = taker.remaining_amount;
        let m = maker.remaining_amount;
        assert(maker.valid());
        lemma_sub_self(t);
        lemma_sub_units(t, t);
        if t.units() < m.units() {
            let f = crate::state::fill_of(taker, maker, t);
            lemma_sub_units(m, t);
            assert(fills.push(f).drop_last() =~= fills);
            assert(s.fills.take(i) =~= fills);
        } else if t.units() == m.units() {
            let f = crate::state::fill_of(taker, maker, t);
            crate::decimal::lemma_sub_same(m, t);
            assert(fills.push(f).drop_last() =~= fills);
            assert(s.fills.take(i) =~= fills);
        } else {
            let f = crate::state::fill_of(taker, maker, m);
            let next = taker.with_remaining(t.sub_spec(m));
            lemma_sub_units(t, m);
            lemma_sub_self(m);
            lemma_walk_fills(next, makers, i + 1, fills.push(f));
            assert(fills.push(f).drop_last() =~= fills);
            assert(s.fills.take(i + 1) == fills.push(f));
            assert(s.fills.take(i) =~= fills) by {
                assert(s.fills.take(i) =~= s.fills.take(i + 1).take(i));
            }
            assert(s.fills[i] == f) by {
                assert(s.fills.take(i + 1)[i] == f);
            }
            lemma_total_remaining_split(makers, i + 1, s.fills.len() as int);
        }
    } else {
        assert(s.fills.take(i) =~= fills);
    }
}

/// The sum of what is left of the first `b` makers is that of the first `a`
/// and that of the makers from `a` to `b`, which is not negative.
proof fn lemma_total_remaining_split(makers: Seq<Order>, a: int, b: int)
    requires
        0 <= a <= b <= makers.len(),
        makers_valid(makers),
    ensures
        total_remaining(makers, a) <= total_remaining(makers, b),
    decreases b - a,
{
    if a < b {
        lemma_total_remaining_split(makers, a, b - 1);
        assert(makers[b - 1].valid());
    }
}

/// What a match leaves of the makers: each with no more than it had, those
/// that were filled entirely with nothing, and every other with a positive
/// amount; the makers without a fill are as they were.
pub proof fn lemma_touched(taker: Order, makers: Seq<Order>)
    requires
        makers_valid(makers),
        taker.remaining_amount.wf(),
        taker.remaining_amount.units() >= 0,
        walk(taker, makers, 0, Seq::empty()) is Some,
    ensures
        ({
            let s = walk(taker, makers, 0, Seq::empty())->0;
            let t = s.touched(makers);
            &&& reduced(makers, t)
            &&& t == applied(makers, s.fills, s.fills.len() as int)
            &&& 0 <= s.filled <= s.fills.len() <= makers.len()
            &&& forall|j: int| 0 <= j < s.filled ==> (#[trigger] t[j]).remaining_amount.units() == 0
            &&& forall|j: int|
                s.filled <= j < t.len() ==> (#[trigger] t[j]).remaining_amount.units() > 0
            &&& forall|j: int| s.fills.len() <= j < t.len() ==> #[trigger] t[j] == makers[j]
            &&& s.partial matches Some(left) ==> t[s.filled] == makers[s.filled].with_remaining(left)
        }),
{
    let s = walk(taker, makers, 0, Seq::empty())->0;
    let t = s.touched(makers);
    lemma_walk_shape(taker, makers, 0, Seq::empty());
    lemma_walk_fills(taker, makers, 0, Seq::empty());
    assert(t =~= applied(makers, s.fills, s.fills.len() as int));
    assert forall|j: int| 0 <= j < makers.len() implies {
        &&& (#[trigger] t[j]) == makers[j].with_remaining(t[j].remaining_amount)
        &&& t[j].remaining_amount.wf()
        &&& 0 <= t[j].remaining_amount.units() <= makers[j].remaining_amount.units()
        &&& j < s.filled ==> t[j].remaining_amount.units() == 0
        &&& j >= s.filled ==> t[j].remaining_amount.units() > 0
    } by {
        assert(makers[j].valid());
        if j < s.fills.len() {
            assert(s.fills[j].base_amount.wf());
            lemma_sub_units(makers[j].remaining_amount, s.fills[j].base_amount);
        }
    }
}

/// A book in which orders of one side have less left to trade is sound; it
/// holds the same identifiers, and each of its orders is an order of the
/// book before, but for what is left of it.
pub proof fn lemma_reduced_book(s: BookState, side: Side, after: Seq<Order>)
    requires
        s.sound(),
        reduced(s.side(side), after),
    ensures
        ({
            let t = s.with_sides(side, after, s.side(spec_other_side(side)));
            &&& t.sound()
            &&& forall|x: Order| #[trigger]
                t.has(x) ==> exists|p: Order| #[trigger]
                    s.has(p) && x == p.with_remaining(x.remaining_amount)
            &&& forall|p: Order| #[trigger]
                s.has(p) ==> exists|x: Order| #[trigger]
                    t.has(x) && x == p.with_remaining(x.remaining_amount)
            &&& forall|id: u128| t.contains(id) <==> s.contains(id)
        }),
{
    let own = s.side(side);
    let other = s.side(spec_other_side(side));
    let t = s.with_sides(side, after, other);
    assert forall|j: int| 0 <= j < own.len() implies s.has(#[trigger] own[j]) && own[j].side
        == side by {
        assert(own.contains(own[j]));
    }
    assert forall|x: Order| #[trigger] other.contains(x) implies s.has(x) && x.side != side by {}
    assert(sorted(after)) by {
        assert forall|a: int, b: int| 0 <= a < b < after.len() implies (#[trigger] after[a]).spec_key().before(
            (#[trigger] after[b]).spec_key(),
        ) by {
            assert(own[a].spec_key().before(own[b].spec_key()));
        }
    }
    assert forall|x: Order| #[trigger] t.has(x) implies x.valid() && (exists|p: Order| #[trigger]
        s.has(p) && x == p.with_remaining(x.remaining_amount)) by {
        if after.contains(x) {
            let j = choose|j: int| 0 <= j < after.len() && after[j] == x;
            assert(s.has(own[j]));
            assert(own[j].valid());
        } else {
            assert(other.contains(x));
            assert(s.has(x));
            assert(x == x.with_remaining(x.remaining_amount));
        }
    }
    assert forall|p: Order| #[trigger] s.has(p) implies exists|x: Order| #[trigger]
        t.has(x) && x == p.with_remaining(x.remaining_amount) by {
        if own.contains(p) {
            let j = choose|j: int| 0 <= j < own.len() && own[j] == p;
            assert(after.contains(after[j]));
            assert(t.has(after[j]));
        } else {
            assert(other.contains(p));
            assert(t.has(p));
            assert(p == p.with_remaining(p.remaining_amount));
        }
    }
    assert forall|x: Order| #[trigger] t.side(Side::Buy).contains(x) implies x.side
        == Side::Buy by {
        if side == Side::Buy {
            let j = choose|j: int| 0 <= j < after.len() && after[j] == x;
            assert(s.has(own[j]));
        }
    }
    assert forall|x: Order| #[trigger] t.side(Side::Sell).contains(x) implies x.side
        == Side::Sell by {
        if side == Side::Sell {
            let j = choose|j: int| 0 <= j < after.len() && after[j] == x;
            assert(s.has(own[j]));
        }
    }
    assert forall|a: Order, b: Order| #[trigger]
        t.has(a) && #[trigger] t.has(b) && a.uuid == b.uuid implies a == b by {
        if after.contains(a) && after.contains(b) {
            let i = choose|i: int| 0 <= i < after.len() && after[i] == a;
            let j = choose|j: int| 0 <= j < after.len() && after[j] == b;
            assert(s.has(own[i]) && s.has(own[j]));
            assert(own[i] == own[j]);
            if i < j {
                assert(own[i].spec_key().before(own[j].spec_key()));
            } else if j < i {
                assert(own[j].spec_key().before(own[i].spec_key()));
            }
        } else if after.contains(a) {
            let i = choose|i: int| 0 <= i < after.len() && after[i] == a;
            assert(s.has(own[i]) && s.has(b));
            assert(own[i] == b);
        } else if after.contains(b) {
            let j = choose|j: int| 0 <= j < after.len() && after[j] == b;
            assert(s.has(own[j]) && s.has(a));
            assert(own[j] == a);
        } else {
            assert(s.has(a) && s.has(b));
        }
    }
    assert forall|id: u128| t.contains(id) <==> s.contains(id) by {
        if t.contains(id) {
            let x = choose|x: Order| #[trigger] t.has(x) && x.uuid == id;
            let p = choose|p: Order| #[trigger] s.has(p) && x == p.with_remaining(x.remaining_amount);
            assert(s.has(p) && p.uuid == id);
        }
        if s.contains(id) {
            let p = choose|p: Order| #[trigger] s.has(p) && p.uuid == id;
            let x = choose|x: Order| #[trigger] t.has(x) && x == p.with_remaining(x.remaining_amount);
            assert(t.has(x) && x.uuid == id);
        }
    }
}

/// A book in which orders of one side have less left to trade is sound, and
/// its indices are unchanged.
pub proof fn lemma_reduced(
    s: BookState,
    index: Map<u128, SidePriceTime>,
    entries: Set<(u64, u128)>,
    side: Side,
    after: Seq<Order>,
)
    requires
        s.sound(),
        indexed(s, index),
        scheduled(s, entries),
        reduced(s.side(side), after),
    ensures
        ({
            let t = s.with_sides(side, after, s.side(spec_other_side(side)));
            &&& t.sound()
            &&& indexed(t, index)
            &&& scheduled(t, entries)
            &&& forall|id: u128| t.contains(id) <==> s.contains(id)
        }),
{
    let t = s.with_sides(side, after, s.side(spec_other_side(side)));
    lemma_reduced_book(s, side, after);
    assert forall|x: Order| #[trigger] t.has(x) implies index[x.uuid] == x.spec_locator() by {
        let p = choose|p: Order| #[trigger] s.has(p) && x == p.with_remaining(x.remaining_amount);
        assert(s.has(p));
    }
    assert forall|e: (u64, u128)| #[trigger]
        entries.contains(e) <==> exists|x: Order| #[trigger]
            t.has(x) && x.uuid == e.1 && x.spec_expiry() == e.0 by {
        if entries.contains(e) {
            let p = choose|p: Order| #[trigger] s.has(p) && p.uuid == e.1 && p.spec_expiry() == e.0;
            let x = choose|x: Order| #[trigger] t.has(x) && x == p.with_remaining(x.remaining_amount);
            assert(t.has(x) && x.uuid == e.1 && x.spec_expiry() == e.0);
        }
        if exists|x: Order| #[trigger] t.has(x) && x.uuid == e.1 && x.spec_expiry() == e.0 {
            let x = choose|x: Order| #[trigger] t.has(x) && x.uuid == e.1 && x.spec_expiry() == e.0;
            let p = choose|p: Order| #[trigger] s.has(p) && x == p.with_remaining(x.remaining_amount);
            assert(s.has(p) && p.uuid == e.1 && p.spec_expiry() == e.0);
        }
    }
}

/// Removing what a match closed from the book that the walk touched leaves
/// the opposite side without the makers that were filled entirely, and the
/// taker's own side as it was.
pub proof fn lemma_settle(s: BookState, taker: Order, st: Settlement)
    requires
        s.sound(),
        !s.contains(taker.uuid),
        st.taker.uuid == taker.uuid,
        0 <= st.filled <= s.side(spec_other_side(taker.side)).len(),
    ensures
        ({
            let makers = s.side(spec_other_side(taker.side));
            let own = s.side(taker.side);
            s.with_sides(taker.side, own, st.touched(makers)).keep(not_in(st.closed(makers)))
                == s.with_sides(taker.side, own, st.settled(makers))
        }),
{
    let makers = s.side(spec_other_side(taker.side));
    let own = s.side(taker.side);
    let touched = st.touched(makers);
    let closed = st.closed(makers);
    let p = not_in(closed);
    assert forall|j: int| 0 <= j < touched.len() implies (#[trigger] touched[j]).uuid
        == makers[j].uuid by {}
    assert forall|j: int| 0 <= j < st.filled implies !p(#[trigger] touched[j]) by {
        assert(makers[j].uuid == touched[j].uuid);
    }
    assert forall|j: int| st.filled <= j < touched.len() implies p(#[trigger] touched[j]) by {
        let id = touched[j].uuid;
        assert(makers.contains(makers[j]));
        assert(s.has(makers[j]));
        if closed.contains(id) {
            if id == taker.uuid {
                assert(s.contains(taker.uuid));
            } else {
                let k = choose|k: int| 0 <= k < st.filled && (#[trigger] makers[k]).uuid == id;
                assert(makers.contains(makers[k]));
                assert(s.has(makers[k]));
                assert(makers[k] == makers[j]);
                assert(makers[k].spec_key().before(makers[j].spec_key()));
            }
        }
    }
    lemma_filter_skip(touched, p, st.filled);
    assert forall|j: int| 0 <= j < own.len() implies p(#[trigger] own[j]) by {
        let id = own[j].uuid;
        assert(own.contains(own[j]));
        assert(s.has(own[j]));
        if closed.contains(id) {
            if id == taker.uuid {
                assert(s.contains(taker.uuid));
            } else {
                let k = choose|k: int| 0 <= k < st.filled && (#[trigger] makers[k]).uuid == id;
                assert(makers.contains(makers[k]));
                assert(s.has(makers[k]));
                assert(makers[k] == own[j]);
            }
        }
    }
    lemma_filter_all(own, p);
}

} // verus!
