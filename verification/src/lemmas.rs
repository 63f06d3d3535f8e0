//! Facts about the book that the engine's proofs rest on: what filtering,
//! removing and inserting orders does to a well-formed book and to its
//! indices.

use crate::book::holds;
use crate::book::lemma_holds;
use crate::book::lemma_insert_sorted;
use crate::book::lemma_rank;
use crate::book::rank;
use crate::book::sorted;
use crate::order::spec_other_side;
use crate::order::Order;
use crate::order::Side;
use crate::order::SidePriceTime;
use crate::seqs::lemma_filter_all;
use crate::seqs::lemma_filter_members;
use crate::seqs::lemma_filter_remove;
use crate::seqs::lemma_filter_same;
use crate::seqs::lemma_filter_twice;
use crate::state::not_id;
use crate::state::not_in;
use crate::state::BookState;
use vstd::prelude::*;

verus! {

/// The index from identifiers to locators covers exactly the resting
/// orders.
pub open spec fn indexed(s: BookState, index: Map<u128, SidePriceTime>) -> bool {
    &&& forall|id: u128| #[trigger] index.contains_key(id) <==> s.contains(id)
    &&& forall|o: Order| #[trigger] s.has(o) ==> index[o.uuid] == o.spec_locator()
}

/// The expiry index holds exactly one entry for each resting order: its
/// expiry and its identifier.
pub open spec fn scheduled(s: BookState, entries: Set<(u64, u128)>) -> bool {
    forall|e: (u64, u128)| #[trigger]
        entries.contains(e) <==> exists|o: Order| #[trigger]
            s.has(o) && o.uuid == e.1 && o.spec_expiry() == e.0
}

/// Filtering keeps a sorted sequence sorted.
pub proof fn lemma_filter_sorted(s: Seq<Order>, p: spec_fn(Order) -> bool)
    requires
        sorted(s),
    ensures
        sorted(s.filter(p)),
    decreases s.len(),
{
    reveal(Seq::filter);
    if s.len() > 0 {
        let d = s.drop_last();
        assert(sorted(d)) by {
            assert forall|i: int, j: int| 0 <= i < j < d.len() implies (#[trigger] d[i]).spec_key().before(
                (#[trigger] d[j]).spec_key(),
            ) by {
                assert(d[i] == s[i] && d[j] == s[j]);
            }
        }
        lemma_filter_sorted(d, p);
        lemma_filter_members(d, p);
        let f = s.filter(p);
        let g = d.filter(p);
        if p(s.last()) {
            assert forall|i: int, j: int| 0 <= i < j < f.len() implies (#[trigger] f[i]).spec_key().before(
                (#[trigger] f[j]).spec_key(),
            ) by {
                if j < g.len() {
                    assert(f[i] == g[i] && f[j] == g[j]);
                } else {
                    assert(f[j] == s.last());
                    assert(f[i] == g[i]);
                    assert(g.contains(g[i]));
                    assert(d.contains(g[i]));
                    let k = choose|k: int| 0 <= k < d.len() && d[k] == g[i];
                    assert(s[k] == g[i]);
                    assert(s[k].spec_key().before(s[s.len() - 1].spec_key()));
                }
            }
        }
    }
}

/// A filtered book is sound, and well formed where the book was; it holds
/// the orders that satisfy the predicate.
pub proof fn lemma_keep(s: BookState, p: spec_fn(Order) -> bool)
    requires
        s.sound(),
    ensures
        s.keep(p).sound(),
        s.wf() ==> s.keep(p).wf(),
        forall|o: Order| #[trigger] s.keep(p).has(o) <==> s.has(o) && p(o),
        forall|o: Order| #[trigger] s.keep(p).buy.contains(o) <==> s.buy.contains(o) && p(o),
        forall|o: Order| #[trigger] s.keep(p).sell.contains(o) <==> s.sell.contains(o) && p(o),
{
    lemma_filter_members(s.buy, p);
    lemma_filter_members(s.sell, p);
    lemma_filter_sorted(s.buy, p);
    lemma_filter_sorted(s.sell, p);
    let k = s.keep(p);
    assert forall|o: Order| #[trigger] k.has(o) <==> s.has(o) && p(o) by {}
    assert forall|o: Order| #[trigger] k.has(o) implies o.valid() by {
        assert(s.has(o));
    }
    if s.wf() {
        assert forall|o: Order| #[trigger] k.has(o) implies o.remaining_amount.units() > 0
            && o.created <= k.last_tick by {
            assert(s.has(o));
        }
    }
    assert forall|a: Order, b: Order| #[trigger]
        k.has(a) && #[trigger] k.has(b) && a.uuid == b.uuid implies a == b by {
        assert(s.has(a) && s.has(b));
    }
}

/// Two predicates that agree on the resting orders filter the book alike.
pub proof fn lemma_keep_same(s: BookState, p: spec_fn(Order) -> bool, q: spec_fn(Order) -> bool)
    requires
        forall|o: Order| #[trigger] s.has(o) ==> p(o) == q(o),
    ensures
        s.keep(p) == s.keep(q),
{
    assert forall|i: int| 0 <= i < s.buy.len() implies p(#[trigger] s.buy[i]) == q(s.buy[i]) by {
        assert(s.buy.contains(s.buy[i]));
        assert(s.has(s.buy[i]));
    }
    assert forall|i: int| 0 <= i < s.sell.len() implies p(#[trigger] s.sell[i]) == q(
        s.sell[i],
    ) by {
        assert(s.sell.contains(s.sell[i]));
        assert(s.has(s.sell[i]));
    }
    lemma_filter_same(s.buy, p, q);
    lemma_filter_same(s.sell, p, q);
}

/// A book keeps all its orders under a predicate that they all satisfy.
pub proof fn lemma_keep_all(s: BookState, p: spec_fn(Order) -> bool)
    requires
        forall|o: Order| #[trigger] s.has(o) ==> p(o),
    ensures
        s.keep(p) == s,
{
    assert forall|i: int| 0 <= i < s.buy.len() implies p(#[trigger] s.buy[i]) by {
        assert(s.buy.contains(s.buy[i]));
        assert(s.has(s.buy[i]));
    }
    assert forall|i: int| 0 <= i < s.sell.len() implies p(#[trigger] s.sell[i]) by {
        assert(s.sell.contains(s.sell[i]));
        assert(s.has(s.sell[i]));
    }
    lemma_filter_all(s.buy, p);
    lemma_filter_all(s.sell, p);
}

/// Removing an identifier that no resting order has changes nothing.
pub proof fn lemma_without_absent(s: BookState, id: u128)
    requires
        !s.contains(id),
    ensures
        s.without(id) == s,
{
    lemma_keep_all(s, not_id(id));
}

/// Removing one more identifier from a book without the identifiers `ids`
/// gives the book without `ids` and that one.
pub proof fn lemma_without_more(s: BookState, ids: Set<u128>, id: u128)
    ensures
        s.keep(not_in(ids)).without(id) == s.keep(not_in(ids.insert(id))),
{
    lemma_filter_twice(s.buy, not_in(ids), not_id(id), not_in(ids.insert(id)));
    lemma_filter_twice(s.sell, not_in(ids), not_id(id), not_in(ids.insert(id)));
}

/// Where a resting order stands: at the place of its key on its side, and
/// nowhere else. Removing its identifier removes it there.
pub proof fn lemma_locate(s: BookState, o: Order)
    requires
        s.sound(),
        s.has(o),
    ensures
        holds(s.side(o.side), o.spec_key()),
        s.side(o.side)[rank(s.side(o.side), o.spec_key())] == o,
        s.without(o.uuid) == s.with_sides(
            o.side,
            s.side(o.side).remove(rank(s.side(o.side), o.spec_key())),
            s.side(spec_other_side(o.side)),
        ),
{
    let own = s.side(o.side);
    let other = s.side(spec_other_side(o.side));
    let key = o.spec_key();
    assert(own.contains(o)) by {
        if o.side == Side::Buy {
            assert(!s.sell.contains(o));
        } else {
            assert(!s.buy.contains(o));
        }
    }
    let j = choose|j: int| 0 <= j < own.len() && own[j] == o;
    lemma_holds(own, key);
    assert(own[j].spec_key().same(key));
    assert(j == rank(own, key));
    assert forall|i: int| 0 <= i < own.len() && i != j implies not_id(o.uuid)(
        #[trigger] own[i],
    ) by {
        if own[i].uuid == o.uuid {
            assert(own.contains(own[i]));
            assert(s.has(own[i]));
            assert(own[i] == o);
            if i < j {
                assert(own[i].spec_key().before(own[j].spec_key()));
            } else {
                assert(own[j].spec_key().before(own[i].spec_key()));
            }
        }
    }
    lemma_filter_remove(own, not_id(o.uuid), j);
    assert forall|i: int| 0 <= i < other.len() implies not_id(o.uuid)(#[trigger] other[i]) by {
        if other[i].uuid == o.uuid {
            assert(other.contains(other[i]));
            assert(s.has(other[i]));
            assert(other[i] == o);
        }
    }
    lemma_filter_all(other, not_id(o.uuid));
}

/// The indices of a book from which an order was removed are those of the
/// book, without the order's entries.
pub proof fn lemma_indices_without(
    s: BookState,
    index: Map<u128, SidePriceTime>,
    entries: Set<(u64, u128)>,
    o: Order,
)
    requires
        s.sound(),
        s.has(o),
        indexed(s, index),
        scheduled(s, entries),
    ensures
        indexed(s.without(o.uuid), index.remove(o.uuid)),
        scheduled(s.without(o.uuid), entries.remove((o.spec_expiry() as u64, o.uuid))),
{
    let t = s.without(o.uuid);
    lemma_keep(s, not_id(o.uuid));
    let index2 = index.remove(o.uuid);
    let entries2 = entries.remove((o.spec_expiry() as u64, o.uuid));
    assert forall|id: u128| #[trigger] index2.contains_key(id) <==> t.contains(id) by {
        if index2.contains_key(id) {
            assert(index.contains_key(id));
            assert(s.contains(id));
            let x = choose|x: Order| #[trigger] s.has(x) && x.uuid == id;
            assert(t.has(x));
        }
        if t.contains(id) {
            let x = choose|x: Order| #[trigger] t.has(x) && x.uuid == id;
            assert(s.has(x));
            assert(s.contains(id));
        }
    }
    assert forall|x: Order| #[trigger] t.has(x) implies index2[x.uuid] == x.spec_locator() by {
        assert(s.has(x));
    }
    assert forall|e: (u64, u128)| #[trigger]
        entries2.contains(e) <==> exists|x: Order| #[trigger]
            t.has(x) && x.uuid == e.1 && x.spec_expiry() == e.0 by {
        if entries2.contains(e) {
            assert(entries.contains(e));
            let x = choose|x: Order| #[trigger] s.has(x) && x.uuid == e.1 && x.spec_expiry() == e.0;
            if x.uuid == o.uuid {
                assert(x == o);
            }
            assert(t.has(x));
        }
        if exists|x: Order| #[trigger] t.has(x) && x.uuid == e.1 && x.spec_expiry() == e.0 {
            let x = choose|x: Order| #[trigger] t.has(x) && x.uuid == e.1 && x.spec_expiry() == e.0;
            assert(s.has(x));
        }
    }
}

/// A book into which an order with a fresh identifier and a fresh key was put
/// is sound, holds that order besides the others, and its indices are
/// those of the book with the order's entries.
pub proof fn lemma_with_order(
    s: BookState,
    index: Map<u128, SidePriceTime>,
    entries: Set<(u64, u128)>,
    o: Order,
)
    requires
        s.sound(),
        indexed(s, index),
        scheduled(s, entries),
        o.valid(),
        !s.contains(o.uuid),
        !holds(s.side(o.side), o.spec_key()),
    ensures
        s.with_order(o).sound(),
        forall|x: Order| #[trigger] s.with_order(o).has(x) <==> s.has(x) || x == o,
        indexed(s.with_order(o), index.insert(o.uuid, o.spec_locator())),
        scheduled(s.with_order(o), entries.insert((o.spec_expiry() as u64, o.uuid))),
{
    let own = s.side(o.side);
    let r = rank(own, o.spec_key());
    lemma_rank(own, o.spec_key());
    lemma_insert_sorted(own, o);
    let own2 = own.insert(r, o);
    let t = s.with_order(o);
    assert forall|x: Order| #[trigger] own2.contains(x) <==> own.contains(x) || x == o by {
        if own2.contains(x) {
            let i = choose|i: int| 0 <= i < own2.len() && own2[i] == x;
            if i < r {
                assert(own[i] == x);
            } else if i > r {
                assert(own[i - 1] == x);
            }
        }
        if own.contains(x) {
            let i = choose|i: int| 0 <= i < own.len() && own[i] == x;
            if i < r {
                assert(own2[i] == x);
            } else {
                assert(own2[i + 1] == x);
            }
        }
        if x == o {
            assert(own2[r] == x);
        }
    }
    assert forall|x: Order| #[trigger] t.has(x) <==> s.has(x) || x == o by {}
    assert forall|a: Order, b: Order| #[trigger]
        t.has(a) && #[trigger] t.has(b) && a.uuid == b.uuid implies a == b by {
        if a == o && b != o {
            assert(s.has(b));
        }
        if b == o && a != o {
            assert(s.has(a));
        }
    }
    let index2 = index.insert(o.uuid, o.spec_locator());
    let entries2 = entries.insert((o.spec_expiry() as u64, o.uuid));
    assert forall|id: u128| #[trigger] index2.contains_key(id) <==> t.contains(id) by {
        if index2.contains_key(id) {
            if id == o.uuid {
                assert(t.has(o));
            } else {
                assert(s.contains(id));
                let x = choose|x: Order| #[trigger] s.has(x) && x.uuid == id;
                assert(t.has(x));
            }
        }
        if t.contains(id) {
            let x = choose|x: Order| #[trigger] t.has(x) && x.uuid == id;
            if x != o {
                assert(s.has(x));
                assert(s.contains(id));
            }
        }
    }
    assert forall|x: Order| #[trigger] t.has(x) implies index2[x.uuid] == x.spec_locator() by {
        if x != o {
            assert(s.has(x));
            assert(s.contains(x.uuid));
        }
    }
    assert forall|e: (u64, u128)| #[trigger]
        entries2.contains(e) <==> exists|x: Order| #[trigger]
            t.has(x) && x.uuid == e.1 && x.spec_expiry() == e.0 by {
        if entries2.contains(e) {
            if e == (o.spec_expiry() as u64, o.uuid) {
                assert(t.has(o));
            } else {
                let x = choose|x: Order| #[trigger] s.has(x) && x.uuid == e.1 && x.spec_expiry() == e.0;
                assert(t.has(x));
            }
        }
        if exists|x: Order| #[trigger] t.has(x) && x.uuid == e.1 && x.spec_expiry() == e.0 {
            let x = choose|x: Order| #[trigger] t.has(x) && x.uuid == e.1 && x.spec_expiry() == e.0;
            if x != o {
                assert(s.has(x));
            }
        }
    }
}

} // verus!
