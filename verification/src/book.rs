//! One side of the book: the resting orders of a side in priority order,
//! best first.

use crate::decimal::Decimal;
use crate::order::Order;
use crate::order::PriceTime;
use vstd::prelude::*;

verus! {

/// The book already holds an order under the key.
#[derive(Clone, Copy, Debug, PartialEq, Eq, Structural)]
pub struct DuplicateKey;

/// Whether the orders stand in strictly ascending key order: best price
/// first, and first come first within a price.
pub open spec fn sorted(s: Seq<Order>) -> bool {
    forall|i: int, j: int| 0 <= i < j < s.len() ==> (#[trigger] s[i]).spec_key().before(
        (#[trigger] s[j]).spec_key(),
    )
}

/// The first index at or after `i` whose order's key does not come before
/// `key`, or the length where there is none.
pub open spec fn rank_from(s: Seq<Order>, key: PriceTime, i: int) -> int
    decreases s.len() - i,
{
    if 0 <= i < s.len() && s[i].spec_key().before(key) {
        rank_from(s, key, i + 1)
    } else {
        i
    }
}

/// The place of `key` in the sequence: the number of orders that come before
/// it.
pub open spec fn rank(s: Seq<Order>, key: PriceTime) -> int {
    rank_from(s, key, 0)
}

/// Whether an order rests under `key`.
pub open spec fn holds(s: Seq<Order>, key: PriceTime) -> bool {
    rank(s, key) < s.len() && s[rank(s, key)].spec_key().same(key)
}

/// The resting orders of one side, best first.
pub struct BookSide {
    orders: Vec<Order>,
}

impl View for BookSide {
    type V = Seq<Order>;

    closed spec fn view(&self) -> Seq<Order> {
        self.orders@
    }
}

impl BookSide {
    /// The orders are in strict priority order.
    pub open spec fn wf(&self) -> bool {
        sorted(self@)
    }

    /// An empty side.
    pub fn new() -> (r: BookSide)
        ensures
            r@ == Seq::<Order>::empty(),
            r.wf(),
    {
        BookSide { orders: Vec::new() }
    }

    /// The number of resting orders.
    pub fn len(&self) -> (n: usize)
        ensures
            n == self@.len(),
    {
        self.orders.len()
    }

    /// The order at place `i`, counted from the best.
    pub fn get(&self, i: usize) -> (r: &Order)
        requires
            i < self@.len(),
        ensures
            *r == self@[i as int],
    {
        &self.orders[i]
    }

    /// The place of `key`: the number of orders that come before it. It is
    /// found by halving the range in which it lies.
    pub fn position(&self, key: &PriceTime) -> (i: usize)
        requires
            self.wf(),
        ensures
            i == rank(self@, *key),
            i <= self@.len(),
    {
        let mut low: usize = 0;
        let mut high: usize = self.orders.len();
        while low < high
            invariant
                low <= high <= self.orders.len(),
                self.wf(),
                forall|j: int| 0 <= j < low ==> (#[trigger] self@[j]).spec_key().before(*key),
                forall|j: int|
                    high <= j < self@.len() ==> !(#[trigger] self@[j]).spec_key().before(*key),
            decreases high - low,
        {
            let middle: usize = low + (high - low) / 2;
            if self.orders[middle].key().precedes(key) {
                assert forall|j: int| 0 <= j < middle + 1 implies (#[trigger] self@[j]).spec_key().before(
                    *key,
                ) by {
                    if j < middle {
                        assert(self@[j].spec_key().before(self@[middle as int].spec_key()));
                    }
                }
                low = middle + 1;
            } else {
                assert forall|j: int| middle <= j < self@.len() implies !(#[trigger] self@[j]).spec_key().before(
                    *key,
                ) by {
                    if j > middle {
                        assert(self@[middle as int].spec_key().before(self@[j].spec_key()));
                    }
                }
                high = middle;
            }
        }
        proof {
            lemma_rank_found(self@, *key, low as int);
        }
        low
    }

    /// Puts the order at the place of its key. Fails, and changes nothing,
    /// where an order rests under the same key already.
    pub fn insert(&mut self, order: Order) -> (r: Result<(), DuplicateKey>)
        requires
            old(self).wf(),
        ensures
            final(self).wf(),
            r is Err <==> holds(old(self)@, order.spec_key()),
            r is Err ==> final(self)@ == old(self)@,
            r is Ok ==> final(self)@ == old(self)@.insert(
                rank(old(self)@, order.spec_key()),
                order,
            ),
    {
        let key = order.key();
        let i = self.position(&key);
        if i < self.orders.len() && self.orders[i].key().coincides(&key) {
            return Err(DuplicateKey);
        }
        proof {
            lemma_rank(self@, key);
            lemma_insert_sorted(self@, order);
        }
        self.orders.insert(i, order);
        Ok(())
    }

    /// Takes out the order that rests under `key`, if there is one.
    pub fn remove(&mut self, key: &PriceTime) -> (r: Option<Order>)
        requires
            old(self).wf(),
        ensures
            final(self).wf(),
            r is Some <==> holds(old(self)@, *key),
            r is Some ==> r->0 == old(self)@[rank(old(self)@, *key)] && final(self)@ == old(
                self,
            )@.remove(rank(old(self)@, *key)),
            r is None ==> final(self)@ == old(self)@,
    {
        let i = self.position(key);
        if i < self.orders.len() && self.orders[i].key().coincides(key) {
            let order = self.orders.remove(i);
            Some(order)
        } else {
            None
        }
    }

    /// Takes out the best order.
    pub fn remove_first(&mut self) -> (r: Order)
        requires
            old(self).wf(),
            old(self)@.len() > 0,
        ensures
            final(self).wf(),
            r == old(self)@[0],
            final(self)@ == old(self)@.remove(0),
    {
        self.orders.remove(0)
    }

    /// Sets what is left to trade of the order at place `i`.
    pub fn set_remaining(&mut self, i: usize, remaining: Decimal)
        requires
            old(self).wf(),
            i < old(self)@.len(),
        ensures
            final(self).wf(),
            final(self)@ == old(self)@.update(
                i as int,
                old(self)@[i as int].with_remaining(remaining),
            ),
    {
        self.orders[i].remaining_amount = remaining;
        assert(self@ =~= old(self)@.update(
            i as int,
            old(self)@[i as int].with_remaining(remaining),
        ));
    }
}

/// The place of a key is within the sequence; the orders before it come
/// before the key, and in a sorted sequence no order from it on does.
pub proof fn lemma_rank(s: Seq<Order>, key: PriceTime)
    requires
        sorted(s),
    ensures
        0 <= rank(s, key) <= s.len(),
        forall|j: int| 0 <= j < rank(s, key) ==> (#[trigger] s[j]).spec_key().before(key),
        forall|j: int| rank(s, key) <= j < s.len() ==> !(#[trigger] s[j]).spec_key().before(key),
{
    lemma_rank_from(s, key, 0);
}

proof fn lemma_rank_from(s: Seq<Order>, key: PriceTime, i: int)
    requires
        sorted(s),
        0 <= i <= s.len(),
        forall|j: int| 0 <= j < i ==> (#[trigger] s[j]).spec_key().before(key),
    ensures
        i <= rank_from(s, key, i) <= s.len(),
        forall|j: int| 0 <= j < rank_from(s, key, i) ==> (#[trigger] s[j]).spec_key().before(key),
        forall|j: int|
            rank_from(s, key, i) <= j < s.len() ==> !(#[trigger] s[j]).spec_key().before(key),
    decreases s.len() - i,
{
    if i < s.len() && s[i].spec_key().before(key) {
        lemma_rank_from(s, key, i + 1);
    } else if i < s.len() {
        assert forall|j: int| i <= j < s.len() implies !(#[trigger] s[j]).spec_key().before(
            key,
        ) by {
            if j > i {
                assert(s[i].spec_key().before(s[j].spec_key()));
            }
        }
    }
}

/// The place of a key in a sorted sequence is the one place before which
/// every order comes before the key, and from which on none does.
pub proof fn lemma_rank_found(s: Seq<Order>, key: PriceTime, r: int)
    requires
        sorted(s),
        0 <= r <= s.len(),
        forall|j: int| 0 <= j < r ==> (#[trigger] s[j]).spec_key().before(key),
        forall|j: int| r <= j < s.len() ==> !(#[trigger] s[j]).spec_key().before(key),
    ensures
        rank(s, key) == r,
{
    lemma_rank(s, key);
    let q = rank(s, key);
    if q < r {
        assert(s[q].spec_key().before(key));
    } else if r < q {
        assert(s[r].spec_key().before(key));
    }
}

/// In a sorted sequence an order rests under `key` exactly if the order at
/// the key's place does.
pub proof fn lemma_holds(s: Seq<Order>, key: PriceTime)
    requires
        sorted(s),
    ensures
        holds(s, key) <==> exists|j: int| 0 <= j < s.len() && (#[trigger] s[j]).spec_key().same(key),
        forall|j: int|
            0 <= j < s.len() && (#[trigger] s[j]).spec_key().same(key) ==> j == rank(s, key),
{
    lemma_rank(s, key);
    let r = rank(s, key);
    assert forall|j: int| 0 <= j < s.len() && (#[trigger] s[j]).spec_key().same(key) implies j
        == r by {
        if j > r {
            assert(s[r].spec_key().before(s[j].spec_key()));
        }
    }
}

/// Putting an order at the place of its key keeps a sequence sorted, where
/// no order rests under that key.
pub proof fn lemma_insert_sorted(s: Seq<Order>, order: Order)
    requires
        sorted(s),
        !holds(s, order.spec_key()),
    ensures
        sorted(s.insert(rank(s, order.spec_key()), order)),
{
    let key = order.spec_key();
    let r = rank(s, key);
    lemma_rank(s, key);
    let t = s.insert(r, order);
    assert forall|i: int, j: int| 0 <= i < j < t.len() implies (#[trigger] t[i]).spec_key().before(
        (#[trigger] t[j]).spec_key(),
    ) by {
        if i < r && j == r {
            assert(t[i] == s[i]);
        } else if i < r && j > r {
            assert(t[i] == s[i] && t[j] == s[j - 1]);
        } else if i < r {
            assert(t[i] == s[i] && t[j] == s[j]);
        } else if i == r {
            assert(t[j] == s[j - 1]);
            assert(!s[j - 1].spec_key().before(key));
            if j - 1 > r {
                assert(s[r].spec_key().before(s[j - 1].spec_key()));
            }
        } else {
            assert(t[i] == s[i - 1] && t[j] == s[j - 1]);
        }
    }
}

} // verus!
