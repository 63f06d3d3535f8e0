//! The expiry index: which orders expire when. Several orders may expire at
//! the same time, so an entry is a pair of an expiry and an identifier, and
//! the entries are kept in ascending order.

use std::collections::BTreeSet;
use vstd::prelude::*;
use vstd::std_specs::cmp::OrdSpec;
use vstd::std_specs::iter::IteratorSpec;

verus! {

/// Whether entry `a` comes strictly before `b`: an earlier expiry, or the
/// same expiry and a smaller identifier.
pub open spec fn entry_before(a: (u64, u128), b: (u64, u128)) -> bool {
    a.0 < b.0 || (a.0 == b.0 && a.1 < b.1)
}

/// The pairs `(expiry, identifier)` of the resting orders.
pub struct ExpiryIndex {
    entries: BTreeSet<(u64, u128)>,
}

impl View for ExpiryIndex {
    type V = Set<(u64, u128)>;

    closed spec fn view(&self) -> Set<(u64, u128)> {
        self.entries@
    }
}

impl ExpiryIndex {
    /// An empty index.
    pub fn new() -> (r: ExpiryIndex)
        ensures
            r@ == Set::<(u64, u128)>::empty(),
    {
        ExpiryIndex { entries: BTreeSet::new() }
    }

    /// Adds an entry; answers whether it was new.
    pub fn insert(&mut self, expiry: u64, uuid: u128) -> (fresh: bool)
        ensures
            final(self)@ == old(self)@.insert((expiry, uuid)),
            fresh == !old(self)@.contains((expiry, uuid)),
    {
        broadcast use vstd::laws_cmp::group_laws_cmp;

        self.entries.insert((expiry, uuid))
    }

    /// Removes an entry; answers whether it was there.
    pub fn remove(&mut self, expiry: u64, uuid: u128) -> (found: bool)
        ensures
            final(self)@ == old(self)@.remove((expiry, uuid)),
            found == old(self)@.contains((expiry, uuid)),
    {
        broadcast use vstd::laws_cmp::group_laws_cmp;
        broadcast use vstd::std_specs::btree::group_btree_axioms;

        let entry = (expiry, uuid);
        self.entries.remove(&entry)
    }

    /// The entries that are due at `now`: those whose expiry is not after
    /// it, earliest first. The walk stops at the first entry that is not due.
    pub fn due(&self, now: u64) -> (out: Vec<(u64, u128)>)
        ensures
            forall|e: (u64, u128)| out@.contains(e) <==> self@.contains(e) && e.0 <= now,
            forall|i: int, j: int| 0 <= i < j < out.len() ==> entry_before(out[i], out[j]),
    {
        broadcast use vstd::std_specs::btree::group_btree_axioms;

        proof {
            lemma_entries_ordered();
        }
        let mut out: Vec<(u64, u128)> = Vec::new();
        let ghost all = self.entries.iter().remaining();
        let ghost mut stopped: bool = false;
        proof {
            lemma_ascending(all);
        }
        for entry in it: self.entries.iter()
            invariant_except_break
                out.len() == it.index(),
            invariant
                it.seq() == all,
                forall|i: int, j: int|
                    0 <= i < j < all.len() ==> entry_before(*#[trigger] all[i], *#[trigger] all[j]),
                out.len() <= all.len(),
                forall|i: int| 0 <= i < out.len() ==> out[i] == *all[i],
                forall|i: int| 0 <= i < out.len() ==> out[i].0 <= now,
                stopped ==> out.len() < all.len() && all[out.len() as int].0 > now,
            ensures
                stopped || out.len() == all.len(),
        {
            if entry.0 > now {
                proof {
                    stopped = true;
                }
                break ;
            }
            out.push(*entry);
        }
        assert forall|i: int, j: int| 0 <= i < j < out.len() implies entry_before(
            out[i],
            out[j],
        ) by {
            assert(entry_before(*all[i], *all[j]));
        }
        assert forall|e: (u64, u128)| out@.contains(e) <==> self@.contains(e) && e.0 <= now by {
            if out@.contains(e) {
                let i = choose|i: int| 0 <= i < out.len() && out[i] == e;
                assert(all.unref()[i] == e);
                assert(all.unref().to_set().contains(e));
            }
            if self@.contains(e) && e.0 <= now {
                assert(all.unref().to_set().contains(e));
                let i = choose|i: int| 0 <= i < all.unref().len() && all.unref()[i] == e;
                if i >= out.len() {
                    let k = out.len() as int;
                    assert(entry_before(*all[k], *all[i]) || k == i);
                }
                assert(out[i] == e);
            }
        }
        out
    }
}

/// Pairs of integers are ordered as the index needs them.
proof fn lemma_entries_ordered()
    ensures
        vstd::std_specs::btree::key_obeys_cmp_spec::<(u64, u128)>(),
{
    broadcast use vstd::laws_cmp::group_laws_cmp;
    broadcast use vstd::std_specs::btree::group_btree_axioms;

}

/// What the index hands out in increasing order is ascending by expiry, then
/// by identifier.
proof fn lemma_ascending(all: Seq<&(u64, u128)>)
    requires
        vstd::std_specs::btree::increasing_seq(all),
    ensures
        forall|i: int, j: int|
            0 <= i < j < all.len() ==> entry_before(*#[trigger] all[i], *#[trigger] all[j]),
{
    broadcast use vstd::laws_cmp::group_laws_cmp;
    broadcast use vstd::laws_cmp::lemma_ref_obeys_cmp_spec;
    broadcast use vstd::std_specs::btree::group_btree_axioms;

    assert(vstd::laws_cmp::obeys_cmp::<(u64, u128)>());
    assert(vstd::laws_cmp::obeys_cmp::<&(u64, u128)>());
    vstd::std_specs::btree::axiom_increasing_seq_meaning::<&(u64, u128)>(all);
    assert forall|i: int, j: int| 0 <= i < j < all.len() implies entry_before(
        *#[trigger] all[i],
        *#[trigger] all[j],
    ) by {
        assert(OrdSpec::cmp_spec(&all[i], &all[j]) is Less);
    }
}

} // verus!
