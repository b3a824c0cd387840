//! The deleted units of a store, as a set held in one way.

use crate::block::{Unit, ID};
use crate::block_store::{list_holds, BlockStore};
use crate::id_set::{id_range, range_holds, ranges_contain, ranges_wf, IdSet};
use crate::model::{known, unit_at};
use crate::transaction::lemma_view;
use std::ops::Range;
use vstd::prelude::*;

verus! {

/// The known units that are deleted.
pub open spec fn deleted_units(units: Map<u64, Seq<Unit>>) -> Set<ID> {
    Set::new(|id: ID| known(units, id) && unit_at(units, id).deleted())
}

/// The store knows a deleted unit of `client` before clock `bound`.
pub open spec fn has_deleted(s: BlockStore, client: u64, bound: int) -> bool {
    exists|k: int| 0 <= k < bound && k < s.state(client) && (#[trigger] s.units(client)[k]).deleted()
}

/// Those of the first `n` clients of the store that have a deleted unit,
/// in the order of the store.
pub open spec fn deleted_keys(s: BlockStore, n: int) -> Seq<u64>
    decreases n,
{
    if n <= 0 || n > s.clients@.len() {
        Seq::empty()
    } else if has_deleted(s, s.clients@[n - 1].client, s.state(s.clients@[n - 1].client) as int) {
        deleted_keys(s, n - 1).push(s.clients@[n - 1].client)
    } else {
        deleted_keys(s, n - 1)
    }
}

/// `d` holds just the deleted units of the store, with an entry for each
/// client that has one, in the order of the clients of the store.
pub open spec fn holds_deleted(s: BlockStore, d: IdSet) -> bool {
    &&& d.wf()
    &&& d@ == deleted_units(s@)
    &&& d.keys() == deleted_keys(s, s.clients@.len() as int)
}

/// The set that holds the deleted units of the store.
pub open spec fn deleted_of(s: BlockStore) -> IdSet {
    choose|d: IdSet| holds_deleted(s, d)
}

/// The deleted units of the clients before position `ci`, and of the
/// client at `ci` those before clock `bound`.
pub open spec fn deleted_upto(s: BlockStore, ci: int, bound: int) -> Set<ID> {
    Set::new(
        |id: ID|
            known(s@, id) && unit_at(s@, id).deleted() && exists|p: int| #[trigger]
                s.has(id.client, p) && (p < ci || (p == ci && id.clock < bound)),
    )
}

/// Every one of `deleted_keys` is a client of the store before position `n`.
pub proof fn lemma_deleted_keys_before(s: BlockStore, n: int, j: int)
    requires
        0 <= j < deleted_keys(s, n).len(),
    ensures
        exists|p: int| 0 <= p < n && #[trigger] s.has(deleted_keys(s, n)[j], p),
    decreases n,
{
    if n <= 0 || n > s.clients@.len() {
    } else {
        let c = s.clients@[n - 1].client;
        if has_deleted(s, c, s.state(c) as int) && j == deleted_keys(s, n - 1).len() {
            assert(deleted_keys(s, n)[j] == c);
            assert(s.has(deleted_keys(s, n)[j], n - 1));
        } else {
            lemma_deleted_keys_before(s, n - 1, j);
            let p = choose|p: int| 0 <= p < n - 1 && #[trigger] s.has(deleted_keys(s, n - 1)[j], p);
            assert(s.has(deleted_keys(s, n)[j], p));
        }
    }
}

/// Ranges in order that hold the same clocks are the same ranges.
pub proof fn lemma_ranges_one_way(a: Seq<Range<u32>>, b: Seq<Range<u32>>)
    requires
        ranges_wf(a),
        ranges_wf(b),
        forall|k: int| ranges_contain(a, k) == ranges_contain(b, k),
    ensures
        a.len() == b.len(),
        forall|i: int| 0 <= i < a.len() ==> a[i].start == b[i].start && a[i].end == b[i].end,
    decreases a.len(),
{
    if a.len() == 0 {
        if b.len() > 0 {
            assert(range_holds(b, 0, b[0].start as int));
            assert(ranges_contain(b, b[0].start as int));
            let i = choose|i: int| range_holds(a, i, b[0].start as int);
            assert(range_holds(a, i, b[0].start as int));
        }
    } else if b.len() == 0 {
        assert(range_holds(a, 0, a[0].start as int));
        assert(ranges_contain(a, a[0].start as int));
        let i = choose|i: int| range_holds(b, i, a[0].start as int);
        assert(range_holds(b, i, a[0].start as int));
    } else {
        lemma_first_range(a, b);
        lemma_first_range(b, a);
        lemma_first_end(a, b);
        lemma_first_end(b, a);
        let ta = a.subrange(1, a.len() as int);
        let tb = b.subrange(1, b.len() as int);
        lemma_tail_ranges(a);
        lemma_tail_ranges(b);
        assert forall|k: int| ranges_contain(ta, k) == ranges_contain(tb, k) by {
            assert(ranges_contain(a, k) == ranges_contain(b, k));
        }
        lemma_ranges_one_way(ta, tb);
        assert forall|i: int| 0 <= i < a.len() implies a[i].start == b[i].start && a[i].end
            == b[i].end by {
            if i > 0 {
                assert(ta[i - 1] == a[i]);
                assert(tb[i - 1] == b[i]);
            }
        }
    }
}

/// The first range of `a` does not begin before the first range of `b`,
/// where `b` holds every clock that `a` holds.
pub proof fn lemma_first_range(a: Seq<Range<u32>>, b: Seq<Range<u32>>)
    requires
        ranges_wf(a),
        ranges_wf(b),
        a.len() > 0,
        b.len() > 0,
        forall|k: int| ranges_contain(a, k) == ranges_contain(b, k),
    ensures
        b[0].start <= a[0].start,
{
    let k = a[0].start as int;
    assert(range_holds(a, 0, k));
    assert(ranges_contain(a, k));
    assert(ranges_contain(b, k));
    let j = choose|j: int| range_holds(b, j, k);
    assert(range_holds(b, j, k));
    if j > 0 {
        assert(b[0].end < b[j].start);
    }
}

/// The first range of `a` does not end before the first range of `b`,
/// where both begin at the same clock and hold the same clocks.
pub proof fn lemma_first_end(a: Seq<Range<u32>>, b: Seq<Range<u32>>)
    requires
        ranges_wf(a),
        ranges_wf(b),
        a.len() > 0,
        b.len() > 0,
        a[0].start == b[0].start,
        forall|k: int| ranges_contain(a, k) == ranges_contain(b, k),
    ensures
        b[0].end <= a[0].end,
{
    if a[0].end < b[0].end {
        let k = a[0].end as int;
        assert(range_holds(b, 0, k));
        assert(ranges_contain(b, k));
        assert(ranges_contain(a, k));
        let i = choose|i: int| range_holds(a, i, k);
        assert(range_holds(a, i, k));
        if i > 0 {
            assert(a[0].end < a[i].start);
        }
    }
}

/// The ranges but the first are in order, and hold the clocks that the
/// ranges hold from the end of the first on.
pub proof fn lemma_tail_ranges(a: Seq<Range<u32>>)
    requires
        ranges_wf(a),
        a.len() > 0,
    ensures
        ranges_wf(a.subrange(1, a.len() as int)),
        forall|k: int| #[trigger]
            ranges_contain(a.subrange(1, a.len() as int), k) == (ranges_contain(a, k) && k
                >= a[0].end),
{
    let t = a.subrange(1, a.len() as int);
    assert forall|i: int| 0 <= i < t.len() implies (#[trigger] t[i]).start < t[i].end by {
        assert(t[i] == a[i + 1]);
    }
    assert forall|i: int, j: int| 0 <= i < j < t.len() implies (#[trigger] t[i]).end < (
    #[trigger] t[j]).start by {
        assert(t[i] == a[i + 1]);
        assert(t[j] == a[j + 1]);
    }
    assert forall|k: int| #[trigger] ranges_contain(t, k) == (ranges_contain(a, k) && k
        >= a[0].end) by {
        if ranges_contain(t, k) {
            let i = choose|i: int| range_holds(t, i, k);
            assert(t[i] == a[i + 1]);
            assert(range_holds(a, i + 1, k));
            assert(a[0].end < a[i + 1].start);
        }
        if ranges_contain(a, k) && k >= a[0].end {
            let i = choose|i: int| range_holds(a, i, k);
            assert(range_holds(a, i, k));
            assert(i > 0);
            assert(t[i - 1] == a[i]);
            assert(range_holds(t, i - 1, k));
        }
    }
}

/// Two sound sets that hold the same units, with their entries in the
/// same order, have the same ranges entry by entry: a set is held in one
/// way only, but for the order of its entries.
pub proof fn law_set_held_one_way(a: IdSet, b: IdSet)
    requires
        a.wf(),
        b.wf(),
        a@ == b@,
        a.keys() == b.keys(),
    ensures
        a.clients@.len() == b.clients@.len(),
        forall|i: int|
            0 <= i < a.clients@.len() ==> (#[trigger] a.clients@[i]).client == b.clients@[i].client
                && a.clients@[i].ranges@.len() == b.clients@[i].ranges@.len(),
        forall|i: int, j: int|
            0 <= i < a.clients@.len() && 0 <= j < a.clients@[i].ranges@.len() ==> (
            #[trigger] a.clients@[i].ranges@[j]).start == b.clients@[i].ranges@[j].start
                && a.clients@[i].ranges@[j].end == b.clients@[i].ranges@[j].end,
{
    assert(a.keys().len() == a.clients@.len());
    assert(b.keys().len() == b.clients@.len());
    assert forall|i: int| 0 <= i < a.clients@.len() implies (#[trigger] a.clients@[i]).client
        == b.clients@[i].client && a.clients@[i].ranges@.len() == b.clients@[i].ranges@.len()
        && forall|j: int|
        0 <= j < a.clients@[i].ranges@.len() ==> (#[trigger] a.clients@[i].ranges@[j]).start
            == b.clients@[i].ranges@[j].start && a.clients@[i].ranges@[j].end
            == b.clients@[i].ranges@[j].end by {
        let c = a.clients@[i].client;
        assert(a.keys()[i] == c);
        assert(b.keys()[i] == b.clients@[i].client);
        assert(a.has(c, i));
        assert(b.has(c, i));
        a.lemma_ranges_of(c, i);
        b.lemma_ranges_of(c, i);
        let ra = a.clients@[i].ranges@;
        let rb = b.clients@[i].ranges@;
        assert forall|k: int| ranges_contain(ra, k) == ranges_contain(rb, k) by {
            if ranges_contain(ra, k) {
                let x = choose|x: int| range_holds(ra, x, k);
                assert(range_holds(ra, x, k));
            }
            if ranges_contain(rb, k) {
                let x = choose|x: int| range_holds(rb, x, k);
                assert(range_holds(rb, x, k));
            }
            if ranges_contain(ra, k) || ranges_contain(rb, k) {
                assert(0 <= k <= u32::MAX);
                let id = ID { client: c, clock: k as u32 };
                assert(a.spec_contains(id) == ranges_contain(ra, k));
                assert(b.spec_contains(id) == ranges_contain(rb, k));
                assert(a@.contains(id) == a.spec_contains(id));
                assert(b@.contains(id) == b.spec_contains(id));
                assert(a@.contains(id) == b@.contains(id));
                assert(ranges_contain(ra, k) == ranges_contain(rb, k));
            }
        }
        lemma_ranges_one_way(ra, rb);
    }
}

impl BlockStore {
    /// The deleted units of the store: placeholders and the units of
    /// deleted items.
    pub fn deleted_set(&self) -> (d: IdSet)
        requires
            self.wf(),
        ensures
            holds_deleted(*self, d),
    {
        let mut d = IdSet::new();
        let mut ci: usize = 0;
        proof {
            lemma_view(*self);
            assert(d@ =~= deleted_upto(*self, 0, 0));
            assert(d.keys() =~= deleted_keys(*self, 0));
        }
        while ci < self.clients.len()
            invariant
                self.wf(),
                d.wf(),
                ci <= self.clients.len(),
                d@ == deleted_upto(*self, ci as int, 0),
                d.keys() == deleted_keys(*self, ci as int),
            decreases self.clients.len() - ci,
        {
            let client = self.clients[ci].client;
            let ghost list = self.clients[ci as int].list@;
            let ghost keys0 = d.keys();
            proof {
                assert(self.has(client, ci as int));
                self.lemma_list_of(client, ci as int);
                lemma_view(*self);
                assert(!d.contains_client(client)) by {
                    if d.contains_client(client) {
                        let j = choose|j: int| d.has(client, j);
                        assert(d.has(client, j));
                        assert(d.keys()[j] == client);
                        lemma_deleted_keys_before(*self, ci as int, j);
                        let p = choose|p: int|
                            0 <= p < ci && #[trigger] self.has(deleted_keys(*self, ci as int)[j], p);
                        assert(self.has(client, p));
                    }
                }
            }
            let mut i: usize = 0;
            let ghost mut bound: int = 0;
            while i < self.clients[ci].list.len()
                invariant
                    self.wf(),
                    d.wf(),
                    ci < self.clients.len(),
                    client == self.clients[ci as int].client,
                    list == self.clients[ci as int].list@,
                    list == self.list_of(client),
                    self.has(client, ci as int),
                    i <= list.len(),
                    0 <= bound <= self.state(client),
                    i < list.len() ==> bound == list[i as int].clock(),
                    i == list.len() ==> bound == self.state(client),
                    d@ == deleted_upto(*self, ci as int, bound),
                    d.contains_client(client) == has_deleted(*self, client, bound),
                    d.keys() == (if d.contains_client(client) {
                        keys0.push(client)
                    } else {
                        keys0
                    }),
                decreases list.len() - i,
            {
                let ghost d0 = d;
                let ghost b = list[i as int];
                proof {
                    self.lemma_list_wf(client);
                    assert(b.wf());
                    assert(b.spec_id().client == client);
                    if i + 1 < list.len() {
                        assert(list[i + 1].clock() == list[i as int].spec_clock_end());
                    }
                    lemma_view(*self);
                    assert(list_holds(self.list_of(client), i as int, b.spec_clock_end() - 1));
                    self.lemma_unit(client, i as int, b.spec_clock_end() - 1);
                    assert(b.spec_clock_end() <= self.state(client));
                    assert forall|k: int| b.clock() <= k < b.spec_clock_end() implies k
                        < self.state(client) && (#[trigger] self.units(client)[k]).deleted()
                        == b.spec_is_deleted() by {
                        assert(list_holds(self.list_of(client), i as int, k));
                        self.lemma_unit(client, i as int, k);
                    }
                }
                let block = &self.clients[ci].list[i];
                if block.is_deleted() {
                    d.insert(block.id(), block.len());
                    proof {
                        assert(d.keys().last() == client || d0.contains_client(client));
                        if !d0.contains_client(client) {
                            assert(d.keys()[d.keys().len() - 1] == client);
                            assert(d.keys().len() == d.clients@.len());
                            assert(d.clients@[d.keys().len() - 1].client == client);
                            assert(d.has(client, d.keys().len() - 1));
                        } else {
                            let j = choose|j: int| d0.has(client, j);
                            assert(d0.has(client, j));
                            assert(d0.keys()[j] == client);
                            assert(d.keys()[j] == client);
                            assert(d.keys().len() == d.clients@.len());
                            assert(d.clients@[j].client == d.keys()[j]);
                            assert(d.has(client, j));
                        }
                        assert(d.contains_client(client));
                        assert(self.units(client)[b.clock() as int].deleted());
                        assert(has_deleted(*self, client, b.spec_clock_end() as int));
                    }
                } else {
                    proof {
                        if has_deleted(*self, client, b.spec_clock_end() as int) {
                            let k = choose|k: int|
                                0 <= k < b.spec_clock_end() && k < self.state(client) && (
                                #[trigger] self.units(client)[k]).deleted();
                            assert(k < bound);
                            assert(has_deleted(*self, client, bound));
                        }
                        if has_deleted(*self, client, bound) {
                            let k = choose|k: int|
                                0 <= k < bound && k < self.state(client) && (
                                #[trigger] self.units(client)[k]).deleted();
                            assert(has_deleted(*self, client, b.spec_clock_end() as int));
                        }
                    }
                }
                proof {
                    let next = b.spec_clock_end() as int;
                    assert(d@ =~= deleted_upto(*self, ci as int, next)) by {
                        assert forall|id: ID| d@.contains(id) == deleted_upto(
                            *self,
                            ci as int,
                            next,
                        ).contains(id) by {
                            let was = deleted_upto(*self, ci as int, bound).contains(id);
                            let hit = id.client == client && bound <= id.clock < next;
                            assert(d0@.contains(id) == was);
                            if b.spec_is_deleted() {
                                assert(d@.contains(id) == (was || id_range(
                                    client,
                                    b.clock() as int,
                                    (b.clock() + b.spec_len()) as int,
                                ).contains(id)));
                            }
                            if hit {
                                assert(self.has(id.client, ci as int));
                                assert(known(self@, id));
                                assert(self@[client] == self.units(client));
                                assert(unit_at(self@, id) == self.units(client)[id.clock as int]);
                            }
                            if deleted_upto(*self, ci as int, next).contains(id) {
                                let p = choose|p: int| #[trigger]
                                    self.has(id.client, p) && (p < ci || (p == ci && id.clock
                                        < next));
                                assert(self.has(id.client, p) && (p < ci || (p == ci && id.clock
                                    < bound)) || hit);
                            }
                            if was {
                                let p = choose|p: int| #[trigger]
                                    self.has(id.client, p) && (p < ci || (p == ci && id.clock
                                        < bound));
                                assert(self.has(id.client, p) && (p < ci || (p == ci && id.clock
                                    < next)));
                            }
                        }
                    }
                    bound = next;
                }
                i += 1;
            }
            proof {
                let n = ci as int + 1;
                assert(d@ =~= deleted_upto(*self, n, 0)) by {
                    assert forall|id: ID| deleted_upto(*self, ci as int, bound).contains(id)
                        == deleted_upto(*self, n, 0).contains(id) by {
                        if deleted_upto(*self, ci as int, bound).contains(id) {
                            let p = choose|p: int| #[trigger]
                                self.has(id.client, p) && (p < ci || (p == ci && id.clock < bound));
                            assert(self.has(id.client, p) && (p < n || (p == n && id.clock < 0)));
                        }
                        if deleted_upto(*self, n, 0).contains(id) {
                            let p = choose|p: int| #[trigger]
                                self.has(id.client, p) && (p < n || (p == n && id.clock < 0));
                            if p == ci {
                                assert(id.client == client);
                                assert(id.clock < self.state(client));
                            }
                            assert(self.has(id.client, p) && (p < ci || (p == ci && id.clock
                                < bound)));
                        }
                    }
                }
                assert(has_deleted(*self, client, bound) == has_deleted(
                    *self,
                    client,
                    self.state(client) as int,
                ));
                assert(d.keys() == deleted_keys(*self, n));
            }
            ci += 1;
        }
        proof {
            lemma_view(*self);
            assert(d@ =~= deleted_units(self@)) by {
                assert forall|id: ID| deleted_units(self@).contains(id) implies deleted_upto(
                    *self,
                    ci as int,
                    0,
                ).contains(id) by {
                    assert(self.spec_contains_client(id.client));
                    let p = choose|p: int| self.has(id.client, p);
                    assert(self.has(id.client, p) && (p < ci || (p == ci && id.clock < 0)));
                }
            }
        }
        d
    }
}

/// The store's deleted units are held in one way: two sets that hold
/// them have the same ranges entry by entry.
pub proof fn law_deleted_held_one_way(s: BlockStore, a: IdSet, b: IdSet)
    requires
        holds_deleted(s, a),
        holds_deleted(s, b),
    ensures
        a.clients@.len() == b.clients@.len(),
        forall|i: int|
            0 <= i < a.clients@.len() ==> (#[trigger] a.clients@[i]).client == b.clients@[i].client
                && a.clients@[i].ranges@.len() == b.clients@[i].ranges@.len(),
        forall|i: int, j: int|
            0 <= i < a.clients@.len() && 0 <= j < a.clients@[i].ranges@.len() ==> (
            #[trigger] a.clients@[i].ranges@[j]).start == b.clients@[i].ranges@[j].start
                && a.clients@[i].ranges@[j].end == b.clients@[i].ranges@[j].end,
{
    law_set_held_one_way(a, b);
}

} // verus!
