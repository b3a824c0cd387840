//! What holds of deleting, cutting, merging and applying, whatever the store.

use crate::apply::{
    advanced, all_new_supplied, applied, came, came_from, kept, lemma_wf_frame, lower,
    pending_holds, pending_settled, round, round_by, taken, waiting, waits_as,
};
use crate::apply::{clear_store, pending_after, unblocked};
use crate::update::integrated;
use crate::id_set::{range_holds, IdSet};
use crate::block::BlockRange;
use crate::block_store::pushed;
use crate::integrate::{block_placed, cut_off, gone_in, landed, placed, placed_seq};
use crate::transaction::{cut_by, cut_upto, cuts_end, deleted_by, entry_cuts, range_cut, set_cuts};
use crate::update::{
    all_inserted, blocks_wf, first_entry, flat, inserted, is_first_entry, known_upto, left_of,
    placed_from, placed_trace, slot, wanted, PendingUpdate, UpdateBlocks,
};
use crate::block_store::{lemma_list_covered, list_pivot, BlockStore};
use crate::model::lasting;
use crate::store::Store;
use crate::update::Update;
use crate::block::{split_of, Block, Item, TypePtr, Unit, ID};
use crate::model::{
    known, lemma_tombstone_union, live_in, tombstone, touched, touches, unit_at, unknown_in,
};
use crate::store::walk;
use crate::store::head_in;
use crate::transaction::{
    deleted_in, lemma_block_extent, lemma_deleted_in_compose, lemma_view, same_but_cuts,
    Transaction,
};
use vstd::prelude::*;

verus! {

/// The units of a block, one after the other.
pub open spec fn block_units(b: Block) -> Seq<Unit> {
    Seq::new(b.spec_len(), |j: int| b.unit(j))
}

/// The units of `ids` that are known in `units`.
pub open spec fn known_in(units: Map<u64, Seq<Unit>>, ids: Set<ID>) -> Set<ID> {
    Set::new(|id: ID| ids.contains(id) && known(units, id))
}

/// Deleting the same units again changes nothing: the tombstones are those
/// of deleting once.
pub proof fn law_tombstone_twice(units: Map<u64, Seq<Unit>>, ids: Set<ID>)
    ensures
        tombstone(tombstone(units, ids), ids) == tombstone(units, ids),
        live_in(tombstone(units, ids), ids) == Set::<ID>::empty(),
{
    lemma_tombstone_union(units, ids, ids);
    assert(ids.union(ids) =~= ids);
    let t = tombstone(units, ids);
    assert forall|id: ID| !live_in(t, ids).contains(id) by {
        if ids.contains(id) && known(t, id) {
            assert(t[id.client][id.clock as int] == units[id.client][id.clock as int].tombstoned());
        }
    }
    assert(live_in(t, ids) =~= Set::<ID>::empty());
}

/// A transaction that deletes the units of `ids` a second time leaves the
/// units as the first time left them, records no unit as deleted that the
/// first time did not record, and no change that the first time did not
/// record.
pub proof fn law_delete_twice(t0: Transaction, t1: Transaction, t2: Transaction, ids: Set<ID>)
    requires
        t0.wf(),
        deleted_in(t0, t1, ids),
        deleted_in(t1, t2, ids),
    ensures
        t2.store.blocks@ == t1.store.blocks@,
        t2.delete_set@ == t1.delete_set@,
        t2.changed_view() == t1.changed_view(),
{
    let u0 = t0.store.blocks@;
    let u1 = t1.store.blocks@;
    law_tombstone_twice(u0, ids);
    assert(t2.delete_set@ =~= t1.delete_set@);
    assert forall|p: (TypePtr, Option<Seq<char>>)|
        !touched(u1, live_in(u1, ids), t1.timestamp@).contains(p) by {
        if touched(u1, live_in(u1, ids), t1.timestamp@).contains(p) {
            let id = choose|id: ID| touches(u1, live_in(u1, ids), t1.timestamp@, id, p);
            assert(touches(u1, live_in(u1, ids), t1.timestamp@, id, p));
        }
    }
    assert(t2.changed_view() =~= t1.changed_view());
}

/// Two transactions that begin alike and delete the units of `a` and of
/// `b`, one in this order and one in that, end with the same units, the
/// same record of deleted units and the same record of changes.
pub proof fn law_deletes_commute(
    t0: Transaction,
    ta: Transaction,
    tab: Transaction,
    tb: Transaction,
    tba: Transaction,
    a: Set<ID>,
    b: Set<ID>,
)
    requires
        t0.wf(),
        deleted_in(t0, ta, a),
        deleted_in(ta, tab, b),
        deleted_in(t0, tb, b),
        deleted_in(tb, tba, a),
    ensures
        tab.store.blocks@ == tba.store.blocks@,
        tab.delete_set@ == tba.delete_set@,
        tab.changed_view() == tba.changed_view(),
{
    lemma_deleted_in_compose(t0, ta, tab, a, b, b);
    lemma_deleted_in_compose(t0, tb, tba, b, a, a);
    assert(a.union(b) =~= b.union(a));
}

/// The tombstones do not depend on the order in which two sets of units
/// are deleted.
pub proof fn law_delete_order(units: Map<u64, Seq<Unit>>, a: Set<ID>, b: Set<ID>)
    ensures
        tombstone(tombstone(units, a), b) == tombstone(tombstone(units, b), a),
        tombstone(tombstone(units, a), b) == tombstone(units, a.union(b)),
{
    lemma_tombstone_union(units, a, b);
}

/// The units of the two parts of a cut block, one after the other, are the
/// units of the block.
pub proof fn law_split_content(whole: Block, k: nat, a: Block, b: Block)
    requires
        split_of(whole, k, a, b),
    ensures
        block_units(a) + block_units(b) == block_units(whole),
{
    assert(block_units(a) + block_units(b) =~= block_units(whole));
}

/// Cutting blocks changes no container's order: followed from any unit,
/// the same units are met in the same order, however far one goes.
pub proof fn law_cut_keeps_order(
    t0: Transaction,
    t1: Transaction,
    from: Option<ID>,
    ptr: TypePtr,
    sub: Option<Seq<char>>,
    fuel: nat,
)
    requires
        same_but_cuts(t0, t1),
    ensures
        walk(t1.store.blocks@, from, fuel) == walk(t0.store.blocks@, from, fuel),
        t1.store.order(ptr, sub, fuel) == t0.store.order(ptr, sub, fuel),
{
}

/// Where deletions come before some of their units: what a first round
/// leaves over is what it could not know; once all units are known, a
/// second round on what was left over leaves nothing over, deletes every
/// unit that the first round did not reach, and records no unit as deleted
/// that the first round recorded.
pub proof fn law_partial_delete(
    u0: Map<u64, Seq<Unit>>,
    u2: Map<u64, Seq<Unit>>,
    ds: Set<ID>,
)
    requires
        forall|id: ID| known(u0, id) ==> known(u2, id),
        forall|id: ID| ds.contains(id) ==> known(u2, id),
        forall|id: ID|
            known(u0, id) && unit_at(tombstone(u0, ds), id).deleted() ==> unit_at(u2, id).deleted(),
        forall|c: u64| u0.contains_key(c) ==> (#[trigger] u0[c]).len() <= u32::MAX,
        forall|c: u64| u2.contains_key(c) ==> (#[trigger] u2[c]).len() <= u32::MAX,
    ensures
        unknown_in(u0, ds).union(known_in(u0, ds)) == ds,
        unknown_in(u0, ds).disjoint(known_in(u0, ds)),
        unknown_in(u2, unknown_in(u0, ds)) == Set::<ID>::empty(),
        live_in(u2, unknown_in(u0, ds)).disjoint(live_in(u0, ds)),
        forall|id: ID|
            ds.contains(id) ==> unit_at(tombstone(u2, unknown_in(u0, ds)), id).deleted(),
{
    let rest = unknown_in(u0, ds);
    assert(rest.union(known_in(u0, ds)) =~= ds);
    assert(unknown_in(u2, rest) =~= Set::<ID>::empty());
    let u1 = tombstone(u0, ds);
    assert forall|id: ID| ds.contains(id) implies unit_at(tombstone(u2, rest), id).deleted() by {
        assert(known(u2, id));
        let t = tombstone(u2, rest);
        assert(t[id.client][id.clock as int] == (if rest.contains(id) {
            u2[id.client][id.clock as int].tombstoned()
        } else {
            u2[id.client][id.clock as int]
        }));
        if !rest.contains(id) {
            assert(known(u0, id));
            assert(u1[id.client][id.clock as int] == u0[id.client][id.clock as int].tombstoned());
        }
    }
}

/// Taking for each client the lower of two clocks does not depend on the
/// order, or on how three maps are paired, and taking a map with itself
/// gives the map.
pub proof fn law_lower(a: Map<u64, u32>, b: Map<u64, u32>, c: Map<u64, u32>)
    ensures
        lower(a, b) == lower(b, a),
        lower(lower(a, b), c) == lower(a, lower(b, c)),
        lower(a, a) == a,
{
    assert(lower(a, b) =~= lower(b, a));
    assert(lower(lower(a, b), c) =~= lower(a, lower(b, c)));
    assert(lower(a, a) =~= a);
}

/// Every unit that the store knows is a tombstone or, but for what can
/// change, the unit that `history` has under its identifier.
pub open spec fn store_agrees(s: BlockStore, history: spec_fn(ID) -> Unit) -> bool {
    forall|c: u64, k: int|
        0 <= k < s.state(c) ==> (#[trigger] s.units(c)[k]) is Tombstone || lasting(s.units(c)[k])
            == history(ID { client: c, clock: k as u32 })
}

/// Every unit of the block is, but for what can change, the unit that
/// `history` has under its identifier.
pub open spec fn block_agrees(b: Block, history: spec_fn(ID) -> Unit) -> bool {
    b.wf() && forall|j: int|
        0 <= j < b.spec_len() ==> lasting(#[trigger] b.unit(j)) == history(
            ID { client: b.spec_id().client, clock: (b.clock() + j) as u32 },
        )
}

/// Every item of the update agrees with `history`.
pub open spec fn update_agrees(u: Update, history: spec_fn(ID) -> Unit) -> bool {
    forall|x: Block| #[trigger] u.holds(x) && x is Item ==> block_agrees(x, history)
}

/// Every item of the update that is pending in the store agrees with
/// `history`.
pub open spec fn pending_agrees(store: Store, history: spec_fn(ID) -> Unit) -> bool {
    forall|x: Block| #[trigger] pending_holds(store, x) && x is Item ==> block_agrees(x, history)
}

/// A store that agrees with a history of units, and is given only items
/// that agree with it, goes on to agree with it: applying updates never
/// gives a known unit another content, origin or container.
pub proof fn law_agreement(
    t0: Transaction,
    t1: Transaction,
    update: Update,
    all: Set<ID>,
    history: spec_fn(ID) -> Unit,
)
    requires
        t0.wf(),
        advanced(t0, t1, all),
        all_new_supplied(update, t0.store, t1),
        kept(update, t0.store, t1),
        store_agrees(t0.store.blocks, history),
        update_agrees(update, history),
        pending_agrees(t0.store, history),
    ensures
        store_agrees(t1.store.blocks, history),
        pending_agrees(t1.store, history),
{
    let s0 = t0.store.blocks;
    let s1 = t1.store.blocks;
    lemma_view(s0);
    lemma_view(s1);
    assert forall|c: u64, k: int| 0 <= k < s1.state(c) implies (#[trigger] s1.units(
        c,
    )[k]) is Tombstone || lasting(s1.units(c)[k]) == history(
        ID { client: c, clock: k as u32 },
    ) by {
        let u1 = s1.units(c)[k];
        if k < s0.state(c) {
            let u0 = s0.units(c)[k];
            assert(u1.with_next(None) == (if all.contains(ID { client: c, clock: k as u32 }) {
                u0.tombstoned()
            } else {
                u0
            }).with_next(None));
        } else {
            if came(update.clients@, s1, c, k) {
                let (ci, i) = choose|ci: int, i: int| came_from(update.clients@, s1, c, k, ci, i);
                let x = update.clients@[ci].blocks@[i];
                assert(update.holds_at(ci, i, x));
                assert(update.holds(x));
                if x is Item {
                    assert(block_agrees(x, history));
                    assert(lasting(x.unit(k - x.clock())) == history(
                        ID { client: c, clock: (x.clock() + (k - x.clock())) as u32 },
                    ));
                }
            } else {
                let q = t0.store.pending->0.update;
                let (ci, i) = choose|ci: int, i: int| came_from(q.clients@, s1, c, k, ci, i);
                let x = q.clients@[ci].blocks@[i];
                assert(q.holds_at(ci, i, x));
                assert(pending_holds(t0.store, x));
                if x is Item {
                    assert(block_agrees(x, history));
                    assert(lasting(x.unit(k - x.clock())) == history(
                        ID { client: c, clock: (x.clock() + (k - x.clock())) as u32 },
                    ));
                }
            }
        }
    }
    assert forall|x: Block| #[trigger] pending_holds(t1.store, x) && x is Item implies block_agrees(
        x,
        history,
    ) by {
        assert(update.holds(x) || pending_holds(t0.store, x));
    }
}

/// Two stores that agree with one history agree with each other: a unit
/// that both know is, but for what can change, the same in both, unless
/// one of them holds a tombstone in its place.
pub proof fn law_same_units(s1: BlockStore, s2: BlockStore, history: spec_fn(ID) -> Unit)
    requires
        store_agrees(s1, history),
        store_agrees(s2, history),
    ensures
        forall|c: u64, k: int|
            0 <= k < s1.state(c) && k < s2.state(c) ==> (#[trigger] s1.units(c)[k]) is Tombstone
                || s2.units(c)[k] is Tombstone || lasting(s1.units(c)[k]) == lasting(
                s2.units(c)[k],
            ),
{
    assert forall|c: u64, k: int| 0 <= k < s1.state(c) && k < s2.state(c) implies (
    #[trigger] s1.units(c)[k]) is Tombstone || s2.units(c)[k] is Tombstone || lasting(
        s1.units(c)[k],
    ) == lasting(s2.units(c)[k]) by {
        let u2 = s2.units(c)[k];
    }
}

/// The unit that follows the unit `id` in the order of its container.
pub open spec fn next_of(s: BlockStore, id: ID) -> Option<ID> {
    match s.units(id.client)[id.clock as int] {
        Unit::Item(u) => u.next,
        Unit::Tombstone => None,
    }
}

/// What follows a known unit: within its block the next clock, after its
/// last unit the right neighbour of the block.
pub proof fn lemma_next_of(s: BlockStore, id: ID) -> (start: ID)
    requires
        s.wf(),
        id.clock < s.state(id.client),
    ensures
        s.is_start(start),
        start.client == id.client,
        start.clock <= id.clock < s.block_at(start)->0.spec_clock_end(),
        s.block_at(start)->0.spec_id() == start,
        s.block_at(start)->0.wf(),
        match s.block_at(start)->0 {
            Block::Item(x) => s.item_at(start) == Some(x) && next_of(s, id) == (if id.clock + 1
                < x.id.clock + x.spec_len() {
                Some(ID { client: id.client, clock: (id.clock + 1) as u32 })
            } else {
                x.right
            }),
            Block::GC(_) => next_of(s, id) is None,
        },
{
    let c = id.client;
    let k = id.clock as int;
    let list = s.list_of(c);
    s.lemma_list_wf(c);
    lemma_list_covered(list, c, k);
    let i = list_pivot(list, k);
    s.lemma_block_index(c, i);
    s.lemma_unit(c, i, k);
    let start = list[i].spec_id();
    lemma_block_extent(s, start);
    start
}

/// No unit follows two units.
pub proof fn lemma_one_before(s: BlockStore, a: ID, b: ID, x: ID)
    requires
        s.wf(),
        s.links_wf(),
        a.clock < s.state(a.client),
        b.clock < s.state(b.client),
        next_of(s, a) == Some(x),
        next_of(s, b) == Some(x),
    ensures
        a == b,
{
    let sa = lemma_next_of(s, a);
    let sb = lemma_next_of(s, b);
    let ba = s.block_at(sa)->0;
    let bb = s.block_at(sb)->0;
    let xa = ba->Item_0;
    let xb = bb->Item_0;
    lemma_block_extent(s, sa);
    lemma_block_extent(s, sb);
    assert(s.link_ok(xa));
    assert(s.link_ok(xb));
    let a_last = !(a.clock + 1 < xa.id.clock + xa.spec_len());
    let b_last = !(b.clock + 1 < xb.id.clock + xb.spec_len());
    if a_last && b_last {
        assert(s.item_at(x) is Some);
        assert(sa == sb);
    } else if a_last {
        assert(s.item_at(x) is Some);
        assert(s.is_start(x));
    } else if b_last {
        assert(s.item_at(x) is Some);
        assert(s.is_start(x));
    }
}

/// The unit `i + 1` of a walk is what follows unit `i`, and every unit of
/// a walk but the last is a known unit of an item.
pub proof fn lemma_walk_at(s: BlockStore, from: Option<ID>, fuel: nat, i: int)
    requires
        s.wf(),
        0 <= i < walk(s@, from, fuel).len(),
    ensures
        from is Some,
        walk(s@, from, fuel)[0] == from->0,
        walk(s@, from, fuel)[i].clock < s.state(walk(s@, from, fuel)[i].client),
        i + 1 < walk(s@, from, fuel).len() ==> next_of(s, walk(s@, from, fuel)[i]) == Some(
            walk(s@, from, fuel)[i + 1],
        ),
    decreases fuel,
{
    lemma_view(s);
    let id = from->0;
    assert(known(s@, id));
    assert(s@[id.client] == s.units(id.client));
    match s.units(id.client)[id.clock as int] {
        Unit::Item(u) => {
            let rest = walk(s@, u.next, (fuel - 1) as nat);
            assert(walk(s@, from, fuel) == seq![id] + rest);
            if i > 0 {
                lemma_walk_at(s, u.next, (fuel - 1) as nat, i - 1);
                assert(walk(s@, from, fuel)[i] == rest[i - 1]);
                if i + 1 < walk(s@, from, fuel).len() {
                    assert(walk(s@, from, fuel)[i + 1] == rest[i]);
                }
            } else {
                if 1 < walk(s@, from, fuel).len() {
                    lemma_walk_at(s, u.next, (fuel - 1) as nat, 0);
                    assert(walk(s@, from, fuel)[1] == rest[0]);
                }
            }
        },
        Unit::Tombstone => {},
    }
}

/// In a sound store the order of a container has no cycle: followed from
/// the start of the container, no unit is met twice, however far one goes.
pub proof fn law_order_acyclic(
    store: Store,
    ptr: TypePtr,
    sub: Option<Seq<char>>,
    fuel: nat,
    i: int,
    j: int,
)
    requires
        store.wf(),
        0 <= i < j < store.order(ptr, sub, fuel).len(),
    ensures
        store.order(ptr, sub, fuel)[i] != store.order(ptr, sub, fuel)[j],
    decreases j,
{
    let s = store.blocks;
    let from = store.head_of(ptr, sub);
    let w = walk(s@, from, fuel);
    lemma_walk_at(s, from, fuel, i);
    lemma_walk_at(s, from, fuel, j);
    lemma_walk_at(s, from, fuel, j - 1);
    if w[i] == w[j] {
        if i == 0 {
            // the start of a container follows no unit
            let h = from->0;
            let k = choose|k: int| crate::store::node_at(store.types@, ptr, sub, k);
            assert(crate::store::node_at(store.types@, ptr, sub, k));
            assert(store.types[k].start == Some(h));
            assert(store.head_ok(k, h));
            let p = w[j - 1];
            let sp = lemma_next_of(s, p);
            let bp = s.block_at(sp)->0;
            let _ = s.lemma_block_at(h);
            lemma_block_extent(s, sp);
            assert(s.is_start(h));
            if bp is Item {
                assert(s.link_ok(bp->Item_0));
            }
        } else {
            lemma_walk_at(s, from, fuel, i - 1);
            lemma_one_before(s, w[i - 1], w[j - 1], w[i]);
            law_order_acyclic(store, ptr, sub, fuel, i - 1, j - 1);
        }
    }
}


/// Deleting the units of `ds` would change nothing in `s`: each unit of
/// `ds` that is known is deleted, and a block starts at the first clock of
/// each range that is known.
pub open spec fn deleted_already(s: BlockStore, ds: IdSet) -> bool {
    &&& forall|id: ID|
        ds@.contains(id) && known(s@, id) ==> (#[trigger] unit_at(s@, id)).deleted()
    &&& forall|ci: int, ri: int|
        0 <= ci < ds.clients@.len() && 0 <= ri < ds.clients[ci].ranges@.len() && (
        #[trigger] ds.clients[ci].ranges@[ri]).start < s.state(ds.clients[ci].client)
            ==> s.is_start(
            ID { client: ds.clients[ci].client, clock: ds.clients[ci].ranges@[ri].start },
        )
}

/// The two transactions hold the same units in the same blocks, the same
/// records, the same pending update, and the same deletions wait in both.
pub open spec fn unchanged(old: Transaction, new: Transaction) -> bool {
    &&& new.store.blocks@ == old.store.blocks@
    &&& forall|id: ID| #[trigger] new.store.blocks.is_start(id) == old.store.blocks.is_start(id)
    &&& forall|c: u64| #[trigger] new.store.blocks.state(c) == old.store.blocks.state(c)
    &&& new.merge_blocks@ == old.merge_blocks@
    &&& new.delete_set@ == old.delete_set@
    &&& new.changed_view() == old.changed_view()
    &&& new.timestamp == old.timestamp
    &&& new.store.pending == old.store.pending
    &&& waiting(new.store) == waiting(old.store)
}

/// The set holds every clock of each of its ranges.
pub proof fn lemma_range_held(ds: IdSet, ci: int, ri: int, k: int)
    requires
        ds.wf(),
        0 <= ci < ds.clients@.len(),
        0 <= ri < ds.clients[ci].ranges@.len(),
        ds.clients[ci].ranges@[ri].start <= k < ds.clients[ci].ranges@[ri].end,
    ensures
        ds@.contains(ID { client: ds.clients[ci].client, clock: k as u32 }),
        ds.clients[ci].ranges@[ri].start < ds.clients[ci].ranges@[ri].end,
{
    let client = ds.clients[ci].client;
    assert(ds.has(client, ci));
    ds.lemma_ranges_of(client, ci);
    assert(range_holds(ds.ranges_of(client), ri, k));
}

/// A range of a set whose units are deleted already, where they are
/// known, asks for no cut.
pub proof fn lemma_range_cuts_nothing(s: BlockStore, ds: IdSet, ci: int, ri: int)
    requires
        s.wf(),
        ds.wf(),
        deleted_already(s, ds),
        0 <= ci < ds.clients@.len(),
        0 <= ri < ds.clients[ci].ranges@.len(),
    ensures
        range_cut(
            s,
            ds.clients[ci].client,
            ds.clients[ci].ranges@[ri].start,
            ds.clients[ci].ranges@[ri].end,
        ) == Seq::<ID>::empty(),
        !cuts_end(s, ds.clients[ci].client, ds.clients[ci].ranges@[ri].end as int)
            || ds.clients[ci].ranges@[ri].start >= s.state(ds.clients[ci].client),
{
    let client = ds.clients[ci].client;
    let r = ds.clients[ci].ranges@[ri];
    lemma_view(s);
    if r.start < s.state(client) {
        lemma_range_held(ds, ci, ri, r.end - 1);
        let last = ID { client, clock: (r.end - 1) as u32 };
        if r.end < s.state(client) {
            assert(known(s@, last));
            assert(unit_at(s@, last).deleted());
            assert(s.spec_contains_client(client));
            assert(s@[client] == s.units(client));
        }
        assert(!cuts_end(s, client, r.end as int));
        assert(s.is_start(ID { client, clock: r.start }));
        assert(Seq::<ID>::empty() + Seq::<ID>::empty() =~= Seq::<ID>::empty());
    }
}

/// The ranges of a set whose units are deleted already, where they are
/// known, ask for no cut.
pub proof fn lemma_entry_cuts_nothing(s: BlockStore, ds: IdSet, ci: int, ri: int)
    requires
        s.wf(),
        ds.wf(),
        deleted_already(s, ds),
    ensures
        entry_cuts(ds, s, ci, ri) == Seq::<ID>::empty(),
    decreases ri,
{
    if ri <= 0 || ci < 0 || ci >= ds.clients@.len() || ri > ds.clients@[ci].ranges@.len() {
    } else {
        lemma_entry_cuts_nothing(s, ds, ci, ri - 1);
        lemma_range_cuts_nothing(s, ds, ci, ri - 1);
        assert(Seq::<ID>::empty() + Seq::<ID>::empty() =~= Seq::<ID>::empty());
    }
}

/// A set whose units are deleted already, where they are known, asks for
/// no cut.
pub proof fn lemma_set_cuts_nothing(s: BlockStore, ds: IdSet, ci: int)
    requires
        s.wf(),
        ds.wf(),
        deleted_already(s, ds),
    ensures
        set_cuts(ds, s, ci) == Seq::<ID>::empty(),
    decreases ci,
{
    if ci <= 0 || ci > ds.clients@.len() {
    } else {
        lemma_set_cuts_nothing(s, ds, ci - 1);
        lemma_entry_cuts_nothing(s, ds, ci - 1, ds.clients@[ci - 1].ranges@.len() as int);
        assert(Seq::<ID>::empty() + Seq::<ID>::empty() =~= Seq::<ID>::empty());
    }
}

/// Deleting units that are deleted already, where they are known, changes
/// nothing: not the units, not the blocks, and no record of the
/// transaction.
pub proof fn law_delete_nothing(old: Transaction, new: Transaction, ds: IdSet)
    requires
        old.wf(),
        ds.wf(),
        deleted_by(old, new, ds),
        deleted_already(old.store.blocks, ds),
    ensures
        new.store.blocks@ == old.store.blocks@,
        forall|id: ID| #[trigger] new.store.blocks.is_start(id) == old.store.blocks.is_start(id),
        forall|c: u64| #[trigger] new.store.blocks.state(c) == old.store.blocks.state(c),
        new.merge_blocks@ == old.merge_blocks@,
        new.delete_set@ == old.delete_set@,
        new.changed_view() == old.changed_view(),
        new.timestamp == old.timestamp,
        new.store == (Store { blocks: new.store.blocks, ..old.store }),
        new.wf(),
{
    reveal(deleted_by);
    let s = old.store.blocks;
    let units = s@;
    lemma_view(s);
    assert(tombstone(units, ds@) =~= units) by {
        assert forall|c: u64| units.contains_key(c) implies #[trigger] tombstone(units, ds@)[c]
            =~= units[c] by {
            assert forall|k: int| 0 <= k < units[c].len() implies tombstone(units, ds@)[c][k]
                == units[c][k] by {
                let id = ID { client: c, clock: k as u32 };
                if ds@.contains(id) {
                    assert(known(units, id));
                    assert(unit_at(units, id).deleted());
                }
            }
        }
    }
    assert(live_in(units, ds@) =~= Set::<ID>::empty()) by {
        assert forall|id: ID| !live_in(units, ds@).contains(id) by {
            if ds@.contains(id) && known(units, id) {
                assert(unit_at(units, id).deleted());
            }
        }
    }
    assert(touched(units, Set::<ID>::empty(), old.timestamp@) =~= Set::<
        (TypePtr, Option<Seq<char>>),
    >::empty());
    assert(new.delete_set@ =~= old.delete_set@);
    assert(new.changed_view() =~= old.changed_view());
    lemma_set_cuts_nothing(s, ds, ds.clients@.len() as int);
    assert(new.merge_blocks@ =~= old.merge_blocks@);
    assert forall|id: ID| #[trigger] new.store.blocks.is_start(id) == s.is_start(id) by {
        if cut_upto(ds, s, ds.clients@.len() as int, 0, id) {
            let (c, r) = choose|c: int, r: int|
                (c < ds.clients@.len() || (c == ds.clients@.len() && r < 0)) && #[trigger] cut_by(
                    ds,
                    s,
                    c,
                    r,
                    id,
                );
            lemma_range_cuts_nothing(s, ds, c, r);
            assert(ds.clients[c].ranges@[r].start < s.state(ds.clients[c].client));
            assert(s.is_start(
                ID { client: ds.clients[c].client, clock: ds.clients[c].ranges@[r].start },
            ));
        }
    }
}

/// What deleting leaves is deleted already: a second time changes
/// nothing.
pub proof fn law_deleted_is_deleted_already(old: Transaction, new: Transaction, ds: IdSet)
    requires
        old.wf(),
        ds.wf(),
        deleted_by(old, new, ds),
    ensures
        deleted_already(new.store.blocks, ds),
{
    reveal(deleted_by);
    let s = old.store.blocks;
    let n = new.store.blocks;
    lemma_view(s);
    lemma_view(n);
    assert forall|id: ID| ds@.contains(id) && known(n@, id) implies (#[trigger] unit_at(
        n@,
        id,
    )).deleted() by {
        assert(known(s@, id));
    }
    assert forall|ci: int, ri: int|
        0 <= ci < ds.clients@.len() && 0 <= ri < ds.clients[ci].ranges@.len() && (
        #[trigger] ds.clients[ci].ranges@[ri]).start < n.state(
            ds.clients[ci].client,
        ) implies n.is_start(
        ID { client: ds.clients[ci].client, clock: ds.clients[ci].ranges@[ri].start },
    ) by {
        let id = ID { client: ds.clients[ci].client, clock: ds.clients[ci].ranges@[ri].start };
        assert(n.state(id.client) == s.state(id.client));
        assert(cut_by(ds, s, ci, ri, id));
        assert(cut_upto(ds, s, ds.clients@.len() as int, 0, id));
    }
}

/// Placing blocks that the store knows already changes nothing.
pub proof fn law_place_known(old: Transaction, new: Transaction, blocks: Seq<Block>)
    requires
        placed_seq(old, new, blocks),
        forall|i: int|
            0 <= i < blocks.len() ==> (#[trigger] blocks[i]).spec_clock_end()
                <= old.store.blocks.state(blocks[i].spec_id().client),
    ensures
        new == old,
    decreases blocks.len(),
{
    if blocks.len() > 0 {
        let mid = choose|mid: Transaction|
            placed_seq(old, mid, blocks.drop_last()) && block_placed(mid, new, blocks.last());
        assert forall|i: int| 0 <= i < blocks.drop_last().len() implies (
        #[trigger] blocks.drop_last()[i]).spec_clock_end() <= old.store.blocks.state(
            blocks.drop_last()[i].spec_id().client,
        ) by {
            assert(blocks.drop_last()[i] == blocks[i]);
        }
        law_place_known(old, mid, blocks.drop_last());
        assert(blocks.last() == blocks[blocks.len() - 1]);
        reveal(block_placed);
    }
}

/// One round of applying again what the store has taken in is done,
/// asks for no second round, and changes nothing.
pub proof fn lemma_round_again(
    old: Transaction,
    mid: Transaction,
    update: Update,
    ds: IdSet,
    done: bool,
    retry: bool,
)
    requires
        old.wf(),
        update.wf(),
        ds.wf(),
        round(old, mid, update, ds, done, retry),
        forall|x: Block| #[trigger]
            update.holds(x) ==> x.spec_clock_end() <= old.store.blocks.state(x.spec_id().client),
        forall|id: ID| #[trigger] ds@.contains(id) ==> known(old.store.blocks@, id),
        deleted_already(old.store.blocks, ds),
        pending_settled(old),
        forall|id: ID| #[trigger] waiting(old.store).contains(id) ==> !known(old.store.blocks@, id),
    ensures
        done,
        !retry,
        unchanged(old, mid),
{
    let (tb, rem, tc) = choose|tb: Transaction, rem: Option<PendingUpdate>, tc: Transaction|
        round_by(old, tb, rem, tc, mid, update, ds, done, retry);
    reveal(round_by);
    let t = taken(old);
    let s = old.store.blocks;
    let all = ds@.union(waiting(old.store));
    lemma_wf_frame(old, t);
    lemma_view(s);
    let trace = choose|trace: Seq<Block>| placed_trace(update, t, tb, trace);
    law_place_known(t, tb, trace);
    assert(tb == t);
    if rem is Some {
        let p = rem->0;
        if forall|ci: int|
            0 <= ci < p.update.clients.len() ==> (#[trigger] p.update.clients[ci]).blocks@.len()
                == 0 {
            assert(p.update.spec_is_empty());
        }
        let ci = choose|ci: int|
            0 <= ci < p.update.clients.len() && (#[trigger] p.update.clients[ci]).blocks@.len()
                != 0;
        let rest = p.update.clients[ci];
        let head = rest.blocks@[0];
        assert(tb.waits_for(head) is Some);
        let d = update.clients[ci].blocks@.len() - rest.blocks@.len();
        assert(crate::update::left_of(update.clients[ci], rest, tb));
        assert(update.holds_at(ci, d, head));
        assert(update.holds(head));
        assert(false);
    }
    assert(clear_store(tb.store.blocks, all)) by {
        assert forall|id: ID|
            all.contains(id) && id.clock < s.state(id.client) implies !crate::model::live_cascade(
            #[trigger] s.units(id.client)[id.clock as int],
        ) by {
            assert(known(s@, id));
            if ds@.contains(id) {
                assert(unit_at(s@, id).deleted());
                assert(s.spec_contains_client(id.client));
                assert(s@[id.client] == s.units(id.client));
            } else {
                assert(waiting(old.store).contains(id));
            }
        }
    }
    assert(done);
    law_delete_nothing(tb, tc, ds);
    lemma_view(tc.store.blocks);
    match old.store.pending_ds {
        Some(d) => {
            assert(waiting(old.store) == d@);
            assert(deleted_already(tc.store.blocks, d)) by {
                assert forall|id: ID| d@.contains(id) && known(tc.store.blocks@, id) implies (
                #[trigger] unit_at(tc.store.blocks@, id)).deleted() by {
                    assert(tc.store.blocks.state(id.client) == s.state(id.client));
                    assert(known(s@, id));
                    assert(waiting(old.store).contains(id));
                }
                assert forall|ci: int, ri: int|
                    0 <= ci < d.clients@.len() && 0 <= ri < d.clients[ci].ranges@.len() && (
                    #[trigger] d.clients[ci].ranges@[ri]).start < tc.store.blocks.state(
                        d.clients[ci].client,
                    ) implies tc.store.blocks.is_start(
                    ID { client: d.clients[ci].client, clock: d.clients[ci].ranges@[ri].start },
                ) by {
                    let id = ID {
                        client: d.clients[ci].client,
                        clock: d.clients[ci].ranges@[ri].start,
                    };
                    lemma_range_held(d, ci, ri, id.clock as int);
                    assert(waiting(old.store).contains(id));
                    assert(tc.store.blocks.state(id.client) == s.state(id.client));
                    assert(known(s@, id));
                }
            }
            law_delete_nothing(tc, taken(mid), d);
        },
        None => {},
    }
    assert(waiting(mid.store) =~= waiting(old.store)) by {
        assert forall|id: ID| unknown_in(tb.store.blocks@, all).contains(id) == waiting(
            old.store,
        ).contains(id) by {
            if ds@.contains(id) {
                assert(known(s@, id));
            }
        }
    }
    assert(!retry) by {
        if old.store.pending is Some {
            let was = old.store.pending->0;
            assert forall|c: u64| was.missing@.contains_key(c) implies !(#[trigger] was.missing@[c]
                < tb.store.blocks.state(c)) by {}
        }
    }
    assert(mid.store.blocks == taken(mid).store.blocks);
}

/// Applying again what the store has taken in changes nothing. Where the
/// store knows every unit of every block of the update and every unit of
/// the deletions, where these units are deleted and a block starts at the
/// first clock of each of their ranges, as deleting them has left it,
/// where the store knows no unit that its pending update is said to wait
/// for, and none of the deletions that wait in it: the call succeeds, and
/// the units, the blocks, the records of the transaction, the pending
/// update and the deletions that wait are what they were.
pub proof fn law_apply_again(
    old: Transaction,
    new: Transaction,
    update: Update,
    ds: IdSet,
    ok: bool,
)
    requires
        old.wf(),
        update.wf(),
        ds.wf(),
        applied(old, new, update, ds, ok),
        forall|x: Block| #[trigger]
            update.holds(x) ==> x.spec_clock_end() <= old.store.blocks.state(x.spec_id().client),
        forall|id: ID| #[trigger] ds@.contains(id) ==> known(old.store.blocks@, id),
        deleted_already(old.store.blocks, ds),
        pending_settled(old),
        forall|id: ID| #[trigger] waiting(old.store).contains(id) ==> !known(old.store.blocks@, id),
    ensures
        ok,
        unchanged(old, new),
{
    let (mid, done, retry) = choose|mid: Transaction, done: bool, retry: bool|
        #![trigger round(old, mid, update, ds, done, retry)]
        round(old, mid, update, ds, done, retry) && (if retry {
            mid.store.pending is Some && exists|ds2: IdSet, done2: bool|
                #![trigger round(taken(mid), new, mid.store.pending->0.update, ds2, done2, false)]
                waits_as(mid.store, ds2) && ok == done2 && round(
                    taken(mid),
                    new,
                    mid.store.pending->0.update,
                    ds2,
                    done2,
                    false,
                )
        } else {
            new == mid && ok == done
        });
    lemma_round_again(old, mid, update, ds, done, retry);
}

/// The two transactions hold the same document: the same units in the
/// same blocks, every container starting as it did, and the same records.
/// What is pending and what waits may differ.
pub open spec fn same_document(old: Transaction, new: Transaction) -> bool {
    &&& new.store.blocks@ == old.store.blocks@
    &&& forall|id: ID| #[trigger] new.store.blocks.is_start(id) == old.store.blocks.is_start(id)
    &&& forall|c: u64| #[trigger] new.store.blocks.state(c) == old.store.blocks.state(c)
    &&& new.store.types == old.store.types
    &&& new.merge_blocks@ == old.merge_blocks@
    &&& new.delete_set@ == old.delete_set@
    &&& new.changed_view() == old.changed_view()
    &&& new.timestamp == old.timestamp
}

/// Placing blocks of which each is known already or waits for a unit
/// changes nothing.
pub proof fn law_place_nothing(old: Transaction, new: Transaction, blocks: Seq<Block>)
    requires
        placed_seq(old, new, blocks),
        forall|i: int|
            0 <= i < blocks.len() ==> (#[trigger] blocks[i]).spec_clock_end()
                <= old.store.blocks.state(blocks[i].spec_id().client) || old.waits_for(blocks[i])
                is Some,
    ensures
        new == old,
    decreases blocks.len(),
{
    if blocks.len() > 0 {
        let mid = choose|mid: Transaction|
            placed_seq(old, mid, blocks.drop_last()) && block_placed(mid, new, blocks.last());
        assert forall|i: int| 0 <= i < blocks.drop_last().len() implies (
        #[trigger] blocks.drop_last()[i]).spec_clock_end() <= old.store.blocks.state(
            blocks.drop_last()[i].spec_id().client,
        ) || old.waits_for(blocks.drop_last()[i]) is Some by {
            assert(blocks.drop_last()[i] == blocks[i]);
        }
        law_place_nothing(old, mid, blocks.drop_last());
        assert(blocks.last() == blocks[blocks.len() - 1]);
        reveal(block_placed);
    }
}

/// One round of applying what brings nothing that can be placed or
/// deleted is done, asks for no second round, and leaves the document as
/// it was.
pub proof fn lemma_round_nothing(
    old: Transaction,
    mid: Transaction,
    update: Update,
    ds: IdSet,
    done: bool,
    retry: bool,
)
    requires
        old.wf(),
        update.wf(),
        ds.wf(),
        round(old, mid, update, ds, done, retry),
        forall|x: Block| #[trigger]
            update.holds(x) ==> x.spec_clock_end() <= old.store.blocks.state(x.spec_id().client)
                || old.waits_for(x) is Some,
        deleted_already(old.store.blocks, ds),
        pending_settled(old),
        forall|id: ID| #[trigger] waiting(old.store).contains(id) ==> !known(old.store.blocks@, id),
    ensures
        done,
        !retry,
        same_document(old, mid),
{
    let (tb, rem, tc) = choose|tb: Transaction, rem: Option<PendingUpdate>, tc: Transaction|
        round_by(old, tb, rem, tc, mid, update, ds, done, retry);
    reveal(round_by);
    let t = taken(old);
    let s = old.store.blocks;
    let all = ds@.union(waiting(old.store));
    lemma_wf_frame(old, t);
    lemma_view(s);
    let trace = choose|trace: Seq<Block>| placed_trace(update, t, tb, trace);
    law_place_nothing(t, tb, trace);
    assert(tb == t);
    assert(clear_store(tb.store.blocks, all)) by {
        assert forall|id: ID|
            all.contains(id) && id.clock < s.state(id.client) implies !crate::model::live_cascade(
            #[trigger] s.units(id.client)[id.clock as int],
        ) by {
            assert(known(s@, id));
            if ds@.contains(id) {
                assert(unit_at(s@, id).deleted());
                assert(s.spec_contains_client(id.client));
                assert(s@[id.client] == s.units(id.client));
            } else {
                assert(waiting(old.store).contains(id));
            }
        }
    }
    assert(done);
    law_delete_nothing(tb, tc, ds);
    lemma_view(tc.store.blocks);
    match old.store.pending_ds {
        Some(d) => {
            assert(waiting(old.store) == d@);
            assert(deleted_already(tc.store.blocks, d)) by {
                assert forall|id: ID| d@.contains(id) && known(tc.store.blocks@, id) implies (
                #[trigger] unit_at(tc.store.blocks@, id)).deleted() by {
                    assert(tc.store.blocks.state(id.client) == s.state(id.client));
                    assert(known(s@, id));
                    assert(waiting(old.store).contains(id));
                }
                assert forall|ci: int, ri: int|
                    0 <= ci < d.clients@.len() && 0 <= ri < d.clients[ci].ranges@.len() && (
                    #[trigger] d.clients[ci].ranges@[ri]).start < tc.store.blocks.state(
                        d.clients[ci].client,
                    ) implies tc.store.blocks.is_start(
                    ID { client: d.clients[ci].client, clock: d.clients[ci].ranges@[ri].start },
                ) by {
                    let id = ID {
                        client: d.clients[ci].client,
                        clock: d.clients[ci].ranges@[ri].start,
                    };
                    lemma_range_held(d, ci, ri, id.clock as int);
                    assert(waiting(old.store).contains(id));
                    assert(tc.store.blocks.state(id.client) == s.state(id.client));
                    assert(known(s@, id));
                }
            }
            law_delete_nothing(tc, taken(mid), d);
        },
        None => {},
    }
    assert(!retry) by {
        if old.store.pending is Some {
            let was = old.store.pending->0;
            assert forall|c: u64| was.missing@.contains_key(c) implies !(#[trigger] was.missing@[c]
                < tb.store.blocks.state(c)) by {}
        }
    }
    assert(mid.store.blocks == taken(mid).store.blocks);
    assert(mid.store.types == taken(mid).store.types);
}

/// Applying again what was applied before leaves the document as it
/// was, also where part of it still waits. Where no block of the update
/// can be placed, each being known already or waiting for a unit; where
/// the units of the deletions that are known are deleted, with a block
/// starting at the first clock of each range, as deleting them has left
/// it; where the store knows no unit that its pending update is said to
/// wait for, and none of the deletions that wait in it: the call
/// succeeds; no block is placed a second time, no unit is added, no
/// deleted unit is live again and no further unit deleted; every container
/// keeps its order; and the transaction records nothing.
pub proof fn law_apply_again_while_waiting(
    old: Transaction,
    new: Transaction,
    update: Update,
    ds: IdSet,
    ok: bool,
)
    requires
        old.wf(),
        update.wf(),
        ds.wf(),
        applied(old, new, update, ds, ok),
        forall|x: Block| #[trigger]
            update.holds(x) ==> x.spec_clock_end() <= old.store.blocks.state(x.spec_id().client)
                || old.waits_for(x) is Some,
        deleted_already(old.store.blocks, ds),
        pending_settled(old),
        forall|id: ID| #[trigger] waiting(old.store).contains(id) ==> !known(old.store.blocks@, id),
    ensures
        ok,
        same_document(old, new),
{
    let (mid, done, retry) = choose|mid: Transaction, done: bool, retry: bool|
        #![trigger round(old, mid, update, ds, done, retry)]
        round(old, mid, update, ds, done, retry) && (if retry {
            mid.store.pending is Some && exists|ds2: IdSet, done2: bool|
                #![trigger round(taken(mid), new, mid.store.pending->0.update, ds2, done2, false)]
                waits_as(mid.store, ds2) && ok == done2 && round(
                    taken(mid),
                    new,
                    mid.store.pending->0.update,
                    ds2,
                    done2,
                    false,
                )
        } else {
            new == mid && ok == done
        });
    lemma_round_nothing(old, mid, update, ds, done, retry);
}

/// A block put behind the blocks of its client leaves every client known
/// at least as far.
pub proof fn lemma_pushed_states(old: BlockStore, new: BlockStore, g: Block)
    requires
        pushed(old, new, g),
    ensures
        forall|c: u64| old.state(c) <= #[trigger] new.state(c),
{
    let client = g.spec_id().client;
    let was = old.list_of(client);
    let now = new.list_of(client);
    new.lemma_list_wf(client);
    assert(now == was.push(g));
    assert(now[was.len() as int] == g);
    assert(g.wf());
    if was.len() > 0 {
        assert(now[was.len() - 1] == was[was.len() - 1]);
        assert(now[was.len() as int].clock() == now[was.len() - 1].spec_clock_end());
    }
    assert(g.clock() == old.state(client));
    assert forall|c: u64| old.state(c) <= #[trigger] new.state(c) by {
        assert(new.state(c) == (if c == client {
            g.spec_clock_end()
        } else {
            old.state(c)
        }));
    }
}

/// Placing a block leaves every client known at least as far.
pub proof fn lemma_block_placed_states(old: Transaction, new: Transaction, b: Block)
    requires
        block_placed(old, new, b),
    ensures
        forall|c: u64| old.store.blocks.state(c) <= #[trigger] new.store.blocks.state(c),
{
    reveal(block_placed);
    reveal(landed);
    let state = old.store.blocks.state(b.spec_id().client);
    if old.waits_for(b) is Some || b.spec_clock_end() <= state {
    } else {
        match b {
            Block::GC(range) => {
                let g = Block::GC(
                    BlockRange {
                        id: ID { client: range.id.client, clock: state as u32 },
                        len: (range.id.clock + range.len - state) as u32,
                    },
                );
                assert(pushed(old.store.blocks, new.store.blocks, g));
                lemma_pushed_states(old.store.blocks, new.store.blocks, g);
            },
            Block::Item(item) => {
                let (rest, mid) = choose|rest: Item, mid: Transaction|
                    cut_off(item, (state - item.id.clock) as nat, rest) && landed(
                        old,
                        mid,
                        new,
                        rest,
                    );
                assert(landed(old, mid, new, rest));
                assert(same_but_cuts(old, mid));
                assert forall|c: u64| old.store.blocks.state(c) <= #[trigger] new.store.blocks.state(
                    c,
                ) by {
                    assert(mid.store.blocks.state(c) == old.store.blocks.state(c));
                    if gone_in(mid.store.blocks, rest) {
                        let g = Block::GC(BlockRange { id: rest.id, len: rest.spec_len() as u32 });
                        assert(pushed(mid.store.blocks, new.store.blocks, g));
                        lemma_pushed_states(mid.store.blocks, new.store.blocks, g);
                    } else {
                        let n = new.store.blocks.item_at(rest.id)->0;
                        assert(placed(mid, new, n));
                        assert(new.store.blocks.state(c) == (if c == n.id.client {
                            (n.id.clock + n.spec_len()) as nat
                        } else {
                            mid.store.blocks.state(c)
                        }));
                    }
                }
            },
        }
    }
}

/// Placing blocks one after the other leaves every client known at least
/// as far.
pub proof fn lemma_placed_seq_states(old: Transaction, new: Transaction, blocks: Seq<Block>)
    requires
        placed_seq(old, new, blocks),
    ensures
        forall|c: u64| old.store.blocks.state(c) <= #[trigger] new.store.blocks.state(c),
    decreases blocks.len(),
{
    if blocks.len() > 0 {
        let mid = choose|mid: Transaction|
            placed_seq(old, mid, blocks.drop_last()) && block_placed(mid, new, blocks.last());
        lemma_placed_seq_states(old, mid, blocks.drop_last());
        lemma_block_placed_states(mid, new, blocks.last());
        assert forall|c: u64| old.store.blocks.state(c) <= #[trigger] new.store.blocks.state(
            c,
        ) by {
            assert(old.store.blocks.state(c) <= mid.store.blocks.state(c));
        }
    }
}

/// Whether a block waits, and for what, depends on how far the clients
/// are known and on nothing else.
pub proof fn lemma_wanted_same_states(
    t1: Transaction,
    t2: Transaction,
    rest: Seq<UpdateBlocks>,
    upto: int,
)
    requires
        forall|c: u64| #[trigger] t1.store.blocks.state(c) == t2.store.blocks.state(c),
    ensures
        wanted(t1, rest, upto) == wanted(t2, rest, upto),
    decreases upto,
{
    if upto <= 0 || upto > rest.len() {
    } else {
        lemma_wanted_same_states(t1, t2, rest, upto - 1);
        if rest[upto - 1].blocks@.len() > 0 {
            lemma_waits_same_states(t1, t2, rest[upto - 1].blocks@[0]);
        }
    }
}

/// Whether a block waits, and for what, depends on how far the clients
/// are known and on nothing else.
pub proof fn lemma_waits_same_states(t1: Transaction, t2: Transaction, b: Block)
    requires
        forall|c: u64| #[trigger] t1.store.blocks.state(c) == t2.store.blocks.state(c),
    ensures
        t1.waits_for(b) == t2.waits_for(b),
{
    assert(t1.store.blocks.state(b.spec_id().client) == t2.store.blocks.state(b.spec_id().client));
    match b {
        Block::GC(_) => {},
        Block::Item(item) => {
            if item.origin is Some {
                assert(t1.store.blocks.state(item.origin->0.client) == t2.store.blocks.state(
                    item.origin->0.client,
                ));
            }
            if item.right_origin is Some {
                assert(t1.store.blocks.state(item.right_origin->0.client)
                    == t2.store.blocks.state(item.right_origin->0.client));
            }
            if item.parent is Id {
                assert(t1.store.blocks.state(item.parent->Id_0.client) == t2.store.blocks.state(
                    item.parent->Id_0.client,
                ));
            }
        },
    }
}

/// What placing the blocks of an update has come to is said of how far
/// the clients are known: it holds of every store that knows them as far.
pub proof fn lemma_integrated_same_states(
    all: Update,
    t1: Transaction,
    t2: Transaction,
    r: Option<PendingUpdate>,
)
    requires
        integrated(all, t1, r),
        forall|c: u64| #[trigger] t1.store.blocks.state(c) == t2.store.blocks.state(c),
    ensures
        integrated(all, t2, r),
{
    match r {
        None => {
            assert forall|ci: int, i: int|
                0 <= ci < all.clients.len() && 0 <= i < all.clients[ci].blocks@.len() implies (
            #[trigger] all.clients[ci].blocks@[i]).spec_clock_end() <= t2.store.blocks.state(
                all.clients[ci].client,
            ) by {
                assert(t1.store.blocks.state(all.clients[ci].client) == t2.store.blocks.state(
                    all.clients[ci].client,
                ));
            }
        },
        Some(p) => {
            assert forall|ci: int| 0 <= ci < all.clients.len() implies left_of(
                all.clients[ci],
                #[trigger] p.update.clients[ci],
                t2,
            ) by {
                assert(left_of(all.clients[ci], p.update.clients[ci], t1));
                let blocks = all.clients[ci].blocks@;
                assert forall|i: int|
                    0 <= i < blocks.len() - p.update.clients[ci].blocks@.len() && i
                        < blocks.len() implies (#[trigger] blocks[i]).spec_clock_end()
                    <= t2.store.blocks.state(blocks[i].spec_id().client) by {
                    assert(t1.store.blocks.state(blocks[i].spec_id().client)
                        == t2.store.blocks.state(blocks[i].spec_id().client));
                }
            }
            assert forall|c: u64| p.missing@.contains_key(c) implies #[trigger] p.missing@[c]
                >= t2.store.blocks.state(c) by {
                assert(t1.store.blocks.state(c) == t2.store.blocks.state(c));
            }
            lemma_wanted_same_states(t1, t2, p.update.clients@, p.update.clients@.len() as int);
            assert forall|ci: int|
                0 <= ci < p.update.clients.len() && (#[trigger] p.update.clients[ci]).blocks@.len()
                    > 0 implies t2.waits_for(p.update.clients[ci].blocks@[0]) is Some by {
                lemma_waits_same_states(t1, t2, p.update.clients[ci].blocks@[0]);
            }
        },
    }
}

/// Block `i` of entry `ci` is `x`.
pub open spec fn held_at(clients: Seq<UpdateBlocks>, ci: int, i: int, x: Block) -> bool {
    0 <= ci < clients.len() && 0 <= i < clients[ci].blocks@.len() && clients[ci].blocks@[i] == x
}

/// One of the entries holds the block `x`.
pub open spec fn held(clients: Seq<UpdateBlocks>, x: Block) -> bool {
    exists|ci: int, i: int| held_at(clients, ci, i, x)
}

/// Number of blocks that the entries hold.
pub open spec fn count(clients: Seq<UpdateBlocks>) -> nat {
    flat(clients, clients.len() as int).len()
}

/// A block goes to a place among the blocks, or behind them.
pub proof fn lemma_slot_bounds(blocks: Seq<Block>, clock: nat)
    ensures
        0 <= slot(blocks, clock) <= blocks.len(),
    decreases blocks.len(),
{
    if blocks.len() == 0 || blocks.last().clock() <= clock {
    } else {
        lemma_slot_bounds(blocks.drop_last(), clock);
    }
}

/// Entries that hold as many blocks each hold as many together.
pub proof fn lemma_flat_len(a: Seq<UpdateBlocks>, b: Seq<UpdateBlocks>, ci: int, n: int)
    requires
        0 <= n <= a.len(),
        n <= b.len(),
        forall|k: int|
            0 <= k < n && k != ci ==> (#[trigger] a[k]).blocks@.len() == b[k].blocks@.len(),
        0 <= ci < n ==> b[ci].blocks@.len() == a[ci].blocks@.len() + 1,
    ensures
        flat(b, n).len() == flat(a, n).len() + (if 0 <= ci < n {
            1int
        } else {
            0int
        }),
    decreases n,
{
    if n > 0 {
        lemma_flat_len(a, b, ci, n - 1);
        assert(a[n - 1].blocks@.len() + (if ci == n - 1 {
            1int
        } else {
            0int
        }) == b[n - 1].blocks@.len());
    }
}

/// The blocks of the entries, one after the other, are the blocks that
/// the entries hold.
pub proof fn lemma_flat_held(clients: Seq<UpdateBlocks>, n: int, x: Block)
    requires
        0 <= n <= clients.len(),
    ensures
        flat(clients, n).contains(x) == (exists|ci: int, i: int|
            ci < n && held_at(clients, ci, i, x)),
    decreases n,
{
    if n > 0 {
        lemma_flat_held(clients, n - 1, x);
        let before = flat(clients, n - 1);
        let last = clients[n - 1].blocks@;
        if flat(clients, n).contains(x) {
            let j = choose|j: int| 0 <= j < flat(clients, n).len() && flat(clients, n)[j] == x;
            if j < before.len() {
                assert(before[j] == x);
                assert(before.contains(x));
                let (ci, i) = choose|ci: int, i: int| ci < n - 1 && held_at(clients, ci, i, x);
                assert(ci < n && held_at(clients, ci, i, x));
            } else {
                assert(last[j - before.len()] == x);
                assert(n - 1 < n && held_at(clients, n - 1, j - before.len(), x));
            }
        }
        if exists|ci: int, i: int| ci < n && held_at(clients, ci, i, x) {
            let (ci, i) = choose|ci: int, i: int| ci < n && held_at(clients, ci, i, x);
            if ci < n - 1 {
                assert(ci < n - 1 && held_at(clients, ci, i, x));
                assert(before.contains(x));
                let j = choose|j: int| 0 <= j < before.len() && before[j] == x;
                assert(flat(clients, n)[j] == x);
            } else {
                assert(flat(clients, n)[before.len() + i] == x);
            }
        }
    } else {
        if exists|ci: int, i: int| ci < n && held_at(clients, ci, i, x) {
            let (ci, i) = choose|ci: int, i: int| ci < n && held_at(clients, ci, i, x);
        }
    }
}

/// One block added: the entries hold what they held and the block, and
/// one block more.
pub proof fn lemma_inserted_one(old: Seq<UpdateBlocks>, new: Seq<UpdateBlocks>, b: Block)
    requires
        inserted(old, new, b),
        new.len() <= usize::MAX,
    ensures
        forall|x: Block| #[trigger] held(new, x) == (held(old, x) || x == b),
        count(new) == count(old) + 1,
        old.len() <= new.len(),
{
    match first_entry(old, b.spec_id().client) {
        Some(at) => {
            let j = choose|j: int| is_first_entry(old, b.spec_id().client, j);
            assert(is_first_entry(old, b.spec_id().client, j));
            let c = at as int;
            assert(c == j);
            let was = old[c].blocks@;
            let k = slot(was, b.clock());
            lemma_slot_bounds(was, b.clock());
            let now = new[c].blocks@;
            assert(now == was.insert(k, b));
            assert forall|x: Block| #[trigger] held(new, x) == (held(old, x) || x == b) by {
                if held(new, x) {
                    let (ci, i) = choose|ci: int, i: int| held_at(new, ci, i, x);
                    if ci != c {
                        assert(new[ci] == old[ci]);
                        assert(held_at(old, ci, i, x));
                    } else if i < k {
                        assert(held_at(old, c, i, x));
                    } else if i > k {
                        assert(held_at(old, c, i - 1, x));
                    }
                }
                if held(old, x) {
                    let (ci, i) = choose|ci: int, i: int| held_at(old, ci, i, x);
                    if ci != c {
                        assert(new[ci] == old[ci]);
                        assert(held_at(new, ci, i, x));
                    } else if i < k {
                        assert(held_at(new, c, i, x));
                    } else {
                        assert(now[i + 1] == was[i]);
                        assert(held_at(new, c, i + 1, x));
                    }
                }
                if x == b {
                    assert(now[k] == b);
                    assert(held_at(new, c, k, x));
                }
            }
            assert forall|q: int| 0 <= q < old.len() && q != c implies (#[trigger] old[q]).blocks@.len()
                == new[q].blocks@.len() by {
                assert(new[q] == old[q]);
            }
            lemma_flat_len(old, new, c, old.len() as int);
        },
        None => {
            let n = old.len() as int;
            assert forall|q: int| 0 <= q < n implies (#[trigger] old[q]).blocks@.len()
                == new[q].blocks@.len() by {
                assert(new[q] == old[q]);
            }
            lemma_flat_len(old, new, -1, n);
            assert(flat(new, n + 1).len() == flat(new, n).len() + 1);
            assert forall|x: Block| #[trigger] held(new, x) == (held(old, x) || x == b) by {
                if held(new, x) {
                    let (ci, i) = choose|ci: int, i: int| held_at(new, ci, i, x);
                    if ci < n {
                        assert(new[ci] == old[ci]);
                        assert(held_at(old, ci, i, x));
                    }
                }
                if held(old, x) {
                    let (ci, i) = choose|ci: int, i: int| held_at(old, ci, i, x);
                    assert(new[ci] == old[ci]);
                    assert(held_at(new, ci, i, x));
                }
                if x == b {
                    assert(held_at(new, n, 0, x));
                }
            }
        },
    }
}

/// Blocks added one after the other: the entries hold what they held and
/// the blocks, and as many blocks more.
pub proof fn lemma_all_inserted_holds(
    old: Seq<UpdateBlocks>,
    blocks: Seq<Block>,
    new: Seq<UpdateBlocks>,
)
    requires
        all_inserted(old, blocks, new),
        new.len() <= usize::MAX,
    ensures
        forall|x: Block| #[trigger] held(new, x) == (held(old, x) || blocks.contains(x)),
        count(new) == count(old) + blocks.len(),
        old.len() <= new.len(),
    decreases blocks.len(),
{
    if blocks.len() == 0 {
    } else {
        let mid = choose|mid: Seq<UpdateBlocks>|
            all_inserted(old, blocks.drop_last(), mid) && inserted(mid, new, blocks.last());
        lemma_inserted_one(mid, new, blocks.last());
        lemma_all_inserted_holds(old, blocks.drop_last(), mid);
        assert forall|x: Block| #[trigger] held(new, x) == (held(old, x) || blocks.contains(x)) by {
            assert(held(new, x) == (held(mid, x) || x == blocks.last()));
            assert(held(mid, x) == (held(old, x) || blocks.drop_last().contains(x)));
            if blocks.drop_last().contains(x) {
                let j = choose|j: int|
                    0 <= j < blocks.drop_last().len() && blocks.drop_last()[j] == x;
                assert(blocks[j] == x);
            }
            if blocks.contains(x) {
                let j = choose|j: int| 0 <= j < blocks.len() && blocks[j] == x;
                if j < blocks.len() - 1 {
                    assert(blocks.drop_last()[j] == x);
                }
            }
            assert(blocks[blocks.len() - 1] == blocks.last());
        }
    }
}

/// What is pending, `now`, is what was pending, `a`, with what was left
/// of an update, `rem`: `a` itself where nothing was left; and else it
/// waits for each client for the lower of the two clocks, holds just the
/// blocks that either holds, and as many blocks as both together.
pub open spec fn merged(a: PendingUpdate, rem: Option<PendingUpdate>, now: Option<PendingUpdate>) -> bool {
    &&& now is Some
    &&& match rem {
        None => now == Some(a),
        Some(r) => {
            &&& now->0.missing@ == lower(a.missing@, r.missing@)
            &&& forall|x: Block| #[trigger]
                now->0.update.holds(x) == (a.update.holds(x) || r.update.holds(x))
            &&& count(now->0.update.clients@) == count(a.update.clients@) + count(
                r.update.clients@,
            )
        },
    }
}

/// An update holds the blocks that its entries hold.
pub proof fn lemma_holds_held(u: Update, x: Block)
    ensures
        u.holds(x) == held(u.clients@, x),
{
    if u.holds(x) {
        let (ci, i) = choose|ci: int, i: int| u.holds_at(ci, i, x);
        assert(held_at(u.clients@, ci, i, x));
    }
    if held(u.clients@, x) {
        let (ci, i) = choose|ci: int, i: int| held_at(u.clients@, ci, i, x);
        assert(u.holds_at(ci, i, x));
    }
}

/// What `pending_after` says of a pending update and a remainder is that
/// they are merged.
pub proof fn law_pending_merged(a: PendingUpdate, rem: Option<PendingUpdate>, now: Option<PendingUpdate>)
    requires
        pending_after(Some(a), rem, now),
    ensures
        merged(a, rem, now),
{
    match rem {
        None => {},
        Some(r) => {
            let q = now->0;
            let added = flat(r.update.clients@, r.update.clients@.len() as int);
            assert(q.update.clients@.len() == q.update.clients.len());
            lemma_all_inserted_holds(a.update.clients@, added, q.update.clients@);
            assert forall|x: Block| #[trigger]
                q.update.holds(x) == (a.update.holds(x) || r.update.holds(x)) by {
                lemma_holds_held(q.update, x);
                lemma_holds_held(a.update, x);
                lemma_holds_held(r.update, x);
                lemma_flat_held(r.update.clients@, r.update.clients@.len() as int, x);
                assert(held(q.update.clients@, x) == (held(a.update.clients@, x) || added.contains(
                    x,
                )));
                if added.contains(x) {
                    let (ci, i) = choose|ci: int, i: int|
                        ci < r.update.clients@.len() && held_at(r.update.clients@, ci, i, x);
                    assert(held_at(r.update.clients@, ci, i, x));
                }
                if held(r.update.clients@, x) {
                    let (ci, i) = choose|ci: int, i: int| held_at(r.update.clients@, ci, i, x);
                    assert(ci < r.update.clients@.len() && held_at(r.update.clients@, ci, i, x));
                }
            }
        },
    }
}

/// What one round comes to for the clocks that are known: placing the
/// blocks leaves every client known at least as far, and deleting changes
/// nothing of it.
pub proof fn lemma_round_states(
    old: Transaction,
    tb: Transaction,
    rem: Option<PendingUpdate>,
    tc: Transaction,
    new: Transaction,
    update: Update,
    ds: IdSet,
    done: bool,
    retry: bool,
)
    requires
        round_by(old, tb, rem, tc, new, update, ds, done, retry),
    ensures
        forall|c: u64| old.store.blocks.state(c) <= #[trigger] tb.store.blocks.state(c),
        forall|c: u64| #[trigger] tb.store.blocks.state(c) == new.store.blocks.state(c),
        placed_from(update, taken(old), tb),
        integrated(update, new, rem),
        pending_after(old.store.pending, rem, new.store.pending),
        new.wf(),
        retry == (done && unblocked(old.store.pending, new.store.blocks)),
{
    reveal(round_by);
    let trace = choose|trace: Seq<Block>| placed_trace(update, taken(old), tb, trace);
    lemma_placed_seq_states(taken(old), tb, trace);
    assert forall|c: u64| #[trigger] tb.store.blocks.state(c) == new.store.blocks.state(c) by {
        assert(taken(new).store.blocks == new.store.blocks);
        if done {
            assert(taken(new).store.blocks.state(c) == tb.store.blocks.state(c));
        }
    }
    lemma_integrated_same_states(update, tb, new, rem);
    if old.store.pending is Some {
        let p = old.store.pending->0;
        if unblocked(old.store.pending, tb.store.blocks) {
            let c = choose|c: u64|
                p.missing@.contains_key(c) && #[trigger] p.missing@[c] < tb.store.blocks.state(c);
            assert(tb.store.blocks.state(c) == new.store.blocks.state(c));
            assert(p.missing@.contains_key(c) && p.missing@[c] < new.store.blocks.state(c));
        }
        if unblocked(old.store.pending, new.store.blocks) {
            let c = choose|c: u64|
                p.missing@.contains_key(c) && #[trigger] p.missing@[c] < new.store.blocks.state(c);
            assert(tb.store.blocks.state(c) == new.store.blocks.state(c));
            assert(p.missing@.contains_key(c) && p.missing@[c] < tb.store.blocks.state(c));
        }
    }
}

/// `new` is `old` after one round: the blocks of `update` were placed,
/// which left the clients known as far as `new` knows them, with `rem`
/// left over, and what is pending in `new` is as `pending_after` has it.
pub open spec fn one_round(
    old: Transaction,
    new: Transaction,
    update: Update,
    rem: Option<PendingUpdate>,
) -> bool {
    &&& exists|tb: Transaction|
        placed_from(update, taken(old), tb) && forall|c: u64| #[trigger]
            tb.store.blocks.state(c) == new.store.blocks.state(c)
    &&& integrated(update, new, rem)
    &&& pending_after(old.store.pending, rem, new.store.pending)
}

/// An update that meets a pending update which it does not unblock. Where
/// an update is pending, and after the call the store knows no unit that
/// the pending update was said to wait for: one round ran and no second;
/// the clients are known as far as placing the blocks of the update left
/// them, with the remainder waiting as `integrated` has it; and one
/// update is pending, which is what was pending merged with that
/// remainder: none of their blocks is lost, none is held twice over, and
/// it waits for each client for the lower of the two clocks.
pub proof fn law_pending_grows(
    old: Transaction,
    new: Transaction,
    update: Update,
    ds: IdSet,
    ok: bool,
)
    requires
        applied(old, new, update, ds, ok),
        old.store.pending is Some,
        forall|c: u64|
            old.store.pending->0.missing@.contains_key(c) ==> #[trigger] old.store.pending->0.missing@[c]
                >= new.store.blocks.state(c),
    ensures
        exists|rem: Option<PendingUpdate>| #[trigger]
            one_round(old, new, update, rem) && merged(old.store.pending->0, rem, new.store.pending),
{
    let p = old.store.pending->0;
    let (mid, done, retry) = choose|mid: Transaction, done: bool, retry: bool|
        #![trigger round(old, mid, update, ds, done, retry)]
        round(old, mid, update, ds, done, retry) && (if retry {
            mid.store.pending is Some && exists|ds2: IdSet, done2: bool|
                #![trigger round(taken(mid), new, mid.store.pending->0.update, ds2, done2, false)]
                waits_as(mid.store, ds2) && ok == done2 && round(
                    taken(mid),
                    new,
                    mid.store.pending->0.update,
                    ds2,
                    done2,
                    false,
                )
        } else {
            new == mid && ok == done
        });
    let (tb, rem, tc) = choose|tb: Transaction, rem: Option<PendingUpdate>, tc: Transaction|
        round_by(old, tb, rem, tc, mid, update, ds, done, retry);
    lemma_round_states(old, tb, rem, tc, mid, update, ds, done, retry);
    if retry {
        let c = choose|c: u64|
            p.missing@.contains_key(c) && #[trigger] p.missing@[c] < mid.store.blocks.state(c);
        let w = mid.store.pending->0.update;
        let (ds2, done2) = choose|ds2: IdSet, done2: bool|
            #![trigger round(taken(mid), new, w, ds2, done2, false)]
            waits_as(mid.store, ds2) && ok == done2 && round(taken(mid), new, w, ds2, done2, false);
        let (tb2, rem2, tc2) = choose|tb2: Transaction, rem2: Option<PendingUpdate>, tc2: Transaction|
            round_by(taken(mid), tb2, rem2, tc2, new, w, ds2, done2, false);
        lemma_round_states(taken(mid), tb2, rem2, tc2, new, w, ds2, done2, false);
        assert(mid.store.blocks.state(c) == taken(mid).store.blocks.state(c));
        assert(taken(mid).store.blocks.state(c) <= tb2.store.blocks.state(c));
        assert(tb2.store.blocks.state(c) == new.store.blocks.state(c));
        assert(false);
    }
    assert(new == mid);
    law_pending_merged(p, rem, new.store.pending);
    assert(one_round(old, new, update, rem));
}

/// An update that unblocks a pending update. Where an update is pending,
/// the call succeeds, and after it the store knows a unit that the
/// pending update was said to wait for: a second round ran over all that
/// was pending after the first, which was what had been pending merged
/// with what the first round left of the update. So the blocks of what
/// was pending are placed as far as `integrated` has it of the store after
/// the call: with nothing pending, the store knows every unit of every
/// block that was pending; else it knows, of each client, every block
/// before the first that waits, these are pending no longer, and the
/// blocks from that one on are pending with the units they wait for. No
/// block that was pending is lost.
pub proof fn law_retry_settles(
    old: Transaction,
    new: Transaction,
    update: Update,
    ds: IdSet,
)
    requires
        applied(old, new, update, ds, true),
        old.store.pending is Some,
        exists|c: u64|
            old.store.pending->0.missing@.contains_key(c) && #[trigger] old.store.pending->0.missing@[c]
                < new.store.blocks.state(c),
    ensures
        exists|mid: Transaction, rem: Option<PendingUpdate>| #[trigger]
            one_round(old, mid, update, rem) && merged(old.store.pending->0, rem, mid.store.pending)
                && integrated(mid.store.pending->0.update, new, new.store.pending),
        forall|x: Block|
            old.store.pending->0.update.holds(x) ==> x.spec_clock_end() <= new.store.blocks.state(
                x.spec_id().client,
            ) || #[trigger] pending_holds(new.store, x),
        new.store.pending is None ==> forall|x: Block| #[trigger]
            old.store.pending->0.update.holds(x) ==> x.spec_clock_end() <= new.store.blocks.state(
                x.spec_id().client,
            ),
{
    let p = old.store.pending->0;
    let (mid, done, retry) = choose|mid: Transaction, done: bool, retry: bool|
        #![trigger round(old, mid, update, ds, done, retry)]
        round(old, mid, update, ds, done, retry) && (if retry {
            mid.store.pending is Some && exists|ds2: IdSet, done2: bool|
                #![trigger round(taken(mid), new, mid.store.pending->0.update, ds2, done2, false)]
                waits_as(mid.store, ds2) && true == done2 && round(
                    taken(mid),
                    new,
                    mid.store.pending->0.update,
                    ds2,
                    done2,
                    false,
                )
        } else {
            new == mid && true == done
        });
    let (tb, rem, tc) = choose|tb: Transaction, rem: Option<PendingUpdate>, tc: Transaction|
        round_by(old, tb, rem, tc, mid, update, ds, done, retry);
    lemma_round_states(old, tb, rem, tc, mid, update, ds, done, retry);
    let c = choose|c: u64|
        p.missing@.contains_key(c) && #[trigger] p.missing@[c] < new.store.blocks.state(c);
    if !retry {
        assert(new == mid);
        assert(done);
        assert(p.missing@.contains_key(c) && p.missing@[c] < mid.store.blocks.state(c));
        assert(unblocked(old.store.pending, mid.store.blocks));
        assert(false);
    }
    let w = mid.store.pending->0;
    let (ds2, done2) = choose|ds2: IdSet, done2: bool|
        #![trigger round(taken(mid), new, w.update, ds2, done2, false)]
        waits_as(mid.store, ds2) && true == done2 && round(
            taken(mid),
            new,
            w.update,
            ds2,
            done2,
            false,
        );
    let (tb2, rem2, tc2) = choose|tb2: Transaction, rem2: Option<PendingUpdate>, tc2: Transaction|
        round_by(taken(mid), tb2, rem2, tc2, new, w.update, ds2, done2, false);
    lemma_round_states(taken(mid), tb2, rem2, tc2, new, w.update, ds2, done2, false);
    assert(new.store.pending == rem2);
    law_pending_merged(p, rem, mid.store.pending);
    assert(one_round(old, mid, update, rem));
    assert(one_round(old, mid, update, rem) && merged(p, rem, mid.store.pending) && integrated(
        mid.store.pending->0.update,
        new,
        new.store.pending,
    ));
    assert(mid.store.wf());
    assert(w.update.wf());
    if new.store.pending is None {
        assert forall|x: Block| #[trigger] p.update.holds(x) implies x.spec_clock_end()
            <= new.store.blocks.state(x.spec_id().client) by {
            assert(w.update.holds(x));
            let (k, j) = choose|k: int, j: int| w.update.holds_at(k, j, x);
            assert(blocks_wf(w.update.clients[k].blocks@, w.update.clients[k].client));
            assert(x.spec_id().client == w.update.clients[k].client);
        }
    }
    assert forall|x: Block| p.update.holds(x) implies x.spec_clock_end()
        <= new.store.blocks.state(x.spec_id().client) || #[trigger] pending_holds(new.store, x) by {
        assert(w.update.holds(x));
        let (k, j) = choose|k: int, j: int| w.update.holds_at(k, j, x);
        assert(blocks_wf(w.update.clients[k].blocks@, w.update.clients[k].client));
        assert(x.spec_id().client == w.update.clients[k].client);
        match rem2 {
            Some(r) => {
                assert(left_of(w.update.clients[k], r.update.clients[k], new));
                let all_b = w.update.clients[k].blocks@;
                let d = all_b.len() - r.update.clients[k].blocks@.len();
                if j >= d {
                    assert(r.update.holds_at(k, j - d, x));
                    assert(r.update.holds(x));
                } else {
                    assert(known_upto(new, all_b, d));
                }
            },
            None => {},
        }
    }
}

/// One call: the update and the deletions that it applies.
pub struct Call {
    pub update: Update,
    pub ds: IdSet,
}

/// What a call that applies `update` and `ds` and succeeds comes to, as
/// far as the laws on runs of calls need it.
pub open spec fn stepped(old: Transaction, new: Transaction, update: Update, ds: IdSet) -> bool {
    &&& advanced(old, new, ds@.union(waiting(old.store)))
    &&& kept(update, old.store, new)
    &&& all_new_supplied(update, old.store, new)
}

/// A run of successful calls, one for each of `steps` in their order:
/// `states` holds the transaction before the first call, which is `a`,
/// and after each call.
pub open spec fn ran(a: Transaction, steps: Seq<Call>, states: Seq<Transaction>) -> bool {
    &&& states.len() == steps.len() + 1
    &&& states[0] == a
    &&& forall|i: int|
        0 <= i < steps.len() ==> stepped(
            states[i],
            #[trigger] states[i + 1],
            steps[i].update,
            steps[i].ds,
        )
}

/// Update `i` of `steps`, one of the first `n`, holds the block `x`.
pub open spec fn step_holds(steps: Seq<Call>, n: int, i: int, x: Block) -> bool {
    0 <= i < n && i < steps.len() && steps[i].update.holds(x)
}

/// One of the first `n` updates of `steps`, or the update pending in `a`,
/// holds the block `x`.
pub open spec fn brought(steps: Seq<Call>, n: int, a: Transaction, x: Block) -> bool {
    pending_holds(a.store, x) || exists|i: int| step_holds(steps, n, i, x)
}

/// The block `x`, which was brought, holds clock `k` of client `c`.
pub open spec fn covers(steps: Seq<Call>, n: int, a: Transaction, c: u64, k: int, x: Block) -> bool {
    x.spec_id().client == c && x.clock() <= k < x.spec_clock_end() && brought(steps, n, a, x)
}

/// A block that was brought holds clock `k` of client `c`.
pub open spec fn covered(steps: Seq<Call>, n: int, a: Transaction, c: u64, k: int) -> bool {
    exists|x: Block| #[trigger] covers(steps, n, a, c, k, x)
}

/// The deletions of step `i` of `steps`, one of the first `n`, name the
/// unit `id`.
pub open spec fn step_deletes(steps: Seq<Call>, n: int, i: int, id: ID) -> bool {
    0 <= i < n && i < steps.len() && steps[i].ds@.contains(id)
}

/// The deletions of one of the first `n` of `steps`, or the deletions
/// that wait in `a`, name the unit `id`.
pub open spec fn named(steps: Seq<Call>, n: int, a: Transaction, id: ID) -> bool {
    waiting(a.store).contains(id) || exists|i: int| step_deletes(steps, n, i, id)
}

/// What the first `n + 1` steps bring is what the first `n` bring and
/// what step `n` brings.
pub proof fn lemma_brought_more(steps: Seq<Call>, n: int, a: Transaction, x: Block)
    requires
        0 <= n < steps.len(),
    ensures
        brought(steps, n + 1, a, x) == (brought(steps, n, a, x) || steps[n].update.holds(x)),
{
    let m = n + 1;
    if exists|i: int| step_holds(steps, m, i, x) {
        let i = choose|i: int| step_holds(steps, m, i, x);
        if i < n {
            assert(step_holds(steps, n, i, x));
        }
    }
    if exists|i: int| step_holds(steps, n, i, x) {
        let i = choose|i: int| step_holds(steps, n, i, x);
        assert(step_holds(steps, m, i, x));
    }
    if steps[n].update.holds(x) {
        assert(step_holds(steps, m, n, x));
    }
}

/// What the first `n + 1` steps name is what the first `n` name and what
/// step `n` names.
pub proof fn lemma_named_more(steps: Seq<Call>, n: int, a: Transaction, id: ID)
    requires
        0 <= n < steps.len(),
    ensures
        named(steps, n + 1, a, id) == (named(steps, n, a, id) || steps[n].ds@.contains(id)),
{
    let m = n + 1;
    if exists|i: int| step_deletes(steps, m, i, id) {
        let i = choose|i: int| step_deletes(steps, m, i, id);
        if i < n {
            assert(step_deletes(steps, n, i, id));
        }
    }
    if exists|i: int| step_deletes(steps, n, i, id) {
        let i = choose|i: int| step_deletes(steps, n, i, id);
        assert(step_deletes(steps, m, i, id));
    }
    if steps[n].ds@.contains(id) {
        assert(step_deletes(steps, m, n, id));
    }
}

/// After the first `n` calls of a run: every client is known at least as
/// far; every block that was brought is known or pending; what is pending
/// was brought; and every unit that has come to be known is held by a
/// block that was brought.
pub proof fn lemma_ran(a: Transaction, steps: Seq<Call>, states: Seq<Transaction>, n: int)
    requires
        ran(a, steps, states),
        0 <= n <= steps.len(),
    ensures
        forall|c: u64| a.store.blocks.state(c) <= #[trigger] states[n].store.blocks.state(c),
        forall|x: Block| #[trigger]
            brought(steps, n, a, x) ==> x.spec_clock_end() <= states[n].store.blocks.state(
                x.spec_id().client,
            ) || pending_holds(states[n].store, x),
        forall|x: Block| #[trigger] pending_holds(states[n].store, x) ==> brought(steps, n, a, x),
        forall|c: u64, k: int|
            a.store.blocks.state(c) <= k < states[n].store.blocks.state(c) ==> #[trigger] covered(
                steps,
                n,
                a,
                c,
                k,
            ),
    decreases n,
{
    if n == 0 {
    } else {
        let u = steps[n - 1].update;
        let ds = steps[n - 1].ds;
        let m = states[n - 1];
        let z = states[n];
        lemma_ran(a, steps, states, n - 1);
        assert(stepped(states[n - 1], states[n - 1 + 1], steps[n - 1].update, steps[n - 1].ds));
        assert forall|c: u64| a.store.blocks.state(c) <= #[trigger] z.store.blocks.state(c) by {
            assert(a.store.blocks.state(c) <= m.store.blocks.state(c));
            assert(m.store.blocks.state(c) <= z.store.blocks.state(c));
        }
        assert forall|x: Block| #[trigger] brought(steps, n, a, x) implies x.spec_clock_end()
            <= z.store.blocks.state(x.spec_id().client) || pending_holds(z.store, x) by {
            lemma_brought_more(steps, n - 1, a, x);
            if brought(steps, n - 1, a, x) {
                assert(m.store.blocks.state(x.spec_id().client) <= z.store.blocks.state(
                    x.spec_id().client,
                ));
            }
        }
        assert forall|x: Block| #[trigger] pending_holds(z.store, x) implies brought(
            steps,
            n,
            a,
            x,
        ) by {
            lemma_brought_more(steps, n - 1, a, x);
            assert(u.holds(x) || pending_holds(m.store, x));
        }
        assert forall|c: u64, k: int|
            a.store.blocks.state(c) <= k < z.store.blocks.state(c) implies #[trigger] covered(
            steps,
            n,
            a,
            c,
            k,
        ) by {
            if k < m.store.blocks.state(c) {
                assert(covered(steps, n - 1, a, c, k));
                let x = choose|x: Block| #[trigger] covers(steps, n - 1, a, c, k, x);
                lemma_brought_more(steps, n - 1, a, x);
                assert(covers(steps, n, a, c, k, x));
            } else {
                assert(came(u.clients@, z.store.blocks, c, k) || (m.store.pending is Some && came(
                    m.store.pending->0.update.clients@,
                    z.store.blocks,
                    c,
                    k,
                )));
                if came(u.clients@, z.store.blocks, c, k) {
                    let (ci, i) = choose|ci: int, i: int|
                        came_from(u.clients@, z.store.blocks, c, k, ci, i);
                    let x = u.clients@[ci].blocks@[i];
                    assert(u.holds_at(ci, i, x));
                    lemma_brought_more(steps, n - 1, a, x);
                    assert(covers(steps, n, a, c, k, x));
                } else {
                    let q = m.store.pending->0.update;
                    let (ci, i) = choose|ci: int, i: int|
                        came_from(q.clients@, z.store.blocks, c, k, ci, i);
                    let x = q.clients@[ci].blocks@[i];
                    assert(q.holds_at(ci, i, x));
                    assert(pending_holds(m.store, x));
                    lemma_brought_more(steps, n - 1, a, x);
                    assert(covers(steps, n, a, c, k, x));
                }
            }
        }
    }
}

/// Whatever the order of the calls, the same clocks are known. Two runs
/// of calls that begin with the same transaction and bring the same
/// blocks, in any order and in any number of updates, know the same
/// clocks of every client, once nothing is pending in either.
pub proof fn law_frontier_any_order(
    a: Transaction,
    one: Seq<Call>,
    states1: Seq<Transaction>,
    two: Seq<Call>,
    states2: Seq<Transaction>,
)
    requires
        ran(a, one, states1),
        ran(a, two, states2),
        forall|x: Block|
            brought(one, one.len() as int, a, x) == brought(two, two.len() as int, a, x),
        states1.last().store.pending is None,
        states2.last().store.pending is None,
    ensures
        forall|c: u64|
            states1.last().store.blocks.state(c) == states2.last().store.blocks.state(c),
{
    let z1 = states1.last();
    let z2 = states2.last();
    let l1 = one.len() as int;
    let l2 = two.len() as int;
    lemma_ran(a, one, states1, l1);
    lemma_ran(a, two, states2, l2);
    assert(states1[l1] == z1);
    assert(states2[l2] == z2);
    assert forall|c: u64| z1.store.blocks.state(c) == z2.store.blocks.state(c) by {
        let n1 = z1.store.blocks.state(c);
        let n2 = z2.store.blocks.state(c);
        assert(a.store.blocks.state(c) <= n1);
        assert(a.store.blocks.state(c) <= n2);
        if n1 > n2 {
            assert(covered(one, l1, a, c, n1 - 1));
            let x = choose|x: Block| #[trigger] covers(one, l1, a, c, n1 - 1, x);
            assert(brought(one, l1, a, x) == brought(two, l2, a, x));
            assert(brought(two, l2, a, x));
        }
        if n2 > n1 {
            assert(covered(two, l2, a, c, n2 - 1));
            let x = choose|x: Block| #[trigger] covers(two, l2, a, c, n2 - 1, x);
            assert(brought(one, l1, a, x) == brought(two, l2, a, x));
            assert(brought(one, l1, a, x));
        }
    }
}

/// Whatever the order of the calls, the units are the same. A store that
/// agrees with a history of units goes on to agree with it through any
/// run of calls whose updates agree with it: so two stores that have been
/// given the same updates in any order hold, where both know a unit, the
/// same unit, but for what can change (see `law_same_units`).
pub proof fn law_agreement_any_order(
    a: Transaction,
    steps: Seq<Call>,
    states: Seq<Transaction>,
    history: spec_fn(ID) -> Unit,
    n: int,
)
    requires
        a.wf(),
        ran(a, steps, states),
        0 <= n <= steps.len(),
        store_agrees(a.store.blocks, history),
        pending_agrees(a.store, history),
        forall|i: int| 0 <= i < steps.len() ==> update_agrees(#[trigger] steps[i].update, history),
    ensures
        states[n].wf(),
        store_agrees(states[n].store.blocks, history),
        pending_agrees(states[n].store, history),
    decreases n,
{
    if n > 0 {
        law_agreement_any_order(a, steps, states, history, n - 1);
        assert(stepped(states[n - 1], states[n - 1 + 1], steps[n - 1].update, steps[n - 1].ds));
        law_agreement(
            states[n - 1],
            states[n],
            steps[n - 1].update,
            steps[n - 1].ds@.union(waiting(states[n - 1].store)),
            history,
        );
    }
}

/// Whatever the order of the calls, the deletions are done. After the
/// first `n` calls of a run every unit that one of them was to delete, or
/// that waited to be deleted at the beginning, is known and deleted, or
/// waits; so where nothing waits, all of them are known and deleted. What
/// waits are just those of them that are not known: two runs that name
/// the same units and know the same clocks leave the same units waiting.
pub proof fn law_deletions_any_order(
    a: Transaction,
    steps: Seq<Call>,
    states: Seq<Transaction>,
    n: int,
)
    requires
        a.wf(),
        ran(a, steps, states),
        0 <= n <= steps.len(),
    ensures
        states[n].wf(),
        forall|id: ID| #[trigger]
            named(steps, n, a, id) ==> waiting(states[n].store).contains(id) || (id.clock
                < states[n].store.blocks.state(id.client) && states[n].store.blocks.units(
                id.client,
            )[id.clock as int].deleted()),
        states[n].store.pending_ds is None ==> forall|id: ID| #[trigger]
            named(steps, n, a, id) ==> id.clock < states[n].store.blocks.state(id.client)
                && states[n].store.blocks.units(id.client)[id.clock as int].deleted(),
        (forall|id: ID| #[trigger] waiting(a.store).contains(id) ==> !known(a.store.blocks@, id))
            ==> forall|id: ID| #[trigger]
            waiting(states[n].store).contains(id) == (named(steps, n, a, id) && !known(
                states[n].store.blocks@,
                id,
            )),
    decreases n,
{
    let z = states[n];
    if n == 0 {
        if forall|id: ID| #[trigger] waiting(a.store).contains(id) ==> !known(a.store.blocks@, id) {
            assert forall|id: ID| #[trigger]
                waiting(a.store).contains(id) == (named(steps, 0, a, id) && !known(
                    a.store.blocks@,
                    id,
                )) by {
                if exists|i: int| step_deletes(steps, 0, i, id) {
                    let i = choose|i: int| step_deletes(steps, 0, i, id);
                }
            }
        }
    }
    if n > 0 {
        let ds = steps[n - 1].ds;
        let m = states[n - 1];
        law_deletions_any_order(a, steps, states, n - 1);
        assert(stepped(states[n - 1], states[n - 1 + 1], steps[n - 1].update, steps[n - 1].ds));
        let all = ds@.union(waiting(m.store));
        let s0 = m.store.blocks;
        let s1 = z.store.blocks;
        lemma_view(s0);
        lemma_view(s1);
        assert forall|id: ID| #[trigger] named(steps, n, a, id) implies waiting(z.store).contains(
            id,
        ) || (id.clock < s1.state(id.client) && s1.units(id.client)[id.clock as int].deleted()) by {
            lemma_named_more(steps, n - 1, a, id);
            assert(s0.state(id.client) <= s1.state(id.client));
            if all.contains(id) {
                if id.clock < s1.state(id.client) {
                    assert(s1.units(id.client)[id.clock as int].deleted());
                } else {
                    assert(!known(s1@, id));
                    assert(unknown_in(s1@, all).contains(id));
                }
            } else {
                assert(named(steps, n - 1, a, id));
                assert(id.clock < s0.state(id.client) && s0.units(id.client)[id.clock as int].deleted());
                let k = id.clock as int;
                assert(s1.units(id.client)[k].with_next(None) == (if all.contains(
                    ID { client: id.client, clock: k as u32 },
                ) {
                    s0.units(id.client)[k].tombstoned()
                } else {
                    s0.units(id.client)[k]
                }).with_next(None));
            }
        }
        if forall|id: ID| #[trigger] waiting(a.store).contains(id) ==> !known(a.store.blocks@, id) {
            assert forall|id: ID| #[trigger]
                waiting(z.store).contains(id) == (named(steps, n, a, id) && !known(s1@, id)) by {
                lemma_named_more(steps, n - 1, a, id);
                assert(s0.state(id.client) <= s1.state(id.client));
                assert(waiting(z.store).contains(id) == unknown_in(s1@, all).contains(id));
                assert(waiting(m.store).contains(id) == (named(steps, n - 1, a, id) && !known(
                    s0@,
                    id,
                )));
            }
        }
    }
    if z.store.pending_ds is None {
        assert forall|id: ID| #[trigger] named(steps, n, a, id) implies id.clock
            < z.store.blocks.state(id.client) && z.store.blocks.units(
            id.client,
        )[id.clock as int].deleted() by {
            assert(!waiting(z.store).contains(id));
        }
    }
}

} // verus!
