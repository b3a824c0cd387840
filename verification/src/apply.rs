//! Applying an update with its deletions, and keeping what comes too early.

use crate::block::{Block, TypePtr, Unit, ID};
use crate::block_store::StateVector;
use crate::id_set::{DeleteSet, IdSet};
use crate::integrate::{follows_on, grown, plain_block, plain_store, starts_on};
use crate::block_store::BlockStore;
use crate::update::{
    all_inserted, all_supplied, flat, integrated, known_upto, left_of, placed_from, supplied,
    supplies,
};
use crate::model::{
    known, lasting, live_cascade, live_in, tombstone, touched, touches, unit_at, unknown_in,
};
use crate::store::Store;
use crate::transaction::{
    deleted_by, deleted_in, lemma_deleted_in_compose, lemma_view, Transaction,
};
use crate::update::{PendingUpdate, Update};
use vstd::prelude::*;

verus! {

/// The deletions that wait in the store for their units.
pub open spec fn waiting(store: Store) -> Set<ID> {
    match store.pending_ds {
        Some(d) => d@,
        None => Set::empty(),
    }
}

/// The store knows no unit that its pending update is said to wait for.
pub open spec fn pending_settled(t: Transaction) -> bool {
    match t.store.pending {
        Some(p) => forall|c: u64|
            p.missing@.contains_key(c) ==> #[trigger] p.missing@[c] >= t.store.blocks.state(c),
        None => true,
    }
}

/// The pending update of the store holds `b`.
pub open spec fn pending_holds(store: Store, b: Block) -> bool {
    match store.pending {
        Some(p) => p.update.holds(b),
        None => false,
    }
}

/// The pending update of the store, if it has one, is sound and plain.
pub open spec fn pending_plain(store: Store) -> bool {
    match store.pending {
        Some(p) => p.update.plain(),
        None => true,
    }
}

/// `new` has come out of `old` by placing blocks and deleting the units of
/// `all`: every client is known at least as far; a unit that was known is
/// as it was, but tombstoned where it is one of `all`, and but for the unit
/// that follows it, which is the unit that followed it or one that has come
/// since; every container starts with what it started with or with a unit
/// that has come since; every known unit of `all` is tombstoned; the units of
/// `all` that are not known wait in the store; what was recorded as deleted
/// still is, and what is newly recorded as deleted is of `all`: of the
/// units that were known, just those of `all` that were live; recorded as
/// changed are, besides what was, the containers and keys of the units of
/// `all` that were live and are older than the transaction.
pub open spec fn advanced(old: Transaction, new: Transaction, all: Set<ID>) -> bool {
    let s0 = old.store.blocks;
    let s1 = new.store.blocks;
    &&& new.wf()
    &&& forall|c: u64| s0.state(c) <= #[trigger] s1.state(c)
    &&& forall|c: u64| s0.spec_contains_client(c) ==> #[trigger] s1.spec_contains_client(c)
    &&& forall|c: u64, k: int|
        0 <= k < s0.state(c) ==> (#[trigger] s1.units(c)[k]).with_next(None) == (if all.contains(
            ID { client: c, clock: k as u32 },
        ) {
            s0.units(c)[k].tombstoned()
        } else {
            s0.units(c)[k]
        }).with_next(None)
    &&& forall|c: u64, k: int|
        0 <= k < s0.state(c) ==> follows_on(s0, s0.units(c)[k], #[trigger] s1.units(c)[k])
    &&& forall|p: TypePtr, sub: Option<Seq<char>>|
        starts_on(s0, old.store.head_of(p, sub), #[trigger] new.store.head_of(p, sub))
    &&& forall|id: ID|
        all.contains(id) && id.clock < s1.state(id.client) ==> (#[trigger] s1.units(
            id.client,
        )[id.clock as int]).deleted()
    &&& waiting(new.store) == unknown_in(s1@, all)
    &&& new.store.pending_ds is Some ==> waiting(new.store) != Set::<ID>::empty()
    &&& forall|id: ID| s0.is_start(id) ==> #[trigger] s1.is_start(id)
    &&& forall|p: TypePtr| old.store.spec_has_type(p) ==> #[trigger] new.store.spec_has_type(p)
    &&& new.store.client_id == old.store.client_id
    &&& new.store.names == old.store.names
    &&& new.timestamp == old.timestamp
    &&& old.merge_blocks@.is_prefix_of(new.merge_blocks@)
    &&& old.delete_set@.subset_of(new.delete_set@)
    &&& new.delete_set@.subset_of(old.delete_set@.union(all))
    &&& live_in(s0@, all).subset_of(new.delete_set@)
    &&& forall|id: ID|
        known(s0@, id) && #[trigger] new.delete_set@.contains(id) ==> old.delete_set@.contains(id)
            || live_in(s0@, all).contains(id)
    &&& new.changed_view() == old.changed_view().union(
        touched(s0@, live_in(s0@, all), old.timestamp@),
    )
}

/// For each client of either map the lower of its clocks.
pub open spec fn lower(a: Map<u64, u32>, b: Map<u64, u32>) -> Map<u64, u32> {
    Map::new(
        |c: u64| a.contains_key(c) || b.contains_key(c),
        |c: u64|
            if a.contains_key(c) && (!b.contains_key(c) || a[c] <= b[c]) {
                a[c]
            } else {
                b[c]
            },
    )
}

/// Lowers each clock of `into` to that of `from`, and adds the clients that
/// only `from` has.
pub fn merge_missing(into: &mut StateVector, from: &StateVector)
    requires
        old(into).wf(),
        from.wf(),
    ensures
        final(into).wf(),
        final(into)@ == lower(old(into)@, from@),
{
    let mut i: usize = 0;
    assert(into@ =~= lower(old(into)@, Map::<u64, u32>::empty()));
    let ghost seen: Map<u64, u32> = Map::empty();
    while i < from.entries.len()
        invariant
            i <= from.entries.len(),
            into.wf(),
            from.wf(),
            into@ == lower(old(into)@, seen),
            forall|c: u64|
                seen.contains_key(c) == (exists|j: int| 0 <= j < i && #[trigger] from.has(c, j)),
            forall|c: u64| seen.contains_key(c) ==> from@.contains_key(c) && seen[c] == from@[c],
        decreases from.entries.len() - i,
    {
        let client = from.entries[i].0;
        let clock = from.entries[i].1;
        let ghost before = into@;
        let ghost seen0 = seen;
        proof {
            assert(from.has(client, i as int));
            assert(from@.contains_key(client));
            let j = choose|j: int| from.has(client, j);
            assert(from.has(client, j));
            assert(from@[client] == clock);
            if seen0.contains_key(client) {
                let j2 = choose|j2: int| 0 <= j2 < i && #[trigger] from.has(client, j2);
                assert(from.has(client, j2));
            }
        }
        into.set_min(client, clock);
        proof {
            seen = seen0.insert(client, clock);
            assert(into@ =~= lower(old(into)@, seen));
            assert forall|c: u64|
                seen.contains_key(c) == (exists|j: int| 0 <= j < i + 1 && #[trigger] from.has(
                    c,
                    j,
                )) by {
                if seen0.contains_key(c) {
                    let j = choose|j: int| 0 <= j < i && #[trigger] from.has(c, j);
                    assert(0 <= j < i + 1 && from.has(c, j));
                }
                if exists|j: int| 0 <= j < i + 1 && #[trigger] from.has(c, j) {
                    let j = choose|j: int| 0 <= j < i + 1 && #[trigger] from.has(c, j);
                    if j < i {
                        assert(0 <= j < i && from.has(c, j));
                    }
                }
            }
        }
        i += 1;
    }
    proof {
        assert forall|c: u64| seen.contains_key(c) == from@.contains_key(c) by {
            if from@.contains_key(c) {
                let j = choose|j: int| from.has(c, j);
                assert(0 <= j < i && from.has(c, j));
            }
        }
        assert(seen =~= from@);
    }
}

impl Transaction {
    /// Whether the store by now knows a unit that `missing` names.
    pub fn can_retry(&self, missing: &StateVector) -> (r: bool)
        requires
            self.wf(),
            missing.wf(),
        ensures
            r == (exists|c: u64|
                missing@.contains_key(c) && #[trigger] missing@[c] < self.store.blocks.state(c)),
    {
        let mut i: usize = 0;
        while i < missing.entries.len()
            invariant
                i <= missing.entries.len(),
                self.wf(),
                missing.wf(),
                forall|j: int|
                    0 <= j < i ==> (#[trigger] missing.entries[j]).1 >= self.store.blocks.state(
                        missing.entries[j].0,
                    ),
            decreases missing.entries.len() - i,
        {
            let client = missing.entries[i].0;
            let clock = missing.entries[i].1;
            if clock < self.store.blocks.get_state(&client) {
                proof {
                    assert(missing.has(client, i as int));
                    let j = choose|j: int| missing.has(client, j);
                    assert(missing.has(client, j));
                    assert(missing@.contains_key(client) && missing@[client]
                        < self.store.blocks.state(client));
                }
                return true;
            }
            i += 1;
        }
        proof {
            assert forall|c: u64| missing@.contains_key(c) implies #[trigger] missing@[c]
                >= self.store.blocks.state(c) by {
                let j = choose|j: int| missing.has(c, j);
                assert(missing.has(c, j));
                assert(missing.entries[j].1 >= self.store.blocks.state(missing.entries[j].0));
            }
        }
        false
    }
}

/// A transaction stays sound where only what waits in its store, or what
/// it has recorded, is exchanged for something sound.
pub proof fn lemma_wf_frame(t0: Transaction, t1: Transaction)
    requires
        t0.wf(),
        t1.store.blocks == t0.store.blocks,
        t1.store.types == t0.store.types,
        t1.store.names == t0.store.names,
        t1.timestamp == t0.timestamp,
        t1.delete_set.wf(),
        t1.changed == t0.changed,
        match t1.store.pending {
            Some(p) => p.wf(),
            None => true,
        },
        match t1.store.pending_ds {
            Some(d) => d.wf(),
            None => true,
        },
    ensures
        t1.wf(),
        forall|p: TypePtr| t0.store.spec_has_type(p) ==> #[trigger] t1.store.spec_has_type(p),
{
    assert forall|c: u64| #[trigger] t1.stamp_ok(c) by {
        assert(t0.stamp_ok(c));
    }
    assert(t1.store.heads_wf()) by {
        assert forall|i: int| 0 <= i < t1.store.types.len() implies match (
        #[trigger] t1.store.types[i]).start {
            Some(h) => t1.store.head_ok(i, h),
            None => true,
        } by {
            match t0.store.types[i].start {
                Some(h) => {
                    assert(t0.store.head_ok(i, h));
                },
                None => {},
            }
        }
    }
}

/// Deleting leaves a plain store plain.
pub proof fn lemma_deleted_plain(t0: Transaction, t1: Transaction, ids: Set<ID>)
    requires
        t0.wf(),
        deleted_in(t0, t1, ids),
        plain_store(t0.store.blocks),
    ensures
        plain_store(t1.store.blocks),
{
    let s0 = t0.store.blocks;
    let s1 = t1.store.blocks;
    lemma_view(s0);
    lemma_view(s1);
    assert forall|c: u64, k: int| 0 <= k < s1.state(c) implies !live_cascade(
        #[trigger] s1.units(c)[k],
    ) by {
        assert(s1.state(c) == s0.state(c));
        assert(!live_cascade(s0.units(c)[k]));
        if s0.spec_contains_client(c) {
            assert(s1@[c] == s1.units(c));
            assert(s0@[c] == s0.units(c));
            assert(s1@[c][k] == tombstone(s0@, ids)[c][k]);
        } else {
            assert(s0.state(c) == 0);
        }
    }
}

/// Of the blocks of `update` and of the update that was pending in `old`,
/// none is lost and none is added: each is known to the store of `new` or
/// pending there, and nothing else is pending there.
pub open spec fn kept(update: Update, old: Store, new: Transaction) -> bool {
    &&& forall|x: Block|
        (update.holds(x) || pending_holds(old, x)) ==> x.spec_clock_end()
            <= new.store.blocks.state(x.spec_id().client) || #[trigger] pending_holds(new.store, x)
    &&& forall|x: Block| #[trigger]
        pending_holds(new.store, x) ==> update.holds(x) || pending_holds(old, x)
}

/// Block `i` of entry `ci` holds clock `k` of client `c`, and the unit
/// that the store has there is, but for what can change, the unit that
/// the block holds there, or a tombstone.
pub open spec fn came_from(
    clients: Seq<crate::update::UpdateBlocks>,
    s: BlockStore,
    c: u64,
    k: int,
    ci: int,
    i: int,
) -> bool {
    &&& 0 <= ci < clients.len()
    &&& 0 <= i < clients[ci].blocks@.len()
    &&& clients[ci].blocks@[i].spec_id().client == c
    &&& clients[ci].blocks@[i].clock() <= k < clients[ci].blocks@[i].spec_clock_end()
    &&& (s.units(c)[k] is Tombstone || lasting(s.units(c)[k]) == lasting(
        clients[ci].blocks@[i].unit(k - clients[ci].blocks@[i].clock()),
    ))
}

/// The unit that the store has at clock `k` of client `c` has come from a
/// block of `clients`.
pub open spec fn came(clients: Seq<crate::update::UpdateBlocks>, s: BlockStore, c: u64, k: int) -> bool {
    exists|ci: int, i: int| came_from(clients, s, c, k, ci, i)
}

/// Every unit that `new` knows and `old` did not has come from a block of
/// `clients`.
pub open spec fn all_came(
    clients: Seq<crate::update::UpdateBlocks>,
    old: BlockStore,
    new: BlockStore,
) -> bool {
    forall|c: u64, k: int| old.state(c) <= k < new.state(c) ==> #[trigger] came(clients, new, c, k)
}

/// Every unit that `new` knows and the store `old` did not has come from a
/// block of `update` or of the update that was pending in `old`.
pub open spec fn all_new_supplied(update: Update, old: Store, new: Transaction) -> bool {
    forall|c: u64, k: int|
        old.blocks.state(c) <= k < new.store.blocks.state(c) ==> #[trigger] came(
            update.clients@,
            new.store.blocks,
            c,
            k,
        ) || (old.pending is Some && came(
            old.pending->0.update.clients@,
            new.store.blocks,
            c,
            k,
        ))
}

/// A unit that has come from a block is still from it when units are
/// deleted and blocks are placed.
pub proof fn lemma_supplied_advanced(
    clients: Seq<crate::update::UpdateBlocks>,
    t0: Transaction,
    t1: Transaction,
    all: Set<ID>,
    c: u64,
    k: int,
)
    requires
        advanced(t0, t1, all),
        0 <= k < t0.store.blocks.state(c),
        came(clients, t0.store.blocks, c, k),
    ensures
        came(clients, t1.store.blocks, c, k),
{
    let (ci, i) = choose|ci: int, i: int| came_from(clients, t0.store.blocks, c, k, ci, i);
    let u0 = t0.store.blocks.units(c)[k];
    let u1 = t1.store.blocks.units(c)[k];
    assert(u1.with_next(None) == (if all.contains(ID { client: c, clock: k as u32 }) {
        u0.tombstoned()
    } else {
        u0
    }).with_next(None));
    assert(came_from(clients, t1.store.blocks, c, k, ci, i));
}

/// No unit of the block that is one of `all` is live and owns further
/// state.
pub open spec fn clear_block(b: Block, all: Set<ID>) -> bool {
    forall|j: int|
        0 <= j < b.spec_len() && all.contains(
            ID { client: b.spec_id().client, clock: (b.clock() + j) as u32 },
        ) ==> !live_cascade(#[trigger] b.unit(j))
}

/// No known unit of `all` is live and owns further state.
pub open spec fn clear_store(s: BlockStore, all: Set<ID>) -> bool {
    forall|id: ID|
        all.contains(id) && id.clock < s.state(id.client) ==> !live_cascade(
            #[trigger] s.units(id.client)[id.clock as int],
        )
}

/// No unit of `all` that the update brings is live and owns further state.
pub open spec fn clear_update(u: Update, all: Set<ID>) -> bool {
    forall|x: Block| #[trigger] u.holds(x) ==> clear_block(x, all)
}

/// No unit of `all` that the pending update of the store brings is live
/// and owns further state.
pub open spec fn clear_pending(store: Store, all: Set<ID>) -> bool {
    forall|x: Block| #[trigger] pending_holds(store, x) ==> clear_block(x, all)
}

/// Where nothing is live and owns further state, no unit of any set is.
pub proof fn lemma_plain_clear(store: Store, update: Update, all: Set<ID>)
    requires
        store.blocks.wf(),
        update.wf(),
        plain_store(store.blocks),
        update.plain(),
        pending_plain(store),
    ensures
        clear_store(store.blocks, all),
        clear_update(update, all),
        clear_pending(store, all),
{
    assert forall|x: Block| #[trigger] update.holds(x) implies clear_block(x, all) by {
        let (ci, i) = choose|ci: int, i: int| update.holds_at(ci, i, x);
        assert(plain_block(update.clients[ci].blocks@[i]));
    }
    assert forall|x: Block| #[trigger] pending_holds(store, x) implies clear_block(x, all) by {
        let q = store.pending->0.update;
        let (ci, i) = choose|ci: int, i: int| q.holds_at(ci, i, x);
        assert(plain_block(q.clients[ci].blocks@[i]));
    }
}

/// After blocks of `update` were placed in a store of which no known unit
/// of `all` was live and owned further state, and `update` brought none,
/// no known unit of `all` is live and owns further state.
pub proof fn lemma_clear_grown(t0: Transaction, tb: Transaction, update: Update, all: Set<ID>)
    requires
        grown(t0, tb),
        all_supplied(update.clients@, t0.store.blocks, tb.store.blocks),
        clear_store(t0.store.blocks, all),
        clear_update(update, all),
    ensures
        clear_store(tb.store.blocks, all),
{
    let s0 = t0.store.blocks;
    let sb = tb.store.blocks;
    assert forall|id: ID| all.contains(id) && id.clock < sb.state(id.client) implies !live_cascade(
        #[trigger] sb.units(id.client)[id.clock as int],
    ) by {
        let c = id.client;
        let k = id.clock as int;
        let u = sb.units(c)[k];
        if k < s0.state(c) {
            assert(u.with_next(None) == s0.units(c)[k].with_next(None));
            assert(!live_cascade(s0.units(c)[k]));
        } else {
            assert(supplied(update.clients@, sb, c, k));
            let (ci, i) = choose|ci: int, i: int| supplies(update.clients@, sb, c, k, ci, i);
            let x = update.clients@[ci].blocks@[i];
            assert(update.holds_at(ci, i, x));
            assert(update.holds(x));
            assert(clear_block(x, all));
            let j = k - x.clock();
            assert(ID { client: x.spec_id().client, clock: (x.clock() + j) as u32 } == id);
            assert(!live_cascade(x.unit(j)));
        }
    }
}

/// The store `s` has come to know a unit that the pending update `was`
/// is said to wait for.
pub open spec fn unblocked(was: Option<PendingUpdate>, s: BlockStore) -> bool {
    was is Some && exists|c: u64|
        was->0.missing@.contains_key(c) && #[trigger] was->0.missing@[c] < s.state(c)
}

/// What is pending after a round: the remainder `rem` of the update that
/// was placed where nothing was pending; what was pending where nothing
/// remains; and else what was pending with the blocks of the remainder
/// added one after the other, waiting for each client for the lower of the
/// two clocks.
pub open spec fn pending_after(
    was: Option<PendingUpdate>,
    rem: Option<PendingUpdate>,
    now: Option<PendingUpdate>,
) -> bool {
    match was {
        None => now == rem,
        Some(a) => match rem {
            None => now == Some(a),
            Some(r) => {
                &&& now is Some
                &&& now->0.missing.wf()
                &&& now->0.missing@ == lower(a.missing@, r.missing@)
                &&& all_inserted(
                    a.update.clients@,
                    flat(r.update.clients@, r.update.clients@.len() as int),
                    now->0.update.clients@,
                )
            },
        },
    }
}

/// The transaction without what waits in its store.
pub open spec fn taken(t: Transaction) -> Transaction {
    Transaction { store: Store { pending: None, pending_ds: None, ..t.store }, ..t }
}

/// What a round of applying an update has come to.
#[derive(Clone, Copy, Debug, PartialEq, Eq)]
pub enum Round {
    /// Blocks were placed and units deleted. `retry` says whether the
    /// store has come to know a unit that the update that was pending in it
    /// waited for.
    Done { retry: bool },
    /// Blocks were placed, but a unit to delete is a live embedded
    /// document or nested type, which cannot be deleted yet: nothing was
    /// deleted, and all deletions wait in the store.
    Unsupported,
}

/// A unit to delete is a live embedded document or nested type, which
/// cannot be deleted yet.
#[derive(Clone, Copy, Debug, PartialEq, Eq)]
pub struct Unsupported;

/// `new` is what one round of applying `update` and the deletions `ds`
/// to `old` gives, by way of `tb` and `tc`: `tb` is `old`, without what
/// waits, after the blocks of `update` were placed as far as they could
/// be, with `rem` left over. The round is `done` where no known unit of
/// `ds` or of the deletions that waited in `old` is live and owns further
/// state. Then `tc` is `tb` after the known units of `ds` were deleted,
/// `new` is `tc` after the known units of the deletions that waited were
/// deleted, and the unknown units of both wait in `new`. Else nothing is
/// deleted, and all of them wait in `new`. `new` is sound. What is pending
/// in `new` is as
/// `pending_after` has it, and `retry` says whether the round is done and
/// `tb` knows a unit that the update pending in `old` waited for.
#[verifier::opaque]
pub open spec fn round_by(
    old: Transaction,
    tb: Transaction,
    rem: Option<PendingUpdate>,
    tc: Transaction,
    new: Transaction,
    update: Update,
    ds: IdSet,
    done: bool,
    retry: bool,
) -> bool {
    let all = ds@.union(waiting(old.store));
    &&& placed_from(update, taken(old), tb)
    &&& integrated(update, tb, rem)
    &&& done == clear_store(tb.store.blocks, all)
    &&& if done {
        &&& deleted_by(tb, tc, ds)
        &&& match old.store.pending_ds {
            Some(d) => deleted_by(tc, taken(new), d),
            None => taken(new) == tc,
        }
        &&& deleted_in(tb, taken(new), all)
        &&& waiting(new.store) == unknown_in(tb.store.blocks@, all)
        &&& new.store.pending_ds is Some ==> waiting(new.store) != Set::<ID>::empty()
    } else {
        &&& tc == tb
        &&& taken(new) == tb
        &&& new.store.pending_ds is Some
        &&& waiting(new.store) == all
    }
    &&& new.wf()
    &&& pending_after(old.store.pending, rem, new.store.pending)
    &&& retry == (done && unblocked(old.store.pending, tb.store.blocks))
}

/// `new` is what one round of applying `update` and the deletions `ds` to
/// `old` gives.
pub open spec fn round(
    old: Transaction,
    new: Transaction,
    update: Update,
    ds: IdSet,
    done: bool,
    retry: bool,
) -> bool {
    exists|tb: Transaction, rem: Option<PendingUpdate>, tc: Transaction|
        round_by(old, tb, rem, tc, new, update, ds, done, retry)
}

/// `ds` holds the deletions that wait in the store: it is the set that
/// waits there, or has no entry where none does.
pub open spec fn waits_as(store: Store, ds: IdSet) -> bool {
    match store.pending_ds {
        Some(d) => ds == d,
        None => ds.clients@ == Seq::<crate::id_set::ClientRanges>::empty(),
    }
}

/// `new` is what applying `update` and the deletions `ds` to `old` gives:
/// one round; and where that round is done and has made known a unit that
/// the update pending in `old` waited for, a second round, on what is
/// pending and waits after the first. `ok` says whether every round was
/// done.
pub open spec fn applied(old: Transaction, new: Transaction, update: Update, ds: IdSet, ok: bool) -> bool {
    exists|mid: Transaction, done: bool, retry: bool|
        #![trigger round(old, mid, update, ds, done, retry)]
        round(old, mid, update, ds, done, retry) && (if retry {
            mid.store.pending is Some && exists|ds2: IdSet, done2: bool|
                #![trigger round(taken(mid), new, mid.store.pending->0.update, ds2, done2, false)]
                waits_as(mid.store, ds2) && ok == done2 && round(
                    taken(mid),
                    new,
                    mid.store.pending->0.update,
                    ds2,
                    done2,
                    false,
                )
        } else {
            new == mid && ok == done
        })
}

/// No known unit of `a` or of `b` is live and owns further state just
/// where none of both together is.
pub proof fn lemma_clear_store_union(s: BlockStore, a: Set<ID>, b: Set<ID>)
    ensures
        clear_store(s, a.union(b)) == (clear_store(s, a) && clear_store(s, b)),
{
    let ab = a.union(b);
    if clear_store(s, ab) {
        assert forall|id: ID| a.contains(id) && id.clock < s.state(id.client) implies !live_cascade(
            #[trigger] s.units(id.client)[id.clock as int],
        ) by {
            assert(ab.contains(id));
        }
        assert forall|id: ID| b.contains(id) && id.clock < s.state(id.client) implies !live_cascade(
            #[trigger] s.units(id.client)[id.clock as int],
        ) by {
            assert(ab.contains(id));
        }
    }
    if clear_store(s, a) && clear_store(s, b) {
        assert forall|id: ID|
            ab.contains(id) && id.clock < s.state(id.client) implies !live_cascade(
            #[trigger] s.units(id.client)[id.clock as int],
        ) by {}
    }
}

/// Blocks placed and then units deleted: that is `advanced`.
#[verifier::spinoff_prover]
pub proof fn lemma_advance(t0: Transaction, tb: Transaction, td: Transaction, te: Transaction, all: Set<ID>)
    requires
        t0.wf(),
        grown(Transaction { store: Store { pending: None, pending_ds: None, ..t0.store }, ..t0 }, tb),
        deleted_in(tb, td, all),
        te.wf(),
        te.store.blocks == td.store.blocks,
        te.store.names == td.store.names,
        te.store.client_id == td.store.client_id,
        te.store.types == td.store.types,
        te.timestamp == td.timestamp,
        te.delete_set == td.delete_set,
        te.changed == td.changed,
        te.merge_blocks == td.merge_blocks,
        waiting(te.store) == unknown_in(tb.store.blocks@, all),
        te.store.pending_ds is Some ==> waiting(te.store) != Set::<ID>::empty(),
    ensures
        advanced(t0, te, all),
{
    let s0 = t0.store.blocks;
    let sb = tb.store.blocks;
    let sd = td.store.blocks;
    lemma_view(s0);
    lemma_view(sb);
    lemma_view(sd);
    assert forall|p: TypePtr, sub: Option<Seq<char>>|
        starts_on(s0, t0.store.head_of(p, sub), #[trigger] te.store.head_of(p, sub)) by {
        let ta = Transaction {
            store: Store { pending: None, pending_ds: None, ..t0.store },
            ..t0
        };
        assert(starts_on(s0, ta.store.head_of(p, sub), tb.store.head_of(p, sub)));
        assert(te.store.head_of(p, sub) == tb.store.head_of(p, sub));
    }
    assert forall|c: u64| s0.state(c) <= #[trigger] sd.state(c) by {
        assert(s0.state(c) <= sb.state(c));
        assert(sd.state(c) == sb.state(c));
    }
    assert forall|c: u64| s0.spec_contains_client(c) implies #[trigger] sd.spec_contains_client(
        c,
    ) by {
        assert(sb.spec_contains_client(c));
    }
    assert forall|c: u64, k: int| 0 <= k < sb.state(c) implies #[trigger] sd.units(c)[k] == (
    if all.contains(ID { client: c, clock: k as u32 }) {
        sb.units(c)[k].tombstoned()
    } else {
        sb.units(c)[k]
    }) by {
        assert(sb.spec_contains_client(c));
        assert(sd.spec_contains_client(c));
        assert(sd@[c] == sd.units(c));
        assert(sb@[c] == sb.units(c));
        assert(sd@[c][k] == tombstone(sb@, all)[c][k]);
    }
    assert forall|c: u64, k: int| 0 <= k < s0.state(c) implies (#[trigger] sd.units(
        c,
    )[k]).with_next(None) == (if all.contains(ID { client: c, clock: k as u32 }) {
        s0.units(c)[k].tombstoned()
    } else {
        s0.units(c)[k]
    }).with_next(None) by {
        assert(s0.state(c) <= sb.state(c));
        assert(sb.units(c)[k].with_next(None) == s0.units(c)[k].with_next(None));
        let u = sd.units(c)[k];
    }
    assert forall|id: ID| all.contains(id) && id.clock < sd.state(id.client) implies (
    #[trigger] sd.units(id.client)[id.clock as int]).deleted() by {
        assert(sd.state(id.client) == sb.state(id.client));
        let u = sd.units(id.client)[id.clock as int];
    }
    assert(unknown_in(sd@, all) =~= unknown_in(sb@, all)) by {
        assert forall|id: ID| known(sd@, id) == known(sb@, id) by {
            assert(sd.state(id.client) == sb.state(id.client));
        }
    }
    assert forall|id: ID| s0.is_start(id) implies #[trigger] sd.is_start(id) by {
        assert(sb.is_start(id));
    }
    assert forall|p: TypePtr| t0.store.spec_has_type(p) implies #[trigger] te.store.spec_has_type(
        p,
    ) by {
        assert(tb.store.spec_has_type(p));
        assert(td.store.spec_has_type(p));
        match p {
            TypePtr::Named(_) => {},
            TypePtr::Id(t) => {},
        }
    }
    assert(touched(sb@, live_in(sb@, all), tb.timestamp@) =~= touched(
        s0@,
        live_in(s0@, all),
        t0.timestamp@,
    )) by {
        let stamp = t0.timestamp@;
        assert forall|p: (TypePtr, Option<Seq<char>>)|
            touched(sb@, live_in(sb@, all), stamp).contains(p) == touched(
                s0@,
                live_in(s0@, all),
                stamp,
            ).contains(p) by {
            if touched(sb@, live_in(sb@, all), stamp).contains(p) {
                let id = choose|id: ID| touches(sb@, live_in(sb@, all), stamp, id, p);
                assert(t0.stamp_ok(id.client));
                assert(id.clock < s0.state(id.client));
                assert(s0.state(id.client) <= sb.state(id.client));
                assert(sb.units(id.client)[id.clock as int].with_next(None) == s0.units(
                    id.client,
                )[id.clock as int].with_next(None));
                assert(s0.spec_contains_client(id.client));
                assert(sb.spec_contains_client(id.client));
                assert(touches(s0@, live_in(s0@, all), stamp, id, p));
            }
            if touched(s0@, live_in(s0@, all), stamp).contains(p) {
                let id = choose|id: ID| touches(s0@, live_in(s0@, all), stamp, id, p);
                assert(s0.state(id.client) <= sb.state(id.client));
                assert(sb.units(id.client)[id.clock as int].with_next(None) == s0.units(
                    id.client,
                )[id.clock as int].with_next(None));
                assert(s0.spec_contains_client(id.client));
                assert(sb.spec_contains_client(id.client));
                assert(touches(sb@, live_in(sb@, all), stamp, id, p));
            }
        }
    }
    assert forall|id: ID| live_in(s0@, all).contains(id) implies te.delete_set@.contains(id) by {
        assert(s0.state(id.client) <= sb.state(id.client));
        assert(sb.units(id.client)[id.clock as int].with_next(None) == s0.units(
            id.client,
        )[id.clock as int].with_next(None));
        assert(s0.spec_contains_client(id.client));
        assert(sb.spec_contains_client(id.client));
        assert(live_in(sb@, all).contains(id));
    }
}

/// Two rounds, the second on what the first left waiting, are one.
#[verifier::spinoff_prover]
pub proof fn lemma_advance_twice(t0: Transaction, t1: Transaction, t1b: Transaction, t2: Transaction, all: Set<ID>)
    requires
        t0.wf(),
        advanced(t0, t1, all),
        t1b.store.blocks == t1.store.blocks,
        t1b.store.names == t1.store.names,
        t1b.store.client_id == t1.store.client_id,
        t1b.store.types == t1.store.types,
        t1b.timestamp == t1.timestamp,
        t1b.delete_set == t1.delete_set,
        t1b.changed == t1.changed,
        t1b.merge_blocks == t1.merge_blocks,
        advanced(t1b, t2, waiting(t1.store)),
        forall|p: TypePtr| t1.store.spec_has_type(p) ==> #[trigger] t1b.store.spec_has_type(p),
    ensures
        advanced(t0, t2, all),
{
    let s0 = t0.store.blocks;
    let s1 = t1.store.blocks;
    let s2 = t2.store.blocks;
    let all2 = waiting(t1.store);
    lemma_view(s0);
    lemma_view(s1);
    lemma_view(s2);
    assert forall|p: TypePtr, sub: Option<Seq<char>>|
        starts_on(s0, t0.store.head_of(p, sub), #[trigger] t2.store.head_of(p, sub)) by {
        assert(starts_on(s0, t0.store.head_of(p, sub), t1.store.head_of(p, sub)));
        assert(t1b.store.head_of(p, sub) == t1.store.head_of(p, sub));
        assert(starts_on(s1, t1b.store.head_of(p, sub), t2.store.head_of(p, sub)));
        match t2.store.head_of(p, sub) {
            Some(z) => {
                assert(s0.state(z.client) <= s1.state(z.client));
            },
            None => {},
        }
    }
    assert forall|c: u64| s0.state(c) <= #[trigger] s2.state(c) by {
        assert(s0.state(c) <= s1.state(c));
    }
    assert forall|c: u64| s0.spec_contains_client(c) implies #[trigger] s2.spec_contains_client(
        c,
    ) by {
        assert(s1.spec_contains_client(c));
    }
    assert forall|c: u64, k: int| 0 <= k < s0.state(c) implies (#[trigger] s2.units(
        c,
    )[k]).with_next(None) == (if all.contains(ID { client: c, clock: k as u32 }) {
        s0.units(c)[k].tombstoned()
    } else {
        s0.units(c)[k]
    }).with_next(None) by {
        let id = ID { client: c, clock: k as u32 };
        assert(s0.state(c) <= s1.state(c));
        assert(known(s1@, id));
        assert(!all2.contains(id));
        let u1 = s1.units(c)[k];
        let u2 = s2.units(c)[k];
    }
    assert forall|id: ID| all.contains(id) && id.clock < s2.state(id.client) implies (
    #[trigger] s2.units(id.client)[id.clock as int]).deleted() by {
        if id.clock < s1.state(id.client) {
            let u1 = s1.units(id.client)[id.clock as int];
            let u2 = s2.units(id.client)[id.clock as int];
            assert(u1.deleted());
            assert(u2.with_next(None) == (if all2.contains(
                ID { client: id.client, clock: id.clock as int as u32 },
            ) {
                u1.tombstoned()
            } else {
                u1
            }).with_next(None));
        } else {
            assert(!known(s1@, id));
            assert(all2.contains(id));
        }
    }
    assert(waiting(t2.store) =~= unknown_in(s2@, all)) by {
        assert forall|id: ID| unknown_in(s2@, all2).contains(id) == unknown_in(s2@, all).contains(
            id,
        ) by {
            assert(s1.state(id.client) <= s2.state(id.client));
        }
    }
    assert forall|id: ID| s0.is_start(id) implies #[trigger] s2.is_start(id) by {
        assert(s1.is_start(id));
    }
    assert forall|p: TypePtr| t0.store.spec_has_type(p) implies #[trigger] t2.store.spec_has_type(
        p,
    ) by {
        assert(t1.store.spec_has_type(p));
        assert(t1b.store.spec_has_type(p));
    }
    assert(touched(s1@, live_in(s1@, all2), t1.timestamp@) =~= Set::<
        (TypePtr, Option<Seq<char>>),
    >::empty()) by {
        assert forall|p: (TypePtr, Option<Seq<char>>)|
            !touched(s1@, live_in(s1@, all2), t1.timestamp@).contains(p) by {
            if touched(s1@, live_in(s1@, all2), t1.timestamp@).contains(p) {
                let id = choose|id: ID| touches(s1@, live_in(s1@, all2), t1.timestamp@, id, p);
                assert(touches(s1@, live_in(s1@, all2), t1.timestamp@, id, p));
            }
        }
    }
    assert(t2.changed_view() =~= t0.changed_view().union(
        touched(s0@, live_in(s0@, all), t0.timestamp@),
    ));
}

impl Transaction {
    /// One round of applying `update` and `ds`: places the blocks of the
    /// update as far as it can, adds what is left to the update that waits
    /// in the store, deletes the units of `ds` and of the deletions that
    /// wait in the store as far as they are known, and lets the rest wait.
    /// Says whether the store has come to know a unit that the update that
    /// waited in it was said to wait for. Where, the blocks placed, a known
    /// unit to delete is a live embedded document or nested type, nothing
    /// is deleted, all deletions wait in the store, and the round is
    /// `Unsupported`.
    #[verifier::spinoff_prover]
    #[verifier::rlimit(80)]
    pub fn apply_once(&mut self, update: Update, ds: DeleteSet) -> (r: Round)
        requires
            old(self).wf(),
            update.wf(),
            ds.wf(),
        ensures
            final(self).wf(),
            round(
                *old(self),
                *final(self),
                update,
                ds,
                r is Done,
                r matches Round::Done { retry: true },
            ),
            r is Done ==> advanced(*old(self), *final(self), ds@.union(waiting(old(self).store))),
            plain_store(old(self).store.blocks) && update.plain() && pending_plain(
                old(self).store,
            ) ==> plain_store(final(self).store.blocks) && pending_plain(final(self).store),
            kept(update, old(self).store, *final(self)),
            all_came(update.clients@, old(self).store.blocks, final(self).store.blocks),
            forall|c: u64|
                old(self).store.blocks.state(c) <= #[trigger] final(self).store.blocks.state(c),
            r matches Round::Done { retry: false } ==> pending_settled(*final(self)),
            old(self).store.pending is None ==> !(r matches Round::Done { retry: true }),
            r matches Round::Done { retry: true } ==> final(self).store.pending is Some,
            clear_store(old(self).store.blocks, ds@.union(waiting(old(self).store)))
                && clear_update(update, ds@.union(waiting(old(self).store))) && clear_pending(
                old(self).store,
                ds@.union(waiting(old(self).store)),
            ) ==> r is Done,
    {
        let ghost t0 = *self;
        let ghost all = ds@.union(waiting(t0.store));
        let mut old_pending: Option<PendingUpdate> = None;
        std::mem::swap(&mut old_pending, &mut self.store.pending);
        let mut old_pds: Option<DeleteSet> = None;
        std::mem::swap(&mut old_pds, &mut self.store.pending_ds);
        let ghost ta = *self;
        proof {
            lemma_wf_frame(t0, ta);
            assert(ta == (Transaction {
                store: Store { pending: None, pending_ds: None, ..t0.store },
                ..t0
            }));
        }
        let remaining = update.integrate(self);
        let ghost tb = *self;
        let ghost rem = remaining;
        let mut retry = false;
        let pending = match old_pending {
            Some(p) => {
                let mut p = p;
                retry = self.can_retry(&p.missing);
                match remaining {
                    Some(r) => {
                        merge_missing(&mut p.missing, &r.missing);
                        p.update.merge(r.update);
                    },
                    None => {},
                }
                Some(p)
            },
            None => remaining,
        };
        proof {
            lemma_view(tb.store.blocks);
            assert forall|x: Block| update.holds(x) implies x.spec_clock_end()
                <= tb.store.blocks.state(x.spec_id().client) || (rem is Some
                && rem->0.update.holds(x)) by {
                let (k, j) = choose|k: int, j: int| update.holds_at(k, j, x);
                match rem {
                    Some(r) => {
                        assert(left_of(update.clients[k], r.update.clients[k], tb));
                        let all_b = update.clients[k].blocks@;
                        let d = all_b.len() - r.update.clients[k].blocks@.len();
                        if j >= d {
                            assert(r.update.holds_at(k, j - d, x));
                        }
                    },
                    None => {},
                }
            }
            assert forall|x: Block| rem is Some && rem->0.update.holds(x) implies update.holds(
                x,
            ) by {
                let r = rem->0;
                let (k, j) = choose|k: int, j: int| r.update.holds_at(k, j, x);
                assert(left_of(update.clients[k], r.update.clients[k], tb));
                let all_b = update.clients[k].blocks@;
                let d = all_b.len() - r.update.clients[k].blocks@.len();
                assert(update.holds_at(k, j + d, x));
            }
        }
        let ghost plain0 = plain_store(t0.store.blocks) && update.plain() && pending_plain(
            t0.store,
        );
        let clear = self.store.blocks.clear_of(&ds) && match &old_pds {
            Some(d) => self.store.blocks.clear_of(d),
            None => true,
        };
        proof {
            lemma_clear_store_union(tb.store.blocks, ds@, waiting(t0.store));
            assert(clear == clear_store(tb.store.blocks, all));
            if clear_store(t0.store.blocks, all) && clear_update(update, all) && clear_pending(
                t0.store,
                all,
            ) {
                lemma_clear_grown(ta, tb, update, all);
            }
        }
        if !clear {
            let waits = match old_pds {
                Some(d) => {
                    let mut d = d;
                    d.merge(ds);
                    d
                },
                None => ds,
            };
            proof {
                assert(waits@ =~= all);
            }
            self.store.pending = pending;
            self.store.pending_ds = Some(waits);
            proof {
                lemma_wf_frame(tb, *self);
                assert(taken(*self) == tb);
                assert(taken(t0) == ta);
                assert(round_by(t0, tb, rem, tb, *self, update, ds, false, false)) by {
                    reveal(round_by);
                }
                let sb = tb.store.blocks;
                assert forall|c: u64, k: int|
                    t0.store.blocks.state(c) <= k < sb.state(c) implies #[trigger] came(
                    update.clients@,
                    sb,
                    c,
                    k,
                ) by {
                    assert(supplied(update.clients@, sb, c, k));
                    let (ci, i) = choose|ci: int, i: int| supplies(update.clients@, sb, c, k, ci, i);
                    assert(came_from(update.clients@, sb, c, k, ci, i));
                }
            }
            return Round::Unsupported;
        }
        let r1 = self.apply_delete(&ds);
        let ghost tc = *self;
        proof {
            if plain0 {
                lemma_deleted_plain(tb, tc, ds@);
            }
            lemma_view(tc.store.blocks);
            assert forall|id: ID|
                all.contains(id) && id.clock < tc.store.blocks.state(
                    id.client,
                ) implies !live_cascade(
                #[trigger] tc.store.blocks.units(id.client)[id.clock as int],
            ) by {
                assert(tc.store.blocks.state(id.client) == tb.store.blocks.state(id.client));
                assert(known(tb.store.blocks@, id));
                assert(tb.store.blocks.spec_contains_client(id.client));
                assert(tc.store.blocks.spec_contains_client(id.client));
                assert(tc.store.blocks@[id.client] == tc.store.blocks.units(id.client));
                assert(tb.store.blocks@[id.client] == tb.store.blocks.units(id.client));
                assert(tc.store.blocks@[id.client][id.clock as int] == tombstone(
                    tb.store.blocks@,
                    ds@,
                )[id.client][id.clock as int]);
                assert(!live_cascade(tb.store.blocks.units(id.client)[id.clock as int]));
            }
            if old_pds is Some {
                let d = old_pds->0;
                assert forall|id: ID|
                    d@.contains(id) && id.clock < tc.store.blocks.state(
                        id.client,
                    ) implies !live_cascade(
                    #[trigger] tc.store.blocks.units(id.client)[id.clock as int],
                ) by {
                    assert(all.contains(id));
                }
            }
        }
        let r2 = match &old_pds {
            Some(d) => self.apply_delete(d),
            None => None,
        };
        let ghost td = *self;
        let ghost pds: Set<ID> = waiting(t0.store);
        proof {
            lemma_view(td.store.blocks);
            if old_pds is Some {
                let d = old_pds->0;
                if plain0 {
                    lemma_deleted_plain(tc, td, d@);
                }
                lemma_deleted_in_compose(tb, tc, td, ds@, d@, d@);
            } else {
                assert(all =~= ds@);
            }
            assert(deleted_in(tb, td, all));
        }
        let ghost g1 = r1;
        let ghost g2 = r2;
        let rest = match (r1, r2) {
            (Some(a), Some(b)) => {
                let mut a = a;
                a.merge(b);
                Some(a)
            },
            (Some(x), None) => Some(x),
            (None, Some(x)) => Some(x),
            (None, None) => None,
        };
        proof {
            let ub = tb.store.blocks@;
            let uc = tc.store.blocks@;
            assert forall|id: ID| known(uc, id) == known(ub, id) by {
                assert(tc.store.blocks.state(id.client) == tb.store.blocks.state(id.client));
            }
            assert(unknown_in(ub, ds@).union(unknown_in(uc, pds)) =~= unknown_in(ub, all));
            if rest is Some {
                assert(rest->0@ =~= unknown_in(ub, all));
                if rest->0@ == Set::<ID>::empty() {
                    if g1 is Some {
                        assert(unknown_in(ub, ds@) =~= Set::<ID>::empty());
                    } else {
                        assert(unknown_in(uc, pds) =~= Set::<ID>::empty());
                    }
                }
            } else {
                assert(unknown_in(ub, all) =~= Set::<ID>::empty());
            }
        }
        self.store.pending = pending;
        self.store.pending_ds = rest;
        proof {
            lemma_wf_frame(td, *self);
            lemma_advance(t0, tb, td, *self, all);
            assert(taken(*self) == td);
            assert(taken(t0) == ta);
            assert(round_by(t0, tb, rem, tc, *self, update, ds, true, retry)) by {
                reveal(round_by);
            }
            let sb = tb.store.blocks;
            let sd = td.store.blocks;
            lemma_view(sb);
            lemma_view(sd);
            assert forall|c: u64, k: int|
                t0.store.blocks.state(c) <= k < sd.state(c) implies #[trigger] came(
                update.clients@,
                sd,
                c,
                k,
            ) by {
                assert(sd.state(c) == sb.state(c));
                assert(supplied(update.clients@, sb, c, k));
                let (ci, i) = choose|ci: int, i: int| supplies(update.clients@, sb, c, k, ci, i);
                assert(sb.spec_contains_client(c));
                assert(sd.spec_contains_client(c));
                assert(sd@[c] == sd.units(c));
                assert(sb@[c] == sb.units(c));
                assert(sd@[c][k] == tombstone(sb@, all)[c][k]);
                assert(came_from(update.clients@, sd, c, k, ci, i));
            }
        }
        Round::Done { retry }
    }

    /// Applies `update` and `ds`: places the blocks of the update as far
    /// as the store knows what they depend on and deletes the units of
    /// `ds` as far as they are known. What cannot be placed or deleted yet
    /// is kept in the store. Where this makes known a unit that the update
    /// kept in the store waited for, that update and the deletions kept in
    /// the store are applied in turn. Fails, with the blocks placed and
    /// all deletions kept in the store, where a known unit to delete is a
    /// live embedded document or nested type; it does not where
    /// `can_apply` holds before the call.
    pub fn apply_update(&mut self, update: Update, ds: DeleteSet) -> (r: Result<(), Unsupported>)
        requires
            old(self).wf(),
            update.wf(),
            ds.wf(),
        ensures
            final(self).wf(),
            applied(*old(self), *final(self), update, ds, r is Ok),
            r is Ok ==> advanced(*old(self), *final(self), ds@.union(waiting(old(self).store))),
            plain_store(old(self).store.blocks) && update.plain() && pending_plain(
                old(self).store,
            ) ==> plain_store(final(self).store.blocks) && pending_plain(final(self).store),
            kept(update, old(self).store, *final(self)),
            r is Ok ==> all_new_supplied(update, old(self).store, *final(self)),
            r is Ok ==> pending_settled(*final(self)),
            clear_store(old(self).store.blocks, ds@.union(waiting(old(self).store)))
                && clear_update(update, ds@.union(waiting(old(self).store))) && clear_pending(
                old(self).store,
                ds@.union(waiting(old(self).store)),
            ) ==> r is Ok,
            plain_store(old(self).store.blocks) && update.plain() && pending_plain(
                old(self).store,
            ) ==> r is Ok,
    {
        let ghost t0 = *self;
        let ghost all = ds@.union(waiting(t0.store));
        proof {
            if plain_store(t0.store.blocks) && update.plain() && pending_plain(t0.store) {
                lemma_plain_clear(t0.store, update, all);
            }
        }
        let first = self.apply_once(update, ds);
        let retry = match first {
            Round::Done { retry } => retry,
            Round::Unsupported => {
                proof {
                    assert(round(t0, *self, update, ds, false, false));
                }
                return Err(Unsupported);
            },
        };
        let ghost clear0 = clear_store(t0.store.blocks, all) && clear_update(update, all)
            && clear_pending(t0.store, all);
        if retry {
            let ghost t1 = *self;
            let mut pending: Option<PendingUpdate> = None;
            std::mem::swap(&mut pending, &mut self.store.pending);
            let mut pds: Option<DeleteSet> = None;
            std::mem::swap(&mut pds, &mut self.store.pending_ds);
            let ghost t1b = *self;
            proof {
                lemma_wf_frame(t1, t1b);
            }
            match pending {
                Some(p) => {
                    let ds2 = match pds {
                        Some(d) => d,
                        None => DeleteSet::new(),
                    };
                    let ghost p_update = p.update;
                    proof {
                        let all2 = waiting(t1.store);
                        assert(ds2@.union(waiting(t1b.store)) =~= all2);
                        lemma_view(t1.store.blocks);
                        assert forall|x: Block| clear0 && #[trigger] p_update.holds(
                            x,
                        ) implies clear_block(x, all2) by {
                            assert(pending_holds(t1.store, x));
                            assert(update.holds(x) || pending_holds(t0.store, x));
                            assert(clear_block(x, all));
                        }
                        assert forall|id: ID|
                            all2.contains(id) && id.clock < t1b.store.blocks.state(
                                id.client,
                            ) implies !live_cascade(
                            #[trigger] t1b.store.blocks.units(id.client)[id.clock as int],
                        ) by {
                            assert(known(t1.store.blocks@, id));
                        }
                    }
                    let ghost ds2g = ds2;
                    proof {
                        assert(waits_as(t1.store, ds2g));
                    }
                    let again = self.apply_once(p.update, ds2);
                    proof {
                        assert(t1b == taken(t1));
                        assert(p_update == t1.store.pending->0.update);
                        assert(round(taken(t1), *self, p_update, ds2g, again is Done, false));
                        assert(round(t0, t1, update, ds, true, true));
                        assert forall|x: Block|
                            (update.holds(x) || pending_holds(t0.store, x)) implies x.spec_clock_end()
                            <= self.store.blocks.state(x.spec_id().client) || #[trigger] pending_holds(
                            self.store,
                            x,
                        ) by {
                            assert(t1.store.blocks.state(x.spec_id().client)
                                <= self.store.blocks.state(x.spec_id().client));
                            if pending_holds(t1.store, x) {
                                assert(p_update.holds(x));
                            }
                        }
                        assert forall|x: Block| #[trigger]
                            pending_holds(self.store, x) implies update.holds(x) || pending_holds(
                            t0.store,
                            x,
                        ) by {
                            assert(p_update.holds(x) || pending_holds(t1b.store, x));
                            assert(pending_holds(t1.store, x));
                        }
                    }
                    match again {
                        Round::Unsupported => {
                            return Err(Unsupported);
                        },
                        Round::Done { retry: _ } => {},
                    }
                    proof {
                        assert forall|c: u64, k: int|
                            t0.store.blocks.state(c) <= k < self.store.blocks.state(
                                c,
                            ) implies #[trigger] came(
                            update.clients@,
                            self.store.blocks,
                            c,
                            k,
                        ) || (t0.store.pending is Some && came(
                            t0.store.pending->0.update.clients@,
                            self.store.blocks,
                            c,
                            k,
                        )) by {
                            if k < t1.store.blocks.state(c) {
                                assert(came(update.clients@, t1.store.blocks, c, k));
                                lemma_supplied_advanced(
                                    update.clients@,
                                    t1b,
                                    *self,
                                    waiting(t1.store),
                                    c,
                                    k,
                                );
                            } else {
                                assert(came(p_update.clients@, self.store.blocks, c, k));
                                let (ci, i) = choose|ci: int, i: int|
                                    came_from(p_update.clients@, self.store.blocks, c, k, ci, i);
                                let x = p_update.clients@[ci].blocks@[i];
                                assert(p_update.holds_at(ci, i, x));
                                assert(pending_holds(t1.store, x));
                                if update.holds(x) {
                                    let (a, b) = choose|a: int, b: int| update.holds_at(a, b, x);
                                    assert(came_from(update.clients@, self.store.blocks, c, k, a, b));
                                } else {
                                    assert(pending_holds(t0.store, x));
                                    let q = t0.store.pending->0.update;
                                    let (a, b) = choose|a: int, b: int| q.holds_at(a, b, x);
                                    assert(came_from(q.clients@, self.store.blocks, c, k, a, b));
                                }
                            }
                        }
                        lemma_advance_twice(t0, t1, t1b, *self, all);
                    }
                },
                None => {},
            }
        }
        Ok(())
    }
}

/// Whether no unit of the block that is one of `set` is live and owns
/// further state.
pub fn block_clear_of(b: &Block, set: &IdSet) -> (r: bool)
    requires
        b.wf(),
        set.wf(),
    ensures
        r == clear_block(*b, set@),
{
    match b {
        Block::Item(item) => {
            if item.deleted || !item.content.has_cascade() {
                true
            } else {
                let held = set.contains(&item.id);
                proof {
                    assert(item.spec_len() == 1);
                    assert(live_cascade(b.unit(0)));
                    assert(ID { client: item.id.client, clock: (item.id.clock + 0) as u32 }
                        == item.id);
                }
                !held
            }
        },
        Block::GC(_) => true,
    }
}

/// No unit of `a` or of `b` is what no unit of both together is.
pub proof fn lemma_clear_union(x: Block, a: Set<ID>, b: Set<ID>)
    ensures
        clear_block(x, a.union(b)) == (clear_block(x, a) && clear_block(x, b)),
{
    if clear_block(x, a) && clear_block(x, b) {
        assert forall|j: int|
            0 <= j < x.spec_len() && a.union(b).contains(
                ID { client: x.spec_id().client, clock: (x.clock() + j) as u32 },
            ) implies !live_cascade(#[trigger] x.unit(j)) by {}
    }
    if clear_block(x, a.union(b)) {
        assert forall|j: int|
            0 <= j < x.spec_len() && a.contains(
                ID { client: x.spec_id().client, clock: (x.clock() + j) as u32 },
            ) implies !live_cascade(#[trigger] x.unit(j)) by {
            assert(a.union(b).contains(
                ID { client: x.spec_id().client, clock: (x.clock() + j) as u32 },
            ));
        }
        assert forall|j: int|
            0 <= j < x.spec_len() && b.contains(
                ID { client: x.spec_id().client, clock: (x.clock() + j) as u32 },
            ) implies !live_cascade(#[trigger] x.unit(j)) by {
            assert(a.union(b).contains(
                ID { client: x.spec_id().client, clock: (x.clock() + j) as u32 },
            ));
        }
    }
}

/// No unit of `a` or of `b` is live and owns further state where none of
/// both together is, in the store, in an update and in the update that is
/// pending; and of the pending update that is to say so of the update that
/// is pending.
pub proof fn lemma_clear_all_union(store: Store, update: Update, a: Set<ID>, b: Set<ID>)
    ensures
        clear_store(store.blocks, a.union(b)) == (clear_store(store.blocks, a) && clear_store(
            store.blocks,
            b,
        )),
        clear_update(update, a.union(b)) == (clear_update(update, a) && clear_update(update, b)),
        clear_pending(store, a.union(b)) == (clear_pending(store, a) && clear_pending(store, b)),
        store.pending matches Some(p) ==> clear_pending(store, a) == clear_update(p.update, a)
            && clear_pending(store, b) == clear_update(p.update, b),
        store.pending is None ==> clear_pending(store, a) && clear_pending(store, b),
{
    let s = store.blocks;
    let ab = a.union(b);
    if clear_store(s, ab) {
        assert forall|id: ID| a.contains(id) && id.clock < s.state(id.client) implies !live_cascade(
            #[trigger] s.units(id.client)[id.clock as int],
        ) by {
            assert(ab.contains(id));
        }
        assert forall|id: ID| b.contains(id) && id.clock < s.state(id.client) implies !live_cascade(
            #[trigger] s.units(id.client)[id.clock as int],
        ) by {
            assert(ab.contains(id));
        }
    }
    if clear_store(s, a) && clear_store(s, b) {
        assert forall|id: ID|
            ab.contains(id) && id.clock < s.state(id.client) implies !live_cascade(
            #[trigger] s.units(id.client)[id.clock as int],
        ) by {}
    }
    assert forall|x: Block| clear_block(x, ab) == (clear_block(x, a) && clear_block(x, b)) by {
        lemma_clear_union(x, a, b);
    }
    if clear_update(update, ab) {
        assert forall|x: Block| #[trigger] update.holds(x) implies clear_block(x, a)
            && clear_block(x, b) by {
            assert(clear_block(x, ab));
        }
    }
    if clear_update(update, a) && clear_update(update, b) {
        assert forall|x: Block| #[trigger] update.holds(x) implies clear_block(x, ab) by {
            assert(clear_block(x, a) && clear_block(x, b));
        }
    }
    if clear_pending(store, ab) {
        assert forall|x: Block| #[trigger] pending_holds(store, x) implies clear_block(x, a)
            && clear_block(x, b) by {
            assert(clear_block(x, ab));
        }
    }
    if clear_pending(store, a) && clear_pending(store, b) {
        assert forall|x: Block| #[trigger] pending_holds(store, x) implies clear_block(x, ab) by {
            assert(clear_block(x, a) && clear_block(x, b));
        }
    }
    match store.pending {
        Some(p) => {
            lemma_clear_pending_is(store, a);
            lemma_clear_pending_is(store, b);
        },
        None => {},
    }
}

/// Of the update that is pending in the store no unit of `a` is live and
/// owns further state just where the store says so of its pending update.
pub proof fn lemma_clear_pending_is(store: Store, a: Set<ID>)
    requires
        store.pending is Some,
    ensures
        clear_pending(store, a) == clear_update(store.pending->0.update, a),
{
    let q = store.pending->0.update;
    if clear_pending(store, a) {
        assert forall|x: Block| #[trigger] q.holds(x) implies clear_block(x, a) by {
            assert(pending_holds(store, x));
        }
    }
    if clear_update(q, a) {
        assert forall|x: Block| #[trigger] pending_holds(store, x) implies clear_block(x, a) by {
            assert(q.holds(x));
        }
    }
}

/// Where no unit is named, none of the named units is live and owns
/// further state.
pub proof fn lemma_clear_none(store: Store, update: Update)
    ensures
        clear_store(store.blocks, Set::<ID>::empty()),
        clear_update(update, Set::<ID>::empty()),
        clear_pending(store, Set::<ID>::empty()),
{
}

impl Update {
    /// Whether no unit of `set` that the update brings is live and owns
    /// further state.
    pub fn clear_of(&self, set: &IdSet) -> (r: bool)
        requires
            self.wf(),
            set.wf(),
        ensures
            r == clear_update(*self, set@),
    {
        let mut ci: usize = 0;
        while ci < self.clients.len()
            invariant
                self.wf(),
                set.wf(),
                ci <= self.clients.len(),
                forall|k: int, j: int|
                    0 <= k < ci && 0 <= j < self.clients[k].blocks@.len() ==> clear_block(
                        #[trigger] self.clients[k].blocks@[j],
                        set@,
                    ),
            decreases self.clients.len() - ci,
        {
            let mut i: usize = 0;
            while i < self.clients[ci].blocks.len()
                invariant
                    self.wf(),
                    set.wf(),
                    ci < self.clients.len(),
                    i <= self.clients[ci as int].blocks@.len(),
                    forall|j: int|
                        0 <= j < i ==> clear_block(
                            #[trigger] self.clients[ci as int].blocks@[j],
                            set@,
                        ),
                decreases self.clients[ci as int].blocks@.len() - i,
            {
                proof {
                    assert(crate::update::blocks_wf(
                        self.clients[ci as int].blocks@,
                        self.clients[ci as int].client,
                    ));
                    assert(self.clients[ci as int].blocks@[i as int].wf());
                }
                if !block_clear_of(&self.clients[ci].blocks[i], set) {
                    proof {
                        let x = self.clients[ci as int].blocks@[i as int];
                        assert(self.holds_at(ci as int, i as int, x));
                        assert(self.holds(x));
                    }
                    return false;
                }
                i += 1;
            }
            ci += 1;
        }
        proof {
            assert forall|x: Block| #[trigger] self.holds(x) implies clear_block(x, set@) by {
                let (k, j) = choose|k: int, j: int| self.holds_at(k, j, x);
                assert(clear_block(self.clients[k].blocks@[j], set@));
            }
        }
        true
    }
}

impl BlockStore {
    /// Whether no known unit of `set` is live and owns further state.
    pub fn clear_of(&self, set: &IdSet) -> (r: bool)
        requires
            self.wf(),
            set.wf(),
        ensures
            r == clear_store(*self, set@),
    {
        let mut ci: usize = 0;
        while ci < self.clients.len()
            invariant
                self.wf(),
                set.wf(),
                ci <= self.clients.len(),
                forall|k: int, j: int|
                    0 <= k < ci && 0 <= j < self.clients[k].list@.len() ==> clear_block(
                        #[trigger] self.clients[k].list@[j],
                        set@,
                    ),
            decreases self.clients.len() - ci,
        {
            let mut i: usize = 0;
            while i < self.clients[ci].list.len()
                invariant
                    self.wf(),
                    set.wf(),
                    ci < self.clients.len(),
                    i <= self.clients[ci as int].list@.len(),
                    forall|j: int|
                        0 <= j < i ==> clear_block(#[trigger] self.clients[ci as int].list@[j], set@),
                decreases self.clients[ci as int].list@.len() - i,
            {
                proof {
                    let client = self.clients[ci as int].client;
                    assert(self.has(client, ci as int));
                    self.lemma_list_of(client, ci as int);
                    assert(self.clients[ci as int].list@[i as int].wf());
                }
                if !block_clear_of(&self.clients[ci].list[i], set) {
                    proof {
                        let client = self.clients[ci as int].client;
                        let b = self.clients[ci as int].list@[i as int];
                        let j = choose|j: int|
                            0 <= j < b.spec_len() && set@.contains(
                                ID { client: b.spec_id().client, clock: (b.clock() + j) as u32 },
                            ) && live_cascade(#[trigger] b.unit(j));
                        let id = ID { client, clock: (b.clock() + j) as u32 };
                        self.lemma_unit(client, i as int, b.clock() + j);
                        lemma_view(*self);
                        assert(live_cascade(self.units(id.client)[id.clock as int]));
                    }
                    return false;
                }
                i += 1;
            }
            ci += 1;
        }
        proof {
            lemma_view(*self);
            assert forall|id: ID|
                set@.contains(id) && id.clock < self.state(id.client) implies !live_cascade(
                #[trigger] self.units(id.client)[id.clock as int],
            ) by {
                let c = id.client;
                let k = id.clock as int;
                assert(self.spec_contains_client(c));
                let i = choose|i: int| self.has(c, i);
                self.lemma_list_of(c, i);
                crate::block_store::lemma_list_covered(self.list_of(c), c, k);
                let j = crate::block_store::list_pivot(self.list_of(c), k);
                self.lemma_unit(c, j, k);
                let b = self.clients[i].list@[j];
                assert(clear_block(b, set@));
                assert(ID { client: b.spec_id().client, clock: (b.clock() + (k - b.clock())) as u32 }
                    == id);
            }
        }
        true
    }
}

impl Transaction {
    /// Whether `update` and `ds` can be applied whatever is placed first:
    /// whether no unit that `ds` or the deletions that wait in the store
    /// name is live and owns further state, in the store, in `update` or
    /// in the update that is pending.
    pub fn can_apply(&self, update: &Update, ds: &DeleteSet) -> (r: bool)
        requires
            self.wf(),
            update.wf(),
            ds.wf(),
        ensures
            r == (clear_store(self.store.blocks, ds@.union(waiting(self.store))) && clear_update(
                *update,
                ds@.union(waiting(self.store)),
            ) && clear_pending(self.store, ds@.union(waiting(self.store)))),
    {
        let ghost a = ds@;
        let ghost b = waiting(self.store);
        proof {
            lemma_clear_all_union(self.store, *update, a, b);
            if self.store.pending_ds is None {
                lemma_clear_none(self.store, *update);
            }
        }
        let mut ok = self.store.blocks.clear_of(ds) && update.clear_of(ds);
        match &self.store.pending {
            Some(p) => {
                ok = ok && p.update.clear_of(ds);
            },
            None => {},
        }
        match &self.store.pending_ds {
            Some(w) => {
                ok = ok && self.store.blocks.clear_of(w) && update.clear_of(w);
                match &self.store.pending {
                    Some(p) => {
                        ok = ok && p.update.clear_of(w);
                    },
                    None => {},
                }
            },
            None => {},
        }
        ok
    }
}

} // verus!
