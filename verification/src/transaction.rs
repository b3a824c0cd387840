//! The transaction: the unit of work on a store.

use crate::block::{
    clone_key, key_view, same_key, Block, Item, ItemContent, ItemPosition, TypePtr, Unit, ID,
};
use crate::model::{
    known, lemma_dead_block, lemma_delete_compose, lemma_delete_nothing, lemma_live_block,
    lemma_tombstone_union, live_cascade, live_in, tombstone, touched, touches, unit_at, unknown_in,
};
use crate::block_store::{
    lemma_list_bound, lemma_list_pivot, lemma_list_sorted, list_holds, list_pivot, list_starts,
    list_state, replaced, split_done, BlockStore, StateVector,
};
use crate::id_set::ClientRanges;
use std::ops::Range;
use crate::id_set::{id_range, DeleteSet, IdSet};
use crate::apply::clear_store;
use crate::integrate::placed;
use crate::store::{node_at, Store};
use crate::types::Text;
use vstd::prelude::*;

verus! {

/// A container and a key under which something changed; no key: the
/// container's sequence.
#[derive(Clone, Debug, PartialEq, Eq)]
pub struct ChangedKey {
    pub parent: TypePtr,
    pub key: Option<String>,
}

/// One unit of work on a store. It remembers how far each client was known
/// when it began, which blocks it cut, what it deleted and where it changed
/// something that was there before.
#[derive(Clone, Debug, PartialEq, Eq)]
pub struct Transaction {
    /// The state of the document.
    pub store: Store,
    /// The state of every client when the transaction began.
    pub timestamp: StateVector,
    /// Starts of the blocks that cuts have made, to be merged again later.
    pub merge_blocks: Vec<ID>,
    /// The units deleted in this transaction.
    pub delete_set: IdSet,
    /// The containers and keys under which something that was there before
    /// the transaction changed.
    pub changed: Vec<ChangedKey>,
}

/// The record of cuts `m1` holds what the record `m0` held and, behind
/// that, the block starts that `s1` has and `s0` had not.
pub open spec fn recorded(m0: Seq<ID>, m1: Seq<ID>, s0: BlockStore, s1: BlockStore) -> bool {
    &&& m0.is_prefix_of(m1)
    &&& forall|id: ID| #[trigger]
        m1.skip(m0.len() as int).contains(id) == (s1.is_start(id) && !s0.is_start(id))
}

/// Nothing cut, nothing recorded.
pub proof fn lemma_recorded_same(m: Seq<ID>, s0: BlockStore, s1: BlockStore)
    requires
        forall|id: ID| #[trigger] s1.is_start(id) == s0.is_start(id),
    ensures
        recorded(m, m, s0, s1),
{
    assert(m.skip(m.len() as int) =~= Seq::<ID>::empty());
}

/// One cut, one start recorded.
pub proof fn lemma_recorded_one(m: Seq<ID>, s0: BlockStore, s1: BlockStore, cut: ID)
    requires
        !s0.is_start(cut),
        forall|id: ID| #[trigger] s1.is_start(id) == (s0.is_start(id) || id == cut),
    ensures
        recorded(m, m.push(cut), s0, s1),
{
    let m1 = m.push(cut);
    assert(m1.skip(m.len() as int) =~= seq![cut]);
    assert(seq![cut][0] == cut);
    assert forall|id: ID| #[trigger]
        m1.skip(m.len() as int).contains(id) == (s1.is_start(id) && !s0.is_start(id)) by {
        if id == cut {
            assert(seq![cut].contains(cut));
        }
    }
}

/// Records of cuts add up.
pub proof fn lemma_recorded_compose(
    m0: Seq<ID>,
    m1: Seq<ID>,
    m2: Seq<ID>,
    s0: BlockStore,
    s1: BlockStore,
    s2: BlockStore,
)
    requires
        recorded(m0, m1, s0, s1),
        recorded(m1, m2, s1, s2),
        forall|id: ID| s0.is_start(id) ==> #[trigger] s1.is_start(id),
        forall|id: ID| s1.is_start(id) ==> #[trigger] s2.is_start(id),
    ensures
        recorded(m0, m2, s0, s2),
{
    let n0 = m0.len() as int;
    let n1 = m1.len() as int;
    assert forall|id: ID| #[trigger]
        m2.skip(n0).contains(id) == (s2.is_start(id) && !s0.is_start(id)) by {
        let a = m1.skip(n0).contains(id);
        let b = m2.skip(n1).contains(id);
        assert(a == (s1.is_start(id) && !s0.is_start(id)));
        assert(b == (s2.is_start(id) && !s1.is_start(id)));
        if m2.skip(n0).contains(id) {
            let i = choose|i: int| 0 <= i < m2.skip(n0).len() && m2.skip(n0)[i] == id;
            if n0 + i < n1 {
                assert(m1.skip(n0)[i] == id);
                assert(a);
            } else {
                assert(m2.skip(n1)[n0 + i - n1] == id);
                assert(b);
            }
        }
        if a {
            let i = choose|i: int| 0 <= i < m1.skip(n0).len() && m1.skip(n0)[i] == id;
            assert(m2.skip(n0)[i] == id);
        }
        if b {
            let i = choose|i: int| 0 <= i < m2.skip(n1).len() && m2.skip(n1)[i] == id;
            assert(m2.skip(n0)[n1 - n0 + i] == id);
        }
        if s0.is_start(id) {
            assert(s1.is_start(id));
        }
    }
}

/// `new` is `old` but for cuts: it has the same units and everything else
/// as it was, and every block start of `old` is one of `new`.
pub open spec fn same_but_cuts(old: Transaction, new: Transaction) -> bool {
    &&& new.wf()
    &&& new.store.blocks@ == old.store.blocks@
    &&& forall|c: u64| #[trigger] new.store.blocks.units(c) == old.store.blocks.units(c)
    &&& forall|c: u64| #[trigger] new.store.blocks.state(c) == old.store.blocks.state(c)
    &&& forall|c: u64| #[trigger]
        new.store.blocks.spec_contains_client(c) == old.store.blocks.spec_contains_client(c)
    &&& forall|id: ID| old.store.blocks.is_start(id) ==> #[trigger] new.store.blocks.is_start(id)
    &&& forall|p: TypePtr| old.store.spec_has_type(p) ==> #[trigger] new.store.spec_has_type(p)
    &&& new.store.client_id == old.store.client_id
    &&& new.store.names == old.store.names
    &&& new.store.types == old.store.types
    &&& new.store.pending == old.store.pending
    &&& new.store.pending_ds == old.store.pending_ds
    &&& new.timestamp == old.timestamp
    &&& new.delete_set == old.delete_set
    &&& new.changed == old.changed
    &&& recorded(old.merge_blocks@, new.merge_blocks@, old.store.blocks, new.store.blocks)
}

/// `new` is `old` after the units of `ids` were deleted: the known ones
/// are tombstoned; those of them that were not are recorded as deleted, and
/// where they are older than the transaction their containers and keys are
/// recorded as changed. Blocks may have been cut; nothing else differs.
pub open spec fn deleted_in(old: Transaction, new: Transaction, ids: Set<ID>) -> bool {
    &&& new.wf()
    &&& new.store.blocks@ == tombstone(old.store.blocks@, ids)
    &&& new.delete_set@ == old.delete_set@.union(live_in(old.store.blocks@, ids))
    &&& new.changed_view() == old.changed_view().union(
        touched(old.store.blocks@, live_in(old.store.blocks@, ids), old.timestamp@),
    )
    &&& forall|c: u64| #[trigger] new.store.blocks.state(c) == old.store.blocks.state(c)
    &&& forall|c: u64| #[trigger]
        new.store.blocks.spec_contains_client(c) == old.store.blocks.spec_contains_client(c)
    &&& forall|id: ID| old.store.blocks.is_start(id) ==> #[trigger] new.store.blocks.is_start(id)
    &&& forall|p: TypePtr| old.store.spec_has_type(p) ==> #[trigger] new.store.spec_has_type(p)
    &&& new.store == (Store { blocks: new.store.blocks, ..old.store })
    &&& new.timestamp == old.timestamp
    &&& recorded(old.merge_blocks@, new.merge_blocks@, old.store.blocks, new.store.blocks)
}

/// Range `ri` of entry `ci` of the set, whose two ends are edges of the set.
pub open spec fn ranges_wf_at(ds: IdSet, ci: int, ri: int) -> bool {
    &&& ds.is_edge(ID { client: ds.clients[ci].client, clock: ds.clients[ci].ranges@[ri].start })
    &&& ds.is_edge(ID { client: ds.clients[ci].client, clock: ds.clients[ci].ranges@[ri].end })
}

/// No cut is cuts.
pub proof fn lemma_cuts_same(t: Transaction)
    requires
        t.wf(),
    ensures
        same_but_cuts(t, t),
{
    lemma_recorded_same(t.merge_blocks@, t.store.blocks, t.store.blocks);
}

/// Cuts after cuts are cuts.
pub proof fn lemma_cuts_compose(t0: Transaction, t1: Transaction, t2: Transaction)
    requires
        same_but_cuts(t0, t1),
        same_but_cuts(t1, t2),
    ensures
        same_but_cuts(t0, t2),
{
    lemma_recorded_compose(
        t0.merge_blocks@,
        t1.merge_blocks@,
        t2.merge_blocks@,
        t0.store.blocks,
        t1.store.blocks,
        t2.store.blocks,
    );
    assert forall|c: u64| #[trigger] t2.store.blocks.units(c) == t0.store.blocks.units(c) by {
        assert(t1.store.blocks.units(c) == t0.store.blocks.units(c));
    }
    assert forall|c: u64| #[trigger] t2.store.blocks.state(c) == t0.store.blocks.state(c) by {
        assert(t1.store.blocks.state(c) == t0.store.blocks.state(c));
    }
    assert forall|c: u64| #[trigger]
        t2.store.blocks.spec_contains_client(c) == t0.store.blocks.spec_contains_client(c) by {
        assert(t1.store.blocks.spec_contains_client(c) == t0.store.blocks.spec_contains_client(c));
    }
    assert forall|id: ID| t0.store.blocks.is_start(id) implies #[trigger] t2.store.blocks.is_start(
        id,
    ) by {
        assert(t1.store.blocks.is_start(id));
    }
    assert forall|p: TypePtr| t0.store.spec_has_type(p) implies #[trigger] t2.store.spec_has_type(
        p,
    ) by {
        assert(t1.store.spec_has_type(p));
    }
}

/// The block lies within the clocks of `client` from `start` up to `end`.
pub open spec fn block_within(b: Block, client: u64, start: int, end: int) -> bool {
    b.wf() && b.spec_id().client == client && start <= b.clock() && b.spec_clock_end() <= end
}

/// The block lies within one range of the set.
pub open spec fn set_covers(set: IdSet, b: Block) -> bool {
    exists|c: int, r: int|
        #![trigger set.clients[c].ranges@[r]]
        0 <= c < set.clients.len() && 0 <= r < set.clients[c].ranges@.len() && block_within(
            b,
            set.clients[c].client,
            set.clients[c].ranges@[r].start as int,
            set.clients[c].ranges@[r].end as int,
        )
}

/// The blocks of `list` that hold clocks from `start` up to `end`, where
/// no block reaches over either.
pub open spec fn blocks_between(list: Seq<Block>, start: int, end: int) -> Seq<Block> {
    if start < end && start < list_state(list) {
        list.subrange(
            list_pivot(list, start),
            if end < list_state(list) {
                list_pivot(list, end)
            } else {
                list.len() as int
            },
        )
    } else {
        Seq::empty()
    }
}

/// The blocks that hold clocks of the first `ri` ranges of `entry`, range
/// by range.
pub open spec fn range_visits(s: BlockStore, entry: ClientRanges, ri: int) -> Seq<Block>
    decreases ri,
{
    if ri <= 0 || ri > entry.ranges@.len() {
        Seq::empty()
    } else {
        range_visits(s, entry, ri - 1) + blocks_between(
            s.list_of(entry.client),
            entry.ranges@[ri - 1].start as int,
            entry.ranges@[ri - 1].end as int,
        )
    }
}

/// The blocks that hold clocks of the first `ci` entries of `set`, entry
/// by entry and range by range.
pub open spec fn set_visits(s: BlockStore, set: IdSet, ci: int) -> Seq<Block>
    decreases ci,
{
    if ci <= 0 || ci > set.clients@.len() {
        Seq::empty()
    } else {
        set_visits(s, set, ci - 1) + range_visits(
            s,
            set.clients@[ci - 1],
            set.clients@[ci - 1].ranges@.len() as int,
        )
    }
}

/// The two ends of every range before range `ri` of entry `ci` are clean.
pub open spec fn ends_clean(s: BlockStore, set: IdSet, ci: int, ri: int) -> bool {
    forall|c: int, r: int|
        #![trigger set.clients[c].ranges@[r]]
        0 <= c < set.clients.len() && 0 <= r < set.clients[c].ranges@.len() && (c < ci || (c == ci
            && r < ri)) ==> s.is_clean(
            ID { client: set.clients[c].client, clock: set.clients[c].ranges@[r].start },
        ) && s.is_clean(ID { client: set.clients[c].client, clock: set.clients[c].ranges@[r].end })
}

/// Where the two ends of a range are clean, the blocks between them
/// are those from the block that starts at the first end up to the block
/// that starts at the second, or up to the last.
pub proof fn lemma_blocks_between(s: BlockStore, client: u64, start: int, end: int, n: int)
    requires
        s.wf(),
        0 <= start <= u32::MAX,
        0 <= end <= u32::MAX,
        0 <= n,
        start < end && start < s.state(client) ==> ({
            let list = s.list_of(client);
            let first = s.index_at(ID { client, clock: start as u32 });
            &&& list_starts(list, first, start)
            &&& first + n <= list.len()
            &&& forall|j: int|
                0 <= j < n ==> block_within(
                    #[trigger] list.subrange(first, first + n)[j],
                    client,
                    start,
                    end,
                )
            &&& first + n < list.len() ==> list[first + n].clock() >= end
        }),
        !(start < end && start < s.state(client)) ==> n == 0,
    ensures
        start < end && start < s.state(client) ==> blocks_between(s.list_of(client), start, end)
            == s.list_of(client).subrange(
            s.index_at(ID { client, clock: start as u32 }),
            s.index_at(ID { client, clock: start as u32 }) + n,
        ),
        blocks_between(s.list_of(client), start, end).len() == n,
{
    let list = s.list_of(client);
    s.lemma_list_wf(client);
    if start < end && start < s.state(client) {
        let first = s.index_at(ID { client, clock: start as u32 });
        lemma_list_bound(list, client, first);
        lemma_list_pivot(list, client, first, start);
        if first + n < list.len() {
            let next = list[first + n];
            lemma_list_bound(list, client, first + n);
            if n > 0 {
                let last = list.subrange(first, first + n)[n - 1];
                assert(last == list[first + n - 1]);
                assert(block_within(last, client, start, end));
                assert(list[first + n].clock() == list[first + n - 1].spec_clock_end());
            }
            assert(next.clock() == end) by {
                if n == 0 {
                    assert(next.clock() == start);
                }
            }
            lemma_list_pivot(list, client, first + n, end);
        } else {
            if n > 0 {
                let last = list.subrange(first, first + n)[n - 1];
                assert(last == list[first + n - 1]);
                assert(block_within(last, client, start, end));
            }
            if end < list_state(list) {
                assert(n > 0);
            }
        }
    }
}

/// The item that a client makes of `content` at `pos`: the next of the
/// store's own client, between the block it is to follow and what follows
/// that block now, or before the first item of the container. Its origin
/// is the identifier of the block it follows, its right origin that of the
/// block that follows it.
pub open spec fn new_item(store: Store, pos: ItemPosition, content: ItemContent) -> Item {
    let right = match pos.after {
        Some(a) => store.blocks.item_at(a)->0.right,
        None => store.head_of(pos.parent, None),
    };
    Item {
        id: ID { client: store.client_id, clock: store.blocks.state(store.client_id) as u32 },
        left: pos.after,
        right,
        origin: pos.after,
        right_origin: right,
        content,
        parent: pos.parent,
        parent_sub: None,
        deleted: false,
    }
}

/// A block cut in two, its start recorded and its right neighbour told, is
/// a cut: nothing but the new block start differs.
#[verifier::spinoff_prover]
#[verifier::rlimit(50)]
pub proof fn lemma_clean_start(
    t0: Transaction,
    t2: Transaction,
    s1: BlockStore,
    client: u64,
    index: int,
    k: nat,
)
    requires
        t0.wf(),
        split_done(t0.store.blocks, s1, client, index, k),
        match s1.list_of(client)[index + 1] {
            Block::Item(y) => match y.right {
                Some(r) => s1.block_at(r) is Some && replaced(
                    s1,
                    t2.store.blocks,
                    r.client,
                    s1.index_at(r),
                    s1.block_at(r)->0.with_left(Some(y.id)),
                ),
                None => t2.store.blocks == s1,
            },
            Block::GC(_) => t2.store.blocks == s1,
        },
        t2.store == (Store { blocks: t2.store.blocks, ..t0.store }),
        t2.timestamp == t0.timestamp,
        t2.delete_set == t0.delete_set,
        t2.changed == t0.changed,
        t2.merge_blocks@ == t0.merge_blocks@.push(s1.list_of(client)[index + 1].spec_id()),
    ensures
        same_but_cuts(t0, t2),
        forall|id: ID| #[trigger]
            t2.store.blocks.is_start(id) == (t0.store.blocks.is_start(id) || id == s1.list_of(
                client,
            )[index + 1].spec_id()),
        list_starts(
            t2.store.blocks.list_of(client),
            index + 1,
            s1.list_of(client)[index + 1].clock() as int,
        ),
{
    let s0 = t0.store.blocks;
    let s2 = t2.store.blocks;
    BlockStore::lemma_split_links(s0, s1, s2, client, index, k);
    lemma_recorded_one(t0.merge_blocks@, s0, s2, s1.list_of(client)[index + 1].spec_id());
    assert forall|c: u64| #[trigger] t2.stamp_ok(c) by {
        assert(t0.stamp_ok(c));
        let t = ID { client: c, clock: t2.timestamp.spec_get(c) };
        assert(s2.is_start(t) == (s0.is_start(t) || t == s1.list_of(client)[index + 1].spec_id()));
        assert(s2.state(c) == s0.state(c));
    }
    assert(t2.store.heads_wf()) by {
        assert forall|i: int| 0 <= i < t2.store.types.len() implies match (
        #[trigger] t2.store.types[i]).start {
            Some(h) => t2.store.head_ok(i, h),
            None => true,
        } by {
            match t0.store.types[i].start {
                Some(h) => {
                    assert(t0.store.head_ok(i, h));
                    assert(s0.item_at(h) is Some);
                    assert(s2.item_at(h) is Some);
                },
                None => {},
            }
        }
    }
    assert forall|p: TypePtr| t0.store.spec_has_type(p) implies #[trigger] t2.store.spec_has_type(
        p,
    ) by {
        match p {
            TypePtr::Named(_) => {},
            TypePtr::Id(t) => {
                let _ = s2.item_at(t);
            },
        }
    }
    assert forall|id: ID| s0.is_start(id) implies #[trigger] s2.is_start(id) by {}
}

/// A deletion that ends at clock `end` of `client` cuts there: the clock
/// is known, and the unit before it is live.
pub open spec fn cuts_end(s: BlockStore, client: u64, end: int) -> bool {
    0 < end < s.state(client) && !s.units(client)[end - 1].deleted()
}

/// Deleting range `ri` of entry `ci` of `ds` in `s` makes `id` a block
/// start: the range is known at least in part, and `id` is its first
/// clock, or its end where the deletion cuts there.
pub open spec fn cut_by(ds: IdSet, s: BlockStore, ci: int, ri: int, id: ID) -> bool {
    &&& 0 <= ci < ds.clients.len()
    &&& 0 <= ri < ds.clients[ci].ranges@.len()
    &&& id.client == ds.clients[ci].client
    &&& ds.clients[ci].ranges@[ri].start < s.state(id.client)
    &&& (id.clock == ds.clients[ci].ranges@[ri].start || (id.clock
        == ds.clients[ci].ranges@[ri].end && cuts_end(
        s,
        id.client,
        ds.clients[ci].ranges@[ri].end as int,
    )))
}

/// Deleting one of the ranges before range `ri` of entry `ci` of `ds`
/// makes `id` a block start.
pub open spec fn cut_upto(ds: IdSet, s: BlockStore, ci: int, ri: int, id: ID) -> bool {
    exists|c: int, r: int| (c < ci || (c == ci && r < ri)) && #[trigger] cut_by(ds, s, c, r, id)
}

/// The cuts of one more range are those of the ranges before it, and its
/// own.
pub proof fn lemma_cut_step(ds: IdSet, s: BlockStore, ci: int, ri: int, id: ID)
    ensures
        cut_upto(ds, s, ci, ri + 1, id) == (cut_upto(ds, s, ci, ri, id) || cut_by(
            ds,
            s,
            ci,
            ri,
            id,
        )),
{
    if cut_upto(ds, s, ci, ri, id) {
        let (c, r) = choose|c: int, r: int|
            (c < ci || (c == ci && r < ri)) && #[trigger] cut_by(ds, s, c, r, id);
        assert((c < ci || (c == ci && r < ri + 1)) && cut_by(ds, s, c, r, id));
    }
    if cut_by(ds, s, ci, ri, id) {
        assert((ci < ci || (ci == ci && ri < ri + 1)) && cut_by(ds, s, ci, ri, id));
    }
    if cut_upto(ds, s, ci, ri + 1, id) {
        let (c, r) = choose|c: int, r: int|
            (c < ci || (c == ci && r < ri + 1)) && #[trigger] cut_by(ds, s, c, r, id);
        if !(c == ci && r == ri) {
            assert((c < ci || (c == ci && r < ri)) && cut_by(ds, s, c, r, id));
        }
    }
}

/// The cuts of the ranges before an entry are those of the ranges before
/// the end of the entry before it.
pub proof fn lemma_cut_next(ds: IdSet, s: BlockStore, ci: int, id: ID)
    requires
        0 <= ci < ds.clients.len(),
    ensures
        cut_upto(ds, s, ci + 1, 0, id) == cut_upto(
            ds,
            s,
            ci,
            ds.clients[ci].ranges@.len() as int,
            id,
        ),
{
    let n = ds.clients[ci].ranges@.len() as int;
    if cut_upto(ds, s, ci + 1, 0, id) {
        let (c, r) = choose|c: int, r: int|
            (c < ci + 1 || (c == ci + 1 && r < 0)) && #[trigger] cut_by(ds, s, c, r, id);
        assert((c < ci || (c == ci && r < n)) && cut_by(ds, s, c, r, id));
    }
    if cut_upto(ds, s, ci, n, id) {
        let (c, r) = choose|c: int, r: int|
            (c < ci || (c == ci && r < n)) && #[trigger] cut_by(ds, s, c, r, id);
        assert((c < ci + 1 || (c == ci + 1 && r < 0)) && cut_by(ds, s, c, r, id));
    }
}

/// Where the two ends of every range of `set` are clean, and every block
/// start was one before or is an end of a range, the block starts are
/// those that were, and the known ends of the ranges.
pub proof fn lemma_edges_cut(t0: Transaction, t1: Transaction, set: IdSet)
    requires
        same_but_cuts(t0, t1),
        forall|id: ID| #[trigger]
            t1.store.blocks.is_start(id) ==> t0.store.blocks.is_start(id) || set.is_edge(id),
        ends_clean(t1.store.blocks, set, set.clients@.len() as int, 0),
    ensures
        forall|id: ID| #[trigger]
            t1.store.blocks.is_start(id) == (t0.store.blocks.is_start(id) || (set.is_edge(id)
                && id.clock < t0.store.blocks.state(id.client))),
{
    let s0 = t0.store.blocks;
    let s1 = t1.store.blocks;
    assert forall|id: ID| #[trigger]
        s1.is_start(id) == (s0.is_start(id) || (set.is_edge(id) && id.clock < s0.state(
            id.client,
        ))) by {
        assert(s1.state(id.client) == s0.state(id.client));
        if s1.is_start(id) {
            let _ = s1.lemma_block_at(id);
        }
        if s0.is_start(id) {
            assert(s1.is_start(id));
        }
        if set.is_edge(id) && id.clock < s0.state(id.client) {
            let (c, r) = choose|c: int, r: int|
                #![trigger set.clients[c].ranges@[r]]
                0 <= c < set.clients.len() && 0 <= r < set.clients[c].ranges@.len()
                    && set.clients[c].client == id.client && (set.clients[c].ranges@[r].start
                    == id.clock || set.clients[c].ranges@[r].end == id.clock);
            let a = ID { client: set.clients[c].client, clock: set.clients[c].ranges@[r].start };
            let e = ID { client: set.clients[c].client, clock: set.clients[c].ranges@[r].end };
            assert(s1.is_clean(a) && s1.is_clean(e));
        }
    }
}

/// The record of cuts `acc` with `id` behind it, where `id` has to be
/// cut: where it was not clean in `s0` and is not recorded in `acc`.
pub open spec fn add_cut(acc: Seq<ID>, s0: BlockStore, id: ID) -> Seq<ID> {
    if s0.is_clean(id) || acc.contains(id) {
        acc
    } else {
        acc.push(id)
    }
}

/// The cuts that making clean the two ends of the first `ri` ranges of
/// entry `ci` adds to `acc`, range after range, of each the start and then
/// the end.
pub open spec fn entry_edge_cuts(set: IdSet, s0: BlockStore, acc: Seq<ID>, ci: int, ri: int) -> Seq<
    ID,
>
    decreases ri,
{
    if ri <= 0 || ci < 0 || ci >= set.clients@.len() || ri > set.clients@[ci].ranges@.len() {
        acc
    } else {
        add_cut(
            add_cut(
                entry_edge_cuts(set, s0, acc, ci, ri - 1),
                s0,
                ID { client: set.clients@[ci].client, clock: set.clients@[ci].ranges@[ri - 1].start },
            ),
            s0,
            ID { client: set.clients@[ci].client, clock: set.clients@[ci].ranges@[ri - 1].end },
        )
    }
}

/// The cuts that making clean the two ends of the ranges of the first `ci`
/// entries makes, entry after entry.
pub open spec fn edge_cuts(set: IdSet, s0: BlockStore, ci: int) -> Seq<ID>
    decreases ci,
{
    if ci <= 0 || ci > set.clients@.len() {
        Seq::empty()
    } else {
        entry_edge_cuts(
            set,
            s0,
            edge_cuts(set, s0, ci - 1),
            ci - 1,
            set.clients@[ci - 1].ranges@.len() as int,
        )
    }
}

/// The cuts that deleting the known clocks of `client` from `start` up to
/// `end` makes: at the start where no block starts there, then at the end
/// where a live item reaches over it.
pub open spec fn range_cut(s: BlockStore, client: u64, start: u32, end: u32) -> Seq<ID> {
    if start < s.state(client) {
        (if s.is_start(ID { client, clock: start }) {
            Seq::<ID>::empty()
        } else {
            seq![ID { client, clock: start }]
        }) + (if cuts_end(s, client, end as int) && !s.is_start(ID { client, clock: end }) {
            seq![ID { client, clock: end }]
        } else {
            Seq::<ID>::empty()
        })
    } else {
        Seq::empty()
    }
}

/// The cuts that deleting the first `ri` ranges of entry `ci` makes, range
/// after range.
pub open spec fn entry_cuts(ds: IdSet, s: BlockStore, ci: int, ri: int) -> Seq<ID>
    decreases ri,
{
    if ri <= 0 || ci < 0 || ci >= ds.clients@.len() || ri > ds.clients@[ci].ranges@.len() {
        Seq::empty()
    } else {
        entry_cuts(ds, s, ci, ri - 1) + range_cut(
            s,
            ds.clients@[ci].client,
            ds.clients@[ci].ranges@[ri - 1].start,
            ds.clients@[ci].ranges@[ri - 1].end,
        )
    }
}

/// The cuts that deleting the ranges of the first `ci` entries makes, entry
/// after entry.
pub open spec fn set_cuts(ds: IdSet, s: BlockStore, ci: int) -> Seq<ID>
    decreases ci,
{
    if ci <= 0 || ci > ds.clients@.len() {
        Seq::empty()
    } else {
        set_cuts(ds, s, ci - 1) + entry_cuts(
            ds,
            s,
            ci - 1,
            ds.clients@[ci - 1].ranges@.len() as int,
        )
    }
}

/// Making a clock clean after cuts that are recorded in `acc` records
/// what `add_cut` says.
pub proof fn lemma_add_cut(
    m0: Seq<ID>,
    ma: Seq<ID>,
    mb: Seq<ID>,
    s0: BlockStore,
    sa: BlockStore,
    acc: Seq<ID>,
    id: ID,
)
    requires
        recorded(m0, ma, s0, sa),
        forall|t: ID| s0.is_start(t) ==> #[trigger] sa.is_start(t),
        sa.state(id.client) == s0.state(id.client),
        ma == m0 + acc,
        mb == (if sa.is_clean(id) {
            ma
        } else {
            ma.push(id)
        }),
    ensures
        mb == m0 + add_cut(acc, s0, id),
{
    assert(ma.skip(m0.len() as int) =~= acc);
    assert(acc.contains(id) == (sa.is_start(id) && !s0.is_start(id)));
    if s0.is_start(id) {
        assert(sa.is_start(id));
    }
    if !sa.is_clean(id) {
        assert(mb =~= m0 + acc.push(id));
    }
}

/// No range before a range cuts at or behind the start of that range.
pub proof fn lemma_no_cut_before(ds: IdSet, s: BlockStore, ci: int, ri: int, id: ID)
    requires
        ds.wf(),
        0 <= ci < ds.clients.len(),
        0 <= ri < ds.clients[ci].ranges@.len(),
        id.client == ds.clients[ci].client,
        id.clock >= ds.clients[ci].ranges@[ri].start,
    ensures
        !cut_upto(ds, s, ci, ri, id),
{
    if cut_upto(ds, s, ci, ri, id) {
        let (c, r) = choose|c: int, r: int|
            (c < ci || (c == ci && r < ri)) && #[trigger] cut_by(ds, s, c, r, id);
        assert(ds.has(id.client, c) && ds.has(id.client, ci));
        let rs = ds.clients[ci].ranges@;
        assert(crate::id_set::ranges_wf(rs));
        assert(rs[r].start < rs[r].end);
        assert(rs[r].end < rs[ri].start);
    }
}

/// `new` is `old` after the units of `ds` were deleted, range after range:
/// as `deleted_in` has it, with the blocks cut and the cuts recorded that
/// each range asks for.
#[verifier::opaque]
pub open spec fn deleted_by(old: Transaction, new: Transaction, ds: IdSet) -> bool {
    &&& deleted_in(old, new, ds@)
    &&& forall|id: ID| #[trigger]
        new.store.blocks.is_start(id) == (old.store.blocks.is_start(id) || cut_upto(
            ds,
            old.store.blocks,
            ds.clients@.len() as int,
            0,
            id,
        ))
    &&& new.merge_blocks@ == old.merge_blocks@ + set_cuts(
        ds,
        old.store.blocks,
        ds.clients@.len() as int,
    )
}

/// How the units that contracts see relate to the blocks.
pub proof fn lemma_view(s: BlockStore)
    requires
        s.wf(),
    ensures
        forall|c: u64| #[trigger] s@.contains_key(c) == s.spec_contains_client(c),
        forall|c: u64| s.spec_contains_client(c) ==> #[trigger] s@[c] == s.units(c),
        forall|c: u64| #[trigger] s.units(c).len() == s.state(c),
        forall|c: u64| #[trigger] s.state(c) <= u32::MAX,
        forall|c: u64| !s.spec_contains_client(c) ==> #[trigger] s.state(c) == 0,
        forall|c: u64| s@.contains_key(c) ==> (#[trigger] s@[c]).len() <= u32::MAX,
        forall|id: ID| #[trigger] known(s@, id) == (id.clock < s.state(id.client)),
{
    assert forall|c: u64| #[trigger] s.state(c) <= u32::MAX by {
        s.lemma_list_wf(c);
        let list = s.list_of(c);
        if list.len() > 0 {
            assert(list[list.len() - 1].wf());
        }
    }
    assert forall|c: u64| s@.contains_key(c) implies (#[trigger] s@[c]).len() <= u32::MAX by {
        assert(s.state(c) <= u32::MAX);
    }
    assert forall|id: ID| #[trigger] known(s@, id) == (id.clock < s.state(id.client)) by {
        assert(s.units(id.client).len() == s.state(id.client));
    }
}

/// What a block start tells of its block: how far it reaches, that nothing
/// starts within it, and that its units are the store's.
pub proof fn lemma_block_extent(s: BlockStore, id: ID)
    requires
        s.wf(),
        s.is_start(id),
    ensures
        ({
            let b = s.block_at(id)->0;
            &&& b.spec_id() == id
            &&& b.wf()
            &&& s.spec_contains_client(id.client)
            &&& b.spec_clock_end() <= s.state(id.client)
            &&& s.is_clean(ID { client: id.client, clock: b.spec_clock_end() as u32 })
            &&& forall|t: ID|
                t.client == id.client && id.clock < t.clock < b.spec_clock_end()
                    ==> !#[trigger] s.is_start(t)
            &&& forall|k: int|
                id.clock <= k < b.spec_clock_end() ==> #[trigger] s.units(id.client)[k] == b.unit(
                    k - id.clock,
                )
        }),
{
    let b = s.block_at(id)->0;
    let i = s.lemma_block_at(id);
    let list = s.list_of(id.client);
    s.lemma_list_wf(id.client);
    lemma_list_bound(list, id.client, i);
    if i + 1 < list.len() {
        assert(list[i + 1].clock() == list[i].spec_clock_end());
        s.lemma_block_index(id.client, i + 1);
    }
    assert forall|t: ID|
        t.client == id.client && id.clock < t.clock < b.spec_clock_end() implies !#[trigger] s.is_start(
            t,
        ) by {
        if s.is_start(t) {
            let j = s.lemma_block_at(t);
            lemma_list_pivot(list, id.client, j, t.clock as int);
            lemma_list_pivot(list, id.client, i, t.clock as int);
        }
    }
    assert forall|k: int| id.clock <= k < b.spec_clock_end() implies #[trigger] s.units(
        id.client,
    )[k] == b.unit(k - id.clock) by {
        s.lemma_unit(id.client, i, k);
    }
}

/// Deleting the units of `a` and then those of `b` deletes those of `a`
/// and of `b2`, where `b2` adds to `b` only units that are not known.
pub proof fn lemma_deleted_in_compose(
    t0: Transaction,
    t1: Transaction,
    t2: Transaction,
    a: Set<ID>,
    b: Set<ID>,
    b2: Set<ID>,
)
    requires
        t0.store.blocks.wf(),
        deleted_in(t0, t1, a),
        deleted_in(t1, t2, b),
        b.subset_of(b2),
        forall|id: ID| b2.contains(id) && !b.contains(id) ==> !known(t0.store.blocks@, id),
    ensures
        deleted_in(t0, t2, a.union(b2)),
{
    let u = t0.store.blocks@;
    let stamp = t0.timestamp@;
    lemma_view(t0.store.blocks);
    lemma_recorded_compose(
        t0.merge_blocks@,
        t1.merge_blocks@,
        t2.merge_blocks@,
        t0.store.blocks,
        t1.store.blocks,
        t2.store.blocks,
    );
    lemma_delete_compose(u, a, b, b2, stamp);
    assert(t2.store.blocks@ == tombstone(u, a.union(b2)));
    assert(t2.delete_set@ =~= t0.delete_set@.union(live_in(u, a.union(b2))));
    assert(t2.changed_view() =~= t0.changed_view().union(
        touched(u, live_in(u, a.union(b2)), stamp),
    ));
    assert forall|c: u64| #[trigger] t2.store.blocks.state(c) == t0.store.blocks.state(c) by {
        assert(t1.store.blocks.state(c) == t0.store.blocks.state(c));
    }
    assert forall|c: u64| #[trigger]
        t2.store.blocks.spec_contains_client(c) == t0.store.blocks.spec_contains_client(c) by {
        assert(t1.store.blocks.spec_contains_client(c) == t0.store.blocks.spec_contains_client(c));
    }
    assert forall|id: ID| t0.store.blocks.is_start(id) implies #[trigger] t2.store.blocks.is_start(
        id,
    ) by {
        assert(t1.store.blocks.is_start(id));
    }
    assert forall|p: TypePtr| t0.store.spec_has_type(p) implies #[trigger] t2.store.spec_has_type(
        p,
    ) by {
        assert(t1.store.spec_has_type(p));
    }
}

/// Entry `i` of a record of changes is `p`.
pub open spec fn changed_at(changed: Seq<ChangedKey>, i: int, p: (TypePtr, Option<Seq<char>>)) -> bool {
    0 <= i < changed.len() && changed[i].parent == p.0 && key_view(changed[i].key) == p.1
}

/// The containers and keys that a record of changes holds.
pub open spec fn changed_set(changed: Seq<ChangedKey>) -> Set<(TypePtr, Option<Seq<char>>)> {
    Set::new(|p: (TypePtr, Option<Seq<char>>)| exists|i: int| changed_at(changed, i, p))
}

/// No container and key stands twice in a record of changes.
pub open spec fn changed_unique(changed: Seq<ChangedKey>) -> bool {
    forall|i: int, j: int|
        0 <= i < j < changed.len() ==> !((#[trigger] changed[i]).parent == (
        #[trigger] changed[j]).parent && key_view(changed[i].key) == key_view(changed[j].key))
}

impl Transaction {
    /// The containers and keys recorded as changed.
    pub open spec fn changed_view(&self) -> Set<(TypePtr, Option<Seq<char>>)> {
        changed_set(self.changed@)
    }

    /// What `client` had when the transaction began is still known, and ends
    /// where a block ends.
    pub open spec fn stamp_ok(&self, client: u64) -> bool {
        &&& self.timestamp.spec_get(client) <= self.store.blocks.state(client)
        &&& self.store.blocks.is_clean(ID { client, clock: self.timestamp.spec_get(client) })
    }

    /// The store is sound, no client has two clocks or two entries, no
    /// container and key is recorded as changed twice, and no block reaches
    /// over the clock at which the transaction began.
    pub open spec fn wf(&self) -> bool {
        &&& self.store.wf()
        &&& self.timestamp.wf()
        &&& self.delete_set.wf()
        &&& changed_unique(self.changed@)
        &&& forall|c: u64| #[trigger] self.stamp_ok(c)
    }

    /// Begins a transaction on `store`.
    pub fn new(store: Store) -> (txn: Transaction)
        requires
            store.wf(),
        ensures
            txn.wf(),
            txn.store == store,
            forall|c: u64| #[trigger]
                txn.timestamp@.contains_key(c) == store.blocks.spec_contains_client(c),
            forall|c: u64| #[trigger] txn.timestamp.spec_get(c) == store.blocks.state(c),
            txn.merge_blocks@.len() == 0,
            txn.delete_set@ == Set::<ID>::empty(),
            txn.delete_set.clients@.len() == 0,
            txn.changed@.len() == 0,
    {
        let begin_timestamp = store.blocks.get_state_vector();
        let txn = Transaction {
            store,
            timestamp: begin_timestamp,
            merge_blocks: Vec::new(),
            delete_set: IdSet::new(),
            changed: Vec::new(),
        };
        proof {
            assert forall|c: u64| #[trigger] txn.stamp_ok(c) by {
                assert(txn.timestamp.spec_get(c) == store.blocks.state(c));
            }
        }
        txn
    }

    /// Tells the block that starts at `right_ptr` that its left neighbour
    /// now starts at `id`: after a cut, the old right neighbour has to name
    /// the new right part.
    pub fn rewire(&mut self, right_ptr: &ID, id: ID)
        requires
            old(self).store.blocks.wf(),
            old(self).store.blocks.block_at(*right_ptr) is Some,
        ensures
            replaced(
                old(self).store.blocks,
                final(self).store.blocks,
                right_ptr.client,
                old(self).store.blocks.index_at(*right_ptr),
                old(self).store.blocks.block_at(*right_ptr)->0.with_left(Some(id)),
            ),
            *final(self) == (Transaction {
                store: Store { blocks: final(self).store.blocks, ..old(self).store },
                ..*old(self)
            }),
    {
        proof {
            let j = self.store.blocks.lemma_block_at(*right_ptr);
        }
        match self.store.blocks.locate(right_ptr) {
            Some((ci, i)) => {
                proof {
                    let j = self.store.blocks.lemma_block_at(*right_ptr);
                    self.store.blocks.lemma_list_wf(right_ptr.client);
                    let list = self.store.blocks.list_of(right_ptr.client);
                    lemma_list_pivot(list, right_ptr.client, j, right_ptr.clock as int);
                    lemma_list_pivot(list, right_ptr.client, i as int, right_ptr.clock as int);
                    self.store.blocks.lemma_list_of(right_ptr.client, ci as int);
                }
                self.store.blocks.set_left(ci, i, Some(id));
            },
            None => {},
        }
    }

    /// Makes `clock` of `client` the first clock of a block, cutting the
    /// block that holds it where it does not start there: the left part
    /// keeps the identifier, the right part starts at `clock`, takes over
    /// the right neighbour and is put into the list at once; its start is
    /// recorded among the cuts, and the old right neighbour is told of it.
    /// Returns the index of the block that starts at `clock`; none where
    /// the clock is not known yet.
    #[verifier::spinoff_prover]
    pub fn find_index_clean_start(&mut self, client: &u64, clock: u32) -> (r: Option<usize>)
        requires
            old(self).wf(),
        ensures
            same_but_cuts(*old(self), *final(self)),
            r is Some <==> clock < old(self).store.blocks.state(*client),
            r matches Some(i) ==> list_starts(
                final(self).store.blocks.list_of(*client),
                i as int,
                clock as int,
            ),
            forall|id: ID| #[trigger]
                final(self).store.blocks.is_start(id) == (old(self).store.blocks.is_start(id) || (
                id == (ID { client: *client, clock }) && clock < old(self).store.blocks.state(
                    *client,
                ))),
            final(self).merge_blocks@ == (if old(self).store.blocks.is_clean(
                ID { client: *client, clock },
            ) {
                old(self).merge_blocks@
            } else {
                old(self).merge_blocks@.push(ID { client: *client, clock })
            }),
            old(self).store.blocks.is_clean(ID { client: *client, clock }) ==> *final(self) == *old(
                self,
            ),
    {
        let ghost target = ID { client: *client, clock };
        let ci = match self.store.blocks.find_client(*client) {
            Some(ci) => ci,
            None => {
                return None;
            },
        };
        proof {
            self.store.blocks.lemma_list_of(*client, ci as int);
        }
        let index = match self.store.blocks.clients[ci].find_pivot(clock) {
            Some(i) => i,
            None => {
                return None;
            },
        };
        let start = self.store.blocks.clients[ci].list[index].id().clock;
        proof {
            self.store.blocks.lemma_block_index(*client, index as int);
        }
        if start < clock {
            let ghost s0 = self.store.blocks;
            proof {
                if s0.is_start(target) {
                    let j = s0.lemma_block_at(target);
                    lemma_list_pivot(s0.list_of(*client), *client, j, clock as int);
                    lemma_list_pivot(s0.list_of(*client), *client, index as int, clock as int);
                }
                assert(!s0.is_clean(target));
            }
            assert(index < self.store.blocks.clients[ci as int].list.len());
            let (id, next) = self.store.blocks.split_block(ci, index, clock - start);
            let ghost s1 = self.store.blocks;
            self.merge_blocks.push(id);
            proof {
                let b = s0.list_of(*client)[index as int];
                if b is Item {
                    assert(s0.item_at(b.spec_id()) == Some(b->Item_0));
                    assert(s0.link_ok(b->Item_0));
                }
            }
            match next {
                Some(right_ptr) => {
                    self.rewire(&right_ptr, id);
                },
                None => {},
            }
            proof {
                lemma_clean_start(
                    *old(self),
                    *self,
                    s1,
                    *client,
                    index as int,
                    (clock - start) as nat,
                );
            }
            Some(index + 1)
        } else {
            proof {
                assert(self.store.blocks.is_start(target));
            }
            Some(index)
        }
    }

    /// Records that something changed in container `parent` under `key`.
    pub fn add_changed(&mut self, parent: TypePtr, key: Option<String>)
        ensures
            final(self).changed_view() == old(self).changed_view().insert((parent, key_view(key))),
            *final(self) == (Transaction { changed: final(self).changed, ..*old(self) }),
            changed_unique(old(self).changed@) ==> changed_unique(final(self).changed@),
            final(self).changed@ == (if old(self).changed_view().contains((parent, key_view(key))) {
                old(self).changed@
            } else {
                old(self).changed@.push(ChangedKey { parent, key })
            }),
    {
        let ghost p = (parent, key_view(key));
        let mut i: usize = 0;
        while i < self.changed.len()
            invariant
                i <= self.changed.len(),
                *self == *old(self),
                p == (parent, key_view(key)),
                forall|j: int| 0 <= j < i ==> !changed_at(self.changed@, j, p),
            decreases self.changed.len() - i,
        {
            if self.changed[i].parent == parent && same_key(&self.changed[i].key, &key) {
                proof {
                    assert(changed_at(self.changed@, i as int, p));
                    assert(self.changed_view() =~= old(self).changed_view().insert(p));
                    assert(self.changed_view().contains(p));
                }
                return ;
            }
            i += 1;
        }
        self.changed.push(ChangedKey { parent, key });
        proof {
            let n = old(self).changed.len() as int;
            assert(changed_at(self.changed@, n, p));
            if old(self).changed_view().contains(p) {
                let j = choose|j: int| changed_at(old(self).changed@, j, p);
                assert(changed_at(old(self).changed@, j, p));
            }
            if changed_unique(old(self).changed@) {
                assert forall|i: int, j: int| 0 <= i < j < self.changed@.len() implies !((
                #[trigger] self.changed@[i]).parent == (#[trigger] self.changed@[j]).parent
                    && key_view(self.changed@[i].key) == key_view(self.changed@[j].key)) by {
                    if j == n {
                        assert(!changed_at(old(self).changed@, i, p));
                    }
                }
            }
            assert forall|q: (TypePtr, Option<Seq<char>>)|
                self.changed_view().contains(q) == (old(self).changed_view().contains(q) || q
                    == p) by {
                if old(self).changed_view().contains(q) {
                    let j = choose|j: int| changed_at(old(self).changed@, j, q);
                    assert(changed_at(self.changed@, j, q));
                }
                if self.changed_view().contains(q) {
                    let j = choose|j: int| changed_at(self.changed@, j, q);
                    if j < n {
                        assert(changed_at(old(self).changed@, j, q));
                    }
                }
            }
            assert(self.changed_view() =~= old(self).changed_view().insert(p));
        }
    }

    /// Tombstoning a block tombstones its units, and no others.
    pub proof fn lemma_deleted_view(old: BlockStore, new: BlockStore, client: u64, i: int)
        requires
            old.wf(),
            0 <= i < old.list_of(client).len(),
            replaced(old, new, client, i, old.list_of(client)[i].with_deleted()),
        ensures
            new@ == tombstone(
                old@,
                id_range(
                    client,
                    old.list_of(client)[i].clock() as int,
                    old.list_of(client)[i].spec_clock_end() as int,
                ),
            ),
    {
        let b = old.list_of(client)[i];
        let ids = id_range(client, b.clock() as int, b.spec_clock_end() as int);
        old.lemma_block_index(client, i);
        old.lemma_list_wf(client);
        assert forall|c: u64| old@.contains_key(c) implies #[trigger] new@[c] == tombstone(
            old@,
            ids,
        )[c] by {
            assert(new.state(c) == old.state(c));
            assert forall|k: int| 0 <= k < old.state(c) implies new.units(c)[k] == tombstone(
                old@,
                ids,
            )[c][k] by {
                old.lemma_list_wf(c);
                crate::block_store::lemma_list_covered(old.list_of(c), c, k);
                let p = crate::block_store::list_pivot(old.list_of(c), k);
                crate::block_store::lemma_list_bound(old.list_of(c), c, p);
                if c == client && b.clock() <= k < b.spec_clock_end() {
                    old.lemma_unit(client, i, k);
                }
            }
            assert(new.units(c) =~= tombstone(old@, ids)[c]);
        }
        assert(new@ =~= tombstone(old@, ids));
    }

    /// Deletes the item that starts at `id`. Deleting a deleted item does
    /// nothing. Otherwise the item is tombstoned, its units are recorded as
    /// deleted, and where the item is older than the transaction its
    /// container and key are recorded as changed.
    pub fn delete(&mut self, id: &ID)
        requires
            old(self).wf(),
            old(self).store.blocks.item_at(*id) matches Some(x) && (x.deleted
                || !x.content.spec_has_cascade()),
        ensures
            final(self).wf(),
            old(self).store.blocks.item_at(*id)->0.deleted ==> *final(self) == *old(self),
            !old(self).store.blocks.item_at(*id)->0.deleted ==> {
                let x = old(self).store.blocks.item_at(*id)->0;
                let ids = id_range(id.client, id.clock as int, id.clock + x.spec_len());
                &&& replaced(
                    old(self).store.blocks,
                    final(self).store.blocks,
                    id.client,
                    old(self).store.blocks.index_at(*id),
                    Block::Item(x).with_deleted(),
                )
                &&& final(self).store.blocks@ == tombstone(old(self).store.blocks@, ids)
                &&& final(self).delete_set@ == old(self).delete_set@.union(ids)
                &&& final(self).changed_view() == (if id.clock < old(self).timestamp.spec_get(
                    id.client,
                ) {
                    old(self).changed_view().insert((x.parent, key_view(x.parent_sub)))
                } else {
                    old(self).changed_view()
                })
            },
            final(self).store == (Store { blocks: final(self).store.blocks, ..old(self).store }),
            final(self).timestamp == old(self).timestamp,
            final(self).merge_blocks == old(self).merge_blocks,
            forall|t: ID| #[trigger]
                final(self).store.blocks.is_start(t) == old(self).store.blocks.is_start(t),
            forall|p: TypePtr|
                old(self).store.spec_has_type(p) ==> #[trigger] final(self).store.spec_has_type(p),
    {
        let ghost s0 = self.store.blocks;
        let ghost x = s0.item_at(*id)->0;
        proof {
            let j = s0.lemma_block_at(*id);
            s0.lemma_list_wf(id.client);
        }
        let (ci, i) = match self.store.blocks.locate(id) {
            Some(p) => p,
            None => {
                return ;
            },
        };
        proof {
            let j = s0.lemma_block_at(*id);
            let list = s0.list_of(id.client);
            lemma_list_pivot(list, id.client, j, id.clock as int);
            lemma_list_pivot(list, id.client, i as int, id.clock as int);
            s0.lemma_list_of(id.client, ci as int);
        }
        let (deleted, len, parent, key) = match &self.store.blocks.clients[ci].list[i] {
            Block::Item(item) => (item.deleted, item.len(), item.parent, clone_key(
                &item.parent_sub,
            )),
            Block::GC(_) => {
                return ;
            },
        };
        if !deleted {
            self.store.blocks.mark_deleted(ci, i);
            self.delete_set.insert(*id, len);
            if id.clock < self.timestamp.get(&id.client) {
                self.add_changed(parent, key);
            }
            proof {
                let s2 = self.store.blocks;
                let b2 = Block::Item(x).with_deleted();
                let ids = id_range(id.client, id.clock as int, id.clock + x.spec_len());
                assert(s0.clients[ci as int].list@[i as int] == Block::Item(x));
                assert(i == s0.index_at(*id));
                assert(replaced(s0, s2, id.client, i as int, b2));
                assert(self.delete_set@ == old(self).delete_set@.union(ids));
                assert(self.changed_view() == (if id.clock < old(self).timestamp.spec_get(
                    id.client,
                ) {
                    old(self).changed_view().insert((x.parent, key_view(x.parent_sub)))
                } else {
                    old(self).changed_view()
                }));
                BlockStore::lemma_replaced_links(s0, s2, id.client, i as int, b2);
                Self::lemma_deleted_view(s0, s2, id.client, i as int);
                assert forall|c: u64| #[trigger] self.stamp_ok(c) by {
                    assert(old(self).stamp_ok(c));
                    let t = ID { client: c, clock: self.timestamp.spec_get(c) };
                    assert(s2.is_start(t) == s0.is_start(t));
                    assert(s2.state(c) == s0.state(c));
                }
                assert(self.store.heads_wf()) by {
                    assert forall|k: int| 0 <= k < self.store.types.len() implies match (
                    #[trigger] self.store.types[k]).start {
                        Some(h) => self.store.head_ok(k, h),
                        None => true,
                    } by {
                        assert(self.store.types[k] == old(self).store.types[k]);
                        match old(self).store.types[k].start {
                            Some(h) => {
                                assert(old(self).store.head_ok(k, h));
                                assert(s0.item_at(h) is Some);
                                assert(s2.item_at(h) is Some);
                            },
                            None => {},
                        }
                    }
                    assert forall|p: TypePtr, s: Option<Seq<char>>, k: int|
                        node_at(self.store.types@, p, s, k) == node_at(old(self).store.types@, p, s, k) by {}
                }
                assert forall|p: TypePtr| old(self).store.spec_has_type(p) implies #[trigger]
                    self.store.spec_has_type(p) by {
                    match p {
                        TypePtr::Named(_) => {},
                        TypePtr::Id(t) => {
                            let _ = s2.item_at(t);
                        },
                    }
                }
            }
        }
    }

    /// Deletes the units of `client` with clocks from `clock` up to
    /// `clock_end`, all of them known. The block that reaches over the
    /// first clock is cut there; a live item that reaches over the end is
    /// cut there before it is deleted.
    pub fn delete_range(&mut self, client: u64, clock: u32, clock_end: u32)
        requires
            old(self).wf(),
            clock < clock_end <= old(self).store.blocks.state(client),
            forall|k: int|
                clock <= k < clock_end ==> !live_cascade(
                    #[trigger] old(self).store.blocks.units(client)[k],
                ),
        ensures
            deleted_in(*old(self), *final(self), id_range(client, clock as int, clock_end as int)),
            forall|id: ID| #[trigger]
                final(self).store.blocks.is_start(id) == (old(self).store.blocks.is_start(id) || id
                    == (ID { client, clock }) || (id == (ID { client, clock: clock_end })
                    && cuts_end(old(self).store.blocks, client, clock_end as int))),
            final(self).merge_blocks@ == old(self).merge_blocks@ + range_cut(
                old(self).store.blocks,
                client,
                clock,
                clock_end,
            ),
    {
        let ghost t0 = *self;
        let ghost u0 = t0.store.blocks@;
        let ghost stamp = t0.timestamp@;
        let ghost c0 = clock as int;
        proof {
            lemma_view(t0.store.blocks);
        }
        let ghost start_id = ID { client, clock };
        let ghost end_id = ID { client, clock: clock_end };
        let ghost first_cut = if t0.store.blocks.is_start(start_id) {
            Seq::<ID>::empty()
        } else {
            seq![start_id]
        };
        self.find_index_clean_start(&client, clock);
        proof {
            assert(self.merge_blocks@ =~= t0.merge_blocks@ + first_cut + Seq::<ID>::empty());
            lemma_delete_nothing(u0, stamp, id_range(client, c0, c0));
            assert(self.delete_set@ =~= t0.delete_set@.union(live_in(u0, id_range(client, c0, c0))));
            assert(self.changed_view() =~= t0.changed_view().union(
                touched(u0, live_in(u0, id_range(client, c0, c0)), stamp),
            ));
        }
        let mut cur: u32 = clock;
        while cur < clock_end
            invariant
                t0.wf(),
                u0 == t0.store.blocks@,
                stamp == t0.timestamp@,
                c0 == clock as int,
                self.wf(),
                clock <= cur,
                cur <= t0.store.blocks.state(client),
                clock < clock_end <= t0.store.blocks.state(client),
                cur < clock_end ==> self.store.blocks.is_start(ID { client, clock: cur }),
                self.store.blocks@ == tombstone(
                    u0,
                    id_range(client, c0, if cur < clock_end {
                        cur as int
                    } else {
                        clock_end as int
                    }),
                ),
                self.delete_set@ == t0.delete_set@.union(
                    live_in(
                        u0,
                        id_range(client, c0, if cur < clock_end {
                            cur as int
                        } else {
                            clock_end as int
                        }),
                    ),
                ),
                self.changed_view() == t0.changed_view().union(
                    touched(
                        u0,
                        live_in(
                            u0,
                            id_range(client, c0, if cur < clock_end {
                                cur as int
                            } else {
                                clock_end as int
                            }),
                        ),
                        stamp,
                    ),
                ),
                forall|c: u64| #[trigger]
                    self.store.blocks.state(c) == t0.store.blocks.state(c),
                forall|c: u64| #[trigger]
                    self.store.blocks.spec_contains_client(c)
                        == t0.store.blocks.spec_contains_client(c),
                forall|id: ID|
                    t0.store.blocks.is_start(id) ==> #[trigger] self.store.blocks.is_start(id),
                forall|id: ID| #[trigger]
                    self.store.blocks.is_start(id) == (t0.store.blocks.is_start(id) || id == (ID {
                        client,
                        clock,
                    }) || (id == (ID { client, clock: clock_end }) && cur >= clock_end && cuts_end(
                        t0.store.blocks,
                        client,
                        clock_end as int,
                    ))),
                forall|p: TypePtr|
                    t0.store.spec_has_type(p) ==> #[trigger] self.store.spec_has_type(p),
                self.store == (Store { blocks: self.store.blocks, ..t0.store }),
                self.timestamp == t0.timestamp,
                recorded(
                    t0.merge_blocks@,
                    self.merge_blocks@,
                    t0.store.blocks,
                    self.store.blocks,
                ),
                forall|k: int|
                    clock <= k < clock_end ==> !live_cascade(
                        #[trigger] t0.store.blocks.units(client)[k],
                    ),
                start_id == (ID { client, clock }),
                end_id == (ID { client, clock: clock_end }),
                first_cut == (if t0.store.blocks.is_start(start_id) {
                    Seq::<ID>::empty()
                } else {
                    seq![start_id]
                }),
                self.merge_blocks@ == t0.merge_blocks@ + first_cut + (if cur >= clock_end
                    && cuts_end(t0.store.blocks, client, clock_end as int)
                    && !t0.store.blocks.is_start(end_id) {
                    seq![end_id]
                } else {
                    Seq::<ID>::empty()
                }),
            decreases
                    (if cur < clock_end {
                        clock_end - cur
                    } else {
                        0
                    }),
        {
            let id = ID::new(client, cur);
            let ghost ta = *self;
            let ghost sa = self.store.blocks;
            let ghost lim = cur as int;
            proof {
                lemma_view(t0.store.blocks);
                lemma_view(sa);
                lemma_block_extent(sa, id);
                let j = sa.lemma_block_at(id);
                sa.lemma_list_wf(client);
            }
            let (ci, i) = match self.store.blocks.locate(&id) {
                Some(p) => p,
                None => {
                    return ;
                },
            };
            proof {
                let j = sa.lemma_block_at(id);
                lemma_list_pivot(sa.list_of(client), client, j, cur as int);
                lemma_list_pivot(sa.list_of(client), client, i as int, cur as int);
                sa.lemma_list_of(client, ci as int);
            }
            let b_end = self.store.blocks.clients[ci].list[i].clock_end();
            let dead = self.store.blocks.clients[ci].list[i].is_deleted();
            let ghost b = sa.block_at(id)->0;
            proof {
                assert(sa.clients[ci as int].list@[i as int] == b);
                assert(sa.units(client) == sa@[client]);
                assert forall|k: int| lim <= k < b_end implies sa.units(client)[k] == u0[client][k] by {
                    let t = ID { client, clock: k as u32 };
                    assert(!id_range(client, c0, lim).contains(t));
                }
            }
            if !dead {
                let ghost lim2 = if b_end > clock_end {
                    clock_end as int
                } else {
                    b_end as int
                };
                if b_end > clock_end {
                    self.find_index_clean_start(&client, clock_end);
                }
                let ghost tb = *self;
                let ghost sb = self.store.blocks;
                proof {
                    lemma_view(sb);
                    lemma_block_extent(sb, id);
                    let b2 = sb.block_at(id)->0;
                    assert(sb.units(client)[lim] == b2.unit(0));
                    assert(sa.units(client)[lim] == b.unit(0));
                    assert(sb.units(client) == sa.units(client));
                    let e2 = ID { client, clock: b2.spec_clock_end() as u32 };
                    if b_end > clock_end {
                        let ce = ID { client, clock: clock_end };
                        assert(sb.is_start(ce));
                        if b2.spec_clock_end() < clock_end {
                            assert(sb.is_start(e2));
                            assert(sa.is_start(e2));
                        }
                    } else {
                        assert(sb == sa);
                    }
                    assert(b2.spec_clock_end() == lim2);
                    assert(t0.store.blocks.units(client)[lim] == u0[client][lim]);
                    assert(!live_cascade(u0[client][lim]));
                    assert(b2 is Item);
                    assert(!b2->Item_0.content.spec_has_cascade());
                    assert(sa.is_start(id));
                    assert(sb.is_start(id));
                }
                self.delete(&id);
                let ghost x = sb.item_at(id)->0;
                let ghost pk = (x.parent, key_view(x.parent_sub));
                if b_end > clock_end {
                    cur = clock_end;
                } else {
                    cur = b_end;
                }
                proof {
                    let sc = self.store.blocks;
                    lemma_view(sc);
                    let b2 = sb.block_at(id)->0;
                    assert forall|k: int| lim <= k < lim2 implies (#[trigger] u0[client][k] matches Unit::Item(
                        u,
                    ) && !u.deleted && u.parent == pk.0 && u.parent_sub == pk.1) by {
                        assert(sb.units(client)[k] == b2.unit(k - lim));
                        assert(sa.units(client)[k] == u0[client][k]);
                    }
                    assert(tb.stamp_ok(client));
                    let st = ID { client, clock: tb.timestamp.spec_get(client) };
                    assert(stamp.contains_key(client) ==> stamp[client] <= lim || stamp[client]
                        >= lim2) by {
                        if stamp.contains_key(client) && lim < stamp[client] < lim2 {
                            assert(sb.is_start(st));
                        }
                    }
                    lemma_live_block(u0, stamp, client, c0, lim, lim2, pk);
                    lemma_tombstone_union(
                        u0,
                        id_range(client, c0, lim),
                        id_range(client, lim, lim2),
                    );
                    assert(self.delete_set@ =~= t0.delete_set@.union(
                        live_in(u0, id_range(client, c0, lim2)),
                    ));
                    assert(self.changed_view() =~= t0.changed_view().union(
                        touched(u0, live_in(u0, id_range(client, c0, lim2)), stamp),
                    ));
                    let e2 = ID { client, clock: lim2 as u32 };
                    assert(sb.is_clean(e2));
                    if b_end > clock_end {
                    } else {
                        lemma_recorded_same(ta.merge_blocks@, sa, sb);
                    }
                    lemma_recorded_compose(
                        t0.merge_blocks@,
                        ta.merge_blocks@,
                        tb.merge_blocks@,
                        t0.store.blocks,
                        sa,
                        sb,
                    );
                    lemma_recorded_same(tb.merge_blocks@, sb, sc);
                    lemma_recorded_compose(
                        t0.merge_blocks@,
                        tb.merge_blocks@,
                        self.merge_blocks@,
                        t0.store.blocks,
                        sb,
                        sc,
                    );
                    assert(self.merge_blocks@ == tb.merge_blocks@);
                    assert(ta.merge_blocks@ == t0.merge_blocks@ + first_cut + Seq::<ID>::empty());
                    if b_end > clock_end {
                        assert(!sa.is_start(end_id));
                        assert(!sa.is_clean(end_id));
                        assert(!t0.store.blocks.is_start(end_id));
                        assert(tb.merge_blocks@ =~= t0.merge_blocks@ + first_cut + seq![end_id]);
                    } else {
                        assert(tb.merge_blocks@ == ta.merge_blocks@);
                        if lim2 == clock_end && cuts_end(
                            t0.store.blocks,
                            client,
                            clock_end as int,
                        ) {
                            assert(sa.is_start(end_id));
                            assert(t0.store.blocks.is_start(end_id));
                        }
                    }
                    assert forall|c: u64| #[trigger] sc.state(c) == t0.store.blocks.state(c) by {
                        assert(sb.state(c) == sa.state(c));
                    }
                    assert forall|c: u64| #[trigger]
                        sc.spec_contains_client(c) == t0.store.blocks.spec_contains_client(c) by {
                        assert(sb.spec_contains_client(c) == sa.spec_contains_client(c));
                    }
                    assert forall|t: ID| t0.store.blocks.is_start(t) implies #[trigger] sc.is_start(
                        t,
                    ) by {
                        assert(sa.is_start(t));
                        assert(sb.is_start(t));
                    }
                    let end_id = ID { client, clock: clock_end };
                    assert(t0.store.blocks.units(client) == u0[client]);
                    if lim2 == clock_end {
                        assert(!u0[client][clock_end - 1].deleted());
                        if clock_end < t0.store.blocks.state(client) {
                            assert(cuts_end(t0.store.blocks, client, clock_end as int));
                            assert(sb.is_start(end_id));
                        } else {
                            if sb.is_start(end_id) {
                                let _ = sb.lemma_block_at(end_id);
                            }
                        }
                    }
                    assert forall|t: ID| #[trigger]
                        sc.is_start(t) == (t0.store.blocks.is_start(t) || t == (ID {
                            client,
                            clock,
                        }) || (t == end_id && lim2 >= clock_end && cuts_end(
                            t0.store.blocks,
                            client,
                            clock_end as int,
                        ))) by {
                        assert(sc.is_start(t) == sb.is_start(t));
                        assert(sa.is_start(t) == (t0.store.blocks.is_start(t) || t == (ID {
                            client,
                            clock,
                        })));
                        if b_end > clock_end {
                            assert(sb.is_start(t) == (sa.is_start(t) || t == end_id));
                        } else {
                            assert(sb == sa);
                        }
                    }
                    assert forall|p: TypePtr| t0.store.spec_has_type(p) implies #[trigger] self.store.spec_has_type(
                        p,
                    ) by {
                        assert(ta.store.spec_has_type(p));
                        assert(tb.store.spec_has_type(p));
                    }
                }
            } else {
                let ghost lim2 = if b_end > clock_end {
                    clock_end as int
                } else {
                    b_end as int
                };
                cur = b_end;
                proof {
                    assert forall|k: int| lim <= k < lim2 implies (#[trigger] u0[client][k]).deleted() by {
                        assert(sa.units(client)[k] == b.unit(k - lim));
                        assert(sa.units(client)[k] == u0[client][k]);
                    }
                    lemma_dead_block(u0, client, c0, lim, lim2);
                    let e2 = ID { client, clock: b_end };
                    assert(sa.is_clean(e2));
                    assert(t0.store.blocks.units(client) == u0[client]);
                    if lim2 == clock_end {
                        assert(u0[client][clock_end - 1].deleted());
                        assert(!cuts_end(t0.store.blocks, client, clock_end as int));
                    }
                }
            }
        }
    }

    /// Deletes the units of `ds` as far as they are known, range by range,
    /// and returns those that are not known, if there are any. Deleting a
    /// deleted unit changes nothing and records nothing.
    pub fn apply_delete(&mut self, ds: &DeleteSet) -> (r: Option<DeleteSet>)
        requires
            old(self).wf(),
            ds.wf(),
            clear_store(old(self).store.blocks, ds@),
        ensures
            deleted_in(*old(self), *final(self), ds@),
            deleted_by(*old(self), *final(self), *ds),
            r is None <==> unknown_in(old(self).store.blocks@, ds@) == Set::<ID>::empty(),
            r matches Some(rest) ==> rest.wf() && rest@ == unknown_in(old(self).store.blocks@, ds@),
            forall|id: ID| #[trigger]
                final(self).store.blocks.is_start(id) == (old(self).store.blocks.is_start(id)
                    || cut_upto(*ds, old(self).store.blocks, ds.clients@.len() as int, 0, id)),
            final(self).merge_blocks@ == old(self).merge_blocks@ + set_cuts(
                *ds,
                old(self).store.blocks,
                ds.clients@.len() as int,
            ),
    {
        let ghost t0 = *self;
        let ghost u0 = t0.store.blocks@;
        let ghost stamp = t0.timestamp@;
        let mut unapplied = DeleteSet::new();
        proof {
            lemma_view(t0.store.blocks);
            lemma_delete_nothing(u0, stamp, ds.upto(0, 0));
            assert(self.delete_set@ =~= t0.delete_set@.union(live_in(u0, ds.upto(0, 0))));
            assert(self.changed_view() =~= t0.changed_view().union(
                touched(u0, live_in(u0, ds.upto(0, 0)), stamp),
            ));
            assert(unapplied@ =~= unknown_in(u0, ds.upto(0, 0)));
            assert(self.merge_blocks@ =~= t0.merge_blocks@ + set_cuts(*ds, t0.store.blocks, 0));
            assert forall|id: ID| !cut_upto(*ds, t0.store.blocks, 0, 0, id) by {
                if cut_upto(*ds, t0.store.blocks, 0, 0, id) {
                    let (c, r) = choose|c: int, r: int|
                        (c < 0 || (c == 0 && r < 0)) && #[trigger] cut_by(
                            *ds,
                            t0.store.blocks,
                            c,
                            r,
                            id,
                        );
                }
            }
        }
        let mut ci: usize = 0;
        while ci < ds.clients.len()
            invariant
                t0.wf(),
                ds.wf(),
                u0 == t0.store.blocks@,
                stamp == t0.timestamp@,
                ci <= ds.clients.len(),
                deleted_in(t0, *self, ds.upto(ci as int, 0)),
                unapplied.wf(),
                unapplied@ == unknown_in(u0, ds.upto(ci as int, 0)),
                clear_store(t0.store.blocks, ds@),
                self.merge_blocks@ == t0.merge_blocks@ + set_cuts(*ds, t0.store.blocks, ci as int),
                forall|id: ID| #[trigger]
                    self.store.blocks.is_start(id) == (t0.store.blocks.is_start(id) || cut_upto(
                        *ds,
                        t0.store.blocks,
                        ci as int,
                        0,
                        id,
                    )),
            decreases ds.clients.len() - ci,
        {
            let client = ds.clients[ci].client;
            let state = self.store.blocks.get_state(&client);
            let mut ri: usize = 0;
            assert(self.merge_blocks@ =~= t0.merge_blocks@ + set_cuts(
                *ds,
                t0.store.blocks,
                ci as int,
            ) + entry_cuts(*ds, t0.store.blocks, ci as int, 0));
            while ri < ds.clients[ci].ranges.len()
                invariant
                    t0.wf(),
                    ds.wf(),
                    u0 == t0.store.blocks@,
                    stamp == t0.timestamp@,
                    ci < ds.clients.len(),
                    client == ds.clients[ci as int].client,
                    state == t0.store.blocks.state(client),
                    ri <= ds.clients[ci as int].ranges.len(),
                    deleted_in(t0, *self, ds.upto(ci as int, ri as int)),
                    unapplied.wf(),
                    unapplied@ == unknown_in(u0, ds.upto(ci as int, ri as int)),
                    clear_store(t0.store.blocks, ds@),
                    self.merge_blocks@ == t0.merge_blocks@ + set_cuts(
                        *ds,
                        t0.store.blocks,
                        ci as int,
                    ) + entry_cuts(*ds, t0.store.blocks, ci as int, ri as int),
                    forall|id: ID| #[trigger]
                        self.store.blocks.is_start(id) == (t0.store.blocks.is_start(id)
                            || cut_upto(*ds, t0.store.blocks, ci as int, ri as int, id)),
                decreases ds.clients[ci as int].ranges.len() - ri,
            {
                let clock = ds.clients[ci].ranges[ri].start;
                let clock_end = ds.clients[ci].ranges[ri].end;
                let ghost mid = *self;
                let ghost done = ds.upto(ci as int, ri as int);
                let ghost whole = id_range(client, clock as int, clock_end as int);
                proof {
                    lemma_view(t0.store.blocks);
                    lemma_view(mid.store.blocks);
                    ds.lemma_upto_step(ci as int, ri as int);
                    ds.lemma_upto_subset(ci as int, ri + 1);
                    assert(ds.clients[ci as int].ranges@[ri as int].start
                        < ds.clients[ci as int].ranges@[ri as int].end);
                    assert(ranges_wf_at(*ds, ci as int, ri as int));
                }
                if clock < state {
                    let hi = if state < clock_end {
                        unapplied.insert(ID::new(client, state), clock_end - state);
                        state
                    } else {
                        clock_end
                    };
                    let ghost part = id_range(client, clock as int, hi as int);
                    proof {
                        assert forall|k: int| clock <= k < hi implies !live_cascade(
                            #[trigger] mid.store.blocks.units(client)[k],
                        ) by {
                            let t = ID { client, clock: k as u32 };
                            assert(whole.contains(t));
                            assert(ds.upto(ci as int, ri + 1).contains(t));
                            assert(ds@.contains(t));
                            assert(known(u0, t));
                            assert(t0.store.blocks.units(client) == u0[client]);
                            assert(!live_cascade(
                                t0.store.blocks.units(t.client)[t.clock as int],
                            ));
                            assert(mid.store.blocks.units(client) == mid.store.blocks@[client]);
                            assert(mid.store.blocks@[client][k] == (if done.contains(t) {
                                u0[client][k].tombstoned()
                            } else {
                                u0[client][k]
                            }));
                        }
                    }
                    self.delete_range(client, clock, hi);
                    proof {
                        lemma_deleted_in_compose(t0, mid, *self, done, part, whole);
                        assert(unapplied@ =~= unknown_in(u0, done.union(whole)));
                        ds.lemma_upto_disjoint(ci as int, ri as int);
                        let s0 = t0.store.blocks;
                        let sm = mid.store.blocks;
                        assert(cuts_end(sm, client, hi as int) == (hi == clock_end && cuts_end(
                            s0,
                            client,
                            clock_end as int,
                        ))) by {
                            if hi == clock_end && clock_end < state {
                                let t = ID { client, clock: (clock_end - 1) as u32 };
                                assert(whole.contains(t));
                                assert(!done.contains(t));
                                assert(sm.units(client) == sm@[client]);
                                assert(s0.units(client) == s0@[client]);
                                assert(sm@[client][clock_end - 1] == u0[client][clock_end - 1]);
                            }
                        }
                        assert forall|id: ID| #[trigger]
                            self.store.blocks.is_start(id) == (s0.is_start(id) || cut_upto(
                                *ds,
                                s0,
                                ci as int,
                                ri + 1,
                                id,
                            )) by {
                            assert(sm.is_start(id) == (s0.is_start(id) || cut_upto(
                                *ds,
                                s0,
                                ci as int,
                                ri as int,
                                id,
                            )));
                            let here = cut_by(*ds, s0, ci as int, ri as int, id);
                            assert(here == (id == (ID { client, clock }) || (id == (ID {
                                client,
                                clock: hi,
                            }) && cuts_end(sm, client, hi as int))));
                            lemma_cut_step(*ds, s0, ci as int, ri as int, id);
                        }
                        let a_id = ID { client, clock };
                        let e_id = ID { client, clock: clock_end };
                        lemma_no_cut_before(*ds, s0, ci as int, ri as int, a_id);
                        lemma_no_cut_before(*ds, s0, ci as int, ri as int, e_id);
                        assert(sm.is_start(a_id) == s0.is_start(a_id));
                        assert(sm.is_start(e_id) == s0.is_start(e_id));
                        assert(sm.state(client) == s0.state(client));
                        assert(range_cut(sm, client, clock, hi) =~= range_cut(
                            s0,
                            client,
                            clock,
                            clock_end,
                        ));
                        assert(self.merge_blocks@ =~= t0.merge_blocks@ + set_cuts(
                            *ds,
                            s0,
                            ci as int,
                        ) + entry_cuts(*ds, s0, ci as int, ri + 1));
                    }
                } else {
                    unapplied.insert(ID::new(client, clock), clock_end - clock);
                    proof {
                        let none = Set::<ID>::empty();
                        lemma_delete_nothing(mid.store.blocks@, mid.timestamp@, none);
                        assert(mid.delete_set@.union(none) =~= mid.delete_set@);
                        assert(mid.changed_view().union(
                            Set::<(TypePtr, Option<Seq<char>>)>::empty(),
                        ) =~= mid.changed_view());
                        assert(deleted_in(mid, mid, none));
                        lemma_deleted_in_compose(t0, mid, mid, done, none, whole);
                        assert(unapplied@ =~= unknown_in(u0, done.union(whole)));
                        assert forall|id: ID| #[trigger]
                            self.store.blocks.is_start(id) == (t0.store.blocks.is_start(id)
                                || cut_upto(*ds, t0.store.blocks, ci as int, ri + 1, id)) by {
                            assert(!cut_by(*ds, t0.store.blocks, ci as int, ri as int, id));
                            lemma_cut_step(*ds, t0.store.blocks, ci as int, ri as int, id);
                        }
                        assert(range_cut(t0.store.blocks, client, clock, clock_end)
                            =~= Seq::<ID>::empty());
                        assert(self.merge_blocks@ =~= t0.merge_blocks@ + set_cuts(
                            *ds,
                            t0.store.blocks,
                            ci as int,
                        ) + entry_cuts(*ds, t0.store.blocks, ci as int, ri + 1));
                    }
                }
                ri += 1;
            }
            proof {
                if ds.clients[ci as int].ranges@.len() == 0 {
                    ds.lemma_upto_skip(ci as int);
                } else {
                    ds.lemma_upto_step(ci as int, ds.clients[ci as int].ranges@.len() - 1);
                }
                assert forall|id: ID|
                    cut_upto(*ds, t0.store.blocks, ci + 1, 0, id) == cut_upto(
                        *ds,
                        t0.store.blocks,
                        ci as int,
                        ri as int,
                        id,
                    ) by {
                    lemma_cut_next(*ds, t0.store.blocks, ci as int, id);
                }
                assert(self.merge_blocks@ =~= t0.merge_blocks@ + set_cuts(
                    *ds,
                    t0.store.blocks,
                    ci + 1,
                ));
            }
            ci += 1;
        }
        proof {
            ds.lemma_upto_all();
            assert(deleted_by(t0, *self, *ds)) by {
                reveal(deleted_by);
            }
        }
        if unapplied.is_empty() {
            None
        } else {
            Some(unapplied)
        }
    }

    /// Calls `f` on every block of `client` that holds clocks of `range`,
    /// once each and in clock order, after cutting the blocks that reach over
    /// either end of the range. Returns what `f` returned, block by block.
    #[verifier::spinoff_prover]
    pub fn iterate_structs<F, T>(&mut self, client: &u64, range: &Range<u32>, f: &F) -> (out: Vec<T>)
        where F: Fn(&Block) -> T
        requires
            old(self).wf(),
            forall|b: Block|
                block_within(b, *client, range.start as int, range.end as int) ==> call_requires(
                    f,
                    (&b,),
                ),
        ensures
            same_but_cuts(*old(self), *final(self)),
            forall|id: ID| #[trigger]
                final(self).store.blocks.is_start(id) == (old(self).store.blocks.is_start(id) || (
                id.client == *client && (id.clock == range.start || id.clock == range.end)
                    && id.clock < old(self).store.blocks.state(*client) && range.start
                    < range.end && range.start < old(self).store.blocks.state(*client))),
            !(range.start < range.end && range.start < old(self).store.blocks.state(*client))
                ==> out@.len() == 0 && *final(self) == *old(self),
            old(self).store.blocks.is_clean(ID { client: *client, clock: range.start }) && old(
                self,
            ).store.blocks.is_clean(ID { client: *client, clock: range.end }) ==> *final(self)
                == *old(self),
            final(self).merge_blocks@ == old(self).merge_blocks@ + (if range.start < range.end
                && range.start < old(self).store.blocks.state(*client) {
                add_cut(
                    add_cut(
                        Seq::empty(),
                        old(self).store.blocks,
                        ID { client: *client, clock: range.start },
                    ),
                    old(self).store.blocks,
                    ID { client: *client, clock: range.end },
                )
            } else {
                Seq::empty()
            }),
            range.start < range.end && range.start < old(self).store.blocks.state(*client) ==> ({
                let list = final(self).store.blocks.list_of(*client);
                let first = final(self).store.blocks.index_at(
                    ID { client: *client, clock: range.start },
                );
                &&& list_starts(list, first, range.start as int)
                &&& first + out@.len() <= list.len()
                &&& forall|j: int|
                    0 <= j < out@.len() ==> block_within(
                        #[trigger] list.subrange(first, first + out@.len())[j],
                        *client,
                        range.start as int,
                        range.end as int,
                    )
                &&& forall|j: int|
                    0 <= j < out@.len() ==> call_ensures(
                        f,
                        (&list.subrange(first, first + out@.len())[j],),
                        #[trigger] out@[j],
                    )
                &&& first + out@.len() < list.len() ==> list[first + out@.len()].clock()
                    >= range.end
            }),
    {
        let clock_start = range.start;
        let clock_end = range.end;
        let mut out: Vec<T> = Vec::new();
        if clock_start >= clock_end {
            assert(self.merge_blocks@ =~= old(self).merge_blocks@ + Seq::<ID>::empty());
            return out;
        }
        let ghost t0 = *self;
        let ghost start_id = ID { client: *client, clock: clock_start };
        let ghost end_id = ID { client: *client, clock: clock_end };
        proof {
            lemma_view(t0.store.blocks);
            lemma_cuts_same(t0);
        }
        match self.find_index_clean_start(client, clock_start) {
            Some(_) => {},
            None => {
                assert(self.merge_blocks@ =~= old(self).merge_blocks@ + Seq::<ID>::empty());
                return out;
            },
        }
        let ghost ta = *self;
        let ghost acc1 = add_cut(Seq::empty(), t0.store.blocks, start_id);
        proof {
            assert(t0.merge_blocks@ =~= t0.merge_blocks@ + Seq::<ID>::empty());
            lemma_add_cut(
                t0.merge_blocks@,
                t0.merge_blocks@,
                ta.merge_blocks@,
                t0.store.blocks,
                t0.store.blocks,
                Seq::empty(),
                start_id,
            );
        }
        self.find_index_clean_start(client, clock_end);
        let ghost t1 = *self;
        proof {
            lemma_add_cut(
                t0.merge_blocks@,
                ta.merge_blocks@,
                t1.merge_blocks@,
                t0.store.blocks,
                ta.store.blocks,
                acc1,
                end_id,
            );
            lemma_cuts_compose(t0, ta, t1);
            assert(t1.store.blocks.is_start(start_id));
        }
        let first = match self.find_index_clean_start(client, clock_start) {
            Some(i) => i,
            None => {
                return out;
            },
        };
        let ghost s2 = self.store.blocks;
        let ghost list = s2.list_of(*client);
        proof {
            assert(*self == t1);
            lemma_view(s2);
            s2.lemma_list_wf(*client);
            assert(s2.is_start(start_id));
            let j = s2.lemma_block_at(start_id);
            lemma_list_pivot(list, *client, j, clock_start as int);
            lemma_list_pivot(list, *client, first as int, clock_start as int);
            assert(s2.is_clean(end_id)) by {
                assert(t1.store.blocks.is_start(end_id) ==> s2.is_start(end_id));
            }
        }
        let ci = match self.store.blocks.find_client(*client) {
            Some(ci) => ci,
            None => {
                return out;
            },
        };
        proof {
            s2.lemma_list_of(*client, ci as int);
        }
        let mut index: usize = first;
        let ghost seen: Seq<Block> = Seq::empty();
        while index < self.store.blocks.clients[ci].list.len()
            invariant
                self.wf(),
                s2 == self.store.blocks,
                list == s2.list_of(*client),
                list == self.store.blocks.clients[ci as int].list@,
                ci < self.store.blocks.clients.len(),
                crate::block_store::list_wf(list, *client),
                clock_start == range.start,
                clock_end == range.end,
                end_id == (ID { client: *client, clock: clock_end }),
                s2.is_clean(end_id),
                list_starts(list, first as int, clock_start as int),
                first <= index <= list.len(),
                seen == list.subrange(first as int, index as int),
                out@.len() == seen.len(),
                forall|b: Block|
                    block_within(b, *client, range.start as int, range.end as int)
                        ==> call_requires(f, (&b,)),
                forall|j: int|
                    0 <= j < seen.len() ==> block_within(
                        #[trigger] seen[j],
                        *client,
                        range.start as int,
                        range.end as int,
                    ),
                forall|j: int|
                    0 <= j < seen.len() ==> call_ensures(f, (&seen[j],), #[trigger] out@[j]),
            ensures
                index < list.len() ==> list[index as int].clock() >= clock_end,
            decreases list.len() - index,
        {
            if self.store.blocks.clients[ci].list[index].id().clock >= clock_end {
                break ;
            }
            proof {
                let b = list[index as int];
                if first < index {
                    lemma_list_sorted(list, *client, first as int, index as int);
                }
                s2.lemma_block_index(*client, index as int);
                lemma_block_extent(s2, b.spec_id());
                lemma_view(s2);
                if b.spec_clock_end() > clock_end {
                    assert(s2.is_start(end_id));
                }
                assert(block_within(b, *client, range.start as int, range.end as int));
            }
            let t = f(&self.store.blocks.clients[ci].list[index]);
            out.push(t);
            proof {
                seen = seen.push(list[index as int]);
                assert(seen =~= list.subrange(first as int, index + 1));
            }
            index += 1;
        }
        proof {
            assert(seen.len() == index - first);
            assert(first as int == self.store.blocks.index_at(start_id));
            assert(list == self.store.blocks.list_of(*client));
            assert(list_starts(list, first as int, range.start as int));
            assert(first + out@.len() == index);
            assert(seen == list.subrange(first as int, first + out@.len()));
        }
        out
    }

    /// Cuts the blocks that reach over an end of a range of `set`.
    pub fn clean_ranges(&mut self, set: &IdSet)
        requires
            old(self).wf(),
        ensures
            same_but_cuts(*old(self), *final(self)),
            forall|id: ID| #[trigger]
                final(self).store.blocks.is_start(id) == (old(self).store.blocks.is_start(id) || (
                set.is_edge(id) && id.clock < old(self).store.blocks.state(id.client))),
            ends_clean(final(self).store.blocks, *set, set.clients@.len() as int, 0),
            final(self).merge_blocks@ == old(self).merge_blocks@ + edge_cuts(
                *set,
                old(self).store.blocks,
                set.clients@.len() as int,
            ),
    {
        let ghost t0 = *self;
        let mut ci: usize = 0;
        proof {
            lemma_cuts_same(t0);
            assert(t0.merge_blocks@ =~= t0.merge_blocks@ + edge_cuts(*set, t0.store.blocks, 0));
        }
        while ci < set.clients.len()
            invariant
                ci <= set.clients.len(),
                self.merge_blocks@ == t0.merge_blocks@ + edge_cuts(*set, t0.store.blocks, ci as int),
                same_but_cuts(t0, *self),
                forall|id: ID| #[trigger]
                    self.store.blocks.is_start(id) ==> t0.store.blocks.is_start(id) || set.is_edge(
                        id,
                    ),
                ends_clean(self.store.blocks, *set, ci as int, 0),
            decreases set.clients.len() - ci,
        {
            let client = set.clients[ci].client;
            let mut ri: usize = 0;
            let ghost base = edge_cuts(*set, t0.store.blocks, ci as int);
            while ri < set.clients[ci].ranges.len()
                invariant
                    ci < set.clients.len(),
                    client == set.clients[ci as int].client,
                    ri <= set.clients[ci as int].ranges.len(),
                    base == edge_cuts(*set, t0.store.blocks, ci as int),
                    self.merge_blocks@ == t0.merge_blocks@ + entry_edge_cuts(
                        *set,
                        t0.store.blocks,
                        base,
                        ci as int,
                        ri as int,
                    ),
                    same_but_cuts(t0, *self),
                    forall|id: ID| #[trigger]
                        self.store.blocks.is_start(id) ==> t0.store.blocks.is_start(id)
                            || set.is_edge(id),
                    ends_clean(self.store.blocks, *set, ci as int, ri as int),
                decreases set.clients[ci as int].ranges.len() - ri,
            {
                let ghost ta = *self;
                let start = set.clients[ci].ranges[ri].start;
                let end = set.clients[ci].ranges[ri].end;
                self.find_index_clean_start(&client, start);
                let ghost tb = *self;
                self.find_index_clean_start(&client, end);
                proof {
                    assert(ranges_wf_at(*set, ci as int, ri as int));
                    let acc0 = entry_edge_cuts(*set, t0.store.blocks, base, ci as int, ri as int);
                    let a_id = ID { client, clock: start };
                    let e_id = ID { client, clock: end };
                    lemma_add_cut(
                        t0.merge_blocks@,
                        ta.merge_blocks@,
                        tb.merge_blocks@,
                        t0.store.blocks,
                        ta.store.blocks,
                        acc0,
                        a_id,
                    );
                    lemma_cuts_compose(t0, ta, tb);
                    lemma_add_cut(
                        t0.merge_blocks@,
                        tb.merge_blocks@,
                        self.merge_blocks@,
                        t0.store.blocks,
                        tb.store.blocks,
                        add_cut(acc0, t0.store.blocks, a_id),
                        e_id,
                    );
                    lemma_cuts_compose(ta, tb, *self);
                    lemma_cuts_compose(t0, ta, *self);
                    let s0 = ta.store.blocks;
                    let s2 = self.store.blocks;
                    assert forall|c: int, r: int|
                        #![trigger set.clients[c].ranges@[r]]
                        0 <= c < set.clients.len() && 0 <= r < set.clients[c].ranges@.len() && (c
                            < ci || (c == ci && r < ri + 1)) implies s2.is_clean(
                        ID { client: set.clients[c].client, clock: set.clients[c].ranges@[r].start },
                    ) && s2.is_clean(
                        ID { client: set.clients[c].client, clock: set.clients[c].ranges@[r].end },
                    ) by {
                        let a = ID {
                            client: set.clients[c].client,
                            clock: set.clients[c].ranges@[r].start,
                        };
                        let e = ID {
                            client: set.clients[c].client,
                            clock: set.clients[c].ranges@[r].end,
                        };
                        assert(s2.state(a.client) == s0.state(a.client));
                        assert(tb.store.blocks.state(a.client) == s0.state(a.client));
                        if c < ci || r < ri {
                            assert(s0.is_clean(a) && s0.is_clean(e));
                            assert(s0.is_start(a) ==> s2.is_start(a));
                            assert(s0.is_start(e) ==> s2.is_start(e));
                        } else {
                            assert(tb.store.blocks.is_start(a) ==> s2.is_start(a));
                        }
                    }
                }
                ri += 1;
            }
            proof {
                assert(ends_clean(self.store.blocks, *set, ci + 1, 0));
            }
            ci += 1;
        }
        proof {
            lemma_edges_cut(t0, *self, *set);
        }
    }

    /// Calls `f` on every block that holds clocks of `set`, once each,
    /// entry by entry and range by range, after cutting the blocks that
    /// reach over an end of a range. Returns what `f` returned, block by
    /// block.
    pub fn apply_ranges<F, T>(&mut self, set: &IdSet, f: &F) -> (out: Vec<T>)
        where F: Fn(&Block) -> T
        requires
            old(self).wf(),
            forall|b: Block| set_covers(*set, b) ==> call_requires(f, (&b,)),
        ensures
            same_but_cuts(*old(self), *final(self)),
            forall|id: ID| #[trigger]
                final(self).store.blocks.is_start(id) == (old(self).store.blocks.is_start(id) || (
                set.is_edge(id) && id.clock < old(self).store.blocks.state(id.client))),
            final(self).merge_blocks@ == old(self).merge_blocks@ + edge_cuts(
                *set,
                old(self).store.blocks,
                set.clients@.len() as int,
            ),
            out@.len() == set_visits(
                final(self).store.blocks,
                *set,
                set.clients@.len() as int,
            ).len(),
            forall|j: int|
                0 <= j < out@.len() ==> call_ensures(
                    f,
                    (&set_visits(final(self).store.blocks, *set, set.clients@.len() as int)[j],),
                    #[trigger] out@[j],
                ),
    {
        self.clean_ranges(set);
        let ghost t1 = *self;
        let ghost s1 = self.store.blocks;
        let mut out: Vec<T> = Vec::new();
        let mut ci: usize = 0;
        while ci < set.clients.len()
            invariant
                ci <= set.clients.len(),
                *self == t1,
                s1 == t1.store.blocks,
                t1.wf(),
                ends_clean(s1, *set, set.clients@.len() as int, 0),
                forall|b: Block| set_covers(*set, b) ==> call_requires(f, (&b,)),
                out@.len() == set_visits(s1, *set, ci as int).len(),
                forall|j: int|
                    0 <= j < out@.len() ==> call_ensures(
                        f,
                        (&set_visits(s1, *set, ci as int)[j],),
                        #[trigger] out@[j],
                    ),
            decreases set.clients.len() - ci,
        {
            let client = set.clients[ci].client;
            let ghost entry = set.clients@[ci as int];
            let ghost base = set_visits(s1, *set, ci as int);
            let mut ri: usize = 0;
            while ri < set.clients[ci].ranges.len()
                invariant
                    ci < set.clients.len(),
                    entry == set.clients@[ci as int],
                    client == entry.client,
                    ri <= entry.ranges@.len(),
                    *self == t1,
                    s1 == t1.store.blocks,
                    t1.wf(),
                    base == set_visits(s1, *set, ci as int),
                    ends_clean(s1, *set, set.clients@.len() as int, 0),
                    forall|b: Block| set_covers(*set, b) ==> call_requires(f, (&b,)),
                    out@.len() == (base + range_visits(s1, entry, ri as int)).len(),
                    forall|j: int|
                        0 <= j < out@.len() ==> call_ensures(
                            f,
                            (&(base + range_visits(s1, entry, ri as int))[j],),
                            #[trigger] out@[j],
                        ),
                decreases entry.ranges@.len() - ri,
            {
                let ghost out0 = out@;
                let ghost r = entry.ranges@[ri as int];
                let ghost seen0 = base + range_visits(s1, entry, ri as int);
                proof {
                    assert forall|b: Block|
                        block_within(b, client, r.start as int, r.end as int) implies call_requires(
                        f,
                        (&b,),
                    ) by {
                        assert(set_covers(*set, b));
                    }
                    assert(s1.is_clean(ID { client, clock: r.start }) && s1.is_clean(
                        ID { client, clock: r.end },
                    ));
                }
                let mut part = self.iterate_structs(&client, &set.clients[ci].ranges[ri], f);
                let ghost part0 = part@;
                out.append(&mut part);
                proof {
                    lemma_blocks_between(s1, client, r.start as int, r.end as int, part0.len() as int);
                    let list = s1.list_of(client);
                    let got = blocks_between(list, r.start as int, r.end as int);
                    assert(got.len() == part0.len());
                    let seen1 = base + range_visits(s1, entry, ri + 1);
                    assert(seen1 =~= seen0 + got);
                    assert forall|j: int| 0 <= j < out@.len() implies call_ensures(
                        f,
                        (&seen1[j],),
                        #[trigger] out@[j],
                    ) by {
                        if j < out0.len() {
                            assert(out@[j] == out0[j]);
                            assert(seen1[j] == seen0[j]);
                        } else {
                            let k = j - out0.len();
                            assert(out@[j] == part0[k]);
                            assert(seen1[j] == got[k]);
                        }
                    }
                }
                ri += 1;
            }
            proof {
                assert(set_visits(s1, *set, ci + 1) == base + range_visits(
                    s1,
                    entry,
                    entry.ranges@.len() as int,
                ));
            }
            ci += 1;
        }
        out
    }

    /// The text container called `name`, which the store registers if it did
    /// not know it.
    pub fn get_text(&mut self, name: &str) -> (text: Text)
        requires
            old(self).wf(),
            old(self).store.names.len() < u32::MAX,
        ensures
            final(self).wf(),
            text.ptr matches TypePtr::Named(n) && n < final(self).store.names.len()
                && final(self).store.names[n as int]@ == name@,
            final(self).store.spec_has_type(text.ptr),
            old(self).store.has_name(name@) ==> *final(self) == *old(self),
            !old(self).store.has_name(name@) ==> text.ptr == TypePtr::Named(
                old(self).store.names.len() as u32,
            ) && final(self).store.names@.len() == old(self).store.names@.len() + 1,
            final(self).store.names@.subrange(0, old(self).store.names@.len() as int) == old(
                self,
            ).store.names@,
            text.ptr matches TypePtr::Named(n) && forall|j: int|
                0 <= j < n ==> (#[trigger] final(self).store.names[j])@ != name@,
            *final(self) == (Transaction {
                store: Store { names: final(self).store.names, ..old(self).store },
                ..*old(self)
            }),
            forall|p: TypePtr|
                old(self).store.spec_has_type(p) ==> #[trigger] final(self).store.spec_has_type(p),
    {
        let ptr = self.store.create_type_ptr(name);
        proof {
            assert forall|c: u64| #[trigger] self.stamp_ok(c) by {
                assert(old(self).stamp_ok(c));
            }
            assert(self.store.heads_wf()) by {
                assert forall|i: int| 0 <= i < self.store.types.len() implies match (
                #[trigger] self.store.types[i]).start {
                    Some(h) => self.store.head_ok(i, h),
                    None => true,
                } by {
                    match old(self).store.types[i].start {
                        Some(h) => {
                            assert(old(self).store.head_ok(i, h));
                        },
                        None => {},
                    }
                }
            }
        }
        Text::from(ptr)
    }

    /// Makes an item of `content` for the store's own client and puts it at
    /// `pos`: behind the block that `pos` names, or first in the container.
    pub fn create_item(&mut self, pos: &ItemPosition, content: ItemContent)
        requires
            old(self).wf(),
            old(self).store.spec_has_type(pos.parent),
            pos.after matches Some(a) ==> old(self).store.blocks.item_at(a) is Some,
            content.wf(),
            old(self).store.blocks.state(old(self).store.client_id) + content.spec_len()
                <= u32::MAX,
        ensures
            placed(*old(self), *final(self), new_item(old(self).store, *pos, content)),
    {
        let left = pos.after;
        let ghost s0 = self.store.blocks;
        let right = match pos.after {
            Some(a) => match self.store.blocks.get_item(&a) {
                Some(x) => x.right,
                None => None,
            },
            None => self.store.get_head(&pos.parent, &None),
        };
        let origin = pos.after;
        let client_id = self.store.client_id;
        let id = ID::new(client_id, self.store.get_local_state());
        let item = Item {
            id,
            left,
            right,
            origin,
            right_origin: right,
            content,
            parent: pos.parent,
            parent_sub: None,
            deleted: false,
        };
        proof {
            assert(item == new_item(old(self).store, *pos, content));
        }
        self.integrate_item(item);
    }
}

} // verus!
