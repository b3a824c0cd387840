//! Updates: blocks of several clients, as one replica sends them to
//! another.

use crate::block::Block;
use crate::block_store::StateVector;
use crate::block_store::BlockStore;
use crate::integrate::{
    all_taken, block_placed, grown, lemma_grown_compose, lemma_grown_same,
    lemma_placed_seq_step, placed_seq, plain_block, plain_store, taken_from, Placement,
};
use crate::transaction::{lemma_view, Transaction};
use vstd::prelude::*;

verus! {

/// Blocks of one client in an update, in clock order.
#[derive(Clone, Debug, PartialEq, Eq)]
pub struct UpdateBlocks {
    pub client: u64,
    pub blocks: Vec<Block>,
}

/// A batch of blocks, for each client in clock order.
#[derive(Clone, Debug, PartialEq, Eq)]
pub struct Update {
    pub clients: Vec<UpdateBlocks>,
}

/// Blocks that could not be placed yet, and for each client they wait for,
/// the first clock that is wanting.
#[derive(Clone, Debug, PartialEq, Eq)]
pub struct PendingUpdate {
    pub update: Update,
    pub missing: StateVector,
}

/// Every block of the list is sound and belongs to `client`.
pub open spec fn blocks_wf(blocks: Seq<Block>, client: u64) -> bool {
    forall|i: int|
        0 <= i < blocks.len() ==> (#[trigger] blocks[i]).wf() && blocks[i].spec_id().client
            == client
}

/// `stack` holds the blocks of `orig` from index `d` on, the last first.
pub open spec fn rest_of(stack: Seq<Block>, orig: Seq<Block>, d: int) -> bool {
    &&& 0 <= d <= orig.len()
    &&& stack.len() == orig.len() - d
    &&& forall|j: int| 0 <= j < stack.len() ==> #[trigger] stack[j] == orig[orig.len() - 1 - j]
}

/// The store knows every unit of the first `d` blocks of the list.
pub open spec fn known_upto(txn: Transaction, blocks: Seq<Block>, d: int) -> bool {
    forall|i: int|
        0 <= i < d && i < blocks.len() ==> (#[trigger] blocks[i]).spec_clock_end()
            <= txn.store.blocks.state(blocks[i].spec_id().client)
}

/// Entry `ci` of `stacks` holds what is left of entry `ci` of `orig` after
/// its first `done[ci]` blocks, all of which the store knows.
pub open spec fn settled(
    txn: Transaction,
    orig: Seq<UpdateBlocks>,
    stacks: Seq<UpdateBlocks>,
    done: Seq<int>,
    ci: int,
) -> bool {
    &&& stacks[ci].client == orig[ci].client
    &&& rest_of(stacks[ci].blocks@, orig[ci].blocks@, done[ci])
    &&& known_upto(txn, orig[ci].blocks@, done[ci])
}

/// Block `i` of entry `ci` holds clock `k` of client `c`, and the unit
/// that the store has there is taken from it.
pub open spec fn supplies(
    clients: Seq<UpdateBlocks>,
    s: BlockStore,
    c: u64,
    k: int,
    ci: int,
    i: int,
) -> bool {
    &&& 0 <= ci < clients.len()
    &&& 0 <= i < clients[ci].blocks@.len()
    &&& clients[ci].blocks@[i].spec_id().client == c
    &&& clients[ci].blocks@[i].clock() <= k < clients[ci].blocks@[i].spec_clock_end()
    &&& taken_from(s, clients[ci].blocks@[i], k)
}

/// The unit that the store has at clock `k` of client `c` is taken from a
/// block of `clients`.
pub open spec fn supplied(clients: Seq<UpdateBlocks>, s: BlockStore, c: u64, k: int) -> bool {
    exists|ci: int, i: int| supplies(clients, s, c, k, ci, i)
}

/// Every unit that `new` knows and `old` did not is taken from a block of
/// `clients`.
pub open spec fn all_supplied(clients: Seq<UpdateBlocks>, old: BlockStore, new: BlockStore) -> bool {
    forall|c: u64, k: int| old.state(c) <= k < new.state(c) ==> #[trigger] supplied(clients, new, c, k)
}

/// The units that the first blocks of the first `upto` entries wait for:
/// for each client the lowest clock.
pub open spec fn wanted(txn: Transaction, rest: Seq<UpdateBlocks>, upto: int) -> Map<u64, u32>
    decreases upto,
{
    if upto <= 0 || upto > rest.len() {
        Map::empty()
    } else {
        let m = wanted(txn, rest, upto - 1);
        if rest[upto - 1].blocks@.len() > 0 {
            match txn.waits_for(rest[upto - 1].blocks@[0]) {
                Some((c, k)) => m.insert(
                    c,
                    if m.contains_key(c) && m[c] < k {
                        m[c]
                    } else {
                        k
                    },
                ),
                None => m,
            }
        } else {
            m
        }
    }
}

/// What the first entries want does not depend on the entries behind them.
pub proof fn lemma_wanted_prefix(txn: Transaction, rest: Seq<UpdateBlocks>, x: UpdateBlocks, upto: int)
    requires
        upto <= rest.len(),
    ensures
        wanted(txn, rest.push(x), upto) == wanted(txn, rest, upto),
    decreases upto,
{
    if upto > 0 {
        lemma_wanted_prefix(txn, rest, x, upto - 1);
        assert(rest.push(x)[upto - 1] == rest[upto - 1]);
    }
}

/// A unit taken from a block stays taken from it as the store grows.
pub proof fn lemma_supplied_grown(
    clients: Seq<UpdateBlocks>,
    t0: Transaction,
    t1: Transaction,
    c: u64,
    k: int,
)
    requires
        grown(t0, t1),
        0 <= k < t0.store.blocks.state(c),
        supplied(clients, t0.store.blocks, c, k),
    ensures
        supplied(clients, t1.store.blocks, c, k),
{
    let (ci, i) = choose|ci: int, i: int| supplies(clients, t0.store.blocks, c, k, ci, i);
    assert(t1.store.blocks.units(c)[k].with_next(None) == t0.store.blocks.units(c)[k].with_next(
        None,
    ));
    assert(supplies(clients, t1.store.blocks, c, k, ci, i));
}

/// Number of blocks that are left of the first `upto` entries of `orig`
/// after the first `done[k]` of each entry `k`.
pub open spec fn left_total(orig: Seq<UpdateBlocks>, done: Seq<int>, upto: int) -> nat
    decreases upto,
{
    if upto <= 0 || upto > orig.len() || upto > done.len() {
        0
    } else {
        left_total(orig, done, upto - 1) + (if done[upto - 1] <= orig[upto - 1].blocks@.len() {
            (orig[upto - 1].blocks@.len() - done[upto - 1]) as nat
        } else {
            0nat
        })
    }
}

/// One block more done is one block less left.
pub proof fn lemma_left_step(orig: Seq<UpdateBlocks>, done: Seq<int>, ci: int, upto: int)
    requires
        done.len() == orig.len(),
        0 <= ci < orig.len(),
        0 <= done[ci] < orig[ci].blocks@.len(),
        0 <= upto <= orig.len(),
    ensures
        left_total(orig, done.update(ci, done[ci] + 1), upto) == (if upto > ci {
            left_total(orig, done, upto) - 1
        } else {
            left_total(orig, done, upto) as int
        }),
        upto > ci ==> left_total(orig, done, upto) >= 1,
    decreases upto,
{
    if upto > 0 {
        lemma_left_step(orig, done, ci, upto - 1);
    }
}

/// The block that is next of entry `k`, if one is left, waits for a unit.
pub open spec fn head_waits(txn: Transaction, stacks: Seq<UpdateBlocks>, k: int) -> bool {
    stacks[k].blocks@.len() > 0 ==> txn.waits_for(stacks[k].blocks@.last()) is Some
}

/// Entry `i` is the first of `client`.
pub open spec fn is_first_entry(clients: Seq<UpdateBlocks>, client: u64, i: int) -> bool {
    &&& 0 <= i < clients.len()
    &&& clients[i].client == client
    &&& forall|j: int| 0 <= j < i ==> (#[trigger] clients[j]).client != client
}

/// Position of the first entry of `client`.
pub open spec fn first_entry(clients: Seq<UpdateBlocks>, client: u64) -> Option<usize> {
    if exists|i: int| is_first_entry(clients, client, i) {
        Some((choose|i: int| is_first_entry(clients, client, i)) as usize)
    } else {
        None
    }
}

/// The first entry of a client is the only one that is.
pub proof fn lemma_first_entry(clients: Seq<UpdateBlocks>, client: u64, i: int)
    requires
        is_first_entry(clients, client, i),
        clients.len() <= usize::MAX,
    ensures
        first_entry(clients, client) == Some(i as usize),
{
    let j = choose|j: int| is_first_entry(clients, client, j);
    assert(is_first_entry(clients, client, j));
    if j < i {
        assert(clients[j].client != client);
    }
    if i < j {
        assert(clients[i].client != client);
    }
}

/// Where a client has a first entry, it has an entry.
pub proof fn lemma_first_entry_is(clients: Seq<UpdateBlocks>, client: u64)
    requires
        first_entry(clients, client) is Some,
    ensures
        exists|i: int| 0 <= i < clients.len() && (#[trigger] clients[i]).client == client,
{
    let j = choose|j: int| is_first_entry(clients, client, j);
    assert(is_first_entry(clients, client, j));
    assert(clients[j].client == client);
}

/// Where a block that starts at `clock` goes among `blocks`: behind the
/// last block that starts at or before `clock`.
pub open spec fn slot(blocks: Seq<Block>, clock: nat) -> int
    decreases blocks.len(),
{
    if blocks.len() == 0 || blocks.last().clock() <= clock {
        blocks.len() as int
    } else {
        slot(blocks.drop_last(), clock)
    }
}

/// `new` is `old` with `b` among the blocks of the first entry of its
/// client, behind the last block that starts at or before its first clock;
/// where its client has no entry, with a new last entry that holds `b`.
pub open spec fn inserted(old: Seq<UpdateBlocks>, new: Seq<UpdateBlocks>, b: Block) -> bool {
    match first_entry(old, b.spec_id().client) {
        Some(ci) => {
            &&& new.len() == old.len()
            &&& forall|k: int| 0 <= k < old.len() && k != ci ==> #[trigger] new[k] == old[k]
            &&& new[ci as int].client == b.spec_id().client
            &&& new[ci as int].blocks@ == old[ci as int].blocks@.insert(
                slot(old[ci as int].blocks@, b.clock()),
                b,
            )
        },
        None => {
            &&& new.len() == old.len() + 1
            &&& forall|k: int| 0 <= k < old.len() ==> #[trigger] new[k] == old[k]
            &&& new[old.len() as int].client == b.spec_id().client
            &&& new[old.len() as int].blocks@ == seq![b]
        },
    }
}

/// `new` is `old` with the blocks of `blocks` added one after the other,
/// each as `inserted` has it.
pub open spec fn all_inserted(old: Seq<UpdateBlocks>, blocks: Seq<Block>, new: Seq<UpdateBlocks>) -> bool
    decreases blocks.len(),
{
    if blocks.len() == 0 {
        new == old
    } else {
        exists|mid: Seq<UpdateBlocks>|
            all_inserted(old, blocks.drop_last(), mid) && inserted(mid, new, blocks.last())
    }
}

/// The blocks of the first `ci` entries, entry after entry.
pub open spec fn flat(clients: Seq<UpdateBlocks>, ci: int) -> Seq<Block>
    decreases ci,
{
    if ci <= 0 || ci > clients.len() {
        Seq::empty()
    } else {
        flat(clients, ci - 1) + clients[ci - 1].blocks@
    }
}

/// One block more added is `all_inserted` of one block more.
pub proof fn lemma_all_inserted_step(
    old: Seq<UpdateBlocks>,
    blocks: Seq<Block>,
    mid: Seq<UpdateBlocks>,
    b: Block,
    new: Seq<UpdateBlocks>,
)
    requires
        all_inserted(old, blocks, mid),
        inserted(mid, new, b),
    ensures
        all_inserted(old, blocks.push(b), new),
{
    let more = blocks.push(b);
    assert(more.drop_last() =~= blocks);
    assert(more.last() == b);
    assert(all_inserted(old, more.drop_last(), mid) && inserted(mid, new, more.last()));
}

/// `new` is what placing blocks of `update` in `old`, one after the other,
/// gives.
pub open spec fn placed_from(update: Update, old: Transaction, new: Transaction) -> bool {
    exists|trace: Seq<Block>| placed_trace(update, old, new, trace)
}

/// `new` is what placing the blocks of `trace`, all of them blocks of
/// `update`, in `old`, one after the other, gives.
pub open spec fn placed_trace(update: Update, old: Transaction, new: Transaction, trace: Seq<Block>) -> bool {
    &&& placed_seq(old, new, trace)
    &&& forall|i: int| 0 <= i < trace.len() ==> update.holds(#[trigger] trace[i])
}

/// What the store knows it keeps knowing as it grows.
pub proof fn lemma_settled_grown(
    t0: Transaction,
    t1: Transaction,
    orig: Seq<UpdateBlocks>,
    stacks: Seq<UpdateBlocks>,
    done: Seq<int>,
    ci: int,
)
    requires
        settled(t0, orig, stacks, done, ci),
        forall|c: u64| t0.store.blocks.state(c) <= #[trigger] t1.store.blocks.state(c),
    ensures
        settled(t1, orig, stacks, done, ci),
{
    assert forall|i: int| 0 <= i < done[ci] && i < orig[ci].blocks@.len() implies (
    #[trigger] orig[ci].blocks@[i]).spec_clock_end() <= t1.store.blocks.state(
        orig[ci].blocks@[i].spec_id().client,
    ) by {
        let c = orig[ci].blocks@[i].spec_id().client;
        assert(t0.store.blocks.state(c) <= t1.store.blocks.state(c));
    }
}

/// The blocks of `v`, the last first.
pub fn reversed(v: Vec<Block>) -> (r: Vec<Block>)
    ensures
        r@.len() == v@.len(),
        forall|j: int| 0 <= j < r@.len() ==> #[trigger] r@[j] == v@[v@.len() - 1 - j],
{
    let mut v = v;
    let ghost orig = v@;
    let mut r: Vec<Block> = Vec::new();
    while v.len() > 0
        invariant
            v@.len() + r@.len() == orig.len(),
            forall|j: int| 0 <= j < v@.len() ==> v@[j] == orig[j],
            forall|j: int| 0 <= j < r@.len() ==> #[trigger] r@[j] == orig[orig.len() - 1 - j],
        decreases v@.len(),
    {
        match v.pop() {
            Some(b) => {
                r.push(b);
            },
            None => {},
        }
    }
    r
}

impl Update {
    /// Every block is sound and stands under its own client.
    pub open spec fn wf(&self) -> bool {
        forall|ci: int|
            0 <= ci < self.clients.len() ==> blocks_wf(
                (#[trigger] self.clients[ci]).blocks@,
                self.clients[ci].client,
            )
    }

    /// No block of the update is a live item whose content owns further
    /// state.
    pub open spec fn plain(&self) -> bool {
        forall|ci: int, i: int|
            0 <= ci < self.clients.len() && 0 <= i < self.clients[ci].blocks@.len()
                ==> plain_block(#[trigger] self.clients[ci].blocks@[i])
    }

    /// The update holds no block.
    pub open spec fn spec_is_empty(&self) -> bool {
        forall|ci: int|
            0 <= ci < self.clients.len() ==> (#[trigger] self.clients[ci]).blocks@.len() == 0
    }

    /// An update without blocks.
    pub fn new() -> (r: Update)
        ensures
            r.wf(),
            r.clients@.len() == 0,
    {
        Update { clients: Vec::new() }
    }

    /// Whether the update is sound: every block is, and stands under its own
    /// client.
    pub fn is_valid(&self) -> (r: bool)
        ensures
            r == self.wf(),
    {
        let mut ci: usize = 0;
        while ci < self.clients.len()
            invariant
                ci <= self.clients.len(),
                forall|k: int|
                    0 <= k < ci ==> blocks_wf(
                        (#[trigger] self.clients[k]).blocks@,
                        self.clients[k].client,
                    ),
            decreases self.clients.len() - ci,
        {
            let mut i: usize = 0;
            while i < self.clients[ci].blocks.len()
                invariant
                    ci < self.clients.len(),
                    i <= self.clients[ci as int].blocks@.len(),
                    forall|j: int|
                        0 <= j < i ==> (#[trigger] self.clients[ci as int].blocks@[j]).wf()
                            && self.clients[ci as int].blocks@[j].spec_id().client
                            == self.clients[ci as int].client,
                decreases self.clients[ci as int].blocks@.len() - i,
            {
                let b = &self.clients[ci].blocks[i];
                if !b.is_valid() || b.id().client != self.clients[ci].client {
                    proof {
                        assert(!blocks_wf(
                            self.clients[ci as int].blocks@,
                            self.clients[ci as int].client,
                        ));
                    }
                    return false;
                }
                i += 1;
            }
            ci += 1;
        }
        true
    }

    /// Whether no block of the update is a live item whose content owns
    /// further state.
    pub fn is_plain(&self) -> (r: bool)
        ensures
            r == self.plain(),
    {
        let mut ci: usize = 0;
        while ci < self.clients.len()
            invariant
                ci <= self.clients.len(),
                forall|k: int, j: int|
                    0 <= k < ci && 0 <= j < self.clients[k].blocks@.len() ==> plain_block(
                        #[trigger] self.clients[k].blocks@[j],
                    ),
            decreases self.clients.len() - ci,
        {
            let mut i: usize = 0;
            while i < self.clients[ci].blocks.len()
                invariant
                    ci < self.clients.len(),
                    i <= self.clients[ci as int].blocks@.len(),
                    forall|j: int|
                        0 <= j < i ==> plain_block(#[trigger] self.clients[ci as int].blocks@[j]),
                decreases self.clients[ci as int].blocks@.len() - i,
            {
                if !self.clients[ci].blocks[i].is_plain() {
                    proof {
                        assert(!plain_block(self.clients[ci as int].blocks@[i as int]));
                    }
                    return false;
                }
                i += 1;
            }
            ci += 1;
        }
        true
    }

    /// Whether the update holds no block.
    #[verifier::when_used_as_spec(spec_is_empty)]
    pub fn is_empty(&self) -> (r: bool)
        ensures
            r == self.spec_is_empty(),
    {
        let mut i: usize = 0;
        while i < self.clients.len()
            invariant
                i <= self.clients.len(),
                forall|ci: int| 0 <= ci < i ==> (#[trigger] self.clients[ci]).blocks@.len() == 0,
            decreases self.clients.len() - i,
        {
            if self.clients[i].blocks.len() > 0 {
                return false;
            }
            i += 1;
        }
        true
    }

    /// The update holds the block `b`.
    pub open spec fn holds(&self, b: Block) -> bool {
        exists|ci: int, i: int| self.holds_at(ci, i, b)
    }

    /// Block `i` of entry `ci` is `b`.
    pub open spec fn holds_at(&self, ci: int, i: int, b: Block) -> bool {
        0 <= ci < self.clients.len() && 0 <= i < self.clients[ci].blocks@.len()
            && self.clients[ci].blocks@[i] == b
    }

    /// Position of the first entry of `client`.
    pub fn find_client(&self, client: u64) -> (r: Option<usize>)
        ensures
            r == first_entry(self.clients@, client),
    {
        let mut i: usize = 0;
        while i < self.clients.len()
            invariant
                i <= self.clients.len(),
                forall|j: int| 0 <= j < i ==> (#[trigger] self.clients[j]).client != client,
            decreases self.clients.len() - i,
        {
            if self.clients[i].client == client {
                proof {
                    lemma_first_entry(self.clients@, client, i as int);
                }
                return Some(i);
            }
            i += 1;
        }
        proof {
            if first_entry(self.clients@, client) is Some {
                lemma_first_entry_is(self.clients@, client);
            }
        }
        None
    }

    /// Adds `b` to the blocks of its client, behind the blocks that start at
    /// or before its first clock.
    pub fn insert_block(&mut self, b: Block)
        requires
            old(self).wf(),
            b.wf(),
        ensures
            final(self).wf(),
            inserted(old(self).clients@, final(self).clients@, b),
            forall|x: Block| #[trigger] final(self).holds(x) == (old(self).holds(x) || x == b),
            old(self).plain() && plain_block(b) ==> final(self).plain(),
    {
        let client = b.id().client;
        let clock = b.id().clock;
        match self.find_client(client) {
            Some(ci) => {
                proof {
                    let j = choose|j: int| is_first_entry(self.clients@, client, j);
                    assert(is_first_entry(self.clients@, client, j));
                }
                let ghost all = self.clients[ci as int].blocks@;
                let mut pos: usize = self.clients[ci].blocks.len();
                assert(all.subrange(0, all.len() as int) =~= all);
                while pos > 0 && self.clients[ci].blocks[pos - 1].id().clock > clock
                    invariant
                        ci < self.clients.len(),
                        pos <= self.clients[ci as int].blocks@.len(),
                        *self == *old(self),
                        all == self.clients[ci as int].blocks@,
                        slot(all, clock as nat) == slot(all.subrange(0, pos as int), clock as nat),
                    decreases pos,
                {
                    proof {
                        let cur = all.subrange(0, pos as int);
                        assert(cur.last() == all[pos - 1]);
                        assert(cur.drop_last() =~= all.subrange(0, pos - 1));
                    }
                    pos -= 1;
                }
                proof {
                    let cur = all.subrange(0, pos as int);
                    if pos > 0 {
                        assert(cur.last() == all[pos - 1]);
                    }
                    assert(slot(cur, clock as nat) == pos);
                }
                self.clients[ci].blocks.insert(pos, b);
                proof {
                    let old_list = old(self).clients[ci as int].blocks@;
                    let new_list = self.clients[ci as int].blocks@;
                    assert(new_list == old_list.insert(pos as int, b));
                    assert(blocks_wf(old_list, client));
                    assert forall|k: int| 0 <= k < self.clients.len() implies blocks_wf(
                        (#[trigger] self.clients[k]).blocks@,
                        self.clients[k].client,
                    ) by {
                        if k != ci {
                            assert(self.clients[k] == old(self).clients[k]);
                        } else {
                            assert forall|j: int| 0 <= j < new_list.len() implies (
                            #[trigger] new_list[j]).wf() && new_list[j].spec_id().client
                                == client by {
                                if j < pos {
                                    assert(new_list[j] == old_list[j]);
                                } else if j > pos {
                                    assert(new_list[j] == old_list[j - 1]);
                                }
                            }
                        }
                    }
                    assert forall|x: Block| #[trigger]
                        self.holds(x) == (old(self).holds(x) || x == b) by {
                        if old(self).holds(x) {
                            let (k, j) = choose|k: int, j: int| old(self).holds_at(k, j, x);
                            if k != ci {
                                assert(self.clients[k] == old(self).clients[k]);
                                assert(self.holds_at(k, j, x));
                            } else if j < pos {
                                assert(new_list[j] == old_list[j]);
                                assert(self.holds_at(k, j, x));
                            } else {
                                assert(new_list[j + 1] == old_list[j]);
                                assert(self.holds_at(k, j + 1, x));
                            }
                        }
                        if x == b {
                            assert(self.holds_at(ci as int, pos as int, x));
                        }
                        if self.holds(x) {
                            let (k, j) = choose|k: int, j: int| self.holds_at(k, j, x);
                            if k != ci {
                                assert(self.clients[k] == old(self).clients[k]);
                                assert(old(self).holds_at(k, j, x));
                            } else if j < pos {
                                assert(new_list[j] == old_list[j]);
                                assert(old(self).holds_at(k, j, x));
                            } else if j > pos {
                                assert(new_list[j] == old_list[j - 1]);
                                assert(old(self).holds_at(k, j - 1, x));
                            }
                        }
                    }
                    if old(self).plain() && plain_block(b) {
                        assert forall|k: int, j: int|
                            0 <= k < self.clients.len() && 0 <= j
                                < self.clients[k].blocks@.len() implies plain_block(
                            #[trigger] self.clients[k].blocks@[j],
                        ) by {
                            let x = self.clients[k].blocks@[j];
                            assert(self.holds_at(k, j, x));
                            assert(self.holds(x));
                            if x != b {
                                let (k0, j0) = choose|k0: int, j0: int| old(self).holds_at(k0, j0, x);
                                assert(plain_block(old(self).clients[k0].blocks@[j0]));
                            }
                        }
                    }
                }
            },
            None => {
                let mut blocks: Vec<Block> = Vec::new();
                blocks.push(b);
                self.clients.push(UpdateBlocks { client, blocks });
                proof {
                    let n = old(self).clients.len() as int;
                    assert(self.clients@[n].blocks@ =~= seq![b]);
                    assert forall|k: int| 0 <= k < self.clients.len() implies blocks_wf(
                        (#[trigger] self.clients[k]).blocks@,
                        self.clients[k].client,
                    ) by {
                        if k < n {
                            assert(self.clients[k] == old(self).clients[k]);
                        }
                    }
                    assert forall|x: Block| #[trigger]
                        self.holds(x) == (old(self).holds(x) || x == b) by {
                        if old(self).holds(x) {
                            let (k, j) = choose|k: int, j: int| old(self).holds_at(k, j, x);
                            assert(self.clients[k] == old(self).clients[k]);
                            assert(self.holds_at(k, j, x));
                        }
                        if x == b {
                            assert(self.holds_at(n, 0, x));
                        }
                        if self.holds(x) {
                            let (k, j) = choose|k: int, j: int| self.holds_at(k, j, x);
                            if k < n {
                                assert(self.clients[k] == old(self).clients[k]);
                                assert(old(self).holds_at(k, j, x));
                            }
                        }
                    }
                    if old(self).plain() && plain_block(b) {
                        assert forall|k: int, j: int|
                            0 <= k < self.clients.len() && 0 <= j
                                < self.clients[k].blocks@.len() implies plain_block(
                            #[trigger] self.clients[k].blocks@[j],
                        ) by {
                            if k < n {
                                assert(self.clients[k] == old(self).clients[k]);
                                assert(plain_block(old(self).clients[k].blocks@[j]));
                            }
                        }
                    }
                }
            },
        }
    }

    /// Adds every block of `other`, each to the blocks of its client and
    /// behind the blocks that start at or before its first clock.
    pub fn merge(&mut self, other: Update)
        requires
            old(self).wf(),
            other.wf(),
        ensures
            final(self).wf(),
            all_inserted(
                old(self).clients@,
                flat(other.clients@, other.clients@.len() as int),
                final(self).clients@,
            ),
            forall|x: Block| #[trigger]
                final(self).holds(x) == (old(self).holds(x) || other.holds(x)),
            old(self).plain() && other.plain() ==> final(self).plain(),
    {
        let ghost orig = other;
        let mut src = other.clients;
        let mut ci: usize = 0;
        while ci < src.len()
            invariant
                ci <= src@.len(),
                src@.len() == orig.clients@.len(),
                self.wf(),
                orig.wf(),
                forall|k: int| ci <= k < src@.len() ==> #[trigger] src@[k] == orig.clients@[k],
                all_inserted(old(self).clients@, flat(orig.clients@, ci as int), self.clients@),
                forall|x: Block| #[trigger]
                    self.holds(x) == (old(self).holds(x) || (exists|k: int, j: int|
                        k < ci && orig.holds_at(k, j, x))),
                old(self).plain() && orig.plain() ==> self.plain(),
            decreases src@.len() - ci,
        {
            let ghost src0 = src@;
            let ghost all = orig.clients@[ci as int].blocks@;
            let mut taken: Vec<Block> = Vec::new();
            std::mem::swap(&mut taken, &mut src[ci].blocks);
            let mut stack = reversed(taken);
            proof {
                assert(src0[ci as int] == orig.clients@[ci as int]);
                assert(blocks_wf(all, orig.clients@[ci as int].client));
                assert(flat(orig.clients@, ci as int) + all.subrange(0, 0) =~= flat(
                    orig.clients@,
                    ci as int,
                ));
            }
            while stack.len() > 0
                invariant
                    ci < orig.clients@.len(),
                    all == orig.clients@[ci as int].blocks@,
                    self.wf(),
                    orig.wf(),
                    stack@.len() <= all.len(),
                    all_inserted(
                        old(self).clients@,
                        flat(orig.clients@, ci as int) + all.subrange(
                            0,
                            all.len() - stack@.len(),
                        ),
                        self.clients@,
                    ),
                    forall|j: int|
                        0 <= j < stack@.len() ==> #[trigger] stack@[j] == all[all.len() - 1 - j],
                    forall|x: Block| #[trigger]
                        self.holds(x) == (old(self).holds(x) || (exists|k: int, j: int|
                            k < ci && orig.holds_at(k, j, x)) || (exists|j: int|
                            j < all.len() - stack@.len() && orig.holds_at(ci as int, j, x))),
                    old(self).plain() && orig.plain() ==> self.plain(),
                decreases stack@.len(),
            {
                let ghost before = *self;
                let ghost d = all.len() - stack@.len();
                match stack.pop() {
                    Some(b) => {
                        proof {
                            assert(b == all[d]);
                            assert(blocks_wf(all, orig.clients@[ci as int].client));
                            assert(b.wf());
                            if orig.plain() {
                                assert(plain_block(orig.clients[ci as int].blocks@[d]));
                            }
                        }
                        self.insert_block(b);
                        proof {
                            let sofar = flat(orig.clients@, ci as int) + all.subrange(0, d);
                            lemma_all_inserted_step(
                                old(self).clients@,
                                sofar,
                                before.clients@,
                                b,
                                self.clients@,
                            );
                            assert(sofar.push(b) =~= flat(orig.clients@, ci as int)
                                + all.subrange(0, d + 1));
                            assert forall|x: Block| #[trigger]
                                self.holds(x) == (old(self).holds(x) || (exists|k: int, j: int|
                                    k < ci && orig.holds_at(k, j, x)) || (exists|j: int|
                                    j < d + 1 && orig.holds_at(ci as int, j, x))) by {
                                assert(self.holds(x) == (before.holds(x) || x == b));
                                if x == b {
                                    assert(orig.holds_at(ci as int, d, x));
                                }
                                if exists|j: int| j < d + 1 && orig.holds_at(ci as int, j, x) {
                                    let j = choose|j: int|
                                        j < d + 1 && orig.holds_at(ci as int, j, x);
                                    if j < d {
                                        assert(j < d && orig.holds_at(ci as int, j, x));
                                    }
                                }
                                if exists|j: int| j < d && orig.holds_at(ci as int, j, x) {
                                    let j = choose|j: int| j < d && orig.holds_at(ci as int, j, x);
                                    assert(j < d + 1 && orig.holds_at(ci as int, j, x));
                                }
                            }
                        }
                    },
                    None => {},
                }
            }
            proof {
                assert(all.subrange(0, all.len() as int) =~= all);
                assert(flat(orig.clients@, ci + 1) == flat(orig.clients@, ci as int) + all);
                assert forall|k: int| ci + 1 <= k < src@.len() implies #[trigger] src@[k]
                    == orig.clients@[k] by {
                    assert(src0[k] == orig.clients@[k]);
                }
                assert forall|x: Block| #[trigger]
                    self.holds(x) == (old(self).holds(x) || (exists|k: int, j: int|
                        k < ci + 1 && orig.holds_at(k, j, x))) by {
                    if exists|k: int, j: int| k < ci + 1 && orig.holds_at(k, j, x) {
                        let (k, j) = choose|k: int, j: int| k < ci + 1 && orig.holds_at(k, j, x);
                        if k < ci {
                            assert(k < ci && orig.holds_at(k, j, x));
                        } else {
                            assert(j < all.len() && orig.holds_at(ci as int, j, x));
                        }
                    }
                    if exists|k: int, j: int| k < ci && orig.holds_at(k, j, x) {
                        let (k, j) = choose|k: int, j: int| k < ci && orig.holds_at(k, j, x);
                        assert(k < ci + 1 && orig.holds_at(k, j, x));
                    }
                    if exists|j: int| j < all.len() && orig.holds_at(ci as int, j, x) {
                        let j = choose|j: int| j < all.len() && orig.holds_at(ci as int, j, x);
                        assert(ci < ci + 1 && orig.holds_at(ci as int, j, x));
                    }
                }
            }
            ci += 1;
        }
        proof {
            assert forall|x: Block| #[trigger]
                self.holds(x) == (old(self).holds(x) || orig.holds(x)) by {
                if orig.holds(x) {
                    let (k, j) = choose|k: int, j: int| orig.holds_at(k, j, x);
                    assert(k < ci && orig.holds_at(k, j, x));
                }
                if exists|k: int, j: int| k < ci && orig.holds_at(k, j, x) {
                    let (k, j) = choose|k: int, j: int| k < ci && orig.holds_at(k, j, x);
                    assert(orig.holds_at(k, j, x));
                }
            }
        }
    }

    /// Places the blocks of the update as far as the store knows what they
    /// depend on, client by client and each client's blocks in order, again
    /// and again until a round places nothing. Returns the blocks that
    /// are left, with the units they wait for; none where nothing is left.
    pub fn integrate(self, txn: &mut Transaction) -> (r: Option<PendingUpdate>)
        requires
            old(txn).wf(),
            self.wf(),
        ensures
            grown(*old(txn), *final(txn)),
            placed_from(self, *old(txn), *final(txn)),
            integrated(self, *final(txn), r),
            all_supplied(self.clients@, old(txn).store.blocks, final(txn).store.blocks),
            plain_store(old(txn).store.blocks) && self.plain() ==> plain_store(
                final(txn).store.blocks,
            ) && (r matches Some(p) ==> p.update.plain()),
    {
        let ghost t0 = *txn;
        let ghost me = self;
        let ghost trace: Seq<Block> = Seq::empty();
        let ghost orig = self.clients@;
        let ghost plain0 = plain_store(t0.store.blocks) && self.plain();
        let mut stacks = self.clients;
        let mut ci: usize = 0;
        let ghost done: Seq<int> = Seq::new(orig.len(), |i: int| 0int);
        while ci < stacks.len()
            invariant
                ci <= stacks@.len(),
                stacks@.len() == orig.len(),
                done == Seq::new(orig.len(), |i: int| 0int),
                forall|k: int| 0 <= k < ci ==> #[trigger] settled(*txn, orig, stacks@, done, k),
                forall|k: int| ci <= k < orig.len() ==> #[trigger] stacks@[k] == orig[k],
            decreases stacks@.len() - ci,
        {
            let ghost stacks0 = stacks@;
            let mut src: Vec<Block> = Vec::new();
            std::mem::swap(&mut src, &mut stacks[ci].blocks);
            let rev = reversed(src);
            stacks[ci].blocks = rev;
            proof {
                assert forall|k: int| 0 <= k < ci + 1 implies #[trigger] settled(
                    *txn,
                    orig,
                    stacks@,
                    done,
                    k,
                ) by {
                    if k < ci {
                        assert(settled(*txn, orig, stacks0, done, k));
                        assert(stacks@[k] == stacks0[k]);
                    } else {
                        assert(stacks0[k] == orig[k]);
                    }
                }
                assert forall|k: int| ci + 1 <= k < orig.len() implies #[trigger] stacks@[k]
                    == orig[k] by {
                    assert(stacks0[k] == orig[k]);
                }
            }
            ci += 1;
        }
        proof {
            lemma_grown_same(t0);
        }
        let mut progress = true;
        while progress
            invariant
                grown(t0, *txn),
                me.clients@ == orig,
                placed_trace(me, t0, *txn, trace),
                all_supplied(orig, t0.store.blocks, txn.store.blocks),
                plain0 ==> plain_store(txn.store.blocks),
                plain0 ==> forall|a: int, b: int|
                    0 <= a < orig.len() && 0 <= b < orig[a].blocks@.len() ==> plain_block(
                        #[trigger] orig[a].blocks@[b],
                    ),
                stacks@.len() == orig.len(),
                done.len() == orig.len(),
                forall|k: int| 0 <= k < orig.len() ==> blocks_wf(
                    (#[trigger] orig[k]).blocks@,
                    orig[k].client,
                ),
                forall|k: int| 0 <= k < orig.len() ==> #[trigger] settled(
                    *txn,
                    orig,
                    stacks@,
                    done,
                    k,
                ),
                !progress ==> forall|k: int|
                    0 <= k < orig.len() ==> #[trigger] head_waits(*txn, stacks@, k),
            decreases
                    left_total(orig, done, orig.len() as int) + (if progress {
                        1nat
                    } else {
                        0nat
                    }),
        {
            progress = false;
            let ghost tp = *txn;
            let ghost left0 = left_total(orig, done, orig.len() as int);
            let mut ci: usize = 0;
            while ci < stacks.len()
                invariant
                    ci <= stacks@.len(),
                    grown(t0, *txn),
                    me.clients@ == orig,
                    placed_trace(me, t0, *txn, trace),
                    all_supplied(orig, t0.store.blocks, txn.store.blocks),
                    plain0 ==> plain_store(txn.store.blocks),
                    plain0 ==> forall|a: int, b: int|
                        0 <= a < orig.len() && 0 <= b < orig[a].blocks@.len() ==> plain_block(
                            #[trigger] orig[a].blocks@[b],
                        ),
                    stacks@.len() == orig.len(),
                    done.len() == orig.len(),
                    forall|k: int| 0 <= k < orig.len() ==> blocks_wf(
                        (#[trigger] orig[k]).blocks@,
                        orig[k].client,
                    ),
                    forall|k: int| 0 <= k < orig.len() ==> #[trigger] settled(
                        *txn,
                        orig,
                        stacks@,
                        done,
                        k,
                    ),
                    progress ==> left_total(orig, done, orig.len() as int) < left0,
                    !progress ==> left_total(orig, done, orig.len() as int) == left0,
                    !progress ==> *txn == tp,
                    !progress ==> forall|k: int|
                        0 <= k < ci ==> #[trigger] head_waits(tp, stacks@, k),
                decreases stacks@.len() - ci,
            {
                loop
                    invariant
                        ci < stacks@.len(),
                        grown(t0, *txn),
                        me.clients@ == orig,
                        placed_trace(me, t0, *txn, trace),
                        all_supplied(orig, t0.store.blocks, txn.store.blocks),
                        plain0 ==> plain_store(txn.store.blocks),
                        plain0 ==> forall|a: int, b: int|
                            0 <= a < orig.len() && 0 <= b < orig[a].blocks@.len() ==> plain_block(
                                #[trigger] orig[a].blocks@[b],
                            ),
                        stacks@.len() == orig.len(),
                        done.len() == orig.len(),
                        forall|k: int| 0 <= k < orig.len() ==> blocks_wf(
                            (#[trigger] orig[k]).blocks@,
                            orig[k].client,
                        ),
                        forall|k: int| 0 <= k < orig.len() ==> #[trigger] settled(
                            *txn,
                            orig,
                            stacks@,
                            done,
                            k,
                        ),
                        progress ==> left_total(orig, done, orig.len() as int) < left0,
                        !progress ==> left_total(orig, done, orig.len() as int) == left0,
                        !progress ==> *txn == tp,
                        !progress ==> forall|k: int|
                            0 <= k < ci ==> #[trigger] head_waits(tp, stacks@, k),
                    ensures
                        !progress ==> head_waits(tp, stacks@, ci as int),
                    decreases stacks@[ci as int].blocks@.len(),
                {
                    let ghost before = *txn;
                    let ghost stacks0 = stacks@;
                    let ghost d = done[ci as int];
                    let ghost done0 = done;
                    proof {
                        assert(settled(before, orig, stacks0, done, ci as int));
                    }
                    match stacks[ci].blocks.pop() {
                        None => {
                            proof {
                                assert(stacks@[ci as int].blocks@ =~= stacks0[ci as int].blocks@);
                                assert forall|k: int|
                                    0 <= k < orig.len() implies #[trigger] settled(
                                    *txn,
                                    orig,
                                    stacks@,
                                    done,
                                    k,
                                ) by {
                                    assert(settled(before, orig, stacks0, done, k));
                                    if k != ci {
                                        assert(stacks@[k] == stacks0[k]);
                                    }
                                }
                                if !progress {
                                    assert forall|k: int| 0 <= k < ci implies #[trigger] head_waits(
                                        tp,
                                        stacks@,
                                        k,
                                    ) by {
                                        assert(head_waits(tp, stacks0, k));
                                        assert(stacks@[k] == stacks0[k]);
                                    }
                                }
                            }
                            break ;
                        },
                        Some(b) => {
                            proof {
                                assert(b == orig[ci as int].blocks@[d]);
                                assert(blocks_wf(orig[ci as int].blocks@, orig[ci as int].client));
                                assert(b.wf());
                                if plain0 {
                                    assert(plain_block(orig[ci as int].blocks@[d]));
                                }
                            }
                            let placement = txn.integrate_block(b);
                            proof {
                                lemma_placed_seq_step(t0, before, *txn, trace, b);
                                assert(me.holds_at(ci as int, d, b));
                                assert(me.holds(b));
                                trace = trace.push(b);
                            }
                            match placement {
                                Placement::Done => {
                                    progress = true;
                                    proof {
                                        if plain0 {
                                            assert(plain_block(orig[ci as int].blocks@[d]));
                                        }
                                        lemma_grown_compose(t0, before, *txn);
                                        assert forall|c: u64, k: int|
                                            t0.store.blocks.state(c) <= k
                                                < txn.store.blocks.state(
                                                c,
                                            ) implies #[trigger] supplied(
                                            orig,
                                            txn.store.blocks,
                                            c,
                                            k,
                                        ) by {
                                            if k < before.store.blocks.state(c) {
                                                assert(supplied(orig, before.store.blocks, c, k));
                                                lemma_supplied_grown(orig, before, *txn, c, k);
                                            } else {
                                                let blk = orig[ci as int].blocks@[d];
                                                assert(c == blk.spec_id().client);
                                                assert(before.waits_for(blk) is None);
                                                assert(taken_from(txn.store.blocks, blk, k));
                                                assert(supplies(
                                                    orig,
                                                    txn.store.blocks,
                                                    c,
                                                    k,
                                                    ci as int,
                                                    d,
                                                ));
                                            }
                                        }
                                        lemma_left_step(orig, done0, ci as int, orig.len() as int);
                                        done = done.update(ci as int, d + 1);
                                        assert forall|k: int|
                                            0 <= k < orig.len() implies #[trigger] settled(
                                            *txn,
                                            orig,
                                            stacks@,
                                            done,
                                            k,
                                        ) by {
                                            assert(settled(before, orig, stacks0, done0, k));
                                            if k != ci {
                                                assert(stacks@[k] == stacks0[k]);
                                                lemma_settled_grown(
                                                    before,
                                                    *txn,
                                                    orig,
                                                    stacks0,
                                                    done0,
                                                    k,
                                                );
                                            } else {
                                                assert forall|i: int|
                                                    0 <= i < d + 1 && i
                                                        < orig[k].blocks@.len() implies (
                                                #[trigger] orig[k].blocks@[i]).spec_clock_end()
                                                    <= txn.store.blocks.state(
                                                    orig[k].blocks@[i].spec_id().client,
                                                ) by {
                                                    let c = orig[k].blocks@[i].spec_id().client;
                                                    assert(before.store.blocks.state(c)
                                                        <= txn.store.blocks.state(c));
                                                }
                                            }
                                        }
                                    }
                                },
                                Placement::Blocked { block, client, clock } => {
                                    stacks[ci].blocks.push(block);
                                    proof {
                                        assert(stacks@[ci as int].blocks@ =~= stacks0[ci as int].blocks@);
                                        assert forall|k: int|
                                            0 <= k < orig.len() implies #[trigger] settled(
                                            *txn,
                                            orig,
                                            stacks@,
                                            done,
                                            k,
                                        ) by {
                                            assert(settled(before, orig, stacks0, done, k));
                                            if k != ci {
                                                assert(stacks@[k] == stacks0[k]);
                                            }
                                        }
                                        if !progress {
                                            assert(stacks@[ci as int].blocks@.last() == block);
                                            assert(head_waits(tp, stacks@, ci as int));
                                            assert forall|k: int|
                                                0 <= k < ci implies #[trigger] head_waits(
                                                tp,
                                                stacks@,
                                                k,
                                            ) by {
                                                assert(head_waits(tp, stacks0, k));
                                                assert(stacks@[k] == stacks0[k]);
                                            }
                                        }
                                    }
                                    break ;
                                },
                            }
                        },
                    }
                }
                ci += 1;
            }
        }
        let mut missing = StateVector::new();
        let mut out: Vec<UpdateBlocks> = Vec::new();
        let mut ci: usize = 0;
        proof {
            lemma_view(txn.store.blocks);
        }
        while ci < stacks.len()
            invariant
                ci <= stacks@.len(),
                txn.wf(),
                plain0 ==> forall|a: int, b: int|
                    0 <= a < orig.len() && 0 <= b < orig[a].blocks@.len() ==> plain_block(
                        #[trigger] orig[a].blocks@[b],
                    ),
                stacks@.len() == orig.len(),
                done.len() == orig.len(),
                out@.len() == ci,
                missing.wf(),
                missing@ == wanted(*txn, out@, ci as int),
                forall|c: u64|
                    missing@.contains_key(c) ==> #[trigger] missing@[c]
                        >= txn.store.blocks.state(c),
                forall|k: int| 0 <= k < orig.len() ==> blocks_wf(
                    (#[trigger] orig[k]).blocks@,
                    orig[k].client,
                ),
                forall|k: int| ci <= k < orig.len() ==> #[trigger] settled(
                    *txn,
                    orig,
                    stacks@,
                    done,
                    k,
                ),
                forall|k: int| 0 <= k < ci ==> left_of(orig[k], #[trigger] out@[k], *txn),
                forall|k: int| ci <= k < orig.len() ==> #[trigger] head_waits(*txn, stacks@, k),
                forall|k: int|
                    0 <= k < ci ==> (#[trigger] out@[k]).blocks@.len() > 0 ==> txn.waits_for(
                        out@[k].blocks@[0],
                    ) is Some,
            decreases stacks@.len() - ci,
        {
            let ghost stacks0 = stacks@;
            let ghost d = done[ci as int];
            proof {
                assert(settled(*txn, orig, stacks0, done, ci as int));
                assert(blocks_wf(orig[ci as int].blocks@, orig[ci as int].client));
            }
            let n = stacks[ci].blocks.len();
            if n > 0 {
                let ghost top = stacks0[ci as int].blocks@[n - 1];
                proof {
                    assert(top == orig[ci as int].blocks@[d]);
                    assert(top.wf());
                    lemma_view(txn.store.blocks);
                }
                match txn.missing(&stacks[ci].blocks[n - 1]) {
                    Some((client, clock)) => {
                        missing.set_min(client, clock);
                    },
                    None => {},
                }
            }
            let client = stacks[ci].client;
            let mut src: Vec<Block> = Vec::new();
            std::mem::swap(&mut src, &mut stacks[ci].blocks);
            let ghost stack = src@;
            let blocks = reversed(src);
            proof {
                let all = orig[ci as int].blocks@;
                assert(blocks@ =~= all.subrange(d, all.len() as int)) by {
                    assert forall|j: int| 0 <= j < blocks@.len() implies blocks@[j] == all[d
                        + j] by {
                        assert(blocks@[j] == stack[stack.len() - 1 - j]);
                    }
                }
            }
            let ghost out0 = out@;
            let ghost entry = UpdateBlocks { client, blocks };
            out.push(UpdateBlocks { client, blocks });
            proof {
                lemma_wanted_prefix(*txn, out0, entry, ci as int);
                assert(out@ == out0.push(entry));
                assert(out@[ci as int] == entry);
                if n > 0 {
                    assert(entry.blocks@[0] == orig[ci as int].blocks@[d]);
                }
                assert forall|k: int| ci + 1 <= k < orig.len() implies #[trigger] settled(
                    *txn,
                    orig,
                    stacks@,
                    done,
                    k,
                ) by {
                    assert(settled(*txn, orig, stacks0, done, k));
                    assert(stacks@[k] == stacks0[k]);
                }
                assert forall|k: int| 0 <= k < ci + 1 implies left_of(
                    orig[k],
                    #[trigger] out@[k],
                    *txn,
                ) by {}
                assert forall|k: int| ci + 1 <= k < orig.len() implies #[trigger] head_waits(
                    *txn,
                    stacks@,
                    k,
                ) by {
                    assert(head_waits(*txn, stacks0, k));
                    assert(stacks@[k] == stacks0[k]);
                }
                assert(head_waits(*txn, stacks0, ci as int));
                assert forall|k: int| 0 <= k < ci + 1 implies (#[trigger] out@[k]).blocks@.len()
                    > 0 ==> txn.waits_for(out@[k].blocks@[0]) is Some by {
                    if k < ci {
                        assert(out@[k] == out0[k]);
                    } else if n > 0 {
                        assert(entry.blocks@[0] == stack[stack.len() - 1]);
                    }
                }
            }
            ci += 1;
        }
        let rest = Update { clients: out };
        proof {
            if plain0 {
                assert forall|a: int, b: int|
                    0 <= a < rest.clients.len() && 0 <= b
                        < rest.clients[a].blocks@.len() implies plain_block(
                    #[trigger] rest.clients[a].blocks@[b],
                ) by {
                    assert(left_of(orig[a], out@[a], *txn));
                    let all = orig[a].blocks@;
                    assert(rest.clients[a].blocks@[b] == all[all.len() - rest.clients[a].blocks@.len()
                        + b]);
                }
            }
            assert(rest.wf()) by {
                assert forall|k: int| 0 <= k < rest.clients.len() implies blocks_wf(
                    (#[trigger] rest.clients[k]).blocks@,
                    rest.clients[k].client,
                ) by {
                    assert(left_of(orig[k], out@[k], *txn));
                    assert(blocks_wf(orig[k].blocks@, orig[k].client));
                }
            }
        }
        if rest.is_empty() {
            proof {
                assert forall|k: int, i: int|
                    0 <= k < orig.len() && 0 <= i < orig[k].blocks@.len() implies (
                #[trigger] orig[k].blocks@[i]).spec_clock_end() <= txn.store.blocks.state(
                    orig[k].client,
                ) by {
                    assert(left_of(orig[k], out@[k], *txn));
                    assert(rest.clients[k].blocks@.len() == 0);
                    assert(blocks_wf(orig[k].blocks@, orig[k].client));
                }
            }
            None
        } else {
            Some(PendingUpdate { update: rest, missing })
        }
    }
}

/// What placing the blocks of `all` has come to, in the store of `txn`:
/// without a remainder, the store knows every unit of every block; with
/// one, it holds for each client the blocks from some block on, the store
/// knows every unit of the blocks before, the first block left of each
/// client waits for a unit, and the remainder is said to wait for just
/// these units, none of which the store knows.
pub open spec fn integrated(all: Update, txn: Transaction, r: Option<PendingUpdate>) -> bool {
    match r {
        None => forall|ci: int, i: int|
            0 <= ci < all.clients.len() && 0 <= i < all.clients[ci].blocks@.len() ==> (
            #[trigger] all.clients[ci].blocks@[i]).spec_clock_end() <= txn.store.blocks.state(
                all.clients[ci].client,
            ),
        Some(p) => {
            &&& p.wf()
            &&& !p.update.spec_is_empty()
            &&& p.update.clients@.len() == all.clients@.len()
            &&& forall|ci: int|
                0 <= ci < all.clients.len() ==> left_of(
                    all.clients[ci],
                    #[trigger] p.update.clients[ci],
                    txn,
                )
            &&& forall|c: u64|
                p.missing@.contains_key(c) ==> #[trigger] p.missing@[c] >= txn.store.blocks.state(
                    c,
                )
            &&& p.missing@ == wanted(txn, p.update.clients@, p.update.clients@.len() as int)
            &&& forall|ci: int|
                0 <= ci < p.update.clients.len() ==> (#[trigger] p.update.clients[ci]).blocks@.len()
                    > 0 ==> txn.waits_for(p.update.clients[ci].blocks@[0]) is Some
        },
    }
}

/// `rest` holds the blocks of `all` from some block on, and the store of
/// `txn` knows every unit of the blocks before that one.
pub open spec fn left_of(all: UpdateBlocks, rest: UpdateBlocks, txn: Transaction) -> bool {
    &&& rest.client == all.client
    &&& rest.blocks@.len() <= all.blocks@.len()
    &&& rest.blocks@ == all.blocks@.subrange(
        all.blocks@.len() - rest.blocks@.len(),
        all.blocks@.len() as int,
    )
    &&& known_upto(txn, all.blocks@, all.blocks@.len() - rest.blocks@.len())
}

impl PendingUpdate {
    /// The blocks are sound, and no client is waited for twice.
    pub open spec fn wf(&self) -> bool {
        self.update.wf() && self.missing.wf()
    }
}

} // verus!
