//! State vectors, and the blocks of every client in clock order.

use crate::block::{split_of, Block, Item, Unit, ID};
use vstd::prelude::*;

verus! {

/// For each client, a clock: how far that client's history is known, or how
/// far it has to be known before something else can be placed.
#[derive(Clone, Debug, PartialEq, Eq)]
pub struct StateVector {
    pub entries: Vec<(u64, u32)>,
}

impl View for StateVector {
    type V = Map<u64, u32>;

    open spec fn view(&self) -> Map<u64, u32> {
        Map::new(
            |c: u64| self.contains_client(c),
            |c: u64| self.entries[choose|i: int| self.has(c, i)].1,
        )
    }
}

impl StateVector {
    /// Entry `i` is the one of `client`.
    pub open spec fn has(&self, client: u64, i: int) -> bool {
        0 <= i < self.entries.len() && self.entries[i].0 == client
    }

    /// The vector has a clock for `client`.
    pub open spec fn contains_client(&self, client: u64) -> bool {
        exists|i: int| self.has(client, i)
    }

    /// No client has two entries.
    pub open spec fn wf(&self) -> bool {
        forall|c: u64, i: int, j: int| #[trigger] self.has(c, i) && #[trigger] self.has(c, j) ==> i == j
    }

    /// The clock of `client`; 0 where it has none.
    pub open spec fn spec_get(&self, client: u64) -> u32 {
        if self@.contains_key(client) {
            self@[client]
        } else {
            0
        }
    }

    /// A vector without clocks.
    pub fn new() -> (sv: StateVector)
        ensures
            sv.wf(),
            sv@ == Map::<u64, u32>::empty(),
    {
        let sv = StateVector { entries: Vec::new() };
        assert(sv@ =~= Map::<u64, u32>::empty());
        sv
    }

    /// Position of the entry of `client`.
    pub fn find(&self, client: u64) -> (r: Option<usize>)
        ensures
            match r {
                Some(i) => self.has(client, i as int),
                None => !self.contains_client(client),
            },
    {
        let mut i: usize = 0;
        while i < self.entries.len()
            invariant
                i <= self.entries.len(),
                forall|j: int| 0 <= j < i ==> !self.has(client, j),
            decreases self.entries.len() - i,
        {
            if self.entries[i].0 == client {
                return Some(i);
            }
            i += 1;
        }
        None
    }

    /// The clock of `client`; 0 where it has none.
    pub fn get(&self, client: &u64) -> (clock: u32)
        requires
            self.wf(),
        ensures
            clock == self.spec_get(*client),
    {
        match self.find(*client) {
            Some(i) => self.entries[i].1,
            None => 0,
        }
    }

    /// Sets the clock of `client`.
    pub fn set(&mut self, client: u64, clock: u32)
        requires
            old(self).wf(),
        ensures
            final(self).wf(),
            final(self)@ == old(self)@.insert(client, clock),
    {
        match self.find(client) {
            Some(i) => {
                self.entries[i].1 = clock;
                proof {
                    assert forall|c: u64, j: int| self.has(c, j) == old(self).has(c, j) by {}
                    assert forall|c: u64| self.contains_client(c) == old(self).contains_client(
                        c,
                    ) by {
                        if old(self).contains_client(c) {
                            let j = choose|j: int| old(self).has(c, j);
                            assert(self.has(c, j));
                        }
                        if self.contains_client(c) {
                            let j = choose|j: int| self.has(c, j);
                            assert(old(self).has(c, j));
                        }
                    }
                    assert(old(self).has(client, i as int));
                    assert(self@ =~= old(self)@.insert(client, clock));
                }
            },
            None => {
                self.entries.push((client, clock));
                proof {
                    let n = old(self).entries.len() as int;
                    assert(self.has(client, n));
                    assert forall|c: u64, j: int| self.has(c, j) == (old(self).has(c, j) || (c
                        == client && j == n)) by {}
                    assert forall|c: u64| self.contains_client(c) == (old(self).contains_client(c)
                        || c == client) by {
                        if old(self).contains_client(c) {
                            let j = choose|j: int| old(self).has(c, j);
                            assert(self.has(c, j));
                        }
                    }
                    assert(self@ =~= old(self)@.insert(client, clock));
                }
            },
        }
    }

    /// Lowers the clock of `client` to `clock`; a client without a clock gets
    /// `clock`.
    pub fn set_min(&mut self, client: u64, clock: u32)
        requires
            old(self).wf(),
        ensures
            final(self).wf(),
            final(self)@ == old(self)@.insert(
                client,
                if old(self)@.contains_key(client) && old(self)@[client] < clock {
                    old(self)@[client]
                } else {
                    clock
                },
            ),
    {
        match self.find(client) {
            Some(i) => {
                let now = self.entries[i].1;
                if clock < now {
                    self.set(client, clock);
                } else {
                    assert(self@ =~= old(self)@.insert(client, now));
                }
            },
            None => {
                self.set(client, clock);
            },
        }
    }

    /// Raises the clock of `client` to `clock`; a client without a clock gets
    /// `clock`.
    pub fn set_max(&mut self, client: u64, clock: u32)
        requires
            old(self).wf(),
        ensures
            final(self).wf(),
            final(self)@ == old(self)@.insert(
                client,
                if old(self)@.contains_key(client) && old(self)@[client] > clock {
                    old(self)@[client]
                } else {
                    clock
                },
            ),
    {
        match self.find(client) {
            Some(i) => {
                let now = self.entries[i].1;
                if clock > now {
                    self.set(client, clock);
                } else {
                    assert(self@ =~= old(self)@.insert(client, now));
                }
            },
            None => {
                self.set(client, clock);
            },
        }
    }

    /// Whether the unit `id` lies within what the vector covers.
    pub fn contains(&self, id: &ID) -> (r: bool)
        requires
            self.wf(),
        ensures
            r == (id.clock < self.spec_get(id.client)),
    {
        id.clock < self.get(&id.client)
    }
}

/// Blocks of one client: each has at least one unit, the first starts at
/// clock 0, and each next one starts where the one before it ends.
pub open spec fn list_wf(list: Seq<Block>, client: u64) -> bool {
    &&& forall|i: int|
        0 <= i < list.len() ==> (#[trigger] list[i]).wf() && list[i].spec_id().client == client
    &&& list.len() > 0 ==> list[0].clock() == 0
    &&& forall|i: int, j: int|
        0 <= i && j == i + 1 && j < list.len() ==> (#[trigger] list[j]).clock() == (
        #[trigger] list[i]).spec_clock_end()
}

/// First clock that the list does not hold.
pub open spec fn list_state(list: Seq<Block>) -> nat {
    if list.len() == 0 {
        0
    } else {
        list.last().spec_clock_end()
    }
}

/// Block `i` of the list holds clock `k`.
pub open spec fn list_holds(list: Seq<Block>, i: int, k: int) -> bool {
    0 <= i < list.len() && list[i].clock() <= k < list[i].spec_clock_end()
}

/// Index of the block that holds clock `k`.
pub open spec fn list_pivot(list: Seq<Block>, k: int) -> int {
    choose|i: int| list_holds(list, i, k)
}

/// The unit at clock `k`.
pub open spec fn list_unit(list: Seq<Block>, k: int) -> Unit {
    let i = list_pivot(list, k);
    list[i].unit(k - list[i].clock())
}

/// The units of the list, clock by clock.
pub open spec fn list_units(list: Seq<Block>) -> Seq<Unit> {
    Seq::new(list_state(list), |k: int| list_unit(list, k))
}

/// Block `i` of the list starts at `clock`.
pub open spec fn list_starts(list: Seq<Block>, i: int, clock: int) -> bool {
    0 <= i < list.len() && list[i].clock() == clock
}

/// The block that starts at `clock`, if one does.
pub open spec fn list_block_at(list: Seq<Block>, clock: int) -> Option<Block> {
    if exists|i: int| list_starts(list, i, clock) {
        Some(list[choose|i: int| list_starts(list, i, clock)])
    } else {
        None
    }
}

/// Every block ends at or before the start of every later block.
pub proof fn lemma_list_sorted(list: Seq<Block>, client: u64, i: int, j: int)
    requires
        list_wf(list, client),
        0 <= i < j < list.len(),
    ensures
        list[i].spec_clock_end() <= list[j].clock(),
    decreases j - i,
{
    if j > i + 1 {
        lemma_list_sorted(list, client, i, j - 1);
        assert(list[j].clock() == list[j - 1].spec_clock_end());
    }
}

/// Every block ends at or before the list's state.
pub proof fn lemma_list_bound(list: Seq<Block>, client: u64, i: int)
    requires
        list_wf(list, client),
        0 <= i < list.len(),
    ensures
        list[i].spec_clock_end() <= list_state(list),
        list[i].clock() < list_state(list),
{
    if i < list.len() - 1 {
        lemma_list_sorted(list, client, i, list.len() - 1);
    }
}

/// A clock held by block `i` is held by no other: `i` is its pivot.
pub proof fn lemma_list_pivot(list: Seq<Block>, client: u64, i: int, k: int)
    requires
        list_wf(list, client),
        list_holds(list, i, k),
    ensures
        list_pivot(list, k) == i,
        k < list_state(list),
        list_unit(list, k) == list[i].unit(k - list[i].clock()),
{
    let p = list_pivot(list, k);
    assert(list_holds(list, p, k));
    if p < i {
        lemma_list_sorted(list, client, p, i);
    }
    if i < p {
        lemma_list_sorted(list, client, i, p);
    }
    lemma_list_bound(list, client, i);
}

/// Every clock below the state is held by some block, at or after `from`.
proof fn lemma_list_search(list: Seq<Block>, client: u64, k: int, from: int) -> (i: int)
    requires
        list_wf(list, client),
        0 <= from < list.len(),
        list[from].clock() <= k < list_state(list),
    ensures
        list_holds(list, i, k),
    decreases list.len() - from,
{
    if k < list[from].spec_clock_end() {
        from
    } else {
        assert(list[from + 1].clock() == list[from].spec_clock_end());
        lemma_list_search(list, client, k, from + 1)
    }
}

/// Every clock below the state is held by its pivot.
pub proof fn lemma_list_covered(list: Seq<Block>, client: u64, k: int)
    requires
        list_wf(list, client),
        0 <= k < list_state(list),
    ensures
        list_holds(list, list_pivot(list, k), k),
{
    let i = lemma_list_search(list, client, k, 0);
}

/// The block at index `i` is the one that starts at its first clock.
pub proof fn lemma_list_block_at(list: Seq<Block>, client: u64, i: int)
    requires
        list_wf(list, client),
        0 <= i < list.len(),
    ensures
        list_block_at(list, list[i].clock() as int) == Some(list[i]),
{
    let c = list[i].clock() as int;
    assert(list_starts(list, i, c));
    let j = choose|j: int| list_starts(list, j, c);
    if j < i {
        lemma_list_sorted(list, client, j, i);
    }
    if i < j {
        lemma_list_sorted(list, client, i, j);
    }
}

/// The units of two lists with the same state are the same if they are the
/// same clock by clock.
pub proof fn lemma_list_units_eq(a: Seq<Block>, b: Seq<Block>)
    requires
        list_state(a) == list_state(b),
        forall|k: int| 0 <= k < list_state(a) ==> list_unit(a, k) == list_unit(b, k),
    ensures
        list_units(a) == list_units(b),
{
    assert(list_units(a) =~= list_units(b));
}

/// Putting another block of the same extent in the place of block `i`
/// changes the units of that block, and nothing else.
pub proof fn lemma_list_replace(list: Seq<Block>, client: u64, i: int, b: Block)
    requires
        list_wf(list, client),
        0 <= i < list.len(),
        b.wf(),
        b.spec_id() == list[i].spec_id(),
        b.spec_len() == list[i].spec_len(),
    ensures
        list_wf(list.update(i, b), client),
        list_state(list.update(i, b)) == list_state(list),
        forall|k: int|
            0 <= k < list_state(list) ==> #[trigger] list_unit(list.update(i, b), k) == (if list_holds(
                list,
                i,
                k,
            ) {
                b.unit(k - b.clock())
            } else {
                list_unit(list, k)
            }),
        forall|c: int| #[trigger]
            list_block_at(list.update(i, b), c) == (if c == b.clock() {
                Some(b)
            } else {
                list_block_at(list, c)
            }),
{
    let l2 = list.update(i, b);
    assert(list_wf(l2, client));
    assert forall|k: int| 0 <= k < list_state(list) implies #[trigger] list_unit(l2, k) == (
    if list_holds(list, i, k) {
        b.unit(k - b.clock())
    } else {
        list_unit(list, k)
    }) by {
        lemma_list_covered(list, client, k);
        let p = list_pivot(list, k);
        assert(list_holds(l2, p, k));
        lemma_list_pivot(l2, client, p, k);
        if list_holds(list, i, k) {
            lemma_list_pivot(list, client, i, k);
        }
    }
    assert forall|c: int| #[trigger]
        list_block_at(l2, c) == (if c == b.clock() {
            Some(b)
        } else {
            list_block_at(list, c)
        }) by {
        if c == b.clock() {
            assert(list_starts(l2, i, c));
            lemma_list_block_at(l2, client, i);
        } else if exists|j: int| list_starts(list, j, c) {
            let j = choose|j: int| list_starts(list, j, c);
            assert(l2[j] == list[j]);
            assert(list_starts(l2, j, c));
            lemma_list_block_at(l2, client, j);
            lemma_list_block_at(list, client, j);
        } else {
            if exists|j: int| list_starts(l2, j, c) {
                let j = choose|j: int| list_starts(l2, j, c);
                assert(list_starts(list, j, c));
            }
        }
    }
}

/// Cutting block `i` in two leaves every unit of the list as it was. The
/// two parts are new block starts; no other start changes.
pub proof fn lemma_list_split(list: Seq<Block>, client: u64, i: int, b1: Block, b2: Block)
    requires
        list_wf(list, client),
        0 <= i < list.len(),
        b1.wf(),
        b2.wf(),
        b1.spec_id() == list[i].spec_id(),
        b2.spec_id().client == client,
        b2.clock() == b1.spec_clock_end(),
        b1.spec_len() + b2.spec_len() == list[i].spec_len(),
        forall|j: int| 0 <= j < b1.spec_len() ==> b1.unit(j) == list[i].unit(j),
        forall|j: int| 0 <= j < b2.spec_len() ==> b2.unit(j) == list[i].unit(b1.spec_len() + j),
    ensures
        list_wf(list.update(i, b1).insert(i + 1, b2), client),
        list_state(list.update(i, b1).insert(i + 1, b2)) == list_state(list),
        list_units(list.update(i, b1).insert(i + 1, b2)) == list_units(list),
        forall|c: int| #[trigger]
            list_block_at(list.update(i, b1).insert(i + 1, b2), c) == (if c == b1.clock() {
                Some(b1)
            } else if c == b2.clock() {
                Some(b2)
            } else {
                list_block_at(list, c)
            }),
{
    let l2 = list.update(i, b1).insert(i + 1, b2);
    assert(l2.len() == list.len() + 1);
    assert(forall|j: int| 0 <= j < i ==> l2[j] == list[j]);
    assert(l2[i] == b1);
    assert(l2[i + 1] == b2);
    assert(forall|j: int| i + 1 < j < l2.len() ==> l2[j] == list[j - 1]);
    assert(list_wf(l2, client)) by {
        assert forall|x: int, y: int| 0 <= x && y == x + 1 && y < l2.len() implies (
        #[trigger] l2[y]).clock() == (#[trigger] l2[x]).spec_clock_end() by {
            if y < i + 1 {
                assert(list[y].clock() == list[x].spec_clock_end());
            } else if x > i + 1 {
                assert(list[y - 1].clock() == list[x - 1].spec_clock_end());
            } else if x == i + 1 {
                assert(list[y - 1].clock() == list[i].spec_clock_end());
            }
        }
    }
    assert(list_state(l2) == list_state(list));
    assert forall|k: int| 0 <= k < list_state(list) implies list_unit(l2, k) == list_unit(
        list,
        k,
    ) by {
        lemma_list_covered(list, client, k);
        let p = list_pivot(list, k);
        if p < i {
            assert(list_holds(l2, p, k));
            lemma_list_pivot(l2, client, p, k);
        } else if p > i {
            assert(list_holds(l2, p + 1, k));
            lemma_list_pivot(l2, client, p + 1, k);
        } else if k < b1.spec_clock_end() {
            assert(list_holds(l2, i, k));
            lemma_list_pivot(l2, client, i, k);
        } else {
            assert(list_holds(l2, i + 1, k));
            lemma_list_pivot(l2, client, i + 1, k);
        }
    }
    lemma_list_units_eq(l2, list);
    assert forall|c: int| #[trigger]
        list_block_at(l2, c) == (if c == b1.clock() {
            Some(b1)
        } else if c == b2.clock() {
            Some(b2)
        } else {
            list_block_at(list, c)
        }) by {
        if c == b1.clock() {
            assert(list_starts(l2, i, c));
            lemma_list_block_at(l2, client, i);
        } else if c == b2.clock() {
            assert(list_starts(l2, i + 1, c));
            lemma_list_block_at(l2, client, i + 1);
        } else if exists|j: int| list_starts(list, j, c) {
            let j = choose|j: int| list_starts(list, j, c);
            lemma_list_block_at(list, client, j);
            if j < i {
                assert(l2[j] == list[j]);
                assert(list_starts(l2, j, c));
                lemma_list_block_at(l2, client, j);
            } else {
                assert(j != i);
                assert(l2[j + 1] == list[j]);
                assert(list_starts(l2, j + 1, c));
                lemma_list_block_at(l2, client, j + 1);
            }
        } else {
            if exists|j: int| list_starts(l2, j, c) {
                let j = choose|j: int| list_starts(l2, j, c);
                if j < i {
                    assert(l2[j] == list[j]);
                    assert(list_starts(list, j, c));
                } else {
                    assert(j > i + 1);
                    assert(l2[j] == list[j - 1]);
                    assert(list_starts(list, j - 1, c));
                }
            }
        }
    }
}

/// A block put at the end of the list adds its units after those that
/// were there.
pub proof fn lemma_list_push(list: Seq<Block>, client: u64, b: Block)
    requires
        list_wf(list, client),
        b.wf(),
        b.spec_id().client == client,
        b.clock() == list_state(list),
    ensures
        list_wf(list.push(b), client),
        list_state(list.push(b)) == b.spec_clock_end(),
        forall|k: int|
            0 <= k < b.spec_clock_end() ==> #[trigger] list_unit(list.push(b), k) == (if k
                < list_state(list) {
                list_unit(list, k)
            } else {
                b.unit(k - b.clock())
            }),
        forall|c: int| #[trigger]
            list_block_at(list.push(b), c) == (if c == b.clock() {
                Some(b)
            } else {
                list_block_at(list, c)
            }),
{
    let l2 = list.push(b);
    let n = list.len() as int;
    assert(l2[n] == b);
    assert(forall|j: int| 0 <= j < n ==> l2[j] == list[j]);
    assert(list_wf(l2, client)) by {
        assert forall|x: int, y: int| 0 <= x && y == x + 1 && y < l2.len() implies (
        #[trigger] l2[y]).clock() == (#[trigger] l2[x]).spec_clock_end() by {
            if y < n {
                assert(list[y].clock() == list[x].spec_clock_end());
            }
        }
    }
    assert forall|k: int| 0 <= k < b.spec_clock_end() implies #[trigger] list_unit(l2, k) == (
    if k < list_state(list) {
        list_unit(list, k)
    } else {
        b.unit(k - b.clock())
    }) by {
        if k < list_state(list) {
            lemma_list_covered(list, client, k);
            let p = list_pivot(list, k);
            assert(list_holds(l2, p, k));
            lemma_list_pivot(l2, client, p, k);
        } else {
            assert(list_holds(l2, n, k));
            lemma_list_pivot(l2, client, n, k);
        }
    }
    assert forall|c: int| #[trigger]
        list_block_at(l2, c) == (if c == b.clock() {
            Some(b)
        } else {
            list_block_at(list, c)
        }) by {
        if c == b.clock() {
            assert(list_starts(l2, n, c));
            lemma_list_block_at(l2, client, n);
        } else if exists|j: int| list_starts(list, j, c) {
            let j = choose|j: int| list_starts(list, j, c);
            lemma_list_block_at(list, client, j);
            assert(list_starts(l2, j, c));
            lemma_list_block_at(l2, client, j);
        } else {
            if exists|j: int| list_starts(l2, j, c) {
                let j = choose|j: int| list_starts(l2, j, c);
                assert(list_starts(list, j, c));
            }
        }
    }
}

/// The blocks of one client, in clock order.
#[derive(Clone, Debug, PartialEq, Eq)]
pub struct ClientBlockList {
    pub client: u64,
    pub list: Vec<Block>,
}

impl ClientBlockList {
    /// The blocks are those of the client, in clock order without gaps.
    pub open spec fn wf(&self) -> bool {
        list_wf(self.list@, self.client)
    }

    /// First clock of this client that is not known yet.
    pub open spec fn spec_state(&self) -> nat {
        list_state(self.list@)
    }

    /// A list without blocks.
    pub fn new(client: u64) -> (r: ClientBlockList)
        ensures
            r.wf(),
            r.client == client,
            r.list@.len() == 0,
    {
        ClientBlockList { client, list: Vec::new() }
    }

    /// First clock of this client that is not known yet.
    pub fn get_state(&self) -> (state: u32)
        requires
            self.wf(),
        ensures
            state == self.spec_state(),
    {
        if self.list.len() == 0 {
            0
        } else {
            self.list[self.list.len() - 1].clock_end()
        }
    }

    /// Index of the block that holds `clock`; none where the clock is not
    /// known yet.
    pub fn find_pivot(&self, clock: u32) -> (r: Option<usize>)
        requires
            self.wf(),
        ensures
            r is Some <==> clock < self.spec_state(),
            r matches Some(i) ==> list_holds(self.list@, i as int, clock as int),
    {
        if self.list.len() == 0 {
            return None;
        }
        if clock >= self.get_state() {
            return None;
        }
        let mut lo: usize = 0;
        let mut hi: usize = self.list.len();
        while hi - lo > 1
            invariant
                self.wf(),
                0 <= lo < hi <= self.list.len(),
                self.list[lo as int].clock() <= clock,
                clock < self.spec_state(),
                hi < self.list.len() ==> clock < self.list[hi as int].clock(),
            decreases hi - lo,
        {
            let mid = lo + (hi - lo) / 2;
            if self.list[mid].id().clock <= clock {
                lo = mid;
            } else {
                hi = mid;
            }
        }
        proof {
            if hi < self.list.len() {
                assert(self.list[hi as int].clock() == self.list[lo as int].spec_clock_end());
            }
        }
        Some(lo)
    }
}

/// The blocks of every known client.
#[derive(Clone, Debug, PartialEq, Eq)]
pub struct BlockStore {
    pub clients: Vec<ClientBlockList>,
}

/// What contracts see of a block store: for each known client its units,
/// clock by clock. Where blocks begin and end does not show in it.
impl View for BlockStore {
    type V = Map<u64, Seq<Unit>>;

    open spec fn view(&self) -> Map<u64, Seq<Unit>> {
        Map::new(|c: u64| self.spec_contains_client(c), |c: u64| self.units(c))
    }
}

/// `y` stands where `x` stands: in the same container, under the same key.
pub open spec fn same_place(x: Item, y: Item) -> bool {
    y.parent == x.parent && crate::block::key_view(y.parent_sub) == crate::block::key_view(
        x.parent_sub,
    )
}

/// `new` is `old` but for block `i` of `client`, which is now `b` and spans
/// the clocks it spanned.
pub open spec fn replaced(old: BlockStore, new: BlockStore, client: u64, i: int, b: Block) -> bool {
    &&& new.wf()
    &&& 0 <= i < old.list_of(client).len()
    &&& b.spec_id() == old.list_of(client)[i].spec_id()
    &&& b.spec_len() == old.list_of(client)[i].spec_len()
    &&& new.list_of(client) == old.list_of(client).update(i, b)
    &&& forall|c: u64| #[trigger] new.spec_contains_client(c) == old.spec_contains_client(c)
    &&& forall|c: u64, j: int| #[trigger] new.has(c, j) == old.has(c, j)
    &&& forall|c: u64| c != client ==> #[trigger] new.list_of(c) == old.list_of(c)
    &&& forall|c: u64| #[trigger] new.state(c) == old.state(c)
    &&& forall|id: ID| #[trigger]
        new.block_at(id) == (if id == b.spec_id() {
            Some(b)
        } else {
            old.block_at(id)
        })
    &&& forall|c: u64, k: int|
        0 <= k < old.state(c) ==> #[trigger] new.units(c)[k] == (if c == client && b.clock() <= k
            < b.spec_clock_end() {
            b.unit(k - b.clock())
        } else {
            old.units(c)[k]
        })
}

/// `new` is `old` but for block `i` of `client`, which is cut in two after
/// its first `k` units.
pub open spec fn split_done(old: BlockStore, new: BlockStore, client: u64, i: int, k: nat) -> bool {
    &&& new.wf()
    &&& 0 <= i < old.list_of(client).len()
    &&& new.list_of(client).len() == old.list_of(client).len() + 1
    &&& split_of(old.list_of(client)[i], k, new.list_of(client)[i], new.list_of(client)[i + 1])
    &&& new.list_of(client) == old.list_of(client).update(i, new.list_of(client)[i]).insert(
        i + 1,
        new.list_of(client)[i + 1],
    )
    &&& forall|c: u64| #[trigger] new.spec_contains_client(c) == old.spec_contains_client(c)
    &&& forall|c: u64, j: int| #[trigger] new.has(c, j) == old.has(c, j)
    &&& forall|c: u64| c != client ==> #[trigger] new.list_of(c) == old.list_of(c)
    &&& forall|c: u64| #[trigger] new.state(c) == old.state(c)
    &&& forall|c: u64| #[trigger] new.units(c) == old.units(c)
    &&& old.block_at(new.list_of(client)[i + 1].spec_id()) is None
    &&& forall|id: ID| #[trigger]
        new.block_at(id) == (if id == new.list_of(client)[i].spec_id() {
            Some(new.list_of(client)[i])
        } else if id == new.list_of(client)[i + 1].spec_id() {
            Some(new.list_of(client)[i + 1])
        } else {
            old.block_at(id)
        })
}

/// `new` is `old` with `b` put behind the blocks of its client.
pub open spec fn pushed(old: BlockStore, new: BlockStore, b: Block) -> bool {
    &&& new.wf()
    &&& new.list_of(b.spec_id().client) == old.list_of(b.spec_id().client).push(b)
    &&& forall|c: u64| #[trigger]
        new.spec_contains_client(c) == (old.spec_contains_client(c) || c == b.spec_id().client)
    &&& forall|c: u64| c != b.spec_id().client ==> #[trigger] new.list_of(c) == old.list_of(c)
    &&& forall|c: u64| #[trigger]
        new.state(c) == (if c == b.spec_id().client {
            b.spec_clock_end()
        } else {
            old.state(c)
        })
    &&& forall|id: ID| #[trigger]
        new.block_at(id) == (if id == b.spec_id() {
            Some(b)
        } else {
            old.block_at(id)
        })
    &&& forall|c: u64, k: int|
        0 <= k < new.state(c) ==> #[trigger] new.units(c)[k] == (if c == b.spec_id().client && k
            >= b.clock() {
            b.unit(k - b.clock())
        } else {
            old.units(c)[k]
        })
}

impl BlockStore {
    /// List `i` is the one of `client`.
    pub open spec fn has(&self, client: u64, i: int) -> bool {
        0 <= i < self.clients.len() && self.clients[i].client == client
    }

    /// The store has a list for `client`.
    pub open spec fn spec_contains_client(&self, client: u64) -> bool {
        exists|i: int| self.has(client, i)
    }

    /// The blocks of `client`; none for a client that is not known.
    pub open spec fn list_of(&self, client: u64) -> Seq<Block> {
        if self.spec_contains_client(client) {
            self.clients[choose|i: int| self.has(client, i)].list@
        } else {
            Seq::empty()
        }
    }

    /// No client has two lists, and every list is in clock order without
    /// gaps.
    pub open spec fn wf(&self) -> bool {
        &&& forall|c: u64, i: int, j: int| #[trigger]
            self.has(c, i) && #[trigger] self.has(c, j) ==> i == j
        &&& forall|i: int| 0 <= i < self.clients.len() ==> (#[trigger] self.clients[i]).wf()
    }

    /// First clock of `client` that is not known yet.
    pub open spec fn state(&self, client: u64) -> nat {
        list_state(self.list_of(client))
    }

    /// The units of `client`, clock by clock.
    pub open spec fn units(&self, client: u64) -> Seq<Unit> {
        list_units(self.list_of(client))
    }

    /// The block that starts at `id`, if one does.
    pub open spec fn block_at(&self, id: ID) -> Option<Block> {
        list_block_at(self.list_of(id.client), id.clock as int)
    }

    /// The item that starts at `id`, if one does.
    pub open spec fn item_at(&self, id: ID) -> Option<Item> {
        match self.block_at(id) {
            Some(Block::Item(x)) => Some(x),
            _ => None,
        }
    }

    /// Index, in its client's list, of the block that starts at `id`.
    pub open spec fn index_at(&self, id: ID) -> int {
        choose|i: int| list_starts(self.list_of(id.client), i, id.clock as int)
    }

    /// `id` is the first unit of a block, or lies beyond what is known: no
    /// block holds it in its middle.
    pub open spec fn is_clean(&self, id: ID) -> bool {
        id.clock >= self.state(id.client) || self.is_start(id)
    }

    /// `id` is the first unit of a block.
    pub open spec fn is_start(&self, id: ID) -> bool {
        self.block_at(id) is Some
    }

    /// The neighbours that `x` names are items, and name `x` in turn.
    pub open spec fn link_ok(&self, x: Item) -> bool {
        &&& match x.right {
            Some(r) => match self.item_at(r) {
                Some(y) => y.left == Some(x.id),
                None => false,
            },
            None => true,
        }
        &&& match x.left {
            Some(l) => match self.item_at(l) {
                Some(y) => y.right == Some(x.id),
                None => false,
            },
            None => true,
        }
    }

    /// Every item's neighbours are items that name it in turn: the left
    /// links are the right links read backwards.
    pub open spec fn links_wf(&self) -> bool {
        forall|id: ID|
            match #[trigger] self.item_at(id) {
                Some(x) => self.link_ok(x),
                None => true,
            }
    }

    /// The list at a position of `client` is the list of `client`.
    pub proof fn lemma_list_of(&self, client: u64, ci: int)
        requires
            self.wf(),
            self.has(client, ci),
        ensures
            self.list_of(client) == self.clients[ci].list@,
            list_wf(self.list_of(client), client),
    {
        let j = choose|j: int| self.has(client, j);
        assert(self.has(client, j));
        assert(self.clients[ci].wf());
    }

    /// The blocks of every client are in clock order without gaps.
    pub proof fn lemma_list_wf(&self, client: u64)
        requires
            self.wf(),
        ensures
            list_wf(self.list_of(client), client),
    {
        if self.spec_contains_client(client) {
            let j = choose|j: int| self.has(client, j);
            self.lemma_list_of(client, j);
        }
    }

    /// A block found at `id` starts there, and stands in its client's list.
    pub proof fn lemma_block_at(&self, id: ID) -> (i: int)
        requires
            self.wf(),
            self.block_at(id) is Some,
        ensures
            0 <= i < self.list_of(id.client).len(),
            self.list_of(id.client)[i] == self.block_at(id)->0,
            self.block_at(id)->0.spec_id() == id,
            self.block_at(id)->0.wf(),
            id.clock < self.state(id.client),
            i == self.index_at(id),
            list_holds(self.list_of(id.client), i, id.clock as int),
    {
        let list = self.list_of(id.client);
        self.lemma_list_wf(id.client);
        let i = choose|i: int| list_starts(list, i, id.clock as int);
        lemma_list_bound(list, id.client, i);
        i
    }

    /// Block `i` of `client` is the block found at its identifier.
    pub proof fn lemma_block_index(&self, client: u64, i: int)
        requires
            self.wf(),
            0 <= i < self.list_of(client).len(),
        ensures
            self.list_of(client)[i].spec_id().client == client,
            self.block_at(self.list_of(client)[i].spec_id()) == Some(self.list_of(client)[i]),
    {
        self.lemma_list_wf(client);
        lemma_list_block_at(self.list_of(client), client, i);
    }

    /// The unit at a clock that block `i` of `client` holds is that
    /// block's.
    pub proof fn lemma_unit(&self, client: u64, i: int, k: int)
        requires
            self.wf(),
            list_holds(self.list_of(client), i, k),
        ensures
            0 <= k < self.state(client),
            self.units(client)[k] == self.list_of(client)[i].unit(
                k - self.list_of(client)[i].clock(),
            ),
    {
        self.lemma_list_wf(client);
        lemma_list_pivot(self.list_of(client), client, i, k);
    }

    /// What a change to the list at position `ci`, and to no other, does to
    /// the list of each client.
    pub proof fn lemma_changed_list(old: BlockStore, new: BlockStore, ci: int)
        requires
            old.wf(),
            0 <= ci < old.clients.len(),
            new.clients.len() == old.clients.len(),
            new.clients[ci].client == old.clients[ci].client,
            forall|j: int|
                0 <= j < old.clients.len() && j != ci ==> #[trigger] new.clients[j]
                    == old.clients[j],
        ensures
            forall|c: u64, j: int| #[trigger] new.has(c, j) == old.has(c, j),
            forall|c: u64| #[trigger] new.spec_contains_client(c) == old.spec_contains_client(c),
            forall|c: u64| #[trigger]
                new.list_of(c) == (if c == old.clients[ci].client {
                    new.clients[ci].list@
                } else {
                    old.list_of(c)
                }),
    {
        assert forall|c: u64, j: int| #[trigger] new.has(c, j) == old.has(c, j) by {
            if 0 <= j < old.clients.len() && j != ci {
                assert(new.clients[j] == old.clients[j]);
            }
        }
        assert forall|c: u64| #[trigger]
            new.spec_contains_client(c) == old.spec_contains_client(c) by {
            if old.spec_contains_client(c) {
                let j = choose|j: int| old.has(c, j);
                assert(new.has(c, j));
            }
            if new.spec_contains_client(c) {
                let j = choose|j: int| new.has(c, j);
                assert(old.has(c, j));
            }
        }
        assert forall|c: u64| #[trigger]
            new.list_of(c) == (if c == old.clients[ci].client {
                new.clients[ci].list@
            } else {
                old.list_of(c)
            }) by {
            assert(new.spec_contains_client(c) == old.spec_contains_client(c));
            assert(old.has(old.clients[ci].client, ci));
            if old.spec_contains_client(c) {
                let j = choose|j: int| old.has(c, j);
                let j2 = choose|j: int| new.has(c, j);
                assert(new.has(c, j));
                assert(new.has(c, j2));
                assert(old.has(c, j2));
                assert(old.has(c, j));
                assert(j == j2);
                if c == old.clients[ci].client {
                    assert(old.has(c, ci));
                } else {
                    assert(new.clients[j] == old.clients[j]);
                }
            }
        }
    }

    /// Exchanging a block for one of the same extent gives `replaced`.
    pub proof fn lemma_replace(old: BlockStore, new: BlockStore, ci: int, i: int)
        requires
            old.wf(),
            0 <= ci < old.clients.len(),
            0 <= i < old.clients[ci].list@.len(),
            new.clients.len() == old.clients.len(),
            new.clients[ci].client == old.clients[ci].client,
            forall|j: int|
                0 <= j < old.clients.len() && j != ci ==> #[trigger] new.clients[j]
                    == old.clients[j],
            0 <= i < new.clients[ci].list@.len(),
            new.clients[ci].list@ == old.clients[ci].list@.update(i, new.clients[ci].list@[i]),
            new.clients[ci].list@[i].wf(),
            new.clients[ci].list@[i].spec_id() == old.clients[ci].list@[i].spec_id(),
            new.clients[ci].list@[i].spec_len() == old.clients[ci].list@[i].spec_len(),
        ensures
            replaced(old, new, old.clients[ci].client, i, new.clients[ci].list@[i]),
    {
        let client = old.clients[ci].client;
        let b = new.clients[ci].list@[i];
        let list = old.clients[ci].list@;
        Self::lemma_changed_list(old, new, ci);
        assert(old.has(client, ci));
        old.lemma_list_of(client, ci);
        lemma_list_replace(list, client, i, b);
        assert(new.wf()) by {
            assert forall|j: int| 0 <= j < new.clients.len() implies (
            #[trigger] new.clients[j]).wf() by {
                if j != ci {
                    assert(new.clients[j] == old.clients[j]);
                    assert(old.clients[j].wf());
                }
            }
        }
        assert forall|c: u64| #[trigger] new.state(c) == old.state(c) by {}
        assert forall|id: ID| #[trigger]
            new.block_at(id) == (if id == b.spec_id() {
                Some(b)
            } else {
                old.block_at(id)
            }) by {
            if id.client == client {
                assert(list_block_at(list.update(i, b), id.clock as int) == (if id.clock as int
                    == b.clock() {
                    Some(b)
                } else {
                    list_block_at(list, id.clock as int)
                }));
            }
        }
        assert forall|c: u64, k: int| 0 <= k < old.state(c) implies #[trigger] new.units(c)[k] == (
        if c == client && b.clock() <= k < b.spec_clock_end() {
            b.unit(k - b.clock())
        } else {
            old.units(c)[k]
        }) by {
            if c == client {
                assert(list_unit(list.update(i, b), k) == (if list_holds(list, i, k) {
                    b.unit(k - b.clock())
                } else {
                    list_unit(list, k)
                }));
            }
        }
    }

    /// A block exchanged for one with the same units leaves every unit of the
    /// store as it was.
    pub proof fn lemma_replaced_same_units(
        old: BlockStore,
        new: BlockStore,
        client: u64,
        i: int,
        b: Block,
    )
        requires
            old.wf(),
            replaced(old, new, client, i, b),
            forall|j: int| 0 <= j < b.spec_len() ==> b.unit(j) == old.list_of(client)[i].unit(j),
        ensures
            forall|c: u64| #[trigger] new.units(c) == old.units(c),
            new@ == old@,
            forall|id: ID| #[trigger] new.is_start(id) == old.is_start(id),
    {
        old.lemma_block_index(client, i);
        assert forall|c: u64| #[trigger] new.units(c) == old.units(c) by {
            assert(new.state(c) == old.state(c));
            assert forall|k: int| 0 <= k < old.state(c) implies new.units(c)[k] == old.units(
                c,
            )[k] by {
                if c == client && b.clock() <= k < b.spec_clock_end() {
                    old.lemma_unit(client, i, k);
                }
            }
            assert(new.units(c) =~= old.units(c));
        }
        assert(new@ =~= old@);
        assert forall|id: ID| #[trigger] new.is_start(id) == old.is_start(id) by {}
    }

    /// A block exchanged for one with the same neighbours leaves the links
    /// sound.
    pub proof fn lemma_replaced_links(
        old: BlockStore,
        new: BlockStore,
        client: u64,
        i: int,
        b: Block,
    )
        requires
            old.wf(),
            old.links_wf(),
            replaced(old, new, client, i, b),
            match (old.list_of(client)[i], b) {
                (Block::Item(x), Block::Item(y)) => y.left == x.left && y.right == x.right
                    && same_place(x, y),
                (Block::GC(_), Block::GC(_)) => true,
                _ => false,
            },
        ensures
            new.links_wf(),
            forall|id: ID| #[trigger]
                new.item_at(id) == (if id == b.spec_id() {
                    match b {
                        Block::Item(y) => Some(y),
                        Block::GC(_) => None,
                    }
                } else {
                    old.item_at(id)
                }),
            forall|id: ID| #[trigger] new.is_start(id) == old.is_start(id),
            forall|h: ID|
                (old.item_at(h) matches Some(x) && x.left is None) ==> (#[trigger] new.item_at(
                    h,
                ) matches Some(x2) && x2.left is None),
            forall|h: ID|
                old.item_at(h) is Some ==> (#[trigger] new.item_at(h) matches Some(x2)
                    && same_place(old.item_at(h)->0, x2)),
    {
        old.lemma_block_index(client, i);
        assert forall|id: ID| #[trigger]
            new.item_at(id) == (if id == b.spec_id() {
                match b {
                    Block::Item(y) => Some(y),
                    Block::GC(_) => None,
                }
            } else {
                old.item_at(id)
            }) by {
            let _ = new.block_at(id);
        }
        assert forall|id: ID| #[trigger] new.is_start(id) == old.is_start(id) by {
            let _ = new.block_at(id);
        }
        assert forall|id: ID|
            match #[trigger] new.item_at(id) {
                Some(x) => new.link_ok(x),
                None => true,
            } by {
            if new.item_at(id) is Some {
                let x = new.item_at(id)->0;
                assert(old.item_at(id) is Some);
                let x0 = old.item_at(id)->0;
                let _ = old.lemma_block_at(id);
                assert(old.link_ok(x0));
                if x.right is Some {
                    let t = x.right->0;
                    let _ = new.item_at(t);
                    let _ = old.lemma_block_at(t);
                }
                if x.left is Some {
                    let t = x.left->0;
                    let _ = new.item_at(t);
                    let _ = old.lemma_block_at(t);
                }
                assert(new.link_ok(x));
            }
        }
        assert forall|h: ID| (old.item_at(h) matches Some(x) && x.left is None) implies (
        #[trigger] new.item_at(h) matches Some(x2) && x2.left is None) by {}
        assert forall|h: ID| old.item_at(h) is Some implies (#[trigger] new.item_at(
            h,
        ) matches Some(x2) && same_place(old.item_at(h)->0, x2)) by {}
    }

    /// Cutting an item and naming its right part to the right neighbour it
    /// took over keeps the links sound, and keeps an item that had no left
    /// neighbour without one.
    pub proof fn lemma_split_links(
        s0: BlockStore,
        s1: BlockStore,
        s2: BlockStore,
        client: u64,
        i: int,
        k: nat,
    )
        requires
            s0.wf(),
            s0.links_wf(),
            split_done(s0, s1, client, i, k),
            match s1.list_of(client)[i + 1] {
                Block::Item(y) => match y.right {
                    Some(r) => s1.block_at(r) is Some && replaced(
                        s1,
                        s2,
                        r.client,
                        s1.index_at(r),
                        s1.block_at(r)->0.with_left(Some(y.id)),
                    ),
                    None => s2 == s1,
                },
                Block::GC(_) => s2 == s1,
            },
        ensures
            s2.wf(),
            s2.links_wf(),
            s2@ == s0@,
            forall|c: u64| #[trigger] s2.units(c) == s0.units(c),
            forall|c: u64| #[trigger] s2.state(c) == s0.state(c),
            forall|c: u64| #[trigger] s2.spec_contains_client(c) == s0.spec_contains_client(c),
            forall|id: ID| #[trigger]
                s2.is_start(id) == (s0.is_start(id) || id == s1.list_of(client)[i + 1].spec_id()),
            forall|h: ID|
                (s0.item_at(h) matches Some(x) && x.left is None) ==> (#[trigger] s2.item_at(
                    h,
                ) matches Some(x2) && x2.left is None),
            forall|id: ID|
                (s0.item_at(id) matches Some(x) && x.content is Type) ==> (#[trigger] s2.item_at(
                    id,
                ) matches Some(x2) && x2.content is Type),
            s2.list_of(client).len() == s0.list_of(client).len() + 1,
            s2.list_of(client)[i + 1].spec_id() == s1.list_of(client)[i + 1].spec_id(),
            forall|h: ID|
                s0.item_at(h) is Some ==> (#[trigger] s2.item_at(h) matches Some(x2) && same_place(
                    s0.item_at(h)->0,
                    x2,
                )),
    {
        assert(s2.list_of(client).len() == s1.list_of(client).len() && s2.list_of(client)[i
            + 1].spec_id() == s1.list_of(client)[i + 1].spec_id()) by {
            match s1.list_of(client)[i + 1] {
                Block::Item(y) => match y.right {
                    Some(r) => {
                        let _ = s1.lemma_block_at(r);
                        if r.client == client {
                            assert(s2.list_of(client) == s1.list_of(client).update(
                                s1.index_at(r),
                                s1.block_at(r)->0.with_left(Some(y.id)),
                            ));
                        } else {
                            assert(s2.list_of(client) == s1.list_of(client));
                        }
                    },
                    None => {},
                },
                Block::GC(_) => {},
            }
        }
        let b = s0.list_of(client)[i];
        let b1 = s1.list_of(client)[i];
        let b2 = s1.list_of(client)[i + 1];
        s0.lemma_block_index(client, i);
        s1.lemma_block_index(client, i);
        s1.lemma_block_index(client, i + 1);
        assert(s0.block_at(b.spec_id()) == Some(b));
        assert(s0.block_at(b2.spec_id()) is None);
        assert(b1.spec_id() != b2.spec_id());
        match b {
            Block::Item(x0) => {
                let x1 = b1->Item_0;
                let y = b2->Item_0;
                assert(s0.item_at(x0.id) == Some(x0));
                assert(s0.link_ok(x0));
                match y.right {
                    Some(r) => {
                        let j = s1.index_at(r);
                        let rb = s1.block_at(r)->0;
                        let rb2 = rb.with_left(Some(y.id));
                        let jj = s1.lemma_block_at(r);
                        Self::lemma_replaced_same_units(s1, s2, r.client, j, rb2);
                        assert forall|id: ID| #[trigger]
                            s2.item_at(id) == Self::split_item_at(s0, x1, y, id) by {
                            let _ = s1.block_at(id);
                            let _ = s2.block_at(id);
                        }
                    },
                    None => {
                        assert forall|id: ID| #[trigger]
                            s2.item_at(id) == Self::split_item_at(s0, x1, y, id) by {
                            let _ = s1.block_at(id);
                        }
                    },
                }
                Self::lemma_links_after_split(s0, s2, x0, x1, y);
            },
            Block::GC(_) => {
                assert forall|id: ID| #[trigger] s2.item_at(id) == s0.item_at(id) by {
                    let _ = s1.block_at(id);
                }
                assert forall|id: ID|
                    match #[trigger] s2.item_at(id) {
                        Some(x) => s2.link_ok(x),
                        None => true,
                    } by {
                    if s2.item_at(id) is Some {
                        let x = s2.item_at(id)->0;
                        assert(s0.item_at(id) == Some(x));
                        assert(s0.link_ok(x));
                        if x.right is Some {
                            assert(s2.item_at(x.right->0) == s0.item_at(x.right->0));
                        }
                        if x.left is Some {
                            assert(s2.item_at(x.left->0) == s0.item_at(x.left->0));
                        }
                    }
                }
            },
        }
        assert(s2@ =~= s0@);
        assert forall|id: ID| #[trigger]
            s2.is_start(id) == (s0.is_start(id) || id == b2.spec_id()) by {
            let _ = s1.block_at(id);
        }
        assert forall|h: ID| (s0.item_at(h) matches Some(x) && x.left is None) implies (
        #[trigger] s2.item_at(h) matches Some(x2) && x2.left is None) by {
            if b is Item {
                assert(s0.item_at(b.spec_id()) == Some(b->Item_0));
                assert(s0.link_ok(b->Item_0));
                assert(s2.item_at(h) == Self::split_item_at(s0, b1->Item_0, b2->Item_0, h));
            }
        }
        assert forall|h: ID| s0.item_at(h) is Some implies (#[trigger] s2.item_at(
            h,
        ) matches Some(x2) && same_place(s0.item_at(h)->0, x2)) by {
            if b is Item {
                assert(s2.item_at(h) == Self::split_item_at(s0, b1->Item_0, b2->Item_0, h));
                assert(b.unit(0) == b1.unit(0));
            } else {
                let _ = s1.block_at(h);
            }
        }
        assert forall|id: ID| (s0.item_at(id) matches Some(x) && x.content is Type) implies (
        #[trigger] s2.item_at(id) matches Some(x2) && x2.content is Type) by {
            if b is Item {
                assert(s2.item_at(id) == Self::split_item_at(s0, b1->Item_0, b2->Item_0, id));
                assert(b.unit(0) == b1.unit(0));
            }
        }
    }

    /// Where each item stands once `x1` and `y`, the two parts of a cut
    /// item, are in place and the right neighbour of `y` names `y`.
    pub open spec fn split_item_at(s0: BlockStore, x1: Item, y: Item, id: ID) -> Option<Item> {
        let base = if id == x1.id {
            Some(x1)
        } else if id == y.id {
            Some(y)
        } else {
            s0.item_at(id)
        };
        if y.right == Some(id) {
            match base {
                Some(z) => Some(Item { left: Some(y.id), ..z }),
                None => None,
            }
        } else {
            base
        }
    }

    /// The links stay sound where an item is cut in two and its right
    /// neighbour names the right part.
    pub proof fn lemma_links_after_split(s0: BlockStore, s2: BlockStore, x0: Item, x1: Item, y: Item)
        requires
            s0.wf(),
            s0.links_wf(),
            s0.item_at(x0.id) == Some(x0),
            s0.item_at(y.id) is None,
            x1.id == x0.id,
            x1.left == x0.left,
            x1.right == Some(y.id),
            y.left == Some(x0.id),
            y.right == x0.right,
            y.id != x0.id,
            forall|id: ID| #[trigger] s2.item_at(id) == Self::split_item_at(s0, x1, y, id),
        ensures
            s2.links_wf(),
    {
        assert(s0.link_ok(x0));
        assert forall|id: ID|
            match #[trigger] s2.item_at(id) {
                Some(x) => s2.link_ok(x),
                None => true,
            } by {
            if s2.item_at(id) is Some {
                let x = s2.item_at(id)->0;
                assert(s2.item_at(id) == Self::split_item_at(s0, x1, y, id));
                if x.right is Some {
                    let t = x.right->0;
                    assert(s2.item_at(t) == Self::split_item_at(s0, x1, y, t));
                    if s0.item_at(t) is Some {
                        let _ = s0.lemma_block_at(t);
                        assert(s0.link_ok(s0.item_at(t)->0));
                    }
                }
                if x.left is Some {
                    let t = x.left->0;
                    assert(s2.item_at(t) == Self::split_item_at(s0, x1, y, t));
                    if s0.item_at(t) is Some {
                        let _ = s0.lemma_block_at(t);
                        assert(s0.link_ok(s0.item_at(t)->0));
                    }
                }
                if s0.item_at(id) is Some {
                    let _ = s0.lemma_block_at(id);
                    assert(s0.link_ok(s0.item_at(id)->0));
                }
                if x0.right is Some {
                    let r = x0.right->0;
                    let _ = s0.lemma_block_at(r);
                    assert(s2.item_at(r) == Self::split_item_at(s0, x1, y, r));
                    assert(s0.link_ok(s0.item_at(r)->0));
                }
                if x0.left is Some {
                    let l = x0.left->0;
                    let _ = s0.lemma_block_at(l);
                    assert(s2.item_at(l) == Self::split_item_at(s0, x1, y, l));
                    assert(s0.link_ok(s0.item_at(l)->0));
                }
                assert(x.id == id);
                assert(s2.link_ok(x));
            }
        }
    }

    /// Cuts block `i` of the list at position `ci` after its first `k` units.
    /// Returns where the new right part starts, and the right neighbour it
    /// took over, whose left link still names the left part.
    pub fn split_block(&mut self, ci: usize, i: usize, k: u32) -> (r: (ID, Option<ID>))
        requires
            old(self).wf(),
            ci < old(self).clients.len(),
            i < old(self).clients[ci as int].list@.len(),
            0 < k < old(self).clients[ci as int].list@[i as int].spec_len(),
        ensures
            split_done(*old(self), *final(self), old(self).clients[ci as int].client, i as int, k as nat),
            final(self).clients.len() == old(self).clients.len(),
            final(self).has(old(self).clients[ci as int].client, ci as int),
            r.0 == final(self).list_of(old(self).clients[ci as int].client)[i + 1].spec_id(),
            r.1 == (match final(self).list_of(old(self).clients[ci as int].client)[i + 1] {
                Block::Item(y) => y.right,
                Block::GC(_) => None,
            }),
    {
        let ghost client = self.clients[ci as int].client;
        let ghost list = self.clients[ci as int].list@;
        let right = self.clients[ci].list[i].split(k);
        let id = right.id();
        let next = match &right {
            Block::Item(y) => y.right,
            Block::GC(_) => None,
        };
        let ghost b1 = self.clients[ci as int].list@[i as int];
        let ghost b2 = right;
        assert(self.clients[ci as int].list@ == list.update(i as int, b1));
        assert(i < self.clients[ci as int].list.len());
        self.clients[ci].list.insert(i + 1, right);
        proof {
            let new = *self;
            let old = *old(self);
            Self::lemma_changed_list(old, new, ci as int);
            assert(old.has(client, ci as int));
            old.lemma_list_of(client, ci as int);
            lemma_list_split(list, client, i as int, b1, b2);
            assert(new.clients[ci as int].list@ == list.update(i as int, b1).insert(i + 1, b2));
            assert(new.wf()) by {
                assert forall|j: int| 0 <= j < new.clients.len() implies (
                #[trigger] new.clients[j]).wf() by {
                    if j != ci {
                        assert(new.clients[j] == old.clients[j]);
                        assert(old.clients[j].wf());
                    }
                }
            }
            assert forall|c: u64| #[trigger] new.state(c) == old.state(c) by {}
            assert forall|c: u64| #[trigger] new.units(c) == old.units(c) by {}
            assert(old.block_at(b2.spec_id()) is None) by {
                if old.block_at(b2.spec_id()) is Some {
                    let j = old.lemma_block_at(b2.spec_id());
                    lemma_list_pivot(list, client, j, b2.clock() as int);
                    lemma_list_pivot(list, client, i as int, b2.clock() as int);
                }
            }
            assert forall|id: ID| #[trigger]
                new.block_at(id) == (if id == b1.spec_id() {
                    Some(b1)
                } else if id == b2.spec_id() {
                    Some(b2)
                } else {
                    old.block_at(id)
                }) by {
                if id.client == client {
                    assert(list_block_at(
                        list.update(i as int, b1).insert(i + 1, b2),
                        id.clock as int,
                    ) == (if id.clock as int == b1.clock() {
                        Some(b1)
                    } else if id.clock as int == b2.clock() {
                        Some(b2)
                    } else {
                        list_block_at(list, id.clock as int)
                    }));
                }
            }
        }
        (id, next)
    }

    /// Names `left` as the left neighbour of block `i` of the list at
    /// position `ci`, where that block is an item.
    pub fn set_left(&mut self, ci: usize, i: usize, left: Option<ID>)
        requires
            old(self).wf(),
            ci < old(self).clients.len(),
            i < old(self).clients[ci as int].list@.len(),
        ensures
            replaced(
                *old(self),
                *final(self),
                old(self).clients[ci as int].client,
                i as int,
                match old(self).clients[ci as int].list@[i as int] {
                    Block::Item(x) => Block::Item(Item { left, ..x }),
                    Block::GC(g) => Block::GC(g),
                },
            ),
            final(self).clients.len() == old(self).clients.len(),
            final(self).has(old(self).clients[ci as int].client, ci as int),
    {
        match &mut self.clients[ci].list[i] {
            Block::Item(item) => {
                item.left = left;
            },
            Block::GC(_) => {},
        }
        proof {
            Self::lemma_replace(*old(self), *self, ci as int, i as int);
        }
    }

    /// Names `right` as the right neighbour of block `i` of the list at
    /// position `ci`, where that block is an item.
    pub fn set_right(&mut self, ci: usize, i: usize, right: Option<ID>)
        requires
            old(self).wf(),
            ci < old(self).clients.len(),
            i < old(self).clients[ci as int].list@.len(),
        ensures
            replaced(
                *old(self),
                *final(self),
                old(self).clients[ci as int].client,
                i as int,
                match old(self).clients[ci as int].list@[i as int] {
                    Block::Item(x) => Block::Item(Item { right, ..x }),
                    Block::GC(g) => Block::GC(g),
                },
            ),
            final(self).clients.len() == old(self).clients.len(),
            final(self).has(old(self).clients[ci as int].client, ci as int),
    {
        match &mut self.clients[ci].list[i] {
            Block::Item(item) => {
                item.right = right;
            },
            Block::GC(_) => {},
        }
        proof {
            Self::lemma_replace(*old(self), *self, ci as int, i as int);
        }
    }

    /// Tombstones block `i` of the list at position `ci`.
    pub fn mark_deleted(&mut self, ci: usize, i: usize)
        requires
            old(self).wf(),
            ci < old(self).clients.len(),
            i < old(self).clients[ci as int].list@.len(),
        ensures
            replaced(
                *old(self),
                *final(self),
                old(self).clients[ci as int].client,
                i as int,
                match old(self).clients[ci as int].list@[i as int] {
                    Block::Item(x) => Block::Item(Item { deleted: true, ..x }),
                    Block::GC(g) => Block::GC(g),
                },
            ),
            final(self).clients.len() == old(self).clients.len(),
            final(self).has(old(self).clients[ci as int].client, ci as int),
    {
        match &mut self.clients[ci].list[i] {
            Block::Item(item) => {
                item.deleted = true;
            },
            Block::GC(_) => {},
        }
        proof {
            Self::lemma_replace(*old(self), *self, ci as int, i as int);
        }
    }

    /// Puts `block` behind the blocks of its client.
    pub fn push_block(&mut self, block: Block)
        requires
            old(self).wf(),
            block.wf(),
            block.clock() == old(self).state(block.spec_id().client),
        ensures
            pushed(*old(self), *final(self), block),
    {
        let client = block.id().client;
        let ghost b = block;
        match self.find_client(client) {
            Some(ci) => {
                let ghost list = self.clients[ci as int].list@;
                self.clients[ci].list.push(block);
                proof {
                    let new = *self;
                    let old = *old(self);
                    Self::lemma_changed_list(old, new, ci as int);
                    old.lemma_list_of(client, ci as int);
                    lemma_list_push(list, client, b);
                    assert(new.wf()) by {
                        assert forall|j: int| 0 <= j < new.clients.len() implies (
                        #[trigger] new.clients[j]).wf() by {
                            if j != ci {
                                assert(new.clients[j] == old.clients[j]);
                                assert(old.clients[j].wf());
                            }
                        }
                    }
                    Self::lemma_pushed(old, new, b);
                }
            },
            None => {
                let mut l = ClientBlockList::new(client);
                l.list.push(block);
                self.clients.push(l);
                proof {
                    let new = *self;
                    let old = *old(self);
                    let n = old.clients.len() as int;
                    lemma_list_push(Seq::<Block>::empty(), client, b);
                    assert(new.clients[n].list@ == Seq::<Block>::empty().push(b));
                    assert forall|c: u64, j: int| #[trigger]
                        new.has(c, j) == (old.has(c, j) || (c == client && j == n)) by {
                        if 0 <= j < n {
                            assert(new.clients[j] == old.clients[j]);
                        }
                    }
                    assert(new.has(client, n));
                    assert forall|c: u64| #[trigger]
                        new.spec_contains_client(c) == (old.spec_contains_client(c) || c
                            == client) by {
                        if old.spec_contains_client(c) {
                            let j = choose|j: int| old.has(c, j);
                            assert(new.has(c, j));
                        }
                    }
                    assert forall|c: u64| #[trigger]
                        new.list_of(c) == (if c == client {
                            Seq::<Block>::empty().push(b)
                        } else {
                            old.list_of(c)
                        }) by {
                        if new.spec_contains_client(c) {
                            let j2 = choose|j: int| new.has(c, j);
                            assert(new.has(c, j2));
                            if c != client {
                                let j = choose|j: int| old.has(c, j);
                                assert(old.has(c, j2));
                                assert(new.clients[j2] == old.clients[j2]);
                            }
                        }
                    }
                    assert(new.wf()) by {
                        assert forall|j: int| 0 <= j < new.clients.len() implies (
                        #[trigger] new.clients[j]).wf() by {
                            if j != n {
                                assert(new.clients[j] == old.clients[j]);
                                assert(old.clients[j].wf());
                            }
                        }
                    }
                    assert(old.list_of(client) == Seq::<Block>::empty());
                    Self::lemma_pushed(old, new, b);
                }
            },
        }
    }

    /// Putting a block behind its client's list gives `pushed`.
    proof fn lemma_pushed(old: BlockStore, new: BlockStore, b: Block)
        requires
            old.wf(),
            new.wf(),
            b.wf(),
            b.clock() == old.state(b.spec_id().client),
            forall|c: u64| #[trigger]
                new.spec_contains_client(c) == (old.spec_contains_client(c) || c
                    == b.spec_id().client),
            forall|c: u64| #[trigger]
                new.list_of(c) == (if c == b.spec_id().client {
                    old.list_of(c).push(b)
                } else {
                    old.list_of(c)
                }),
        ensures
            pushed(old, new, b),
    {
        let client = b.spec_id().client;
        let list = old.list_of(client);
        old.lemma_list_wf(client);
        lemma_list_push(list, client, b);
        assert(new.list_of(client) == list.push(b));
        assert forall|c: u64| #[trigger]
            new.state(c) == (if c == client {
                b.spec_clock_end()
            } else {
                old.state(c)
            }) by {
            assert(new.list_of(c) == (if c == client {
                old.list_of(c).push(b)
            } else {
                old.list_of(c)
            }));
        }
        assert forall|id: ID| #[trigger]
            new.block_at(id) == (if id == b.spec_id() {
                Some(b)
            } else {
                old.block_at(id)
            }) by {
            assert(new.list_of(id.client) == (if id.client == client {
                old.list_of(id.client).push(b)
            } else {
                old.list_of(id.client)
            }));
            if id.client == client {
                assert(list_block_at(list.push(b), id.clock as int) == (if id.clock as int
                    == b.clock() {
                    Some(b)
                } else {
                    list_block_at(list, id.clock as int)
                }));
            }
        }
        assert forall|c: u64, k: int| 0 <= k < new.state(c) implies #[trigger] new.units(c)[k] == (
        if c == client && k >= b.clock() {
            b.unit(k - b.clock())
        } else {
            old.units(c)[k]
        }) by {
            assert(new.list_of(c) == (if c == client {
                old.list_of(c).push(b)
            } else {
                old.list_of(c)
            }));
            if c == client {
                assert(list_unit(list.push(b), k) == (if k < list_state(list) {
                    list_unit(list, k)
                } else {
                    b.unit(k - b.clock())
                }));
            }
        }
    }

    /// A store without blocks.
    pub fn new() -> (r: BlockStore)
        ensures
            r.wf(),
            r.links_wf(),
            r@ == Map::<u64, Seq<Unit>>::empty(),
            forall|c: u64| !r.spec_contains_client(c),
    {
        let r = BlockStore { clients: Vec::new() };
        assert(r@ =~= Map::<u64, Seq<Unit>>::empty());
        r
    }

    /// Position of the list of `client`.
    pub fn find_client(&self, client: u64) -> (r: Option<usize>)
        ensures
            match r {
                Some(i) => self.has(client, i as int),
                None => !self.spec_contains_client(client),
            },
    {
        let mut i: usize = 0;
        while i < self.clients.len()
            invariant
                i <= self.clients.len(),
                forall|j: int| 0 <= j < i ==> !self.has(client, j),
            decreases self.clients.len() - i,
        {
            if self.clients[i].client == client {
                return Some(i);
            }
            i += 1;
        }
        None
    }

    /// Whether the store has a list for `client`.
    pub fn contains_client(&self, client: &u64) -> (r: bool)
        ensures
            r == self.spec_contains_client(*client),
    {
        self.find_client(*client).is_some()
    }

    /// The blocks of `client`.
    pub fn get(&self, client: &u64) -> (r: Option<&ClientBlockList>)
        requires
            self.wf(),
        ensures
            r is Some <==> self.spec_contains_client(*client),
            r matches Some(l) ==> l.client == *client && l.list@ == self.list_of(*client) && l.wf(),
    {
        match self.find_client(*client) {
            Some(i) => {
                proof {
                    self.lemma_list_of(*client, i as int);
                }
                Some(&self.clients[i])
            },
            None => None,
        }
    }

    /// First clock of `client` that is not known yet; 0 for a client that is
    /// not known.
    pub fn get_state(&self, client: &u64) -> (state: u32)
        requires
            self.wf(),
        ensures
            state == self.state(*client),
    {
        match self.get(client) {
            Some(l) => l.get_state(),
            None => 0,
        }
    }

    /// The state of every known client.
    pub fn get_state_vector(&self) -> (sv: StateVector)
        requires
            self.wf(),
        ensures
            sv.wf(),
            forall|c: u64| sv@.contains_key(c) == self.spec_contains_client(c),
            forall|c: u64| #[trigger] sv.spec_get(c) == self.state(c),
    {
        let mut sv = StateVector::new();
        let mut i: usize = 0;
        while i < self.clients.len()
            invariant
                self.wf(),
                sv.wf(),
                i <= self.clients.len(),
                forall|c: u64|
                    sv@.contains_key(c) == (exists|j: int| 0 <= j < i && #[trigger] self.has(c, j)),
                forall|c: u64| sv@.contains_key(c) ==> sv@[c] == self.state(c),
            decreases self.clients.len() - i,
        {
            let client = self.clients[i].client;
            let state = self.clients[i].get_state();
            let ghost before = sv;
            proof {
                assert(self.has(client, i as int));
                self.lemma_list_of(client, i as int);
            }
            sv.set(client, state);
            i += 1;
            proof {
                assert forall|c: u64|
                    sv@.contains_key(c) == (exists|j: int| 0 <= j < i && #[trigger] self.has(c, j)) by {
                    if before@.contains_key(c) {
                        let j = choose|j: int| 0 <= j < i - 1 && #[trigger] self.has(c, j);
                        assert(self.has(c, j));
                    }
                    if exists|j: int| 0 <= j < i && #[trigger] self.has(c, j) {
                        let j = choose|j: int| 0 <= j < i && #[trigger] self.has(c, j);
                        if j < i - 1 {
                            assert(self.has(c, j));
                        }
                    }
                }
            }
        }
        proof {
            assert forall|c: u64| sv@.contains_key(c) == self.spec_contains_client(c) by {
                if self.spec_contains_client(c) {
                    let j = choose|j: int| self.has(c, j);
                    assert(self.has(c, j));
                }
            }
            assert forall|c: u64| #[trigger] sv.spec_get(c) == self.state(c) by {}
        }
        sv
    }

    /// Where the block that holds `id` stands: the position of its client's
    /// list and the block's index in it. None where `id` is not known yet.
    pub fn locate(&self, id: &ID) -> (r: Option<(usize, usize)>)
        requires
            self.wf(),
        ensures
            r is Some <==> id.clock < self.state(id.client),
            r matches Some((ci, i)) ==> self.has(id.client, ci as int) && list_holds(
                self.list_of(id.client),
                i as int,
                id.clock as int,
            ),
    {
        match self.find_client(id.client) {
            Some(ci) => {
                proof {
                    self.lemma_list_of(id.client, ci as int);
                }
                match self.clients[ci].find_pivot(id.clock) {
                    Some(i) => Some((ci, i)),
                    None => None,
                }
            },
            None => None,
        }
    }

    /// The block that holds `id`.
    pub fn get_block(&self, id: &ID) -> (r: Option<&Block>)
        requires
            self.wf(),
        ensures
            r is Some <==> id.clock < self.state(id.client),
            r matches Some(b) ==> exists|i: int|
                list_holds(self.list_of(id.client), i, id.clock as int) && self.list_of(
                    id.client,
                )[i] == *b,
    {
        match self.locate(id) {
            Some((ci, i)) => {
                proof {
                    self.lemma_list_of(id.client, ci as int);
                }
                Some(&self.clients[ci].list[i])
            },
            None => None,
        }
    }

    /// The item that starts at `id`.
    pub fn get_item(&self, id: &ID) -> (r: Option<&Item>)
        requires
            self.wf(),
        ensures
            r is Some <==> self.item_at(*id) is Some,
            r matches Some(x) ==> self.item_at(*id) == Some(*x),
    {
        match self.locate(id) {
            Some((ci, i)) => {
                proof {
                    self.lemma_list_of(id.client, ci as int);
                    self.lemma_block_index(id.client, i as int);
                    if self.block_at(*id) is Some {
                        let j = self.lemma_block_at(*id);
                        lemma_list_pivot(self.list_of(id.client), id.client, j, id.clock as int);
                        lemma_list_pivot(self.list_of(id.client), id.client, i as int, id.clock as int);
                    }
                }
                let b = &self.clients[ci].list[i];
                if b.id().clock == id.clock {
                    b.as_item()
                } else {
                    None
                }
            },
            None => {
                proof {
                    if self.block_at(*id) is Some {
                        let j = self.lemma_block_at(*id);
                    }
                }
                None
            },
        }
    }
}

} // verus!
