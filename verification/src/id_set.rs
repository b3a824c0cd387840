//! Sets of unit identifiers, kept as clock ranges per client.

use crate::block::ID;
use std::ops::Range;
use vstd::prelude::*;

verus! {

/// Some range of the list holds clock `k`.
pub open spec fn ranges_contain(rs: Seq<Range<u32>>, k: int) -> bool {
    exists|i: int| range_holds(rs, i, k)
}

/// Range `i` of the list holds clock `k`.
pub open spec fn range_holds(rs: Seq<Range<u32>>, i: int, k: int) -> bool {
    0 <= i < rs.len() && rs[i].start <= k < rs[i].end
}

/// No range is empty, and each ends before the next begins: no two overlap
/// or adjoin.
pub open spec fn ranges_wf(rs: Seq<Range<u32>>) -> bool {
    &&& forall|i: int| 0 <= i < rs.len() ==> (#[trigger] rs[i]).start < rs[i].end
    &&& forall|i: int, j: int|
        0 <= i < j < rs.len() ==> (#[trigger] rs[i]).end < (#[trigger] rs[j]).start
}

/// One of the first `i` ranges of the list holds clock `k`.
pub open spec fn ranges_upto(rs: Seq<Range<u32>>, i: int, k: int) -> bool {
    exists|j: int| 0 <= j < i && #[trigger] range_holds(rs, j, k)
}

/// Clock `k` is held by the ranges, or by the range from `s` to `e` that is
/// still to be placed.
pub open spec fn ranges_cover(rs: Seq<Range<u32>>, placed: bool, s: int, e: int, k: int) -> bool {
    ranges_contain(rs, k) || (!placed && s <= k < e)
}

/// Ranges of which each ends before the next begins, each ends before
/// every later one begins.
pub proof fn lemma_ranges_rising(rs: Seq<Range<u32>>, i: int, j: int)
    requires
        0 <= i < j < rs.len(),
        forall|k: int| 0 <= k < rs.len() ==> (#[trigger] rs[k]).start < rs[k].end,
        forall|a: int, b: int|
            0 <= a && b == a + 1 && b < rs.len() ==> (#[trigger] rs[a]).end < (
            #[trigger] rs[b]).start,
    ensures
        rs[i].end < rs[j].start,
    decreases j - i,
{
    if j > i + 1 {
        lemma_ranges_rising(rs, i, j - 1);
        assert(rs[j - 1].end < rs[j].start);
    }
}

/// The units of `client` with clocks from `start` up to, not including, `end`.
pub open spec fn id_range(client: u64, start: int, end: int) -> Set<ID> {
    Set::new(|id: ID| id.client == client && start <= id.clock < end)
}

/// Adds the clocks from `start` up to `end` to the ranges, merging the
/// ranges that the new one overlaps or adjoins.
pub fn insert_range(ranges: &mut Vec<Range<u32>>, start: u32, end: u32)
    requires
        ranges_wf(old(ranges)@),
        start < end,
    ensures
        ranges_wf(final(ranges)@),
        final(ranges)@.len() > 0,
        forall|k: int|
            ranges_contain(final(ranges)@, k) == (ranges_contain(old(ranges)@, k) || start <= k
                < end),
{
    let ghost src = ranges@;
    let mut out: Vec<Range<u32>> = Vec::new();
    let mut s: u32 = start;
    let mut e: u32 = end;
    let mut placed = false;
    let mut i: usize = 0;
    while i < ranges.len()
        invariant
            ranges@ == src,
            ranges_wf(src),
            i <= src.len(),
            s <= start,
            end <= e,
            s < e,
            ranges_wf(out@),
            forall|j: int, m: int|
                0 <= j < out.len() && i <= m < src.len() ==> (#[trigger] out[j]).end < (
                #[trigger] src[m]).start,
            !placed ==> forall|j: int| 0 <= j < out.len() ==> (#[trigger] out[j]).end < s,
            placed ==> forall|m: int| i <= m < src.len() ==> e < (#[trigger] src[m]).start,
            placed ==> out@.len() > 0,
            forall|k: int| #[trigger]
                ranges_cover(out@, placed, s as int, e as int, k) == (ranges_upto(src, i as int, k)
                    || start <= k < end),
        decreases src.len() - i,
    {
        let r_start = ranges[i].start;
        let r_end = ranges[i].end;
        let ghost out0 = out@;
        let ghost s0 = s;
        let ghost e0 = e;
        let ghost placed0 = placed;
        assert(src[i as int].start < src[i as int].end);
        if r_end < s {
            out.push(r_start..r_end);
            proof {
                assert(out@[out0.len() as int] == src[i as int]);
                assert forall|k: int| #[trigger]
                    ranges_cover(out@, placed, s as int, e as int, k) == (ranges_upto(
                        src,
                        i + 1,
                        k,
                    ) || start <= k < end) by {
                    assert(ranges_cover(out0, placed0, s0 as int, e0 as int, k) == (ranges_upto(
                        src,
                        i as int,
                        k,
                    ) || start <= k < end));
                    assert(out@ == out0.push(src[i as int]));
                    lemma_pushed_range(out0, src[i as int], k);
                    lemma_upto_step(src, i as int, k);
                }
            }
        } else if e < r_start {
            if !placed {
                out.push(s..e);
                placed = true;
            }
            let ghost out1 = out@;
            out.push(r_start..r_end);
            proof {
                assert forall|k: int| #[trigger]
                    ranges_cover(out@, placed, s as int, e as int, k) == (ranges_upto(
                        src,
                        i + 1,
                        k,
                    ) || start <= k < end) by {
                    assert(ranges_cover(out0, placed0, s0 as int, e0 as int, k) == (ranges_upto(
                        src,
                        i as int,
                        k,
                    ) || start <= k < end));
                    if !placed0 {
                        assert(out1 == out0.push(s..e));
                        lemma_pushed_range(out0, s..e, k);
                    }
                    assert(out@ == out1.push(src[i as int]));
                    lemma_pushed_range(out1, src[i as int], k);
                    lemma_upto_step(src, i as int, k);
                }
            }
        } else {
            if r_start < s {
                s = r_start;
            }
            if r_end > e {
                e = r_end;
            }
            proof {
                assert forall|k: int| #[trigger]
                    ranges_cover(out@, placed, s as int, e as int, k) == (ranges_upto(
                        src,
                        i + 1,
                        k,
                    ) || start <= k < end) by {
                    assert(ranges_cover(out0, placed0, s0 as int, e0 as int, k) == (ranges_upto(
                        src,
                        i as int,
                        k,
                    ) || start <= k < end));
                    lemma_upto_step(src, i as int, k);
                }
            }
        }
        i += 1;
    }
    if !placed {
        let ghost out0 = out@;
        out.push(s..e);
        proof {
            assert forall|k: int|
                ranges_contain(out@, k) == (ranges_upto(src, i as int, k) || start <= k < end) by {
                assert(ranges_cover(out0, false, s as int, e as int, k) == (ranges_upto(
                    src,
                    i as int,
                    k,
                ) || start <= k < end));
                assert(out@ == out0.push(s..e));
                lemma_pushed_range(out0, s..e, k);
            }
        }
    }
    proof {
        assert forall|k: int|
            ranges_contain(out@, k) == (ranges_contain(src, k) || start <= k < end) by {
            assert(ranges_cover(out@, true, s as int, e as int, k) == (ranges_upto(
                src,
                i as int,
                k,
            ) || start <= k < end)) by {
                if placed {
                } else {
                }
            }
            if ranges_contain(src, k) {
                let j = choose|j: int| range_holds(src, j, k);
                assert(0 <= j < i && range_holds(src, j, k));
            }
        }
    }
    *ranges = out;
}

/// A range list with one more range at its end holds what it held, and what
/// that range holds.
pub proof fn lemma_pushed_range(rs: Seq<Range<u32>>, r: Range<u32>, k: int)
    ensures
        ranges_contain(rs.push(r), k) == (ranges_contain(rs, k) || r.start <= k < r.end),
{
    let rs2 = rs.push(r);
    if ranges_contain(rs, k) {
        let j = choose|j: int| range_holds(rs, j, k);
        assert(range_holds(rs2, j, k));
    }
    if r.start <= k < r.end {
        assert(range_holds(rs2, rs.len() as int, k));
    }
    if ranges_contain(rs2, k) {
        let j = choose|j: int| range_holds(rs2, j, k);
        if j < rs.len() {
            assert(range_holds(rs, j, k));
        }
    }
}

/// What the first `i + 1` ranges hold is what the first `i` hold, and what
/// range `i` holds.
pub proof fn lemma_upto_step(rs: Seq<Range<u32>>, i: int, k: int)
    requires
        0 <= i < rs.len(),
    ensures
        ranges_upto(rs, i + 1, k) == (ranges_upto(rs, i, k) || rs[i].start <= k < rs[i].end),
{
    if exists|j: int| 0 <= j < i && #[trigger] range_holds(rs, j, k) {
        let j = choose|j: int| 0 <= j < i && #[trigger] range_holds(rs, j, k);
        assert(0 <= j < i + 1 && range_holds(rs, j, k));
    }
    if rs[i].start <= k < rs[i].end {
        assert(0 <= i < i + 1 && range_holds(rs, i, k));
    }
    if exists|j: int| 0 <= j < i + 1 && #[trigger] range_holds(rs, j, k) {
        let j = choose|j: int| 0 <= j < i + 1 && #[trigger] range_holds(rs, j, k);
        if j < i {
            assert(0 <= j < i && range_holds(rs, j, k));
        }
    }
}

/// The clock ranges of one client.
#[derive(Clone, Debug, PartialEq, Eq)]
pub struct ClientRanges {
    pub client: u64,
    pub ranges: Vec<Range<u32>>,
}

/// A set of unit identifiers: for each client, clock ranges in rising order
/// that neither overlap nor adjoin.
#[derive(Clone, Debug, PartialEq, Eq)]
pub struct IdSet {
    pub clients: Vec<ClientRanges>,
}

/// A set of deleted units.
pub type DeleteSet = IdSet;

impl View for IdSet {
    type V = Set<ID>;

    open spec fn view(&self) -> Set<ID> {
        Set::new(|id: ID| self.spec_contains(id))
    }
}

impl IdSet {
    /// Entry `i` is the one of `client`.
    pub open spec fn has(&self, client: u64, i: int) -> bool {
        0 <= i < self.clients.len() && self.clients[i].client == client
    }

    /// The set has an entry for `client`.
    pub open spec fn contains_client(&self, client: u64) -> bool {
        exists|i: int| self.has(client, i)
    }

    /// The ranges of `client`; none for a client without an entry.
    pub open spec fn ranges_of(&self, client: u64) -> Seq<Range<u32>> {
        if self.contains_client(client) {
            self.clients[choose|i: int| self.has(client, i)].ranges@
        } else {
            Seq::empty()
        }
    }

    /// The set holds `id`.
    pub open spec fn spec_contains(&self, id: ID) -> bool {
        ranges_contain(self.ranges_of(id.client), id.clock as int)
    }

    /// The clients of the entries, in the order of the entries.
    pub open spec fn keys(&self) -> Seq<u64> {
        Seq::new(self.clients@.len(), |i: int| self.clients@[i].client)
    }

    /// No client has two entries, and the ranges of each are in order.
    pub open spec fn in_order(&self) -> bool {
        &&& forall|c: u64, i: int, j: int| #[trigger]
            self.has(c, i) && #[trigger] self.has(c, j) ==> i == j
        &&& forall|i: int|
            0 <= i < self.clients.len() ==> ranges_wf((#[trigger] self.clients[i]).ranges@)
    }

    /// No client has two entries, every entry has a range, and the ranges of
    /// each are in order: a set is held in one way only, but for the order
    /// of its entries.
    pub open spec fn wf(&self) -> bool {
        &&& self.in_order()
        &&& forall|i: int|
            0 <= i < self.clients.len() ==> (#[trigger] self.clients[i]).ranges@.len() > 0
    }

    /// The ranges at a position of `client` are the ranges of `client`.
    pub proof fn lemma_ranges_of(&self, client: u64, ci: int)
        requires
            self.in_order(),
            self.has(client, ci),
        ensures
            self.ranges_of(client) == self.clients[ci].ranges@,
            ranges_wf(self.ranges_of(client)),
    {
        let j = choose|j: int| self.has(client, j);
        assert(self.has(client, j));
    }

    /// Whether the set is sound: no client has two entries, and the ranges
    /// of each are in rising order and neither overlap nor adjoin.
    pub fn is_valid(&self) -> (r: bool)
        ensures
            r == self.wf(),
    {
        let mut ci: usize = 0;
        while ci < self.clients.len()
            invariant
                ci <= self.clients.len(),
                forall|i: int|
                    0 <= i < ci ==> ranges_wf((#[trigger] self.clients[i]).ranges@)
                        && self.clients[i].ranges@.len() > 0,
                forall|i: int, j: int|
                    0 <= i < j < ci ==> (#[trigger] self.clients[i]).client != (
                    #[trigger] self.clients[j]).client,
            decreases self.clients.len() - ci,
        {
            let client = self.clients[ci].client;
            let mut k: usize = 0;
            while k < ci
                invariant
                    k <= ci < self.clients.len(),
                    client == self.clients[ci as int].client,
                    forall|i: int| 0 <= i < k ==> (#[trigger] self.clients[i]).client != client,
                decreases ci - k,
            {
                if self.clients[k].client == client {
                    proof {
                        assert(self.has(client, k as int) && self.has(client, ci as int));
                    }
                    return false;
                }
                k += 1;
            }
            if self.clients[ci].ranges.len() == 0 {
                return false;
            }
            let ghost rs = self.clients[ci as int].ranges@;
            let mut ri: usize = 0;
            while ri < self.clients[ci].ranges.len()
                invariant
                    ci < self.clients.len(),
                    rs == self.clients[ci as int].ranges@,
                    ri <= rs.len(),
                    forall|i: int| 0 <= i < ri ==> (#[trigger] rs[i]).start < rs[i].end,
                    forall|i: int, j: int|
                        0 <= i && j == i + 1 && j < ri ==> (#[trigger] rs[i]).end < (
                        #[trigger] rs[j]).start,
                decreases rs.len() - ri,
            {
                let start = self.clients[ci].ranges[ri].start;
                let end = self.clients[ci].ranges[ri].end;
                if start >= end {
                    proof {
                        assert(!ranges_wf(rs));
                    }
                    return false;
                }
                if ri > 0 {
                    if self.clients[ci].ranges[ri - 1].end >= start {
                        proof {
                            assert(!(rs[ri - 1].end < rs[ri as int].start));
                            assert(!ranges_wf(rs));
                        }
                        return false;
                    }
                }
                ri += 1;
            }
            proof {
                assert(ranges_wf(rs)) by {
                    assert forall|i: int, j: int| 0 <= i < j < rs.len() implies (
                    #[trigger] rs[i]).end < (#[trigger] rs[j]).start by {
                        lemma_ranges_rising(rs, i, j);
                    }
                }
            }
            ci += 1;
        }
        proof {
            assert forall|c: u64, i: int, j: int| #[trigger]
                self.has(c, i) && #[trigger] self.has(c, j) implies i == j by {
                if i < j {
                    assert(self.clients[i].client != self.clients[j].client);
                }
                if j < i {
                    assert(self.clients[j].client != self.clients[i].client);
                }
            }
        }
        true
    }

    /// A set that holds nothing.
    pub fn new() -> (r: IdSet)
        ensures
            r.wf(),
            r@ == Set::<ID>::empty(),
            r.clients@ == Seq::<ClientRanges>::empty(),
    {
        let r = IdSet { clients: Vec::new() };
        proof {
            assert forall|id: ID| !r.spec_contains(id) by {
                if r.spec_contains(id) {
                    let j = choose|j: int| range_holds(r.ranges_of(id.client), j, id.clock as int);
                    assert(range_holds(r.ranges_of(id.client), j, id.clock as int));
                }
            }
            assert(r@ =~= Set::<ID>::empty());
            assert(r.clients@ =~= Seq::<ClientRanges>::empty());
        }
        r
    }

    /// Position of the entry of `client`.
    pub fn find_client(&self, client: u64) -> (r: Option<usize>)
        ensures
            match r {
                Some(i) => self.has(client, i as int),
                None => !self.contains_client(client),
            },
    {
        let mut i: usize = 0;
        while i < self.clients.len()
            invariant
                i <= self.clients.len(),
                forall|j: int| 0 <= j < i ==> !self.has(client, j),
            decreases self.clients.len() - i,
        {
            if self.clients[i].client == client {
                return Some(i);
            }
            i += 1;
        }
        None
    }

    /// Whether the set holds `id`.
    pub fn contains(&self, id: &ID) -> (r: bool)
        requires
            self.wf(),
        ensures
            r == self@.contains(*id),
    {
        match self.find_client(id.client) {
            Some(ci) => {
                proof {
                    self.lemma_ranges_of(id.client, ci as int);
                }
                let mut i: usize = 0;
                while i < self.clients[ci].ranges.len()
                    invariant
                        ci < self.clients.len(),
                        i <= self.clients[ci as int].ranges.len(),
                        self.ranges_of(id.client) == self.clients[ci as int].ranges@,
                        forall|j: int|
                            0 <= j < i ==> !range_holds(
                                self.clients[ci as int].ranges@,
                                j,
                                id.clock as int,
                            ),
                    decreases self.clients[ci as int].ranges.len() - i,
                {
                    if self.clients[ci].ranges[i].start <= id.clock && id.clock
                        < self.clients[ci].ranges[i].end {
                        assert(range_holds(self.clients[ci as int].ranges@, i as int, id.clock as int));
                        return true;
                    }
                    i += 1;
                }
                proof {
                    if self.spec_contains(*id) {
                        let j = choose|j: int|
                            range_holds(self.ranges_of(id.client), j, id.clock as int);
                        assert(range_holds(self.ranges_of(id.client), j, id.clock as int));
                    }
                }
                false
            },
            None => {
                proof {
                    if self.spec_contains(*id) {
                        let j = choose|j: int|
                            range_holds(self.ranges_of(id.client), j, id.clock as int);
                        assert(range_holds(self.ranges_of(id.client), j, id.clock as int));
                    }
                }
                false
            },
        }
    }

    /// Adds the `len` units that start at `id`.
    pub fn insert(&mut self, id: ID, len: u32)
        requires
            old(self).wf(),
            id.clock + len <= u32::MAX,
        ensures
            final(self).wf(),
            final(self)@ == old(self)@.union(id_range(id.client, id.clock as int, id.clock + len)),
            final(self).keys() == (if len == 0 || old(self).contains_client(id.client) {
                old(self).keys()
            } else {
                old(self).keys().push(id.client)
            }),
    {
        if len == 0 {
            assert(self@ =~= old(self)@.union(id_range(id.client, id.clock as int, id.clock + len)));
            return ;
        }
        let client = id.client;
        let ci = match self.find_client(client) {
            Some(ci) => ci,
            None => {
                self.clients.push(ClientRanges { client, ranges: Vec::new() });
                self.clients.len() - 1
            },
        };
        let ghost mid = *self;
        proof {
            assert(mid.has(client, ci as int));
            assert forall|c: u64, j: int| mid.has(c, j) implies old(self).has(c, j) || (c == client
                && j == ci) by {
                if j < old(self).clients.len() {
                    assert(mid.clients[j] == old(self).clients[j]);
                }
            }
            assert(mid.in_order()) by {
                assert forall|j: int| 0 <= j < mid.clients.len() implies ranges_wf(
                    (#[trigger] mid.clients[j]).ranges@,
                ) by {
                    if j < old(self).clients.len() {
                        assert(mid.clients[j] == old(self).clients[j]);
                    }
                }
            }
            mid.lemma_ranges_of(client, ci as int);
            assert forall|c: u64| #[trigger] mid.ranges_of(c) == old(self).ranges_of(c) by {
                if old(self).contains_client(c) {
                    let j = choose|j: int| old(self).has(c, j);
                    assert(mid.clients[j] == old(self).clients[j]);
                    assert(mid.has(c, j));
                    mid.lemma_ranges_of(c, j);
                } else if mid.contains_client(c) {
                    let j = choose|j: int| mid.has(c, j);
                    assert(mid.has(c, j));
                }
            }
        }
        insert_range(&mut self.clients[ci].ranges, id.clock, id.clock + len);
        proof {
            let new = *self;
            assert forall|c: u64, j: int| #[trigger] new.has(c, j) == mid.has(c, j) by {
                if 0 <= j < mid.clients.len() && j != ci {
                    assert(new.clients[j] == mid.clients[j]);
                }
            }
            assert(new.wf()) by {
                assert forall|j: int| 0 <= j < new.clients.len() implies ranges_wf(
                    (#[trigger] new.clients[j]).ranges@,
                ) && new.clients[j].ranges@.len() > 0 by {
                    if j != ci {
                        assert(new.clients[j] == mid.clients[j]);
                        assert(j < old(self).clients.len());
                        assert(mid.clients[j] == old(self).clients[j]);
                    }
                }
            }
            assert(new.has(client, ci as int));
            new.lemma_ranges_of(client, ci as int);
            assert forall|c: u64| c != client implies #[trigger] new.ranges_of(c) == mid.ranges_of(
                c,
            ) by {
                if mid.contains_client(c) {
                    let j = choose|j: int| mid.has(c, j);
                    assert(mid.has(c, j));
                    assert(new.has(c, j));
                    assert(new.clients[j] == mid.clients[j]);
                    new.lemma_ranges_of(c, j);
                } else if new.contains_client(c) {
                    let j = choose|j: int| new.has(c, j);
                    assert(mid.has(c, j));
                }
            }
            assert forall|x: ID|
                new.spec_contains(x) == (old(self).spec_contains(x) || id_range(
                    id.client,
                    id.clock as int,
                    id.clock + len,
                ).contains(x)) by {
                if x.client != client {
                    assert(new.ranges_of(x.client) == mid.ranges_of(x.client));
                }
            }
            assert(new@ =~= old(self)@.union(id_range(id.client, id.clock as int, id.clock + len)));
            assert(new.keys() =~= mid.keys()) by {
                assert forall|j: int| 0 <= j < mid.clients.len() implies new.clients[j].client
                    == mid.clients[j].client by {
                    if j != ci {
                        assert(new.clients[j] == mid.clients[j]);
                    }
                }
            }
            if old(self).contains_client(client) {
                assert(mid.keys() =~= old(self).keys());
            } else {
                assert(mid.keys() =~= old(self).keys().push(client));
            }
        }
    }

    /// Whether the set holds nothing.
    pub fn is_empty(&self) -> (r: bool)
        requires
            self.wf(),
        ensures
            r == (self@ == Set::<ID>::empty()),
    {
        let mut i: usize = 0;
        while i < self.clients.len()
            invariant
                self.wf(),
                i <= self.clients.len(),
                forall|j: int| 0 <= j < i ==> (#[trigger] self.clients[j]).ranges@.len() == 0,
            decreases self.clients.len() - i,
        {
            if self.clients[i].ranges.len() > 0 {
                proof {
                    let client = self.clients[i as int].client;
                    assert(self.has(client, i as int));
                    self.lemma_ranges_of(client, i as int);
                    let r = self.clients[i as int].ranges@[0];
                    let x = ID { client, clock: r.start };
                    assert(range_holds(self.ranges_of(client), 0, r.start as int));
                    assert(self@.contains(x));
                }
                return false;
            }
            i += 1;
        }
        proof {
            assert forall|id: ID| !self.spec_contains(id) by {
                if self.spec_contains(id) {
                    let j = choose|j: int|
                        range_holds(self.ranges_of(id.client), j, id.clock as int);
                    assert(range_holds(self.ranges_of(id.client), j, id.clock as int));
                    if self.contains_client(id.client) {
                        let ci = choose|ci: int| self.has(id.client, ci);
                        assert(self.has(id.client, ci));
                        assert(self.clients[ci].ranges@.len() == 0);
                    }
                }
            }
            assert(self@ =~= Set::<ID>::empty());
        }
        true
    }

    /// What the first `ci` entries hold, and the first `ri` ranges of entry
    /// `ci`.
    pub open spec fn upto(&self, ci: int, ri: int) -> Set<ID> {
        Set::new(
            |id: ID|
                exists|c: int, r: int|
                    #![trigger self.clients[c].ranges@[r]]
                    0 <= c < self.clients.len() && 0 <= r < self.clients[c].ranges@.len() && (c
                        < ci || (c == ci && r < ri)) && self.clients[c].client == id.client
                        && self.clients[c].ranges@[r].start <= id.clock
                        < self.clients[c].ranges@[r].end,
        )
    }

    /// `id` is the first clock of a range of the set, or the first clock
    /// after one.
    pub open spec fn is_edge(&self, id: ID) -> bool {
        exists|c: int, r: int|
            #![trigger self.clients[c].ranges@[r]]
            0 <= c < self.clients.len() && 0 <= r < self.clients[c].ranges@.len()
                && self.clients[c].client == id.client && (self.clients[c].ranges@[r].start
                == id.clock || self.clients[c].ranges@[r].end == id.clock)
    }

    /// What some of the entries and ranges hold, the whole set holds.
    pub proof fn lemma_upto_subset(&self, ci: int, ri: int)
        requires
            self.wf(),
        ensures
            self.upto(ci, ri).subset_of(self@),
    {
        assert forall|id: ID| self.upto(ci, ri).contains(id) implies self@.contains(id) by {
            let (c, r) = choose|c: int, r: int|
                #![trigger self.clients[c].ranges@[r]]
                0 <= c < self.clients.len() && 0 <= r < self.clients[c].ranges@.len() && (c < ci
                    || (c == ci && r < ri)) && self.clients[c].client == id.client
                    && self.clients[c].ranges@[r].start <= id.clock
                    < self.clients[c].ranges@[r].end;
            assert(self.has(id.client, c));
            self.lemma_ranges_of(id.client, c);
            assert(range_holds(self.ranges_of(id.client), r, id.clock as int));
        }
    }

    /// No unit of a range is a unit of the ranges before it.
    pub proof fn lemma_upto_disjoint(&self, ci: int, ri: int)
        requires
            self.wf(),
            0 <= ci < self.clients.len(),
            0 <= ri < self.clients[ci].ranges@.len(),
        ensures
            self.upto(ci, ri).disjoint(
                id_range(
                    self.clients[ci].client,
                    self.clients[ci].ranges@[ri].start as int,
                    self.clients[ci].ranges@[ri].end as int,
                ),
            ),
    {
        let client = self.clients[ci].client;
        let rs = self.clients[ci].ranges@;
        assert forall|id: ID| self.upto(ci, ri).contains(id) implies !id_range(
            client,
            rs[ri].start as int,
            rs[ri].end as int,
        ).contains(id) by {
            let (c, r) = choose|c: int, r: int|
                #![trigger self.clients[c].ranges@[r]]
                0 <= c < self.clients.len() && 0 <= r < self.clients[c].ranges@.len() && (c < ci
                    || (c == ci && r < ri)) && self.clients[c].client == id.client
                    && self.clients[c].ranges@[r].start <= id.clock
                    < self.clients[c].ranges@[r].end;
            if id.client == client {
                assert(self.has(client, c) && self.has(client, ci));
                assert(ranges_wf(rs));
                assert(rs[r].end < rs[ri].start);
            }
        }
    }

    /// One more range adds its clocks.
    pub proof fn lemma_upto_step(&self, ci: int, ri: int)
        requires
            0 <= ci < self.clients.len(),
            0 <= ri < self.clients[ci].ranges@.len(),
        ensures
            self.upto(ci, ri + 1) == self.upto(ci, ri).union(
                id_range(
                    self.clients[ci].client,
                    self.clients[ci].ranges@[ri].start as int,
                    self.clients[ci].ranges@[ri].end as int,
                ),
            ),
            ri + 1 == self.clients[ci].ranges@.len() ==> self.upto(ci + 1, 0) == self.upto(
                ci,
                ri + 1,
            ),
    {
        let client = self.clients[ci].client;
        let start = self.clients[ci].ranges@[ri].start;
        let end = self.clients[ci].ranges@[ri].end;
        assert forall|id: ID|
            self.upto(ci, ri + 1).contains(id) == (self.upto(ci, ri).contains(id) || id_range(
                client,
                start as int,
                end as int,
            ).contains(id)) by {
            if id_range(client, start as int, end as int).contains(id) {
                assert(self.clients[ci].ranges@[ri].start <= id.clock);
            }
        }
        assert(self.upto(ci, ri + 1) =~= self.upto(ci, ri).union(
            id_range(client, start as int, end as int),
        ));
        if ri + 1 == self.clients[ci].ranges@.len() {
            assert(self.upto(ci + 1, 0) =~= self.upto(ci, ri + 1));
        }
    }

    /// An entry without ranges adds nothing.
    pub proof fn lemma_upto_skip(&self, ci: int)
        requires
            0 <= ci < self.clients.len(),
            self.clients[ci].ranges@.len() == 0,
        ensures
            self.upto(ci + 1, 0) == self.upto(ci, 0),
    {
        assert(self.upto(ci + 1, 0) =~= self.upto(ci, 0));
    }

    /// All entries and all their ranges make up the whole set.
    pub proof fn lemma_upto_all(&self)
        requires
            self.wf(),
        ensures
            self.upto(self.clients.len() as int, 0) == self@,
    {
        let n = self.clients.len() as int;
        assert forall|id: ID| self.upto(n, 0).contains(id) == self@.contains(id) by {
            if self.upto(n, 0).contains(id) {
                let (c, r) = choose|c: int, r: int|
                    #![trigger self.clients[c].ranges@[r]]
                    0 <= c < self.clients.len() && 0 <= r < self.clients[c].ranges@.len() && (c < n
                        || (c == n && r < 0)) && self.clients[c].client == id.client
                        && self.clients[c].ranges@[r].start <= id.clock
                        < self.clients[c].ranges@[r].end;
                assert(self.has(id.client, c));
                self.lemma_ranges_of(id.client, c);
                assert(range_holds(self.ranges_of(id.client), r, id.clock as int));
            }
            if self@.contains(id) {
                let r = choose|r: int| range_holds(self.ranges_of(id.client), r, id.clock as int);
                assert(range_holds(self.ranges_of(id.client), r, id.clock as int));
                let c = choose|c: int| self.has(id.client, c);
                assert(self.has(id.client, c));
                assert(self.clients[c].ranges@[r].start <= id.clock);
            }
        }
        assert(self.upto(n, 0) =~= self@);
    }

    /// Adds everything that `other` holds.
    pub fn merge(&mut self, other: IdSet)
        requires
            old(self).wf(),
            other.wf(),
        ensures
            final(self).wf(),
            final(self)@ == old(self)@.union(other@),
    {
        let mut ci: usize = 0;
        assert(self@ =~= old(self)@.union(other.upto(0, 0)));
        while ci < other.clients.len()
            invariant
                self.wf(),
                other.wf(),
                ci <= other.clients.len(),
                self@ == old(self)@.union(other.upto(ci as int, 0)),
            decreases other.clients.len() - ci,
        {
            let client = other.clients[ci].client;
            let mut ri: usize = 0;
            while ri < other.clients[ci].ranges.len()
                invariant
                    self.wf(),
                    other.wf(),
                    ci < other.clients.len(),
                    client == other.clients[ci as int].client,
                    ri <= other.clients[ci as int].ranges.len(),
                    self@ == old(self)@.union(other.upto(ci as int, ri as int)),
                decreases other.clients[ci as int].ranges.len() - ri,
            {
                let start = other.clients[ci].ranges[ri].start;
                let end = other.clients[ci].ranges[ri].end;
                assert(other.clients[ci as int].ranges@[ri as int].start
                    < other.clients[ci as int].ranges@[ri as int].end);
                self.insert(ID::new(client, start), end - start);
                proof {
                    assert(other.upto(ci as int, ri + 1) =~= other.upto(ci as int, ri as int).union(
                        id_range(client, start as int, end as int),
                    )) by {
                        assert forall|id: ID|
                            other.upto(ci as int, ri + 1).contains(id) == (other.upto(
                                ci as int,
                                ri as int,
                            ).contains(id) || id_range(client, start as int, end as int).contains(
                                id,
                            )) by {
                            if id_range(client, start as int, end as int).contains(id) {
                                assert(other.clients[ci as int].ranges@[ri as int].start
                                    <= id.clock);
                            }
                        }
                    }
                }
                ri += 1;
            }
            proof {
                assert(other.upto(ci + 1, 0) =~= other.upto(
                    ci as int,
                    other.clients[ci as int].ranges@.len() as int,
                ));
            }
            ci += 1;
        }
        proof {
            other.lemma_upto_all();
        }
    }
}

} // verus!
