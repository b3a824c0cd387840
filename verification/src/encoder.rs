//! The bytes of an update: the blocks that the store has come to know
//! since a transaction began, and the deleted units of the store.

use crate::block::{Block, Item, ItemContent, TypePtr, ID};
use crate::block_store::{
    lemma_list_pivot, list_holds, list_pivot, list_state, ClientBlockList, StateVector,
};
use crate::deleted::{deleted_of, holds_deleted, law_deleted_held_one_way};
use crate::id_set::{ClientRanges, IdSet};
use crate::transaction::Transaction;
use std::ops::Range;
use vstd::prelude::*;
use vstd::string::*;

verus! {

/// A number in groups of seven bits, the lowest first; every byte but the
/// last has its highest bit set.
pub open spec fn uvar(n: nat) -> Seq<u8>
    decreases n,
{
    if n < 128 {
        seq![n as u8]
    } else {
        seq![(n % 128 + 128) as u8] + uvar(n / 128)
    }
}

/// An identifier: its client, then its clock.
pub open spec fn enc_id(id: ID) -> Seq<u8> {
    uvar(id.client as nat) + uvar(id.clock as nat)
}

/// An identifier, or nothing.
pub open spec fn enc_opt_id(id: Option<ID>) -> Seq<u8> {
    match id {
        Some(id) => enc_id(id),
        None => Seq::empty(),
    }
}

/// The characters from index `i` on, each by its number.
pub open spec fn enc_chars(s: Seq<char>, i: int) -> Seq<u8>
    decreases s.len() - i,
{
    if 0 <= i < s.len() {
        uvar(s[i] as u32 as nat) + enc_chars(s, i + 1)
    } else {
        Seq::empty()
    }
}

/// The characters from index `from` on: how many, then each.
pub open spec fn enc_text(s: Seq<char>, from: int) -> Seq<u8> {
    uvar((s.len() - from) as nat) + enc_chars(s, from)
}

/// A map key: its characters, or nothing.
pub open spec fn enc_opt_key(key: Option<String>) -> Seq<u8> {
    match key {
        Some(s) => enc_text(s@, 0),
        None => Seq::empty(),
    }
}

/// The number that stands for a kind of content.
pub open spec fn kind_of(content: ItemContent) -> nat {
    match content {
        ItemContent::Deleted(_) => 1,
        ItemContent::Text(_) => 2,
        ItemContent::Doc(_) => 3,
        ItemContent::Type(_) => 4,
    }
}

/// The content from unit `from` on.
pub open spec fn enc_content(content: ItemContent, from: int) -> Seq<u8> {
    match content {
        ItemContent::Deleted(n) => uvar((n - from) as nat),
        ItemContent::Text(v) => enc_text(v@, from),
        ItemContent::Doc(s) => enc_text(s@, 0),
        ItemContent::Type(t) => seq![t],
    }
}

/// A container: 0 and the number of a root type, or 1 and the identifier
/// of the item that defines a nested type.
pub open spec fn enc_parent(parent: TypePtr) -> Seq<u8> {
    match parent {
        TypePtr::Named(n) => seq![0u8] + uvar(n as nat),
        TypePtr::Id(id) => seq![1u8] + enc_id(id),
    }
}

/// The origin of the part of `item` from unit `from` on: that of the item,
/// or the unit before the part.
pub open spec fn origin_from(item: Item, from: int) -> Option<ID> {
    if from == 0 {
        item.origin
    } else {
        Some(ID { client: item.id.client, clock: (item.id.clock + from - 1) as u32 })
    }
}

/// The first byte of an item: the kind of its content, and which of
/// origin, right origin and map key follow.
pub open spec fn info_of(item: Item, from: int) -> nat {
    kind_of(item.content) + (if origin_from(item, from) is Some {
        128nat
    } else {
        0nat
    }) + (if item.right_origin is Some {
        64nat
    } else {
        0nat
    }) + (if item.parent_sub is Some {
        32nat
    } else {
        0nat
    })
}

/// The part of `item` from unit `from` on.
pub open spec fn enc_item(item: Item, from: int) -> Seq<u8> {
    seq![info_of(item, from) as u8] + enc_opt_id(origin_from(item, from)) + enc_opt_id(
        item.right_origin,
    ) + enc_parent(item.parent) + enc_opt_key(item.parent_sub) + enc_content(item.content, from)
}

/// The part of a block from unit `from` on; a placeholder is 0 and its
/// length.
pub open spec fn enc_block(b: Block, from: int) -> Seq<u8> {
    match b {
        Block::Item(item) => enc_item(item, from),
        Block::GC(range) => seq![0u8] + uvar((range.len - from) as nat),
    }
}

/// The blocks from index `i` on.
pub open spec fn enc_blocks(list: Seq<Block>, i: int) -> Seq<u8>
    decreases list.len() - i,
{
    if 0 <= i < list.len() {
        enc_block(list[i], 0) + enc_blocks(list, i + 1)
    } else {
        Seq::empty()
    }
}

/// What a client has from clock `stamp` on: the client, the clock, the
/// number of blocks, then the blocks, the first from `stamp` on.
pub open spec fn enc_client(client: u64, list: Seq<Block>, stamp: nat) -> Seq<u8> {
    let p = list_pivot(list, stamp as int);
    uvar(client as nat) + uvar(stamp) + uvar((list.len() - p) as nat) + enc_block(
        list[p],
        stamp - list[p].clock(),
    ) + enc_blocks(list, p + 1)
}

/// Number of the clients from index `i` on that have something newer than
/// `stamp`.
pub open spec fn count_newer(clients: Seq<ClientBlockList>, stamp: StateVector, i: int) -> nat
    decreases clients.len() - i,
{
    if 0 <= i < clients.len() {
        (if stamp.spec_get(clients[i].client) < list_state(clients[i].list@) {
            1nat
        } else {
            0nat
        }) + count_newer(clients, stamp, i + 1)
    } else {
        0
    }
}

/// What the clients from index `i` on have that is newer than `stamp`.
pub open spec fn enc_newer(clients: Seq<ClientBlockList>, stamp: StateVector, i: int) -> Seq<u8>
    decreases clients.len() - i,
{
    if 0 <= i < clients.len() {
        (if stamp.spec_get(clients[i].client) < list_state(clients[i].list@) {
            enc_client(
                clients[i].client,
                clients[i].list@,
                stamp.spec_get(clients[i].client) as nat,
            )
        } else {
            Seq::empty()
        }) + enc_newer(clients, stamp, i + 1)
    } else {
        Seq::empty()
    }
}

/// The ranges from index `i` on: of each its first clock and its length.
pub open spec fn enc_ranges(rs: Seq<Range<u32>>, i: int) -> Seq<u8>
    decreases rs.len() - i,
{
    if 0 <= i < rs.len() {
        uvar(rs[i].start as nat) + uvar((rs[i].end - rs[i].start) as nat) + enc_ranges(rs, i + 1)
    } else {
        Seq::empty()
    }
}

/// The entries of a set from index `i` on: of each the client, the number
/// of its ranges, and the ranges.
pub open spec fn enc_set_clients(cs: Seq<ClientRanges>, i: int) -> Seq<u8>
    decreases cs.len() - i,
{
    if 0 <= i < cs.len() {
        uvar(cs[i].client as nat) + uvar(cs[i].ranges@.len()) + enc_ranges(cs[i].ranges@, 0)
            + enc_set_clients(cs, i + 1)
    } else {
        Seq::empty()
    }
}

/// A set of units: the number of its entries, then the entries.
pub open spec fn enc_set(set: IdSet) -> Seq<u8> {
    uvar(set.clients@.len()) + enc_set_clients(set.clients@, 0)
}

/// An update: the number of clients that have something newer than
/// `stamp`, what they have, and the deleted units.
pub open spec fn enc_update(clients: Seq<ClientBlockList>, stamp: StateVector, deleted: IdSet) -> Seq<
    u8,
> {
    uvar(count_newer(clients, stamp, 0)) + enc_newer(clients, stamp, 0) + enc_set(deleted)
}

/// Ranges that begin and end alike are written alike.
pub proof fn lemma_enc_ranges_same(a: Seq<Range<u32>>, b: Seq<Range<u32>>, i: int)
    requires
        a.len() == b.len(),
        forall|j: int| 0 <= j < a.len() ==> a[j].start == b[j].start && a[j].end == b[j].end,
    ensures
        enc_ranges(a, i) == enc_ranges(b, i),
    decreases a.len() - i,
{
    if 0 <= i < a.len() {
        lemma_enc_ranges_same(a, b, i + 1);
    }
}

/// Entries with the same clients and ranges are written alike.
pub proof fn lemma_enc_entries_same(a: Seq<ClientRanges>, b: Seq<ClientRanges>, i: int)
    requires
        a.len() == b.len(),
        forall|k: int|
            0 <= k < a.len() ==> (#[trigger] a[k]).client == b[k].client && a[k].ranges@.len()
                == b[k].ranges@.len(),
        forall|k: int, j: int|
            0 <= k < a.len() && 0 <= j < a[k].ranges@.len() ==> (#[trigger] a[k].ranges@[j]).start
                == b[k].ranges@[j].start && a[k].ranges@[j].end == b[k].ranges@[j].end,
    ensures
        enc_set_clients(a, i) == enc_set_clients(b, i),
    decreases a.len() - i,
{
    if 0 <= i < a.len() {
        lemma_enc_entries_same(a, b, i + 1);
        let ra = a[i].ranges@;
        let rb = b[i].ranges@;
        assert(a[i].client == b[i].client && ra.len() == rb.len());
        assert forall|j: int| 0 <= j < ra.len() implies ra[j].start == rb[j].start && ra[j].end
            == rb[j].end by {
            assert(a[i].ranges@[j].start == b[i].ranges@[j].start);
        }
        lemma_enc_ranges_same(ra, rb, 0);
    }
}

/// Collects the bytes of an update.
pub struct EncoderV1 {
    pub buf: Vec<u8>,
}

impl EncoderV1 {
    /// An encoder that has written nothing.
    pub fn new() -> (r: EncoderV1)
        ensures
            r.buf@.len() == 0,
    {
        EncoderV1 { buf: Vec::new() }
    }

    /// The bytes written.
    pub fn to_vec(self) -> (r: Vec<u8>)
        ensures
            r@ == self.buf@,
    {
        self.buf
    }

    /// One byte.
    pub fn write_u8(&mut self, b: u8)
        ensures
            final(self).buf@ == old(self).buf@ + seq![b],
    {
        self.buf.push(b);
        assert(self.buf@ =~= old(self).buf@ + seq![b]);
    }

    /// A number, in groups of seven bits.
    pub fn write_uvar(&mut self, n: u64)
        ensures
            final(self).buf@ == old(self).buf@ + uvar(n as nat),
    {
        let ghost whole = n;
        let mut n = n;
        while n >= 128
            invariant
                self.buf@ + uvar(n as nat) == old(self).buf@ + uvar(whole as nat),
            decreases n,
        {
            let ghost before = self.buf@;
            self.buf.push((n % 128 + 128) as u8);
            proof {
                assert(uvar(n as nat) == seq![(n % 128 + 128) as u8] + uvar((n / 128) as nat));
                assert(self.buf@ + uvar((n / 128) as nat) =~= before + uvar(n as nat));
            }
            n = n / 128;
        }
        let ghost before = self.buf@;
        self.buf.push(n as u8);
        proof {
            assert(self.buf@ =~= before + uvar(n as nat));
        }
    }

    /// An identifier: its client, then its clock.
    pub fn write_id(&mut self, id: &ID)
        ensures
            final(self).buf@ == old(self).buf@ + enc_id(*id),
    {
        self.write_uvar(id.client);
        self.write_uvar(id.clock as u64);
        assert(self.buf@ =~= old(self).buf@ + enc_id(*id));
    }

    /// An identifier, or nothing.
    pub fn write_opt_id(&mut self, id: &Option<ID>)
        ensures
            final(self).buf@ == old(self).buf@ + enc_opt_id(*id),
    {
        match id {
            Some(id) => {
                self.write_id(id);
            },
            None => {
                assert(self.buf@ =~= old(self).buf@ + enc_opt_id(*id));
            },
        }
    }

    /// The characters of `v` from index `from` on: how many, then each.
    pub fn write_chars(&mut self, v: &Vec<char>, from: usize)
        requires
            from <= v.len(),
        ensures
            final(self).buf@ == old(self).buf@ + enc_text(v@, from as int),
    {
        self.write_uvar((v.len() - from) as u64);
        let ghost base = self.buf@;
        let mut i: usize = from;
        while i < v.len()
            invariant
                from <= i <= v.len(),
                self.buf@ + enc_chars(v@, i as int) == base + enc_chars(v@, from as int),
            decreases v.len() - i,
        {
            let ghost before = self.buf@;
            let c = v[i];
            self.write_uvar(c as u32 as u64);
            proof {
                assert(c == v@[i as int]);
                assert(self.buf@ == before + uvar(v@[i as int] as u32 as nat));
                assert(enc_chars(v@, i as int) == uvar(v@[i as int] as u32 as nat) + enc_chars(
                    v@,
                    i + 1,
                ));
                assert(self.buf@ + enc_chars(v@, i + 1) =~= before + enc_chars(v@, i as int));
            }
            i += 1;
        }
        proof {
            assert(enc_chars(v@, i as int) =~= Seq::<u8>::empty());
            assert(self.buf@ =~= old(self).buf@ + enc_text(v@, from as int));
        }
    }

    /// The characters of `s`: how many, then each.
    pub fn write_string(&mut self, s: &String)
        ensures
            final(self).buf@ == old(self).buf@ + enc_text(s@, 0),
    {
        let n = s.as_str().unicode_len();
        self.write_uvar(n as u64);
        let ghost base = self.buf@;
        let mut i: usize = 0;
        while i < n
            invariant
                i <= n,
                n == s@.len(),
                self.buf@ + enc_chars(s@, i as int) == base + enc_chars(s@, 0),
            decreases n - i,
        {
            let ghost before = self.buf@;
            let c = s.as_str().get_char(i);
            self.write_uvar(c as u32 as u64);
            proof {
                assert(c == s@[i as int]);
                assert(self.buf@ == before + uvar(s@[i as int] as u32 as nat));
                assert(enc_chars(s@, i as int) == uvar(s@[i as int] as u32 as nat) + enc_chars(
                    s@,
                    i + 1,
                ));
                assert(self.buf@ + enc_chars(s@, i + 1) =~= before + enc_chars(s@, i as int));
            }
            i += 1;
        }
        proof {
            assert(enc_chars(s@, i as int) =~= Seq::<u8>::empty());
            assert(self.buf@ =~= old(self).buf@ + enc_text(s@, 0));
        }
    }

    /// A container.
    pub fn write_parent(&mut self, parent: &TypePtr)
        ensures
            final(self).buf@ == old(self).buf@ + enc_parent(*parent),
    {
        match parent {
            TypePtr::Named(n) => {
                self.write_u8(0);
                self.write_uvar(*n as u64);
            },
            TypePtr::Id(id) => {
                self.write_u8(1);
                self.write_id(id);
            },
        }
        assert(self.buf@ =~= old(self).buf@ + enc_parent(*parent));
    }

    /// A map key, or nothing.
    pub fn write_opt_key(&mut self, key: &Option<String>)
        ensures
            final(self).buf@ == old(self).buf@ + enc_opt_key(*key),
    {
        match key {
            Some(s) => {
                self.write_string(s);
            },
            None => {
                assert(self.buf@ =~= old(self).buf@ + enc_opt_key(*key));
            },
        }
    }

    /// The content from unit `from` on.
    pub fn write_content(&mut self, content: &ItemContent, from: u32)
        requires
            content.wf(),
            from < content.spec_len(),
        ensures
            final(self).buf@ == old(self).buf@ + enc_content(*content, from as int),
    {
        match content {
            ItemContent::Deleted(n) => {
                self.write_uvar((*n - from) as u64);
            },
            ItemContent::Text(v) => {
                self.write_chars(v, from as usize);
            },
            ItemContent::Doc(s) => {
                self.write_string(s);
            },
            ItemContent::Type(t) => {
                self.write_u8(*t);
            },
        }
    }

    /// The first byte of the part of `item` from unit `from` on.
    pub fn info(item: &Item, from: u32) -> (info: u8)
        ensures
            info == info_of(*item, from as int),
    {
        let kind: u8 = match &item.content {
            ItemContent::Deleted(_) => 1,
            ItemContent::Text(_) => 2,
            ItemContent::Doc(_) => 3,
            ItemContent::Type(_) => 4,
        };
        let mut info: u8 = kind;
        if from != 0 || item.origin.is_some() {
            info = info + 128;
        }
        if item.right_origin.is_some() {
            info = info + 64;
        }
        if item.parent_sub.is_some() {
            info = info + 32;
        }
        info
    }

    /// The part of `item` from unit `from` on.
    pub fn write_item(&mut self, item: &Item, from: u32)
        requires
            item.wf(),
            from < item.spec_len(),
        ensures
            final(self).buf@ == old(self).buf@ + enc_item(*item, from as int),
    {
        let origin = if from == 0 {
            item.origin
        } else {
            Some(ID::new(item.id.client, item.id.clock + from - 1))
        };
        assert(origin == origin_from(*item, from as int));
        let info = Self::info(item, from);
        self.write_u8(info);
        self.write_opt_id(&origin);
        self.write_opt_id(&item.right_origin);
        self.write_parent(&item.parent);
        self.write_opt_key(&item.parent_sub);
        self.write_content(&item.content, from);
        assert(self.buf@ =~= old(self).buf@ + enc_item(*item, from as int));
    }

    /// The part of `b` from unit `from` on.
    pub fn write_block(&mut self, b: &Block, from: u32)
        requires
            b.wf(),
            from < b.spec_len(),
        ensures
            final(self).buf@ == old(self).buf@ + enc_block(*b, from as int),
    {
        match b {
            Block::Item(item) => {
                self.write_item(item, from);
            },
            Block::GC(range) => {
                self.write_u8(0);
                self.write_uvar((range.len - from) as u64);
                assert(self.buf@ =~= old(self).buf@ + enc_block(*b, from as int));
            },
        }
    }

    /// What `blocks` has from clock `stamp` on.
    pub fn write_client(&mut self, blocks: &ClientBlockList, stamp: u32)
        requires
            blocks.wf(),
            stamp < blocks.spec_state(),
        ensures
            final(self).buf@ == old(self).buf@ + enc_client(
                blocks.client,
                blocks.list@,
                stamp as nat,
            ),
    {
        let p = match blocks.find_pivot(stamp) {
            Some(p) => p,
            None => {
                return ;
            },
        };
        proof {
            lemma_list_pivot(blocks.list@, blocks.client, p as int, stamp as int);
        }
        self.write_uvar(blocks.client);
        self.write_uvar(stamp as u64);
        self.write_uvar((blocks.list.len() - p) as u64);
        self.write_block(&blocks.list[p], stamp - blocks.list[p].id().clock);
        let ghost base = self.buf@;
        let mut i: usize = p + 1;
        while i < blocks.list.len()
            invariant
                blocks.wf(),
                p + 1 <= i <= blocks.list.len(),
                self.buf@ + enc_blocks(blocks.list@, i as int) == base + enc_blocks(
                    blocks.list@,
                    p + 1,
                ),
            decreases blocks.list.len() - i,
        {
            let ghost before = self.buf@;
            assert(blocks.list@[i as int].wf());
            self.write_block(&blocks.list[i], 0);
            proof {
                assert(self.buf@ + enc_blocks(blocks.list@, i + 1) =~= before + enc_blocks(
                    blocks.list@,
                    i as int,
                ));
            }
            i += 1;
        }
        proof {
            assert(enc_blocks(blocks.list@, i as int) =~= Seq::<u8>::empty());
            assert(self.buf@ =~= old(self).buf@ + enc_client(
                blocks.client,
                blocks.list@,
                stamp as nat,
            ));
        }
    }

    /// A set of units.
    pub fn write_set(&mut self, set: &IdSet)
        requires
            set.wf(),
        ensures
            final(self).buf@ == old(self).buf@ + enc_set(*set),
    {
        self.write_uvar(set.clients.len() as u64);
        let ghost base = self.buf@;
        let mut ci: usize = 0;
        while ci < set.clients.len()
            invariant
                set.wf(),
                ci <= set.clients.len(),
                self.buf@ + enc_set_clients(set.clients@, ci as int) == base + enc_set_clients(
                    set.clients@,
                    0,
                ),
            decreases set.clients.len() - ci,
        {
            let ghost before = self.buf@;
            let ghost rs = set.clients@[ci as int].ranges@;
            self.write_uvar(set.clients[ci].client);
            self.write_uvar(set.clients[ci].ranges.len() as u64);
            let ghost inner = self.buf@;
            let mut ri: usize = 0;
            while ri < set.clients[ci].ranges.len()
                invariant
                    set.wf(),
                    ci < set.clients.len(),
                    rs == set.clients@[ci as int].ranges@,
                    ri <= rs.len(),
                    self.buf@ + enc_ranges(rs, ri as int) == inner + enc_ranges(rs, 0),
                decreases rs.len() - ri,
            {
                let ghost b0 = self.buf@;
                let start = set.clients[ci].ranges[ri].start;
                let end = set.clients[ci].ranges[ri].end;
                assert(rs[ri as int].start < rs[ri as int].end);
                self.write_uvar(start as u64);
                self.write_uvar((end - start) as u64);
                proof {
                    assert(self.buf@ + enc_ranges(rs, ri + 1) =~= b0 + enc_ranges(rs, ri as int));
                }
                ri += 1;
            }
            proof {
                assert(enc_ranges(rs, ri as int) =~= Seq::<u8>::empty());
                assert(self.buf@ + enc_set_clients(set.clients@, ci + 1) =~= before
                    + enc_set_clients(set.clients@, ci as int));
            }
            ci += 1;
        }
        proof {
            assert(enc_set_clients(set.clients@, ci as int) =~= Seq::<u8>::empty());
            assert(self.buf@ =~= old(self).buf@ + enc_set(*set));
        }
    }
}

impl Transaction {
    /// The update that carries the store on from where it stood when the
    /// transaction began: the blocks that the store has come to know since,
    /// and the units of the store that are deleted. The bytes depend on the
    /// store and on the state at the beginning alone.
    pub fn encode_update(&self) -> (bytes: Vec<u8>)
        requires
            self.wf(),
        ensures
            bytes@ == enc_update(
                self.store.blocks.clients@,
                self.timestamp,
                deleted_of(self.store.blocks),
            ),
    {
        let mut encoder = EncoderV1::new();
        let clients = &self.store.blocks.clients;
        let mut count: u64 = 0;
        let mut i: usize = clients.len();
        while i > 0
            invariant
                self.wf(),
                clients == &self.store.blocks.clients,
                i <= clients.len(),
                count == count_newer(clients@, self.timestamp, i as int),
                count <= clients.len() - i,
            decreases i,
        {
            i -= 1;
            assert(clients@[i as int].wf());
            if self.timestamp.get(&clients[i].client) < clients[i].get_state() {
                count += 1;
            }
        }
        encoder.write_uvar(count);
        let ghost base = encoder.buf@;
        let mut i: usize = 0;
        while i < clients.len()
            invariant
                self.wf(),
                clients == &self.store.blocks.clients,
                i <= clients.len(),
                encoder.buf@ + enc_newer(clients@, self.timestamp, i as int) == base + enc_newer(
                    clients@,
                    self.timestamp,
                    0,
                ),
            decreases clients.len() - i,
        {
            let ghost before = encoder.buf@;
            assert(clients@[i as int].wf());
            let stamp = self.timestamp.get(&clients[i].client);
            if stamp < clients[i].get_state() {
                encoder.write_client(&clients[i], stamp);
            }
            proof {
                assert(encoder.buf@ + enc_newer(clients@, self.timestamp, i + 1) =~= before
                    + enc_newer(clients@, self.timestamp, i as int));
            }
            i += 1;
        }
        let ghost mid = encoder.buf@;
        let deleted = self.store.blocks.deleted_set();
        encoder.write_set(&deleted);
        proof {
            let named = deleted_of(self.store.blocks);
            assert(holds_deleted(self.store.blocks, named));
            law_deleted_held_one_way(self.store.blocks, deleted, named);
            lemma_enc_entries_same(deleted.clients@, named.clients@, 0);
            assert(enc_set(deleted) == enc_set(named));
            assert(enc_newer(clients@, self.timestamp, i as int) =~= Seq::<u8>::empty());
            assert(encoder.buf@ =~= enc_update(clients@, self.timestamp, named));
        }
        encoder.to_vec()
    }
}

} // verus!
