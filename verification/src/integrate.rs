//! Placing a new item in its container.

use crate::block::{
    clone_key, key_view, same_key, split_of, Block, BlockRange, Item, TypePtr, Unit, ID,
};
use crate::block_store::{pushed, replaced, same_place, BlockStore};
use crate::model::live_cascade;
use crate::store::{head_in, node_at, nodes_unique, Store, TypeNode};
use crate::transaction::{
    lemma_block_extent, lemma_cuts_compose, lemma_view, same_but_cuts, Transaction,
};
use vstd::prelude::*;

verus! {

/// The item that starts at `id` once the item `n` is in place: `n` itself,
/// its left neighbour followed by `n`, its right neighbour preceded by `n`,
/// and every other item as it was.
pub open spec fn insert_item_at(s0: BlockStore, n: Item, id: ID) -> Option<Item> {
    let base = if id == n.id {
        Some(n)
    } else {
        s0.item_at(id)
    };
    let a = if n.left == Some(id) && id != n.id {
        match base {
            Some(z) => Some(Item { right: Some(n.id), ..z }),
            None => None,
        }
    } else {
        base
    };
    if n.right == Some(id) && id != n.id {
        match a {
            Some(z) => Some(Item { left: Some(n.id), ..z }),
            None => None,
        }
    } else {
        a
    }
}

/// `n` may go between its neighbours: its left neighbour is an item that is
/// followed by the right neighbour of `n`; without a left neighbour, its
/// right neighbour is an item that has none either.
pub open spec fn fits(s0: BlockStore, n: Item) -> bool {
    &&& s0.item_at(n.id) is None
    &&& n.left != Some(n.id)
    &&& n.right != Some(n.id)
    &&& match n.left {
        Some(l) => s0.item_at(l) is Some && s0.item_at(l)->0.right == n.right,
        None => match n.right {
            Some(r) => s0.item_at(r) is Some && s0.item_at(r)->0.left is None,
            None => true,
        },
    }
}

/// The links stay sound where an item is put between two neighbours.
pub proof fn lemma_links_after_insert(s0: BlockStore, s3: BlockStore, n: Item)
    requires
        s0.wf(),
        s0.links_wf(),
        fits(s0, n),
        forall|id: ID| #[trigger] s3.item_at(id) == insert_item_at(s0, n, id),
    ensures
        s3.links_wf(),
{
    if n.left is Some {
        let l = n.left->0;
        let _ = s0.lemma_block_at(l);
        assert(s0.link_ok(s0.item_at(l)->0));
        assert(s3.item_at(l) == insert_item_at(s0, n, l));
    }
    if n.right is Some {
        let r = n.right->0;
        assert(s0.item_at(r) is Some);
        let _ = s0.lemma_block_at(r);
        assert(s0.link_ok(s0.item_at(r)->0));
        assert(s3.item_at(r) == insert_item_at(s0, n, r));
    }
    assert(s3.item_at(n.id) == insert_item_at(s0, n, n.id));
    assert forall|id: ID|
        match #[trigger] s3.item_at(id) {
            Some(x) => s3.link_ok(x),
            None => true,
        } by {
        if s3.item_at(id) is Some {
            let x = s3.item_at(id)->0;
            assert(s3.item_at(id) == insert_item_at(s0, n, id));
            if s0.item_at(id) is Some {
                let _ = s0.lemma_block_at(id);
                assert(s0.link_ok(s0.item_at(id)->0));
            }
            if x.right is Some {
                let t = x.right->0;
                assert(s3.item_at(t) == insert_item_at(s0, n, t));
                if s0.item_at(t) is Some {
                    let _ = s0.lemma_block_at(t);
                    assert(s0.link_ok(s0.item_at(t)->0));
                }
            }
            if x.left is Some {
                let t = x.left->0;
                assert(s3.item_at(t) == insert_item_at(s0, n, t));
                if s0.item_at(t) is Some {
                    let _ = s0.lemma_block_at(t);
                    assert(s0.link_ok(s0.item_at(t)->0));
                }
            }
            assert(x.id == id);
            assert(s3.link_ok(x));
        }
    }
}

/// `new` is `old` but for the first item of container `ptr` under key `k`,
/// which is `start`.
pub open spec fn heads_set(
    old: Seq<TypeNode>,
    new: Seq<TypeNode>,
    ptr: TypePtr,
    k: Option<Seq<char>>,
    start: Option<ID>,
) -> bool {
    &&& nodes_unique(new)
    &&& forall|p: TypePtr, s: Option<Seq<char>>| #[trigger]
        head_in(new, p, s) == (if p == ptr && s == k {
            start
        } else {
            head_in(old, p, s)
        })
    &&& forall|i: int|
        0 <= i < new.len() ==> ((#[trigger] new[i]).ptr == ptr && key_view(new[i].sub) == k
            && new[i].start == start) || (i < old.len() && new[i] == old[i] && !(old[i].ptr == ptr
            && key_view(old[i].sub) == k))
}

impl Store {
    /// Makes `start` the first item of container `ptr` under key `sub`.
    pub fn set_head(&mut self, ptr: TypePtr, sub: &Option<String>, start: Option<ID>)
        requires
            old(self).heads_unique(),
        ensures
            heads_set(old(self).types@, final(self).types@, ptr, key_view(*sub), start),
            *final(self) == (Store { types: final(self).types, ..*old(self) }),
    {
        let ghost k = key_view(*sub);
        let ghost t0 = old(self).types@;
        match self.find_node(&ptr, sub) {
            Some(i) => {
                self.types[i].start = start;
                proof {
                    let t1 = self.types@;
                    assert(node_at(t0, ptr, k, i as int));
                    assert forall|p: TypePtr, s: Option<Seq<char>>, j: int|
                        node_at(t1, p, s, j) == node_at(t0, p, s, j) by {}
                    assert forall|p: TypePtr, s: Option<Seq<char>>| #[trigger]
                        head_in(t1, p, s) == (if p == ptr && s == k {
                            start
                        } else {
                            head_in(t0, p, s)
                        }) by {
                        if exists|j: int| node_at(t0, p, s, j) {
                            let j = choose|j: int| node_at(t0, p, s, j);
                            assert(node_at(t1, p, s, j));
                            let j2 = choose|j: int| node_at(t1, p, s, j);
                            assert(node_at(t1, p, s, j2));
                            assert(node_at(t0, p, s, j2));
                        } else if exists|j: int| node_at(t1, p, s, j) {
                            let j = choose|j: int| node_at(t1, p, s, j);
                            assert(node_at(t0, p, s, j));
                        }
                    }
                    assert forall|j: int| 0 <= j < t1.len() implies ((#[trigger] t1[j]).ptr == ptr
                        && key_view(t1[j].sub) == k && t1[j].start == start) || (j < t0.len()
                        && t1[j] == t0[j] && !(t0[j].ptr == ptr && key_view(t0[j].sub) == k)) by {
                        if j != i {
                            assert(!node_at(t0, ptr, k, j));
                        }
                    }
                }
            },
            None => {
                self.types.push(TypeNode { ptr, sub: clone_key(sub), start });
                proof {
                    let t1 = self.types@;
                    let n = t0.len() as int;
                    assert(node_at(t1, ptr, k, n));
                    assert forall|p: TypePtr, s: Option<Seq<char>>, j: int|
                        node_at(t1, p, s, j) == (node_at(t0, p, s, j) || (p == ptr && s == k && j
                            == n)) by {
                        if 0 <= j < n {
                            assert(t1[j] == t0[j]);
                        }
                    }
                    assert forall|p: TypePtr, s: Option<Seq<char>>| #[trigger]
                        head_in(t1, p, s) == (if p == ptr && s == k {
                            start
                        } else {
                            head_in(t0, p, s)
                        }) by {
                        if p == ptr && s == k {
                            let j2 = choose|j: int| node_at(t1, p, s, j);
                            assert(node_at(t1, p, s, j2));
                            assert(!node_at(t0, p, s, j2));
                        } else if exists|j: int| node_at(t0, p, s, j) {
                            let j = choose|j: int| node_at(t0, p, s, j);
                            assert(node_at(t1, p, s, j));
                            let j2 = choose|j: int| node_at(t1, p, s, j);
                            assert(node_at(t1, p, s, j2));
                            assert(node_at(t0, p, s, j2));
                        } else if exists|j: int| node_at(t1, p, s, j) {
                            let j = choose|j: int| node_at(t1, p, s, j);
                            assert(node_at(t1, p, s, j));
                            assert(node_at(t0, p, s, j));
                        }
                    }
                    assert forall|j: int| 0 <= j < t1.len() implies ((#[trigger] t1[j]).ptr == ptr
                        && key_view(t1[j].sub) == k && t1[j].start == start) || (j < t0.len()
                        && t1[j] == t0[j] && !(t0[j].ptr == ptr && key_view(t0[j].sub) == k)) by {
                        if j != n {
                            assert(!node_at(t0, ptr, k, j));
                        }
                    }
                }
            },
        }
    }
}

/// Whether two optional identifiers are the same.
pub fn same_id(a: Option<ID>, b: Option<ID>) -> (r: bool)
    ensures
        r == (a == b),
{
    match (a, b) {
        (Some(x), Some(y)) => x == y,
        (None, None) => true,
        _ => false,
    }
}

/// Whether `v` holds `id`.
pub fn has_id(v: &Vec<ID>, id: ID) -> (r: bool)
    ensures
        r == v@.contains(id),
{
    let mut i: usize = 0;
    while i < v.len()
        invariant
            i <= v.len(),
            forall|j: int| 0 <= j < i ==> v@[j] != id,
        decreases v.len() - i,
    {
        if v[i] == id {
            return true;
        }
        i += 1;
    }
    false
}

/// What stands right after the place that `item` names: the right neighbour
/// of its left neighbour, or the first item of its container where it has no
/// left neighbour.
pub open spec fn first_after(store: Store, item: Item) -> Option<ID> {
    match item.left {
        Some(l) => store.blocks.item_at(l)->0.right,
        None => store.head_of(item.parent, key_view(item.parent_sub)),
    }
}

/// `new` is `old` with the item `n` put between its neighbours and behind
/// the blocks of its client: the last unit of the left neighbour is followed
/// by `n`, and `n` starts its container where it has no left neighbour.
/// Nothing else differs.
pub open spec fn placed(old: Transaction, new: Transaction, n: Item) -> bool {
    let s0 = old.store.blocks;
    let s3 = new.store.blocks;
    let client = n.id.client;
    &&& new.wf()
    &&& n.wf()
    &&& n.id.clock == s0.state(client)
    &&& fits(s0, n)
    &&& n.left is None ==> n.right == old.store.head_of(n.parent, key_view(n.parent_sub))
    &&& forall|id: ID| #[trigger] s3.item_at(id) == insert_item_at(s0, n, id)
    &&& forall|id: ID| #[trigger] s3.is_start(id) == (s0.is_start(id) || id == n.id)
    &&& forall|c: u64| #[trigger]
        s3.spec_contains_client(c) == (s0.spec_contains_client(c) || c == client)
    &&& forall|c: u64| #[trigger]
        s3.state(c) == (if c == client {
            (n.id.clock + n.spec_len()) as nat
        } else {
            s0.state(c)
        })
    &&& forall|c: u64, k: int|
        0 <= k < s3.state(c) ==> #[trigger] s3.units(c)[k] == (if c == client && k >= n.id.clock {
            n.unit(k - n.id.clock)
        } else if n.left matches Some(l) && c == l.client && k == s0.item_at(l)->0.id.clock
            + s0.item_at(l)->0.spec_len() - 1 {
            s0.units(c)[k].with_next(Some(n.id))
        } else {
            s0.units(c)[k]
        })
    &&& match n.left {
        Some(_) => new.store.types == old.store.types,
        None => heads_set(old.store.types@, new.store.types@, n.parent, key_view(
            n.parent_sub,
        ), Some(n.id)),
    }
    &&& new.store.client_id == old.store.client_id
    &&& new.store.names == old.store.names
    &&& new.store.pending == old.store.pending
    &&& new.store.pending_ds == old.store.pending_ds
    &&& new.timestamp == old.timestamp
    &&& new.delete_set == old.delete_set
    &&& new.changed == old.changed
    &&& new.merge_blocks == old.merge_blocks
}

/// Number of blocks in the first `upto` lists, or the largest number that
/// fits where there are more.
pub open spec fn count_blocks(clients: Seq<crate::block_store::ClientBlockList>, upto: int) -> nat
    decreases upto,
{
    if upto <= 0 || upto > clients.len() {
        0
    } else {
        let n = count_blocks(clients, upto - 1) + clients[upto - 1].list@.len();
        if n > usize::MAX {
            usize::MAX as nat
        } else {
            n
        }
    }
}

/// The start of the block that holds the unit `origin`, where that unit is
/// known.
pub open spec fn holder(s: BlockStore, origin: Option<ID>) -> Option<ID> {
    match origin {
        Some(o) => if o.clock < s.state(o.client) {
            Some(
                s.list_of(o.client)[crate::block_store::list_pivot(
                    s.list_of(o.client),
                    o.clock as int,
                )].spec_id(),
            )
        } else {
            None
        },
        None => None,
    }
}

/// The item that `item` is to follow, found by passing over the items
/// from `o` on: `left` is the item to follow as far as is known, `before`
/// holds the items passed, `conflicting` those of them passed since `left`
/// was last set, and at most `fuel` items are passed. An item that shares
/// the origin of `item` goes before it if its client is the lower; one
/// whose origin was passed goes before it if that origin was passed before
/// `left` was last set. The search ends at the right neighbour that `item`
/// names, at the end of the container, at an item of the same origin and
/// right origin whose client is not lower, and at an item whose origin
/// was not passed.
pub open spec fn scan(
    s: BlockStore,
    item: Item,
    o: Option<ID>,
    left: Option<ID>,
    before: Seq<ID>,
    conflicting: Seq<ID>,
    fuel: nat,
) -> Option<ID>
    decreases fuel,
{
    if fuel == 0 || o is None || o == item.right || s.item_at(o->0) is None {
        left
    } else {
        let oid = o->0;
        let x = s.item_at(oid)->0;
        let before2 = before.push(oid);
        let conflicting2 = conflicting.push(oid);
        let rest = (fuel - 1) as nat;
        if item.origin == x.origin {
            if oid.client < item.id.client {
                scan(s, item, x.right, Some(oid), before2, Seq::empty(), rest)
            } else if item.right_origin == x.right_origin {
                left
            } else {
                scan(s, item, x.right, left, before2, conflicting2, rest)
            }
        } else {
            match holder(s, x.origin) {
                Some(h) => if before2.contains(h) {
                    if !conflicting2.contains(h) {
                        scan(s, item, x.right, Some(oid), before2, Seq::empty(), rest)
                    } else {
                        scan(s, item, x.right, left, before2, conflicting2, rest)
                    }
                } else {
                    left
                },
                None => left,
            }
        }
    }
}

/// The item that `item` is to follow in `store`.
pub open spec fn insert_left(store: Store, item: Item) -> Option<ID> {
    scan(
        store.blocks,
        item,
        first_after(store, item),
        item.left,
        Seq::empty(),
        Seq::empty(),
        count_blocks(store.blocks.clients@, store.blocks.clients@.len() as int),
    )
}

impl BlockStore {
    /// Number of blocks held, or the largest number that fits where there
    /// are more.
    pub fn block_count(&self) -> (n: usize)
        ensures
            n == count_blocks(self.clients@, self.clients@.len() as int),
    {
        let mut n: usize = 0;
        let mut i: usize = 0;
        while i < self.clients.len()
            invariant
                i <= self.clients.len(),
                n == count_blocks(self.clients@, i as int),
            decreases self.clients.len() - i,
        {
            let len = self.clients[i].list.len();
            if n > usize::MAX - len {
                n = usize::MAX;
            } else {
                n = n + len;
            }
            i += 1;
        }
        n
    }
}

impl Transaction {
    /// The item that `item` is to follow. Where other items were put at
    /// the same place at the same time, all replicas have to order them
    /// alike: the items that stand between the neighbours that `item`
    /// names are passed over as far as they go before it, by their own
    /// origins and, among items of one origin, by their clients. Where
    /// nothing stands between the neighbours, the item follows the left
    /// neighbour it names.
    pub fn find_insert_left(&self, item: &Item) -> (r: Option<ID>)
        requires
            self.wf(),
            item.left matches Some(l) ==> self.store.blocks.item_at(l) is Some,
        ensures
            r == insert_left(self.store, *item),
            r matches Some(l) ==> self.store.blocks.item_at(l) is Some,
            first_after(self.store, *item) == item.right ==> r == item.left,
    {
        let mut left = item.left;
        let mut o = match left {
            Some(l) => match self.store.blocks.get_item(&l) {
                Some(x) => x.right,
                None => None,
            },
            None => self.store.get_head(&item.parent, &item.parent_sub),
        };
        let mut before: Vec<ID> = Vec::new();
        let mut conflicting: Vec<ID> = Vec::new();
        let mut fuel = self.store.blocks.block_count();
        let ghost s = self.store.blocks;
        while fuel > 0
            invariant_except_break
                scan(s, *item, o, left, before@, conflicting@, fuel as nat) == insert_left(
                    self.store,
                    *item,
                ),
            invariant
                self.wf(),
                s == self.store.blocks,
                left matches Some(l) ==> s.item_at(l) is Some,
            ensures
                left matches Some(l) ==> s.item_at(l) is Some,
                left == insert_left(self.store, *item),
            decreases fuel,
        {
            let ghost fuel0 = fuel;
            let ghost before0 = before@;
            let ghost conflicting0 = conflicting@;
            let oid = match o {
                Some(oid) => oid,
                None => {
                    break ;
                },
            };
            if same_id(o, item.right) {
                break ;
            }
            let oitem = match self.store.blocks.get_item(&oid) {
                Some(x) => x,
                None => {
                    break ;
                },
            };
            fuel -= 1;
            before.push(oid);
            conflicting.push(oid);
            if same_id(item.origin, oitem.origin) {
                if oid.client < item.id.client {
                    left = Some(oid);
                    conflicting.clear();
                    assert(conflicting@ =~= Seq::<ID>::empty());
                } else if same_id(item.right_origin, oitem.right_origin) {
                    break ;
                }
            } else {
                proof {
                    lemma_view(s);
                }
                let holder_id = match oitem.origin {
                    Some(oo) => match self.store.blocks.get_block(&oo) {
                        Some(b) => {
                            proof {
                                let list = s.list_of(oo.client);
                                let i = choose|i: int|
                                    crate::block_store::list_holds(list, i, oo.clock as int)
                                        && list[i] == *b;
                                s.lemma_list_wf(oo.client);
                                crate::block_store::lemma_list_pivot(
                                    list,
                                    oo.client,
                                    i,
                                    oo.clock as int,
                                );
                            }
                            Some(b.id())
                        },
                        None => None,
                    },
                    None => None,
                };
                assert(holder_id == holder(s, oitem.origin));
                match holder_id {
                    Some(h) => {
                        if has_id(&before, h) {
                            if !has_id(&conflicting, h) {
                                left = Some(oid);
                                conflicting.clear();
                                assert(conflicting@ =~= Seq::<ID>::empty());
                            }
                        } else {
                            break ;
                        }
                    },
                    None => {
                        break ;
                    },
                }
            }
            o = oitem.right;
        }
        left
    }

    /// Tells the block that starts at `left_ptr` that its right neighbour
    /// now starts at `id`.
    pub fn link_left(&mut self, left_ptr: &ID, id: ID)
        requires
            old(self).store.blocks.wf(),
            old(self).store.blocks.block_at(*left_ptr) is Some,
        ensures
            replaced(
                old(self).store.blocks,
                final(self).store.blocks,
                left_ptr.client,
                old(self).store.blocks.index_at(*left_ptr),
                old(self).store.blocks.block_at(*left_ptr)->0.with_right(Some(id)),
            ),
            *final(self) == (Transaction {
                store: Store { blocks: final(self).store.blocks, ..old(self).store },
                ..*old(self)
            }),
    {
        proof {
            let j = self.store.blocks.lemma_block_at(*left_ptr);
        }
        match self.store.blocks.locate(left_ptr) {
            Some((ci, i)) => {
                proof {
                    let j = self.store.blocks.lemma_block_at(*left_ptr);
                    self.store.blocks.lemma_list_wf(left_ptr.client);
                    let list = self.store.blocks.list_of(left_ptr.client);
                    crate::block_store::lemma_list_pivot(
                        list,
                        left_ptr.client,
                        j,
                        left_ptr.clock as int,
                    );
                    crate::block_store::lemma_list_pivot(
                        list,
                        left_ptr.client,
                        i as int,
                        left_ptr.clock as int,
                    );
                    self.store.blocks.lemma_list_of(left_ptr.client, ci as int);
                }
                self.store.blocks.set_right(ci, i, Some(id));
            },
            None => {},
        }
    }

    /// Puts `item`, the next of its client, into its container and behind
    /// the blocks of its client: it follows the item that
    /// `find_insert_left` gives, and precedes what followed that.
    #[verifier::spinoff_prover]
    pub fn integrate_item(&mut self, item: Item)
        requires
            old(self).wf(),
            item.wf(),
            item.id.clock == old(self).store.blocks.state(item.id.client),
            item.left matches Some(l) ==> old(self).store.blocks.item_at(l) is Some,
        ensures
            final(self).store.blocks.item_at(item.id) is Some,
            placed(*old(self), *final(self), final(self).store.blocks.item_at(item.id)->0),
            final(self).store.blocks.item_at(item.id)->0 == (Item {
                left: final(self).store.blocks.item_at(item.id)->0.left,
                right: final(self).store.blocks.item_at(item.id)->0.right,
                ..item
            }),
            final(self).store.blocks.item_at(item.id)->0.left == insert_left(old(self).store, item),
            first_after(old(self).store, item) == item.right ==> final(self).store.blocks.item_at(
                item.id,
            )->0.left == item.left,
    {
        let ghost t0 = *self;
        let ghost s0 = self.store.blocks;
        let left = self.find_insert_left(&item);
        let right = match left {
            Some(l) => match self.store.blocks.get_item(&l) {
                Some(x) => x.right,
                None => None,
            },
            None => self.store.get_head(&item.parent, &item.parent_sub),
        };
        let mut item = item;
        item.left = left;
        item.right = right;
        let id = item.id;
        let parent = item.parent;
        let key = clone_key(&item.parent_sub);
        let ghost n = item;
        proof {
            lemma_view(s0);
            s0.lemma_list_wf(id.client);
            if s0.block_at(id) is Some {
                let _ = s0.lemma_block_at(id);
            }
            if left is Some {
                let l = left->0;
                let _ = s0.lemma_block_at(l);
                assert(s0.link_ok(s0.item_at(l)->0));
                if right is Some {
                    let _ = s0.lemma_block_at(right->0);
                }
            } else if right is Some {
                let h = right->0;
                assert(exists|i: int| node_at(t0.store.types@, n.parent, key_view(n.parent_sub), i));
                let i = choose|i: int| node_at(t0.store.types@, n.parent, key_view(n.parent_sub), i);
                assert(t0.store.types[i].start == Some(h));
                assert(t0.store.head_ok(i, h));
                let _ = s0.lemma_block_at(h);
            }
            assert(fits(s0, n));
        }
        self.store.blocks.push_block(Block::Item(item));
        let ghost s1 = self.store.blocks;
        match left {
            Some(l) => {
                proof {
                    assert(s1.block_at(l) == s0.block_at(l));
                }
                self.link_left(&l, id);
            },
            None => {
                self.store.set_head(parent, &key, Some(id));
            },
        }
        let ghost s2 = self.store.blocks;
        match right {
            Some(r) => {
                proof {
                    let _ = s1.block_at(r);
                    let _ = s2.block_at(r);
                    assert(s2.block_at(r) is Some);
                }
                self.rewire(&r, id);
            },
            None => {},
        }
        proof {
            let s3 = self.store.blocks;
            lemma_inserted(t0, *self, s1, s2, n);
        }
    }
}

/// The blocks after `n` was put behind the blocks of its client, its left
/// neighbour was told, and its right neighbour was told.
pub open spec fn insert_steps(s0: BlockStore, s1: BlockStore, s2: BlockStore, s3: BlockStore, n: Item) -> bool {
    &&& pushed(s0, s1, Block::Item(n))
    &&& match n.left {
        Some(l) => replaced(s1, s2, l.client, s1.index_at(l), s1.block_at(l)->0.with_right(Some(n.id))),
        None => s2 == s1,
    }
    &&& match n.right {
        Some(r) => replaced(s2, s3, r.client, s2.index_at(r), s2.block_at(r)->0.with_left(Some(n.id))),
        None => s3 == s2,
    }
}

/// Where each block starts, and which item starts where, after the steps
/// of putting `n` in place.
#[verifier::spinoff_prover]
#[verifier::rlimit(40)]
pub proof fn lemma_inserted_items(s0: BlockStore, s1: BlockStore, s2: BlockStore, s3: BlockStore, n: Item)
    requires
        s0.wf(),
        s0.links_wf(),
        n.wf(),
        n.id.clock == s0.state(n.id.client),
        fits(s0, n),
        insert_steps(s0, s1, s2, s3, n),
    ensures
        s3.wf(),
        s3.links_wf(),
        forall|id: ID| #[trigger] s3.item_at(id) == insert_item_at(s0, n, id),
        forall|id: ID| #[trigger] s3.is_start(id) == (s0.is_start(id) || id == n.id),
        forall|c: u64| #[trigger]
            s3.spec_contains_client(c) == (s0.spec_contains_client(c) || c == n.id.client),
        forall|c: u64| #[trigger]
            s3.state(c) == (if c == n.id.client {
                (n.id.clock + n.spec_len()) as nat
            } else {
                s0.state(c)
            }),
{
    let client = n.id.client;
    assert(s1.block_at(n.id) == Some(Block::Item(n)));
    if n.left is Some {
        let l = n.left->0;
        let _ = s0.lemma_block_at(l);
        assert(s0.link_ok(s0.item_at(l)->0));
        assert(s1.block_at(l) == s0.block_at(l));
        let _ = s1.lemma_block_at(l);
    }
    if n.right is Some {
        let r = n.right->0;
        let _ = s0.lemma_block_at(r);
        let _ = s1.block_at(r);
        let _ = s2.block_at(r);
        let _ = s2.lemma_block_at(r);
    }
    assert forall|id: ID| #[trigger] s3.item_at(id) == insert_item_at(s0, n, id) by {
        let _ = s1.block_at(id);
        let _ = s2.block_at(id);
        let _ = s3.block_at(id);
    }
    lemma_links_after_insert(s0, s3, n);
    assert forall|id: ID| #[trigger] s3.is_start(id) == (s0.is_start(id) || id == n.id) by {
        let _ = s1.block_at(id);
        let _ = s2.block_at(id);
        let _ = s3.block_at(id);
    }
    assert forall|c: u64| #[trigger]
        s3.spec_contains_client(c) == (s0.spec_contains_client(c) || c == client) by {
        let _ = s1.spec_contains_client(c);
        let _ = s2.spec_contains_client(c);
    }
    assert forall|c: u64| #[trigger]
        s3.state(c) == (if c == client {
            (n.id.clock + n.spec_len()) as nat
        } else {
            s0.state(c)
        }) by {
        let _ = s1.state(c);
        let _ = s2.state(c);
    }
}

/// The units after the steps of putting `n` in place: those of `n` are
/// new, the last unit of its left neighbour is followed by `n`, and every
/// other unit is as it was.
#[verifier::spinoff_prover]
#[verifier::rlimit(40)]
pub proof fn lemma_inserted_units(s0: BlockStore, s1: BlockStore, s2: BlockStore, s3: BlockStore, n: Item)
    requires
        s0.wf(),
        s0.links_wf(),
        n.wf(),
        n.id.clock == s0.state(n.id.client),
        fits(s0, n),
        insert_steps(s0, s1, s2, s3, n),
    ensures
        forall|c: u64, k: int|
            0 <= k < s3.state(c) ==> #[trigger] s3.units(c)[k] == (if c == n.id.client && k
                >= n.id.clock {
                n.unit(k - n.id.clock)
            } else if n.left matches Some(l) && c == l.client && k == s0.item_at(l)->0.id.clock
                + s0.item_at(l)->0.spec_len() - 1 {
                s0.units(c)[k].with_next(Some(n.id))
            } else {
                s0.units(c)[k]
            }),
{
    let client = n.id.client;
    lemma_view(s0);
    if n.left is Some {
        let l = n.left->0;
        let _ = s0.lemma_block_at(l);
        assert(s0.link_ok(s0.item_at(l)->0));
        assert(s1.block_at(l) == s0.block_at(l));
        lemma_block_extent(s0, l);
    }
    if n.right is Some {
        let r = n.right->0;
        let _ = s0.lemma_block_at(r);
        let _ = s1.block_at(r);
        let _ = s2.block_at(r);
        lemma_block_extent(s2, r);
    }
    assert forall|c: u64, k: int| 0 <= k < s3.state(c) implies #[trigger] s3.units(c)[k] == (if c
        == client && k >= n.id.clock {
        n.unit(k - n.id.clock)
    } else if n.left matches Some(l) && c == l.client && k == s0.item_at(l)->0.id.clock
        + s0.item_at(l)->0.spec_len() - 1 {
        s0.units(c)[k].with_next(Some(n.id))
    } else {
        s0.units(c)[k]
    }) by {
        assert(s1.state(c) == s3.state(c));
        assert(s2.state(c) == s3.state(c));
        let u1 = s1.units(c)[k];
        let u2 = s2.units(c)[k];
        if n.left is Some {
            let l = n.left->0;
            let lb = s0.block_at(l)->0;
            if c == l.client && lb.clock() <= k < lb.spec_clock_end() {
                assert(s0.units(c)[k] == lb.unit(k - lb.clock()));
            }
        }
        if n.right is Some {
            let r = n.right->0;
            let rb = s2.block_at(r)->0;
            if c == r.client && rb.clock() <= k < rb.spec_clock_end() {
                assert(s2.units(c)[k] == rb.unit(k - rb.clock()));
            }
        }
    }
}

/// Putting `n` in place gives `placed`.
#[verifier::spinoff_prover]
pub proof fn lemma_inserted(t0: Transaction, t3: Transaction, s1: BlockStore, s2: BlockStore, n: Item)
    requires
        t0.wf(),
        n.wf(),
        n.id.clock == t0.store.blocks.state(n.id.client),
        fits(t0.store.blocks, n),
        n.left is None ==> n.right == t0.store.head_of(n.parent, key_view(n.parent_sub)),
        insert_steps(t0.store.blocks, s1, s2, t3.store.blocks, n),
        match n.left {
            Some(l) => t3.store.types == t0.store.types,
            None => heads_set(
                t0.store.types@,
                t3.store.types@,
                n.parent,
                key_view(n.parent_sub),
                Some(n.id),
            ),
        },
        t3.store.client_id == t0.store.client_id,
        t3.store.names == t0.store.names,
        t3.store.pending == t0.store.pending,
        t3.store.pending_ds == t0.store.pending_ds,
        t3.timestamp == t0.timestamp,
        t3.delete_set == t0.delete_set,
        t3.changed == t0.changed,
        t3.merge_blocks == t0.merge_blocks,
    ensures
        placed(t0, t3, n),
        t3.store.blocks.item_at(n.id) == Some(n),
{
    let s0 = t0.store.blocks;
    let s3 = t3.store.blocks;
    let client = n.id.client;
    lemma_inserted_items(s0, s1, s2, s3, n);
    lemma_inserted_units(s0, s1, s2, s3, n);
    lemma_placed_wf(t0, t3, n);
}

/// The store is sound once `n` is in place.
#[verifier::spinoff_prover]
pub proof fn lemma_placed_wf(t0: Transaction, t3: Transaction, n: Item)
    requires
        t0.wf(),
        n.wf(),
        fits(t0.store.blocks, n),
        n.left is None ==> n.right == t0.store.head_of(n.parent, key_view(n.parent_sub)),
        t3.store.blocks.wf(),
        t3.store.blocks.links_wf(),
        forall|id: ID| #[trigger]
            t3.store.blocks.item_at(id) == insert_item_at(t0.store.blocks, n, id),
        forall|id: ID| #[trigger]
            t3.store.blocks.is_start(id) == (t0.store.blocks.is_start(id) || id == n.id),
        forall|c: u64| #[trigger]
            t3.store.blocks.state(c) == (if c == n.id.client {
                (n.id.clock + n.spec_len()) as nat
            } else {
                t0.store.blocks.state(c)
            }),
        n.id.clock == t0.store.blocks.state(n.id.client),
        match n.left {
            Some(l) => t3.store.types == t0.store.types,
            None => heads_set(
                t0.store.types@,
                t3.store.types@,
                n.parent,
                key_view(n.parent_sub),
                Some(n.id),
            ),
        },
        t3.store.pending == t0.store.pending,
        t3.store.pending_ds == t0.store.pending_ds,
        t3.timestamp == t0.timestamp,
        t3.delete_set == t0.delete_set,
        t3.changed == t0.changed,
    ensures
        t3.wf(),
{
    let s0 = t0.store.blocks;
    let s3 = t3.store.blocks;
    let client = n.id.client;
    let types0 = t0.store.types@;
    let types3 = t3.store.types@;
    assert(t3.store.heads_wf()) by {
        assert(nodes_unique(types3));
        assert forall|i: int| 0 <= i < t3.store.types.len() implies match (
        #[trigger] t3.store.types[i]).start {
            Some(h) => t3.store.head_ok(i, h),
            None => true,
        } by {
            match types3[i].start {
                Some(h) => {
                    assert(s3.item_at(h) == insert_item_at(s0, n, h));
                    assert(s3.item_at(n.id) == insert_item_at(s0, n, n.id));
                    if i < types0.len() && types3[i] == types0[i] {
                        assert(t0.store.types[i].start == Some(h));
                        assert(t0.store.head_ok(i, h));
                        if n.right == Some(h) {
                            if n.left is Some {
                                let _ = s0.lemma_block_at(n.left->0);
                                assert(s0.link_ok(s0.item_at(n.left->0)->0));
                            } else {
                                let j = choose|j: int|
                                    node_at(types0, n.parent, key_view(n.parent_sub), j);
                                assert(node_at(types0, n.parent, key_view(n.parent_sub), j));
                                assert(t0.store.head_ok(j, h));
                                assert(node_at(types0, n.parent, key_view(n.parent_sub), i));
                            }
                        }
                    }
                },
                None => {},
            }
        }
    }
    assert forall|c: u64| #[trigger] t3.stamp_ok(c) by {
        assert(t0.stamp_ok(c));
        let t = ID { client: c, clock: t3.timestamp.spec_get(c) };
        assert(s3.is_start(t) == (s0.is_start(t) || t == n.id));
        assert(s3.state(c) == (if c == client {
            (n.id.clock + n.spec_len()) as nat
        } else {
            s0.state(c)
        }));
    }
}

/// The unit `now` is followed by what followed the unit `was`, or by a
/// unit that the store `s0` does not know: the order of the units that `s0`
/// knows is kept, others may have come between them.
pub open spec fn follows_on(s0: BlockStore, was: Unit, now: Unit) -> bool {
    match (was, now) {
        (Unit::Item(a), Unit::Item(b)) => b.next == a.next || (b.next matches Some(z) && z.clock
            >= s0.state(z.client)),
        _ => true,
    }
}

/// A container starts with `now`, which is what it started with, `was`, or
/// a unit that the store `s0` does not know.
pub open spec fn starts_on(s0: BlockStore, was: Option<ID>, now: Option<ID>) -> bool {
    now == was || (now matches Some(z) && z.clock >= s0.state(z.client))
}

/// `new` has grown out of `old`: every client is known at least as far,
/// every unit that was known is as it was but for the unit that follows it,
/// which is the unit that followed it or one that has come since, every
/// container starts with what it started with or with a unit that has come
/// since,
/// every block start is still one, and what the transaction and the store
/// keep beside the blocks and the container starts is as it was.
pub open spec fn grown(old: Transaction, new: Transaction) -> bool {
    let s0 = old.store.blocks;
    let s1 = new.store.blocks;
    &&& new.wf()
    &&& forall|c: u64| s0.state(c) <= #[trigger] s1.state(c)
    &&& forall|c: u64| s0.spec_contains_client(c) ==> #[trigger] s1.spec_contains_client(c)
    &&& forall|c: u64, k: int|
        0 <= k < s0.state(c) ==> (#[trigger] s1.units(c)[k]).with_next(None) == s0.units(
            c,
        )[k].with_next(None)
    &&& forall|c: u64, k: int|
        0 <= k < s0.state(c) ==> follows_on(s0, s0.units(c)[k], #[trigger] s1.units(c)[k])
    &&& forall|p: TypePtr, sub: Option<Seq<char>>|
        starts_on(s0, old.store.head_of(p, sub), #[trigger] new.store.head_of(p, sub))
    &&& forall|id: ID| s0.is_start(id) ==> #[trigger] s1.is_start(id)
    &&& forall|p: TypePtr| old.store.spec_has_type(p) ==> #[trigger] new.store.spec_has_type(p)
    &&& new.store.client_id == old.store.client_id
    &&& new.store.names == old.store.names
    &&& new.store.pending == old.store.pending
    &&& new.store.pending_ds == old.store.pending_ds
    &&& new.timestamp == old.timestamp
    &&& new.delete_set == old.delete_set
    &&& new.changed == old.changed
    &&& old.merge_blocks@.is_prefix_of(new.merge_blocks@)
}

/// A store has grown out of itself.
pub proof fn lemma_grown_same(t: Transaction)
    requires
        t.wf(),
    ensures
        grown(t, t),
{
}

/// Growth after growth is growth.
pub proof fn lemma_grown_compose(t0: Transaction, t1: Transaction, t2: Transaction)
    requires
        grown(t0, t1),
        grown(t1, t2),
    ensures
        grown(t0, t2),
{
    let s0 = t0.store.blocks;
    let s1 = t1.store.blocks;
    let s2 = t2.store.blocks;
    assert forall|c: u64| s0.state(c) <= #[trigger] s2.state(c) by {
        assert(s0.state(c) <= s1.state(c));
    }
    assert forall|c: u64| s0.spec_contains_client(c) implies #[trigger] s2.spec_contains_client(
        c,
    ) by {
        assert(s1.spec_contains_client(c));
    }
    assert forall|c: u64, k: int| 0 <= k < s0.state(c) implies (#[trigger] s2.units(
        c,
    )[k]).with_next(None) == s0.units(c)[k].with_next(None) by {
        assert(s0.state(c) <= s1.state(c));
        assert(s1.units(c)[k].with_next(None) == s0.units(c)[k].with_next(None));
    }
    assert forall|id: ID| s0.is_start(id) implies #[trigger] s2.is_start(id) by {
        assert(s1.is_start(id));
    }
    assert forall|p: TypePtr| t0.store.spec_has_type(p) implies #[trigger] t2.store.spec_has_type(
        p,
    ) by {
        assert(t1.store.spec_has_type(p));
    }
}

/// Cuts leave the store grown, if not larger.
pub proof fn lemma_cuts_grown(t0: Transaction, t1: Transaction)
    requires
        same_but_cuts(t0, t1),
    ensures
        grown(t0, t1),
        forall|c: u64| #[trigger] t1.store.blocks.state(c) == t0.store.blocks.state(c),
{
    let s0 = t0.store.blocks;
    let s1 = t1.store.blocks;
    assert forall|c: u64, k: int| 0 <= k < s0.state(c) implies (#[trigger] s1.units(
        c,
    )[k]).with_next(None) == s0.units(c)[k].with_next(None) by {
        assert(s1.units(c) == s0.units(c));
    }
    assert forall|c: u64| s0.state(c) <= #[trigger] s1.state(c) by {}
}

/// An item put in place leaves the store grown.
pub proof fn lemma_placed_grown(t0: Transaction, t1: Transaction, n: Item)
    requires
        t0.wf(),
        placed(t0, t1, n),
    ensures
        grown(t0, t1),
        t1.store.blocks.state(n.id.client) == n.id.clock + n.spec_len(),
        forall|c: u64|
            c != n.id.client ==> #[trigger] t1.store.blocks.state(c) == t0.store.blocks.state(c),
        forall|k: int|
            n.id.clock <= k < n.id.clock + n.spec_len() ==> #[trigger] t1.store.blocks.units(
                n.id.client,
            )[k] == n.unit(k - n.id.clock),
{
    let s0 = t0.store.blocks;
    let s1 = t1.store.blocks;
    lemma_view(s0);
    assert forall|c: u64| s0.state(c) <= #[trigger] s1.state(c) by {}
    assert forall|c: u64, k: int| 0 <= k < s0.state(c) implies (#[trigger] s1.units(
        c,
    )[k]).with_next(None) == s0.units(c)[k].with_next(None) by {
        assert(s0.state(c) <= s1.state(c));
    }
    assert forall|p: TypePtr| t0.store.spec_has_type(p) implies #[trigger] t1.store.spec_has_type(
        p,
    ) by {
        match p {
            TypePtr::Named(_) => {},
            TypePtr::Id(t) => {
                assert(s1.item_at(t) == insert_item_at(s0, n, t));
            },
        }
    }
}

/// A block whose deletion releases nothing: a placeholder, a deleted item,
/// or an item whose content owns no further state.
pub open spec fn plain_block(b: Block) -> bool {
    match b {
        Block::Item(x) => x.deleted || !x.content.spec_has_cascade(),
        Block::GC(_) => true,
    }
}

/// No unit of the store is live and owns further state.
pub open spec fn plain_store(s: BlockStore) -> bool {
    forall|c: u64, k: int| 0 <= k < s.state(c) ==> !live_cascade(#[trigger] s.units(c)[k])
}

impl BlockStore {
    /// Whether no unit of the store is live and owns further state.
    pub fn is_plain(&self) -> (r: bool)
        requires
            self.wf(),
        ensures
            r == plain_store(*self),
    {
        let mut ci: usize = 0;
        while ci < self.clients.len()
            invariant
                self.wf(),
                ci <= self.clients.len(),
                forall|k: int, j: int|
                    0 <= k < ci && 0 <= j < self.clients[k].list@.len() ==> plain_block(
                        #[trigger] self.clients[k].list@[j],
                    ),
            decreases self.clients.len() - ci,
        {
            let mut i: usize = 0;
            while i < self.clients[ci].list.len()
                invariant
                    self.wf(),
                    ci < self.clients.len(),
                    i <= self.clients[ci as int].list@.len(),
                    forall|j: int|
                        0 <= j < i ==> plain_block(#[trigger] self.clients[ci as int].list@[j]),
                decreases self.clients[ci as int].list@.len() - i,
            {
                if !self.clients[ci].list[i].is_plain() {
                    proof {
                        let client = self.clients[ci as int].client;
                        let b = self.clients[ci as int].list@[i as int];
                        assert(self.has(client, ci as int));
                        self.lemma_list_of(client, ci as int);
                        assert(b.wf());
                        self.lemma_unit(client, i as int, b.clock() as int);
                        assert(live_cascade(self.units(client)[b.clock() as int]));
                    }
                    return false;
                }
                i += 1;
            }
            ci += 1;
        }
        proof {
            lemma_view(*self);
            assert forall|c: u64, k: int| 0 <= k < self.state(c) implies !live_cascade(
                #[trigger] self.units(c)[k],
            ) by {
                assert(self.spec_contains_client(c));
                let i = choose|i: int| self.has(c, i);
                self.lemma_list_of(c, i);
                crate::block_store::lemma_list_covered(self.list_of(c), c, k);
                let j = crate::block_store::list_pivot(self.list_of(c), k);
                self.lemma_unit(c, j, k);
                assert(plain_block(self.clients[i].list@[j]));
            }
        }
        true
    }
}

/// A plain item put in place leaves a plain store plain.
pub proof fn lemma_placed_plain(t0: Transaction, t1: Transaction, n: Item)
    requires
        t0.wf(),
        placed(t0, t1, n),
        plain_store(t0.store.blocks),
        plain_block(Block::Item(n)),
    ensures
        plain_store(t1.store.blocks),
{
    let s0 = t0.store.blocks;
    let s1 = t1.store.blocks;
    lemma_view(s0);
    assert forall|c: u64, k: int| 0 <= k < s1.state(c) implies !live_cascade(
        #[trigger] s1.units(c)[k],
    ) by {
        if !(c == n.id.client && k >= n.id.clock) {
            assert(k < s0.state(c));
            assert(!live_cascade(s0.units(c)[k]));
        }
    }
}

/// The unit at clock `k` of the client of `block` is the unit that
/// `block` holds at that clock, but for the unit that follows it, or a
/// tombstone.
pub open spec fn taken_from(s: BlockStore, block: Block, k: int) -> bool {
    let u = s.units(block.spec_id().client)[k];
    u is Tombstone || u.with_next(None) == block.unit(k - block.clock()).with_next(None)
}

/// Every unit of the client of `block` that `new` knows and `old` did
/// not is taken from `block`.
pub open spec fn all_taken(old: BlockStore, new: BlockStore, block: Block) -> bool {
    forall|k: int|
        old.state(block.spec_id().client) <= k < new.state(block.spec_id().client)
            ==> #[trigger] taken_from(new, block, k)
}

/// The block that holds the unit `id` is a placeholder.
pub open spec fn held_by_gc(s: BlockStore, id: ID) -> bool {
    id.clock < s.state(id.client) && s.list_of(id.client)[crate::block_store::list_pivot(
        s.list_of(id.client),
        id.clock as int,
    )] is GC
}

/// Something that `item` depends on is gone for good: the block that
/// holds its origin or the item that defines its container is a
/// placeholder, or no item starts at its right origin.
pub open spec fn gone_in(s: BlockStore, item: Item) -> bool {
    ||| (item.origin is Some && held_by_gc(s, item.origin->0))
    ||| (item.right_origin is Some && s.item_at(item.right_origin->0) is None)
    ||| (item.parent is Id && held_by_gc(s, item.parent->Id_0))
}

/// `item` with the neighbours that its origins name in `s`: to the left
/// the block that holds its origin, to the right its right origin.
pub open spec fn hinted(s: BlockStore, item: Item) -> Item {
    Item { left: holder(s, item.origin), right: item.right_origin, ..item }
}

/// `new` is what placing `item` in `old` gives, by way of `mid`: `mid` is
/// `old` cut at the right origin of `item` and behind its origin; `new`
/// is `mid` with a placeholder for `item` behind the blocks of its client
/// where something that `item` depends on is gone for good, and else with
/// `item` put in place behind the item that the search among the items
/// written at the same place gives.
#[verifier::opaque]
pub open spec fn landed(old: Transaction, mid: Transaction, new: Transaction, item: Item) -> bool {
    &&& same_but_cuts(old, mid)
    &&& forall|id: ID| #[trigger]
        mid.store.blocks.is_start(id) == (old.store.blocks.is_start(id) || (item.right_origin
            == Some(id) && id.clock < old.store.blocks.state(id.client)) || (item.origin is Some
            && id == (ID {
            client: item.origin->0.client,
            clock: (item.origin->0.clock + 1) as u32,
        }) && item.origin->0.clock + 1 < old.store.blocks.state(id.client)))
    &&& if gone_in(mid.store.blocks, item) {
        &&& pushed(
            mid.store.blocks,
            new.store.blocks,
            Block::GC(BlockRange { id: item.id, len: item.spec_len() as u32 }),
        )
        &&& new == (Transaction {
            store: Store { blocks: new.store.blocks, ..mid.store },
            ..mid
        })
    } else {
        &&& new.store.blocks.item_at(item.id) is Some
        &&& placed(mid, new, new.store.blocks.item_at(item.id)->0)
        &&& new.store.blocks.item_at(item.id)->0 == (Item {
            left: insert_left(mid.store, hinted(mid.store.blocks, item)),
            right: new.store.blocks.item_at(item.id)->0.right,
            ..item
        })
    }
}

/// `rest` is `item` without its first `offset` units: `item` itself where
/// there are none to leave out, and else the right part of `item` cut
/// behind them.
pub open spec fn cut_off(item: Item, offset: nat, rest: Item) -> bool {
    if offset == 0 {
        rest == item
    } else {
        rest.right_origin == item.right_origin && exists|a: Block|
            split_of(Block::Item(item), offset, a, Block::Item(rest))
    }
}

/// `new` is what placing `block` in `old` gives: `old` where the block
/// waits for a unit or is known already; else `old` with what is not known
/// of the block, a placeholder behind the blocks of its client, an item
/// as `landed` has it.
#[verifier::opaque]
pub open spec fn block_placed(old: Transaction, new: Transaction, block: Block) -> bool {
    let state = old.store.blocks.state(block.spec_id().client);
    if old.waits_for(block) is Some || block.spec_clock_end() <= state {
        new == old
    } else {
        match block {
            Block::GC(range) => pushed(
                old.store.blocks,
                new.store.blocks,
                Block::GC(
                    BlockRange {
                        id: ID { client: range.id.client, clock: state as u32 },
                        len: (range.id.clock + range.len - state) as u32,
                    },
                ),
            ) && new == (Transaction {
                store: Store { blocks: new.store.blocks, ..old.store },
                ..old
            }),
            Block::Item(item) => exists|rest: Item, mid: Transaction|
                cut_off(item, (state - item.id.clock) as nat, rest) && landed(old, mid, new, rest),
        }
    }
}

/// `new` is what placing the blocks of `blocks` in `old`, one after the
/// other, gives: each as `block_placed` has it.
pub open spec fn placed_seq(old: Transaction, new: Transaction, blocks: Seq<Block>) -> bool
    decreases blocks.len(),
{
    if blocks.len() == 0 {
        new == old
    } else {
        exists|mid: Transaction|
            placed_seq(old, mid, blocks.drop_last()) && block_placed(mid, new, blocks.last())
    }
}

/// One block more placed is `placed_seq` of one block more.
pub proof fn lemma_placed_seq_step(
    old: Transaction,
    mid: Transaction,
    new: Transaction,
    blocks: Seq<Block>,
    b: Block,
)
    requires
        placed_seq(old, mid, blocks),
        block_placed(mid, new, b),
    ensures
        placed_seq(old, new, blocks.push(b)),
{
    let more = blocks.push(b);
    assert(more.drop_last() =~= blocks);
    assert(more.last() == b);
    assert(placed_seq(old, mid, more.drop_last()) && block_placed(mid, new, more.last()));
}

/// What became of a block that was to be placed.
pub enum Placement {
    /// The store now knows every unit of the block.
    Done,
    /// The block waits for the unit `clock` of `client`, which is not known
    /// yet.
    Blocked { block: Block, client: u64, clock: u32 },
}

impl Transaction {
    /// Puts a placeholder behind the blocks of its client.
    pub fn push_gc(&mut self, range: BlockRange)
        requires
            old(self).wf(),
            range.len >= 1,
            range.id.clock + range.len <= u32::MAX,
            range.id.clock == old(self).store.blocks.state(range.id.client),
        ensures
            grown(*old(self), *final(self)),
            pushed(old(self).store.blocks, final(self).store.blocks, Block::GC(range)),
            *final(self) == (Transaction {
                store: Store { blocks: final(self).store.blocks, ..old(self).store },
                ..*old(self)
            }),
            final(self).store.blocks.state(range.id.client) == range.id.clock + range.len,
            final(self).store.types == old(self).store.types,
            forall|c: u64|
                c != range.id.client ==> #[trigger] final(self).store.blocks.state(c) == old(
                    self,
                ).store.blocks.state(c),
            plain_store(old(self).store.blocks) ==> plain_store(final(self).store.blocks),
            forall|k: int|
                range.id.clock <= k < range.id.clock + range.len ==> (
                #[trigger] final(self).store.blocks.units(range.id.client)[k]) is Tombstone,
    {
        let ghost s0 = self.store.blocks;
        proof {
            lemma_view(s0);
            if s0.block_at(range.id) is Some {
                let _ = s0.lemma_block_at(range.id);
            }
        }
        self.store.blocks.push_block(Block::GC(range));
        proof {
            let s1 = self.store.blocks;
            assert forall|id: ID| #[trigger] s1.item_at(id) == s0.item_at(id) by {
                let _ = s1.block_at(id);
            }
            assert forall|id: ID|
                match #[trigger] s1.item_at(id) {
                    Some(x) => s1.link_ok(x),
                    None => true,
                } by {
                if s1.item_at(id) is Some {
                    let x = s1.item_at(id)->0;
                    assert(s0.item_at(id) == Some(x));
                    assert(s0.link_ok(x));
                    if x.right is Some {
                        assert(s1.item_at(x.right->0) == s0.item_at(x.right->0));
                    }
                    if x.left is Some {
                        assert(s1.item_at(x.left->0) == s0.item_at(x.left->0));
                    }
                }
            }
            assert(self.store.heads_wf()) by {
                assert forall|i: int| 0 <= i < self.store.types.len() implies match (
                #[trigger] self.store.types[i]).start {
                    Some(h) => self.store.head_ok(i, h),
                    None => true,
                } by {
                    match old(self).store.types[i].start {
                        Some(h) => {
                            assert(old(self).store.head_ok(i, h));
                            assert(s1.item_at(h) == s0.item_at(h));
                        },
                        None => {},
                    }
                }
            }
            assert forall|c: u64| #[trigger] self.stamp_ok(c) by {
                assert(old(self).stamp_ok(c));
                let t = ID { client: c, clock: self.timestamp.spec_get(c) };
                let _ = s1.block_at(t);
                let _ = s1.state(c);
            }
            assert forall|c: u64| s0.state(c) <= #[trigger] s1.state(c) by {}
            assert forall|c: u64, k: int| 0 <= k < s0.state(c) implies (#[trigger] s1.units(
                c,
            )[k]).with_next(None) == s0.units(c)[k].with_next(None) by {
                assert(s0.state(c) <= s1.state(c));
            }
            assert forall|id: ID| s0.is_start(id) implies #[trigger] s1.is_start(id) by {
                let _ = s1.block_at(id);
            }
            if plain_store(s0) {
                assert forall|c: u64, k: int| 0 <= k < s1.state(c) implies !live_cascade(
                    #[trigger] s1.units(c)[k],
                ) by {
                    if !(c == range.id.client && k >= range.id.clock) {
                        assert(k < s0.state(c));
                        assert(!live_cascade(s0.units(c)[k]));
                    }
                }
            }
            assert forall|p: TypePtr| old(self).store.spec_has_type(p) implies #[trigger] self.store.spec_has_type(
                p,
            ) by {
                match p {
                    TypePtr::Named(_) => {},
                    TypePtr::Id(t) => {
                        assert(s1.item_at(t) == s0.item_at(t));
                    },
                }
            }
        }
    }

    /// The unit that `block` waits for, if it waits for one: the unit before
    /// it where its client is not known that far, or else, for an item that
    /// starts where its client's known history ends, the first unknown unit
    /// of the client of its origin, then of its right origin, then of the
    /// item that defines its container.
    pub open spec fn waits_for(&self, block: Block) -> Option<(u64, u32)> {
        let s = self.store.blocks;
        let id = block.spec_id();
        if id.clock > s.state(id.client) {
            Some((id.client, (id.clock - 1) as u32))
        } else if block.spec_clock_end() <= s.state(id.client) {
            None
        } else {
            match block {
                Block::GC(_) => None,
                Block::Item(item) => {
                    if id.clock == s.state(id.client) && item.origin is Some
                        && item.origin->0.clock >= s.state(item.origin->0.client) {
                        Some((item.origin->0.client, s.state(item.origin->0.client) as u32))
                    } else if item.right_origin is Some && item.right_origin->0.clock >= s.state(
                        item.right_origin->0.client,
                    ) {
                        Some(
                            (
                                item.right_origin->0.client,
                                s.state(item.right_origin->0.client) as u32,
                            ),
                        )
                    } else if item.parent is Id && item.parent->Id_0.clock >= s.state(
                        item.parent->Id_0.client,
                    ) {
                        Some(
                            (item.parent->Id_0.client, s.state(item.parent->Id_0.client) as u32),
                        )
                    } else {
                        None
                    }
                },
            }
        }
    }

    /// The unit that `block` waits for, if it waits for one.
    pub fn missing(&self, block: &Block) -> (r: Option<(u64, u32)>)
        requires
            self.wf(),
            block.wf(),
        ensures
            r == self.waits_for(*block),
    {
        let id = block.id();
        let state = self.store.blocks.get_state(&id.client);
        if id.clock > state {
            return Some((id.client, id.clock - 1));
        }
        if block.clock_end() <= state {
            return None;
        }
        match block {
            Block::GC(_) => None,
            Block::Item(item) => {
                if id.clock == state {
                    match item.origin {
                        Some(o) => {
                            let os = self.store.blocks.get_state(&o.client);
                            if o.clock >= os {
                                return Some((o.client, os));
                            }
                        },
                        None => {},
                    }
                }
                match item.right_origin {
                    Some(ro) => {
                        let rs = self.store.blocks.get_state(&ro.client);
                        if ro.clock >= rs {
                            return Some((ro.client, rs));
                        }
                    },
                    None => {},
                }
                match item.parent {
                    TypePtr::Id(pid) => {
                        let ps = self.store.blocks.get_state(&pid.client);
                        if pid.clock >= ps {
                            return Some((pid.client, ps));
                        }
                    },
                    TypePtr::Named(_) => {},
                }
                None
            },
        }
    }

    /// Places `item`, the next of its client, of which the store knows all
    /// that it depends on: between the blocks that end at its origin and
    /// start at its right origin, which are cut to that end; as a
    /// placeholder where its origin, right origin or container is gone for
    /// good.
    #[verifier::spinoff_prover]
    pub fn place_item(&mut self, item: Item)
        requires
            old(self).wf(),
            item.wf(),
            item.id.clock == old(self).store.blocks.state(item.id.client),
            item.origin matches Some(o) ==> o.clock < old(self).store.blocks.state(o.client),
        ensures
            grown(*old(self), *final(self)),
            final(self).store.blocks.state(item.id.client) == item.id.clock + item.spec_len(),
            forall|c: u64|
                c != item.id.client ==> #[trigger] final(self).store.blocks.state(c) == old(
                    self,
                ).store.blocks.state(c),
            plain_store(old(self).store.blocks) && plain_block(Block::Item(item)) ==> plain_store(
                final(self).store.blocks,
            ),
            forall|k: int|
                item.id.clock <= k < item.id.clock + item.spec_len() ==> #[trigger] taken_from(
                    final(self).store.blocks,
                    Block::Item(item),
                    k,
                ),
            exists|mid: Transaction| landed(*old(self), mid, *final(self), item),
    {
        let ghost t0 = *self;
        let mut item = item;
        let ghost item1 = item;
        let len = item.len();
        let mut gone = false;
        proof {
            lemma_view(t0.store.blocks);
        }
        match item.right_origin {
            Some(ro) => {
                self.find_index_clean_start(&ro.client, ro.clock);
            },
            None => {},
        }
        let ghost t1 = *self;
        proof {
            lemma_view(t1.store.blocks);
        }
        match item.origin {
            Some(o) => {
                assert(o.clock < t1.store.blocks.state(o.client));
                self.find_index_clean_start(&o.client, o.clock + 1);
            },
            None => {},
        }
        let ghost t2 = *self;
        proof {
            lemma_cuts_grown(t0, t1);
            lemma_cuts_grown(t1, t2);
            lemma_grown_compose(t0, t1, t2);
            lemma_cuts_compose(t0, t1, t2);
            lemma_view(t2.store.blocks);
            if plain_store(t0.store.blocks) {
                assert forall|c: u64, k: int|
                    0 <= k < t2.store.blocks.state(c) implies !live_cascade(
                    #[trigger] t2.store.blocks.units(c)[k],
                ) by {
                    assert(t1.store.blocks.units(c) == t0.store.blocks.units(c));
                    assert(t2.store.blocks.units(c) == t1.store.blocks.units(c));
                    assert(!live_cascade(t0.store.blocks.units(c)[k]));
                }
            }
        }
        let left = match item.origin {
            Some(o) => match self.store.blocks.get_block(&o) {
                Some(b) => match b {
                    Block::Item(x) => {
                        proof {
                            let list = t2.store.blocks.list_of(o.client);
                            let i = choose|i: int|
                                crate::block_store::list_holds(list, i, o.clock as int) && list[i]
                                    == *b;
                            t2.store.blocks.lemma_block_index(o.client, i);
                            t2.store.blocks.lemma_list_wf(o.client);
                            crate::block_store::lemma_list_pivot(list, o.client, i, o.clock as int);
                        }
                        Some(x.id)
                    },
                    Block::GC(_) => {
                        proof {
                            let list = t2.store.blocks.list_of(o.client);
                            let i = choose|i: int|
                                crate::block_store::list_holds(list, i, o.clock as int) && list[i]
                                    == *b;
                            t2.store.blocks.lemma_list_wf(o.client);
                            crate::block_store::lemma_list_pivot(list, o.client, i, o.clock as int);
                        }
                        gone = true;
                        None
                    },
                },
                None => None,
            },
            None => None,
        };
        let right = match item.right_origin {
            Some(ro) => match self.store.blocks.get_item(&ro) {
                Some(x) => Some(ro),
                None => {
                    gone = true;
                    None
                },
            },
            None => None,
        };
        let ghost gone0 = gone;
        match item.parent {
            TypePtr::Id(pid) => match self.store.blocks.get_block(&pid) {
                Some(b) => {
                    proof {
                        let list = t2.store.blocks.list_of(pid.client);
                        let i = choose|i: int|
                            crate::block_store::list_holds(list, i, pid.clock as int) && list[i]
                                == *b;
                        t2.store.blocks.lemma_list_wf(pid.client);
                        crate::block_store::lemma_list_pivot(list, pid.client, i, pid.clock as int);
                    }
                    match b {
                        Block::Item(_) => {},
                        Block::GC(_) => {
                            gone = true;
                        },
                    }
                },
                None => {},
            },
            TypePtr::Named(_) => {},
        }
        proof {
            assert(left == holder(t2.store.blocks, item1.origin) || gone0);
            assert(gone == gone_in(t2.store.blocks, item1));
        }
        if gone {
            self.push_gc(BlockRange { id: item.id, len });
            proof {
                lemma_grown_compose(t0, t2, *self);
                reveal(landed);
                assert(landed(t0, t2, *self, item1));
            }
        } else {
            item.left = left;
            item.right = right;
            let ghost iid = item.id;
            let ghost hint = item;
            self.integrate_item(item);
            proof {
                let n = self.store.blocks.item_at(iid)->0;
                lemma_placed_grown(t2, *self, n);
                lemma_grown_compose(t0, t2, *self);
                if plain_store(t0.store.blocks) && plain_block(Block::Item(item1)) {
                    lemma_placed_plain(t2, *self, n);
                }
                assert forall|k: int|
                    item1.id.clock <= k < item1.id.clock + item1.spec_len() implies #[trigger] taken_from(
                    self.store.blocks,
                    Block::Item(item1),
                    k,
                ) by {
                    assert(self.store.blocks.units(iid.client)[k] == n.unit(k - n.id.clock));
                }
                assert(hint == hinted(t2.store.blocks, item1));
                reveal(landed);
                assert(landed(t0, t2, *self, item1));
            }
        }
    }

    /// Places `block` if the store knows all that it depends on: what the
    /// store knows of it already is left out, the rest is put behind the
    /// blocks of its client, an item between the blocks that end at its
    /// origin and start at its right origin. An item whose origin, right
    /// origin or container is gone for good goes in as a placeholder.
    /// Where the block waits for a unit, nothing changes.
    #[verifier::spinoff_prover]
    pub fn integrate_block(&mut self, block: Block) -> (r: Placement)
        requires
            old(self).wf(),
            block.wf(),
        ensures
            grown(*old(self), *final(self)),
            match old(self).waits_for(block) {
                Some((client, clock)) => r == (Placement::Blocked { block, client, clock })
                    && *final(self) == *old(self),
                None => r is Done && final(self).store.blocks.state(block.spec_id().client) >= block.spec_clock_end()
                    && final(self).store.blocks.state(block.spec_id().client) >= old(self).store.blocks.state(block.spec_id().client),
            },
            forall|c: u64|
                c != block.spec_id().client ==> #[trigger] final(self).store.blocks.state(c) == old(
                    self,
                ).store.blocks.state(c),
            plain_store(old(self).store.blocks) && plain_block(block) ==> plain_store(
                final(self).store.blocks,
            ),
            all_taken(old(self).store.blocks, final(self).store.blocks, block),
            block_placed(*old(self), *final(self), block),
            old(self).waits_for(block) is None ==> final(self).store.blocks.state(
                block.spec_id().client,
            ) == (if block.spec_clock_end() <= old(self).store.blocks.state(block.spec_id().client) {
                old(self).store.blocks.state(block.spec_id().client)
            } else {
                block.spec_clock_end()
            }),
    {
        let ghost t0 = *self;
        proof {
            reveal(block_placed);
            lemma_grown_same(t0);
            lemma_view(t0.store.blocks);
        }
        match self.missing(&block) {
            Some((client, clock)) => {
                return Placement::Blocked { block, client, clock };
            },
            None => {},
        }
        let id = block.id();
        let state = self.store.blocks.get_state(&id.client);
        let end = block.clock_end();
        if end <= state {
            return Placement::Done;
        }
        let offset = state - id.clock;
        match block {
            Block::GC(range) => {
                self.push_gc(BlockRange { id: ID::new(id.client, state), len: end - state });
                Placement::Done
            },
            Block::Item(item) => {
                let mut item = item;
                let ghost item0 = item;
                let ghost item_left = item;
                if offset > 0 {
                    let rest = item.split(offset);
                    proof {
                        assert(rest.unit(0) == item0.unit(offset as int));
                        item_left = item;
                    }
                    item = rest;
                }
                let ghost item1 = item;
                proof {
                    assert forall|j: int| 0 <= j < item1.spec_len() implies item1.unit(j)
                        == item0.unit(offset + j) by {}
                    assert(cut_off(item0, offset as nat, item1)) by {
                        if offset > 0 {
                            assert(split_of(
                                Block::Item(item0),
                                offset as nat,
                                Block::Item(item_left),
                                Block::Item(item1),
                            ));
                        }
                    }
                }
                self.place_item(item);
                proof {
                    let mid = choose|mid: Transaction| landed(t0, mid, *self, item1);
                    assert(cut_off(item0, offset as nat, item1) && landed(t0, mid, *self, item1));
                    assert forall|k: int|
                        t0.store.blocks.state(id.client) <= k < self.store.blocks.state(
                            id.client,
                        ) implies #[trigger] taken_from(self.store.blocks, block, k) by {
                        assert(item1.unit(k - state) == item0.unit(offset + (k - state)));
                        assert(taken_from(self.store.blocks, Block::Item(item1), k));
                    }
                }
                Placement::Done
            },
        }
    }
}

} // verus!
