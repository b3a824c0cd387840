//! The state of one replica: its blocks, where each container starts, and
//! what it has received too early to place.

use crate::block::{key_view, same_key, Block, Item, TypePtr, Unit, ID};
use crate::block_store::BlockStore;
use crate::id_set::DeleteSet;
use crate::update::PendingUpdate;
use vstd::prelude::*;

verus! {

/// Where the items of one container, under one key, start.
#[derive(Clone, Debug, PartialEq, Eq)]
pub struct TypeNode {
    pub ptr: TypePtr,
    /// The map key; none for the container's sequence.
    pub sub: Option<String>,
    /// The first item in the current order.
    pub start: Option<ID>,
}

/// A container as the store knows it.
#[derive(Clone, Copy, Debug, PartialEq, Eq)]
pub struct Branch {
    pub ptr: TypePtr,
    /// The first item of the container's sequence.
    pub start: Option<ID>,
}

/// The state of one replica.
#[derive(Clone, Debug, PartialEq, Eq)]
pub struct Store {
    /// The client that writes through this store.
    pub client_id: u64,
    pub blocks: BlockStore,
    /// Names of the root types; `TypePtr::Named(i)` is the `i`-th.
    pub names: Vec<String>,
    pub types: Vec<TypeNode>,
    /// Blocks received before what they depend on.
    pub pending: Option<PendingUpdate>,
    /// Deletions of units that are not known yet.
    pub pending_ds: Option<DeleteSet>,
}

/// The units met from `from` on by following each unit's successor, at most
/// `fuel` of them.
pub open spec fn walk(units: Map<u64, Seq<Unit>>, from: Option<ID>, fuel: nat) -> Seq<ID>
    decreases fuel,
{
    if fuel == 0 {
        Seq::empty()
    } else {
        match from {
            None => Seq::empty(),
            Some(id) => if units.contains_key(id.client) && id.clock < units[id.client].len() {
                match units[id.client][id.clock as int] {
                    Unit::Item(u) => seq![id] + walk(units, u.next, (fuel - 1) as nat),
                    Unit::Tombstone => seq![id],
                }
            } else {
                Seq::empty()
            },
        }
    }
}

/// Entry `i` of `types` is the one of container `ptr` under key `sub`.
pub open spec fn node_at(types: Seq<TypeNode>, ptr: TypePtr, sub: Option<Seq<char>>, i: int) -> bool {
    0 <= i < types.len() && types[i].ptr == ptr && key_view(types[i].sub) == sub
}

/// The first item of container `ptr` under key `sub`, as `types` has it.
pub open spec fn head_in(types: Seq<TypeNode>, ptr: TypePtr, sub: Option<Seq<char>>) -> Option<ID> {
    if exists|i: int| node_at(types, ptr, sub, i) {
        types[choose|i: int| node_at(types, ptr, sub, i)].start
    } else {
        None
    }
}

/// No container and key has two entries in `types`.
pub open spec fn nodes_unique(types: Seq<TypeNode>) -> bool {
    forall|p: TypePtr, s: Option<Seq<char>>, i: int, j: int| #[trigger]
        node_at(types, p, s, i) && #[trigger] node_at(types, p, s, j) ==> i == j
}

impl Store {
    /// The first item of container `ptr` under key `sub`.
    pub open spec fn head_of(&self, ptr: TypePtr, sub: Option<Seq<char>>) -> Option<ID> {
        head_in(self.types@, ptr, sub)
    }

    /// No container and key has two entries, and each start is an item of
    /// that container and key without a left neighbour.
    pub open spec fn heads_wf(&self) -> bool {
        &&& self.heads_unique()
        &&& forall|i: int|
            0 <= i < self.types.len() ==> match (#[trigger] self.types[i]).start {
                Some(h) => self.head_ok(i, h),
                None => true,
            }
    }

    /// No container and key has two entries.
    pub open spec fn heads_unique(&self) -> bool {
        nodes_unique(self.types@)
    }

    /// `h` is an item without a left neighbour that stands in the container
    /// and under the key of entry `i`.
    pub open spec fn head_ok(&self, i: int, h: ID) -> bool {
        match self.blocks.item_at(h) {
            Some(x) => x.left is None && x.parent == self.types[i].ptr && key_view(x.parent_sub)
                == key_view(self.types[i].sub),
            None => false,
        }
    }

    /// A root type that is registered, or a nested type whose item is known.
    pub open spec fn spec_has_type(&self, ptr: TypePtr) -> bool {
        match ptr {
            TypePtr::Named(n) => n < self.names.len(),
            TypePtr::Id(id) => match self.blocks.item_at(id) {
                Some(x) => x.content is Type,
                None => false,
            },
        }
    }

    /// The blocks are in order, every link is answered, every container
    /// starts at an item of its own, and what waits is sound.
    pub open spec fn wf(&self) -> bool {
        &&& self.blocks.wf()
        &&& self.blocks.links_wf()
        &&& self.heads_wf()
        &&& match self.pending {
            Some(p) => p.wf(),
            None => true,
        }
        &&& match self.pending_ds {
            Some(ds) => ds.wf(),
            None => true,
        }
    }

    /// The units of container `ptr` under key `sub` in their current order,
    /// as far as `fuel` reaches.
    pub open spec fn order(&self, ptr: TypePtr, sub: Option<Seq<char>>, fuel: nat) -> Seq<ID> {
        walk(self.blocks@, self.head_of(ptr, sub), fuel)
    }

    /// An empty store that writes as `client_id`.
    pub fn new(client_id: u64) -> (r: Store)
        ensures
            r.wf(),
            r.client_id == client_id,
            r.blocks@ == Map::<u64, Seq<Unit>>::empty(),
            r.names@.len() == 0,
            r.types@.len() == 0,
            r.pending is None,
            r.pending_ds is None,
    {
        Store {
            client_id,
            blocks: BlockStore::new(),
            names: Vec::new(),
            types: Vec::new(),
            pending: None,
            pending_ds: None,
        }
    }

    /// First clock that this replica's own client has not used yet.
    pub fn get_local_state(&self) -> (state: u32)
        requires
            self.blocks.wf(),
        ensures
            state == self.blocks.state(self.client_id),
    {
        self.blocks.get_state(&self.client_id)
    }

    /// Position of the entry of container `ptr` under key `sub`.
    pub fn find_node(&self, ptr: &TypePtr, sub: &Option<String>) -> (r: Option<usize>)
        ensures
            match r {
                Some(i) => node_at(self.types@, *ptr, key_view(*sub), i as int),
                None => forall|i: int| !node_at(self.types@, *ptr, key_view(*sub), i),
            },
    {
        let mut i: usize = 0;
        while i < self.types.len()
            invariant
                i <= self.types.len(),
                forall|j: int| 0 <= j < i ==> !node_at(self.types@, *ptr, key_view(*sub), j),
            decreases self.types.len() - i,
        {
            if self.types[i].ptr == *ptr && same_key(&self.types[i].sub, sub) {
                return Some(i);
            }
            i += 1;
        }
        None
    }

    /// The first item of container `ptr` under key `sub`.
    pub fn get_head(&self, ptr: &TypePtr, sub: &Option<String>) -> (r: Option<ID>)
        requires
            self.heads_unique(),
        ensures
            r == self.head_of(*ptr, key_view(*sub)),
    {
        match self.find_node(ptr, sub) {
            Some(i) => self.types[i].start,
            None => None,
        }
    }

    /// Whether the store knows the container `ptr`.
    #[verifier::when_used_as_spec(spec_has_type)]
    pub fn has_type(&self, ptr: TypePtr) -> (r: bool)
        requires
            self.blocks.wf(),
        ensures
            r == self.spec_has_type(ptr),
    {
        match ptr {
            TypePtr::Named(n) => (n as usize) < self.names.len(),
            TypePtr::Id(id) => match self.blocks.get_item(&id) {
                Some(x) => match x.content {
                    crate::block::ItemContent::Type(_) => true,
                    _ => false,
                },
                None => false,
            },
        }
    }

    /// The container `ptr`, where the store knows it.
    pub fn get_type(&self, ptr: &TypePtr) -> (r: Option<Branch>)
        requires
            self.blocks.wf(),
            self.heads_wf(),
        ensures
            r is Some <==> self.spec_has_type(*ptr),
            r matches Some(b) ==> b.ptr == *ptr && b.start == self.head_of(*ptr, None),
    {
        if self.has_type(*ptr) {
            Some(Branch { ptr: *ptr, start: self.get_head(ptr, &None) })
        } else {
            None
        }
    }

    /// `name` is the name of a registered root type.
    pub open spec fn has_name(&self, name: Seq<char>) -> bool {
        exists|i: int| 0 <= i < self.names.len() && #[trigger] self.names[i]@ == name
    }

    /// The pointer of the root type called `name`, which is registered if it
    /// was not.
    pub fn create_type_ptr(&mut self, name: &str) -> (ptr: TypePtr)
        requires
            old(self).names.len() < u32::MAX,
        ensures
            ptr matches TypePtr::Named(n) && n < final(self).names.len() && final(self).names[n as int]@
                == name@,
            old(self).has_name(name@) ==> *final(self) == *old(self),
            !old(self).has_name(name@) ==> final(self).names@.len() == old(self).names@.len() + 1
                && ptr == TypePtr::Named(old(self).names.len() as u32),
            final(self).names@.subrange(0, old(self).names@.len() as int) == old(self).names@,
            ptr matches TypePtr::Named(n) && forall|j: int|
                0 <= j < n ==> (#[trigger] final(self).names[j])@ != name@,
            final(self).client_id == old(self).client_id,
            final(self).blocks == old(self).blocks,
            final(self).types == old(self).types,
            final(self).pending == old(self).pending,
            final(self).pending_ds == old(self).pending_ds,
    {
        let owned = name.to_owned();
        let mut i: usize = 0;
        while i < self.names.len()
            invariant
                i <= self.names.len(),
                *self == *old(self),
                self.names.len() < u32::MAX,
                owned@ == name@,
                forall|j: int| 0 <= j < i ==> self.names[j]@ != name@,
            decreases self.names.len() - i,
        {
            if self.names[i] == owned {
                proof {
                    assert(self.names@.subrange(0, old(self).names@.len() as int) =~= old(
                        self,
                    ).names@);
                }
                return TypePtr::Named(i as u32);
            }
            i += 1;
        }
        self.names.push(owned);
        proof {
            assert(self.names@.subrange(0, old(self).names@.len() as int) =~= old(self).names@);
            if old(self).has_name(name@) {
                let j = choose|j: int|
                    0 <= j < old(self).names.len() && #[trigger] old(self).names[j]@ == name@;
                assert(old(self).names[j]@ != name@);
            }
        }
        TypePtr::Named(i as u32)
    }
}

} // verus!
