//! Identifiers, item content and blocks: the units of a replica's history.

use vstd::prelude::*;

verus! {

/// Identifier of one unit of history: the `clock`-th unit written by `client`.
#[derive(Clone, Copy, Debug, PartialEq, Eq, Structural, Hash)]
pub struct ID {
    pub client: u64,
    pub clock: u32,
}

impl ID {
    /// The identifier of unit `clock` of `client`.
    pub fn new(client: u64, clock: u32) -> (id: ID)
        ensures
            id.client == client,
            id.clock == clock,
    {
        ID { client, clock }
    }
}

/// Identity of a container: a root type by its number in the store's
/// registry, or a nested type by the item that defines it.
#[derive(Clone, Copy, Debug, PartialEq, Eq, Structural, Hash)]
pub enum TypePtr {
    Named(u32),
    Id(ID),
}

/// What a map key is in contracts: its characters.
pub open spec fn key_view(key: Option<String>) -> Option<Seq<char>> {
    match key {
        Some(s) => Some(s@),
        None => None,
    }
}

/// Whether two optional map keys name the same key.
pub fn same_key(a: &Option<String>, b: &Option<String>) -> (r: bool)
    ensures
        r == (key_view(*a) == key_view(*b)),
{
    match (a, b) {
        (Some(x), Some(y)) => *x == *y,
        (None, None) => true,
        _ => false,
    }
}

/// A copy of an optional map key.
pub fn clone_key(key: &Option<String>) -> (r: Option<String>)
    ensures
        r == *key,
{
    match key {
        Some(s) => Some(s.clone()),
        None => None,
    }
}

/// One unit of content, as contracts see it.
pub enum ContentUnit {
    /// One character of a text run.
    Char(char),
    /// A unit whose content has been reclaimed.
    Gone,
    /// An embedded document, by name.
    Doc(Seq<char>),
    /// A nested type, by kind.
    Type(u8),
}

/// The content an item carries.
#[derive(Clone, Debug, PartialEq, Eq)]
pub enum ItemContent {
    /// A run of text: one unit per character.
    Text(Vec<char>),
    /// That many units whose content has been reclaimed.
    Deleted(u32),
    /// An embedded document: a single unit.
    Doc(String),
    /// A nested type of the given kind: a single unit.
    Type(u8),
}

impl ItemContent {
    /// Number of units the content spans.
    pub open spec fn spec_len(&self) -> nat {
        match self {
            ItemContent::Text(v) => v@.len(),
            ItemContent::Deleted(n) => *n as nat,
            ItemContent::Doc(_) => 1,
            ItemContent::Type(_) => 1,
        }
    }

    /// Content spans at least one unit and its length fits a clock.
    pub open spec fn wf(&self) -> bool {
        1 <= self.spec_len() <= u32::MAX
    }

    /// The `k`-th unit.
    pub open spec fn unit(&self, k: int) -> ContentUnit {
        match self {
            ItemContent::Text(v) => ContentUnit::Char(v@[k]),
            ItemContent::Deleted(_) => ContentUnit::Gone,
            ItemContent::Doc(s) => ContentUnit::Doc(s@),
            ItemContent::Type(t) => ContentUnit::Type(*t),
        }
    }

    /// Content that owns further state, which deleting the item would have
    /// to release: an embedded document or a nested type.
    pub open spec fn spec_has_cascade(&self) -> bool {
        self is Doc || self is Type
    }

    /// Whether the content owns further state.
    #[verifier::when_used_as_spec(spec_has_cascade)]
    pub fn has_cascade(&self) -> (r: bool)
        ensures
            r == self.spec_has_cascade(),
    {
        match self {
            ItemContent::Doc(_) => true,
            ItemContent::Type(_) => true,
            _ => false,
        }
    }

    /// Number of units the content spans.
    pub fn len(&self) -> (n: u32)
        requires
            self.wf(),
        ensures
            n == self.spec_len(),
    {
        match self {
            ItemContent::Text(v) => v.len() as u32,
            ItemContent::Deleted(n) => *n,
            ItemContent::Doc(_) => 1,
            ItemContent::Type(_) => 1,
        }
    }

    /// Cuts the content after its first `k` units: `self` keeps those, the
    /// rest is returned.
    pub fn split(&mut self, k: u32) -> (right: ItemContent)
        requires
            old(self).wf(),
            0 < k < old(self).spec_len(),
        ensures
            final(self).wf(),
            right.wf(),
            final(self).spec_len() == k,
            right.spec_len() == old(self).spec_len() - k,
            forall|j: int| 0 <= j < k ==> final(self).unit(j) == old(self).unit(j),
            forall|j: int|
                0 <= j < old(self).spec_len() - k ==> right.unit(j) == old(self).unit(k + j),
            final(self).spec_has_cascade() == old(self).spec_has_cascade(),
            right.spec_has_cascade() == old(self).spec_has_cascade(),
    {
        match self {
            ItemContent::Text(v) => {
                let rest = v.split_off(k as usize);
                ItemContent::Text(rest)
            },
            ItemContent::Deleted(n) => {
                let rest: u32 = *n - k;
                *n = k;
                ItemContent::Deleted(rest)
            },
            ItemContent::Doc(s) => ItemContent::Doc(s.clone()),
            ItemContent::Type(t) => ItemContent::Type(*t),
        }
    }
}

/// One unit of an item, as contracts see it. Cutting an item in two leaves
/// each of its units as it was.
pub struct ItemUnit {
    pub content: ContentUnit,
    pub deleted: bool,
    pub parent: TypePtr,
    pub parent_sub: Option<Seq<char>>,
    /// The unit that stood to the left when this one was written.
    pub origin: Option<ID>,
    /// The unit that stood to the right when the item was written.
    pub right_origin: Option<ID>,
    /// The unit that follows in the container's current order.
    pub next: Option<ID>,
}

/// One unit of a client's history, as contracts see it.
pub enum Unit {
    /// A unit of a placeholder: deleted, nothing else known.
    Tombstone,
    Item(ItemUnit),
}

impl Unit {
    /// Tombstoned: a placeholder, or a unit of a deleted item.
    pub open spec fn deleted(&self) -> bool {
        match self {
            Unit::Tombstone => true,
            Unit::Item(u) => u.deleted,
        }
    }

    /// The same unit, tombstoned.
    pub open spec fn tombstoned(&self) -> Unit {
        match self {
            Unit::Tombstone => Unit::Tombstone,
            Unit::Item(u) => Unit::Item(ItemUnit { deleted: true, ..*u }),
        }
    }

    /// The same unit, followed by `next`.
    pub open spec fn with_next(&self, next: Option<ID>) -> Unit {
        match self {
            Unit::Tombstone => Unit::Tombstone,
            Unit::Item(u) => Unit::Item(ItemUnit { next, ..*u }),
        }
    }
}

/// An insertion: content with its place in a container.
#[derive(Clone, Debug, PartialEq, Eq)]
pub struct Item {
    pub id: ID,
    /// Start of the block that stands to the left in the current order.
    pub left: Option<ID>,
    /// Start of the block that stands to the right in the current order.
    pub right: Option<ID>,
    pub origin: Option<ID>,
    pub right_origin: Option<ID>,
    pub content: ItemContent,
    pub parent: TypePtr,
    pub parent_sub: Option<String>,
    pub deleted: bool,
}

impl Item {
    /// Number of units the item spans.
    pub open spec fn spec_len(&self) -> nat {
        self.content.spec_len()
    }

    /// The content is sound, and the last clock of the item fits.
    pub open spec fn wf(&self) -> bool {
        &&& self.content.wf()
        &&& self.id.clock + self.content.spec_len() <= u32::MAX
    }

    /// The `k`-th unit of the item.
    pub open spec fn unit(&self, k: int) -> Unit {
        Unit::Item(
            ItemUnit {
                content: self.content.unit(k),
                deleted: self.deleted,
                parent: self.parent,
                parent_sub: key_view(self.parent_sub),
                origin: if k == 0 {
                    self.origin
                } else {
                    Some(ID { client: self.id.client, clock: (self.id.clock + k - 1) as u32 })
                },
                right_origin: self.right_origin,
                next: if k + 1 < self.content.spec_len() {
                    Some(ID { client: self.id.client, clock: (self.id.clock + k + 1) as u32 })
                } else {
                    self.right
                },
            },
        )
    }

    /// Number of units the item spans.
    pub fn len(&self) -> (n: u32)
        requires
            self.wf(),
        ensures
            n == self.spec_len(),
    {
        self.content.len()
    }

    /// Cuts the item after its first `k` units. `self` keeps its identifier
    /// and its left neighbour and is followed by the returned fragment, which
    /// starts `k` clocks later and takes over the right neighbour.
    pub fn split(&mut self, k: u32) -> (right: Item)
        requires
            old(self).wf(),
            0 < k < old(self).spec_len(),
        ensures
            final(self).wf(),
            right.wf(),
            final(self).id == old(self).id,
            final(self).spec_len() == k,
            final(self).left == old(self).left,
            final(self).right == Some(right.id),
            right.id == (ID { client: old(self).id.client, clock: (old(self).id.clock + k) as u32 }),
            right.spec_len() == old(self).spec_len() - k,
            right.left == Some(old(self).id),
            right.right == old(self).right,
            right.right_origin == old(self).right_origin,
            right.deleted == old(self).deleted,
            right.parent == old(self).parent,
            final(self).deleted == old(self).deleted,
            final(self).parent == old(self).parent,
            forall|j: int| 0 <= j < k ==> final(self).unit(j) == old(self).unit(j),
            forall|j: int|
                0 <= j < old(self).spec_len() - k ==> right.unit(j) == old(self).unit(k + j),
            final(self).content.spec_has_cascade() == old(self).content.spec_has_cascade(),
            right.content.spec_has_cascade() == old(self).content.spec_has_cascade(),
    {
        let rest = self.content.split(k);
        let id = ID::new(self.id.client, self.id.clock + k);
        let right = Item {
            id,
            left: Some(self.id),
            right: self.right,
            origin: Some(ID::new(self.id.client, self.id.clock + k - 1)),
            right_origin: self.right_origin,
            content: rest,
            parent: self.parent,
            parent_sub: clone_key(&self.parent_sub),
            deleted: self.deleted,
        };
        self.right = Some(id);
        right
    }
}

/// A stretch of clocks of one client, without content.
#[derive(Clone, Copy, Debug, PartialEq, Eq)]
pub struct BlockRange {
    pub id: ID,
    pub len: u32,
}

/// A block of a client's history: an item, or a placeholder for clocks whose
/// content is gone for good.
#[derive(Clone, Debug, PartialEq, Eq)]
pub enum Block {
    Item(Item),
    GC(BlockRange),
}

impl Block {
    /// The identifier of the first unit of the block.
    pub open spec fn spec_id(&self) -> ID {
        match self {
            Block::Item(item) => item.id,
            Block::GC(range) => range.id,
        }
    }

    /// Number of units the block spans.
    pub open spec fn spec_len(&self) -> nat {
        match self {
            Block::Item(item) => item.spec_len(),
            Block::GC(range) => range.len as nat,
        }
    }

    /// First clock of the block.
    pub open spec fn clock(&self) -> nat {
        self.spec_id().clock as nat
    }

    /// First clock after the block.
    pub open spec fn spec_clock_end(&self) -> nat {
        (self.spec_id().clock + self.spec_len()) as nat
    }

    /// The block has at least one unit, and its last clock fits.
    pub open spec fn wf(&self) -> bool {
        &&& 1 <= self.spec_len()
        &&& self.spec_clock_end() <= u32::MAX
        &&& match self {
            Block::Item(item) => item.wf(),
            Block::GC(_) => true,
        }
    }

    /// The `k`-th unit of the block.
    pub open spec fn unit(&self, k: int) -> Unit {
        match self {
            Block::Item(item) => item.unit(k),
            Block::GC(_) => Unit::Tombstone,
        }
    }

    /// Tombstoned: a placeholder, or a deleted item.
    pub open spec fn spec_is_deleted(&self) -> bool {
        match self {
            Block::Item(item) => item.deleted,
            Block::GC(_) => true,
        }
    }

    /// The block with `left` for its left neighbour; a placeholder has none.
    pub open spec fn with_left(&self, left: Option<ID>) -> Block {
        match *self {
            Block::Item(x) => Block::Item(Item { left, ..x }),
            Block::GC(g) => Block::GC(g),
        }
    }

    /// The block with `right` for its right neighbour; a placeholder has
    /// none.
    pub open spec fn with_right(&self, right: Option<ID>) -> Block {
        match *self {
            Block::Item(x) => Block::Item(Item { right, ..x }),
            Block::GC(g) => Block::GC(g),
        }
    }

    /// The block, tombstoned.
    pub open spec fn with_deleted(&self) -> Block {
        match *self {
            Block::Item(x) => Block::Item(Item { deleted: true, ..x }),
            Block::GC(g) => Block::GC(g),
        }
    }

    /// The identifier of the first unit of the block.
    #[verifier::when_used_as_spec(spec_id)]
    pub fn id(&self) -> (id: ID)
        ensures
            id == self.spec_id(),
    {
        match self {
            Block::Item(item) => item.id,
            Block::GC(range) => range.id,
        }
    }

    /// Number of units the block spans.
    pub fn len(&self) -> (n: u32)
        requires
            self.wf(),
        ensures
            n == self.spec_len(),
    {
        match self {
            Block::Item(item) => item.len(),
            Block::GC(range) => range.len,
        }
    }

    /// First clock after the block.
    pub fn clock_end(&self) -> (end: u32)
        requires
            self.wf(),
        ensures
            end == self.spec_clock_end(),
    {
        self.id().clock + self.len()
    }

    /// Whether the block is tombstoned.
    #[verifier::when_used_as_spec(spec_is_deleted)]
    pub fn is_deleted(&self) -> (r: bool)
        ensures
            r == self.spec_is_deleted(),
    {
        match self {
            Block::Item(item) => item.deleted,
            Block::GC(_) => true,
        }
    }

    /// Whether the block is sound: it has at least one unit, and its last
    /// clock fits.
    pub fn is_valid(&self) -> (r: bool)
        ensures
            r == self.wf(),
    {
        let start = self.id().clock;
        match self {
            Block::Item(item) => {
                let len: usize = match &item.content {
                    ItemContent::Text(v) => v.len(),
                    ItemContent::Deleted(n) => *n as usize,
                    ItemContent::Doc(_) => 1,
                    ItemContent::Type(_) => 1,
                };
                1 <= len && len <= (u32::MAX - start) as usize
            },
            Block::GC(range) => 1 <= range.len && range.len <= u32::MAX - start,
        }
    }

    /// Whether deleting the block releases nothing: it is a placeholder, a
    /// deleted item, or an item whose content owns no further state.
    pub fn is_plain(&self) -> (r: bool)
        ensures
            r == (match *self {
                Block::Item(x) => x.deleted || !x.content.spec_has_cascade(),
                Block::GC(_) => true,
            }),
    {
        match self {
            Block::Item(item) => item.deleted || !item.content.has_cascade(),
            Block::GC(_) => true,
        }
    }

    /// The item, where the block is one.
    pub fn as_item(&self) -> (r: Option<&Item>)
        ensures
            r == (match self {
                Block::Item(item) => Some(item),
                Block::GC(_) => None::<&Item>,
            }),
    {
        match self {
            Block::Item(item) => Some(item),
            Block::GC(_) => None,
        }
    }

    /// Cuts the block after its first `k` units and returns the right part.
    /// The units of the two parts, one after the other, are those of the
    /// block before.
    pub fn split(&mut self, k: u32) -> (right: Block)
        requires
            old(self).wf(),
            0 < k < old(self).spec_len(),
        ensures
            split_of(*old(self), k as nat, *final(self), right),
    {
        match self {
            Block::Item(item) => {
                let right = item.split(k);
                Block::Item(right)
            },
            Block::GC(range) => {
                let right = BlockRange {
                    id: ID::new(range.id.client, range.id.clock + k),
                    len: range.len - k,
                };
                range.len = k;
                Block::GC(right)
            },
        }
    }
}

/// `a` and `b` are what cutting `whole` after its first `k` units gives:
/// `a` keeps the identifier and the left neighbour and is followed by `b`,
/// which starts `k` clocks later and takes over the right neighbour; unit by
/// unit the two hold what `whole` held.
pub open spec fn split_of(whole: Block, k: nat, a: Block, b: Block) -> bool {
    &&& a.wf()
    &&& b.wf()
    &&& a.spec_id() == whole.spec_id()
    &&& a.spec_len() == k
    &&& b.spec_id() == (ID {
        client: whole.spec_id().client,
        clock: (whole.spec_id().clock + k) as u32,
    })
    &&& b.spec_len() == whole.spec_len() - k
    &&& forall|j: int| 0 <= j < k ==> a.unit(j) == whole.unit(j)
    &&& forall|j: int| 0 <= j < whole.spec_len() - k ==> b.unit(j) == whole.unit(k + j)
    &&& match whole {
        Block::Item(item) => {
            &&& a matches Block::Item(x)
            &&& b matches Block::Item(y)
            &&& x.left == item.left
            &&& x.right == Some(y.id)
            &&& x.deleted == item.deleted
            &&& x.parent == item.parent
            &&& x.content.spec_has_cascade() == item.content.spec_has_cascade()
            &&& y.left == Some(item.id)
            &&& y.right == item.right
            &&& y.deleted == item.deleted
            &&& y.parent == item.parent
            &&& y.content.spec_has_cascade() == item.content.spec_has_cascade()
        },
        Block::GC(_) => a is GC && b is GC,
    }
}

/// Where a new item goes: a container, and the block it is to follow (none:
/// the container's start).
#[derive(Clone, Copy, Debug, PartialEq, Eq)]
pub struct ItemPosition {
    pub parent: TypePtr,
    pub after: Option<ID>,
}

} // verus!
