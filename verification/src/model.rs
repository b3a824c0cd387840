//! The units of a store as contracts see them, and what deleting does to
//! them.

use crate::block::{ContentUnit, TypePtr, Unit, ID};
use crate::id_set::id_range;
use vstd::prelude::*;

verus! {

/// What a unit is for good: the unit without what can change, which is
/// whether it is deleted and which unit follows it.
pub open spec fn lasting(u: Unit) -> Unit {
    match u {
        Unit::Tombstone => Unit::Tombstone,
        Unit::Item(x) => Unit::Item(crate::block::ItemUnit { deleted: false, next: None, ..x }),
    }
}

/// The unit `id` is known: its client's history reaches beyond its clock.
pub open spec fn known(units: Map<u64, Seq<Unit>>, id: ID) -> bool {
    units.contains_key(id.client) && id.clock < units[id.client].len()
}

/// The unit `id`.
pub open spec fn unit_at(units: Map<u64, Seq<Unit>>, id: ID) -> Unit {
    units[id.client][id.clock as int]
}

/// The units, those of `ids` tombstoned.
pub open spec fn tombstone(units: Map<u64, Seq<Unit>>, ids: Set<ID>) -> Map<u64, Seq<Unit>> {
    Map::new(
        |c: u64| units.contains_key(c),
        |c: u64|
            Seq::new(
                units[c].len(),
                |k: int|
                    if ids.contains(ID { client: c, clock: k as u32 }) {
                        units[c][k].tombstoned()
                    } else {
                        units[c][k]
                    },
            ),
    )
}

/// Those of `ids` that are known and not tombstoned.
pub open spec fn live_in(units: Map<u64, Seq<Unit>>, ids: Set<ID>) -> Set<ID> {
    Set::new(|id: ID| ids.contains(id) && known(units, id) && !unit_at(units, id).deleted())
}

/// Those of `ids` that are not known.
pub open spec fn unknown_in(units: Map<u64, Seq<Unit>>, ids: Set<ID>) -> Set<ID> {
    Set::new(|id: ID| ids.contains(id) && !known(units, id))
}

/// The unit `id` is one of `ids`, known, written before `stamp`, and stands
/// in container `p.0` under key `p.1`.
pub open spec fn touches(
    units: Map<u64, Seq<Unit>>,
    ids: Set<ID>,
    stamp: Map<u64, u32>,
    id: ID,
    p: (TypePtr, Option<Seq<char>>),
) -> bool {
    &&& ids.contains(id)
    &&& known(units, id)
    &&& stamp.contains_key(id.client)
    &&& id.clock < stamp[id.client]
    &&& unit_at(units, id) matches Unit::Item(u)
    &&& u.parent == p.0
    &&& u.parent_sub == p.1
}

/// The containers and keys that hold a unit of `ids` written before `stamp`.
pub open spec fn touched(units: Map<u64, Seq<Unit>>, ids: Set<ID>, stamp: Map<u64, u32>) -> Set<
    (TypePtr, Option<Seq<char>>),
> {
    Set::new(|p: (TypePtr, Option<Seq<char>>)| exists|id: ID| touches(units, ids, stamp, id, p))
}

/// Tombstoning the units of `a` and then those of `b` is tombstoning those
/// of both at once, in either order.
pub proof fn lemma_tombstone_union(units: Map<u64, Seq<Unit>>, a: Set<ID>, b: Set<ID>)
    ensures
        tombstone(tombstone(units, a), b) == tombstone(units, a.union(b)),
        tombstone(tombstone(units, a), b) == tombstone(tombstone(units, b), a),
{
    assert forall|c: u64| units.contains_key(c) implies #[trigger] tombstone(
        tombstone(units, a),
        b,
    )[c] == tombstone(units, a.union(b))[c] by {
        assert(tombstone(tombstone(units, a), b)[c] =~= tombstone(units, a.union(b))[c]);
    }
    assert(tombstone(tombstone(units, a), b) =~= tombstone(units, a.union(b)));
    assert forall|c: u64| units.contains_key(c) implies #[trigger] tombstone(
        tombstone(units, b),
        a,
    )[c] == tombstone(units, a.union(b))[c] by {
        assert(tombstone(tombstone(units, b), a)[c] =~= tombstone(units, a.union(b))[c]);
    }
    assert(tombstone(tombstone(units, b), a) =~= tombstone(units, a.union(b)));
}

/// A unit that is not tombstoned and whose content owns further state: an
/// embedded document or a nested type.
pub open spec fn live_cascade(u: Unit) -> bool {
    match u {
        Unit::Item(x) => !x.deleted && (x.content is Doc || x.content is Type),
        Unit::Tombstone => false,
    }
}

/// Deleting the units of `a` and then, in what that gives, those of `b`,
/// is deleting those of `a` and of `b2`, where `b2` adds to `b` only units
/// that are not known.
pub proof fn lemma_delete_compose(
    units: Map<u64, Seq<Unit>>,
    a: Set<ID>,
    b: Set<ID>,
    b2: Set<ID>,
    stamp: Map<u64, u32>,
)
    requires
        b.subset_of(b2),
        forall|id: ID| b2.contains(id) && !b.contains(id) ==> !known(units, id),
        forall|c: u64| units.contains_key(c) ==> (#[trigger] units[c]).len() <= u32::MAX,
    ensures
        tombstone(tombstone(units, a), b) == tombstone(units, a.union(b2)),
        live_in(units, a).union(live_in(tombstone(units, a), b)) == live_in(units, a.union(b2)),
        touched(units, live_in(units, a), stamp).union(
            touched(tombstone(units, a), live_in(tombstone(units, a), b), stamp),
        ) == touched(units, live_in(units, a.union(b2)), stamp),
        unknown_in(units, a).union(unknown_in(units, b2)) == unknown_in(units, a.union(b2)),
{
    let ta = tombstone(units, a);
    assert forall|c: u64| units.contains_key(c) implies #[trigger] tombstone(ta, b)[c]
        == tombstone(units, a.union(b2))[c] by {
        assert forall|k: int| 0 <= k < units[c].len() implies tombstone(ta, b)[c][k] == tombstone(
            units,
            a.union(b2),
        )[c][k] by {
            let id = ID { client: c, clock: k as u32 };
            assert(known(units, id));
        }
        assert(tombstone(ta, b)[c] =~= tombstone(units, a.union(b2))[c]);
    }
    assert(tombstone(ta, b) =~= tombstone(units, a.union(b2)));
    assert forall|id: ID|
        (live_in(units, a).contains(id) || live_in(ta, b).contains(id)) == live_in(
            units,
            a.union(b2),
        ).contains(id) by {
        if known(units, id) {
            assert(ta[id.client][id.clock as int] == (if a.contains(id) {
                units[id.client][id.clock as int].tombstoned()
            } else {
                units[id.client][id.clock as int]
            }));
        }
    }
    assert(live_in(units, a).union(live_in(ta, b)) =~= live_in(units, a.union(b2)));
    let l1 = live_in(units, a);
    let l2 = live_in(ta, b);
    let l3 = live_in(units, a.union(b2));
    assert forall|p: (TypePtr, Option<Seq<char>>)|
        (touched(units, l1, stamp).contains(p) || touched(ta, l2, stamp).contains(p)) == touched(
            units,
            l3,
            stamp,
        ).contains(p) by {
        if touched(units, l1, stamp).contains(p) {
            let id = choose|id: ID| touches(units, l1, stamp, id, p);
            assert(touches(units, l3, stamp, id, p));
        }
        if touched(ta, l2, stamp).contains(p) {
            let id = choose|id: ID| touches(ta, l2, stamp, id, p);
            assert(ta[id.client][id.clock as int] == (if a.contains(id) {
                units[id.client][id.clock as int].tombstoned()
            } else {
                units[id.client][id.clock as int]
            }));
            assert(touches(units, l3, stamp, id, p));
        }
        if touched(units, l3, stamp).contains(p) {
            let id = choose|id: ID| touches(units, l3, stamp, id, p);
            assert(ta[id.client][id.clock as int] == (if a.contains(id) {
                units[id.client][id.clock as int].tombstoned()
            } else {
                units[id.client][id.clock as int]
            }));
            if a.contains(id) {
                assert(touches(units, l1, stamp, id, p));
            } else {
                assert(touches(ta, l2, stamp, id, p));
            }
        }
    }
    assert(touched(units, l1, stamp).union(touched(ta, l2, stamp)) =~= touched(units, l3, stamp));
    assert(unknown_in(units, a).union(unknown_in(units, b2)) =~= unknown_in(units, a.union(b2)));
}

/// What deleting the units of `client` from `clock` up to `lim2` adds to
/// deleting those up to `lim`, where the units from `lim` up to `lim2` are
/// those of one live item in container `p.0` under key `p.1` and `stamp`
/// does not fall among them.
pub proof fn lemma_live_block(
    units: Map<u64, Seq<Unit>>,
    stamp: Map<u64, u32>,
    client: u64,
    clock: int,
    lim: int,
    lim2: int,
    p: (TypePtr, Option<Seq<char>>),
)
    requires
        0 <= clock <= lim < lim2 <= u32::MAX,
        units.contains_key(client),
        lim2 <= units[client].len(),
        forall|k: int|
            lim <= k < lim2 ==> (#[trigger] units[client][k] matches Unit::Item(u) && !u.deleted
                && u.parent == p.0 && u.parent_sub == p.1),
        stamp.contains_key(client) ==> stamp[client] <= lim || stamp[client] >= lim2,
    ensures
        id_range(client, clock, lim2) == id_range(client, clock, lim).union(
            id_range(client, lim, lim2),
        ),
        live_in(units, id_range(client, clock, lim2)) == live_in(
            units,
            id_range(client, clock, lim),
        ).union(id_range(client, lim, lim2)),
        touched(units, live_in(units, id_range(client, clock, lim2)), stamp) == (if stamp.contains_key(
            client,
        ) && lim < stamp[client] {
            touched(units, live_in(units, id_range(client, clock, lim)), stamp).insert(p)
        } else {
            touched(units, live_in(units, id_range(client, clock, lim)), stamp)
        }),
{
    let r1 = id_range(client, clock, lim);
    let r2 = id_range(client, clock, lim2);
    let l1 = live_in(units, r1);
    let l2 = live_in(units, r2);
    assert(r2 =~= r1.union(id_range(client, lim, lim2)));
    assert forall|id: ID| l2.contains(id) == (l1.contains(id) || id_range(
        client,
        lim,
        lim2,
    ).contains(id)) by {
        if id_range(client, lim, lim2).contains(id) {
            assert(units[client][id.clock as int] is Item);
        }
    }
    assert(l2 =~= l1.union(id_range(client, lim, lim2)));
    let before = stamp.contains_key(client) && lim < stamp[client];
    assert forall|q: (TypePtr, Option<Seq<char>>)|
        touched(units, l2, stamp).contains(q) == (touched(units, l1, stamp).contains(q) || (before
            && q == p)) by {
        if touched(units, l1, stamp).contains(q) {
            let id = choose|id: ID| touches(units, l1, stamp, id, q);
            assert(touches(units, l2, stamp, id, q));
        }
        if before && q == p {
            let id = ID { client, clock: lim as u32 };
            assert(units[client][lim] is Item);
            assert(touches(units, l2, stamp, id, q));
        }
        if touched(units, l2, stamp).contains(q) {
            let id = choose|id: ID| touches(units, l2, stamp, id, q);
            if l1.contains(id) {
                assert(touches(units, l1, stamp, id, q));
            } else {
                assert(units[client][id.clock as int] is Item);
            }
        }
    }
    if before {
        assert(touched(units, l2, stamp) =~= touched(units, l1, stamp).insert(p));
    } else {
        assert(touched(units, l2, stamp) =~= touched(units, l1, stamp));
    }
}

/// Deleting the units of `client` from `clock` up to `lim2` is deleting
/// those up to `lim`, where the units from `lim` up to `lim2` are
/// tombstoned already.
pub proof fn lemma_dead_block(
    units: Map<u64, Seq<Unit>>,
    client: u64,
    clock: int,
    lim: int,
    lim2: int,
)
    requires
        0 <= clock <= lim <= lim2 <= u32::MAX,
        units.contains_key(client),
        lim2 <= units[client].len(),
        forall|k: int| lim <= k < lim2 ==> (#[trigger] units[client][k]).deleted(),
        forall|c: u64| units.contains_key(c) ==> (#[trigger] units[c]).len() <= u32::MAX,
    ensures
        live_in(units, id_range(client, clock, lim2)) == live_in(
            units,
            id_range(client, clock, lim),
        ),
        tombstone(units, id_range(client, clock, lim2)) == tombstone(
            units,
            id_range(client, clock, lim),
        ),
{
    let r1 = id_range(client, clock, lim);
    let r2 = id_range(client, clock, lim2);
    assert forall|id: ID| live_in(units, r2).contains(id) == live_in(units, r1).contains(id) by {
        if r2.contains(id) && !r1.contains(id) {
            assert(units[client][id.clock as int].deleted());
        }
    }
    assert(live_in(units, r2) =~= live_in(units, r1));
    assert forall|c: u64| units.contains_key(c) implies #[trigger] tombstone(units, r2)[c]
        == tombstone(units, r1)[c] by {
        assert forall|k: int| 0 <= k < units[c].len() implies tombstone(units, r2)[c][k]
            == tombstone(units, r1)[c][k] by {
            let id = ID { client: c, clock: k as u32 };
            if r2.contains(id) && !r1.contains(id) {
                assert(units[client][k].deleted());
                assert(units[c][k].tombstoned() == units[c][k]);
            }
        }
        assert(tombstone(units, r2)[c] =~= tombstone(units, r1)[c]);
    }
    assert(tombstone(units, r2) =~= tombstone(units, r1));
}

/// Deleting no unit changes nothing.
pub proof fn lemma_delete_nothing(units: Map<u64, Seq<Unit>>, stamp: Map<u64, u32>, ids: Set<ID>)
    requires
        forall|id: ID| ids.contains(id) ==> !known(units, id),
        forall|c: u64| units.contains_key(c) ==> (#[trigger] units[c]).len() <= u32::MAX,
    ensures
        tombstone(units, ids) == units,
        live_in(units, ids) == Set::<ID>::empty(),
        touched(units, live_in(units, ids), stamp) == Set::<(TypePtr, Option<Seq<char>>)>::empty(),
{
    assert forall|c: u64| units.contains_key(c) implies #[trigger] tombstone(units, ids)[c]
        == units[c] by {
        assert forall|k: int| 0 <= k < units[c].len() implies tombstone(units, ids)[c][k]
            == units[c][k] by {
            let id = ID { client: c, clock: k as u32 };
            assert(known(units, id));
        }
        assert(tombstone(units, ids)[c] =~= units[c]);
    }
    assert(tombstone(units, ids) =~= units);
    assert(live_in(units, ids) =~= Set::<ID>::empty());
    assert forall|p: (TypePtr, Option<Seq<char>>)|
        !touched(units, live_in(units, ids), stamp).contains(p) by {
        if touched(units, live_in(units, ids), stamp).contains(p) {
            let id = choose|id: ID| touches(units, live_in(units, ids), stamp, id, p);
            assert(touches(units, live_in(units, ids), stamp, id, p));
        }
    }
    assert(touched(units, live_in(units, ids), stamp) =~= Set::<
        (TypePtr, Option<Seq<char>>),
    >::empty());
}

} // verus!
