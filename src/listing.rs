//! Direct children of one node, filtered by visibility.

use crate::ids::Oid;
use crate::model::{Requester, Store};
use crate::search::as_ints;
use crate::select::select;
use crate::visibility::{is_visible, visible_to};
use vstd::prelude::*;

verus! {

/// The Properties of Group `gid` that the requester may see, in snapshot order.
pub open spec fn group_listing(s: &Store, q: Requester, gid: Oid) -> Seq<int> {
    select(
        s.properties@.len() as int,
        |p: int| s.properties@[p].group_id == gid && visible_to(s.properties@[p].visibility, q),
    )
}

/// The Zones directly under Zone `zid` that the requester may see.
pub open spec fn zone_listing(s: &Store, q: Requester, zid: Oid) -> Seq<int> {
    select(
        s.zones@.len() as int,
        |z: int| s.zones@[z].parent_zone_id == Some(zid) && visible_to(s.zones@[z].visibility, q),
    )
}

/// The Items lying directly in Zone `zid`.
pub open spec fn item_listing(s: &Store, zid: Oid) -> Seq<int> {
    select(s.items@.len() as int, |k: int| s.items@[k].zone_id == zid)
}

/// Positions in the snapshot of a Zone's visible child Zones and of its Items.
#[derive(Clone, Debug)]
pub struct ZoneChildren {
    pub zones: Vec<usize>,
    pub items: Vec<usize>,
}

pub fn properties_of_group(s: &Store, q: &Requester, gid: &Oid) -> (r: Vec<usize>)
    ensures
        as_ints(r@) == group_listing(s, *q, *gid),
{
    let ghost pred = |p: int|
        s.properties@[p].group_id == *gid && visible_to(s.properties@[p].visibility, *q);
    let mut r: Vec<usize> = Vec::new();
    let mut p: usize = 0;
    while p < s.properties.len()
        invariant
            0 <= p <= s.properties@.len(),
            pred == (|x: int|
                s.properties@[x].group_id == *gid && visible_to(s.properties@[x].visibility, *q)),
            as_ints(r@) == select(p as int, pred),
        decreases s.properties@.len() - p,
    {
        let prop = &s.properties[p];
        if prop.group_id.same(gid) && is_visible(&prop.visibility, q) {
            r.push(p);
            assert(select(p + 1, pred) == select(p as int, pred).push(p as int));
            assert(as_ints(r@) =~= select(p + 1, pred));
        } else {
            assert(select(p + 1, pred) == select(p as int, pred));
        }
        p = p + 1;
    }
    r
}

pub fn zone_children(s: &Store, q: &Requester, zid: &Oid) -> (r: ZoneChildren)
    ensures
        as_ints(r.zones@) == zone_listing(s, *q, *zid),
        as_ints(r.items@) == item_listing(s, *zid),
{
    let ghost zpred = |z: int|
        s.zones@[z].parent_zone_id == Some(*zid) && visible_to(s.zones@[z].visibility, *q);
    let mut zones: Vec<usize> = Vec::new();
    let mut z: usize = 0;
    while z < s.zones.len()
        invariant
            0 <= z <= s.zones@.len(),
            zpred == (|x: int|
                s.zones@[x].parent_zone_id == Some(*zid) && visible_to(s.zones@[x].visibility, *q)),
            as_ints(zones@) == select(z as int, zpred),
        decreases s.zones@.len() - z,
    {
        let zone = &s.zones[z];
        let child = match zone.parent_zone_id {
            Some(p) => p.same(zid),
            None => false,
        };
        if child && is_visible(&zone.visibility, q) {
            zones.push(z);
            assert(select(z + 1, zpred) == select(z as int, zpred).push(z as int));
            assert(as_ints(zones@) =~= select(z + 1, zpred));
        } else {
            assert(select(z + 1, zpred) == select(z as int, zpred));
        }
        z = z + 1;
    }
    let ghost ipred = |k: int| s.items@[k].zone_id == *zid;
    let mut items: Vec<usize> = Vec::new();
    let mut k: usize = 0;
    while k < s.items.len()
        invariant
            0 <= k <= s.items@.len(),
            ipred == (|x: int| s.items@[x].zone_id == *zid),
            as_ints(items@) == select(k as int, ipred),
        decreases s.items@.len() - k,
    {
        if s.items[k].zone_id.same(zid) {
            items.push(k);
            assert(select(k + 1, ipred) == select(k as int, ipred).push(k as int));
            assert(as_ints(items@) =~= select(k + 1, ipred));
        } else {
            assert(select(k + 1, ipred) == select(k as int, ipred));
        }
        k = k + 1;
    }
    ZoneChildren { zones, items }
}

} // verus!
