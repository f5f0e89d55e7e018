//! The containment tree a requester may see: Group, Property, nested Zones, Items.

use crate::ancestors::{ancestors_of, is_zone_chain, lemma_ancestor_round_trip, Chain, ResolveError};
use crate::ids::Oid;
use crate::model::{Requester, Role, Store};
use crate::select::{lemma_select, select};
use crate::visibility::{is_visible, visible_to};
use vstd::prelude::*;

verus! {

#[derive(Clone, Copy, Debug, PartialEq, Eq, Structural)]
pub enum NodeKind {
    Group,
    Property,
    Zone,
    Item,
}

/// A node of the tree handed to clients.
#[derive(Debug)]
pub struct TreeNode {
    pub id: Oid,
    pub name: String,
    pub kind: NodeKind,
    pub children: Vec<TreeNode>,
}

/// A tree node as a mathematical value.
pub struct NodeView {
    pub id: Oid,
    pub name: Seq<char>,
    pub kind: NodeKind,
    pub children: Seq<NodeView>,
}

/// The first `d` levels of `n` as a value (deeper children are cut off).
pub open spec fn view_at(n: TreeNode, d: nat) -> NodeView
    decreases d,
{
    NodeView {
        id: n.id,
        name: n.name@,
        kind: n.kind,
        children: if d == 0 {
            Seq::empty()
        } else {
            Seq::new(n.children@.len(), |i: int| view_at(n.children@[i], (d - 1) as nat))
        },
    }
}

/// The Group identifier `gid` is one of the requester's: a Group of theirs, or
/// any stored Group for an admin.
pub open spec fn group_selected(s: &Store, q: Requester, gid: Oid) -> bool {
    match q.role {
        Role::Admin => exists|g: int| 0 <= g < s.groups@.len() && #[trigger] s.groups@[g].id == gid,
        Role::Member => exists|m: int|
            0 <= m < s.memberships@.len() && #[trigger] s.memberships@[m].user_id == q.subject
                && s.memberships@[m].group_id == gid,
    }
}

/// Property `pi` belongs to one of the requester's Groups and is visible to them.
pub open spec fn prop_shown(s: &Store, q: Requester, pi: int) -> bool {
    visible_to(s.properties@[pi].visibility, q) && group_selected(s, q, s.properties@[pi].group_id)
}

/// Zone `zi` belongs to a shown Property and is visible to the requester.
pub open spec fn zone_shown(s: &Store, q: Requester, zi: int) -> bool {
    &&& visible_to(s.zones@[zi].visibility, q)
    &&& exists|pi: int|
        0 <= pi < s.properties@.len() && prop_shown(s, q, pi) && #[trigger] s.properties@[pi].id
            == s.zones@[zi].property_id
}

/// Shown Zone `zi` hangs directly under its Property: it has no parent, or no
/// shown Zone of the same Property carries its parent's identifier.
pub open spec fn is_root_zone(s: &Store, q: Requester, zi: int) -> bool {
    &&& zone_shown(s, q, zi)
    &&& match s.zones@[zi].parent_zone_id {
        None => true,
        Some(pid) => !exists|j: int|
            0 <= j < s.zones@.len() && zone_shown(s, q, j) && #[trigger] s.zones@[j].id == pid
                && s.zones@[j].property_id == s.zones@[zi].property_id,
    }
}

pub open spec fn child_zones(s: &Store, q: Requester, zi: int) -> Seq<int> {
    select(
        s.zones@.len() as int,
        |j: int|
            zone_shown(s, q, j) && s.zones@[j].property_id == s.zones@[zi].property_id
                && s.zones@[j].parent_zone_id == Some(s.zones@[zi].id),
    )
}

pub open spec fn zone_items(s: &Store, zi: int) -> Seq<int> {
    select(s.items@.len() as int, |k: int| s.items@[k].zone_id == s.zones@[zi].id)
}

pub open spec fn item_view(s: &Store, k: int) -> NodeView {
    NodeView { id: s.items@[k].id, name: s.items@[k].name@, kind: NodeKind::Item, children: Seq::empty() }
}

/// No cycle: the subtree of Zone `zi` ends within `fuel` levels.
pub open spec fn zone_ok(s: &Store, q: Requester, zi: int, fuel: nat) -> bool
    decreases fuel,
{
    if fuel == 0 {
        false
    } else {
        forall|k: int|
            0 <= k < child_zones(s, q, zi).len() ==> zone_ok(
                s,
                q,
                #[trigger] child_zones(s, q, zi)[k],
                (fuel - 1) as nat,
            )
    }
}

/// The subtree of Zone `zi`: its child Zones, then its Items.
pub open spec fn zone_view(s: &Store, q: Requester, zi: int, fuel: nat) -> NodeView
    decreases fuel,
{
    let cz = child_zones(s, q, zi);
    let it = zone_items(s, zi);
    NodeView {
        id: s.zones@[zi].id,
        name: s.zones@[zi].name@,
        kind: NodeKind::Zone,
        children: if fuel == 0 {
            Seq::empty()
        } else {
            Seq::new(cz.len(), |k: int| zone_view(s, q, cz[k], (fuel - 1) as nat)) + it.map_values(
                |k: int| item_view(s, k),
            )
        },
    }
}

pub open spec fn root_zones(s: &Store, q: Requester, pid: Oid) -> Seq<int> {
    select(
        s.zones@.len() as int,
        |j: int| is_root_zone(s, q, j) && s.zones@[j].property_id == pid,
    )
}

pub open spec fn group_properties(s: &Store, q: Requester, gi: int) -> Seq<int> {
    select(
        s.properties@.len() as int,
        |p: int| prop_shown(s, q, p) && s.properties@[p].group_id == s.groups@[gi].id,
    )
}

pub open spec fn shown_groups(s: &Store, q: Requester) -> Seq<int> {
    select(s.groups@.len() as int, |g: int| group_selected(s, q, s.groups@[g].id))
}

pub open spec fn prop_ok(s: &Store, q: Requester, pi: int) -> bool {
    let roots = root_zones(s, q, s.properties@[pi].id);
    forall|k: int| 0 <= k < roots.len() ==> zone_ok(s, q, #[trigger] roots[k], s.zones@.len())
}

pub open spec fn group_ok(s: &Store, q: Requester, gi: int) -> bool {
    let ps = group_properties(s, q, gi);
    forall|k: int| 0 <= k < ps.len() ==> prop_ok(s, q, #[trigger] ps[k])
}

/// The tree can be built: no shown Zone hierarchy runs in a cycle.
pub open spec fn forest_ok(s: &Store, q: Requester) -> bool {
    let gs = shown_groups(s, q);
    forall|k: int| 0 <= k < gs.len() ==> group_ok(s, q, #[trigger] gs[k])
}

pub open spec fn prop_view(s: &Store, q: Requester, pi: int) -> NodeView {
    let roots = root_zones(s, q, s.properties@[pi].id);
    NodeView {
        id: s.properties@[pi].id,
        name: s.properties@[pi].name@,
        kind: NodeKind::Property,
        children: Seq::new(roots.len(), |k: int| zone_view(s, q, roots[k], s.zones@.len())),
    }
}

pub open spec fn group_view(s: &Store, q: Requester, gi: int) -> NodeView {
    let ps = group_properties(s, q, gi);
    NodeView {
        id: s.groups@[gi].id,
        name: s.groups@[gi].name@,
        kind: NodeKind::Group,
        children: Seq::new(ps.len(), |k: int| prop_view(s, q, ps[k])),
    }
}

/// The tree the requester sees: one node per Group of theirs.
pub open spec fn forest_view(s: &Store, q: Requester) -> Seq<NodeView> {
    let gs = shown_groups(s, q);
    Seq::new(gs.len(), |k: int| group_view(s, q, gs[k]))
}

/// Depth at which a built forest is read as a value: it covers every level.
pub open spec fn forest_depth(s: &Store) -> nat {
    s.zones@.len() + 2
}

pub open spec fn forest_views(f: Seq<TreeNode>, d: nat) -> Seq<NodeView> {
    Seq::new(f.len(), |k: int| view_at(f[k], d))
}

#[derive(Clone, Copy, Debug, PartialEq, Eq, Structural)]
pub enum TreeError {
    /// Zone parent links run in a cycle.
    CorruptHierarchy,
}

/// Flags of the shown Properties and Zones, and of the root Zones.
pub(crate) struct Shown {
    pub(crate) props: Vec<bool>,
    pub(crate) zones: Vec<bool>,
    pub(crate) roots: Vec<bool>,
}

impl Shown {
    pub(crate) open spec fn holds(&self, s: &Store, q: Requester) -> bool {
        &&& self.props@.len() == s.properties@.len()
        &&& self.zones@.len() == s.zones@.len()
        &&& self.roots@.len() == s.zones@.len()
        &&& forall|p: int| 0 <= p < s.properties@.len() ==> #[trigger] self.props@[p] == prop_shown(s, q, p)
        &&& forall|z: int| 0 <= z < s.zones@.len() ==> #[trigger] self.zones@[z] == zone_shown(s, q, z)
        &&& forall|z: int| 0 <= z < s.zones@.len() ==> #[trigger] self.roots@[z] == is_root_zone(s, q, z)
    }
}

pub(crate) fn group_selected_exec(s: &Store, q: &Requester, gid: &Oid) -> (r: bool)
    ensures
        r == group_selected(s, *q, *gid),
{
    match q.role {
        Role::Admin => {
            let found = s.find_group(gid);
            proof {
                crate::model::lemma_first_index(crate::model::group_ids(s.groups@), *gid);
                if found is None {
                    assert forall|g: int| 0 <= g < s.groups@.len() implies s.groups@[g].id
                        != *gid by {
                        assert(crate::model::group_ids(s.groups@)[g] == s.groups@[g].id);
                    }
                }
            }
            found.is_some()
        },
        Role::Member => {
            let mut m: usize = 0;
            while m < s.memberships.len()
                invariant
                    0 <= m <= s.memberships@.len(),
                    q.role == Role::Member,
                    forall|j: int|
                        0 <= j < m ==> !(#[trigger] s.memberships@[j].user_id == q.subject
                            && s.memberships@[j].group_id == *gid),
                decreases s.memberships@.len() - m,
            {
                let ug = &s.memberships[m];
                if ug.user_id.same(&q.subject) && ug.group_id.same(gid) {
                    return true;
                }
                m = m + 1;
            }
            false
        },
    }
}

pub(crate) fn compute_shown(s: &Store, q: &Requester) -> (r: Shown)
    ensures
        r.holds(s, *q),
{
    let mut props: Vec<bool> = Vec::new();
    let mut p: usize = 0;
    while p < s.properties.len()
        invariant
            0 <= p <= s.properties@.len(),
            props@.len() == p,
            forall|j: int| 0 <= j < p ==> #[trigger] props@[j] == prop_shown(s, *q, j),
        decreases s.properties@.len() - p,
    {
        let pr = &s.properties[p];
        let f = is_visible(&pr.visibility, q) && group_selected_exec(s, q, &pr.group_id);
        props.push(f);
        p = p + 1;
    }
    let mut zones: Vec<bool> = Vec::new();
    let mut z: usize = 0;
    while z < s.zones.len()
        invariant
            0 <= z <= s.zones@.len(),
            zones@.len() == z,
            props@.len() == s.properties@.len(),
            forall|j: int| 0 <= j < s.properties@.len() ==> #[trigger] props@[j] == prop_shown(s, *q, j),
            forall|j: int| 0 <= j < z ==> #[trigger] zones@[j] == zone_shown(s, *q, j),
        decreases s.zones@.len() - z,
    {
        let zone = &s.zones[z];
        let mut found = false;
        if is_visible(&zone.visibility, q) {
            let mut k: usize = 0;
            while k < s.properties.len()
                invariant
                    0 <= k <= s.properties@.len(),
                    z < s.zones@.len(),
                    *zone == s.zones@[z as int],
                    props@.len() == s.properties@.len(),
                    forall|j: int|
                        0 <= j < s.properties@.len() ==> #[trigger] props@[j] == prop_shown(s, *q, j),
                    found <==> exists|pi: int|
                        0 <= pi < k && prop_shown(s, *q, pi) && #[trigger] s.properties@[pi].id
                            == zone.property_id,
                decreases s.properties@.len() - k,
            {
                if !found && props[k] && s.properties[k].id.same(&zone.property_id) {
                    found = true;
                }
                k = k + 1;
            }
        }
        zones.push(found);
        z = z + 1;
    }
    let mut roots: Vec<bool> = Vec::new();
    let mut z: usize = 0;
    while z < s.zones.len()
        invariant
            0 <= z <= s.zones@.len(),
            roots@.len() == z,
            zones@.len() == s.zones@.len(),
            forall|j: int| 0 <= j < s.zones@.len() ==> #[trigger] zones@[j] == zone_shown(s, *q, j),
            forall|j: int| 0 <= j < z ==> #[trigger] roots@[j] == is_root_zone(s, *q, j),
        decreases s.zones@.len() - z,
    {
        let zone = &s.zones[z];
        let root = if !zones[z] {
            false
        } else {
            match zone.parent_zone_id {
                None => true,
                Some(pid) => {
                    let mut hit = false;
                    let mut j: usize = 0;
                    while j < s.zones.len()
                        invariant
                            0 <= j <= s.zones@.len(),
                            z < s.zones@.len(),
                            *zone == s.zones@[z as int],
                            zones@.len() == s.zones@.len(),
                            forall|x: int|
                                0 <= x < s.zones@.len() ==> #[trigger] zones@[x] == zone_shown(
                                    s,
                                    *q,
                                    x,
                                ),
                            hit <==> exists|x: int|
                                0 <= x < j && zone_shown(s, *q, x) && #[trigger] s.zones@[x].id
                                    == pid && s.zones@[x].property_id == zone.property_id,
                        decreases s.zones@.len() - j,
                    {
                        if !hit && zones[j] && s.zones[j].id.same(&pid)
                            && s.zones[j].property_id.same(&zone.property_id) {
                            hit = true;
                        }
                        j = j + 1;
                    }
                    !hit
                },
            }
        };
        roots.push(root);
        z = z + 1;
    }
    Shown { props, zones, roots }
}

fn item_node(s: &Store, k: usize) -> (r: TreeNode)
    requires
        k < s.items@.len(),
    ensures
        forall|d: nat| #[trigger] view_at(r, d) == item_view(s, k as int),
{
    let item = &s.items[k];
    let r = TreeNode { id: item.id, name: item.name.clone(), kind: NodeKind::Item, children: Vec::new() };
    assert forall|d: nat| #[trigger] view_at(r, d) == item_view(s, k as int) by {
        assert(view_at(r, d).children =~= item_view(s, k as int).children);
    }
    r
}

fn parent_is(parent: &Option<Oid>, id: &Oid) -> (r: bool)
    ensures
        r == (*parent == Some(*id)),
{
    match parent {
        Some(p) => p.same(id),
        None => false,
    }
}

fn build_zone(s: &Store, q: &Requester, shown: &Shown, zi: usize, fuel: usize) -> (r: Result<TreeNode, TreeError>)
    requires
        shown.holds(s, *q),
        zi < s.zones@.len(),
    ensures
        r is Ok <==> zone_ok(s, *q, zi as int, fuel as nat),
        r is Ok ==> view_at(r->Ok_0, fuel as nat) == zone_view(s, *q, zi as int, fuel as nat),
    decreases fuel,
{
    if fuel == 0 {
        return Err(TreeError::CorruptHierarchy);
    }
    let zone = &s.zones[zi];
    let ghost f1 = (fuel - 1) as nat;
    let ghost zpred = |j: int|
        zone_shown(s, *q, j) && s.zones@[j].property_id == s.zones@[zi as int].property_id
            && s.zones@[j].parent_zone_id == Some(s.zones@[zi as int].id);
    let ghost cz = child_zones(s, *q, zi as int);
    proof {
        lemma_select(s.zones@.len() as int, zpred);
    }
    let mut children: Vec<TreeNode> = Vec::new();
    let mut j: usize = 0;
    while j < s.zones.len()
        invariant
            0 <= j <= s.zones@.len(),
            fuel >= 1,
            f1 == fuel - 1,
            zi < s.zones@.len(),
            *zone == s.zones@[zi as int],
            shown.holds(s, *q),
            zpred == (|x: int|
                zone_shown(s, *q, x) && s.zones@[x].property_id == s.zones@[zi as int].property_id
                    && s.zones@[x].parent_zone_id == Some(s.zones@[zi as int].id)),
            cz == select(s.zones@.len() as int, zpred),
            forall|x: int| 0 <= x < s.zones@.len() && zpred(x) ==> #[trigger] cz.contains(x),
            children@.len() == select(j as int, zpred).len(),
            forall|i: int|
                0 <= i < children@.len() ==> view_at(#[trigger] children@[i], f1) == zone_view(
                    s,
                    *q,
                    select(j as int, zpred)[i],
                    f1,
                ),
            forall|i: int|
                0 <= i < children@.len() ==> zone_ok(s, *q, #[trigger] select(j as int, zpred)[i], f1),
        decreases s.zones@.len() - j,
    {
        let ghost before = children@;
        if shown.zones[j] && s.zones[j].property_id.same(&zone.property_id) && parent_is(
            &s.zones[j].parent_zone_id,
            &zone.id,
        ) {
            assert(zpred(j as int));
            match build_zone(s, q, shown, j, fuel - 1) {
                Err(e) => {
                    assert(cz.contains(j as int));
                    let ghost k = choose|k: int| 0 <= k < cz.len() && cz[k] == j as int;
                    assert(!zone_ok(s, *q, cz[k], f1));
                    return Err(e);
                },
                Ok(c) => {
                    children.push(c);
                    assert(select(j + 1, zpred) == select(j as int, zpred).push(j as int));
                    assert(forall|i: int| 0 <= i < before.len() ==> children@[i] == before[i]);
                },
            }
        } else {
            assert(select(j + 1, zpred) == select(j as int, zpred));
        }
        j = j + 1;
    }
    let ghost ipred = |k: int| s.items@[k].zone_id == s.zones@[zi as int].id;
    let ghost it = zone_items(s, zi as int);
    let ghost nz = children@.len();
    assert(nz == cz.len());
    let mut k: usize = 0;
    while k < s.items.len()
        invariant
            0 <= k <= s.items@.len(),
            fuel >= 1,
            f1 == fuel - 1,
            zi < s.zones@.len(),
            *zone == s.zones@[zi as int],
            ipred == (|x: int| s.items@[x].zone_id == s.zones@[zi as int].id),
            cz == select(s.zones@.len() as int, zpred),
            nz == cz.len(),
            children@.len() == nz + select(k as int, ipred).len(),
            forall|i: int|
                0 <= i < nz ==> view_at(#[trigger] children@[i], f1) == zone_view(s, *q, cz[i], f1),
            forall|i: int|
                nz <= i < children@.len() ==> view_at(#[trigger] children@[i], f1) == item_view(
                    s,
                    select(k as int, ipred)[i - nz],
                ),
        decreases s.items@.len() - k,
    {
        let ghost before = children@;
        if s.items[k].zone_id.same(&zone.id) {
            let c = item_node(s, k);
            children.push(c);
            assert(select(k + 1, ipred) == select(k as int, ipred).push(k as int));
            assert(forall|i: int| 0 <= i < before.len() ==> children@[i] == before[i]);
            assert(view_at(children@[before.len() as int], f1) == item_view(s, k as int));
        } else {
            assert(select(k + 1, ipred) == select(k as int, ipred));
        }
        k = k + 1;
    }
    let node = TreeNode { id: zone.id, name: zone.name.clone(), kind: NodeKind::Zone, children };
    proof {
        assert(it == select(s.items@.len() as int, ipred));
        let want = Seq::new(cz.len(), |x: int| zone_view(s, *q, cz[x], f1)) + it.map_values(
            |x: int| item_view(s, x),
        );
        assert(view_at(node, fuel as nat).children =~= want);
        assert(zone_view(s, *q, zi as int, fuel as nat).children == want);
        assert(view_at(node, fuel as nat).name == zone_view(s, *q, zi as int, fuel as nat).name);
    }
    Ok(node)
}

fn build_property(s: &Store, q: &Requester, shown: &Shown, pi: usize) -> (r: Result<TreeNode, TreeError>)
    requires
        shown.holds(s, *q),
        pi < s.properties@.len(),
    ensures
        r is Ok <==> prop_ok(s, *q, pi as int),
        r is Ok ==> view_at(r->Ok_0, s.zones@.len() + 1) == prop_view(s, *q, pi as int),
{
    let prop = &s.properties[pi];
    let n = s.zones.len();
    let ghost rpred = |j: int| is_root_zone(s, *q, j) && s.zones@[j].property_id == prop.id;
    let ghost roots = root_zones(s, *q, prop.id);
    proof {
        lemma_select(n as int, rpred);
    }
    let mut children: Vec<TreeNode> = Vec::new();
    let mut j: usize = 0;
    while j < n
        invariant
            0 <= j <= n,
            n == s.zones@.len(),
            pi < s.properties@.len(),
            *prop == s.properties@[pi as int],
            shown.holds(s, *q),
            rpred == (|x: int| is_root_zone(s, *q, x) && s.zones@[x].property_id == prop.id),
            roots == select(n as int, rpred),
            forall|x: int| 0 <= x < n && rpred(x) ==> #[trigger] roots.contains(x),
            children@.len() == select(j as int, rpred).len(),
            forall|i: int|
                0 <= i < children@.len() ==> view_at(#[trigger] children@[i], n as nat) == zone_view(
                    s,
                    *q,
                    select(j as int, rpred)[i],
                    n as nat,
                ),
            forall|i: int|
                0 <= i < children@.len() ==> zone_ok(
                    s,
                    *q,
                    #[trigger] select(j as int, rpred)[i],
                    n as nat,
                ),
        decreases n - j,
    {
        let ghost before = children@;
        if shown.roots[j] && s.zones[j].property_id.same(&prop.id) {
            assert(rpred(j as int));
            match build_zone(s, q, shown, j, n) {
                Err(e) => {
                    assert(roots.contains(j as int));
                    let ghost k = choose|k: int| 0 <= k < roots.len() && roots[k] == j as int;
                    assert(!zone_ok(s, *q, roots[k], n as nat));
                    return Err(e);
                },
                Ok(c) => {
                    children.push(c);
                    assert(select(j + 1, rpred) == select(j as int, rpred).push(j as int));
                    assert(forall|i: int| 0 <= i < before.len() ==> children@[i] == before[i]);
                },
            }
        } else {
            assert(select(j + 1, rpred) == select(j as int, rpred));
        }
        j = j + 1;
    }
    let node = TreeNode { id: prop.id, name: prop.name.clone(), kind: NodeKind::Property, children };
    proof {
        assert(view_at(node, (n + 1) as nat).children =~= prop_view(s, *q, pi as int).children);
    }
    Ok(node)
}

fn build_group(s: &Store, q: &Requester, shown: &Shown, gi: usize) -> (r: Result<TreeNode, TreeError>)
    requires
        shown.holds(s, *q),
        gi < s.groups@.len(),
    ensures
        r is Ok <==> group_ok(s, *q, gi as int),
        r is Ok ==> view_at(r->Ok_0, forest_depth(s)) == group_view(s, *q, gi as int),
{
    let group = &s.groups[gi];
    let np = s.properties.len();
    let ghost ppred = |p: int| prop_shown(s, *q, p) && s.properties@[p].group_id == group.id;
    let ghost ps = group_properties(s, *q, gi as int);
    proof {
        lemma_select(np as int, ppred);
    }
    let mut children: Vec<TreeNode> = Vec::new();
    let mut p: usize = 0;
    while p < np
        invariant
            0 <= p <= np,
            np == s.properties@.len(),
            gi < s.groups@.len(),
            *group == s.groups@[gi as int],
            shown.holds(s, *q),
            ppred == (|x: int| prop_shown(s, *q, x) && s.properties@[x].group_id == group.id),
            ps == select(np as int, ppred),
            forall|x: int| 0 <= x < np && ppred(x) ==> #[trigger] ps.contains(x),
            children@.len() == select(p as int, ppred).len(),
            forall|i: int|
                0 <= i < children@.len() ==> view_at(#[trigger] children@[i], s.zones@.len() + 1)
                    == prop_view(s, *q, select(p as int, ppred)[i]),
            forall|i: int|
                0 <= i < children@.len() ==> prop_ok(s, *q, #[trigger] select(p as int, ppred)[i]),
        decreases np - p,
    {
        let ghost before = children@;
        if shown.props[p] && s.properties[p].group_id.same(&group.id) {
            assert(ppred(p as int));
            match build_property(s, q, shown, p) {
                Err(e) => {
                    assert(ps.contains(p as int));
                    let ghost k = choose|k: int| 0 <= k < ps.len() && ps[k] == p as int;
                    assert(!prop_ok(s, *q, ps[k]));
                    return Err(e);
                },
                Ok(c) => {
                    children.push(c);
                    assert(select(p + 1, ppred) == select(p as int, ppred).push(p as int));
                    assert(forall|i: int| 0 <= i < before.len() ==> children@[i] == before[i]);
                },
            }
        } else {
            assert(select(p + 1, ppred) == select(p as int, ppred));
        }
        p = p + 1;
    }
    let node = TreeNode { id: group.id, name: group.name.clone(), kind: NodeKind::Group, children };
    proof {
        assert(view_at(node, forest_depth(s)).children =~= group_view(s, *q, gi as int).children);
    }
    Ok(node)
}

/// The tree the requester may see, one node per Group of theirs. Fails only
/// when the parent links of shown Zones run in a cycle.
pub fn build_tree(s: &Store, q: &Requester) -> (r: Result<Vec<TreeNode>, TreeError>)
    ensures
        r is Ok <==> forest_ok(s, *q),
        r is Ok ==> forest_views(r->Ok_0@, forest_depth(s)) == forest_view(s, *q),
{
    let shown = compute_shown(s, q);
    let ng = s.groups.len();
    let ghost gpred = |g: int| group_selected(s, *q, s.groups@[g].id);
    let ghost gs = shown_groups(s, *q);
    proof {
        lemma_select(ng as int, gpred);
    }
    let mut forest: Vec<TreeNode> = Vec::new();
    let mut g: usize = 0;
    while g < ng
        invariant
            0 <= g <= ng,
            ng == s.groups@.len(),
            shown.holds(s, *q),
            gpred == (|x: int| group_selected(s, *q, s.groups@[x].id)),
            gs == select(ng as int, gpred),
            forall|x: int| 0 <= x < ng && gpred(x) ==> #[trigger] gs.contains(x),
            forest@.len() == select(g as int, gpred).len(),
            forall|i: int|
                0 <= i < forest@.len() ==> view_at(#[trigger] forest@[i], forest_depth(s))
                    == group_view(s, *q, select(g as int, gpred)[i]),
            forall|i: int|
                0 <= i < forest@.len() ==> group_ok(s, *q, #[trigger] select(g as int, gpred)[i]),
        decreases ng - g,
    {
        let ghost before = forest@;
        if group_selected_exec(s, q, &s.groups[g].id) {
            assert(gpred(g as int));
            match build_group(s, q, &shown, g) {
                Err(e) => {
                    assert(gs.contains(g as int));
                    let ghost k = choose|k: int| 0 <= k < gs.len() && gs[k] == g as int;
                    assert(!group_ok(s, *q, gs[k]));
                    assert(gs == shown_groups(s, *q));
                    assert(!forest_ok(s, *q));
                    return Err(e);
                },
                Ok(c) => {
                    forest.push(c);
                    assert(select(g + 1, gpred) == select(g as int, gpred).push(g as int));
                    assert(forall|i: int| 0 <= i < before.len() ==> forest@[i] == before[i]);
                },
            }
        } else {
            assert(select(g + 1, gpred) == select(g as int, gpred));
        }
        g = g + 1;
    }
    assert(forest_views(forest@, forest_depth(s)) =~= forest_view(s, *q));
    Ok(forest)
}

/// Idempotent re-query. Two trees built from the same snapshot for the same
/// requester are identical at every level.
pub proof fn lemma_tree_requery(s: &Store, q: Requester, f1: Seq<TreeNode>, f2: Seq<TreeNode>)
    requires
        forest_views(f1, forest_depth(s)) == forest_view(s, q),
        forest_views(f2, forest_depth(s)) == forest_view(s, q),
    ensures
        forest_views(f1, forest_depth(s)) == forest_views(f2, forest_depth(s)),
        f1.len() == f2.len(),
{
    assert(forest_views(f1, forest_depth(s)).len() == f1.len());
    assert(forest_views(f2, forest_depth(s)).len() == f2.len());
}

/// Dangling-parent tolerance. A shown Zone whose parent identifier names no
/// shown Zone of its Property (missing, hidden, or elsewhere) still appears,
/// as a child of its Property's node.
pub proof fn lemma_dangling_parent_is_root(s: &Store, q: Requester, zi: int, pi: int, gi: int)
    requires
        s.wf(),
        0 <= zi < s.zones@.len(),
        0 <= pi < s.properties@.len(),
        0 <= gi < s.groups@.len(),
        zone_shown(s, q, zi),
        s.zones@[zi].property_id == s.properties@[pi].id,
        s.properties@[pi].group_id == s.groups@[gi].id,
        s.zones@[zi].parent_zone_id is Some,
        !exists|j: int|
            0 <= j < s.zones@.len() && zone_shown(s, q, j) && #[trigger] s.zones@[j].id
                == s.zones@[zi].parent_zone_id->0 && s.zones@[j].property_id
                == s.zones@[zi].property_id,
    ensures
        exists|a: int, b: int, c: int|
            0 <= a < forest_view(s, q).len() && 0 <= b < forest_view(s, q)[a].children.len() && 0
                <= c < forest_view(s, q)[a].children[b].children.len() && forest_view(s, q)[a].id
                == s.groups@[gi].id && forest_view(s, q)[a].children[b].id == s.properties@[pi].id
                && #[trigger] forest_view(s, q)[a].children[b].children[c].id == s.zones@[zi].id
                && forest_view(s, q)[a].children[b].children[c].kind == NodeKind::Zone,
{
    let n = s.zones@.len() as int;
    let pi2 = choose|x: int|
        0 <= x < s.properties@.len() && prop_shown(s, q, x) && #[trigger] s.properties@[x].id
            == s.zones@[zi].property_id;
    assert(crate::model::property_ids(s.properties@)[pi2] == s.properties@[pi2].id);
    assert(crate::model::property_ids(s.properties@)[pi] == s.properties@[pi].id);
    assert(pi2 == pi);
    assert(is_root_zone(s, q, zi));
    let pid = s.properties@[pi].id;
    let rpred = |j: int| is_root_zone(s, q, j) && s.zones@[j].property_id == pid;
    lemma_select(n, rpred);
    assert(rpred(zi));
    let roots = root_zones(s, q, pid);
    assert(roots.contains(zi));
    let c = choose|c: int| 0 <= c < roots.len() && roots[c] == zi;
    let ppred = |p: int| prop_shown(s, q, p) && s.properties@[p].group_id == s.groups@[gi].id;
    lemma_select(s.properties@.len() as int, ppred);
    assert(ppred(pi));
    let ps = group_properties(s, q, gi);
    assert(ps.contains(pi));
    let b = choose|b: int| 0 <= b < ps.len() && ps[b] == pi;
    let gpred = |g: int| group_selected(s, q, s.groups@[g].id);
    lemma_select(s.groups@.len() as int, gpred);
    assert(gpred(gi));
    let gs = shown_groups(s, q);
    assert(gs.contains(gi));
    let a = choose|a: int| 0 <= a < gs.len() && gs[a] == gi;
    assert(forest_view(s, q)[a] == group_view(s, q, gi));
    assert(group_view(s, q, gi).children[b] == prop_view(s, q, pi));
    assert(prop_view(s, q, pi).children[c] == zone_view(s, q, zi, n as nat));
    assert(forest_view(s, q)[a].children[b].children[c].id == s.zones@[zi].id);
}

/// A node within `d` levels below `v` (or `v` itself) has identifier `id` and kind `kind`.
pub open spec fn occurs(v: NodeView, id: Oid, kind: NodeKind, d: nat) -> bool
    decreases d,
{
    (v.id == id && v.kind == kind) || (d > 0 && exists|i: int|
        0 <= i < v.children.len() && occurs(#[trigger] v.children[i], id, kind, (d - 1) as nat))
}

proof fn lemma_zone_subtree(s: &Store, q: Requester, zi: int, f: nat, id: Oid, kind: NodeKind, d: nat)
    requires
        0 <= zi < s.zones@.len(),
        zone_shown(s, q, zi),
        occurs(zone_view(s, q, zi, f), id, kind, d),
    ensures
        kind == NodeKind::Zone || kind == NodeKind::Item,
        kind == NodeKind::Zone ==> exists|j: int|
            0 <= j < s.zones@.len() && zone_shown(s, q, j) && #[trigger] s.zones@[j].id == id,
    decreases d,
{
    let v = zone_view(s, q, zi, f);
    if v.id == id && v.kind == kind {
        assert(s.zones@[zi].id == id);
    } else {
        let i = choose|i: int|
            0 <= i < v.children.len() && occurs(#[trigger] v.children[i], id, kind, (d - 1) as nat);
        let cz = child_zones(s, q, zi);
        let zpred = |j: int|
            zone_shown(s, q, j) && s.zones@[j].property_id == s.zones@[zi].property_id
                && s.zones@[j].parent_zone_id == Some(s.zones@[zi].id);
        lemma_select(s.zones@.len() as int, zpred);
        if i < cz.len() {
            assert(v.children[i] == zone_view(s, q, cz[i], (f - 1) as nat));
            assert(zpred(cz[i]));
            lemma_zone_subtree(s, q, cz[i], (f - 1) as nat, id, kind, (d - 1) as nat);
        } else {
            let it = zone_items(s, zi);
            let w = v.children[i];
            assert(w == item_view(s, it[i - cz.len()]));
            assert(w.children.len() == 0);
            if !(w.id == id && w.kind == kind) {
                assert(!occurs(w, id, kind, (d - 1) as nat));
            }
        }
    }
}

/// Every Property node of the tree is a shown Property, every Zone node a shown Zone.
proof fn lemma_forest_nodes(s: &Store, q: Requester, k: int, id: Oid, kind: NodeKind, d: nat)
    requires
        0 <= k < forest_view(s, q).len(),
        occurs(forest_view(s, q)[k], id, kind, d),
    ensures
        kind == NodeKind::Property ==> exists|p: int|
            0 <= p < s.properties@.len() && prop_shown(s, q, p) && #[trigger] s.properties@[p].id
                == id,
        kind == NodeKind::Zone ==> exists|j: int|
            0 <= j < s.zones@.len() && zone_shown(s, q, j) && #[trigger] s.zones@[j].id == id,
{
    let gs = shown_groups(s, q);
    let gi = gs[k];
    let gpred = |g: int| group_selected(s, q, s.groups@[g].id);
    lemma_select(s.groups@.len() as int, gpred);
    let gv = group_view(s, q, gi);
    assert(forest_view(s, q)[k] == gv);
    if !(gv.id == id && gv.kind == kind) {
        let b = choose|b: int|
            0 <= b < gv.children.len() && occurs(#[trigger] gv.children[b], id, kind, (d - 1) as nat);
        let ps = group_properties(s, q, gi);
        let ppred = |p: int| prop_shown(s, q, p) && s.properties@[p].group_id == s.groups@[gi].id;
        lemma_select(s.properties@.len() as int, ppred);
        let pi = ps[b];
        assert(ppred(pi));
        let pv = prop_view(s, q, pi);
        assert(gv.children[b] == pv);
        let d1 = (d - 1) as nat;
        if !(pv.id == id && pv.kind == kind) {
            let c = choose|c: int|
                0 <= c < pv.children.len() && occurs(#[trigger] pv.children[c], id, kind, (d1 - 1) as nat);
            let roots = root_zones(s, q, s.properties@[pi].id);
            let rpred = |j: int| is_root_zone(s, q, j) && s.zones@[j].property_id == s.properties@[pi].id;
            lemma_select(s.zones@.len() as int, rpred);
            assert(rpred(roots[c]));
            assert(pv.children[c] == zone_view(s, q, roots[c], s.zones@.len() as nat));
            lemma_zone_subtree(s, q, roots[c], s.zones@.len() as nat, id, kind, (d1 - 1) as nat);
        }
    }
}

/// Visibility exclusion for Zones. A Zone that the requester may not see (one
/// private to another user, for a non-admin) has no node anywhere in their tree.
pub proof fn lemma_hidden_zone_absent(s: &Store, q: Requester, zi: int, d: nat)
    requires
        s.wf(),
        0 <= zi < s.zones@.len(),
        !visible_to(s.zones@[zi].visibility, q),
    ensures
        forall|k: int|
            0 <= k < forest_view(s, q).len() ==> !occurs(
                #[trigger] forest_view(s, q)[k],
                s.zones@[zi].id,
                NodeKind::Zone,
                d,
            ),
{
    assert forall|k: int| 0 <= k < forest_view(s, q).len() implies !occurs(
        #[trigger] forest_view(s, q)[k],
        s.zones@[zi].id,
        NodeKind::Zone,
        d,
    ) by {
        if occurs(forest_view(s, q)[k], s.zones@[zi].id, NodeKind::Zone, d) {
            lemma_forest_nodes(s, q, k, s.zones@[zi].id, NodeKind::Zone, d);
            let j = choose|j: int|
                0 <= j < s.zones@.len() && zone_shown(s, q, j) && #[trigger] s.zones@[j].id
                    == s.zones@[zi].id;
            assert(crate::model::zone_ids(s.zones@)[j] == s.zones@[j].id);
            assert(crate::model::zone_ids(s.zones@)[zi] == s.zones@[zi].id);
            assert(j == zi);
        }
    }
}

/// Visibility exclusion for Properties. A Property that the requester may not
/// see has no node anywhere in their tree.
pub proof fn lemma_hidden_property_absent(s: &Store, q: Requester, pi: int, d: nat)
    requires
        s.wf(),
        0 <= pi < s.properties@.len(),
        !visible_to(s.properties@[pi].visibility, q),
    ensures
        forall|k: int|
            0 <= k < forest_view(s, q).len() ==> !occurs(
                #[trigger] forest_view(s, q)[k],
                s.properties@[pi].id,
                NodeKind::Property,
                d,
            ),
{
    assert forall|k: int| 0 <= k < forest_view(s, q).len() implies !occurs(
        #[trigger] forest_view(s, q)[k],
        s.properties@[pi].id,
        NodeKind::Property,
        d,
    ) by {
        if occurs(forest_view(s, q)[k], s.properties@[pi].id, NodeKind::Property, d) {
            lemma_forest_nodes(s, q, k, s.properties@[pi].id, NodeKind::Property, d);
            let j = choose|j: int|
                0 <= j < s.properties@.len() && prop_shown(s, q, j) && #[trigger] s.properties@[j].id
                    == s.properties@[pi].id;
            assert(crate::model::property_ids(s.properties@)[j] == s.properties@[j].id);
            assert(crate::model::property_ids(s.properties@)[pi] == s.properties@[pi].id);
            assert(j == pi);
        }
    }
}

/// Visibility for the owner and for admins. A Property of one of the
/// requester's Groups that they may see has a node under that Group's node.
pub proof fn lemma_visible_property_present(s: &Store, q: Requester, pi: int, gi: int)
    requires
        0 <= pi < s.properties@.len(),
        0 <= gi < s.groups@.len(),
        visible_to(s.properties@[pi].visibility, q),
        group_selected(s, q, s.groups@[gi].id),
        s.properties@[pi].group_id == s.groups@[gi].id,
    ensures
        exists|a: int, b: int|
            0 <= a < forest_view(s, q).len() && 0 <= b < forest_view(s, q)[a].children.len()
                && forest_view(s, q)[a].id == s.groups@[gi].id && #[trigger] forest_view(
                s,
                q,
            )[a].children[b].id == s.properties@[pi].id && forest_view(s, q)[a].children[b].kind
                == NodeKind::Property,
{
    let ppred = |p: int| prop_shown(s, q, p) && s.properties@[p].group_id == s.groups@[gi].id;
    lemma_select(s.properties@.len() as int, ppred);
    assert(ppred(pi));
    let ps = group_properties(s, q, gi);
    assert(ps.contains(pi));
    let b = choose|b: int| 0 <= b < ps.len() && ps[b] == pi;
    let gpred = |g: int| group_selected(s, q, s.groups@[g].id);
    lemma_select(s.groups@.len() as int, gpred);
    assert(gpred(gi));
    let gs = shown_groups(s, q);
    assert(gs.contains(gi));
    let a = choose|a: int| 0 <= a < gs.len() && gs[a] == gi;
    assert(forest_view(s, q)[a] == group_view(s, q, gi));
    assert(group_view(s, q, gi).children[b] == prop_view(s, q, pi));
    assert(forest_view(s, q)[a].children[b].id == s.properties@[pi].id);
}

/// `v` is the Zone node `zids[0]`, with the Zone node `zids[1]` among its
/// children, and so on; the last of them has the Item node `x` among its children.
pub open spec fn item_under(v: NodeView, zids: Seq<Oid>, x: Oid) -> bool
    decreases zids.len(),
{
    &&& zids.len() >= 1
    &&& v.kind == NodeKind::Zone
    &&& v.id == zids[0]
    &&& if zids.len() == 1 {
        exists|i: int|
            0 <= i < v.children.len() && v.children[i].kind == NodeKind::Item && #[trigger] v.children[i].id
                == x
    } else {
        exists|i: int|
            0 <= i < v.children.len() && item_under(#[trigger] v.children[i], zids.drop_first(), x)
    }
}

/// Reads back, from an Item's place below Zone `zi`, the chain of Zones it lies in.
proof fn lemma_item_path(s: &Store, q: Requester, zi: int, f: nat, zids: Seq<Oid>, x: Oid) -> (zs: Seq<int>)
    requires
        0 <= zi < s.zones@.len(),
        zone_shown(s, q, zi),
        item_under(zone_view(s, q, zi, f), zids, x),
    ensures
        zs.len() == zids.len(),
        zs[0] == zi,
        forall|i: int| 0 <= i < zs.len() ==> 0 <= #[trigger] zs[i] < s.zones@.len(),
        forall|i: int| 0 <= i < zs.len() ==> s.zones@[#[trigger] zs[i]].id == zids[i],
        forall|i: int|
            1 <= i < zs.len() ==> s.zones@[#[trigger] zs[i]].property_id == s.zones@[zs[i - 1]].property_id
                && s.zones@[zs[i]].parent_zone_id == Some(s.zones@[zs[i - 1]].id),
        exists|k: int|
            0 <= k < s.items@.len() && #[trigger] s.items@[k].id == x && s.items@[k].zone_id
                == s.zones@[zs.last()].id,
    decreases zids.len(),
{
    let v = zone_view(s, q, zi, f);
    let cz = child_zones(s, q, zi);
    let it = zone_items(s, zi);
    let zpred = |j: int|
        zone_shown(s, q, j) && s.zones@[j].property_id == s.zones@[zi].property_id
            && s.zones@[j].parent_zone_id == Some(s.zones@[zi].id);
    lemma_select(s.zones@.len() as int, zpred);
    let ipred = |k: int| s.items@[k].zone_id == s.zones@[zi].id;
    lemma_select(s.items@.len() as int, ipred);
    if zids.len() == 1 {
        let i = choose|i: int|
            0 <= i < v.children.len() && v.children[i].kind == NodeKind::Item && #[trigger] v.children[i].id
                == x;
        if i < cz.len() {
            assert(v.children[i] == zone_view(s, q, cz[i], (f - 1) as nat));
        }
        let k = it[i - cz.len()];
        assert(v.children[i] == item_view(s, k));
        assert(ipred(k));
        seq![zi]
    } else {
        let i = choose|i: int|
            0 <= i < v.children.len() && item_under(#[trigger] v.children[i], zids.drop_first(), x);
        if i >= cz.len() {
            assert(v.children[i] == item_view(s, it[i - cz.len()]));
        }
        assert(v.children[i] == zone_view(s, q, cz[i], (f - 1) as nat));
        assert(zpred(cz[i]));
        let rest = lemma_item_path(s, q, cz[i], (f - 1) as nat, zids.drop_first(), x);
        let zs = seq![zi] + rest;
        assert forall|j: int| 0 <= j < zs.len() implies s.zones@[#[trigger] zs[j]].id == zids[j] by {
            if j > 0 {
                assert(zs[j] == rest[j - 1]);
            }
        }
        assert forall|j: int| 1 <= j < zs.len() implies s.zones@[#[trigger] zs[j]].property_id
            == s.zones@[zs[j - 1]].property_id && s.zones@[zs[j]].parent_zone_id == Some(
            s.zones@[zs[j - 1]].id,
        ) by {
            assert(zs[j] == rest[j - 1]);
            if j > 1 {
                assert(zs[j - 1] == rest[j - 2]);
            }
        }
        assert(zs.last() == rest.last());
        zs
    }
}

/// Tree/ancestor consistency. Where an Item node `x` lies under the Zone nodes
/// `zids` (outermost first), a Property node and a Group node, the ancestors
/// of `x` are exactly those Zones, that Property and that Group. This holds
/// when each Zone that the tree hangs directly under a Property has no parent
/// Zone in the snapshot either (no parent, its Property, or a missing one);
/// where such a Zone's parent is a hidden Zone, the ancestors go on to it.
pub proof fn lemma_tree_matches_ancestors(
    s: &Store,
    q: Requester,
    a: int,
    b: int,
    c: int,
    zids: Seq<Oid>,
    x: Oid,
)
    requires
        s.wf(),
        forall|z: int|
            0 <= z < s.zones@.len() && #[trigger] is_root_zone(s, q, z) ==> match s.zones@[z].parent_zone_id {
                None => true,
                Some(pid) => pid == s.zones@[z].property_id || s.zone_index(pid) < 0,
            },
        0 <= a < forest_view(s, q).len(),
        0 <= b < forest_view(s, q)[a].children.len(),
        0 <= c < forest_view(s, q)[a].children[b].children.len(),
        item_under(forest_view(s, q)[a].children[b].children[c], zids, x),
    ensures
        ancestors_of(s, x) is Ok,
        ({
            let ch = ancestors_of(s, x)->Ok_0;
            {
                &&& ch.group is Some && ch.property is Some
                &&& s.groups@[ch.group->0].id == forest_view(s, q)[a].id
                &&& s.properties@[ch.property->0].id == forest_view(s, q)[a].children[b].id
                &&& ch.zones.map_values(|i: int| s.zones@[i].id) == zids
            }
        }),
{
    let n = s.zones@.len() as int;
    let (gi, pi, r) = lemma_root_node(s, q, a, b, c);
    let zs = lemma_item_path(s, q, r, n as nat, zids, x);
    assert(zs[0] == r);
    assert(is_root_zone(s, q, r));
    assert(match s.zones@[zs[0]].parent_zone_id {
        None => true,
        Some(pid) => pid == s.zones@[zs[0]].property_id || s.zone_index(pid) < 0,
    });
    lemma_path_is_chain(s, zs, pi);
    let k = choose|k: int|
        0 <= k < s.items@.len() && #[trigger] s.items@[k].id == x && s.items@[k].zone_id
            == s.zones@[zs.last()].id;
    lemma_ancestor_round_trip(s, k, zs, pi, gi);
    let ch = Chain { group: Some(gi), property: Some(pi), zones: zs };
    assert(ch.zones.map_values(|i: int| s.zones@[i].id) =~= zids);
    assert(ancestors_of(s, x) == Ok::<Chain, ResolveError>(ch));
}

/// The Group, the Property and the root Zone behind a root Zone node of the tree.
proof fn lemma_root_node(s: &Store, q: Requester, a: int, b: int, c: int) -> (res: (int, int, int))
    requires
        0 <= a < forest_view(s, q).len(),
        0 <= b < forest_view(s, q)[a].children.len(),
        0 <= c < forest_view(s, q)[a].children[b].children.len(),
    ensures
        0 <= res.0 < s.groups@.len(),
        0 <= res.1 < s.properties@.len(),
        0 <= res.2 < s.zones@.len(),
        forest_view(s, q)[a].id == s.groups@[res.0].id,
        forest_view(s, q)[a].children[b].id == s.properties@[res.1].id,
        forest_view(s, q)[a].children[b].children[c] == zone_view(s, q, res.2, s.zones@.len() as nat),
        s.properties@[res.1].group_id == s.groups@[res.0].id,
        s.zones@[res.2].property_id == s.properties@[res.1].id,
        is_root_zone(s, q, res.2),
{
    let n = s.zones@.len() as int;
    let gs = shown_groups(s, q);
    let gi = gs[a];
    let gpred = |g: int| group_selected(s, q, s.groups@[g].id);
    lemma_select(s.groups@.len() as int, gpred);
    let ps = group_properties(s, q, gi);
    let ppred = |p: int| prop_shown(s, q, p) && s.properties@[p].group_id == s.groups@[gi].id;
    lemma_select(s.properties@.len() as int, ppred);
    let pi = ps[b];
    assert(ppred(pi));
    let roots = root_zones(s, q, s.properties@[pi].id);
    let rpred = |j: int| is_root_zone(s, q, j) && s.zones@[j].property_id == s.properties@[pi].id;
    lemma_select(n, rpred);
    let r = roots[c];
    assert(rpred(r));
    assert(forest_view(s, q)[a] == group_view(s, q, gi));
    assert(group_view(s, q, gi).children[b] == prop_view(s, q, pi));
    assert(prop_view(s, q, pi).children[c] == zone_view(s, q, r, n as nat));
    (gi, pi, r)
}

proof fn lemma_chain_property(s: &Store, zs: Seq<int>, i: int)
    requires
        0 <= i < zs.len(),
        forall|j: int|
            1 <= j < zs.len() ==> s.zones@[#[trigger] zs[j]].property_id == s.zones@[zs[j - 1]].property_id,
    ensures
        s.zones@[zs[i]].property_id == s.zones@[zs[0]].property_id,
    decreases i,
{
    if i > 0 {
        lemma_chain_property(s, zs, i - 1);
    }
}

proof fn lemma_path_is_chain(s: &Store, zs: Seq<int>, pi: int)
    requires
        0 <= pi < s.properties@.len(),
        zs.len() >= 1,
        forall|i: int| 0 <= i < zs.len() ==> 0 <= #[trigger] zs[i] < s.zones@.len(),
        s.zones@[zs[0]].property_id == s.properties@[pi].id,
        forall|i: int|
            1 <= i < zs.len() ==> s.zones@[#[trigger] zs[i]].property_id == s.zones@[zs[i - 1]].property_id
                && s.zones@[zs[i]].parent_zone_id == Some(s.zones@[zs[i - 1]].id),
        match s.zones@[zs[0]].parent_zone_id {
            None => true,
            Some(pid) => pid == s.zones@[zs[0]].property_id || s.zone_index(pid) < 0,
        },
    ensures
        is_zone_chain(s, zs, pi),
{
    assert forall|i: int| 0 <= i < zs.len() implies (#[trigger] s.zones@[zs[i]]).property_id
        == s.properties@[pi].id by {
        lemma_chain_property(s, zs, i);
    }
}

/// `chain` lists shown Zones, each a child of the one before in the tree,
/// from the root Zone `chain[0]` down.
pub open spec fn is_shown_chain(s: &Store, q: Requester, chain: Seq<int>) -> bool {
    &&& chain.len() >= 1
    &&& forall|k: int| 0 <= k < chain.len() ==> 0 <= #[trigger] chain[k] < s.zones@.len()
    &&& is_root_zone(s, q, chain[0])
    &&& forall|k: int| 0 <= k < chain.len() ==> zone_shown(s, q, #[trigger] chain[k])
    &&& forall|k: int|
        1 <= k < chain.len() ==> s.zones@[#[trigger] chain[k]].property_id == s.zones@[chain[k
            - 1]].property_id && s.zones@[chain[k]].parent_zone_id == Some(s.zones@[chain[k - 1]].id)
}

proof fn lemma_shown_chain_distinct_at(s: &Store, q: Requester, chain: Seq<int>, i: int, j: int)
    requires
        s.wf(),
        is_shown_chain(s, q, chain),
        0 <= i < j < chain.len(),
    ensures
        chain[i] != chain[j],
    decreases i,
{
    if chain[i] == chain[j] {
        let prev_j = chain[j - 1];
        if i == 0 {
            lemma_chain_property(s, chain, j - 1);
            lemma_chain_property(s, chain, j);
            assert(zone_shown(s, q, prev_j));
        } else {
            let prev_i = chain[i - 1];
            assert(crate::model::zone_ids(s.zones@)[prev_i] == s.zones@[prev_i].id);
            assert(crate::model::zone_ids(s.zones@)[prev_j] == s.zones@[prev_j].id);
            lemma_shown_chain_distinct_at(s, q, chain, i - 1, j - 1);
        }
    }
}

proof fn lemma_shown_chain_fits(s: &Store, q: Requester, chain: Seq<int>)
    requires
        s.wf(),
        is_shown_chain(s, q, chain),
    ensures
        chain.len() <= s.zones@.len(),
{
    assert forall|i: int, j: int| 0 <= i < chain.len() && 0 <= j < chain.len() && i != j implies chain[i]
        != chain[j] by {
        if i < j {
            lemma_shown_chain_distinct_at(s, q, chain, i, j);
        } else {
            lemma_shown_chain_distinct_at(s, q, chain, j, i);
        }
    }
    chain.unique_seq_to_set();
    vstd::set_lib::lemma_int_range(0, s.zones@.len() as int);
    assert(chain.to_set().subset_of(vstd::set_lib::set_int_range(0, s.zones@.len() as int)));
    vstd::set_lib::lemma_len_subset(
        chain.to_set(),
        vstd::set_lib::set_int_range(0, s.zones@.len() as int),
    );
}

proof fn lemma_chain_occurs(s: &Store, q: Requester, chain: Seq<int>, i: int, f: nat)
    requires
        is_shown_chain(s, q, chain),
        0 <= i < chain.len(),
        f + i >= chain.len(),
    ensures
        occurs(
            zone_view(s, q, chain[i], f),
            s.zones@[chain.last()].id,
            NodeKind::Zone,
            (chain.len() - 1 - i) as nat,
        ),
    decreases chain.len() - i,
{
    if i < chain.len() - 1 {
        let zi = chain[i];
        let next = chain[i + 1];
        lemma_chain_occurs(s, q, chain, i + 1, (f - 1) as nat);
        let zpred = |j: int|
            zone_shown(s, q, j) && s.zones@[j].property_id == s.zones@[zi].property_id
                && s.zones@[j].parent_zone_id == Some(s.zones@[zi].id);
        lemma_select(s.zones@.len() as int, zpred);
        assert(zpred(next));
        let cz = child_zones(s, q, zi);
        assert(cz.contains(next));
        let m = choose|m: int| 0 <= m < cz.len() && cz[m] == next;
        let v = zone_view(s, q, zi, f);
        assert(v.children[m] == zone_view(s, q, next, (f - 1) as nat));
    }
}

/// Visibility for the owner and for admins, for Zones. A Zone that is shown
/// to the requester, at the end of a chain of shown Zones that starts at the
/// top of its Property, has a node in the tree, under its Group and Property.
pub proof fn lemma_visible_zone_present(s: &Store, q: Requester, chain: Seq<int>, pi: int, gi: int)
    requires
        s.wf(),
        is_shown_chain(s, q, chain),
        0 <= pi < s.properties@.len(),
        0 <= gi < s.groups@.len(),
        s.zones@[chain[0]].property_id == s.properties@[pi].id,
        s.properties@[pi].group_id == s.groups@[gi].id,
    ensures
        exists|a: int, b: int, c: int|
            0 <= a < forest_view(s, q).len() && 0 <= b < forest_view(s, q)[a].children.len() && 0
                <= c < forest_view(s, q)[a].children[b].children.len() && forest_view(s, q)[a].id
                == s.groups@[gi].id && forest_view(s, q)[a].children[b].id == s.properties@[pi].id
                && occurs(
                #[trigger] forest_view(s, q)[a].children[b].children[c],
                s.zones@[chain.last()].id,
                NodeKind::Zone,
                (chain.len() - 1) as nat,
            ),
{
    let n = s.zones@.len() as int;
    let zi = chain[0];
    lemma_shown_chain_fits(s, q, chain);
    lemma_chain_occurs(s, q, chain, 0, n as nat);
    let pi2 = choose|x: int|
        0 <= x < s.properties@.len() && prop_shown(s, q, x) && #[trigger] s.properties@[x].id
            == s.zones@[zi].property_id;
    assert(crate::model::property_ids(s.properties@)[pi2] == s.properties@[pi2].id);
    assert(crate::model::property_ids(s.properties@)[pi] == s.properties@[pi].id);
    assert(pi2 == pi);
    let pid = s.properties@[pi].id;
    let rpred = |j: int| is_root_zone(s, q, j) && s.zones@[j].property_id == pid;
    lemma_select(n, rpred);
    assert(rpred(zi));
    let roots = root_zones(s, q, pid);
    assert(roots.contains(zi));
    let c = choose|c: int| 0 <= c < roots.len() && roots[c] == zi;
    let ppred = |p: int| prop_shown(s, q, p) && s.properties@[p].group_id == s.groups@[gi].id;
    lemma_select(s.properties@.len() as int, ppred);
    assert(ppred(pi));
    let ps = group_properties(s, q, gi);
    assert(ps.contains(pi));
    let b = choose|b: int| 0 <= b < ps.len() && ps[b] == pi;
    let gpred = |g: int| group_selected(s, q, s.groups@[g].id);
    lemma_select(s.groups@.len() as int, gpred);
    assert(gpred(gi));
    let gs = shown_groups(s, q);
    assert(gs.contains(gi));
    let a = choose|a: int| 0 <= a < gs.len() && gs[a] == gi;
    assert(forest_view(s, q)[a] == group_view(s, q, gi));
    assert(group_view(s, q, gi).children[b] == prop_view(s, q, pi));
    assert(prop_view(s, q, pi).children[c] == zone_view(s, q, zi, n as nat));
}

} // verus!
