//! Cascading deletion of a Zone: every Zone nested below it, deepest first,
//! each preceded by its Items, and the Zone itself last.

use crate::ids::Oid;
use crate::model::Store;
use crate::select::{lemma_select, lemma_select_len_split, lemma_select_same, select};
use vstd::prelude::*;

verus! {

/// One deletion of a cascade.
#[derive(Clone, Copy, Debug, PartialEq, Eq)]
pub enum Deletion {
    Item(Oid),
    Zone(Oid),
    Property(Oid),
    Membership(Oid),
    Group(Oid),
}

/// Number of parent links from Zone `zi` up to the Zone identified `root`,
/// or -1 when the links end elsewhere or `fuel` runs out first.
pub open spec fn climb(s: &Store, zi: int, root: Oid, fuel: nat) -> int
    decreases fuel,
{
    if fuel == 0 {
        -1
    } else {
        match s.zones@[zi].parent_zone_id {
            None => -1,
            Some(pid) => if pid == root {
                1
            } else {
                let pi = s.zone_index(pid);
                if pi < 0 {
                    -1
                } else {
                    let d = climb(s, pi, root, (fuel - 1) as nat);
                    if d < 0 {
                        -1
                    } else {
                        d + 1
                    }
                }
            },
        }
    }
}

/// How deep Zone `zi` lies below the Zone `root` (at least 1), or -1 when it
/// does not lie below it.
pub open spec fn depth_below(s: &Store, zi: int, root: Oid) -> int {
    if s.zones@[zi].id == root {
        -1
    } else {
        climb(s, zi, root, s.zones@.len())
    }
}

/// The Zones at depth `d` below `root`, in snapshot order.
pub open spec fn layer(s: &Store, root: Oid, d: int) -> Seq<int> {
    select(s.zones@.len() as int, |i: int| depth_below(s, i, root) == d)
}

/// The layers `hi`, `hi - 1`, ..., `lo + 1`, one after the other.
pub open spec fn layers_down(s: &Store, root: Oid, hi: int, lo: int) -> Seq<int>
    decreases hi - lo,
{
    if hi <= lo {
        Seq::empty()
    } else {
        layers_down(s, root, hi, lo + 1) + layer(s, root, lo + 1)
    }
}

/// Every Zone below `root`, deepest first (snapshot order within a depth).
pub open spec fn deletion_order(s: &Store, root: Oid) -> Seq<int> {
    layers_down(s, root, s.zones@.len() as int, 0)
}

/// The Items that lie directly in the Zone `zid`, in snapshot order.
pub open spec fn items_in(s: &Store, zid: Oid) -> Seq<int> {
    select(s.items@.len() as int, |k: int| s.items@[k].zone_id == zid)
}

pub open spec fn item_steps(s: &Store, zid: Oid) -> Seq<Deletion> {
    items_in(s, zid).map_values(|k: int| Deletion::Item(s.items@[k].id))
}

/// A Zone's Items, then the Zone.
pub open spec fn zone_steps(s: &Store, zid: Oid) -> Seq<Deletion> {
    item_steps(s, zid).push(Deletion::Zone(zid))
}

pub open spec fn steps_of(s: &Store, zs: Seq<int>) -> Seq<Deletion>
    decreases zs.len(),
{
    if zs.len() == 0 {
        Seq::empty()
    } else {
        steps_of(s, zs.drop_last()) + zone_steps(s, s.zones@[zs.last()].id)
    }
}

/// The whole cascade for deleting the Zone `root`.
pub open spec fn cascade(s: &Store, root: Oid) -> Seq<Deletion> {
    steps_of(s, deletion_order(s, root)) + zone_steps(s, root)
}

fn climb_exec(s: &Store, zi: usize, root: &Oid, fuel: usize) -> (r: Option<usize>)
    requires
        zi < s.zones@.len(),
    ensures
        r is None <==> climb(s, zi as int, *root, fuel as nat) < 0,
        r is Some ==> r->0 as int == climb(s, zi as int, *root, fuel as nat) && r->0 <= fuel,
    decreases fuel,
{
    if fuel == 0 {
        return None;
    }
    match s.zones[zi].parent_zone_id {
        None => None,
        Some(pid) => {
            if pid.same(root) {
                Some(1)
            } else {
                match s.find_zone(&pid) {
                    None => None,
                    Some(pi) => match climb_exec(s, pi, root, fuel - 1) {
                        None => None,
                        Some(d) => Some(d + 1),
                    },
                }
            }
        },
    }
}

/// Appends the Items of Zone `zid`, then the Zone.
fn push_zone_steps(s: &Store, zid: &Oid, plan: &mut Vec<Deletion>)
    ensures
        final(plan)@ == old(plan)@ + zone_steps(s, *zid),
{
    let ghost start = plan@;
    let ghost pred = |k: int| s.items@[k].zone_id == *zid;
    let mut k: usize = 0;
    while k < s.items.len()
        invariant
            0 <= k <= s.items@.len(),
            pred == (|j: int| s.items@[j].zone_id == *zid),
            plan@ == start + select(k as int, pred).map_values(
                |j: int| Deletion::Item(s.items@[j].id),
            ),
        decreases s.items@.len() - k,
    {
        let ghost before = plan@;
        if s.items[k].zone_id.same(zid) {
            plan.push(Deletion::Item(s.items[k].id));
            assert(select(k + 1, pred) == select(k as int, pred).push(k as int));
            assert(plan@ =~= start + select(k + 1, pred).map_values(
                |j: int| Deletion::Item(s.items@[j].id),
            ));
        } else {
            assert(select(k + 1, pred) == select(k as int, pred));
        }
        k = k + 1;
    }
    plan.push(Deletion::Zone(*zid));
    assert(items_in(s, *zid) == select(s.items@.len() as int, pred));
    assert(plan@ =~= start + zone_steps(s, *zid));
}

/// The deletions, in order, that remove the Zone `root` with everything below it.
pub fn zone_deletion_plan(s: &Store, root: &Oid) -> (r: Vec<Deletion>)
    ensures
        r@ == cascade(s, *root),
{
    let n = s.zones.len();
    let mut depths: Vec<Option<usize>> = Vec::new();
    let mut i: usize = 0;
    while i < n
        invariant
            0 <= i <= n,
            n == s.zones@.len(),
            depths@.len() == i,
            forall|j: int|
                0 <= j < i ==> {
                    &&& (#[trigger] depths@[j] is None <==> depth_below(s, j, *root) < 0)
                    &&& depths@[j] is Some ==> depths@[j]->0 as int == depth_below(s, j, *root)
                },
        decreases n - i,
    {
        let d = if s.zones[i].id.same(root) {
            None
        } else {
            climb_exec(s, i, root, n)
        };
        depths.push(d);
        i = i + 1;
    }
    let mut plan: Vec<Deletion> = Vec::new();
    let ghost done: Seq<int> = Seq::empty();
    let mut d: usize = n;
    while d > 0
        invariant
            0 <= d <= n,
            n == s.zones@.len(),
            depths@.len() == n,
            forall|j: int|
                0 <= j < n ==> {
                    &&& (#[trigger] depths@[j] is None <==> depth_below(s, j, *root) < 0)
                    &&& depths@[j] is Some ==> depths@[j]->0 as int == depth_below(s, j, *root)
                },
            done == layers_down(s, *root, n as int, d as int),
            plan@ == steps_of(s, done),
        decreases d,
    {
        let ghost pred = |j: int| depth_below(s, j, *root) == d as int;
        let ghost base = done;
        let mut j: usize = 0;
        while j < n
            invariant
                0 <= j <= n,
                1 <= d <= n,
                n == s.zones@.len(),
                depths@.len() == n,
                forall|x: int|
                    0 <= x < n ==> {
                        &&& (#[trigger] depths@[x] is None <==> depth_below(s, x, *root) < 0)
                        &&& depths@[x] is Some ==> depths@[x]->0 as int == depth_below(
                            s,
                            x,
                            *root,
                        )
                    },
                base == layers_down(s, *root, n as int, d as int),
                pred == (|x: int| depth_below(s, x, *root) == d as int),
                done == base + select(j as int, pred),
                plan@ == steps_of(s, done),
            decreases n - j,
        {
            let hit = match depths[j] {
                Some(e) => e == d,
                None => false,
            };
            if hit {
                let ghost before = done;
                push_zone_steps(s, &s.zones[j].id, &mut plan);
                proof {
                    assert(select(j + 1, pred) == select(j as int, pred).push(j as int));
                    done = base + select(j + 1, pred);
                    assert(done =~= before.push(j as int));
                    assert(done.drop_last() =~= before);
                }
            } else {
                proof {
                    assert(select(j + 1, pred) == select(j as int, pred));
                    done = base + select(j + 1, pred);
                }
            }
            j = j + 1;
        }
        proof {
            assert(layer(s, *root, d as int) == select(n as int, pred));
            assert(layers_down(s, *root, n as int, d - 1) == layers_down(s, *root, n as int, d as int)
                + layer(s, *root, d as int));
        }
        d = d - 1;
    }
    push_zone_steps(s, root, &mut plan);
    plan
}

/// The Zones of Property `pid`, in snapshot order.
pub open spec fn property_zones(s: &Store, pid: Oid) -> Seq<int> {
    select(s.zones@.len() as int, |z: int| s.zones@[z].property_id == pid)
}

/// Deleting Property `pid`: each of its Zones with their Items, then the Property.
pub open spec fn property_cascade(s: &Store, pid: Oid) -> Seq<Deletion> {
    steps_of(s, property_zones(s, pid)).push(Deletion::Property(pid))
}

pub open spec fn group_properties_all(s: &Store, gid: Oid) -> Seq<int> {
    select(s.properties@.len() as int, |p: int| s.properties@[p].group_id == gid)
}

pub open spec fn properties_steps(s: &Store, ps: Seq<int>) -> Seq<Deletion>
    decreases ps.len(),
{
    if ps.len() == 0 {
        Seq::empty()
    } else {
        properties_steps(s, ps.drop_last()) + property_cascade(s, s.properties@[ps.last()].id)
    }
}

pub open spec fn group_memberships(s: &Store, gid: Oid) -> Seq<int> {
    select(s.memberships@.len() as int, |m: int| s.memberships@[m].group_id == gid)
}

/// Deleting Group `gid`: each of its Properties in cascade, then its
/// memberships, then the Group.
pub open spec fn group_cascade(s: &Store, gid: Oid) -> Seq<Deletion> {
    properties_steps(s, group_properties_all(s, gid)) + group_memberships(s, gid).map_values(
        |m: int| Deletion::Membership(s.memberships@[m].id),
    ).push(Deletion::Group(gid))
}

fn push_property_steps(s: &Store, pid: &Oid, plan: &mut Vec<Deletion>)
    ensures
        final(plan)@ == old(plan)@ + property_cascade(s, *pid),
{
    let ghost start = plan@;
    let ghost pred = |z: int| s.zones@[z].property_id == *pid;
    let ghost done: Seq<int> = Seq::empty();
    let mut z: usize = 0;
    while z < s.zones.len()
        invariant
            0 <= z <= s.zones@.len(),
            pred == (|x: int| s.zones@[x].property_id == *pid),
            done == select(z as int, pred),
            plan@ == start + steps_of(s, done),
        decreases s.zones@.len() - z,
    {
        if s.zones[z].property_id.same(pid) {
            let ghost before = done;
            push_zone_steps(s, &s.zones[z].id, plan);
            proof {
                assert(select(z + 1, pred) == select(z as int, pred).push(z as int));
                done = select(z + 1, pred);
                assert(done.drop_last() =~= before);
                assert(plan@ =~= start + steps_of(s, done));
            }
        } else {
            proof {
                assert(select(z + 1, pred) == select(z as int, pred));
                done = select(z + 1, pred);
            }
        }
        z = z + 1;
    }
    plan.push(Deletion::Property(*pid));
    assert(plan@ =~= start + property_cascade(s, *pid));
}

/// The deletions, in order, that remove Property `pid` with its Zones and Items.
pub fn property_deletion_plan(s: &Store, pid: &Oid) -> (r: Vec<Deletion>)
    ensures
        r@ == property_cascade(s, *pid),
{
    let mut plan: Vec<Deletion> = Vec::new();
    push_property_steps(s, pid, &mut plan);
    assert(plan@ =~= property_cascade(s, *pid));
    plan
}

/// The deletions, in order, that remove Group `gid` with everything it holds.
pub fn group_deletion_plan(s: &Store, gid: &Oid) -> (r: Vec<Deletion>)
    ensures
        r@ == group_cascade(s, *gid),
{
    let mut plan: Vec<Deletion> = Vec::new();
    let ghost pred = |p: int| s.properties@[p].group_id == *gid;
    let ghost done: Seq<int> = Seq::empty();
    let mut p: usize = 0;
    while p < s.properties.len()
        invariant
            0 <= p <= s.properties@.len(),
            pred == (|x: int| s.properties@[x].group_id == *gid),
            done == select(p as int, pred),
            plan@ == properties_steps(s, done),
        decreases s.properties@.len() - p,
    {
        if s.properties[p].group_id.same(gid) {
            let ghost before = done;
            push_property_steps(s, &s.properties[p].id, &mut plan);
            proof {
                assert(select(p + 1, pred) == select(p as int, pred).push(p as int));
                done = select(p + 1, pred);
                assert(done.drop_last() =~= before);
            }
        } else {
            proof {
                assert(select(p + 1, pred) == select(p as int, pred));
                done = select(p + 1, pred);
            }
        }
        p = p + 1;
    }
    let ghost base = plan@;
    let ghost mpred = |m: int| s.memberships@[m].group_id == *gid;
    let mut m: usize = 0;
    while m < s.memberships.len()
        invariant
            0 <= m <= s.memberships@.len(),
            mpred == (|x: int| s.memberships@[x].group_id == *gid),
            plan@ == base + select(m as int, mpred).map_values(
                |x: int| Deletion::Membership(s.memberships@[x].id),
            ),
        decreases s.memberships@.len() - m,
    {
        if s.memberships[m].group_id.same(gid) {
            plan.push(Deletion::Membership(s.memberships[m].id));
            assert(select(m + 1, mpred) == select(m as int, mpred).push(m as int));
            assert(plan@ =~= base + select(m + 1, mpred).map_values(
                |x: int| Deletion::Membership(s.memberships@[x].id),
            ));
        } else {
            assert(select(m + 1, mpred) == select(m as int, mpred));
        }
        m = m + 1;
    }
    plan.push(Deletion::Group(*gid));
    assert(plan@ =~= group_cascade(s, *gid));
    plan
}

/// The Zones a sequence of deletions removes, in order.
pub open spec fn zone_deletions(steps: Seq<Deletion>) -> Seq<Oid>
    decreases steps.len(),
{
    if steps.len() == 0 {
        Seq::empty()
    } else {
        let rest = zone_deletions(steps.drop_last());
        match steps.last() {
            Deletion::Zone(z) => rest.push(z),
            _ => rest,
        }
    }
}

proof fn lemma_zone_deletions_add(a: Seq<Deletion>, b: Seq<Deletion>)
    ensures
        zone_deletions(a + b) == zone_deletions(a) + zone_deletions(b),
    decreases b.len(),
{
    if b.len() == 0 {
        assert(a + b =~= a);
        assert(zone_deletions(b) =~= Seq::<Oid>::empty());
        assert(zone_deletions(a) + zone_deletions(b) =~= zone_deletions(a));
    } else {
        lemma_zone_deletions_add(a, b.drop_last());
        assert((a + b).drop_last() =~= a + b.drop_last());
        assert((a + b).last() == b.last());
        match b.last() {
            Deletion::Zone(z) => {
                assert(zone_deletions(a + b) =~= zone_deletions(a) + zone_deletions(b));
            },
            _ => {},
        }
    }
}

proof fn lemma_zone_deletions_items(s: &Store, zid: Oid, m: int)
    requires
        0 <= m <= item_steps(s, zid).len(),
    ensures
        zone_deletions(item_steps(s, zid).take(m)) == Seq::<Oid>::empty(),
    decreases m,
{
    if m > 0 {
        lemma_zone_deletions_items(s, zid, m - 1);
        assert(item_steps(s, zid).take(m).drop_last() =~= item_steps(s, zid).take(m - 1));
    } else {
        assert(item_steps(s, zid).take(m) =~= Seq::<Deletion>::empty());
    }
}

proof fn lemma_zone_steps_deletions(s: &Store, zid: Oid)
    ensures
        zone_deletions(zone_steps(s, zid)) == seq![zid],
{
    let it = item_steps(s, zid);
    lemma_zone_deletions_items(s, zid, it.len() as int);
    assert(it.take(it.len() as int) =~= it);
    assert(zone_steps(s, zid).drop_last() =~= it);
    assert(zone_deletions(zone_steps(s, zid)) =~= seq![zid]);
}

proof fn lemma_steps_of_deletions(s: &Store, zs: Seq<int>)
    ensures
        zone_deletions(steps_of(s, zs)) == zs.map_values(|i: int| s.zones@[i].id),
    decreases zs.len(),
{
    if zs.len() == 0 {
        assert(zone_deletions(steps_of(s, zs)) =~= zs.map_values(|i: int| s.zones@[i].id));
    } else {
        lemma_steps_of_deletions(s, zs.drop_last());
        let zid = s.zones@[zs.last()].id;
        lemma_zone_deletions_add(steps_of(s, zs.drop_last()), zone_steps(s, zid));
        lemma_zone_steps_deletions(s, zid);
        assert(zs.map_values(|i: int| s.zones@[i].id) =~= zs.drop_last().map_values(
            |i: int| s.zones@[i].id,
        ).push(zid));
    }
}

proof fn lemma_climb_bound(s: &Store, zi: int, root: Oid, fuel: nat)
    ensures
        -1 <= climb(s, zi, root, fuel) <= fuel,
    decreases fuel,
{
    if fuel > 0 {
        if let Some(pid) = s.zones@[zi].parent_zone_id {
            if pid != root && s.zone_index(pid) >= 0 {
                lemma_climb_bound(s, s.zone_index(pid), root, (fuel - 1) as nat);
            }
        }
    }
}

proof fn lemma_climb_fuel(s: &Store, zi: int, root: Oid, f: nat, g: nat)
    requires
        climb(s, zi, root, f) >= 0,
        f <= g,
    ensures
        climb(s, zi, root, g) == climb(s, zi, root, f),
    decreases f,
{
    if let Some(pid) = s.zones@[zi].parent_zone_id {
        if pid != root {
            lemma_climb_fuel(s, s.zone_index(pid), root, (f - 1) as nat, (g - 1) as nat);
        }
    }
}

proof fn lemma_layers(s: &Store, root: Oid, hi: int, lo: int)
    requires
        0 <= lo <= hi,
    ensures
        layers_down(s, root, hi, lo).no_duplicates(),
        forall|x: int|
            #[trigger] layers_down(s, root, hi, lo).contains(x) <==> 0 <= x < s.zones@.len()
                && lo < depth_below(s, x, root) <= hi,
        forall|a: int, b: int|
            0 <= a < b < layers_down(s, root, hi, lo).len() ==> depth_below(
                s,
                #[trigger] layers_down(s, root, hi, lo)[a],
                root,
            ) >= depth_below(s, #[trigger] layers_down(s, root, hi, lo)[b], root),
    decreases hi - lo,
{
    let n = s.zones@.len() as int;
    if lo < hi {
        lemma_layers(s, root, hi, lo + 1);
        let pred = |i: int| depth_below(s, i, root) == lo + 1;
        lemma_select(n, pred);
        let a = layers_down(s, root, hi, lo + 1);
        let b = layer(s, root, lo + 1);
        let c = layers_down(s, root, hi, lo);
        assert(c == a + b);
        assert forall|x: int| #[trigger] c.contains(x) <==> 0 <= x < n && lo < depth_below(
            s,
            x,
            root,
        ) <= hi by {
            if c.contains(x) {
                let k = choose|k: int| 0 <= k < c.len() && c[k] == x;
                if k < a.len() {
                    assert(a.contains(x));
                } else {
                    assert(b[k - a.len()] == x);
                    assert(b.contains(x));
                }
            }
            if 0 <= x < n && lo < depth_below(s, x, root) <= hi {
                if depth_below(s, x, root) == lo + 1 {
                    assert(pred(x));
                    assert(b.contains(x));
                    let k = choose|k: int| 0 <= k < b.len() && b[k] == x;
                    assert(c[a.len() + k] == x);
                } else {
                    assert(a.contains(x));
                    let k = choose|k: int| 0 <= k < a.len() && a[k] == x;
                    assert(c[k] == x);
                }
            }
        }
        assert forall|i: int, j: int| 0 <= i < c.len() && 0 <= j < c.len() && i != j implies c[i]
            != c[j] by {
            if i < a.len() && j >= a.len() {
                assert(a.contains(c[i]));
                assert(b[j - a.len()] == c[j]);
            } else if j < a.len() && i >= a.len() {
                assert(a.contains(c[j]));
                assert(b[i - a.len()] == c[i]);
            } else if i >= a.len() && j >= a.len() {
                assert(b[i - a.len()] == c[i]);
                assert(b[j - a.len()] == c[j]);
            }
        }
        assert forall|i: int, j: int| 0 <= i < j < c.len() implies depth_below(
            s,
            #[trigger] c[i],
            root,
        ) >= depth_below(s, #[trigger] c[j], root) by {
            if j >= a.len() {
                assert(b[j - a.len()] == c[j]);
                if i < a.len() {
                    assert(a.contains(c[i]));
                } else {
                    assert(b[i - a.len()] == c[i]);
                }
            }
        }
    }
}

/// Cascade completeness. The cascade for Zone `root` deletes exactly the Zones
/// below `root`, each once, then `root`: one Zone deletion more than there
/// are Zones below it; and a Zone below `root` goes before its parent.
pub proof fn lemma_cascade_complete(s: &Store, root: Oid)
    requires
        s.wf(),
    ensures
        deletion_order(s, root).no_duplicates(),
        forall|x: int|
            #[trigger] deletion_order(s, root).contains(x) <==> 0 <= x < s.zones@.len()
                && depth_below(s, x, root) >= 1,
        zone_deletions(cascade(s, root)) == deletion_order(s, root).map_values(
            |i: int| s.zones@[i].id,
        ).push(root),
        forall|x: int, y: int|
            0 <= x < deletion_order(s, root).len() && 0 <= y < deletion_order(s, root).len()
                && s.zones@[deletion_order(s, root)[x]].parent_zone_id == Some(
                s.zones@[deletion_order(s, root)[y]].id,
            ) ==> x < y,
{
    let n = s.zones@.len() as int;
    let order = deletion_order(s, root);
    lemma_layers(s, root, n, 0);
    assert forall|x: int| 0 <= x < n implies depth_below(s, x, root) <= n by {
        lemma_climb_bound(s, x, root, n as nat);
    }
    lemma_steps_of_deletions(s, order);
    lemma_zone_deletions_add(steps_of(s, order), zone_steps(s, root));
    lemma_zone_steps_deletions(s, root);
    assert forall|x: int, y: int|
        0 <= x < order.len() && 0 <= y < order.len() && s.zones@[order[x]].parent_zone_id == Some(
            s.zones@[order[y]].id,
        ) implies x < y by {
        let b = order[x];
        let a = order[y];
        assert(order.contains(b));
        assert(order.contains(a));
        let pid = s.zones@[a].id;
        crate::model::lemma_first_index_unique(crate::model::zone_ids(s.zones@), a);
        assert(crate::model::zone_ids(s.zones@)[a] == pid);
        assert(s.zone_index(pid) == a);
        assert(pid != root);
        let d = climb(s, a, root, (n - 1) as nat);
        assert(d >= 0);
        lemma_climb_fuel(s, a, root, (n - 1) as nat, n as nat);
        assert(depth_below(s, b, root) == depth_below(s, a, root) + 1);
        if y < x {
            assert(depth_below(s, order[y], root) >= depth_below(s, order[x], root));
        }
    }
}

/// The Items a sequence of deletions removes, in order.
pub open spec fn item_deletions(steps: Seq<Deletion>) -> Seq<Oid>
    decreases steps.len(),
{
    if steps.len() == 0 {
        Seq::empty()
    } else {
        let rest = item_deletions(steps.drop_last());
        match steps.last() {
            Deletion::Item(i) => rest.push(i),
            _ => rest,
        }
    }
}

/// The identifiers of the Items in each of the Zones `zids`, Zone by Zone.
pub open spec fn items_of_zones(s: &Store, zids: Seq<Oid>) -> Seq<Oid>
    decreases zids.len(),
{
    if zids.len() == 0 {
        Seq::empty()
    } else {
        items_of_zones(s, zids.drop_last()) + items_in(s, zids.last()).map_values(
            |k: int| s.items@[k].id,
        )
    }
}

proof fn lemma_item_deletions_add(a: Seq<Deletion>, b: Seq<Deletion>)
    ensures
        item_deletions(a + b) == item_deletions(a) + item_deletions(b),
    decreases b.len(),
{
    if b.len() == 0 {
        assert(a + b =~= a);
        assert(item_deletions(a) + item_deletions(b) =~= item_deletions(a));
    } else {
        lemma_item_deletions_add(a, b.drop_last());
        assert((a + b).drop_last() =~= a + b.drop_last());
        assert((a + b).last() == b.last());
        match b.last() {
            Deletion::Item(i) => {
                assert(item_deletions(a + b) =~= item_deletions(a) + item_deletions(b));
            },
            _ => {},
        }
    }
}

proof fn lemma_item_deletions_items(s: &Store, zid: Oid, m: int)
    requires
        0 <= m <= item_steps(s, zid).len(),
    ensures
        item_deletions(item_steps(s, zid).take(m)) == items_in(s, zid).map_values(
            |k: int| s.items@[k].id,
        ).take(m),
    decreases m,
{
    let ids = items_in(s, zid).map_values(|k: int| s.items@[k].id);
    if m > 0 {
        lemma_item_deletions_items(s, zid, m - 1);
        assert(item_steps(s, zid).take(m).drop_last() =~= item_steps(s, zid).take(m - 1));
        assert(ids.take(m) =~= ids.take(m - 1).push(ids[m - 1]));
    } else {
        assert(item_steps(s, zid).take(m) =~= Seq::<Deletion>::empty());
        assert(ids.take(m) =~= Seq::<Oid>::empty());
    }
}

proof fn lemma_zone_steps_items(s: &Store, zid: Oid)
    ensures
        item_deletions(zone_steps(s, zid)) == items_in(s, zid).map_values(|k: int| s.items@[k].id),
{
    let it = item_steps(s, zid);
    let ids = items_in(s, zid).map_values(|k: int| s.items@[k].id);
    lemma_item_deletions_items(s, zid, it.len() as int);
    assert(it.take(it.len() as int) =~= it);
    assert(ids.take(ids.len() as int) =~= ids);
    assert(zone_steps(s, zid).drop_last() =~= it);
}

proof fn lemma_steps_of_items(s: &Store, zs: Seq<int>)
    ensures
        item_deletions(steps_of(s, zs)) == items_of_zones(s, zs.map_values(|i: int| s.zones@[i].id)),
    decreases zs.len(),
{
    let zids = zs.map_values(|i: int| s.zones@[i].id);
    if zs.len() == 0 {
        assert(item_deletions(steps_of(s, zs)) =~= items_of_zones(s, zids));
    } else {
        lemma_steps_of_items(s, zs.drop_last());
        let zid = s.zones@[zs.last()].id;
        lemma_item_deletions_add(steps_of(s, zs.drop_last()), zone_steps(s, zid));
        lemma_zone_steps_items(s, zid);
        assert(zids.drop_last() =~= zs.drop_last().map_values(|i: int| s.zones@[i].id));
    }
}

/// Cascade completeness for Items. The Items the cascade for Zone `root`
/// deletes are exactly the Items of the Zones it deletes, Zone by Zone, in
/// the order the Zones go.
pub proof fn lemma_cascade_items(s: &Store, root: Oid)
    ensures
        item_deletions(cascade(s, root)) == items_of_zones(
            s,
            deletion_order(s, root).map_values(|i: int| s.zones@[i].id).push(root),
        ),
{
    let order = deletion_order(s, root);
    let zids = order.map_values(|i: int| s.zones@[i].id).push(root);
    lemma_steps_of_items(s, order);
    lemma_item_deletions_add(steps_of(s, order), zone_steps(s, root));
    lemma_zone_steps_items(s, root);
    assert(zids.drop_last() =~= order.map_values(|i: int| s.zones@[i].id));
}

/// The Items whose Zone is one of `zids`.
pub open spec fn items_within(s: &Store, zids: Seq<Oid>) -> Seq<int> {
    select(s.items@.len() as int, |k: int| zids.contains(s.items@[k].zone_id))
}

proof fn lemma_items_of_zones_len(s: &Store, zids: Seq<Oid>)
    requires
        zids.no_duplicates(),
    ensures
        items_of_zones(s, zids).len() == items_within(s, zids).len(),
    decreases zids.len(),
{
    let n = s.items@.len() as int;
    if zids.len() == 0 {
        lemma_select_same(n, |k: int| zids.contains(s.items@[k].zone_id), |k: int| false);
        assert(select(n, |k: int| false).len() == 0) by {
            lemma_select(n, |k: int| false);
            if select(n, |k: int| false).len() > 0 {
                assert(select(n, |k: int| false).contains(select(n, |k: int| false)[0]));
            }
        }
    } else {
        let front = zids.drop_last();
        let z = zids.last();
        assert forall|i: int, j: int| 0 <= i < j < front.len() implies front[i] != front[j] by {
            assert(front[i] == zids[i] && front[j] == zids[j]);
        }
        lemma_items_of_zones_len(s, front);
        assert(!front.contains(z)) by {
            if front.contains(z) {
                let i = choose|i: int| 0 <= i < front.len() && front[i] == z;
                assert(zids[i] == zids[zids.len() - 1]);
            }
        }
        let p = |k: int| front.contains(s.items@[k].zone_id);
        let q = |k: int| s.items@[k].zone_id == z;
        let both = |k: int| zids.contains(s.items@[k].zone_id);
        assert forall|k: int| 0 <= k < n implies #[trigger] both(k) == (p(k) || q(k)) by {
            let w = s.items@[k].zone_id;
            if zids.contains(w) {
                let i = choose|i: int| 0 <= i < zids.len() && zids[i] == w;
                if i < front.len() {
                    assert(front[i] == w);
                }
            }
            if front.contains(w) {
                let i = choose|i: int| 0 <= i < front.len() && front[i] == w;
                assert(zids[i] == w);
            }
            if w == z {
                assert(zids[zids.len() - 1] == w);
            }
        }
        lemma_select_len_split(n, p, q, both);
        assert(items_in(s, z) == select(n, q));
    }
}

/// Cascade completeness, counted. With identifiers unique, the cascade for
/// Zone `root` makes as many Item deletions as there are Items in the Zones
/// it deletes.
pub proof fn lemma_cascade_item_count(s: &Store, root: Oid)
    requires
        s.wf(),
    ensures
        item_deletions(cascade(s, root)).len() == items_within(
            s,
            deletion_order(s, root).map_values(|i: int| s.zones@[i].id).push(root),
        ).len(),
{
    let n = s.zones@.len() as int;
    let order = deletion_order(s, root);
    let ids = order.map_values(|i: int| s.zones@[i].id);
    let zids = ids.push(root);
    lemma_layers(s, root, n, 0);
    lemma_cascade_items(s, root);
    assert forall|i: int, j: int| 0 <= i < zids.len() && 0 <= j < zids.len() && i != j implies zids[i]
        != zids[j] by {
        if i < ids.len() && j < ids.len() {
            assert(order.contains(order[i]) && order.contains(order[j]));
            assert(crate::model::zone_ids(s.zones@)[order[i]] == s.zones@[order[i]].id);
            assert(crate::model::zone_ids(s.zones@)[order[j]] == s.zones@[order[j]].id);
        } else if i < ids.len() {
            assert(order.contains(order[i]));
        } else if j < ids.len() {
            assert(order.contains(order[j]));
        }
    }
    lemma_items_of_zones_len(s, zids);
}

} // verus!
