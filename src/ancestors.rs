//! The ancestor chain of any identifier: enclosing Zones, Property and Group.

use crate::ids::{hex_bytes, is_oid_text, Oid};
use crate::model::Store;
use vstd::prelude::*;

verus! {

#[derive(Clone, Copy, Debug, PartialEq, Eq, Structural)]
pub enum ResolveError {
    /// The identifier is not 24 hexadecimal digits.
    InvalidIdentifier,
    /// No record of any collection has the identifier.
    NotFound,
    /// Parent links run in a cycle.
    CorruptHierarchy,
}

/// Positions in the snapshot of the ancestors of a record.
#[derive(Clone, Debug)]
pub struct Ancestors {
    pub group: Option<usize>,
    pub property: Option<usize>,
    /// Enclosing Zones, the one nearest the Property first.
    pub zones: Vec<usize>,
}

pub struct Chain {
    pub group: Option<int>,
    pub property: Option<int>,
    pub zones: Seq<int>,
}

pub open spec fn opt_int(o: Option<usize>) -> Option<int> {
    match o {
        Some(i) => Some(i as int),
        None => None,
    }
}

impl View for Ancestors {
    type V = Chain;

    open spec fn view(&self) -> Chain {
        Chain {
            group: opt_int(self.group),
            property: opt_int(self.property),
            zones: self.zones@.map_values(|i: usize| i as int),
        }
    }
}

/// The Property of a walk, or `fallback` where the walk ended on a missing Zone.
pub open spec fn or_fallback(p: Option<Oid>, fallback: Oid) -> Option<Oid> {
    if p is Some {
        p
    } else {
        Some(fallback)
    }
}

/// Walks up from the Zone `c`: the Zones met, outermost first, and the Property
/// they lead to (if known). `None` when more than `fuel` Zones would be met.
/// The walk stops at a Zone without parent, at a Zone whose parent is its own
/// Property, or at an identifier that names no Zone.
pub open spec fn walk_up(s: &Store, c: Oid, fuel: nat) -> Option<(Seq<int>, Option<Oid>)>
    decreases fuel,
{
    let zi = s.zone_index(c);
    if zi < 0 {
        Some((Seq::empty(), None))
    } else if fuel == 0 {
        None
    } else {
        let z = s.zones@[zi];
        if z.parent_zone_id is None || z.parent_zone_id == Some(z.property_id) {
            Some((seq![zi], Some(z.property_id)))
        } else {
            match walk_up(s, z.parent_zone_id->0, (fuel - 1) as nat) {
                None => None,
                Some((zs, p)) => Some((zs.push(zi), or_fallback(p, z.property_id))),
            }
        }
    }
}

/// The chain made of the Zones `zs` and the Property `p`, with that Property's Group.
pub open spec fn finish(s: &Store, zs: Seq<int>, p: Option<Oid>) -> Chain {
    let pi = if p is Some {
        s.property_index(p->0)
    } else {
        -1
    };
    let gi = if pi >= 0 {
        s.group_index(s.properties@[pi].group_id)
    } else {
        -1
    };
    Chain {
        group: if gi >= 0 {
            Some(gi)
        } else {
            None
        },
        property: if pi >= 0 {
            Some(pi)
        } else {
            None
        },
        zones: zs,
    }
}

/// The ancestors of the record `id`. The collections are probed in the order
/// Item, Zone, Property, Group; the record itself is not among its ancestors.
pub open spec fn ancestors_of(s: &Store, id: Oid) -> Result<Chain, ResolveError> {
    let fuel = s.zones@.len();
    let ii = s.item_index(id);
    let zi = s.zone_index(id);
    let pi = s.property_index(id);
    if ii >= 0 {
        match walk_up(s, s.items@[ii].zone_id, fuel) {
            None => Err(ResolveError::CorruptHierarchy),
            Some((zs, p)) => Ok(finish(s, zs, p)),
        }
    } else if zi >= 0 {
        let z = s.zones@[zi];
        if z.parent_zone_id is None || z.parent_zone_id == Some(z.property_id) {
            Ok(finish(s, Seq::empty(), Some(z.property_id)))
        } else {
            match walk_up(s, z.parent_zone_id->0, fuel) {
                None => Err(ResolveError::CorruptHierarchy),
                Some((zs, p)) => Ok(finish(s, zs, or_fallback(p, z.property_id))),
            }
        }
    } else if pi >= 0 {
        Ok(finish(s, Seq::empty(), Some(id)))
    } else if s.group_index(id) >= 0 {
        Ok(Chain { group: None, property: None, zones: Seq::empty() })
    } else {
        Err(ResolveError::NotFound)
    }
}

fn walk(s: &Store, c: Oid, fuel: usize) -> (r: Option<(Vec<usize>, Option<Oid>)>)
    ensures
        match r {
            None => walk_up(s, c, fuel as nat) is None,
            Some((zs, p)) => walk_up(s, c, fuel as nat) == Some(
                (zs@.map_values(|i: usize| i as int), p),
            ),
        },
    decreases fuel,
{
    let zi = match s.find_zone(&c) {
        None => {
            let v: Vec<usize> = Vec::new();
            assert(v@.map_values(|i: usize| i as int) =~= Seq::<int>::empty());
            return Some((v, None));
        },
        Some(zi) => zi,
    };
    if fuel == 0 {
        return None;
    }
    let z = &s.zones[zi];
    let stop = match z.parent_zone_id {
        None => true,
        Some(p) => p.same(&z.property_id),
    };
    if stop {
        let v: Vec<usize> = vec![zi];
        assert(v@.map_values(|i: usize| i as int) =~= seq![zi as int]);
        return Some((v, Some(z.property_id)));
    }
    let parent = z.parent_zone_id.unwrap();
    match walk(s, parent, fuel - 1) {
        None => None,
        Some((mut zs, p)) => {
            let ghost before = zs@;
            zs.push(zi);
            assert(zs@.map_values(|i: usize| i as int) =~= before.map_values(|i: usize| i as int).push(
                zi as int,
            ));
            let p2 = match p {
                Some(q) => Some(q),
                None => Some(z.property_id),
            };
            Some((zs, p2))
        },
    }
}

fn finish_exec(s: &Store, zones: Vec<usize>, p: Option<Oid>) -> (r: Ancestors)
    ensures
        r@ == finish(s, zones@.map_values(|i: usize| i as int), p),
{
    let property = match p {
        Some(pid) => s.find_property(&pid),
        None => None,
    };
    let group = match property {
        Some(pi) => s.find_group(&s.properties[pi].group_id),
        None => None,
    };
    Ancestors { group, property, zones }
}

/// The ancestors of the record `id` (see `ancestors_of`).
pub fn ancestors(s: &Store, id: &Oid) -> (r: Result<Ancestors, ResolveError>)
    ensures
        r is Ok <==> ancestors_of(s, *id) is Ok,
        r is Ok ==> ancestors_of(s, *id) == Ok::<Chain, ResolveError>(r->Ok_0@),
        r is Err ==> ancestors_of(s, *id) == Err::<Chain, ResolveError>(r->Err_0),
{
    let fuel = s.zones.len();
    if let Some(ii) = s.find_item(id) {
        return match walk(s, s.items[ii].zone_id, fuel) {
            None => Err(ResolveError::CorruptHierarchy),
            Some((zs, p)) => Ok(finish_exec(s, zs, p)),
        };
    }
    if let Some(zi) = s.find_zone(id) {
        let z = &s.zones[zi];
        let stop = match z.parent_zone_id {
            None => true,
            Some(p) => p.same(&z.property_id),
        };
        if stop {
            let v: Vec<usize> = Vec::new();
            assert(v@.map_values(|i: usize| i as int) =~= Seq::<int>::empty());
            return Ok(finish_exec(s, v, Some(z.property_id)));
        }
        return match walk(s, z.parent_zone_id.unwrap(), fuel) {
            None => Err(ResolveError::CorruptHierarchy),
            Some((zs, p)) => {
                let p2 = match p {
                    Some(q) => Some(q),
                    None => Some(z.property_id),
                };
                Ok(finish_exec(s, zs, p2))
            },
        };
    }
    if s.find_property(id).is_some() {
        let v: Vec<usize> = Vec::new();
        assert(v@.map_values(|i: usize| i as int) =~= Seq::<int>::empty());
        return Ok(finish_exec(s, v, Some(*id)));
    }
    if s.find_group(id).is_some() {
        let v: Vec<usize> = Vec::new();
        let r = Ancestors { group: None, property: None, zones: v };
        assert(r@.zones =~= Seq::<int>::empty());
        return Ok(r);
    }
    Err(ResolveError::NotFound)
}

/// The ancestors of the record whose identifier is written `text`.
pub fn get_ancestors(s: &Store, text: &str) -> (r: Result<Ancestors, ResolveError>)
    ensures
        r == Err::<Ancestors, ResolveError>(ResolveError::InvalidIdentifier) <==> !is_oid_text(
            text@,
        ),
        forall|o: Oid|
            is_oid_text(text@) && o.bytes@ == hex_bytes(text@) ==> {
                &&& (r is Ok <==> ancestors_of(s, o) is Ok)
                &&& r is Ok ==> ancestors_of(s, o) == Ok::<Chain, ResolveError>(r->Ok_0@)
                &&& r is Err ==> ancestors_of(s, o) == Err::<Chain, ResolveError>(r->Err_0)
            },
{
    match Oid::parse(text) {
        None => Err(ResolveError::InvalidIdentifier),
        Some(id) => {
            let r = ancestors(s, &id);
            assert forall|o: Oid| is_oid_text(text@) && o.bytes@ == hex_bytes(text@) implies o
                == id by {
                assert(o.bytes =~= id.bytes);
            }
            r
        },
    }
}

/// `chain` lists Zones nested one in the next, all of them belonging to the
/// Property `p`, from a Zone without parent Zone in the snapshot (no parent,
/// `p` itself, or an identifier that names no Zone) down.
pub open spec fn is_zone_chain(s: &Store, chain: Seq<int>, p: int) -> bool {
    &&& 0 <= p < s.properties@.len()
    &&& chain.len() >= 1
    &&& forall|k: int| 0 <= k < chain.len() ==> 0 <= #[trigger] chain[k] < s.zones@.len()
    &&& forall|k: int|
        0 <= k < chain.len() ==> (#[trigger] s.zones@[chain[k]]).property_id
            == s.properties@[p].id
    &&& match s.zones@[chain[0]].parent_zone_id {
        None => true,
        Some(pid) => pid == s.properties@[p].id || s.zone_index(pid) < 0,
    }
    &&& forall|k: int|
        1 <= k < chain.len() ==> (#[trigger] s.zones@[chain[k]]).parent_zone_id == Some(
            s.zones@[chain[k - 1]].id,
        )
}

proof fn lemma_walk_chain(s: &Store, chain: Seq<int>, p: int, k: int, fuel: nat)
    requires
        s.wf(),
        is_zone_chain(s, chain, p),
        0 <= k < chain.len(),
        fuel >= k + 1,
    ensures
        walk_up(s, s.zones@[chain[k]].id, fuel) == Some((chain.take(k + 1), Some(s.properties@[p].id))),
    decreases k,
{
    let zi = chain[k];
    crate::model::lemma_first_index_unique(crate::model::zone_ids(s.zones@), zi);
    assert(crate::model::zone_ids(s.zones@)[zi] == s.zones@[zi].id);
    assert(s.zone_index(s.zones@[zi].id) == zi);
    if k == 0 {
        assert(chain.take(1) =~= seq![zi]);
        if let Some(pid) = s.zones@[zi].parent_zone_id {
            if pid != s.properties@[p].id {
                assert(walk_up(s, pid, (fuel - 1) as nat) == Some((Seq::<int>::empty(), None::<Oid>)));
                assert(seq![zi] =~= Seq::<int>::empty().push(zi));
            }
        }
    } else {
        let prev = chain[k - 1];
        assert(s.zones@[prev].id != s.properties@[p].id);
        lemma_walk_chain(s, chain, p, k - 1, (fuel - 1) as nat);
        assert(chain.take(k).push(zi) =~= chain.take(k + 1));
    }
}

proof fn lemma_chain_distinct_at(s: &Store, chain: Seq<int>, p: int, i: int, j: int)
    requires
        s.wf(),
        is_zone_chain(s, chain, p),
        0 <= i < j < chain.len(),
    ensures
        chain[i] != chain[j],
    decreases i,
{
    if chain[i] == chain[j] {
        let prev_j = chain[j - 1];
        if i == 0 {
            assert(s.zones@[prev_j].id != s.properties@[p].id);
            crate::model::lemma_first_index_unique(crate::model::zone_ids(s.zones@), prev_j);
            assert(crate::model::zone_ids(s.zones@)[prev_j] == s.zones@[prev_j].id);
        } else {
            let prev_i = chain[i - 1];
            assert(crate::model::zone_ids(s.zones@)[prev_i] == s.zones@[prev_i].id);
            assert(crate::model::zone_ids(s.zones@)[prev_j] == s.zones@[prev_j].id);
            lemma_chain_distinct_at(s, chain, p, i - 1, j - 1);
        }
    }
}

/// The Zones of a chain are distinct.
pub proof fn lemma_chain_distinct(s: &Store, chain: Seq<int>, p: int)
    requires
        s.wf(),
        is_zone_chain(s, chain, p),
    ensures
        chain.no_duplicates(),
{
    assert forall|i: int, j: int| 0 <= i < chain.len() && 0 <= j < chain.len() && i != j implies chain[i]
        != chain[j] by {
        if i < j {
            lemma_chain_distinct_at(s, chain, p, i, j);
        } else {
            lemma_chain_distinct_at(s, chain, p, j, i);
        }
    }
}

/// A chain of distinct Zones is no longer than the Zone collection.
proof fn lemma_chain_fits(s: &Store, chain: Seq<int>, p: int)
    requires
        s.wf(),
        is_zone_chain(s, chain, p),
    ensures
        chain.len() <= s.zones@.len(),
{
    lemma_chain_distinct(s, chain, p);
    chain.unique_seq_to_set();
    vstd::set_lib::lemma_int_range(0, s.zones@.len() as int);
    assert(chain.to_set().subset_of(vstd::set_lib::set_int_range(0, s.zones@.len() as int)));
    vstd::set_lib::lemma_len_subset(
        chain.to_set(),
        vstd::set_lib::set_int_range(0, s.zones@.len() as int),
    );
}

/// Ancestor round trip. For an Item in the innermost Zone of `chain`, a chain
/// of nested Zones under Property `p` of Group `g`, the ancestors of the Item
/// are the whole chain, outermost first, with `p` and `g`; those of the Item's
/// Zone are the chain without that Zone.
pub proof fn lemma_ancestor_round_trip(s: &Store, item: int, chain: Seq<int>, p: int, g: int)
    requires
        s.wf(),
        is_zone_chain(s, chain, p),
        0 <= item < s.items@.len(),
        0 <= g < s.groups@.len(),
        s.items@[item].zone_id == s.zones@[chain.last()].id,
        s.properties@[p].group_id == s.groups@[g].id,
    ensures
        ancestors_of(s, s.items@[item].id) == Ok::<Chain, ResolveError>(
            Chain { group: Some(g), property: Some(p), zones: chain },
        ),
        ancestors_of(s, s.zones@[chain.last()].id) == Ok::<Chain, ResolveError>(
            Chain { group: Some(g), property: Some(p), zones: chain.drop_last() },
        ),
{
    let n = chain.len() as int;
    lemma_chain_fits(s, chain, p);
    crate::model::lemma_first_index_unique(crate::model::item_ids(s.items@), item);
    assert(crate::model::item_ids(s.items@)[item] == s.items@[item].id);
    crate::model::lemma_first_index_unique(crate::model::property_ids(s.properties@), p);
    assert(crate::model::property_ids(s.properties@)[p] == s.properties@[p].id);
    crate::model::lemma_first_index_unique(crate::model::group_ids(s.groups@), g);
    assert(crate::model::group_ids(s.groups@)[g] == s.groups@[g].id);
    lemma_walk_chain(s, chain, p, n - 1, s.zones@.len());
    assert(chain.take(n) =~= chain);
    // The Item's Zone
    let last = chain[n - 1];
    let zid = s.zones@[last].id;
    crate::model::lemma_first_index(crate::model::item_ids(s.items@), zid);
    assert forall|j: int| 0 <= j < s.items@.len() implies crate::model::item_ids(s.items@)[j]
        != zid by {
        assert(crate::model::item_ids(s.items@)[j] == s.items@[j].id);
    }
    assert(s.item_index(zid) == -1);
    crate::model::lemma_first_index_unique(crate::model::zone_ids(s.zones@), last);
    assert(crate::model::zone_ids(s.zones@)[last] == zid);
    if n >= 2 {
        assert(s.zones@[chain[n - 2]].id != s.properties@[p].id);
        lemma_walk_chain(s, chain, p, n - 2, s.zones@.len());
        assert(chain.take(n - 1) =~= chain.drop_last());
    } else {
        assert(chain.drop_last() =~= Seq::<int>::empty());
    }
}

} // verus!
